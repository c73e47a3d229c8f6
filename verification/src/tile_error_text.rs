//! Why a tile payload could not be read, in words.
use vstd::prelude::*;

use crate::text::{decimal, decimal_text};
use crate::tile_format::TileReadError;

verus! {

/// Four bytes as a list of numbers.
pub open spec fn byte_list(b: [u8; 4]) -> Seq<char> {
    "["@ + decimal(b@[0] as nat) + ", "@ + decimal(b@[1] as nat) + ", "@ + decimal(b@[2] as nat)
        + ", "@ + decimal(b@[3] as nat) + "]"@
}

/// What is said of a pool that a record reaches past.
pub open spec fn past_pool(offset: usize, len: usize, pool: usize) -> Seq<char> {
    "offset "@ + decimal(offset as nat) + " + len "@ + decimal(len as nat) + " > pool size "@
        + decimal(pool as nat)
}

/// The message of an error.
pub open spec fn message_of(e: TileReadError) -> Seq<char> {
    match e {
        TileReadError::BadMagic(b) => "bad magic: expected OLRL, got "@ + byte_list(b),
        TileReadError::UnsupportedVersion(v) => "unsupported tile version "@ + decimal(v as nat)
            + " (expected 3)"@,
        TileReadError::TooShort { need, have } => "tile payload too short: need at least "@
            + decimal(need as nat) + " bytes, have "@ + decimal(have as nat),
        TileReadError::GeomOutOfRange { offset, len, pool } => "geometry index out of range: "@
            + past_pool(offset, len, pool),
        TileReadError::GeomTooShort { index, len } => "segment "@ + decimal(index as nat)
            + " has "@ + decimal(len as nat) + " geometry vertices (minimum 2)"@,
        TileReadError::NodeIndexOob(i) => "local node index "@ + decimal(i as nat)
            + " out of range"@,
        TileReadError::SegIndexOob(i) => "local segment index "@ + decimal(i as nat)
            + " out of range"@,
        TileReadError::PoolOutOfRange { offset, len, pool } =>
            "string pool reference out of range: "@ + past_pool(offset, len, pool),
        TileReadError::InvalidUtf8 => "string pool entry is not valid UTF-8"@,
    }
}

fn append_number(s: &mut String, n: u64)
    ensures
        final(s)@ == old(s)@ + decimal(n as nat),
{
    let t: String = decimal_text(n);
    s.append(t.as_str());
}

fn append_past_pool(s: &mut String, offset: usize, len: usize, pool: usize)
    ensures
        final(s)@ == old(s)@ + past_pool(offset, len, pool),
{
    let ghost head = s@;
    s.append("offset ");
    append_number(s, offset as u64);
    s.append(" + len ");
    append_number(s, len as u64);
    s.append(" > pool size ");
    append_number(s, pool as u64);
    assert(s@ =~= head + past_pool(offset, len, pool));
}

impl TileReadError {
    /// The error in words.
    pub fn message(&self) -> (s: String)
        ensures
            s@ == message_of(*self),
    {
        match self {
            TileReadError::BadMagic(b) => {
                let mut s: String = "bad magic: expected OLRL, got ".to_owned();
                let ghost head = s@;
                s.append("[");
                append_number(&mut s, b[0] as u64);
                s.append(", ");
                append_number(&mut s, b[1] as u64);
                s.append(", ");
                append_number(&mut s, b[2] as u64);
                s.append(", ");
                append_number(&mut s, b[3] as u64);
                s.append("]");
                assert(s@ =~= head + byte_list(*b));
                s
            },
            TileReadError::UnsupportedVersion(v) => {
                let mut s: String = "unsupported tile version ".to_owned();
                append_number(&mut s, *v as u64);
                s.append(" (expected 3)");
                s
            },
            TileReadError::TooShort { need, have } => {
                let mut s: String = "tile payload too short: need at least ".to_owned();
                append_number(&mut s, *need as u64);
                s.append(" bytes, have ");
                append_number(&mut s, *have as u64);
                s
            },
            TileReadError::GeomOutOfRange { offset, len, pool } => {
                let mut s: String = "geometry index out of range: ".to_owned();
                append_past_pool(&mut s, *offset, *len, *pool);
                s
            },
            TileReadError::GeomTooShort { index, len } => {
                let mut s: String = "segment ".to_owned();
                append_number(&mut s, *index as u64);
                s.append(" has ");
                append_number(&mut s, *len as u64);
                s.append(" geometry vertices (minimum 2)");
                s
            },
            TileReadError::NodeIndexOob(i) => {
                let mut s: String = "local node index ".to_owned();
                append_number(&mut s, *i as u64);
                s.append(" out of range");
                s
            },
            TileReadError::SegIndexOob(i) => {
                let mut s: String = "local segment index ".to_owned();
                append_number(&mut s, *i as u64);
                s.append(" out of range");
                s
            },
            TileReadError::PoolOutOfRange { offset, len, pool } => {
                let mut s: String = "string pool reference out of range: ".to_owned();
                append_past_pool(&mut s, *offset, *len, *pool);
                s
            },
            TileReadError::InvalidUtf8 => "string pool entry is not valid UTF-8".to_owned(),
        }
    }
}

/// Whether `m` starts with `s`.
pub open spec fn starts_with(m: Seq<char>, s: Seq<char>) -> bool {
    s.len() <= m.len() && m.take(s.len() as int) =~= s
}

/// Whether `m` ends with `s`.
pub open spec fn ends_with(m: Seq<char>, s: Seq<char>) -> bool {
    s.len() <= m.len() && m.skip(m.len() - s.len()) =~= s
}

/// A message starts with what went wrong and the first number of the error, and ends with
/// the last one: what was needed comes before what was there, an offset before the size of
/// the pool, a segment before its number of vertices.
pub proof fn law_messages_name_their_numbers(e: TileReadError)
    ensures
        ({
            let m = message_of(e);
            match e {
                TileReadError::BadMagic(b) => {
                    &&& starts_with(
                        m,
                        "bad magic: expected OLRL, got "@ + "["@ + decimal(b@[0] as nat) + ", "@
                            + decimal(b@[1] as nat),
                    )
                    &&& ends_with(
                        m,
                        decimal(b@[2] as nat) + ", "@ + decimal(b@[3] as nat) + "]"@,
                    )
                },
                TileReadError::UnsupportedVersion(v) => {
                    &&& starts_with(m, "unsupported tile version "@ + decimal(v as nat))
                    &&& ends_with(m, " (expected 3)"@)
                },
                TileReadError::TooShort { need, have } => {
                    &&& starts_with(
                        m,
                        "tile payload too short: need at least "@ + decimal(need as nat),
                    )
                    &&& ends_with(m, " bytes, have "@ + decimal(have as nat))
                },
                TileReadError::GeomOutOfRange { offset, len, pool } => {
                    &&& starts_with(
                        m,
                        "geometry index out of range: "@ + "offset "@ + decimal(offset as nat),
                    )
                    &&& ends_with(
                        m,
                        " + len "@ + decimal(len as nat) + " > pool size "@ + decimal(pool as nat),
                    )
                },
                TileReadError::GeomTooShort { index, len } => {
                    &&& starts_with(m, "segment "@ + decimal(index as nat))
                    &&& ends_with(
                        m,
                        " has "@ + decimal(len as nat) + " geometry vertices (minimum 2)"@,
                    )
                },
                TileReadError::NodeIndexOob(i) => starts_with(
                    m,
                    "local node index "@ + decimal(i as nat),
                ) && ends_with(m, " out of range"@),
                TileReadError::SegIndexOob(i) => starts_with(
                    m,
                    "local segment index "@ + decimal(i as nat),
                ) && ends_with(m, " out of range"@),
                TileReadError::PoolOutOfRange { offset, len, pool } => {
                    &&& starts_with(
                        m,
                        "string pool reference out of range: "@ + "offset "@ + decimal(
                            offset as nat,
                        ),
                    )
                    &&& ends_with(
                        m,
                        " + len "@ + decimal(len as nat) + " > pool size "@ + decimal(pool as nat),
                    )
                },
                TileReadError::InvalidUtf8 => m == "string pool entry is not valid UTF-8"@,
            }
        }),
{
}

} // verus!
