//! Taking text apart: trimming, splitting, words and whole numbers.
use vstd::prelude::*;
use vstd::slice::slice_subrange;

verus! {

/// Whether Unicode counts a character as white space.
pub open spec fn is_space(c: char) -> bool {
    let n = c as int;
    ||| 0x09 <= n <= 0x0d
    ||| n == 0x20
    ||| n == 0x85
    ||| n == 0xa0
    ||| n == 0x1680
    ||| 0x2000 <= n <= 0x200a
    ||| n == 0x2028
    ||| n == 0x2029
    ||| n == 0x202f
    ||| n == 0x205f
    ||| n == 0x3000
}

/// Whether Unicode counts a character as white space.
pub fn space(c: char) -> (r: bool)
    ensures
        r == is_space(c),
{
    let n: u32 = c as u32;
    (0x09 <= n && n <= 0x0d) || n == 0x20 || n == 0x85 || n == 0xa0 || n == 0x1680 || (0x2000 <= n
        && n <= 0x200a) || n == 0x2028 || n == 0x2029 || n == 0x202f || n == 0x205f || n == 0x3000
}

/// `s` without the white space at its start.
pub open spec fn trimmed_start(s: Seq<char>) -> Seq<char>
    decreases s.len(),
{
    if s.len() > 0 && is_space(s[0]) {
        trimmed_start(s.skip(1))
    } else {
        s
    }
}

/// `s` without the white space at its end.
pub open spec fn trimmed_end(s: Seq<char>) -> Seq<char>
    decreases s.len(),
{
    if s.len() > 0 && is_space(s.last()) {
        trimmed_end(s.drop_last())
    } else {
        s
    }
}

/// `s` without the white space at either end.
pub open spec fn trimmed(s: Seq<char>) -> Seq<char> {
    trimmed_end(trimmed_start(s))
}

/// `s` without the white space at either end.
pub fn trim(s: &[char]) -> (r: &[char])
    ensures
        r@ == trimmed(s@),
{
    let n: usize = s.len();
    let mut i: usize = 0;
    assert(s@.skip(0) =~= s@);
    while i < n && space(s[i])
        invariant
            i <= n == s@.len(),
            trimmed_start(s@.skip(i as int)) == trimmed_start(s@),
        decreases n - i,
    {
        assert(s@.skip(i as int).skip(1) =~= s@.skip(i + 1));
        i += 1;
    }
    assert(trimmed_start(s@) == s@.skip(i as int));
    let mut j: usize = n;
    assert(s@.subrange(i as int, n as int) =~= s@.skip(i as int));
    while j > i && space(s[j - 1])
        invariant
            i <= j <= n == s@.len(),
            trimmed_end(s@.subrange(i as int, j as int)) == trimmed(s@),
        decreases j,
    {
        assert(s@.subrange(i as int, j as int).drop_last() =~= s@.subrange(i as int, j - 1));
        j -= 1;
    }
    slice_subrange(s, i, j)
}

/// The pieces of `s` between the characters for which `sep` holds; one more than
/// there are such characters.
pub open spec fn split_by(s: Seq<char>, sep: spec_fn(char) -> bool) -> Seq<Seq<char>>
    decreases s.len(),
{
    if s.len() == 0 {
        seq![s]
    } else {
        let before = split_by(s.drop_last(), sep);
        if sep(s.last()) {
            before.push(Seq::empty())
        } else {
            before.drop_last().push(before.last().push(s.last()))
        }
    }
}

/// The views of some pieces.
pub open spec fn pieces_of(v: Seq<Vec<char>>) -> Seq<Seq<char>> {
    Seq::new(v.len(), |i: int| v[i]@)
}

pub open spec fn is_comma(c: char) -> bool {
    c == ','
}

/// The pieces of `s` between commas.
pub open spec fn split_commas(s: Seq<char>) -> Seq<Seq<char>> {
    split_by(s, |c: char| is_comma(c))
}

/// The pieces of `s` between commas.
pub fn split_at_commas(s: &[char]) -> (v: Vec<Vec<char>>)
    ensures
        pieces_of(v@) == split_commas(s@),
        v@.len() > 0,
{
    let mut v: Vec<Vec<char>> = Vec::new();
    let mut cur: Vec<char> = Vec::new();
    let mut i: usize = 0;
    let ghost sep = |c: char| is_comma(c);
    assert(s@.take(0) =~= Seq::empty());
    assert(pieces_of(v@).push(cur@) =~= seq![Seq::<char>::empty()]);
    while i < s.len()
        invariant
            i <= s@.len(),
            sep == (|c: char| is_comma(c)),
            pieces_of(v@).push(cur@) == split_by(s@.take(i as int), sep),
        decreases s@.len() - i,
    {
        let ghost before = v@;
        let ghost word = cur@;
        assert(s@.take(i + 1).drop_last() =~= s@.take(i as int));
        assert(pieces_of(before).push(word).drop_last() =~= pieces_of(before));
        if s[i] == ',' {
            v.push(cur);
            cur = Vec::new();
            assert(pieces_of(v@) =~= pieces_of(before).push(word));
        } else {
            cur.push(s[i]);
        }
        i += 1;
    }
    let ghost before = v@;
    let ghost word = cur@;
    v.push(cur);
    assert(pieces_of(v@) =~= pieces_of(before).push(word));
    assert(s@.take(i as int) =~= s@);
    v
}

/// Those of `pieces` that are not empty.
pub open spec fn non_empty(pieces: Seq<Seq<char>>) -> Seq<Seq<char>>
    decreases pieces.len(),
{
    if pieces.len() == 0 {
        pieces
    } else if pieces.last().len() == 0 {
        non_empty(pieces.drop_last())
    } else {
        non_empty(pieces.drop_last()).push(pieces.last())
    }
}

/// The pieces of `s` between runs of white space.
pub open spec fn words_of(s: Seq<char>) -> Seq<Seq<char>> {
    non_empty(split_by(s, |c: char| is_space(c)))
}

/// The pieces of `s` between runs of white space.
pub fn words(s: &[char]) -> (v: Vec<Vec<char>>)
    ensures
        pieces_of(v@) == words_of(s@),
{
    let mut v: Vec<Vec<char>> = Vec::new();
    let mut cur: Vec<char> = Vec::new();
    let mut i: usize = 0;
    let ghost sep = |c: char| is_space(c);
    let ghost mut all: Seq<Seq<char>> = Seq::empty();
    assert(s@.take(0) =~= Seq::empty());
    assert(all.push(cur@) =~= seq![Seq::<char>::empty()]);
    assert(pieces_of(v@) =~= Seq::empty());
    while i < s.len()
        invariant
            i <= s@.len(),
            sep == (|c: char| is_space(c)),
            all.push(cur@) == split_by(s@.take(i as int), sep),
            pieces_of(v@) == non_empty(all),
        decreases s@.len() - i,
    {
        let ghost before = v@;
        let ghost word = cur@;
        assert(s@.take(i + 1).drop_last() =~= s@.take(i as int));
        assert(all.push(word).drop_last() =~= all);
        if space(s[i]) {
            if cur.len() > 0 {
                v.push(cur);
                cur = Vec::new();
                assert(pieces_of(v@) =~= pieces_of(before).push(word));
            }
            proof {
                all = all.push(word);
                assert(cur@ =~= Seq::empty());
            }
        } else {
            cur.push(s[i]);
        }
        i += 1;
    }
    let ghost before = v@;
    let ghost word = cur@;
    assert(all.push(word).drop_last() =~= all);
    assert(s@.take(i as int) =~= s@);
    if cur.len() > 0 {
        v.push(cur);
        assert(pieces_of(v@) =~= pieces_of(before).push(word));
    }
    v
}

/// Whether a character is an ASCII digit.
pub open spec fn is_digit(c: char) -> bool {
    48 <= c as int <= 57
}

/// The number that decimal digits spell.
pub open spec fn value_of(s: Seq<char>) -> int
    decreases s.len(),
{
    if s.len() == 0 {
        0
    } else {
        10 * value_of(s.drop_last()) + (s.last() as int - 48)
    }
}

/// The digits of a number, without its sign.
pub open spec fn unsigned_part(s: Seq<char>) -> Seq<char> {
    if s.len() > 0 && (s[0] == '-' || s[0] == '+') {
        s.skip(1)
    } else {
        s
    }
}

/// The whole number that `s` spells in decimal: an optional sign, then at least one
/// digit and nothing else, within the range of `i64`.
pub open spec fn int_of(s: Seq<char>) -> Option<i64> {
    let digits = unsigned_part(s);
    let n = value_of(digits);
    let v = if s.len() > 0 && s[0] == '-' {
        -n
    } else {
        n
    };
    if digits.len() > 0 && (forall|i: int|
        0 <= i < digits.len() ==> is_digit(#[trigger] digits[i])) && i64::MIN <= v <= i64::MAX {
        Some(v as i64)
    } else {
        None
    }
}

proof fn lemma_value_grows(s: Seq<char>, k: int)
    requires
        0 <= k <= s.len(),
        forall|i: int| 0 <= i < s.len() ==> is_digit(#[trigger] s[i]),
    ensures
        0 <= value_of(s.take(k)) <= value_of(s),
    decreases s.len(),
{
    if k < s.len() {
        let p = s.drop_last();
        assert(forall|i: int| 0 <= i < p.len() ==> p[i] == s[i]);
        lemma_value_grows(p, k);
        assert(p.take(k) =~= s.take(k));
        assert(is_digit(s[s.len() - 1]));
    } else {
        assert(s.take(k) =~= s);
        if s.len() > 0 {
            let p = s.drop_last();
            assert(forall|i: int| 0 <= i < p.len() ==> p[i] == s[i]);
            lemma_value_grows(p, p.len() as int);
            assert(p.take(p.len() as int) =~= p);
            assert(is_digit(s[s.len() - 1]));
        }
    }
}

fn code_point(c: char) -> (n: u32)
    ensures
        n as int == c as int,
{
    c as u32
}

/// Read a whole number.
pub fn parse_int(s: &[char]) -> (r: Option<i64>)
    ensures
        r == int_of(s@),
{
    let n: usize = s.len();
    let negative: bool = n > 0 && s[0] == '-';
    let first: usize = if n > 0 && (s[0] == '-' || s[0] == '+') {
        1
    } else {
        0
    };
    let ghost digits = unsigned_part(s@);
    assert(digits =~= s@.skip(first as int));
    if first == n {
        return None;
    }
    let mut v: i128 = 0;
    let mut i: usize = first;
    assert(digits.take(0) =~= Seq::empty());
    while i < n
        invariant
            first <= i <= n == s@.len(),
            first <= 1,
            digits == s@.skip(first as int),
            digits == unsigned_part(s@),
            digits.len() > 0,
            forall|k: int| 0 <= k < i - first ==> is_digit(#[trigger] digits[k]),
            v == value_of(digits.take(i - first)),
            0 <= v <= 0x8000_0000_0000_0000,
        decreases n - i,
    {
        let d: u32 = code_point(s[i]);
        assert(digits[i - first] == s@[i as int]);
        if d < 48 || d > 57 {
            assert(!is_digit(digits[i - first]));
            return None;
        }
        assert(digits.take(i - first + 1).drop_last() =~= digits.take(i - first));
        v = v * 10 + (d - 48) as i128;
        i += 1;
        if v > 0x8000_0000_0000_0000 {
            proof {
                if forall|k: int| 0 <= k < digits.len() ==> is_digit(#[trigger] digits[k]) {
                    lemma_value_grows(digits, i - first);
                }
            }
            return None;
        }
    }
    assert(digits.take(i - first) =~= digits);
    if negative {
        Some((0 - v) as i64)
    } else if v > 0x7fff_ffff_ffff_ffff {
        None
    } else {
        Some(v as i64)
    }
}

} // verus!
