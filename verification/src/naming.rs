//! Names of files, and text inside statements.
use vstd::prelude::*;

use crate::text::chars_of;

verus! {

/// `s` with every dot turned into a hyphen.
pub open spec fn undotted(s: Seq<char>) -> Seq<char> {
    Seq::new(
        s.len(),
        |i: int|
            if s[i] == '.' {
                '-'
            } else {
                s[i]
            },
    )
}

/// The name of the archive for an extent and a release.
pub open spec fn archive_name(extent: Seq<char>, release: Seq<char>) -> Seq<char> {
    "openlrlens-"@ + extent + "-"@ + undotted(release) + ".pmtiles"@
}

/// The name of the archive for an extent and a release: `openlrlens-`, the extent, a
/// hyphen, the release with hyphens for dots, and `.pmtiles`.
pub fn archive_filename(extent_slug: &str, release_label: &str) -> (name: String)
    ensures
        name@ == archive_name(extent_slug@, release_label@),
{
    let mut name: String = "openlrlens-".to_owned();
    name.append(extent_slug);
    name.append("-");
    let ghost head = name@;
    let release: Vec<char> = chars_of(release_label);
    let mut i: usize = 0;
    assert(head + undotted(release@).take(0) =~= head);
    while i < release.len()
        invariant
            i <= release@.len(),
            name@ == head + undotted(release@).take(i as int),
        decreases release@.len() - i,
    {
        if release[i] == '.' {
            name.push('-');
        } else {
            name.push(release[i]);
        }
        assert(name@ =~= head + undotted(release@).take(i + 1));
        i += 1;
    }
    assert(undotted(release@).take(i as int) =~= undotted(release@));
    name.append(".pmtiles");
    name
}

/// `s` with every single quote doubled.
pub open spec fn quotes_doubled(s: Seq<char>) -> Seq<char>
    decreases s.len(),
{
    if s.len() == 0 {
        s
    } else if s.last() == '\'' {
        quotes_doubled(s.drop_last()).push('\'').push('\'')
    } else {
        quotes_doubled(s.drop_last()).push(s.last())
    }
}

/// `s` with every single quote doubled, fit to stand between single quotes.
pub fn double_quotes(s: &str) -> (r: String)
    ensures
        r@ == quotes_doubled(s@),
{
    let all: Vec<char> = chars_of(s);
    let mut r: String = String::new();
    let mut i: usize = 0;
    assert(all@.take(0) =~= Seq::empty());
    while i < all.len()
        invariant
            i <= all@.len(),
            r@ == quotes_doubled(all@.take(i as int)),
        decreases all@.len() - i,
    {
        assert(all@.take(i + 1).drop_last() =~= all@.take(i as int));
        if all[i] == '\'' {
            r.push('\'');
            r.push('\'');
        } else {
            r.push(all[i]);
        }
        i += 1;
    }
    assert(all@.take(i as int) =~= all@);
    r
}

/// An ASCII capital letter as a small letter, anything else as it is.
pub open spec fn small(c: char) -> char {
    if 65 <= c as int <= 90 {
        (c as int + 32) as char
    } else {
        c
    }
}

/// Whether `s` ends with `suffix`, which holds no capital letter, capital letters in
/// `s` being as good as small ones.
pub open spec fn ends_like(s: Seq<char>, suffix: Seq<char>) -> bool {
    &&& suffix.len() <= s.len()
    &&& forall|k: int|
        0 <= k < suffix.len() ==> small(s[s.len() - suffix.len() + k]) == #[trigger] suffix[k]
}

fn small_letter(c: char) -> (r: char)
    ensures
        r == small(c),
{
    let n: u32 = c as u32;
    if 65 <= n && n <= 90 {
        (n as u8 + 32) as char
    } else {
        c
    }
}

fn ends_with_like(s: &Vec<char>, suffix: &str) -> (r: bool)
    ensures
        r == ends_like(s@, suffix@),
{
    let tail: Vec<char> = chars_of(suffix);
    if tail.len() > s.len() {
        return false;
    }
    let n: usize = s.len();
    let first: usize = n - tail.len();
    let mut k: usize = 0;
    while k < tail.len()
        invariant
            k <= tail@.len(),
            tail@ == suffix@,
            n == s@.len(),
            first == n - tail@.len(),
            forall|j: int| 0 <= j < k ==> small(s@[first + j]) == #[trigger] tail@[j],
        decreases tail@.len() - k,
    {
        if small_letter(s[first + k]) != tail[k] {
            assert(small(s@[s@.len() - suffix@.len() + k]) != suffix@[k as int]);
            return false;
        }
        k += 1;
    }
    true
}

/// Whether a file of this name holds roads.
pub open spec fn names_roads(name: Seq<char>) -> bool {
    ends_like(name, ".geojsonl"@) || ends_like(name, ".geojsonl.gz"@) || ends_like(
        name,
        ".geojson"@,
    ) || ends_like(name, ".geojson.gz"@)
}

/// Whether a file of this name holds roads.
pub fn is_road_file(name: &str) -> (r: bool)
    ensures
        r == names_roads(name@),
{
    let s: Vec<char> = chars_of(name);
    ends_with_like(&s, ".geojsonl") || ends_with_like(&s, ".geojsonl.gz") || ends_with_like(
        &s,
        ".geojson",
    ) || ends_with_like(&s, ".geojson.gz")
}

/// Whether a file of this name is compressed.
pub fn is_gzip_file(name: &str) -> (r: bool)
    ensures
        r == ends_like(name@, ".gz"@),
{
    let s: Vec<char> = chars_of(name);
    ends_with_like(&s, ".gz")
}

/// The memory limit of the scratch database in megabytes: what was asked for, or else
/// what was proposed, but never less than 1024.
pub fn memory_limit_mb(asked: Option<u64>, proposed: u64) -> (mb: u64)
    ensures
        mb == ({
            let wanted = match asked {
                Some(v) => v,
                None => proposed,
            };
            if wanted < 1024 {
                1024u64
            } else {
                wanted
            }
        }),
        mb >= 1024,
        asked matches Some(v) ==> mb >= v && (mb > v ==> mb == 1024),
        asked is None ==> mb >= proposed && (mb > proposed ==> mb == 1024),
{
    let wanted: u64 = match asked {
        Some(v) => v,
        None => proposed,
    };
    if wanted < 1024 {
        1024
    } else {
        wanted
    }
}

} // verus!
