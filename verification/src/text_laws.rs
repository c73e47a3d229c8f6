//! What taking text apart gives, and what putting it together again gives back.
use vstd::prelude::*;

use crate::naming::{archive_name, ends_like, names_roads, quotes_doubled, small, undotted};
use crate::scan::{
    int_of, is_comma, is_digit, is_space, non_empty, split_by, split_commas, trimmed, trimmed_end,
    trimmed_start, unsigned_part, value_of, words_of,
};
use crate::text::decimal;

verus! {

/// Whether every character of a text is white space.
pub open spec fn all_space(s: Seq<char>) -> bool {
    forall|i: int| 0 <= i < s.len() ==> is_space(#[trigger] s[i])
}

proof fn lemma_trimmed_start(s: Seq<char>) -> (a: int)
    ensures
        0 <= a <= s.len(),
        trimmed_start(s) == s.skip(a),
        all_space(s.take(a)),
        a < s.len() ==> !is_space(s[a]),
    decreases s.len(),
{
    if s.len() > 0 && is_space(s[0]) {
        let b = lemma_trimmed_start(s.skip(1));
        let a = b + 1;
        assert(s.skip(1).skip(b) =~= s.skip(a));
        assert forall|i: int| 0 <= i < s.take(a).len() implies is_space(#[trigger] s.take(a)[i]) by {
            if i > 0 {
                assert(s.take(a)[i] == s.skip(1).take(b)[i - 1]);
            }
        }
        if a < s.len() {
            assert(s.skip(1)[b] == s[a]);
        }
        a
    } else {
        assert(s.skip(0) =~= s);
        0
    }
}

proof fn lemma_trimmed_end(s: Seq<char>) -> (b: int)
    ensures
        0 <= b <= s.len(),
        trimmed_end(s) == s.take(b),
        all_space(s.skip(b)),
        b > 0 ==> !is_space(s[b - 1]),
    decreases s.len(),
{
    if s.len() > 0 && is_space(s.last()) {
        let b = lemma_trimmed_end(s.drop_last());
        assert(s.drop_last().take(b) =~= s.take(b));
        assert forall|i: int| 0 <= i < s.skip(b).len() implies is_space(#[trigger] s.skip(b)[i]) by {
            if i < s.skip(b).len() - 1 {
                assert(s.skip(b)[i] == s.drop_last().skip(b)[i]);
            }
        }
        b
    } else {
        assert(s.take(s.len() as int) =~= s);
        s.len() as int
    }
}

/// Trimming takes white space off both ends, nothing else, and all of it: what is left starts
/// and ends with something that is not white space.
pub proof fn law_trimming_takes_off_white_space(s: Seq<char>)
    ensures
        exists|a: Seq<char>, b: Seq<char>|
            #![trigger all_space(a), all_space(b)]
            all_space(a) && all_space(b) && s == a + trimmed(s) + b,
        trimmed(s).len() > 0 ==> !is_space(trimmed(s).first()) && !is_space(trimmed(s).last()),
{
    let a = lemma_trimmed_start(s);
    let t = trimmed_start(s);
    let b = lemma_trimmed_end(t);
    let front = s.take(a);
    let back = t.skip(b);
    assert(all_space(front) && all_space(back));
    assert(s =~= front + trimmed(s) + back);
    if b > 0 {
        assert(trimmed(s)[0] == s[a]);
        assert(trimmed(s)[b - 1] == t[b - 1]);
    }
}

/// White space is the characters that Unicode counts as such: tabulators and line ends, the
/// blank, the next-line sign, and the blanks of other widths.
pub proof fn law_white_space(c: char)
    ensures
        is_space(c) <==> seq![
            9int,
            10,
            11,
            12,
            13,
            32,
            133,
            160,
            5760,
            8192,
            8193,
            8194,
            8195,
            8196,
            8197,
            8198,
            8199,
            8200,
            8201,
            8202,
            8232,
            8233,
            8239,
            8287,
            12288,
        ].contains(c as int),
{
    let all = seq![
        9int,
        10,
        11,
        12,
        13,
        32,
        133,
        160,
        5760,
        8192,
        8193,
        8194,
        8195,
        8196,
        8197,
        8198,
        8199,
        8200,
        8201,
        8202,
        8232,
        8233,
        8239,
        8287,
        12288,
    ];
    let n = c as int;
    if is_space(c) {
        let k: int = if n <= 13 {
            n - 9
        } else if n == 32 {
            5
        } else if n == 133 {
            6
        } else if n == 160 {
            7
        } else if n == 5760 {
            8
        } else if n <= 8202 {
            n - 8192 + 9
        } else if n == 8232 {
            20
        } else if n == 8233 {
            21
        } else if n == 8239 {
            22
        } else if n == 8287 {
            23
        } else {
            24
        };
        assert(all[k] == n);
    }
}

proof fn lemma_split_nonempty(s: Seq<char>, sep: spec_fn(char) -> bool)
    ensures
        split_by(s, sep).len() > 0,
    decreases s.len(),
{
    if s.len() > 0 {
        lemma_split_nonempty(s.drop_last(), sep);
    }
}

proof fn lemma_split_whole(s: Seq<char>, sep: spec_fn(char) -> bool)
    requires
        forall|i: int| 0 <= i < s.len() ==> !sep(#[trigger] s[i]),
    ensures
        split_by(s, sep) == seq![s],
    decreases s.len(),
{
    if s.len() > 0 {
        let p = s.drop_last();
        assert forall|i: int| 0 <= i < p.len() implies !sep(#[trigger] p[i]) by {
            assert(p[i] == s[i]);
        }
        lemma_split_whole(p, sep);
        assert(!sep(s[s.len() - 1]));
        assert(split_by(s, sep) =~= seq![p.push(s.last())]);
        assert(p.push(s.last()) =~= s);
    }
}

proof fn lemma_split_at(a: Seq<char>, c: char, b: Seq<char>, sep: spec_fn(char) -> bool)
    requires
        sep(c),
    ensures
        split_by(a.push(c) + b, sep) == split_by(a, sep) + split_by(b, sep),
    decreases b.len(),
{
    let s = a.push(c) + b;
    if b.len() == 0 {
        assert(s =~= a.push(c));
        assert(a.push(c).drop_last() =~= a);
        assert(b =~= Seq::empty());
        assert(split_by(s, sep) =~= split_by(a, sep) + split_by(b, sep));
    } else {
        let p = b.drop_last();
        lemma_split_at(a, c, p, sep);
        lemma_split_nonempty(p, sep);
        assert(s.drop_last() =~= a.push(c) + p);
        assert(s.last() == b.last());
        let x = split_by(a, sep);
        let y = split_by(p, sep);
        assert((x + y).drop_last() =~= x + y.drop_last());
        assert((x + y).last() == y.last());
        assert(split_by(s, sep) =~= x + split_by(b, sep));
    }
}

/// A text without a comma is one piece; and a comma parts what is before it from what is
/// behind it.
pub proof fn law_commas_part_text(a: Seq<char>, b: Seq<char>)
    ensures
        !a.contains(',') ==> split_commas(a) == seq![a],
        split_commas(a.push(',') + b) == split_commas(a) + split_commas(b),
{
    let sep = |c: char| is_comma(c);
    if !a.contains(',') {
        assert forall|i: int| 0 <= i < a.len() implies !sep(#[trigger] a[i]) by {
            assert(a.contains(a[i]));
        }
        lemma_split_whole(a, sep);
    }
    lemma_split_at(a, ',', b, sep);
}

proof fn lemma_non_empty_on(a: Seq<Seq<char>>, b: Seq<Seq<char>>)
    ensures
        non_empty(a + b) == non_empty(a) + non_empty(b),
    decreases b.len(),
{
    if b.len() == 0 {
        assert(a + b =~= a);
        assert(non_empty(a) + non_empty(b) =~= non_empty(a));
    } else {
        lemma_non_empty_on(a, b.drop_last());
        assert((a + b).drop_last() =~= a + b.drop_last());
        assert(non_empty(a + b) =~= non_empty(a) + non_empty(b));
    }
}

/// A text without white space is one word, or none where it is empty; and white space parts
/// the words before it from the words behind it.
pub proof fn law_white_space_parts_words(a: Seq<char>, c: char, b: Seq<char>)
    requires
        is_space(c),
    ensures
        (forall|i: int| 0 <= i < a.len() ==> !is_space(#[trigger] a[i])) ==> words_of(a)
            == if a.len() == 0 {
            Seq::empty()
        } else {
            seq![a]
        },
        words_of(a.push(c) + b) == words_of(a) + words_of(b),
{
    let sep = |c: char| is_space(c);
    lemma_split_at(a, c, b, sep);
    lemma_non_empty_on(split_by(a, sep), split_by(b, sep));
    if forall|i: int| 0 <= i < a.len() ==> !is_space(#[trigger] a[i]) {
        assert forall|i: int| 0 <= i < a.len() implies !sep(#[trigger] a[i]) by {}
        lemma_split_whole(a, sep);
        assert(seq![a].drop_last() =~= Seq::empty());
        reveal_with_fuel(non_empty, 2);
        assert(words_of(a) =~= if a.len() == 0 {
            Seq::empty()
        } else {
            seq![a]
        });
    }
}

proof fn lemma_decimal(n: nat)
    ensures
        decimal(n).len() > 0,
        forall|i: int| 0 <= i < decimal(n).len() ==> is_digit(#[trigger] decimal(n)[i]),
        value_of(decimal(n)) == n,
    decreases n,
{
    let d = decimal(n);
    if n < 10 {
        assert(d.drop_last() =~= Seq::empty());
        reveal_with_fuel(value_of, 2);
    } else {
        lemma_decimal(n / 10);
        assert(d.drop_last() =~= decimal(n / 10));
        assert forall|i: int| 0 <= i < d.len() implies is_digit(#[trigger] d[i]) by {
            if i < d.len() - 1 {
                assert(d[i] == decimal(n / 10)[i]);
            }
        }
    }
}

/// A number in decimal is read back as that number, with or without a plus sign, and behind
/// a minus sign as its opposite, as far as it is in range; and otherwise not at all.
pub proof fn law_numbers_read_back(n: nat)
    ensures
        int_of(decimal(n)) == if n <= i64::MAX {
            Some(n as i64)
        } else {
            None
        },
        int_of(seq!['+'] + decimal(n)) == int_of(decimal(n)),
        int_of(seq!['-'] + decimal(n)) == if n <= 0x8000_0000_0000_0000 {
            Some((0 - n) as i64)
        } else {
            None
        },
{
    lemma_decimal(n);
    let d = decimal(n);
    assert(is_digit(d[0]));
    let plus = seq!['+'] + d;
    let minus = seq!['-'] + d;
    assert(plus.skip(1) =~= d);
    assert(minus.skip(1) =~= d);
}

/// What is read as a number is a sign, or none, and at least one digit, and nothing else.
pub proof fn law_numbers_are_digits(s: Seq<char>)
    ensures
        int_of(s) is Some ==> s.len() > 0 && (forall|i: int|
            0 < i < s.len() ==> is_digit(#[trigger] s[i])) && (is_digit(s[0]) || s.len() > 1 && (
        s[0] == '-' || s[0] == '+')),
{
    let digits = unsigned_part(s);
    if int_of(s) is Some {
        assert forall|i: int| 0 < i < s.len() implies is_digit(#[trigger] s[i]) by {
            if digits.len() < s.len() {
                assert(digits[i - 1] == s[i]);
            } else {
                assert(digits[i] == s[i]);
            }
        }
        if digits.len() == s.len() {
            assert(is_digit(digits[0]));
        }
    }
}

/// Every quote is doubled, and nothing else changes.
pub proof fn law_quotes_are_doubled(a: Seq<char>, b: Seq<char>, c: char)
    ensures
        quotes_doubled(a + b) == quotes_doubled(a) + quotes_doubled(b),
        quotes_doubled(seq![c]) == if c == '\'' {
            seq!['\'', '\'']
        } else {
            seq![c]
        },
    decreases b.len(),
{
    let one = seq![c];
    assert(one.drop_last() =~= Seq::empty());
    reveal_with_fuel(quotes_doubled, 2);
    assert(quotes_doubled(one) =~= if c == '\'' {
        seq!['\'', '\'']
    } else {
        seq![c]
    });
    if b.len() == 0 {
        assert(a + b =~= a);
        assert(quotes_doubled(a) + quotes_doubled(b) =~= quotes_doubled(a));
    } else {
        law_quotes_are_doubled(a, b.drop_last(), c);
        assert((a + b).drop_last() =~= a + b.drop_last());
        assert(quotes_doubled(a + b) =~= quotes_doubled(a) + quotes_doubled(b));
    }
}

/// A label without dots has a hyphen where it had a dot, and is otherwise as it was.
pub proof fn law_dots_become_hyphens(s: Seq<char>, i: int)
    requires
        0 <= i < s.len(),
    ensures
        undotted(s).len() == s.len(),
        s[i] == '.' ==> undotted(s)[i] == '-',
        s[i] != '.' ==> undotted(s)[i] == s[i],
{
}

/// Whether two characters are the same but for the case of ASCII letters.
pub open spec fn same_letter(a: char, b: char) -> bool {
    ||| a == b
    ||| 65 <= a as int <= 90 && b as int == a as int + 32
    ||| 65 <= b as int <= 90 && a as int == b as int + 32
}

/// Whether a file holds roads depends on how its name ends, but not on what stands before
/// that, nor on the case of its letters.
pub proof fn law_road_files_are_known_by_their_ending(a: Seq<char>, s: Seq<char>, t: Seq<char>)
    requires
        s.len() == t.len(),
        forall|i: int| 0 <= i < s.len() ==> same_letter(#[trigger] s[i], t[i]),
    ensures
        names_roads(s) ==> names_roads(a + s),
        names_roads(s) <==> names_roads(t),
{
    lemma_ends_like(a, s, t, ".geojsonl"@);
    lemma_ends_like(a, s, t, ".geojsonl.gz"@);
    lemma_ends_like(a, s, t, ".geojson"@);
    lemma_ends_like(a, s, t, ".geojson.gz"@);
}

proof fn lemma_ends_like(a: Seq<char>, s: Seq<char>, t: Seq<char>, suffix: Seq<char>)
    requires
        s.len() == t.len(),
        forall|i: int| 0 <= i < s.len() ==> same_letter(#[trigger] s[i], t[i]),
    ensures
        ends_like(s, suffix) ==> ends_like(a + s, suffix),
        ends_like(s, suffix) <==> ends_like(t, suffix),
{
    let n = s.len() - suffix.len();
    assert forall|i: int| 0 <= i < s.len() implies small(#[trigger] s[i]) == small(t[i]) by {
        assert(same_letter(s[i], t[i]));
    }
    if ends_like(s, suffix) {
        let whole = a + s;
        assert forall|k: int| 0 <= k < suffix.len() implies small(
            whole[whole.len() - suffix.len() + k],
        ) == #[trigger] suffix[k] by {
            assert(whole[whole.len() - suffix.len() + k] == s[n + k]);
        }
    }
    if ends_like(s, suffix) {
        assert forall|k: int| 0 <= k < suffix.len() implies small(t[t.len() - suffix.len() + k])
            == #[trigger] suffix[k] by {
            assert(small(s[n + k]) == suffix[k]);
        }
    }
    if ends_like(t, suffix) {
        assert forall|k: int| 0 <= k < suffix.len() implies small(s[s.len() - suffix.len() + k])
            == #[trigger] suffix[k] by {
            assert(small(t[t.len() - suffix.len() + k]) == suffix[k]);
            assert(small(s[n + k]) == small(t[n + k]));
        }
    }
}

/// Whether `s` is `t` but for the case of ASCII letters.
pub open spec fn same_but_for_case(s: Seq<char>, t: Seq<char>) -> bool {
    &&& s.len() == t.len()
    &&& forall|i: int| 0 <= i < s.len() ==> same_letter(#[trigger] s[i], t[i])
}

/// Whether `s` is something followed by `ending`, whatever the case of its letters.
pub open spec fn is_named(s: Seq<char>, a: Seq<char>, ending: Seq<char>) -> bool {
    same_but_for_case(s, a + ending)
}

/// Whether `s` is something that ends in `ending`, whatever the case of its letters.
pub open spec fn has_ending(s: Seq<char>, ending: Seq<char>) -> bool {
    exists|a: Seq<char>| #[trigger] is_named(s, a, ending)
}

/// Whether a text holds no capital letter.
pub open spec fn no_capitals(s: Seq<char>) -> bool {
    forall|i: int| 0 <= i < s.len() ==> !(65 <= (#[trigger] s[i]) as int <= 90)
}

/// A name ends like `ending` just where it is something followed by `ending`, whatever the
/// case of its letters.
pub proof fn law_endings_are_what_comes_last(s: Seq<char>, ending: Seq<char>)
    requires
        no_capitals(ending),
    ensures
        ends_like(s, ending) <==> has_ending(s, ending),
{
    let n = s.len() - ending.len();
    if ends_like(s, ending) {
        let a = s.take(n);
        assert forall|i: int| 0 <= i < s.len() implies same_letter(
            #[trigger] s[i],
            (a + ending)[i],
        ) by {
            if i >= n {
                assert(small(s[n + (i - n)]) == ending[i - n]);
            }
        }
        assert(is_named(s, a, ending));
    }
    if has_ending(s, ending) {
        let a = choose|a: Seq<char>| #[trigger] is_named(s, a, ending);
        assert forall|k: int| 0 <= k < ending.len() implies small(s[n + k]) == #[trigger] ending[
            k
        ] by {
            assert(same_letter(s[n + k], (a + ending)[n + k]));
        }
    }
}

/// The files that hold roads are those named `.geojson` or `.geojsonl`, compressed or not.
pub proof fn law_road_files_have_four_endings(s: Seq<char>)
    ensures
        names_roads(s) <==> has_ending(s, ".geojson"@) || has_ending(s, ".geojsonl"@)
            || has_ending(s, ".geojson.gz"@) || has_ending(s, ".geojsonl.gz"@),
{
    reveal_strlit(".geojson");
    reveal_strlit(".geojsonl");
    reveal_strlit(".geojson.gz");
    reveal_strlit(".geojsonl.gz");
    law_endings_are_what_comes_last(s, ".geojson"@);
    law_endings_are_what_comes_last(s, ".geojsonl"@);
    law_endings_are_what_comes_last(s, ".geojson.gz"@);
    law_endings_are_what_comes_last(s, ".geojsonl.gz"@);
}

/// The name of an archive holds the extent as it is, then the release with a hyphen for each
/// of its dots, between `openlrlens-` and `.pmtiles`.
pub proof fn law_archives_are_named_for_extent_and_release(e: Seq<char>, r: Seq<char>)
    ensures
        ({
            let name = archive_name(e, r);
            let n = e.len() as int;
            &&& name.len() == n + r.len() + 20
            &&& name.take(11) == "openlrlens-"@
            &&& name.subrange(11, 11 + n) == e
            &&& name[11 + n] == '-'
            &&& forall|i: int|
                0 <= i < r.len() ==> (#[trigger] name[12 + n + i]) == if r[i] == '.' {
                    '-'
                } else {
                    r[i]
                }
            &&& name.skip(12 + n + r.len()) == ".pmtiles"@
        }),
{
    reveal_strlit("openlrlens-");
    reveal_strlit("-");
    reveal_strlit(".pmtiles");
    let name = archive_name(e, r);
    let n = e.len() as int;
    assert(name.take(11) =~= "openlrlens-"@);
    assert(name.subrange(11, 11 + n) =~= e);
    assert(name.skip(12 + n + r.len()) =~= ".pmtiles"@);
}

} // verus!
