//! What a build does from start to end, and what its manifest says.
use vstd::prelude::*;

use crate::build_course::{
    build_after, build_start, build_through, ends_in, ends_road, filling, is_endpoint,
    law_every_part_is_built_and_merged, next_action, part_name, those_left, without_osm,
    ActionModel, AdaptedRoad, BuildModel, Stage,
};
use crate::json::{JsonModel, JsonNumber};
use crate::manifest::{archive_members, built_at};
use crate::scan::value_of;
use crate::text::decimal;
use crate::text_laws::law_numbers_read_back;

verus! {

/// The manifest of an archive says, under their names, which archive it is, of which release
/// and extent, and at which zoom its tiles are; and nothing else.
pub proof fn law_manifests_say_what_the_archive_is(
    archive: Seq<char>,
    release: Seq<char>,
    extent: Seq<char>,
    tile_zoom: u8,
    other: Seq<char>,
)
    ensures
        ({
            let m = archive_members(archive, release, extent, tile_zoom);
            &&& m.contains_key("archive"@) && m["archive"@] == JsonModel::Text(archive)
            &&& m.contains_key("release"@) && m["release"@] == JsonModel::Text(release)
            &&& m.contains_key("extent"@) && m["extent"@] == JsonModel::Text(extent)
            &&& m.contains_key("tile_zoom"@) && m["tile_zoom"@] == JsonModel::Number(
                JsonNumber::Whole(tile_zoom as i64),
            )
            &&& m.contains_key(other) ==> other == "archive"@ || other == "release"@ || other
                == "extent"@ || other == "tile_zoom"@
        }),
{
    reveal_strlit("archive");
    reveal_strlit("release");
    reveal_strlit("extent");
    reveal_strlit("tile_zoom");
    assert("archive"@[0] == 'a' && "release"@[0] == 'r' && "extent"@[0] == 'e' && "tile_zoom"@[0]
        == 't');
}

/// When an archive was built is told by the seconds, in decimal, and a `Z`.
pub proof fn law_build_times_read_back(seconds: u64)
    requires
        seconds <= i64::MAX,
    ensures
        built_at(seconds).len() > 1,
        built_at(seconds).last() == 'Z',
        crate::scan::int_of(built_at(seconds).drop_last()) == Some(seconds as i64),
{
    reveal_strlit("Z");
    law_numbers_read_back(seconds as nat);
    assert(built_at(seconds).drop_last() =~= decimal(seconds as nat));
    if decimal(seconds as nat).len() == 0 {
        assert(false);
    }
}

/// The build after so many more steps that leave nothing.
pub open spec fn build_on(b: BuildModel, n: nat) -> BuildModel
    decreases n,
{
    if n == 0 {
        b
    } else {
        build_after(build_on(b, (n - 1) as nat), None)
    }
}

/// A build in one part builds the whole extent and is then over. One in several parts, or in
/// none, once it has built them all, merges the archives that were left, then writes the
/// manifest, then removes the parts, and is then over; and once it is over it stays so.
pub proof fn law_builds_come_to_an_end(
    parts: nat,
    left: Seq<Option<Seq<char>>>,
    last: Option<Seq<char>>,
    n: nat,
)
    requires
        left.len() == parts,
    ensures
        parts == 1 ==> next_action(build_start(1)) == ActionModel::Whole && next_action(
            build_after(build_start(1), last),
        ) == ActionModel::Finished,
        parts != 1 ==> ({
            let b = build_through(parts, left);
            &&& next_action(b) == ActionModel::Merge { archives: those_left(left) }
            &&& next_action(build_on(b, 1)) == ActionModel::WriteManifest
            &&& next_action(build_on(b, 2)) == ActionModel::RemoveParts
            &&& n >= 3 ==> next_action(build_on(b, n)) == ActionModel::Finished
        }),
    decreases n,
{
    reveal_with_fuel(build_on, 4);
    if parts != 1 {
        law_every_part_is_built_and_merged(parts, left);
        if n > 3 {
            law_builds_come_to_an_end(parts, left, last, (n - 1) as nat);
            let b = build_on(build_through(parts, left), (n - 1) as nat);
            assert(b.stage == Stage::Over);
        }
    }
}

/// The name of a part is `part-` and its number in at least four digits, and in no more than
/// it takes, so that parts are told apart by their names.
pub proof fn law_parts_are_numbered(i: nat)
    requires
        i <= i64::MAX,
    ensures
        part_name(i).take(5) == "part-"@,
        part_name(i).len() >= 9,
        i < 10000 ==> part_name(i).len() == 9,
        i >= 1000 ==> part_name(i).skip(5) == decimal(i),
        crate::scan::int_of(part_name(i).skip(5)) == Some(i as i64),
{
    reveal_strlit("part-");
    reveal_strlit("000");
    reveal_strlit("00");
    reveal_strlit("0");
    let d = decimal(i);
    let f = filling(i);
    let all = f + d;
    assert(part_name(i).take(5) =~= "part-"@);
    assert(part_name(i).skip(5) =~= all);
    lemma_decimal_len(i);
    lemma_zeros(f, d);
    law_numbers_read_back(i);
    crate::text_laws::law_numbers_are_digits(d);
    assert(crate::scan::is_digit(d[0])) by {
        lemma_decimal_starts(i);
    }
    assert forall|k: int| 0 <= k < all.len() implies crate::scan::is_digit(#[trigger] all[k]) by {
        if k >= f.len() {
            assert(all[k] == d[k - f.len()]);
        }
    }
    assert(crate::scan::unsigned_part(all) == all);
    assert(crate::scan::unsigned_part(d) == d);
}

proof fn lemma_decimal_starts(i: nat)
    ensures
        decimal(i).len() > 0,
        crate::scan::is_digit(decimal(i)[0]),
    decreases i,
{
    if i >= 10 {
        lemma_decimal_starts(i / 10);
    }
}

proof fn lemma_decimal_len(i: nat)
    ensures
        i >= 10 ==> decimal(i).len() >= 2,
        i >= 100 ==> decimal(i).len() >= 3,
        i >= 1000 ==> decimal(i).len() >= 4,
        decimal(i).len() >= 1,
        i < 10 ==> decimal(i).len() == 1,
        i < 100 ==> decimal(i).len() <= 2,
        i < 1000 ==> decimal(i).len() <= 3,
        i < 10000 ==> decimal(i).len() <= 4,
{
    reveal_with_fuel(decimal, 5);
}

proof fn lemma_zeros(f: Seq<char>, d: Seq<char>)
    requires
        forall|k: int| 0 <= k < f.len() ==> #[trigger] f[k] == '0',
    ensures
        value_of(f + d) == value_of(d),
    decreases d.len(),
{
    if d.len() == 0 {
        assert(f + d =~= f);
        lemma_zeros_alone(f);
    } else {
        lemma_zeros(f, d.drop_last());
        assert((f + d).drop_last() =~= f + d.drop_last());
    }
}

proof fn lemma_zeros_alone(f: Seq<char>)
    requires
        forall|k: int| 0 <= k < f.len() ==> #[trigger] f[k] == '0',
    ensures
        value_of(f) == 0,
    decreases f.len(),
{
    if f.len() > 0 {
        let p = f.drop_last();
        assert forall|k: int| 0 <= k < p.len() implies #[trigger] p[k] == '0' by {
            assert(p[k] == f[k]);
        }
        lemma_zeros_alone(p);
        assert(f[f.len() - 1] == '0');
    }
}

/// `s` with `.osm` behind it so many times.
pub open spec fn with_osm(s: Seq<char>, n: nat) -> Seq<char>
    decreases n,
{
    if n == 0 {
        s
    } else {
        with_osm(s, (n - 1) as nat) + ".osm"@
    }
}

/// Whether `s` is `t` with `.osm` behind it so many times.
pub open spec fn is_with_osm(s: Seq<char>, t: Seq<char>, n: nat) -> bool {
    s == with_osm(t, n)
}

/// The release of an extract is the stem without every `.osm` at its end, and without
/// anything else.
pub proof fn law_releases_lose_their_endings(s: Seq<char>)
    ensures
        !ends_in(without_osm(s), ".osm"@),
        exists|n: nat| is_with_osm(s, without_osm(s), n),
    decreases s.len(),
{
    reveal_strlit(".osm");
    if s.len() >= 4 && ends_in(s, ".osm"@) {
        let t = s.take(s.len() - 4);
        law_releases_lose_their_endings(t);
        let n = choose|n: nat| is_with_osm(t, without_osm(t), n);
        assert(s =~= t + ".osm"@) by {
            assert(s.subrange(s.len() - 4, s.len() as int) == ".osm"@);
            assert forall|k: int| 0 <= k < 4 implies s[s.len() - 4 + k] == ".osm"@[k] by {
                assert(s.subrange(s.len() - 4, s.len() as int)[k] == ".osm"@[k]);
            }
        }
        assert(is_with_osm(s, without_osm(s), n + 1));
    } else {
        assert(is_with_osm(s, without_osm(s), 0));
    }
}

/// A connector is one where vehicular roads end just where some vehicular road has it at one
/// of its ends.
pub proof fn law_endpoints_end_vehicular_roads(roads: Seq<AdaptedRoad>, id: Seq<char>)
    ensures
        is_endpoint(roads, id) <==> exists|i: int, j: int|
            0 <= i < roads.len() && roads[i].vehicular && 0 <= j < roads[i].connectors@.len()
                && roads[i].connectors@[j].at_end && #[trigger] roads[i].connectors@[j].connector_id@
                == id,
{
    if is_endpoint(roads, id) {
        let (i, j) = choose|i: int, j: int| ends_road(roads, i, j, id);
        assert(roads[i].connectors@[j].connector_id@ == id);
    }
    if exists|i: int, j: int|
        0 <= i < roads.len() && roads[i].vehicular && 0 <= j < roads[i].connectors@.len()
            && roads[i].connectors@[j].at_end && #[trigger] roads[i].connectors@[j].connector_id@
            == id {
        let (i, j) = choose|i: int, j: int|
            0 <= i < roads.len() && roads[i].vehicular && 0 <= j < roads[i].connectors@.len()
                && roads[i].connectors@[j].at_end && #[trigger] roads[i].connectors@[j].connector_id@
                == id;
        assert(ends_road(roads, i, j, id));
    }
}

} // verus!
