//! The course of a build: in one go, or in parts that are merged.
use vstd::hash_set::StringHashSet;
use vstd::prelude::*;

use crate::text::{chars_of, decimal, decimal_text, text_from};

verus! {

/// Whether `s` ends with `suffix`.
pub open spec fn ends_in(s: Seq<char>, suffix: Seq<char>) -> bool {
    suffix.len() <= s.len() && s.subrange(s.len() - suffix.len(), s.len() as int) == suffix
}

fn has_ending(s: &Vec<char>, n: usize, suffix: &Vec<char>) -> (r: bool)
    requires
        n <= s@.len(),
    ensures
        r == ends_in(s@.take(n as int), suffix@),
{
    let m: usize = suffix.len();
    if m > n {
        return false;
    }
    let ghost head = s@.take(n as int);
    let ghost tail = head.subrange(n - m, n as int);
    let mut k: usize = 0;
    while k < m
        invariant
            k <= m <= n <= s@.len(),
            m == suffix@.len(),
            head == s@.take(n as int),
            tail == head.subrange(n - m, n as int),
            forall|j: int| 0 <= j < k ==> tail[j] == suffix@[j],
        decreases m - k,
    {
        if s[n - m + k] != suffix[k] {
            assert(tail[k as int] != suffix@[k as int]);
            return false;
        }
        k += 1;
    }
    assert(tail =~= suffix@);
    true
}

/// `s` without any `.osm` at its end.
pub open spec fn without_osm(s: Seq<char>) -> Seq<char>
    decreases s.len(),
{
    if s.len() >= 4 && ends_in(s, ".osm"@) {
        without_osm(s.take(s.len() - 4))
    } else {
        s
    }
}

/// The release that an extract is labelled with: the stem of its file name without any
/// `.osm` at the end.
pub fn osm_release(stem: &str) -> (r: String)
    ensures
        r@ == without_osm(stem@),
{
    let s: Vec<char> = chars_of(stem);
    let suffix: Vec<char> = chars_of(".osm");
    proof {
        reveal_strlit(".osm");
    }
    let mut n: usize = s.len();
    assert(s@.take(n as int) =~= s@);
    while has_ending(&s, n, &suffix)
        invariant
            n <= s@.len(),
            suffix@ == ".osm"@,
            suffix@.len() == 4,
            without_osm(s@.take(n as int)) == without_osm(stem@),
        decreases n,
    {
        assert(s@.take(n as int).take(n - 4) =~= s@.take(n - 4));
        n -= 4;
    }
    let mut kept: Vec<char> = s;
    kept.truncate(n);
    assert(kept@ =~= s@.take(n as int));
    text_from(kept.as_slice())
}

/// The release that a canonical database is labelled with: its label, or `canonical` where
/// it has none.
pub fn canonical_release(label: &str) -> (r: String)
    ensures
        r@ == (if label@.len() == 0 {
            "canonical"@
        } else {
            label@
        }),
{
    if label.unicode_len() == 0 {
        "canonical".to_owned()
    } else {
        label.to_owned()
    }
}

/// Whether a file of this name is an archive of tiles.
pub fn is_archive_file(name: &str) -> (r: bool)
    ensures
        r == (name@.len() > 8 && ends_in(name@, ".pmtiles"@)),
{
    let s: Vec<char> = chars_of(name);
    let suffix: Vec<char> = chars_of(".pmtiles");
    assert(s@.take(s@.len() as int) =~= s@);
    s.len() > 8 && has_ending(&s, s.len(), &suffix)
}

/// Zeros that fill a number up to four digits.
pub open spec fn filling(i: nat) -> Seq<char> {
    if i < 10 {
        "000"@
    } else if i < 100 {
        "00"@
    } else if i < 1000 {
        "0"@
    } else {
        Seq::empty()
    }
}

/// The name of part `i`: `part-` and the number in at least four digits.
pub open spec fn part_name(i: nat) -> Seq<char> {
    "part-"@ + filling(i) + decimal(i)
}

/// The name of part `i`: `part-` and the number in at least four digits.
pub fn part_slug(i: usize) -> (s: String)
    ensures
        s@ == part_name(i as nat),
{
    let mut s: String = "part-".to_owned();
    let ghost head = s@;
    if i < 10 {
        s.append("000");
    } else if i < 100 {
        s.append("00");
    } else if i < 1000 {
        s.append("0");
    }
    assert(s@ =~= head + filling(i as nat));
    let number: String = decimal_text(i as u64);
    s.append(number.as_str());
    s
}

/// What a build does next.
#[derive(Debug)]
pub enum BuildAction {
    /// Build the whole extent.
    Whole,
    /// Build one part, in a directory of this name.
    Part { index: usize, slug: String },
    /// Merge these archives of parts.
    Merge { archives: Vec<String> },
    /// Write the manifest of the merged archive.
    WriteManifest,
    /// Remove the directories of the parts.
    RemoveParts,
    /// Nothing is left to do.
    Finished,
}

/// What a `BuildAction` says.
#[verifier::ext_equal]
pub enum ActionModel {
    Whole,
    Part { index: nat, slug: Seq<char> },
    Merge { archives: Seq<Seq<char>> },
    WriteManifest,
    RemoveParts,
    Finished,
}

impl View for BuildAction {
    type V = ActionModel;

    open spec fn view(&self) -> ActionModel {
        match self {
            BuildAction::Whole => ActionModel::Whole,
            BuildAction::Part { index, slug } => ActionModel::Part {
                index: *index as nat,
                slug: slug@,
            },
            BuildAction::Merge { archives } => ActionModel::Merge { archives: texts(archives@) },
            BuildAction::WriteManifest => ActionModel::WriteManifest,
            BuildAction::RemoveParts => ActionModel::RemoveParts,
            BuildAction::Finished => ActionModel::Finished,
        }
    }
}

/// The texts of some strings.
pub open spec fn texts(v: Seq<String>) -> Seq<Seq<char>> {
    Seq::new(v.len(), |i: int| v[i]@)
}

/// How far a build has come.
#[derive(Debug, Clone, Copy, PartialEq, Eq, Structural)]
pub enum Stage {
    Building,
    Merging,
    Describing,
    Clearing,
    Over,
}

/// A build under way.
#[derive(Debug)]
pub struct Build {
    parts: usize,
    next: usize,
    archives: Vec<String>,
    stage: Stage,
}

/// What a `Build` stands at.
#[verifier::ext_equal]
pub struct BuildModel {
    pub parts: nat,
    /// The part to build next.
    pub next: nat,
    /// The archives of the parts built so far.
    pub archives: Seq<Seq<char>>,
    pub stage: Stage,
}

impl View for Build {
    type V = BuildModel;

    closed spec fn view(&self) -> BuildModel {
        BuildModel {
            parts: self.parts as nat,
            next: self.next as nat,
            archives: texts(self.archives@),
            stage: self.stage,
        }
    }
}

/// The start of a build in so many parts.
pub open spec fn build_start(parts: nat) -> BuildModel {
    BuildModel {
        parts,
        next: 0,
        archives: Seq::empty(),
        stage: if parts == 0 {
            Stage::Merging
        } else {
            Stage::Building
        },
    }
}

/// What a build does next. One part is the whole extent.
pub open spec fn next_action(b: BuildModel) -> ActionModel {
    match b.stage {
        Stage::Building => if b.parts == 1 {
            ActionModel::Whole
        } else {
            ActionModel::Part { index: b.next, slug: part_name(b.next) }
        },
        Stage::Merging => ActionModel::Merge { archives: b.archives },
        Stage::Describing => ActionModel::WriteManifest,
        Stage::Clearing => ActionModel::RemoveParts,
        Stage::Over => ActionModel::Finished,
    }
}

/// The build after what it did last. A part may have left an archive.
pub open spec fn build_after(b: BuildModel, left: Option<Seq<char>>) -> BuildModel {
    match b.stage {
        Stage::Building => if b.parts == 1 {
            BuildModel { stage: Stage::Over, ..b }
        } else {
            BuildModel {
                next: b.next + 1,
                archives: match left {
                    Some(a) => b.archives.push(a),
                    None => b.archives,
                },
                stage: if b.next + 1 < b.parts {
                    Stage::Building
                } else {
                    Stage::Merging
                },
                ..b
            }
        },
        Stage::Merging => BuildModel { stage: Stage::Describing, ..b },
        Stage::Describing => BuildModel { stage: Stage::Clearing, ..b },
        Stage::Clearing => BuildModel { stage: Stage::Over, ..b },
        Stage::Over => b,
    }
}

impl Build {
    /// Whether the part to build next is one of the parts.
    pub closed spec fn wf(self) -> bool {
        self.stage == Stage::Building ==> self.next < self.parts
    }

    /// Start a build in so many parts.
    pub fn new(parts: usize) -> (b: Build)
        ensures
            b.wf(),
            b@ == build_start(parts as nat),
    {
        let b = Build {
            parts,
            next: 0,
            archives: Vec::new(),
            stage: if parts == 0 {
                Stage::Merging
            } else {
                Stage::Building
            },
        };
        assert(texts(b.archives@) =~= Seq::empty());
        b
    }

    /// What to do next.
    pub fn action(&self) -> (a: BuildAction)
        ensures
            a@ == next_action(self@),
    {
        match self.stage {
            Stage::Building => {
                if self.parts == 1 {
                    BuildAction::Whole
                } else {
                    BuildAction::Part { index: self.next, slug: part_slug(self.next) }
                }
            },
            Stage::Merging => {
                let mut archives: Vec<String> = Vec::new();
                let mut i: usize = 0;
                while i < self.archives.len()
                    invariant
                        i <= self.archives@.len(),
                        texts(archives@) == texts(self.archives@).take(i as int),
                    decreases self.archives@.len() - i,
                {
                    let ghost before = archives@;
                    archives.push(self.archives[i].clone());
                    i += 1;
                    assert(texts(archives@) =~= texts(before).push(self.archives@[i - 1]@));
                    assert(texts(archives@) =~= texts(self.archives@).take(i as int));
                }
                assert(texts(archives@) =~= texts(self.archives@));
                BuildAction::Merge { archives }
            },
            Stage::Describing => BuildAction::WriteManifest,
            Stage::Clearing => BuildAction::RemoveParts,
            Stage::Over => BuildAction::Finished,
        }
    }

    /// Go on after what was to do has been done. A part may have left an archive.
    pub fn advance(&mut self, left: Option<String>)
        requires
            old(self).wf(),
        ensures
            final(self).wf(),
            final(self)@ == build_after(
                old(self)@,
                match left {
                    Some(a) => Some(a@),
                    None => None,
                },
            ),
    {
        match self.stage {
            Stage::Building => {
                if self.parts == 1 {
                    self.stage = Stage::Over;
                } else {
                    let ghost before = self.archives@;
                    match left {
                        Some(a) => {
                            self.archives.push(a);
                            assert(texts(self.archives@) =~= texts(before).push(a@));
                        },
                        None => {},
                    }
                    self.next += 1;
                    if self.next >= self.parts {
                        self.stage = Stage::Merging;
                    }
                }
            },
            Stage::Merging => {
                self.stage = Stage::Describing;
            },
            Stage::Describing => {
                self.stage = Stage::Clearing;
            },
            Stage::Clearing => {
                self.stage = Stage::Over;
            },
            Stage::Over => {},
        }
    }
}

/// The build after so many parts, each with what it left.
pub open spec fn build_through(parts: nat, left: Seq<Option<Seq<char>>>) -> BuildModel
    decreases left.len(),
{
    if left.len() == 0 {
        build_start(parts)
    } else {
        build_after(build_through(parts, left.drop_last()), left.last())
    }
}

/// The archives that were left.
pub open spec fn those_left(left: Seq<Option<Seq<char>>>) -> Seq<Seq<char>>
    decreases left.len(),
{
    if left.len() == 0 {
        Seq::empty()
    } else {
        match left.last() {
            Some(a) => those_left(left.drop_last()).push(a),
            None => those_left(left.drop_last()),
        }
    }
}

/// A build in parts builds each part once, in their order. After the last part it merges
/// every archive that was left, in the same order.
pub proof fn law_every_part_is_built_and_merged(parts: nat, left: Seq<Option<Seq<char>>>)
    requires
        parts != 1,
        left.len() <= parts,
    ensures
        next_action(build_through(parts, left)) == (if left.len() < parts {
            ActionModel::Part { index: left.len(), slug: part_name(left.len()) }
        } else {
            ActionModel::Merge { archives: those_left(left) }
        }),
        build_through(parts, left) == (BuildModel {
            parts,
            next: left.len(),
            archives: those_left(left),
            stage: if left.len() < parts {
                Stage::Building
            } else {
                Stage::Merging
            },
        }),
    decreases left.len(),
{
    if left.len() > 0 {
        law_every_part_is_built_and_merged(parts, left.drop_last());
    }
}

/// Where a road connects to others.
#[derive(Debug)]
pub struct Connector {
    pub connector_id: String,
    /// Whether it is at an end of the road.
    pub at_end: bool,
}

/// A road before it is split at the places where it connects to others.
#[derive(Debug)]
pub struct AdaptedRoad {
    pub vehicular: bool,
    pub connectors: Vec<Connector>,
}

/// Whether a vehicular road ends at the connector with this id.
pub open spec fn is_endpoint(roads: Seq<AdaptedRoad>, id: Seq<char>) -> bool {
    exists|i: int, j: int| ends_road(roads, i, j, id)
}

/// Whether road `i` is vehicular and ends at its connector `j`, with this id.
pub open spec fn ends_road(roads: Seq<AdaptedRoad>, i: int, j: int, id: Seq<char>) -> bool {
    &&& 0 <= i < roads.len()
    &&& roads[i].vehicular
    &&& 0 <= j < roads[i].connectors@.len()
    &&& roads[i].connectors@[j].at_end
    &&& roads[i].connectors@[j].connector_id@ == id
}

/// The ids of the connectors where vehicular roads end. A connector within a road that is
/// not among them connects only to ways that are not vehicular.
pub fn vehicular_endpoints(roads: &Vec<AdaptedRoad>) -> (ids: StringHashSet)
    ensures
        forall|id: Seq<char>| #[trigger] ids@.contains(id) <==> is_endpoint(roads@, id),
{
    let mut ids: StringHashSet = StringHashSet::new();
    let mut i: usize = 0;
    while i < roads.len()
        invariant
            i <= roads@.len(),
            forall|id: Seq<char>| #[trigger] ids@.contains(id) ==> is_endpoint(roads@, id),
            forall|a: int, b: int, id: Seq<char>|
                a < i && #[trigger] ends_road(roads@, a, b, id) ==> ids@.contains(id),
        decreases roads@.len() - i,
    {
        if roads[i].vehicular {
            let n: usize = roads[i].connectors.len();
            let mut j: usize = 0;
            while j < n
                invariant
                    i < roads@.len(),
                    roads@[i as int].vehicular,
                    n == roads@[i as int].connectors@.len(),
                    j <= n,
                    forall|id: Seq<char>| #[trigger]
                        ids@.contains(id) ==> is_endpoint(roads@, id),
                    forall|a: int, b: int, id: Seq<char>|
                        (a < i || a == i && b < j) && #[trigger] ends_road(roads@, a, b, id)
                            ==> ids@.contains(id),
                decreases n - j,
            {
                let c: &Connector = &roads[i].connectors[j];
                if c.at_end {
                    assert(ends_road(roads@, i as int, j as int, c.connector_id@));
                    ids.insert(c.connector_id.clone());
                }
                j += 1;
            }
        }
        i += 1;
    }
    ids
}

} // verus!
