//! A map from ordered pairs of identifiers to numbers.
use std::collections::HashMap;
use vstd::prelude::*;

verus! {

/// Maps pairs of 128-bit numbers to `u32`.
///
/// Each number is given a 64-bit slot when it is first used, so that a pair of
/// slots makes one key.
#[derive(Debug)]
pub struct PairMap {
    slots: HashMap<u128, u64>,
    entries: HashMap<u128, u32>,
}

spec fn pair_key(a: u64, b: u64) -> u128 {
    (a as int * 0x1_0000_0000_0000_0000 + b as int) as u128
}

proof fn lemma_pair_key_injective(a: u64, b: u64, c: u64, d: u64)
    requires
        pair_key(a, b) == pair_key(c, d),
    ensures
        a == c && b == d,
{
}

fn key_of(a: u64, b: u64) -> (k: u128)
    ensures
        k == pair_key(a, b),
{
    a as u128 * 0x1_0000_0000_0000_0000 + b as u128
}

impl View for PairMap {
    type V = Map<(u128, u128), u32>;

    closed spec fn view(&self) -> Map<(u128, u128), u32> {
        Map::new(
            |p: (u128, u128)|
                self.slots@.contains_key(p.0) && self.slots@.contains_key(p.1)
                    && self.entries@.contains_key(pair_key(self.slots@[p.0], self.slots@[p.1])),
            |p: (u128, u128)| self.entries@[pair_key(self.slots@[p.0], self.slots@[p.1])],
        )
    }
}

impl PairMap {
    /// No two numbers share a slot, and every entry is under slots that were given.
    pub closed spec fn wf(self) -> bool {
        &&& forall|a: u128| #[trigger]
            self.slots@.contains_key(a) ==> self.slots@[a] < self.slots@.len()
        &&& forall|a: u128, b: u128|
            #![trigger self.slots@[a], self.slots@[b]]
            self.slots@.contains_key(a) && self.slots@.contains_key(b) && self.slots@[a]
                == self.slots@[b] ==> a == b
        &&& forall|k: u128| #[trigger]
            self.entries@.contains_key(k) ==> exists|a: u64, b: u64| #[trigger]
                pair_key(a, b) == k && a < self.slots@.len() && b < self.slots@.len()
    }

    /// A map without entries.
    pub fn new() -> (m: PairMap)
        ensures
            m.wf(),
            m@ == Map::<(u128, u128), u32>::empty(),
    {
        broadcast use vstd::std_specs::hash::group_hash_axioms;

        let m = PairMap { slots: HashMap::new(), entries: HashMap::new() };
        assert(m@ =~= Map::<(u128, u128), u32>::empty());
        m
    }

    /// The slot of `a`, given now if it has none.
    fn slot(&mut self, a: u128) -> (s: u64)
        requires
            old(self).wf(),
        ensures
            final(self).wf(),
            final(self)@ == old(self)@,
            final(self).slots@.contains_key(a),
            final(self).slots@[a] == s,
            forall|b: u128| #[trigger]
                old(self).slots@.contains_key(b) ==> final(self).slots@.contains_key(b)
                    && final(self).slots@[b] == old(self).slots@[b],
            final(self).entries@ == old(self).entries@,
    {
        broadcast use vstd::std_specs::hash::group_hash_axioms;

        match self.slots.get(&a) {
            Some(s) => *s,
            None => {
                let s: u64 = self.slots.len() as u64;
                self.slots.insert(a, s);
                proof {
                    assert forall|p: (u128, u128)| #[trigger]
                        self@.contains_key(p) <==> old(self)@.contains_key(p) by {
                        if self@.contains_key(p) {
                            let k = pair_key(self.slots@[p.0], self.slots@[p.1]);
                            let (x, y) = choose|x: u64, y: u64| #[trigger]
                                pair_key(x, y) == k && x < old(self).slots@.len() && y < old(
                                    self,
                                ).slots@.len();
                            lemma_pair_key_injective(
                                x,
                                y,
                                self.slots@[p.0],
                                self.slots@[p.1],
                            );
                        }
                    }
                    assert(self@ =~= old(self)@);
                }
                s
            },
        }
    }

    /// Set the number for the pair `(a, b)`.
    pub fn insert(&mut self, a: u128, b: u128, v: u32)
        requires
            old(self).wf(),
        ensures
            final(self).wf(),
            final(self)@ == old(self)@.insert((a, b), v),
    {
        broadcast use vstd::std_specs::hash::group_hash_axioms;

        let x: u64 = self.slot(a);
        let y: u64 = self.slot(b);
        let ghost before = *self;
        self.entries.insert(key_of(x, y), v);
        proof {
            assert forall|p: (u128, u128)| p != (a, b) && self.slots@.contains_key(p.0)
                && self.slots@.contains_key(p.1) implies #[trigger] pair_key(
                self.slots@[p.0],
                self.slots@[p.1],
            ) != pair_key(x, y) by {
                if pair_key(self.slots@[p.0], self.slots@[p.1]) == pair_key(x, y) {
                    lemma_pair_key_injective(self.slots@[p.0], self.slots@[p.1], x, y);
                }
            }
            assert(self@ =~= old(self)@.insert((a, b), v));
            assert forall|k: u128| #[trigger] self.entries@.contains_key(k) implies exists|
                c: u64,
                d: u64,
            | #[trigger]
                pair_key(c, d) == k && c < self.slots@.len() && d < self.slots@.len() by {
                if k == pair_key(x, y) {
                    assert(self.slots@.contains_key(a) && self.slots@.contains_key(b));
                } else {
                    assert(before.entries@.contains_key(k));
                }
            }
        }
    }

    /// The number for the pair `(a, b)`.
    pub fn get(&self, a: u128, b: u128) -> (r: Option<u32>)
        ensures
            r == if self@.contains_key((a, b)) {
                Some(self@[(a, b)])
            } else {
                None
            },
    {
        broadcast use vstd::std_specs::hash::group_hash_axioms;

        match (self.slots.get(&a), self.slots.get(&b)) {
            (Some(x), Some(y)) => match self.entries.get(&key_of(*x, *y)) {
                Some(v) => Some(*v),
                None => None,
            },
            _ => None,
        }
    }
}

} // verus!
