//! The key directory: the in-memory index from key to the log position of
//! the latest `Set` record for that key. Absence of an entry means the key
//! is deleted or was never set.

use vstd::prelude::*;
use vstd::pervasive::VecAdditionalExecFns;

use crate::segment::LogPosition;
use crate::segment::PosModel;

verus! {

/// An association list with pairwise-distinct keys, read through its map view.
pub struct KeyDir {
    pub entries: Vec<(String, LogPosition)>,
}

pub open spec fn distinct_keys(es: Seq<(String, LogPosition)>) -> bool {
    forall|i: int, j: int|
        0 <= i < j < es.len() ==> (#[trigger] es[i]).0@ != (#[trigger] es[j]).0@
}

pub open spec fn to_map(es: Seq<(String, LogPosition)>) -> Map<Seq<char>, PosModel>
    decreases es.len(),
{
    if es.len() == 0 {
        Map::empty()
    } else {
        to_map(es.drop_last()).insert(es.last().0@, es.last().1@)
    }
}

pub proof fn lemma_to_map_props(es: Seq<(String, LogPosition)>)
    ensures
        to_map(es).dom().finite(),
        forall|k: Seq<char>|
            #[trigger] to_map(es).contains_key(k) ==> exists|i: int|
                0 <= i < es.len() && (#[trigger] es[i]).0@ == k,
        forall|i: int| 0 <= i < es.len() ==> to_map(es).contains_key((#[trigger] es[i]).0@),
        distinct_keys(es) ==> forall|i: int|
            0 <= i < es.len() ==> to_map(es)[(#[trigger] es[i]).0@] == es[i].1@,
        distinct_keys(es) ==> to_map(es).dom().len() == es.len(),
    decreases es.len(),
{
    if es.len() > 0 {
        let pre = es.drop_last();
        lemma_to_map_props(pre);
        assert(forall|i: int| 0 <= i < pre.len() ==> pre[i] == es[i]);
        if distinct_keys(es) {
            assert(distinct_keys(pre));
            assert(!to_map(pre).contains_key(es.last().0@)) by {
                if to_map(pre).contains_key(es.last().0@) {
                    let i = choose|i: int| 0 <= i < pre.len() && (#[trigger] pre[i]).0@
                        == es.last().0@;
                    assert(es[i].0@ == es[es.len() - 1].0@);
                    assert(false);
                }
            }
        }
    }
}

impl View for KeyDir {
    type V = Map<Seq<char>, PosModel>;

    open spec fn view(&self) -> Map<Seq<char>, PosModel> {
        to_map(self.entries@)
    }
}

impl KeyDir {
    pub open spec fn wf(&self) -> bool {
        distinct_keys(self.entries@)
    }

    /// How many keys are live. Equals the cardinality of the map view.
    pub open spec fn num_keys(&self) -> nat {
        self.entries@.len()
    }

    pub fn new() -> (d: KeyDir)
        ensures
            d.wf(),
            d@ == Map::<Seq<char>, PosModel>::empty(),
            d.num_keys() == 0,
    {
        KeyDir { entries: Vec::new() }
    }

    pub fn len(&self) -> (n: usize)
        ensures
            n == self.num_keys(),
    {
        self.entries.len()
    }

    fn find(&self, key: &String) -> (r: Option<usize>)
        requires
            self.wf(),
        ensures
            match r {
                Some(i) => i < self.entries@.len() && self.entries@[i as int].0@ == key@
                    && self@.contains_key(key@) && self@[key@] == self.entries@[i as int].1@,
                None => !self@.contains_key(key@),
            },
    {
        proof {
            lemma_to_map_props(self.entries@);
        }
        let n = self.entries.len();
        for i in 0..n
            invariant
                n == self.entries@.len(),
                forall|j: int| 0 <= j < i ==> (#[trigger] self.entries@[j]).0@ != key@,
                self.wf(),
        {
            if self.entries[i].0 == *key {
                proof {
                    lemma_to_map_props(self.entries@);
                }
                return Some(i);
            }
        }
        proof {
            if self@.contains_key(key@) {
                let i = choose|i: int|
                    0 <= i < self.entries@.len() && (#[trigger] self.entries@[i]).0@ == key@;
                assert(false);
            }
        }
        None
    }

    pub fn get(&self, key: &String) -> (r: Option<LogPosition>)
        requires
            self.wf(),
        ensures
            match r {
                Some(p) => self@.contains_key(key@) && p@ == self@[key@],
                None => !self@.contains_key(key@),
            },
    {
        match self.find(key) {
            Some(i) => Some(self.entries[i].1),
            None => None,
        }
    }

    pub fn contains_key(&self, key: &String) -> (b: bool)
        requires
            self.wf(),
        ensures
            b == self@.contains_key(key@),
    {
        self.find(key).is_some()
    }

    pub fn set(&mut self, key: String, pos: LogPosition)
        requires
            old(self).wf(),
        ensures
            final(self).wf(),
            final(self)@ == old(self)@.insert(key@, pos@),
            old(self)@.contains_key(key@) ==> final(self).num_keys() == old(self).num_keys(),
            !old(self)@.contains_key(key@) ==> final(self).num_keys() == old(self).num_keys()
                + 1,
    {
        proof {
            lemma_to_map_props(self.entries@);
        }
        match self.find(&key) {
            Some(i) => {
                self.entries.set(i, (key, pos));
                proof {
                    let es = self.entries@;
                    let old_es = old(self).entries@;
                    assert(distinct_keys(es)) by {
                        assert(forall|j: int|
                            0 <= j < es.len() && j != i ==> es[j] == old_es[j]);
                    }
                    lemma_to_map_props(es);
                    assert(to_map(es) =~= old(self)@.insert(key@, pos@)) by {
                        lemma_to_map_props(old_es);
                        assert forall|k: Seq<char>| #[trigger] to_map(es).contains_key(k)
                            implies to_map(es)[k] == old(self)@.insert(key@, pos@)[k] && old(
                            self,
                        )@.insert(key@, pos@).contains_key(k) by {
                            let j = choose|j: int|
                                0 <= j < es.len() && (#[trigger] es[j]).0@ == k;
                            if j == i {
                                assert(to_map(es)[k] == pos@);
                            } else {
                                assert(es[j] == old_es[j]);
                                assert(to_map(es)[k] == es[j].1@);
                                assert(old(self)@[k] == old_es[j].1@);
                            }
                        }
                        assert forall|k: Seq<char>|
                            #[trigger] old(self)@.insert(key@, pos@).contains_key(k)
                            implies to_map(es).contains_key(k) by {
                            if k == key@ {
                                assert(es[i as int].0@ == k);
                            } else {
                                let j0 = choose|j0: int|
                                    0 <= j0 < old_es.len() && (#[trigger] old_es[j0]).0@ == k;
                                assert(es[j0] == old_es[j0]);
                            }
                        }
                    }
                }
            },
            None => {
                self.entries.push((key, pos));
                proof {
                    let es = self.entries@;
                    let old_es = old(self).entries@;
                    assert(es.drop_last() =~= old_es);
                    assert(es.last().0@ == key@);
                    assert(distinct_keys(es)) by {
                        lemma_to_map_props(old_es);
                        assert forall|a: int, b: int| 0 <= a < b < es.len() implies (
                        #[trigger] es[a]).0@ != (#[trigger] es[b]).0@ by {
                            if b == es.len() - 1 {
                                assert(es[a] == old_es[a]);
                                assert(to_map(old_es).contains_key(old_es[a].0@));
                            } else {
                                assert(es[a] == old_es[a] && es[b] == old_es[b]);
                            }
                        }
                    }
                }
            },
        }
    }

    pub fn remove(&mut self, key: &String)
        requires
            old(self).wf(),
        ensures
            final(self).wf(),
            final(self)@ == old(self)@.remove(key@),
            old(self)@.contains_key(key@) ==> final(self).num_keys() == old(self).num_keys()
                - 1,
            !old(self)@.contains_key(key@) ==> *final(self) == *old(self),
    {
        match self.find(key) {
            Some(i) => {
                proof {
                    lemma_to_map_props(self.entries@);
                }
                self.entries.remove(i);
                proof {
                    let es = self.entries@;
                    let old_es = old(self).entries@;
                    assert(forall|j: int| 0 <= j < i ==> es[j] == old_es[j]);
                    assert(forall|j: int|
                        i <= j < es.len() ==> (#[trigger] es[j]) == old_es[j + 1]);
                    assert(distinct_keys(es)) by {
                        assert forall|a: int, b: int| 0 <= a < b < es.len() implies (
                        #[trigger] es[a]).0@ != (#[trigger] es[b]).0@ by {
                            let a0: int = if a < i { a } else { a + 1 };
                            let b0: int = if b < i { b } else { b + 1 };
                            assert(es[a] == old_es[a0] && es[b] == old_es[b0]);
                        }
                    }
                    lemma_to_map_props(es);
                    lemma_to_map_props(old_es);
                    assert(to_map(es) =~= old(self)@.remove(key@)) by {
                        assert forall|k: Seq<char>| #[trigger] to_map(es).contains_key(k)
                            implies to_map(es)[k] == old(self)@.remove(key@)[k] && old(
                            self,
                        )@.remove(key@).contains_key(k) by {
                            let j = choose|j: int|
                                0 <= j < es.len() && (#[trigger] es[j]).0@ == k;
                            let j0: int = if j < i { j } else { j + 1 };
                            assert(es[j] == old_es[j0]);
                            assert(to_map(es)[k] == es[j].1@);
                            assert(old(self)@[k] == old_es[j0].1@);
                            assert(k != key@);
                        }
                        assert forall|k: Seq<char>|
                            #[trigger] old(self)@.remove(key@).contains_key(k)
                            implies to_map(es).contains_key(k) by {
                            let j0 = choose|j0: int|
                                0 <= j0 < old_es.len() && (#[trigger] old_es[j0]).0@ == k;
                            assert(j0 != i);
                            let j: int = if j0 < i { j0 } else { j0 - 1 };
                            assert(es[j] == old_es[j0]);
                        }
                    }
                }
            },
            None => {},
        }
    }
}

} // verus!
