//! Path-keyed association tables.
//!
//! The in-memory backing keeps its directory tree and its file table in
//! [`AssocMap`]s: association lists keyed by the canonical segments of an
//! absolute [`PathId`]. The abstraction is a [`Map`] from segment sequences
//! to values.

use vstd::prelude::*;
use crate::path::PathId;
use crate::path::is_under;

verus! {

/// The mathematical content of an association list: later entries shadow
/// earlier ones (well-formed tables have no duplicate keys).
pub open spec fn map_of<V>(entries: Seq<(PathId, V)>) -> Map<Seq<Seq<u8>>, V>
    decreases entries.len(),
{
    if entries.len() == 0 {
        Map::empty()
    } else {
        map_of(entries.drop_last()).insert(entries.last().0.key(), entries.last().1)
    }
}

proof fn lemma_map_of_contains<V>(entries: Seq<(PathId, V)>, k: Seq<Seq<u8>>)
    ensures
        map_of(entries).contains_key(k) <==> exists|i: int|
            0 <= i < entries.len() && entries[i].0.key() == k,
    decreases entries.len(),
{
    if entries.len() > 0 {
        lemma_map_of_contains(entries.drop_last(), k);
        if entries.last().0.key() == k {
            assert(entries[entries.len() - 1].0.key() == k);
        } else if map_of(entries).contains_key(k) {
            let i = choose|i: int|
                0 <= i < entries.drop_last().len() && entries.drop_last()[i].0.key() == k;
            assert(entries[i].0.key() == k);
        } else {
            assert forall|i: int|
                0 <= i < entries.len() implies entries[i].0.key() != k by {
                if i < entries.len() - 1 {
                    assert(entries.drop_last()[i] == entries[i]);
                }
            }
        }
    }
}

proof fn lemma_map_of_get<V>(entries: Seq<(PathId, V)>, i: int)
    requires
        0 <= i < entries.len(),
        forall|a: int, b: int|
            0 <= a < b < entries.len() ==> entries[a].0.key() != entries[b].0.key(),
    ensures
        map_of(entries).contains_key(entries[i].0.key()),
        map_of(entries)[entries[i].0.key()] == entries[i].1,
    decreases entries.len(),
{
    lemma_map_of_contains(entries, entries[i].0.key());
    if i < entries.len() - 1 {
        assert(entries.drop_last()[i] == entries[i]);
        lemma_map_of_get(entries.drop_last(), i);
        assert(entries.last().0.key() != entries[i].0.key());
    }
}

proof fn lemma_map_of_update<V>(entries: Seq<(PathId, V)>, i: int, p: PathId, v: V)
    requires
        0 <= i < entries.len(),
        p.key() == entries[i].0.key(),
        forall|a: int, b: int|
            0 <= a < b < entries.len() ==> entries[a].0.key() != entries[b].0.key(),
    ensures
        map_of(entries.update(i, (p, v))) == map_of(entries).insert(p.key(), v),
    decreases entries.len(),
{
    let updated = entries.update(i, (p, v));
    if i == entries.len() - 1 {
        assert(updated.drop_last() =~= entries.drop_last());
        assert(map_of(updated) == map_of(entries.drop_last()).insert(p.key(), v));
        assert(map_of(entries).insert(p.key(), v) =~= map_of(entries.drop_last()).insert(
            p.key(),
            v,
        ));
    } else {
        assert(updated.drop_last() =~= entries.drop_last().update(i, (p, v)));
        assert(entries.drop_last()[i] == entries[i]);
        lemma_map_of_update(entries.drop_last(), i, p, v);
        assert(updated.last() == entries.last());
        assert(map_of(updated) == map_of(entries.drop_last()).insert(p.key(), v).insert(
            entries.last().0.key(),
            entries.last().1,
        ));
        assert(map_of(entries).insert(p.key(), v) =~= map_of(entries.drop_last()).insert(
            p.key(),
            v,
        ).insert(entries.last().0.key(), entries.last().1));
    }
}

proof fn lemma_map_of_remove<V>(entries: Seq<(PathId, V)>, i: int)
    requires
        0 <= i < entries.len(),
        forall|a: int, b: int|
            0 <= a < b < entries.len() ==> entries[a].0.key() != entries[b].0.key(),
    ensures
        map_of(entries.remove(i)) == map_of(entries).remove(entries[i].0.key()),
    decreases entries.len(),
{
    let removed = entries.remove(i);
    let k = entries[i].0.key();
    if i == entries.len() - 1 {
        assert(removed =~= entries.drop_last());
        lemma_map_of_contains(entries.drop_last(), k);
        assert forall|a: int|
            0 <= a < entries.drop_last().len() implies entries.drop_last()[a].0.key() != k by {
            assert(entries.drop_last()[a] == entries[a]);
        }
        assert(!map_of(entries.drop_last()).contains_key(k));
        assert(map_of(entries).remove(k) =~= map_of(entries.drop_last()));
    } else {
        assert(removed.drop_last() =~= entries.drop_last().remove(i));
        assert(entries.drop_last()[i] == entries[i]);
        lemma_map_of_remove(entries.drop_last(), i);
        assert(removed.last() == entries.last());
        assert(map_of(removed) == map_of(entries.drop_last()).remove(k).insert(
            entries.last().0.key(),
            entries.last().1,
        ));
        assert(entries.last().0.key() != k);
        assert(map_of(entries).remove(k) =~= map_of(entries.drop_last()).remove(k).insert(
            entries.last().0.key(),
            entries.last().1,
        ));
    }
}

/// An association list from absolute paths to values, abstracted as a
/// [`Map`] keyed by canonical segments.
pub struct AssocMap<V> {
    entries: Vec<(PathId, V)>,
}

impl<V> AssocMap<V> {
    /// The table as a mathematical map.
    pub closed spec fn to_map(&self) -> Map<Seq<Seq<u8>>, V> {
        map_of(self.entries@)
    }

    /// The number of entries.
    pub closed spec fn spec_len(&self) -> nat {
        self.entries@.len()
    }

    /// Well-formed: keys are absolute and pairwise distinct.
    pub closed spec fn wf(&self) -> bool {
        &&& forall|i: int| 0 <= i < self.entries@.len() ==> (#[trigger] self.entries@[i]).0.absolute
        &&& forall|a: int, b: int|
            0 <= a < b < self.entries@.len() ==> self.entries@[a].0.key()
                != self.entries@[b].0.key()
    }

    /// An empty table.
    pub fn new() -> (r: Self)
        ensures
            r.wf(),
            r.to_map() == Map::<Seq<Seq<u8>>, V>::empty(),
            r.spec_len() == 0,
    {
        AssocMap { entries: Vec::new() }
    }

    /// The index of the entry for `p`, when the table holds one.
    fn find(&self, p: &PathId) -> (r: Option<usize>)
        requires
            self.wf(),
        ensures
            match r {
                Some(i) => p.absolute && i < self.entries@.len() && self.entries@[
                    i as int
                ].0.key() == p.key() && self.to_map().contains_key(p.key()),
                None => !(p.absolute && self.to_map().contains_key(p.key())),
            },
    {
        let mut i: usize = 0;
        while i < self.entries.len()
            invariant
                self.wf(),
                i <= self.entries@.len(),
                forall|k: int|
                    0 <= k < i ==> !((#[trigger] self.entries@[k]).0.absolute == p.absolute
                        && self.entries@[k].0.key() == p.key()),
            decreases self.entries@.len() - i,
        {
            if self.entries[i].0 == *p {
                proof {
                    lemma_map_of_get(self.entries@, i as int);
                }
                return Some(i);
            }
            i = i + 1;
        }
        proof {
            lemma_map_of_contains(self.entries@, p.key());
        }
        None
    }

    /// Whether the table holds an entry for `p`.
    pub fn contains(&self, p: &PathId) -> (r: bool)
        requires
            self.wf(),
        ensures
            r == (p.absolute && self.to_map().contains_key(p.key())),
    {
        self.find(p).is_some()
    }

    /// The value stored for `p`, when the table holds one.
    pub fn get(&self, p: &PathId) -> (r: Option<&V>)
        requires
            self.wf(),
        ensures
            match r {
                Some(v) => p.absolute && self.to_map().contains_key(p.key()) && *v
                    == self.to_map()[p.key()],
                None => !(p.absolute && self.to_map().contains_key(p.key())),
            },
    {
        match self.find(p) {
            Some(i) => {
                proof {
                    lemma_map_of_get(self.entries@, i as int);
                }
                Some(&self.entries[i].1)
            },
            None => None,
        }
    }

    /// Store `v` under `p`, replacing any existing entry.
    pub fn insert(&mut self, p: PathId, v: V)
        requires
            old(self).wf(),
            p.absolute,
        ensures
            final(self).wf(),
            final(self).to_map() == old(self).to_map().insert(p.key(), v),
            final(self).spec_len() <= old(self).spec_len() + 1,
            final(self).spec_len() >= old(self).spec_len(),
    {
        let found = self.find(&p);
        match found {
            Some(i) => {
                proof {
                    lemma_map_of_update(self.entries@, i as int, p, v);
                }
                let ghost pre = self.entries@;
                self.entries[i] = (p, v);
                proof {
                    assert(self.entries@ =~= pre.update(i as int, (p, v)));
                }
            },
            None => {
                let ghost pre = self.entries@;
                self.entries.push((p, v));
                proof {
                    assert(self.entries@.drop_last() =~= pre);
                    lemma_map_of_contains(pre, p.key());
                    assert forall|a: int, b: int|
                        0 <= a < b < self.entries@.len() implies self.entries@[a].0.key()
                        != self.entries@[b].0.key() by {
                        if b == self.entries@.len() - 1 {
                            lemma_map_of_get(pre, a);
                        }
                    }
                }
            },
        }
    }

    /// Remove and return the entry for `p`, when the table holds one.
    pub fn remove(&mut self, p: &PathId) -> (r: Option<V>)
        requires
            old(self).wf(),
        ensures
            final(self).wf(),
            match r {
                Some(v) => p.absolute && old(self).to_map().contains_key(p.key()) && v == old(
                    self,
                ).to_map()[p.key()] && final(self).to_map() == old(self).to_map().remove(p.key())
                    && final(self).spec_len() == old(self).spec_len() - 1,
                None => !(p.absolute && old(self).to_map().contains_key(p.key())) && *final(self)
                    == *old(self),
            },
    {
        let found = self.find(p);
        match found {
            Some(i) => {
                proof {
                    lemma_map_of_get(self.entries@, i as int);
                    lemma_map_of_remove(self.entries@, i as int);
                }
                let ghost pre = self.entries@;
                let entry = self.entries.remove(i);
                proof {
                    assert forall|a: int, b: int|
                        0 <= a < b < self.entries@.len() implies self.entries@[a].0.key()
                        != self.entries@[b].0.key() by {
                        assert(self.entries@ == pre.remove(i as int));
                    }
                }
                Some(entry.1)
            },
            None => None,
        }
    }

    /// Remove every entry whose key is `anc` or lies under it.
    pub fn remove_subtree(&mut self, anc: &PathId)
        requires
            old(self).wf(),
        ensures
            final(self).wf(),
            forall|q: Seq<Seq<u8>>| #[trigger]
                final(self).to_map().contains_key(q) <==> (old(self).to_map().contains_key(q)
                    && !is_under(anc.key(), q)),
            forall|q: Seq<Seq<u8>>| #[trigger]
                final(self).to_map().contains_key(q) ==> final(self).to_map()[q] == old(
                    self,
                ).to_map()[q],
    {
        let ghost pre = self.entries@;
        let mut kept: Vec<(PathId, V)> = Vec::new();
        while self.entries.len() > 0
            invariant
                self.entries@ == pre.subrange(0, self.entries@.len() as int),
                self.entries@.len() <= pre.len(),
                forall|i: int| 0 <= i < pre.len() ==> (#[trigger] pre[i]).0.absolute,
                forall|a: int, b: int|
                    0 <= a < b < pre.len() ==> pre[a].0.key() != pre[b].0.key(),
                forall|i: int|
                    0 <= i < kept@.len() ==> (#[trigger] kept@[i]).0.absolute && !is_under(
                        anc.key(),
                        kept@[i].0.key(),
                    ),
                forall|q: Seq<Seq<u8>>| #[trigger]
                    map_of(kept@).contains_key(q) <==> exists|j: int|
                        self.entries@.len() <= j < pre.len() && (#[trigger] pre[j]).0.key() == q
                            && !is_under(anc.key(), q),
                forall|j: int|
                    self.entries@.len() <= j < pre.len() && !is_under(
                        anc.key(),
                        (#[trigger] pre[j]).0.key(),
                    ) ==> map_of(kept@).contains_key(pre[j].0.key()) && map_of(kept@)[pre[
                        j
                    ].0.key()] == pre[j].1,
                forall|a: int, b: int|
                    0 <= a < b < kept@.len() ==> kept@[a].0.key() != kept@[b].0.key(),
            decreases self.entries@.len(),
        {
            let ghost before = self.entries@;
            let ghost kept_before = kept@;
            let entry = self.entries.pop();
            proof {
                assert(self.entries@ =~= pre.subrange(0, self.entries@.len() as int));
            }
            match entry {
                Some(e) => {
                    let ghost j = self.entries@.len() as int;
                    proof {
                        assert(e == pre[j]);
                    }
                    if !e.0.starts_with(anc) {
                        kept.push(e);
                        proof {
                            assert(kept@.drop_last() =~= kept_before);
                            assert(kept@.last() == pre[j]);
                            assert forall|a: int, b: int|
                                0 <= a < b < kept@.len() implies kept@[a].0.key()
                                != kept@[b].0.key() by {
                                if b == kept@.len() - 1 {
                                    lemma_map_of_contains(kept_before, kept_before[a].0.key());
                                    assert(map_of(kept_before).contains_key(kept@[a].0.key()));
                                    let jj = choose|jj: int|
                                        before.len() <= jj < pre.len() && (#[trigger] pre[
                                            jj
                                        ]).0.key() == kept@[a].0.key() && !is_under(
                                            anc.key(),
                                            kept@[a].0.key(),
                                        );
                                    assert(pre[jj].0.key() != pre[j].0.key());
                                } else {
                                    assert(kept_before[a] == kept@[a]);
                                    assert(kept_before[b] == kept@[b]);
                                }
                            }
                            assert forall|q: Seq<Seq<u8>>| #[trigger]
                                map_of(kept@).contains_key(q) implies exists|jj: int|
                                self.entries@.len() <= jj < pre.len() && (#[trigger] pre[
                                    jj
                                ]).0.key() == q && !is_under(anc.key(), q) by {
                                if q == pre[j].0.key() {
                                    assert(pre[j].0.key() == q && !is_under(anc.key(), q));
                                } else {
                                    assert(map_of(kept_before).contains_key(q));
                                }
                            }
                            assert forall|jj: int|
                                self.entries@.len() <= jj < pre.len() && !is_under(
                                    anc.key(),
                                    (#[trigger] pre[jj]).0.key(),
                                ) implies map_of(kept@).contains_key(pre[jj].0.key()) && map_of(
                                kept@,
                            )[pre[jj].0.key()] == pre[jj].1 by {
                                if jj != j {
                                    assert(map_of(kept_before).contains_key(pre[jj].0.key()));
                                    assert(pre[jj].0.key() != pre[j].0.key());
                                }
                            }
                        }
                    } else {
                        proof {
                            assert forall|q: Seq<Seq<u8>>| #[trigger]
                                map_of(kept@).contains_key(q) implies exists|jj: int|
                                self.entries@.len() <= jj < pre.len() && (#[trigger] pre[
                                    jj
                                ]).0.key() == q && !is_under(anc.key(), q) by {
                                let jj = choose|jj: int|
                                    before.len() <= jj < pre.len() && (#[trigger] pre[jj]).0.key()
                                        == q && !is_under(anc.key(), q);
                                assert(self.entries@.len() <= jj < pre.len());
                            }
                        }
                    }
                },
                None => {
                    proof {
                        assert(false);
                    }
                },
            }
        }
        self.entries = kept;
        proof {
            assert forall|q: Seq<Seq<u8>>| #[trigger]
                map_of(self.entries@).contains_key(q) <==> (map_of(pre).contains_key(q)
                    && !is_under(anc.key(), q)) by {
                lemma_map_of_contains(pre, q);
            }
            assert forall|q: Seq<Seq<u8>>| #[trigger]
                map_of(self.entries@).contains_key(q) implies map_of(self.entries@)[q] == map_of(
                pre,
            )[q] by {
                let j = choose|j: int|
                    0 <= j < pre.len() && (#[trigger] pre[j]).0.key() == q && !is_under(
                        anc.key(),
                        q,
                    );
                lemma_map_of_get(pre, j);
            }
        }
    }

    /// Drop every entry.
    pub fn clear(&mut self)
        ensures
            final(self).wf(),
            final(self).to_map() == Map::<Seq<Seq<u8>>, V>::empty(),
            final(self).spec_len() == 0,
    {
        self.entries.clear();
    }
}

} // verus!
