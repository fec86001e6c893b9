//! An unbounded map of pieces, keyed by position, for worlds built piece by
//! piece: every position holds at most one piece, and a position where an
//! actor died remembers the actor.

use vstd::prelude::*;
use crate::math::Vec3;
use crate::map::Piece;

verus! {

/// The positions that a list of entries speaks of.
pub open spec fn keys_of<V>(entries: Seq<(Vec3, V)>) -> Seq<Vec3> {
    entries.map_values(|e: (Vec3, V)| e.0)
}

/// No position occurs twice among the entries.
pub open spec fn unique_keys<V>(entries: Seq<(Vec3, V)>) -> bool {
    forall|i: int, j: int| 0 <= i < j < entries.len() ==> entries[i].0 != entries[j].0
}

/// The map that a list of entries with distinct positions stands for.
pub open spec fn entries_map<V>(entries: Seq<(Vec3, V)>) -> Map<Vec3, V>
    decreases entries.len(),
{
    if entries.len() == 0 {
        Map::empty()
    } else {
        entries_map(entries.drop_last()).insert(entries.last().0, entries.last().1)
    }
}

/// A map of pieces and of the actors that died, both by position.
pub struct SparseMap {
    alive: Vec<(Vec3, Piece)>,
    dead: Vec<(Vec3, usize)>,
}

/// What a sparse map holds.
pub struct SparseView {
    pub alive: Map<Vec3, Piece>,
    pub dead: Map<Vec3, usize>,
}

impl View for SparseMap {
    type V = SparseView;

    closed spec fn view(&self) -> SparseView {
        SparseView { alive: entries_map(self.alive@), dead: entries_map(self.dead@) }
    }
}

/// Where `p` occurs among the entries.
fn find<V>(entries: &Vec<(Vec3, V)>, p: Vec3) -> (r: Option<usize>)
    requires
        unique_keys(entries@),
    ensures
        match r {
            Some(i) => i < entries@.len() && entries@[i as int].0 == p,
            None => forall|i: int| 0 <= i < entries@.len() ==> entries@[i].0 != p,
        },
{
    let mut i: usize = 0;
    while i < entries.len()
        invariant
            i <= entries@.len(),
            forall|k: int| 0 <= k < i ==> entries@[k].0 != p,
        decreases entries@.len() - i,
    {
        if entries[i].0 == p {
            return Some(i);
        }
        i = i + 1;
    }
    None
}

/// The map of the entries holds exactly their positions, each with its
/// value.
proof fn lemma_entries_map<V>(entries: Seq<(Vec3, V)>)
    requires
        unique_keys(entries),
    ensures
        forall|p: Vec3| #[trigger] entries_map(entries).dom().contains(p) <==> exists|i: int| 0 <= i < entries.len() && entries[i].0 == p,
        forall|i: int| 0 <= i < entries.len() ==> entries_map(entries)[#[trigger] entries[i].0] == entries[i].1,
        entries_map(entries).dom().finite(),
    decreases entries.len(),
{
    if entries.len() > 0 {
        let t = entries.drop_last();
        lemma_entries_map(t);
        assert forall|p: Vec3| #[trigger] entries_map(entries).dom().contains(p) <==> exists|i: int| 0 <= i < entries.len() && entries[i].0 == p by {
            if entries_map(entries).dom().contains(p) && p != entries.last().0 {
                let i = choose|i: int| 0 <= i < t.len() && t[i].0 == p;
                assert(entries[i].0 == p);
            }
            if exists|i: int| 0 <= i < entries.len() && entries[i].0 == p {
                let i = choose|i: int| 0 <= i < entries.len() && entries[i].0 == p;
                if i < t.len() {
                    assert(t[i].0 == p);
                }
            }
        }
        assert forall|i: int| 0 <= i < entries.len() implies entries_map(entries)[#[trigger] entries[i].0] == entries[i].1 by {
            if i < t.len() {
                assert(t[i] == entries[i]);
                assert(entries[i].0 != entries.last().0);
            }
        }
    }
}

/// Sets `p` to `v` among the entries: in place where `p` occurs, at the end
/// where it does not.
fn put<V>(entries: &mut Vec<(Vec3, V)>, p: Vec3, v: V)
    requires
        unique_keys(old(entries)@),
    ensures
        unique_keys(final(entries)@),
        entries_map(final(entries)@) == entries_map(old(entries)@).insert(p, v),
{
    proof {
        lemma_entries_map(entries@);
    }
    match find(entries, p) {
        Some(i) => {
            let ghost before = entries@;
            entries.set(i, (p, v));
            proof {
                lemma_entries_map(entries@);
                assert forall|a: int, b: int| 0 <= a < b < entries@.len() implies entries@[a].0 != entries@[b].0 by {
                    assert(entries@[a].0 == before[a].0);
                    assert(entries@[b].0 == before[b].0);
                }
                lemma_entries_map(entries@);
                assert(entries_map(entries@) =~= entries_map(before).insert(p, v)) by {
                    assert forall|q: Vec3| entries_map(entries@).dom().contains(q) <==> entries_map(before).insert(p, v).dom().contains(q) by {
                        if entries_map(before).dom().contains(q) {
                            let k = choose|k: int| 0 <= k < before.len() && before[k].0 == q;
                            assert(entries@[k].0 == q);
                        }
                        if entries_map(entries@).dom().contains(q) {
                            let k = choose|k: int| 0 <= k < entries@.len() && entries@[k].0 == q;
                            assert(before[k].0 == q);
                        }
                    }
                    assert forall|q: Vec3| entries_map(entries@).dom().contains(q) implies entries_map(entries@)[q] == entries_map(before).insert(p, v)[q] by {
                        let k = choose|k: int| 0 <= k < entries@.len() && entries@[k].0 == q;
                        assert(entries_map(entries@)[entries@[k].0] == entries@[k].1);
                        if k != i as int {
                            assert(entries_map(before)[before[k].0] == before[k].1);
                        }
                    }
                }
            }
        },
        None => {
            let ghost before = entries@;
            entries.push((p, v));
            proof {
                assert(entries@.drop_last() =~= before);
                assert forall|a: int, b: int| 0 <= a < b < entries@.len() implies entries@[a].0 != entries@[b].0 by {
                    if b == before.len() {
                        assert(entries@[a] == before[a]);
                    } else {
                        assert(entries@[a] == before[a]);
                        assert(entries@[b] == before[b]);
                    }
                }
            }
        },
    }
}

/// Drops `p` from the entries, giving back its value if it had one.
fn take<V: Copy>(entries: &mut Vec<(Vec3, V)>, p: Vec3) -> (r: Option<V>)
    requires
        unique_keys(old(entries)@),
    ensures
        unique_keys(final(entries)@),
        entries_map(final(entries)@) == entries_map(old(entries)@).remove(p),
        r == (if entries_map(old(entries)@).dom().contains(p) {
            Some(entries_map(old(entries)@)[p])
        } else {
            None
        }),
{
    proof {
        lemma_entries_map(entries@);
    }
    let ghost before = entries@;
    match find(entries, p) {
        Some(i) => {
            let v = entries[i].1;
            entries.remove(i);
            proof {
                assert(entries@ == before.remove(i as int));
                assert forall|a: int, b: int| 0 <= a < b < entries@.len() implies entries@[a].0 != entries@[b].0 by {
                    let a2 = if a < i { a } else { a + 1 };
                    let b2 = if b < i { b } else { b + 1 };
                    assert(entries@[a] == before[a2]);
                    assert(entries@[b] == before[b2]);
                }
                lemma_entries_map(entries@);
                assert forall|q: Vec3| entries_map(entries@).dom().contains(q) <==> entries_map(before).remove(p).dom().contains(q) by {
                    if entries_map(entries@).dom().contains(q) {
                        let k = choose|k: int| 0 <= k < entries@.len() && entries@[k].0 == q;
                        let k2 = if k < i { k } else { k + 1 };
                        assert(before[k2].0 == q);
                    }
                    if entries_map(before).remove(p).dom().contains(q) {
                        let k = choose|k: int| 0 <= k < before.len() && before[k].0 == q;
                        assert(k != i as int);
                        let k2 = if k < i { k } else { k - 1 };
                        assert(entries@[k2].0 == q);
                    }
                }
                assert forall|q: Vec3| entries_map(entries@).dom().contains(q) implies entries_map(entries@)[q] == entries_map(before).remove(p)[q] by {
                    let k = choose|k: int| 0 <= k < entries@.len() && entries@[k].0 == q;
                    let k2 = if k < i { k } else { k + 1 };
                    assert(entries_map(entries@)[entries@[k].0] == entries@[k].1);
                    assert(entries_map(before)[before[k2].0] == before[k2].1);
                }
                assert(entries_map(entries@) =~= entries_map(before).remove(p));
                assert(entries_map(before)[before[i as int].0] == before[i as int].1);
            }
            Some(v)
        },
        None => {
            proof {
                assert(entries_map(before).remove(p) =~= entries_map(before));
            }
            None
        },
    }
}

impl SparseMap {
    /// Each position occurs once in each list.
    pub closed spec fn wf(&self) -> bool {
        unique_keys(self.alive@) && unique_keys(self.dead@)
    }

    /// A map with nothing in it.
    pub fn new() -> (r: Self)
        ensures
            r.wf(),
            r@.alive == Map::<Vec3, Piece>::empty(),
            r@.dead == Map::<Vec3, usize>::empty(),
    {
        SparseMap { alive: Vec::new(), dead: Vec::new() }
    }

    /// The piece at `pos`, if one was put there.
    pub fn get(&self, pos: Vec3) -> (r: Option<Piece>)
        requires
            self.wf(),
        ensures
            r == (if self@.alive.dom().contains(pos) {
                Some(self@.alive[pos])
            } else {
                None
            }),
    {
        proof {
            lemma_entries_map(self.alive@);
        }
        match find(&self.alive, pos) {
            Some(i) => Some(self.alive[i].1),
            None => None,
        }
    }

    /// Puts `value` at `pos`.
    pub fn set(&mut self, pos: Vec3, value: Piece)
        requires
            old(self).wf(),
        ensures
            final(self).wf(),
            final(self)@.alive == old(self)@.alive.insert(pos, value),
            final(self)@.dead == old(self)@.dead,
    {
        put(&mut self.alive, pos, value);
    }

    /// Takes the piece at `pos` away, giving it back.
    pub fn remove(&mut self, pos: Vec3) -> (r: Option<Piece>)
        requires
            old(self).wf(),
        ensures
            final(self).wf(),
            final(self)@.alive == old(self)@.alive.remove(pos),
            final(self)@.dead == old(self)@.dead,
            r == (if old(self)@.alive.dom().contains(pos) {
                Some(old(self)@.alive[pos])
            } else {
                None
            }),
    {
        take(&mut self.alive, pos)
    }

    /// The actor that died at `pos`, if one did.
    pub fn dead_get(&self, pos: Vec3) -> (r: Option<usize>)
        requires
            self.wf(),
        ensures
            r == (if self@.dead.dom().contains(pos) {
                Some(self@.dead[pos])
            } else {
                None
            }),
    {
        proof {
            lemma_entries_map(self.dead@);
        }
        match find(&self.dead, pos) {
            Some(i) => Some(self.dead[i].1),
            None => None,
        }
    }

    /// Records that actor `value` died at `pos`.
    pub fn dead_set(&mut self, pos: Vec3, value: usize)
        requires
            old(self).wf(),
        ensures
            final(self).wf(),
            final(self)@.dead == old(self)@.dead.insert(pos, value),
            final(self)@.alive == old(self)@.alive,
    {
        put(&mut self.dead, pos, value);
    }

    /// Every position that holds a piece, each once.
    pub fn get_map_positions(&self) -> (r: Vec<Vec3>)
        requires
            self.wf(),
        ensures
            r@.to_set() == self@.alive.dom(),
            r@.no_duplicates(),
    {
        proof {
            lemma_entries_map(self.alive@);
        }
        let mut r: Vec<Vec3> = Vec::new();
        let n = self.alive.len();
        for i in 0..n
            invariant
                n == self.alive@.len(),
                self.wf(),
                r@.len() == i,
                forall|k: int| 0 <= k < i ==> r@[k] == self.alive@[k].0,
        {
            r.push(self.alive[i].0);
        }
        proof {
            lemma_entries_map(self.alive@);
            assert forall|p: Vec3| r@.to_set().contains(p) <==> self@.alive.dom().contains(p) by {
                if r@.to_set().contains(p) {
                    let k = choose|k: int| 0 <= k < r@.len() && r@[k] == p;
                    assert(self.alive@[k].0 == p);
                }
                if self@.alive.dom().contains(p) {
                    let k = choose|k: int| 0 <= k < self.alive@.len() && self.alive@[k].0 == p;
                    assert(r@[k] == p);
                }
            }
            assert(r@.to_set() =~= self@.alive.dom());
        }
        r
    }
}

/// A read gives back what a write wrote: after putting `v` at `p`, `p`
/// holds `v` and every other position holds what it held; after taking `p`
/// away, `p` holds nothing.
pub proof fn lemma_sparse_read_after_write(m: Map<Vec3, Piece>, p: Vec3, v: Piece, q: Vec3)
    ensures
        m.insert(p, v).dom().contains(p),
        m.insert(p, v)[p] == v,
        q != p ==> (m.insert(p, v).dom().contains(q) == m.dom().contains(q) && (m.dom().contains(q) ==> m.insert(
            p,
            v,
        )[q] == m[q])),
        !m.remove(p).dom().contains(p),
{
}

} // verus!
