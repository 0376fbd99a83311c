//! The set of currently selected units, kept as an ordered, duplicate-free
//! list of unit identifiers.

use vstd::prelude::*;

verus! {

/// The list with every occurrence of `e` removed, order kept.
pub open spec fn without(s: Seq<u64>, e: u64) -> Seq<u64>
    decreases s.len(),
{
    if s.len() == 0 {
        Seq::empty()
    } else {
        without(s.drop_last(), e) + (if s.last() == e {
            Seq::<u64>::empty()
        } else {
            seq![s.last()]
        })
    }
}

/// Tracks which units the player has selected.
#[derive(Debug)]
pub struct SelectedUnits {
    pub entities: Vec<u64>,
}

impl SelectedUnits {
    /// No unit is listed twice.
    pub open spec fn wf(self) -> bool {
        forall|a: int, b: int|
            0 <= a < self.entities@.len() && 0 <= b < self.entities@.len() && a != b
                ==> self.entities@[a] != self.entities@[b]
    }

    /// Builds an empty selection.
    pub fn new() -> (r: SelectedUnits)
        ensures
            r.wf(),
            r.entities@.len() == 0,
    {
        SelectedUnits { entities: Vec::new() }
    }

    /// Empties the selection.
    pub fn clear(&mut self)
        ensures
            final(self).wf(),
            final(self).entities@.len() == 0,
    {
        self.entities.clear();
    }

    /// Whether the unit is selected.
    pub fn is_selected(&self, entity: u64) -> (r: bool)
        ensures
            r == self.entities@.contains(entity),
    {
        let mut i: usize = 0;
        while i < self.entities.len()
            invariant
                i <= self.entities@.len(),
                forall|k: int| 0 <= k < i ==> self.entities@[k] != entity,
            decreases self.entities@.len() - i,
        {
            if self.entities[i] == entity {
                proof {
                    assert(self.entities@[i as int] == entity);
                }
                return true;
            }
            i = i + 1;
        }
        false
    }

    /// Adds a unit to the selection, once.
    pub fn add(&mut self, entity: u64)
        requires
            old(self).wf(),
        ensures
            final(self).wf(),
            final(self).entities@.contains(entity),
            old(self).entities@.contains(entity) ==> final(self).entities@ == old(
                self,
            ).entities@,
            !old(self).entities@.contains(entity) ==> final(self).entities@ == old(
                self,
            ).entities@.push(entity),
    {
        if !self.is_selected(entity) {
            let ghost pre = self.entities@;
            self.entities.push(entity);
            proof {
                assert(self.entities@[pre.len() as int] == entity);
                assert forall|a: int, b: int|
                    0 <= a < self.entities@.len() && 0 <= b < self.entities@.len() && a != b
                        implies self.entities@[a] != self.entities@[b] by {
                    if a < pre.len() && b < pre.len() {
                    } else if a == pre.len() as int {
                        assert(!pre.contains(self.entities@[a]));
                        assert(pre[b] == self.entities@[b]);
                        if self.entities@[a] == self.entities@[b] {
                            assert(pre.contains(pre[b]));
                            assert(false);
                        }
                    } else {
                        assert(!pre.contains(self.entities@[b]));
                        assert(pre[a] == self.entities@[a]);
                        if self.entities@[a] == self.entities@[b] {
                            assert(pre.contains(pre[a]));
                            assert(false);
                        }
                    }
                }
            }
        } else {
            proof {
                let w = choose|w: int|
                    0 <= w < self.entities@.len() && self.entities@[w] == entity;
            }
        }
    }

    /// Removes a unit from the selection.
    pub fn remove(&mut self, entity: u64)
        requires
            old(self).wf(),
        ensures
            final(self).wf(),
            final(self).entities@ == without(old(self).entities@, entity),
            !final(self).entities@.contains(entity),
            forall|x: u64| x != entity ==> (final(self).entities@.contains(x) <==> old(
                self,
            ).entities@.contains(x)),
    {
        let ghost pre = self.entities@;
        let mut out: Vec<u64> = Vec::new();
        let mut i: usize = 0;
        while i < self.entities.len()
            invariant
                i <= pre.len(),
                self.entities@ == pre,
                forall|a: int, b: int|
                    0 <= a < pre.len() && 0 <= b < pre.len() && a != b ==> pre[a] != pre[b],
                forall|k: int| 0 <= k < out@.len() ==> out@[k] != entity,
                forall|k: int| 0 <= k < out@.len() ==> pre.take(i as int).contains(
                    #[trigger] out@[k],
                ),
                forall|k: int| 0 <= k < i && pre[k] != entity ==> out@.contains(#[trigger] pre[k]),
                forall|a: int, b: int|
                    0 <= a < out@.len() && 0 <= b < out@.len() && a != b ==> out@[a] != out@[b],
                out@ == without(pre.take(i as int), entity),
            decreases pre.len() - i,
        {
            proof {
                assert(pre.take(i + 1).drop_last() =~= pre.take(i as int));
                assert(pre.take(i + 1).last() == pre[i as int]);
            }
            let e = self.entities[i];
            if e == entity {
                proof {
                    assert(out@ =~= without(pre.take(i + 1), entity));
                }
            }
            if e != entity {
                let ghost ob = out@;
                out.push(e);
                proof {
                    assert(out@[ob.len() as int] == pre[i as int]);
                    assert forall|k: int| 0 <= k < i + 1 && pre[k] != entity implies out@.contains(
                        #[trigger] pre[k],
                    ) by {
                        if k < i as int {
                            let w = choose|w: int| 0 <= w < ob.len() && ob[w] == pre[k];
                            assert(out@[w] == pre[k]);
                        } else {
                            assert(out@[ob.len() as int] == pre[k]);
                        }
                    }
                    assert forall|k: int| 0 <= k < out@.len() implies pre.take(i + 1).contains(
                        #[trigger] out@[k],
                    ) by {
                        if k < ob.len() {
                            assert(ob[k] == out@[k]);
                            let w = choose|w: int|
                                0 <= w < i && pre.take(i as int)[w] == ob[k];
                            assert(pre.take(i + 1)[w] == out@[k]);
                        } else {
                            assert(pre.take(i + 1)[i as int] == out@[k]);
                        }
                    }
                    assert forall|a: int, b: int|
                        0 <= a < out@.len() && 0 <= b < out@.len() && a != b implies out@[a]
                        != out@[b] by {
                        if a == ob.len() as int || b == ob.len() as int {
                            let nk = if a == ob.len() as int {
                                b
                            } else {
                                a
                            };
                            let w = choose|w: int|
                                0 <= w < i && pre.take(i as int)[w] == ob[nk];
                            assert(pre[w] == out@[nk]);
                            assert(pre[i as int] != pre[w]);
                        }
                    }
                    assert(out@ =~= without(pre.take(i + 1), entity));
                }
            }
            i = i + 1;
        }
        proof {
            assert(pre.take(pre.len() as int) =~= pre);
        }
        self.entities = out;
        proof {
            assert forall|x: u64| x != entity implies (self.entities@.contains(x) <==> pre.contains(
                x,
            )) by {
                if self.entities@.contains(x) {
                    let w = choose|w: int|
                        0 <= w < self.entities@.len() && self.entities@[w] == x;
                    let w2 = choose|w2: int|
                        0 <= w2 < pre.len() && pre.take(pre.len() as int)[w2] == x;
                }
                if pre.contains(x) {
                    let w = choose|w: int| 0 <= w < pre.len() && pre[w] == x;
                    assert(self.entities@.contains(pre[w]));
                }
            }
        }
    }

    /// Number of selected units.
    pub fn count(&self) -> (r: usize)
        ensures
            r == self.entities@.len(),
    {
        self.entities.len()
    }
}

} // verus!
