//! Fixed-capacity slotted inventory with stacking rules.
//!
//! An inventory is an ordered sequence of optional item stacks. Additions
//! first top up existing stacks of the same item, then fill empty slots,
//! and report how many of the requested items were actually placed.

use vstd::prelude::*;
use crate::items::{ItemId, ItemStack};

verus! {

/// Number of slots every inventory has.
pub const INV_SLOTS: usize = 28;

/// Minimum of two integers.
pub open spec fn imin(a: int, b: int) -> int {
    if a <= b {
        a
    } else {
        b
    }
}

/// A slot holds no stack of zero items.
pub open spec fn slot_ok(s: Option<ItemStack>) -> bool {
    s is Some ==> s->0.qty >= 1
}

/// How many of `id` the slot holds.
pub open spec fn item_in_slot(s: Option<ItemStack>, id: ItemId) -> int {
    match s {
        Option::Some(st) => if st.id == id {
            st.qty as int
        } else {
            0
        },
        Option::None => 0,
    }
}

/// Room the slot still offers for topping up a stack of `id` under `ms`.
pub open spec fn top_room_slot(s: Option<ItemStack>, id: ItemId, ms: int) -> int {
    match s {
        Option::Some(st) => if st.id == id && (st.qty as int) < ms {
            ms - st.qty
        } else {
            0
        },
        Option::None => 0,
    }
}

/// Number of occupied slots.
pub open spec fn cnt_used(s: Seq<Option<ItemStack>>) -> int
    decreases s.len(),
{
    if s.len() == 0 {
        0
    } else {
        cnt_used(s.drop_last()) + if s.last() is Some {
            1int
        } else {
            0int
        }
    }
}

/// Number of empty slots.
pub open spec fn cnt_empty(s: Seq<Option<ItemStack>>) -> int
    decreases s.len(),
{
    if s.len() == 0 {
        0
    } else {
        cnt_empty(s.drop_last()) + if s.last() is None {
            1int
        } else {
            0int
        }
    }
}

/// Total quantity of `id` held.
pub open spec fn cnt_item(s: Seq<Option<ItemStack>>, id: ItemId) -> int
    decreases s.len(),
{
    if s.len() == 0 {
        0
    } else {
        cnt_item(s.drop_last(), id) + item_in_slot(s.last(), id)
    }
}

/// Total room left in existing stacks of `id` under `ms`.
pub open spec fn top_room(s: Seq<Option<ItemStack>>, id: ItemId, ms: int) -> int
    decreases s.len(),
{
    if s.len() == 0 {
        0
    } else {
        top_room(s.drop_last(), id, ms) + top_room_slot(s.last(), id, ms)
    }
}

/// Total room for `id` under `ms`: existing stacks first, then empty slots.
pub open spec fn room(s: Seq<Option<ItemStack>>, id: ItemId, ms: int) -> int {
    top_room(s, id, ms) + ms * cnt_empty(s)
}

/// How one addition may change a single slot: occupied slots keep their
/// item and never shrink nor grow past the stack limit; empty slots stay
/// empty or receive a fresh stack of the added item.
pub open spec fn slot_evolves(
    before: Option<ItemStack>,
    after: Option<ItemStack>,
    id: ItemId,
    ms: int,
) -> bool {
    match before {
        Option::Some(st) => {
            &&& after is Some
            &&& after->0.id == st.id
            &&& st.qty <= after->0.qty
            &&& after->0.qty <= if st.qty as int >= ms {
                st.qty as int
            } else {
                ms
            }
        },
        Option::None => after is None || (after->0.id == id && 1 <= after->0.qty <= ms),
    }
}

/// No stack exceeds `ms` items.
pub open spec fn slots_bounded(s: Seq<Option<ItemStack>>, ms: int) -> bool {
    forall|j: int| 0 <= j < s.len() ==> (#[trigger] s[j]) is Some ==> s[j]->0.qty <= ms
}

/// Basic accounting over the slot sequence: the counters are non-negative,
/// occupied and empty slots partition the inventory, and the occupied count
/// never exceeds the capacity.
pub proof fn lemma_slot_accounting(s: Seq<Option<ItemStack>>, id: ItemId, ms: int)
    ensures
        cnt_used(s) >= 0,
        cnt_empty(s) >= 0,
        cnt_item(s, id) >= 0,
        cnt_item(s, id) <= 65535 * s.len(),
        ms >= 1 ==> top_room(s, id, ms) >= 0,
        cnt_used(s) + cnt_empty(s) == s.len(),
        cnt_used(s) <= s.len(),
    decreases s.len(),
{
    if s.len() > 0 {
        lemma_slot_accounting(s.drop_last(), id, ms);
    }
}

/// When stacks hold at most one item, occupied slots offer no top-up room.
pub proof fn lemma_no_top_room_for_unit_stacks(s: Seq<Option<ItemStack>>, id: ItemId)
    requires
        forall|j: int| 0 <= j < s.len() ==> slot_ok(#[trigger] s[j]),
    ensures
        top_room(s, id, 1) == 0,
    decreases s.len(),
{
    if s.len() > 0 {
        assert(forall|j: int| 0 <= j < s.len() - 1 ==> (#[trigger] s.drop_last()[j]) == s[j]);
        lemma_no_top_room_for_unit_stacks(s.drop_last(), id);
    }
}

/// An inventory is full exactly when every slot is occupied.
pub proof fn lemma_full_iff_all_used(s: Seq<Option<ItemStack>>)
    ensures
        (cnt_used(s) == s.len()) <==> (forall|j: int|
            0 <= j < s.len() ==> (#[trigger] s[j]) is Some),
    decreases s.len(),
{
    lemma_slot_accounting(s, ItemId::Logs, 1);
    if s.len() > 0 {
        lemma_full_iff_all_used(s.drop_last());
        lemma_slot_accounting(s.drop_last(), ItemId::Logs, 1);
        if cnt_used(s) == s.len() {
            assert(forall|j: int|
                0 <= j < s.len() - 1 ==> s.drop_last()[j] == (#[trigger] s[j]));
        }
        if forall|j: int| 0 <= j < s.len() ==> (#[trigger] s[j]) is Some {
            assert(forall|j: int|
                0 <= j < s.len() - 1 ==> (#[trigger] s.drop_last()[j]) == s[j]);
        }
    }
}

/// A per-unit inventory of `INV_SLOTS` optional stacks.
#[derive(Debug)]
pub struct Inventory {
    pub slots: Vec<Option<ItemStack>>,
}

impl Inventory {
    /// Shape every inventory keeps: exactly `INV_SLOTS` slots, none of
    /// them holding an empty stack.
    pub open spec fn wf(self) -> bool {
        &&& self.slots@.len() == INV_SLOTS
        &&& forall|j: int| 0 <= j < self.slots@.len() ==> slot_ok(#[trigger] self.slots@[j])
    }

    /// Builds an empty inventory.
    pub fn new() -> (r: Inventory)
        ensures
            r.wf(),
            cnt_used(r.slots@) == 0,
            forall|j: int| 0 <= j < r.slots@.len() ==> (#[trigger] r.slots@[j]) is None,
    {
        let mut v: Vec<Option<ItemStack>> = Vec::new();
        let mut i: usize = 0;
        while i < INV_SLOTS
            invariant
                i <= INV_SLOTS,
                v@.len() == i,
                forall|j: int| 0 <= j < i ==> (#[trigger] v@[j]) is None,
                cnt_used(v@) == 0,
            decreases INV_SLOTS - i,
        {
            let ghost pre = v@;
            v.push(Option::None);
            proof {
                assert(v@.drop_last() =~= pre);
            }
            i = i + 1;
        }
        Inventory { slots: v }
    }

    /// True exactly when every slot holds a stack.
    pub fn is_full(&self) -> (r: bool)
        requires
            self.wf(),
        ensures
            r == (cnt_used(self.slots@) == self.slots@.len()),
    {
        proof {
            lemma_full_iff_all_used(self.slots@);
        }
        let mut i: usize = 0;
        let mut all: bool = true;
        while i < self.slots.len()
            invariant
                i <= self.slots@.len(),
                all == (forall|j: int| 0 <= j < i ==> (#[trigger] self.slots@[j]) is Some),
            decreases self.slots@.len() - i,
        {
            if self.slots[i].is_none() {
                all = false;
            }
            i = i + 1;
        }
        all
    }

    /// Number of occupied slots.
    pub fn used_slots(&self) -> (r: usize)
        requires
            self.wf(),
        ensures
            r as int == cnt_used(self.slots@),
    {
        let mut i: usize = 0;
        let mut n: usize = 0;
        while i < self.slots.len()
            invariant
                i <= self.slots@.len(),
                n as int == cnt_used(self.slots@.take(i as int)),
                n <= i,
            decreases self.slots@.len() - i,
        {
            proof {
                assert(self.slots@.take(i + 1).drop_last() =~= self.slots@.take(i as int));
                assert(self.slots@.take(i + 1).last() == self.slots@[i as int]);
            }
            if self.slots[i].is_some() {
                n = n + 1;
            }
            i = i + 1;
        }
        proof {
            assert(self.slots@.take(self.slots@.len() as int) =~= self.slots@);
        }
        n
    }

    /// Total quantity of `item_id` held across all slots.
    pub fn count_item(&self, item_id: ItemId) -> (r: u32)
        requires
            self.wf(),
        ensures
            r as int == cnt_item(self.slots@, item_id),
    {
        let mut i: usize = 0;
        let mut n: u32 = 0;
        while i < self.slots.len()
            invariant
                i <= self.slots@.len(),
                self.slots@.len() == INV_SLOTS,
                n as int == cnt_item(self.slots@.take(i as int), item_id),
                n <= 65535 * i,
            decreases self.slots@.len() - i,
        {
            proof {
                assert(self.slots@.take(i + 1).drop_last() =~= self.slots@.take(i as int));
                assert(self.slots@.take(i + 1).last() == self.slots@[i as int]);
            }
            match self.slots[i] {
                Option::Some(st) => {
                    if st.id == item_id {
                        n = n + st.qty as u32;
                    }
                },
                Option::None => {},
            }
            i = i + 1;
        }
        proof {
            assert(self.slots@.take(self.slots@.len() as int) =~= self.slots@);
        }
        n
    }

    /// Adds up to `qty` items of `item_id`, topping up existing stacks to
    /// `max_stack` first and then filling empty slots; returns how many
    /// items were actually placed, which is the request capped by the room
    /// the inventory had.
    pub fn add_items(&mut self, item_id: ItemId, qty: u16, max_stack: u16) -> (added: u16)
        requires
            old(self).wf(),
            max_stack >= 1,
        ensures
            final(self).wf(),
            final(self).slots@.len() == old(self).slots@.len(),
            added as int == imin(qty as int, room(old(self).slots@, item_id, max_stack as int)),
            cnt_item(final(self).slots@, item_id) == cnt_item(old(self).slots@, item_id) + added,
            forall|oid: ItemId| oid != item_id ==> cnt_item(final(self).slots@, oid) == cnt_item(
                old(self).slots@,
                oid,
            ),
            cnt_used(final(self).slots@) + cnt_empty(final(self).slots@) == final(self).slots@.len(),
            ({
                let a2 = added - imin(
                    added as int,
                    top_room(old(self).slots@, item_id, max_stack as int),
                );
                let d = cnt_empty(old(self).slots@) - cnt_empty(final(self).slots@);
                a2 <= (max_stack as int) * d <= a2 + max_stack - 1
            }),
            forall|j: int| 0 <= j < final(self).slots@.len() ==> slot_evolves(
                old(self).slots@[j],
                #[trigger] final(self).slots@[j],
                item_id,
                max_stack as int,
            ),
            slots_bounded(old(self).slots@, max_stack as int) ==> slots_bounded(
                final(self).slots@,
                max_stack as int,
            ),
    {
        let ghost s0 = self.slots@;
        let ghost ms = max_stack as int;
        let mut remaining: u16 = qty;
        let n = self.slots.len();

        // First pass: top up existing stacks of the same item.
        let mut i: usize = 0;
        while i < n
            invariant
                i <= n,
                n == self.slots@.len(),
                s0.len() == n,
                max_stack >= 1,
                ms == max_stack as int,
                remaining <= qty,
                forall|j: int| 0 <= j < s0.len() ==> slot_ok(#[trigger] s0[j]),
                forall|j: int| i <= j < n ==> self.slots@[j] == s0[j],
                forall|j: int| 0 <= j < i ==> {
                    &&& (#[trigger] self.slots@[j]) is Some <==> s0[j] is Some
                    &&& slot_evolves(s0[j], self.slots@[j], item_id, ms)
                    &&& slot_ok(self.slots@[j])
                },
                cnt_item(self.slots@.take(i as int), item_id) == cnt_item(
                    s0.take(i as int),
                    item_id,
                ) + qty - remaining,
                forall|oid: ItemId| oid != item_id ==> cnt_item(
                    self.slots@.take(i as int),
                    oid,
                ) == cnt_item(s0.take(i as int), oid),
                cnt_used(self.slots@.take(i as int)) == cnt_used(s0.take(i as int)),
                cnt_empty(self.slots@.take(i as int)) == cnt_empty(s0.take(i as int)),
                top_room(s0.take(i as int), item_id, ms) - top_room(
                    self.slots@.take(i as int),
                    item_id,
                    ms,
                ) == qty - remaining,
                remaining > 0 ==> top_room(self.slots@.take(i as int), item_id, ms) == 0,
            decreases n - i,
        {
            let ghost svb = self.slots@;
            let cur: Option<ItemStack> = self.slots[i];
            let nv: Option<ItemStack> = match cur {
                Option::Some(st) => {
                    if remaining > 0 && st.id == item_id && st.qty < max_stack {
                        let slot_room: u16 = max_stack - st.qty;
                        let can: u16 = if slot_room < remaining {
                            slot_room
                        } else {
                            remaining
                        };
                        remaining = remaining - can;
                        Option::Some(ItemStack { id: st.id, qty: st.qty + can })
                    } else {
                        Option::Some(st)
                    }
                },
                Option::None => Option::None,
            };
            let slot_ref = &mut self.slots[i];
            *slot_ref = nv;
            proof {
                let ii = i as int;
                assert(self.slots@.take(ii) =~= svb.take(ii));
                assert(self.slots@.take(ii + 1).drop_last() =~= self.slots@.take(ii));
                assert(self.slots@.take(ii + 1).last() == nv);
                assert(s0.take(ii + 1).drop_last() =~= s0.take(ii));
                assert(s0.take(ii + 1).last() == s0[ii]);
                assert forall|oid: ItemId| oid != item_id implies #[trigger] cnt_item(
                    self.slots@.take(ii + 1),
                    oid,
                ) == cnt_item(s0.take(ii + 1), oid) by {
                    assert(cnt_item(svb.take(ii), oid) == cnt_item(s0.take(ii), oid));
                    assert(item_in_slot(nv, oid) == item_in_slot(s0[ii], oid));
                }
            }
            i = i + 1;
        }

        let ghost s1 = self.slots@;
        let ghost rem1 = remaining as int;
        proof {
            assert(self.slots@.take(n as int) =~= self.slots@);
            assert(s0.take(n as int) =~= s0);
        }

        // Second pass: fill empty slots with fresh stacks.
        let mut i2: usize = 0;
        while i2 < n
            invariant
                i2 <= n,
                n == self.slots@.len(),
                s0.len() == n,
                s1.len() == n,
                max_stack >= 1,
                ms == max_stack as int,
                remaining as int <= rem1 <= qty,
                forall|j: int| 0 <= j < s1.len() ==> slot_ok(#[trigger] s1[j]),
                forall|j: int| 0 <= j < s1.len() ==> ((#[trigger] s1[j]) is Some ==> slot_evolves(
                    s0[j],
                    s1[j],
                    item_id,
                    ms,
                )) && (s1[j] is None ==> s0[j] is None),
                forall|j: int| i2 <= j < n ==> self.slots@[j] == s1[j],
                forall|j: int| 0 <= j < i2 ==> {
                    &&& ((#[trigger] s1[j]) is Some ==> self.slots@[j] == s1[j])
                    &&& (s1[j] is None ==> (self.slots@[j] is None || (self.slots@[j]->0.id
                        == item_id && 1 <= self.slots@[j]->0.qty <= max_stack)))
                    &&& slot_ok(self.slots@[j])
                },
                cnt_item(self.slots@.take(i2 as int), item_id) == cnt_item(
                    s1.take(i2 as int),
                    item_id,
                ) + rem1 - remaining,
                forall|oid: ItemId| oid != item_id ==> cnt_item(
                    self.slots@.take(i2 as int),
                    oid,
                ) == cnt_item(s1.take(i2 as int), oid),
                cnt_used(self.slots@.take(i2 as int)) - cnt_used(s1.take(i2 as int)) == cnt_empty(
                    s1.take(i2 as int),
                ) - cnt_empty(self.slots@.take(i2 as int)),
                cnt_empty(self.slots@.take(i2 as int)) <= cnt_empty(s1.take(i2 as int)),
                if remaining > 0 {
                    rem1 - remaining == ms * (cnt_empty(s1.take(i2 as int)) - cnt_empty(
                        self.slots@.take(i2 as int),
                    ))
                } else {
                    rem1 - remaining <= ms * (cnt_empty(s1.take(i2 as int)) - cnt_empty(
                        self.slots@.take(i2 as int),
                    )) <= rem1 - remaining + ms - 1
                },
                remaining > 0 ==> cnt_empty(self.slots@.take(i2 as int)) == 0,
            decreases n - i2,
        {
            let ghost svb = self.slots@;
            let ghost dprev = cnt_empty(s1.take(i2 as int)) - cnt_empty(svb.take(i2 as int));
            let cur: Option<ItemStack> = self.slots[i2];
            let mut filled: bool = false;
            let nv: Option<ItemStack> = match cur {
                Option::Some(st) => Option::Some(st),
                Option::None => {
                    if remaining > 0 {
                        let size: u16 = if remaining < max_stack {
                            remaining
                        } else {
                            max_stack
                        };
                        remaining = remaining - size;
                        filled = true;
                        Option::Some(ItemStack { id: item_id, qty: size })
                    } else {
                        Option::None
                    }
                },
            };
            let slot_ref = &mut self.slots[i2];
            *slot_ref = nv;
            proof {
                let ii = i2 as int;
                assert(self.slots@.take(ii) =~= svb.take(ii));
                assert(self.slots@.take(ii + 1).drop_last() =~= self.slots@.take(ii));
                assert(self.slots@.take(ii + 1).last() == nv);
                assert(s1.take(ii + 1).drop_last() =~= s1.take(ii));
                assert(s1.take(ii + 1).last() == s1[ii]);
                if filled {
                    assert(ms * (dprev + 1) == ms * dprev + ms) by (nonlinear_arith);
                }
                assert forall|oid: ItemId| oid != item_id implies #[trigger] cnt_item(
                    self.slots@.take(ii + 1),
                    oid,
                ) == cnt_item(s1.take(ii + 1), oid) by {
                    assert(cnt_item(svb.take(ii), oid) == cnt_item(s1.take(ii), oid));
                    assert(item_in_slot(nv, oid) == item_in_slot(s1[ii], oid));
                }
            }
            i2 = i2 + 1;
        }

        proof {
            assert(self.slots@.take(n as int) =~= self.slots@);
            assert(s1.take(n as int) =~= s1);
            assert forall|j: int| 0 <= j < self.slots@.len() implies slot_evolves(
                s0[j],
                #[trigger] self.slots@[j],
                item_id,
                ms,
            ) && slot_ok(self.slots@[j]) by {
                assert(s1[j] == s1[j]);
                assert(slot_ok(s1[j]));
            }
            lemma_slot_accounting(s0, item_id, ms);
            lemma_slot_accounting(s1, item_id, ms);
            lemma_slot_accounting(self.slots@, item_id, ms);
            let d = cnt_empty(s0) - cnt_empty(self.slots@);
            let a2 = rem1 - remaining;
            if remaining > 0 {
                // Every stack was topped and every slot filled: the whole
                // room of the inventory was consumed.
                assert(qty - rem1 == top_room(s0, item_id, ms));
                assert(a2 == ms * d);
            } else {
                assert(a2 <= ms * d <= a2 + ms - 1);
                assert(d <= cnt_empty(s0));
                assert(ms * d <= ms * cnt_empty(s0)) by (nonlinear_arith)
                    requires ms >= 1 && d <= cnt_empty(s0);
            }
        }
        qty - remaining
    }
}

} // verus!
