//! The wire store: an indexed arena of single-value cells. A wire models a
//! variable used exactly twice; its cell starts open, holds the value that
//! one end deposited, and is retired once the other end has consumed it.

use vstd::prelude::*;

use crate::tree::Tree;

verus! {

/// One cell of the wire store.
#[derive(Debug)]
pub enum WireSlot {
    /// Never allocated, or retired after both ends were consumed.
    Vacant,
    /// Allocated, with no end resolved yet.
    Open,
    /// One end has deposited a value; the other has not consumed it yet.
    Full(Tree),
}

impl WireSlot {
    /// How many references to this wire the rest of the net must hold.
    pub open spec fn arity(self) -> nat {
        match self {
            WireSlot::Vacant => 0,
            WireSlot::Open => 2,
            WireSlot::Full(_) => 1,
        }
    }

    /// Occurrences of the wire id `id` inside the stored occupant, if any.
    pub open spec fn count(self, id: usize) -> nat {
        match self {
            WireSlot::Full(t) => t.count(id),
            _ => 0,
        }
    }
}

/// An arena of wire cells. Ids are indices, handed out in increasing order
/// and never reused, so a stale id can never alias a newer wire.
#[derive(Debug)]
pub struct WireStore {
    slots: Vec<WireSlot>,
}

impl View for WireStore {
    type V = Seq<WireSlot>;

    closed spec fn view(&self) -> Seq<WireSlot> {
        self.slots@
    }
}

/// Occurrences of `id` inside all stored occupants of the slot sequence.
pub open spec fn slots_count(ss: Seq<WireSlot>, id: usize) -> nat
    decreases ss.len(),
{
    if ss.len() == 0 {
        0
    } else {
        ss[0].count(id) + slots_count(ss.drop_first(), id)
    }
}

/// Number of occupied cells; the measure that reduction and resolution
/// consume.
pub open spec fn num_full(ss: Seq<WireSlot>) -> nat
    decreases ss.len(),
{
    if ss.len() == 0 {
        0
    } else {
        (if ss[0] is Full {
            1nat
        } else {
            0nat
        }) + num_full(ss.drop_first())
    }
}

impl WireStore {
    /// The slot for `id`, treating ids outside the arena as vacant.
    pub open spec fn spec_slot(self, id: usize) -> WireSlot {
        if id < self@.len() {
            self@[id as int]
        } else {
            WireSlot::Vacant
        }
    }

    pub fn new() -> (r: WireStore)
        ensures
            r@ =~= Seq::<WireSlot>::empty(),
    {
        WireStore { slots: Vec::new() }
    }

    /// Build a store from an explicit slot sequence.
    pub fn from_slots(slots: Vec<WireSlot>) -> (r: WireStore)
        ensures
            r@ == slots@,
    {
        WireStore { slots }
    }

    /// Borrow the slot for `id`.
    pub fn slot_ref(&self, id: usize) -> (r: &WireSlot)
        requires
            id < self@.len(),
        ensures
            *r == self@[id as int],
    {
        &self.slots[id]
    }

    pub fn len(&self) -> (r: usize)
        ensures
            r == self@.len(),
    {
        self.slots.len()
    }

    /// Allocate a fresh open wire and return its id.
    pub fn fresh(&mut self) -> (id: usize)
        ensures
            id == old(self)@.len(),
            final(self)@ == old(self)@.push(WireSlot::Open),
    {
        let id = self.slots.len();
        self.slots.push(WireSlot::Open);
        id
    }

    pub fn is_open(&self, id: usize) -> (r: bool)
        ensures
            r == (self.spec_slot(id) is Open),
    {
        if (id) < self.slots.len() {
            match &self.slots[id] {
                WireSlot::Open => true,
                _ => false,
            }
        } else {
            false
        }
    }

    pub fn is_full(&self, id: usize) -> (r: bool)
        ensures
            r == (self.spec_slot(id) is Full),
    {
        if (id) < self.slots.len() {
            match &self.slots[id] {
                WireSlot::Full(_) => true,
                _ => false,
            }
        } else {
            false
        }
    }

    /// Read the occupant of a full cell without consuming it.
    pub fn peek(&self, id: usize) -> (t: &Tree)
        requires
            self.spec_slot(id) is Full,
        ensures
            self.spec_slot(id) == WireSlot::Full(*t),
    {
        match &self.slots[id] {
            WireSlot::Full(t) => t,
            _ => unreached(),
        }
    }

    /// Consume the occupant of a full cell, retiring the cell.
    pub fn take(&mut self, id: usize) -> (t: Tree)
        requires
            old(self).spec_slot(id) is Full,
        ensures
            old(self).spec_slot(id) == WireSlot::Full(t),
            final(self)@ == old(self)@.update(id as int, WireSlot::Vacant),
    {
        let mut tmp = WireSlot::Vacant;
        core::mem::swap(&mut tmp, &mut self.slots[id]);
        match tmp {
            WireSlot::Full(t) => t,
            _ => unreached(),
        }
    }

    /// Allocate a fresh wire whose cell already holds a value.
    pub fn fresh_full(&mut self, t: Tree) -> (id: usize)
        ensures
            id == old(self)@.len(),
            final(self)@ == old(self)@.push(WireSlot::Full(t)),
    {
        let id = self.slots.len();
        self.slots.push(WireSlot::Full(t));
        id
    }

    /// Append one explicit slot.
    pub fn push_slot(&mut self, s: WireSlot)
        ensures
            final(self)@ == old(self)@.push(s),
    {
        self.slots.push(s);
    }

    /// Take the slots out of the store.
    pub fn into_slots(self) -> (r: Vec<WireSlot>)
        ensures
            r@ == self@,
    {
        self.slots
    }

    /// Deposit a value into an open cell.
    pub fn put(&mut self, id: usize, t: Tree)
        requires
            old(self).spec_slot(id) is Open,
        ensures
            final(self)@ == old(self)@.update(id as int, WireSlot::Full(t)),
    {
        let idx = id;
        self.slots[idx] = WireSlot::Full(t);
    }
}

/// Occurrence counts distribute over the parts of a slot sequence.
pub proof fn lemma_slots_count_append(s1: Seq<WireSlot>, s2: Seq<WireSlot>, id: usize)
    ensures
        slots_count(s1 + s2, id) == slots_count(s1, id) + slots_count(s2, id),
    decreases s1.len(),
{
    if s1.len() == 0 {
        assert(s1 + s2 =~= s2);
    } else {
        assert((s1 + s2).drop_first() =~= s1.drop_first() + s2);
        lemma_slots_count_append(s1.drop_first(), s2, id);
    }
}

/// Replacing one slot changes the count by the difference at that slot.
pub proof fn lemma_slots_count_update(ss: Seq<WireSlot>, i: int, s: WireSlot, id: usize)
    requires
        0 <= i < ss.len(),
    ensures
        slots_count(ss.update(i, s), id) + ss[i].count(id) == slots_count(ss, id) + s.count(id),
    decreases ss.len(),
{
    if i == 0 {
        assert(ss.update(0, s).drop_first() =~= ss.drop_first());
    } else {
        assert(ss.update(i, s).drop_first() =~= ss.drop_first().update(i - 1, s));
        lemma_slots_count_update(ss.drop_first(), i - 1, s, id);
    }
}

/// The occupied-cell measure also distributes over appends.
pub proof fn lemma_num_full_append(s1: Seq<WireSlot>, s2: Seq<WireSlot>)
    ensures
        num_full(s1 + s2) == num_full(s1) + num_full(s2),
    decreases s1.len(),
{
    if s1.len() == 0 {
        assert(s1 + s2 =~= s2);
    } else {
        assert((s1 + s2).drop_first() =~= s1.drop_first() + s2);
        lemma_num_full_append(s1.drop_first(), s2);
    }
}

/// Replacing one slot changes the occupied-cell measure at that slot only.
pub proof fn lemma_num_full_update(ss: Seq<WireSlot>, i: int, s: WireSlot)
    requires
        0 <= i < ss.len(),
    ensures
        num_full(ss.update(i, s)) + (if ss[i] is Full {
            1nat
        } else {
            0nat
        }) == num_full(ss) + (if s is Full {
            1nat
        } else {
            0nat
        }),
    decreases ss.len(),
{
    if i == 0 {
        assert(ss.update(0, s).drop_first() =~= ss.drop_first());
    } else {
        assert(ss.update(i, s).drop_first() =~= ss.drop_first().update(i - 1, s));
        lemma_num_full_update(ss.drop_first(), i - 1, s);
    }
}

} // verus!
