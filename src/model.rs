//! The ticket store: an arena of slots indexed by ticket id, where deleting a
//! ticket empties its slot for good so that no id is ever handed out twice.

use vstd::prelude::*;

use crate::ctx::Ctx;
use crate::error::Error;

verus! {

#[derive(Clone, Debug)]
pub struct Ticket {
    pub id: u64,
    pub cid: u64,
    pub title: String,
}

impl View for Ticket {
    /// Id, creator's user id, title.
    type V = (u64, u64, Seq<char>);

    open spec fn view(&self) -> (u64, u64, Seq<char>) {
        (self.id, self.cid, self.title@)
    }
}

#[derive(Debug)]
pub struct TicketForCreate {
    pub title: String,
}

/// The slots in id order, as the views of the tickets they hold.
pub open spec fn slots_view(slots: Seq<Option<Ticket>>) -> Seq<Option<(u64, u64, Seq<char>)>> {
    slots.map_values(|o: Option<Ticket>| match o {
        Some(t) => Some(t@),
        None => None,
    })
}

/// Every occupied slot holds the ticket whose id is its index.
pub open spec fn slots_wf(slots: Seq<Option<(u64, u64, Seq<char>)>>) -> bool {
    forall|i: int|
        0 <= i < slots.len() && (#[trigger] slots[i]) is Some ==> slots[i]->Some_0.0 == i
}

/// The tickets of the occupied slots, in ascending id order.
pub open spec fn live_tickets(slots: Seq<Option<(u64, u64, Seq<char>)>>) -> Seq<(u64, u64, Seq<char>)>
    decreases slots.len(),
{
    if slots.len() == 0 {
        Seq::empty()
    } else {
        let earlier = live_tickets(slots.drop_last());
        match slots.last() {
            Some(t) => earlier.push(t),
            None => earlier,
        }
    }
}

pub open spec fn slot_occupied(slots: Seq<Option<(u64, u64, Seq<char>)>>, id: u64) -> bool {
    id < slots.len() && slots[id as int] is Some
}

/// The slots after a ticket titled `title` is created by user `cid`.
pub open spec fn after_create(slots: Seq<Option<(u64, u64, Seq<char>)>>, cid: u64, title: Seq<char>) -> Seq<
    Option<(u64, u64, Seq<char>)>,
> {
    slots.push(Some((slots.len() as u64, cid, title)))
}

/// The slots after one create per request of `reqs` (creator, title), in order.
pub open spec fn after_creates(
    slots: Seq<Option<(u64, u64, Seq<char>)>>,
    reqs: Seq<(u64, Seq<char>)>,
) -> Seq<Option<(u64, u64, Seq<char>)>>
    decreases reqs.len(),
{
    if reqs.len() == 0 {
        slots
    } else {
        let (cid, title) = reqs.last();
        after_create(after_creates(slots, reqs.drop_last()), cid, title)
    }
}

/// Each live ticket is the content of some slot, at the slot's own id.
proof fn lemma_live_from_slots(slots: Seq<Option<(u64, u64, Seq<char>)>>)
    ensures
        live_tickets(slots).len() <= slots.len(),
        forall|k: int|
            0 <= k < live_tickets(slots).len() ==> exists|i: int|
                0 <= i < slots.len() && #[trigger] slots[i] == Some(
                    #[trigger] live_tickets(slots)[k],
                ),
    decreases slots.len(),
{
    if slots.len() > 0 {
        let prev = slots.drop_last();
        lemma_live_from_slots(prev);
        assert forall|k: int| 0 <= k < live_tickets(slots).len() implies exists|i: int|
            0 <= i < slots.len() && #[trigger] slots[i] == Some(
                #[trigger] live_tickets(slots)[k],
            ) by {
            if k < live_tickets(prev).len() {
                let i = choose|i: int|
                    0 <= i < prev.len() && #[trigger] prev[i] == Some(live_tickets(prev)[k]);
                assert(slots[i] == prev[i]);
            } else {
                assert(slots[slots.len() - 1] == Some(live_tickets(slots)[k]));
            }
        }
    }
}

/// In a well-formed store no live ticket has an id at or past the slot count.
proof fn lemma_live_ids_below(slots: Seq<Option<(u64, u64, Seq<char>)>>)
    requires
        slots_wf(slots),
    ensures
        forall|k: int|
            0 <= k < live_tickets(slots).len() ==> (#[trigger] live_tickets(slots)[k]).0 < slots.len(),
{
    lemma_live_from_slots(slots);
    assert forall|k: int| 0 <= k < live_tickets(slots).len() implies (
    #[trigger] live_tickets(slots)[k]).0 < slots.len() by {
        let i = choose|i: int| 0 <= i < slots.len() && #[trigger] slots[i] == Some(live_tickets(slots)[k]);
    }
}

/// Creating a ticket keeps the store well formed, gives the new ticket an id
/// that no live ticket has, and adds exactly one live ticket after the others.
pub proof fn lemma_create_fresh_id(
    slots: Seq<Option<(u64, u64, Seq<char>)>>,
    cid: u64,
    title: Seq<char>,
)
    requires
        slots_wf(slots),
        slots.len() < u64::MAX,
    ensures
        slots_wf(after_create(slots, cid, title)),
        live_tickets(after_create(slots, cid, title)) == live_tickets(slots).push(
            (slots.len() as u64, cid, title),
        ),
        forall|k: int|
            0 <= k < live_tickets(slots).len() ==> (#[trigger] live_tickets(slots)[k]).0
                != slots.len(),
{
    let after = after_create(slots, cid, title);
    assert(after.drop_last() =~= slots);
    lemma_live_ids_below(slots);
}

/// Starting from any well-formed store, a sequence of creates keeps it well
/// formed and adds one live ticket per create, the ids following on from the
/// slot count in order.
pub proof fn lemma_creates_count(
    slots: Seq<Option<(u64, u64, Seq<char>)>>,
    reqs: Seq<(u64, Seq<char>)>,
)
    requires
        slots_wf(slots),
        slots.len() + reqs.len() <= u64::MAX,
    ensures
        slots_wf(after_creates(slots, reqs)),
        after_creates(slots, reqs).len() == slots.len() + reqs.len(),
        live_tickets(after_creates(slots, reqs)).len() == live_tickets(slots).len() + reqs.len(),
        forall|j: int|
            0 <= j < reqs.len() ==> #[trigger] after_creates(slots, reqs)[slots.len() + j] == Some(
                ((slots.len() + j) as u64, reqs[j].0, reqs[j].1),
            ),
    decreases reqs.len(),
{
    if reqs.len() > 0 {
        let prev = reqs.drop_last();
        lemma_creates_count(slots, prev);
        let mid = after_creates(slots, prev);
        lemma_create_fresh_id(mid, reqs.last().0, reqs.last().1);
        assert forall|j: int| 0 <= j < reqs.len() implies #[trigger] after_creates(
            slots,
            reqs,
        )[slots.len() + j] == Some(((slots.len() + j) as u64, reqs[j].0, reqs[j].1)) by {
            if j < prev.len() {
                assert(mid[slots.len() + j] == Some(
                    ((slots.len() + j) as u64, prev[j].0, prev[j].1),
                ));
            }
        }
    }
}

/// From an empty store, N creates give the ids 0 to N - 1 in order, and the
/// list then holds exactly those N tickets in ascending id order.
pub proof fn lemma_sequential_creates(reqs: Seq<(u64, Seq<char>)>)
    requires
        reqs.len() <= u64::MAX,
    ensures
        live_tickets(after_creates(Seq::empty(), reqs)) == Seq::new(
            reqs.len(),
            |i: int| (i as u64, reqs[i].0, reqs[i].1),
        ),
    decreases reqs.len(),
{
    let empty = Seq::<Option<(u64, u64, Seq<char>)>>::empty();
    let want = Seq::new(reqs.len(), |i: int| (i as u64, reqs[i].0, reqs[i].1));
    if reqs.len() == 0 {
        assert(live_tickets(empty) =~= want);
    } else {
        let prev = reqs.drop_last();
        lemma_sequential_creates(prev);
        lemma_creates_count(empty, prev);
        let mid = after_creates(empty, prev);
        lemma_create_fresh_id(mid, reqs.last().0, reqs.last().1);
        assert(live_tickets(after_creates(empty, reqs)) =~= want);
    }
}

/// Deleting an occupied slot empties it for good: the store stays well formed,
/// the list no longer holds a ticket with that id, and the slot counts as free,
/// so a second delete of the id fails.
pub proof fn lemma_delete_permanent(slots: Seq<Option<(u64, u64, Seq<char>)>>, id: u64)
    requires
        slots_wf(slots),
        slot_occupied(slots, id),
    ensures
        slots_wf(slots.update(id as int, None)),
        !slot_occupied(slots.update(id as int, None), id),
        forall|k: int|
            0 <= k < live_tickets(slots.update(id as int, None)).len() ==> (
            #[trigger] live_tickets(slots.update(id as int, None))[k]).0 != id,
        live_tickets(slots.update(id as int, None)).len() + 1 == live_tickets(slots).len(),
{
    let after = slots.update(id as int, None);
    lemma_live_from_slots(after);
    assert forall|k: int| 0 <= k < live_tickets(after).len() implies (
    #[trigger] live_tickets(after)[k]).0 != id by {
        let i = choose|i: int| 0 <= i < after.len() && #[trigger] after[i] == Some(live_tickets(after)[k]);
        assert(after[i] == slots[i]);
    }
    lemma_live_count_update(slots, id as int);
}

/// Emptying one occupied slot removes exactly one live ticket.
proof fn lemma_live_count_update(slots: Seq<Option<(u64, u64, Seq<char>)>>, i: int)
    requires
        0 <= i < slots.len(),
        slots[i] is Some,
    ensures
        live_tickets(slots.update(i, None)).len() + 1 == live_tickets(slots).len(),
    decreases slots.len(),
{
    let after = slots.update(i, None);
    if i == slots.len() - 1 {
        assert(after.drop_last() =~= slots.drop_last());
    } else {
        assert(after.drop_last() =~= slots.drop_last().update(i, None));
        lemma_live_count_update(slots.drop_last(), i);
    }
}

/// The shared store of tickets. Each operation takes exclusive access for its
/// whole duration, so operations never interleave.
pub struct ModelController {
    tickets_store: Vec<Option<Ticket>>,
}

impl View for ModelController {
    type V = Seq<Option<(u64, u64, Seq<char>)>>;

    closed spec fn view(&self) -> Seq<Option<(u64, u64, Seq<char>)>> {
        slots_view(self.tickets_store@)
    }
}

fn copy_ticket(t: &Ticket) -> (r: Ticket)
    ensures
        r@ == t@,
{
    Ticket { id: t.id, cid: t.cid, title: t.title.clone() }
}

impl ModelController {
    pub open spec fn wf(&self) -> bool {
        slots_wf(self@)
    }

    /// An empty store.
    pub fn new() -> (r: Result<Self, Error>)
        ensures
            match r {
                Ok(mc) => mc@ == Seq::<Option<(u64, u64, Seq<char>)>>::empty() && mc.wf(),
                Err(_) => false,
            },
    {
        let mc = ModelController { tickets_store: Vec::new() };
        proof {
            assert(mc@ =~= Seq::<Option<(u64, u64, Seq<char>)>>::empty());
        }
        Ok(mc)
    }

    /// Appends a ticket created by `ctx`'s user, with the next id.
    pub fn create(&mut self, ctx: Ctx, ticket_fc: TicketForCreate) -> (r: Result<Ticket, Error>)
        requires
            old(self).wf(),
        ensures
            final(self).wf(),
            match r {
                Ok(t) => t@ == (old(self)@.len() as u64, ctx.id(), ticket_fc.title@)
                    && final(self)@ == after_create(old(self)@, ctx.id(), ticket_fc.title@),
                Err(_) => false,
            },
    {
        let id = self.tickets_store.len() as u64;
        let ticket = Ticket { id, cid: ctx.user_id(), title: ticket_fc.title };
        let stored = copy_ticket(&ticket);
        self.tickets_store.push(Some(stored));
        proof {
            assert(self@ =~= after_create(old(self)@, ctx.id(), ticket_fc.title@));
        }
        Ok(ticket)
    }

    /// The tickets of all occupied slots, in ascending id order.
    pub fn list_tickets(&self, _ctx: Ctx) -> (r: Result<Vec<Ticket>, Error>)
        ensures
            match r {
                Ok(v) => v@.map_values(|t: Ticket| t@) == live_tickets(self@),
                Err(_) => false,
            },
    {
        let mut list: Vec<Ticket> = Vec::new();
        let mut i: usize = 0;
        while i < self.tickets_store.len()
            invariant
                i <= self.tickets_store@.len(),
                list@.map_values(|t: Ticket| t@) == live_tickets(self@.take(i as int)),
            decreases self.tickets_store@.len() - i,
        {
            proof {
                assert(self@.take(i + 1).drop_last() =~= self@.take(i as int));
            }
            match &self.tickets_store[i] {
                Some(t) => {
                    let c = copy_ticket(t);
                    list.push(c);
                    proof {
                        assert(list@.map_values(|t: Ticket| t@) =~= live_tickets(
                            self@.take(i as int),
                        ).push(c@));
                    }
                },
                None => {},
            }
            i = i + 1;
        }
        proof {
            assert(self@.take(i as int) =~= self@);
        }
        Ok(list)
    }

    /// Empties the slot of ticket `id` and returns the ticket that was there.
    pub fn delete(&mut self, _ctx: Ctx, id: u64) -> (r: Result<Ticket, Error>)
        requires
            old(self).wf(),
        ensures
            final(self).wf(),
            if slot_occupied(old(self)@, id) {
                &&& r matches Ok(t) && Some(t@) == old(self)@[id as int]
                &&& final(self)@ == old(self)@.update(id as int, None)
            } else {
                &&& r == Err::<Ticket, Error>(Error::TicketDeleteFailIdNotFound { id })
                &&& final(self)@ == old(self)@
            },
    {
        if id >= self.tickets_store.len() as u64 {
            return Err(Error::TicketDeleteFailIdNotFound { id });
        }
        let i = id as usize;
        let taken = self.tickets_store[i].take();
        proof {
            assert(self@ =~= old(self)@.update(id as int, None));
        }
        match taken {
            Some(t) => Ok(t),
            None => Err(Error::TicketDeleteFailIdNotFound { id }),
        }
    }
}

} // verus!
