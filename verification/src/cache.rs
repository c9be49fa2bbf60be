//! The unread cache: the messages that wait for recipients who are offline,
//! one queue for each recipient, bounded in number and in age.

use crate::message::{clock_millis, Message};
use crate::timeline::{
    entries, is_lowest, live, schedule_change_priority, schedule_new, schedule_peek_min,
    schedule_pop_min, schedule_push, sweep, Ticket, TOMBSTONE,
};
use priority_queue::DoublePriorityQueue;
use std::collections::HashMap;
use vstd::prelude::*;

verus! {

broadcast use vstd::std_specs::hash::group_hash_axioms;

/// The number of messages in all the queues of `queues`.
pub open spec fn total(queues: Map<usize, Seq<Message>>) -> nat
    decreases queues.dom().len(),
    when queues.dom().finite()
{
    if queues.dom().len() == 0 {
        0
    } else {
        let token = queues.dom().choose();
        queues[token].len() + total(queues.remove(token))
    }
}

/// The queue of `token` in `queues`, empty where it has none.
pub open spec fn queue_of(queues: Map<usize, Seq<Message>>, token: usize) -> Seq<Message> {
    if queues.contains_key(token) {
        queues[token]
    } else {
        Seq::empty()
    }
}

/// `queues` after `message` has joined the end of its recipient's queue.
pub open spec fn pushed(queues: Map<usize, Seq<Message>>, message: Message) -> Map<
    usize,
    Seq<Message>,
> {
    queues.insert(message.to, queue_of(queues, message.to).push(message))
}

/// The message at place `at` of the queue of `token` is as old as any in
/// `queues`: no message was made before it.
pub open spec fn is_oldest(queues: Map<usize, Seq<Message>>, token: usize, at: int) -> bool {
    &&& queues.contains_key(token)
    &&& 0 <= at < queues[token].len()
    &&& forall|other: usize, place: int|
        queues.contains_key(other) && 0 <= place < queues[other].len()
            ==> queues[token][at].timestamp <= (#[trigger] queues[other][place]).timestamp
}

/// `queues` without the message at place `at` of the queue of `token`. A
/// queue that loses its last message goes with it.
pub open spec fn without(queues: Map<usize, Seq<Message>>, token: usize, at: int) -> Map<
    usize,
    Seq<Message>,
> {
    if queues[token].len() == 1 {
        queues.remove(token)
    } else {
        queues.insert(token, queues[token].remove(at))
    }
}

/// `message` is older at `now` than `duration` allows, both in milliseconds.
pub open spec fn is_stale(message: Message, duration: i64, now: i64) -> bool {
    message.timestamp + duration < now
}

/// The messages of `queue` that are not stale, in their order.
pub open spec fn fresh(queue: Seq<Message>, duration: i64, now: i64) -> Seq<Message>
    decreases queue.len(),
{
    if queue.len() == 0 {
        queue
    } else if is_stale(queue.last(), duration, now) {
        fresh(queue.drop_last(), duration, now)
    } else {
        fresh(queue.drop_last(), duration, now).push(queue.last())
    }
}

/// `queues` without the stale messages, and without the queues that held
/// no others.
pub open spec fn unexpired(queues: Map<usize, Seq<Message>>, duration: i64, now: i64) -> Map<
    usize,
    Seq<Message>,
> {
    Map::new(
        |token: usize| queues.contains_key(token) && fresh(queues[token], duration, now).len() > 0,
        |token: usize| fresh(queues[token], duration, now),
    )
}

/// What an expiry pass at `now` leaves of `queues`: with a duration, what is
/// not stale; without one, all of it.
pub open spec fn expired(queues: Map<usize, Seq<Message>>, duration: Option<i64>, now: i64) -> Map<
    usize,
    Seq<Message>,
> {
    match duration {
        Some(allowed) => unexpired(queues, allowed, now),
        None => queues,
    }
}

/// Every queue of `queues` holds a message, and holds only messages for the
/// recipient that it is kept under.
pub open spec fn well_keyed(queues: Map<usize, Seq<Message>>) -> bool {
    forall|token: usize| #[trigger]
        queues.contains_key(token) ==> {
            &&& queues[token].len() > 0
            &&& forall|at: int|
                0 <= at < queues[token].len() ==> (#[trigger] queues[token][at]).to == token
        }
}

/// The messages that wait for one recipient, in the order in which they
/// came, and the ticket of each.
struct Pending {
    messages: Vec<Message>,
    tickets: Vec<u64>,
}

/// The unread cache. `capacity` is the number of messages that it holds at
/// most, `lifetime` the age in seconds that a message may reach in it.
pub struct UnreadCache {
    size: usize,
    capacity: usize,
    lifetime: u32,
    unordered: HashMap<usize, Pending>,
    ordered: DoublePriorityQueue<Ticket, i128>,
    issued: u64,
}

spec fn queues_of(held: Map<usize, Pending>) -> Map<usize, Seq<Message>> {
    Map::new(|token: usize| held.contains_key(token), |token: usize| held[token].messages@)
}

/// A queue holds a message, every message of it is for `token` and has a
/// ticket of its own, and the tickets rise along the queue.
spec fn pending_ok(token: usize, pending: Pending, issued: u64) -> bool {
    &&& pending.messages@.len() == pending.tickets@.len()
    &&& pending.messages@.len() > 0
    &&& forall|at: int|
        0 <= at < pending.messages@.len() ==> (#[trigger] pending.messages@[at]).to == token
    &&& forall|at: int| 0 <= at < pending.tickets@.len() ==> #[trigger] pending.tickets@[at] < issued
    &&& forall|at: int, later: int|
        0 <= at < later < pending.tickets@.len() ==> #[trigger] pending.tickets@[at]
            < #[trigger] pending.tickets@[later]
}

spec fn all_pending_ok(held: Map<usize, Pending>, issued: u64) -> bool {
    forall|token: usize| #[trigger]
        held.contains_key(token) ==> pending_ok(token, held[token], issued)
}

spec fn ticket_at(held: Map<usize, Pending>, token: usize, at: int) -> Ticket {
    (token, held[token].tickets@[at])
}

spec fn scheduled(held: Map<usize, Pending>, ticket: Ticket) -> bool {
    held.contains_key(ticket.0) && held[ticket.0].tickets@.contains(ticket.1)
}

/// The schedule holds the tickets of the queued messages and no others, each
/// under the time at which its message was made.
spec fn in_step(held: Map<usize, Pending>, schedule: Map<Ticket, i128>) -> bool {
    &&& forall|ticket: Ticket| #[trigger]
        schedule.contains_key(ticket) <==> scheduled(held, ticket)
    &&& forall|token: usize, at: int|
        held.contains_key(token) && 0 <= at < held[token].tickets@.len() ==> schedule[#[trigger] ticket_at(
            held,
            token,
            at,
        )] == held[token].messages@[at].timestamp as i128
}

impl View for UnreadCache {
    type V = Map<usize, Seq<Message>>;

    /// The queue of each recipient that has messages waiting.
    closed spec fn view(&self) -> Map<usize, Seq<Message>> {
        queues_of(self.unordered@)
    }
}

/// `held` with the entries of the tickets `tickets` of `token` turned into
/// tombstones.
spec fn tombstoned(held: Map<Ticket, i128>, token: usize, tickets: Seq<u64>) -> Map<Ticket, i128> {
    Map::new(
        |ticket: Ticket| held.contains_key(ticket),
        |ticket: Ticket|
            if ticket.0 == token && tickets.contains(ticket.1) {
                TOMBSTONE
            } else {
                held[ticket]
            },
    )
}

fn position_of(tickets: &Vec<u64>, ticket: u64) -> (at: usize)
    requires
        tickets@.contains(ticket),
    ensures
        at < tickets.len(),
        tickets@[at as int] == ticket,
{
    let mut at: usize = 0;
    while tickets[at] != ticket
        invariant
            at < tickets.len(),
            tickets@.contains(ticket),
            forall|before: int| 0 <= before < at ==> tickets@[before] != ticket,
        decreases tickets.len() - at,
    {
        at += 1;
    }
    at
}

/// What `insert` makes of a cache: `after` is `before` with `unread` taken
/// in. A cache that admits no message stays as it is. A cache with room left
/// gets `unread` at the end of its recipient's queue. A full cache first loses
/// a message that is as old as any it holds.
pub open spec fn takes_in(before: UnreadCache, after: UnreadCache, unread: Message) -> bool {
    &&& after.capacity() == before.capacity()
    &&& after.lifetime() == before.lifetime()
    &&& after.len() <= after.capacity()
    &&& after.issued() == before.issued() + if before.admits() {
        1nat
    } else {
        0nat
    }
    &&& !before.admits() ==> after@ == before@ && after.len() == before.len()
    &&& before.admits() && before.len() < before.capacity() ==> {
        &&& after@ == pushed(before@, unread)
        &&& after.len() == before.len() + 1
    }
    &&& before.admits() && before.len() >= before.capacity() ==> {
        &&& exists|token: usize, at: int|
            #[trigger] is_oldest(before@, token, at) && after@ == pushed(
                without(before@, token, at),
                unread,
            )
        &&& after.len() == before.len()
    }
}

impl UnreadCache {
    /// The number of messages that the cache counts.
    pub closed spec fn len(&self) -> nat {
        self.size as nat
    }

    pub closed spec fn spec_capacity(&self) -> usize {
        self.capacity
    }

    pub closed spec fn spec_lifetime(&self) -> u32 {
        self.lifetime
    }

    /// The number of messages that wait in the cache.
    pub fn size(&self) -> (count: usize)
        ensures
            count == self.len(),
    {
        self.size
    }

    /// The number of messages that the cache holds at most.
    #[verifier::when_used_as_spec(spec_capacity)]
    pub fn capacity(&self) -> (bound: usize)
        ensures
            bound == self.capacity(),
    {
        self.capacity
    }

    /// The age in seconds that a message may reach in the cache.
    #[verifier::when_used_as_spec(spec_lifetime)]
    pub fn lifetime(&self) -> (seconds: u32)
        ensures
            seconds == self.lifetime(),
    {
        self.lifetime
    }

    /// The number of tickets that the cache has handed out: one for each
    /// message that it ever took in.
    pub closed spec fn issued(&self) -> nat {
        self.issued as nat
    }

    /// The cache has a ticket left for another message. Tickets are not
    /// handed out twice, and there are `u64::MAX` of them.
    pub open spec fn has_ticket(&self) -> bool {
        self.issued() < u64::MAX
    }

    /// The cache takes another message in: it has room for one at least, and
    /// a ticket for it.
    pub open spec fn admits(&self) -> bool {
        self.capacity() > 0 && self.has_ticket()
    }

    /// The cache's invariant: the count is the number of queued messages and
    /// the number of entries in the schedule, which holds one entry for each
    /// message, under its timestamp. No more messages wait than the cache
    /// may hold.
    pub closed spec fn wf(&self) -> bool {
        &&& entries(self.ordered).dom().finite()
        &&& self.size == total(self@)
        &&& self.size == entries(self.ordered).dom().len()
        &&& self.size <= self.capacity
        &&& all_pending_ok(self.unordered@, self.issued)
        &&& in_step(self.unordered@, entries(self.ordered))
    }

    /// A cache without messages.
    pub fn new(capacity: usize, lifetime: u32) -> (cache: UnreadCache)
        ensures
            cache.wf(),
            cache@ == Map::<usize, Seq<Message>>::empty(),
            cache.len() == 0,
            cache.issued() == 0,
            cache.capacity() == capacity,
            cache.lifetime() == lifetime,
    {
        let cache = UnreadCache {
            size: 0,
            capacity,
            lifetime,
            unordered: HashMap::new(),
            ordered: schedule_new(),
            issued: 0,
        };
        assert(cache@ =~= Map::<usize, Seq<Message>>::empty());
        cache
    }

    /// The messages that wait for `token`, in the order in which they came.
    pub fn extract(&self, token: &usize) -> (queue: Option<&Vec<Message>>)
        ensures
            match queue {
                Some(messages) => self@.contains_key(*token) && messages@ == self@[*token],
                None => !self@.contains_key(*token),
            },
    {
        match self.unordered.get(token) {
            Some(pending) => Some(&pending.messages),
            None => None,
        }
    }

    /// Whether the cache holds no message.
    pub fn empty(&self) -> (none: bool)
        requires
            self.wf(),
        ensures
            none == (self.len() == 0),
            none == (self@ == Map::<usize, Seq<Message>>::empty()),
    {
        proof {
            self.lemma_counts();
            if self@.dom().len() == 0 {
                assert(self@ =~= Map::<usize, Seq<Message>>::empty());
            }
        }
        self.size == 0 && self.unordered.is_empty()
    }

    /// The count of a cache is the number of messages in its queues, every
    /// queue holds a message, and every message waits under its recipient.
    pub proof fn lemma_counts(&self)
        requires
            self.wf(),
        ensures
            self.len() == total(self@),
            self.len() <= self.capacity(),
            self@.dom().finite(),
            well_keyed(self@),
            self.len() == 0 <==> self@ == Map::<usize, Seq<Message>>::empty(),
    {
        assert(self@.dom() =~= self.unordered@.dom());
        if self@.dom().len() != 0 {
            let token = self@.dom().choose();
            assert(self.unordered@.contains_key(token));
            lemma_total_remove(self@, token);
        } else {
            assert(self@ =~= Map::<usize, Seq<Message>>::empty());
        }
        assert forall|token: usize| #[trigger] self@.contains_key(token) implies {
            &&& self@[token].len() > 0
            &&& forall|at: int|
                0 <= at < self@[token].len() ==> (#[trigger] self@[token][at]).to == token
        } by {
            assert(self.unordered@.contains_key(token));
        }
    }

    /// The time at which the oldest message of the cache was made, `None`
    /// for a cache without messages.
    pub fn oldest(&self) -> (made: Option<i64>)
        requires
            self.wf(),
        ensures
            match made {
                Some(timestamp) => exists|token: usize, at: int|
                    #[trigger] is_oldest(self@, token, at) && self@[token][at].timestamp
                        == timestamp,
                None => self@ == Map::<usize, Seq<Message>>::empty(),
            },
    {
        match schedule_peek_min(&self.ordered) {
            Some((ticket, priority)) => {
                proof {
                    assert(scheduled(self.unordered@, ticket));
                    let at = choose|at: int|
                        0 <= at < self.unordered@[ticket.0].tickets@.len()
                            && self.unordered@[ticket.0].tickets@[at] == ticket.1;
                    lemma_least_is_oldest(
                        self.unordered@,
                        entries(self.ordered),
                        self.issued,
                        ticket,
                        priority,
                        at,
                    );
                    assert(is_oldest(self@, ticket.0, at));
                }
                Some(priority as i64)
            },
            None => {
                proof {
                    self.lemma_unscheduled();
                }
                None
            },
        }
    }

    /// A cache with an empty schedule has no queue.
    proof fn lemma_unscheduled(&self)
        requires
            self.wf(),
            entries(self.ordered) == Map::<Ticket, i128>::empty(),
        ensures
            self@ == Map::<usize, Seq<Message>>::empty(),
            self.size == 0,
    {
        assert forall|token: usize| !self.unordered@.contains_key(token) by {
            if self.unordered@.contains_key(token) {
                assert(pending_ok(token, self.unordered@[token], self.issued));
                let ticket = ticket_at(self.unordered@, token, 0);
                assert(self.unordered@[token].tickets@[0] == ticket.1);
                assert(scheduled(self.unordered@, ticket));
                assert(entries(self.ordered).contains_key(ticket));
            }
        }
        assert(self@ =~= Map::<usize, Seq<Message>>::empty());
        assert(self@.dom().len() == 0);
    }

    /// Evicts a message that is as old as any in the cache.
    fn evict_oldest(&mut self)
        requires
            old(self).wf(),
            old(self).size > 0,
        ensures
            final(self).wf(),
            final(self).capacity == old(self).capacity,
            final(self).lifetime == old(self).lifetime,
            final(self).issued == old(self).issued,
            final(self).size == old(self).size - 1,
            exists|token: usize, at: int|
                #[trigger] is_oldest(old(self)@, token, at) && final(self)@ == without(
                    old(self)@,
                    token,
                    at,
                ),
    {
        let ghost held = self.unordered@;
        let ghost schedule = entries(self.ordered);
        match schedule_pop_min(&mut self.ordered) {
            None => {
                proof {
                    old(self).lemma_unscheduled();
                }
            },
            Some((ticket, priority)) => {
                assert(scheduled(held, ticket));
                let mut pending = self.unordered.remove(&ticket.0).unwrap();
                let at = position_of(&pending.tickets, ticket.1);
                assert(pending_ok(ticket.0, pending, self.issued));
                pending.messages.remove(at);
                pending.tickets.remove(at);
                if pending.messages.len() > 0 {
                    self.unordered.insert(ticket.0, pending);
                }
                self.size -= 1;
                proof {
                    let kept = if held[ticket.0].tickets@.len() == 1 {
                        held.remove(ticket.0)
                    } else {
                        held.insert(ticket.0, pending)
                    };
                    assert(self.unordered@ =~= kept);
                    lemma_least_is_oldest(held, schedule, self.issued, ticket, priority, at as int);
                    lemma_evict_step(held, schedule, self.issued, ticket, at as int, pending, kept);
                    assert(is_oldest(old(self)@, ticket.0, at as int));
                }
            },
        }
    }

    /// Takes `unread` in, at the end of its recipient's queue. A cache that
    /// is full first evicts a message that is as old as any it holds. A cache
    /// that admits no message stays as it is.
    pub fn insert(&mut self, unread: Message)
        requires
            old(self).wf(),
        ensures
            final(self).wf(),
            takes_in(*old(self), *final(self), unread),
    {
        if self.capacity == 0 || self.issued == u64::MAX {
            return ;
        }
        if self.size >= self.capacity {
            self.evict_oldest();
        }
        let ghost kept = self@;
        let ghost held = self.unordered@;
        let ghost schedule = entries(self.ordered);
        let token = unread.to;
        let ticket = self.issued;
        schedule_push(&mut self.ordered, (token, ticket), unread.timestamp as i128);
        self.issued += 1;
        self.size += 1;
        let mut pending = match self.unordered.remove(&token) {
            Some(pending) => pending,
            None => Pending { messages: Vec::new(), tickets: Vec::new() },
        };
        pending.messages.push(unread);
        pending.tickets.push(ticket);
        self.unordered.insert(token, pending);
        proof {
            assert(self.unordered@ =~= held.insert(token, pending));
            lemma_push_step(held, schedule, ticket, unread, pending);
            assert(self@ == pushed(kept, unread));
        }
    }

    /// Marks the entries of the tickets `tickets` of `token` for the next
    /// sweep.
    fn schedule_for_expiration(
        schedule: &mut DoublePriorityQueue<Ticket, i128>,
        token: usize,
        tickets: &Vec<u64>,
    )
        ensures
            entries(*final(schedule)) == tombstoned(entries(*old(schedule)), token, tickets@),
    {
        let ghost start = entries(*schedule);
        let mut at: usize = 0;
        assert(tombstoned(start, token, tickets@.take(0)) =~= start);
        while at < tickets.len()
            invariant
                at <= tickets.len(),
                entries(*schedule) == tombstoned(start, token, tickets@.take(at as int)),
            decreases tickets.len() - at,
        {
            let ghost shorter = tickets@.take(at as int);
            let ghost longer = tickets@.take(at + 1);
            schedule_change_priority(schedule, (token, tickets[at]), TOMBSTONE);
            proof {
                assert forall|ticket: u64|
                    longer.contains(ticket) <==> shorter.contains(ticket) || ticket
                        == tickets@[at as int] by {
                    if longer.contains(ticket) {
                        let place = choose|place: int|
                            0 <= place < longer.len() && longer[place] == ticket;
                        if place < at {
                            assert(shorter[place] == ticket);
                        }
                    }
                    if shorter.contains(ticket) {
                        let place = choose|place: int|
                            0 <= place < shorter.len() && shorter[place] == ticket;
                        assert(longer[place] == ticket);
                    }
                    if ticket == tickets@[at as int] {
                        assert(longer[at as int] == ticket);
                    }
                }
                assert(entries(*schedule) =~= tombstoned(start, token, longer));
            }
            at += 1;
        }
        assert(tickets@.take(at as int) == tickets@);
    }

    /// Forgets the queue of `token`: every message in it leaves the cache.
    /// Their entries in the schedule become tombstones, which a sweep then
    /// takes out.
    pub fn remove(&mut self, token: &usize)
        requires
            old(self).wf(),
        ensures
            final(self).wf(),
            final(self).capacity() == old(self).capacity(),
            final(self).lifetime() == old(self).lifetime(),
            final(self).issued() == old(self).issued(),
            final(self)@ == old(self)@.remove(*token),
            !final(self)@.contains_key(*token),
            final(self).len() == old(self).len() - queue_of(old(self)@, *token).len(),
    {
        let ghost held = self.unordered@;
        let ghost schedule = entries(self.ordered);
        let pending = match self.unordered.remove(token) {
            Some(pending) => pending,
            None => {
                assert(self.unordered@ =~= held);
                assert(self@ =~= old(self)@.remove(*token));
                return ;
            },
        };
        proof {
            lemma_remove_step(held, schedule, self.issued, *token);
            assert(self.unordered@ =~= held.remove(*token));
        }
        self.size -= pending.messages.len();
        Self::schedule_for_expiration(&mut self.ordered, *token, &pending.tickets);
        assert(entries(self.ordered).dom() =~= schedule.dom());
        sweep(&mut self.ordered);
    }

    /// The expiry pass as it runs at the time `now`, in milliseconds since
    /// the Unix epoch. With a duration, in milliseconds, every message that
    /// was made more than that before `now` leaves the cache. Without one,
    /// only the schedule is swept of tombstones, and no message leaves.
    pub fn expire_at(&mut self, duration: Option<i64>, now: i64)
        requires
            old(self).wf(),
        ensures
            final(self).wf(),
            final(self).capacity() == old(self).capacity(),
            final(self).lifetime() == old(self).lifetime(),
            final(self).issued() == old(self).issued(),
            final(self)@ == expired(old(self)@, duration, now),
            final(self).len() <= old(self).len(),
            duration is None ==> final(self).len() == old(self).len(),
    {
        match duration {
            None => {
                proof {
                    self.lemma_no_tombstone();
                }
                sweep(&mut self.ordered);
            },
            Some(allowed) => {
                loop
                    invariant
                        self.wf(),
                        self.capacity == old(self).capacity,
                        self.lifetime == old(self).lifetime,
                        self.issued == old(self).issued,
                        self.size <= old(self).size,
                        forall|token: usize|
                            fresh(#[trigger] queue_of(self@, token), allowed, now) == fresh(
                                queue_of(old(self)@, token),
                                allowed,
                                now,
                            ),
                    ensures
                        forall|token: usize, at: int|
                            self@.contains_key(token) && 0 <= at < self@[token].len() ==> !is_stale(
                                #[trigger] self@[token][at],
                                allowed,
                                now,
                            ),
                    decreases self.size,
                {
                    let made = match self.oldest() {
                        Some(made) => made,
                        None => {
                            break ;
                        },
                    };
                    let ghost (first, place) = choose|first: usize, place: int|
                        #[trigger] is_oldest(self@, first, place) && self@[first][place].timestamp
                            == made;
                    if made as i128 + allowed as i128 >= now as i128 {
                        break ;
                    }
                    let ghost before = self@;
                    proof {
                        self.lemma_counts();
                    }
                    self.evict_oldest();
                    proof {
                        let (token, at) = choose|token: usize, at: int|
                            #[trigger] is_oldest(before, token, at) && self@ == without(
                                before,
                                token,
                                at,
                            );
                        assert(before[token][at].timestamp <= before[first][place].timestamp);
                        lemma_without_fresh(before, token, at, allowed, now);
                    }
                }
                proof {
                    self.lemma_counts();
                    lemma_unexpired(old(self)@, self@, allowed, now);
                }
            },
        }
    }

    /// The expiry pass, as its clock finds the time. With a duration, in
    /// milliseconds, every message that has been made more than that before
    /// leaves the cache. Without one no message leaves.
    pub fn expire(&mut self, duration: Option<i64>)
        requires
            old(self).wf(),
        ensures
            final(self).wf(),
            final(self).capacity() == old(self).capacity(),
            final(self).lifetime() == old(self).lifetime(),
            final(self).issued() == old(self).issued(),
            final(self).len() <= old(self).len(),
            duration is None ==> final(self)@ == old(self)@ && final(self).len() == old(self).len(),
            exists|now: i64| final(self)@ == #[trigger] expired(old(self)@, duration, now),
    {
        let now = match duration {
            Some(_) => clock_millis(),
            None => 0,
        };
        self.expire_at(duration, now);
        assert(final(self)@ == expired(old(self)@, duration, now));
    }

    /// No entry of a cache's schedule is a tombstone.
    proof fn lemma_no_tombstone(&self)
        requires
            self.wf(),
        ensures
            live(entries(self.ordered)) == entries(self.ordered),
    {
        let schedule = entries(self.ordered);
        assert forall|ticket: Ticket| schedule.contains_key(ticket) implies #[trigger] schedule[ticket]
            != TOMBSTONE by {
            assert(scheduled(self.unordered@, ticket));
            let place = choose|place: int|
                0 <= place < self.unordered@[ticket.0].tickets@.len()
                    && self.unordered@[ticket.0].tickets@[place] == ticket.1;
            assert(ticket_at(self.unordered@, ticket.0, place) == ticket);
        }
        assert(live(schedule) =~= schedule);
    }
}

/// Messages for one recipient that a cache takes in while it has room for
/// them come out in the order in which they went in: after the messages that
/// waited for the recipient before, and with no other queue touched.
/// `caches` holds the cache before the first insert and after each.
pub proof fn lemma_inserts_keep_order(
    caches: Seq<UnreadCache>,
    unreads: Seq<Message>,
    token: usize,
)
    requires
        caches.len() == unreads.len() + 1,
        caches[0].len() + unreads.len() <= caches[0].capacity(),
        caches[0].issued() + unreads.len() <= u64::MAX,
        forall|at: int| 0 <= at < unreads.len() ==> (#[trigger] unreads[at]).to == token,
        forall|at: int|
            0 <= at < unreads.len() ==> #[trigger] takes_in(caches[at], caches[at + 1], unreads[at]),
    ensures
        queue_of(caches.last()@, token) == queue_of(caches[0]@, token) + unreads,
        caches.last().len() == caches[0].len() + unreads.len(),
        caches.last().issued() == caches[0].issued() + unreads.len(),
        forall|other: usize|
            other != token ==> #[trigger] queue_of(caches.last()@, other) == queue_of(
                caches[0]@,
                other,
            ),
    decreases unreads.len(),
{
    if unreads.len() == 0 {
        assert(queue_of(caches[0]@, token) + unreads =~= queue_of(caches[0]@, token));
    } else {
        let last = unreads.len() - 1;
        assert forall|at: int| 0 <= at < last implies #[trigger] takes_in(
            caches.drop_last()[at],
            caches.drop_last()[at + 1],
            unreads.drop_last()[at],
        ) by {
            assert(takes_in(caches[at], caches[at + 1], unreads[at]));
        }
        assert forall|at: int| 0 <= at < last implies (#[trigger] unreads.drop_last()[at]).to
            == token by {
            assert(unreads[at].to == token);
        }
        lemma_inserts_keep_order(caches.drop_last(), unreads.drop_last(), token);
        assert(caches.drop_last().last() == caches[last]);
        assert(takes_in(caches[last], caches[last + 1], unreads[last]));
        assert(unreads[last].to == token);
        assert(caches[0].capacity() == caches[last].capacity()) by {
            lemma_capacity_stays(caches.drop_last(), unreads.drop_last());
        }
        assert(caches.last()@ == pushed(caches[last]@, unreads[last]));
        assert(queue_of(caches[0]@, token) + unreads =~= (queue_of(caches[0]@, token)
            + unreads.drop_last()).push(unreads[last]));
        assert forall|other: usize| other != token implies #[trigger] queue_of(
            caches.last()@,
            other,
        ) == queue_of(caches[0]@, other) by {
            assert(queue_of(caches[last]@, other) == queue_of(caches[0]@, other));
        }
    }
}

/// No insert changes what a cache can hold.
pub proof fn lemma_capacity_stays(caches: Seq<UnreadCache>, unreads: Seq<Message>)
    requires
        caches.len() == unreads.len() + 1,
        forall|at: int|
            0 <= at < unreads.len() ==> #[trigger] takes_in(caches[at], caches[at + 1], unreads[at]),
    ensures
        caches.last().capacity() == caches[0].capacity(),
        caches.last().lifetime() == caches[0].lifetime(),
    decreases unreads.len(),
{
    if unreads.len() > 0 {
        let last = unreads.len() - 1;
        assert forall|at: int| 0 <= at < last implies #[trigger] takes_in(
            caches.drop_last()[at],
            caches.drop_last()[at + 1],
            unreads.drop_last()[at],
        ) by {
            assert(takes_in(caches[at], caches[at + 1], unreads[at]));
        }
        lemma_capacity_stays(caches.drop_last(), unreads.drop_last());
        assert(caches.drop_last().last() == caches[last]);
        assert(takes_in(caches[last], caches[last + 1], unreads[last]));
    }
}

pub proof fn lemma_total_remove(queues: Map<usize, Seq<Message>>, token: usize)
    requires
        queues.dom().finite(),
        queues.contains_key(token),
    ensures
        total(queues) == queues[token].len() + total(queues.remove(token)),
    decreases queues.dom().len(),
{
    let chosen = queues.dom().choose();
    if chosen != token {
        lemma_total_remove(queues.remove(chosen), token);
        lemma_total_remove(queues.remove(token), chosen);
        assert(queues.remove(chosen).remove(token) =~= queues.remove(token).remove(chosen));
    }
}

pub proof fn lemma_total_insert(queues: Map<usize, Seq<Message>>, token: usize, queue: Seq<Message>)
    requires
        queues.dom().finite(),
    ensures
        total(queues.insert(token, queue)) == queue.len() + total(queues.remove(token)),
{
    lemma_total_remove(queues.insert(token, queue), token);
    assert(queues.insert(token, queue).remove(token) =~= queues.remove(token));
}

/// What taking the entry of `ticket` out of the schedule, and its message
/// out of its queue, does to a cache whose parts were in step.
proof fn lemma_evict_step(
    held: Map<usize, Pending>,
    schedule: Map<Ticket, i128>,
    issued: u64,
    ticket: Ticket,
    at: int,
    rest: Pending,
    held_after: Map<usize, Pending>,
)
    requires
        held.dom().finite(),
        schedule.dom().finite(),
        all_pending_ok(held, issued),
        in_step(held, schedule),
        held.contains_key(ticket.0),
        0 <= at < held[ticket.0].tickets@.len(),
        held[ticket.0].tickets@[at] == ticket.1,
        rest.messages@ == held[ticket.0].messages@.remove(at),
        rest.tickets@ == held[ticket.0].tickets@.remove(at),
        held_after == if held[ticket.0].tickets@.len() == 1 {
            held.remove(ticket.0)
        } else {
            held.insert(ticket.0, rest)
        },
    ensures
        all_pending_ok(held_after, issued),
        in_step(held_after, schedule.remove(ticket)),
        queues_of(held_after) == without(queues_of(held), ticket.0, at),
        total(queues_of(held)) == total(queues_of(held_after)) + 1,
        schedule.dom().len() == schedule.remove(ticket).dom().len() + 1,
{
    let token = ticket.0;
    let queue = held[token];
    let after = schedule.remove(ticket);
    assert(scheduled(held, ticket));
    assert(pending_ok(token, queue, issued));
    assert(queues_of(held).dom() =~= held.dom());
    if queue.tickets@.len() == 1 {
        assert(queues_of(held_after) =~= queues_of(held).remove(token));
        lemma_total_remove(queues_of(held), token);
    } else {
        assert(queues_of(held_after) =~= queues_of(held).insert(token, queue.messages@.remove(at)));
        lemma_total_remove(queues_of(held), token);
        lemma_total_insert(queues_of(held), token, queue.messages@.remove(at));
        assert(pending_ok(token, rest, issued)) by {
            assert forall|i: int| 0 <= i < rest.messages@.len() implies (
            #[trigger] rest.messages@[i]).to == token by {
                if i < at {
                    assert(rest.messages@[i] == queue.messages@[i]);
                } else {
                    assert(rest.messages@[i] == queue.messages@[i + 1]);
                }
            }
            assert forall|i: int| 0 <= i < rest.tickets@.len() implies #[trigger] rest.tickets@[i]
                < issued by {
                if i < at {
                    assert(rest.tickets@[i] == queue.tickets@[i]);
                } else {
                    assert(rest.tickets@[i] == queue.tickets@[i + 1]);
                }
            }
            assert forall|i: int, j: int| 0 <= i < j < rest.tickets@.len() implies #[trigger] rest.tickets@[i]
                < #[trigger] rest.tickets@[j] by {
                let from_i = if i < at { i } else { i + 1 };
                let from_j = if j < at { j } else { j + 1 };
                assert(rest.tickets@[i] == queue.tickets@[from_i]);
                assert(rest.tickets@[j] == queue.tickets@[from_j]);
            }
        }
    }
    assert forall|other: usize| #[trigger] held_after.contains_key(other) implies pending_ok(
        other,
        held_after[other],
        issued,
    ) by {
        assert(held.contains_key(other));
    }
    assert forall|other: Ticket| #[trigger] after.contains_key(other) <==> scheduled(
        held_after,
        other,
    ) by {
        if after.contains_key(other) {
            assert(schedule.contains_key(other));
            assert(scheduled(held, other));
            let place = choose|place: int|
                0 <= place < held[other.0].tickets@.len() && held[other.0].tickets@[place]
                    == other.1;
            if other.0 == token {
                assert(place != at);
                let moved = if place < at { place } else { place - 1 };
                assert(rest.tickets@[moved] == other.1);
                assert(queue.tickets@.len() > 1);
            }
            assert(scheduled(held_after, other));
        }
        if scheduled(held_after, other) {
            let place = choose|place: int|
                0 <= place < held_after[other.0].tickets@.len()
                    && held_after[other.0].tickets@[place] == other.1;
            if other.0 == token {
                let origin = if place < at { place } else { place + 1 };
                assert(queue.tickets@[origin] == other.1);
                assert(origin != at);
                assert(other.1 != ticket.1) by {
                    if origin < at {
                        assert(queue.tickets@[origin] < queue.tickets@[at]);
                    } else {
                        assert(queue.tickets@[at] < queue.tickets@[origin]);
                    }
                }
            } else {
                assert(held_after[other.0] == held[other.0]);
            }
            assert(scheduled(held, other));
            assert(schedule.contains_key(other));
        }
    }
    assert forall|other: usize, place: int|
        held_after.contains_key(other) && 0 <= place
            < held_after[other].tickets@.len() implies after[#[trigger] ticket_at(
        held_after,
        other,
        place,
    )] == held_after[other].messages@[place].timestamp as i128 by {
        if other == token {
            let origin = if place < at { place } else { place + 1 };
            assert(ticket_at(held_after, other, place) == ticket_at(held, other, origin));
            assert(held_after[other].messages@[place] == queue.messages@[origin]);
            if origin < at {
                assert(queue.tickets@[origin] < queue.tickets@[at]);
            } else {
                assert(queue.tickets@[at] < queue.tickets@[origin]);
            }
        } else {
            assert(ticket_at(held_after, other, place) == ticket_at(held, other, place));
        }
    }
}

/// The message whose ticket has the least priority of the schedule is as
/// old as any in the queues.
proof fn lemma_least_is_oldest(
    held: Map<usize, Pending>,
    schedule: Map<Ticket, i128>,
    issued: u64,
    ticket: Ticket,
    priority: i128,
    at: int,
)
    requires
        all_pending_ok(held, issued),
        in_step(held, schedule),
        is_lowest(schedule, ticket, priority),
        held.contains_key(ticket.0),
        0 <= at < held[ticket.0].tickets@.len(),
        held[ticket.0].tickets@[at] == ticket.1,
    ensures
        is_oldest(queues_of(held), ticket.0, at),
        priority == queues_of(held)[ticket.0][at].timestamp,
{
    let queues = queues_of(held);
    assert(ticket_at(held, ticket.0, at) == ticket);
    assert(pending_ok(ticket.0, held[ticket.0], issued));
    assert forall|other: usize, place: int|
        queues.contains_key(other) && 0 <= place < queues[other].len() implies queues[ticket.0][at].timestamp
        <= (#[trigger] queues[other][place]).timestamp by {
        assert(held.contains_key(other));
        assert(pending_ok(other, held[other], issued));
        let there = ticket_at(held, other, place);
        assert(held[other].tickets@[place] == there.1);
        assert(scheduled(held, there));
        assert(schedule.contains_key(there));
    }
}

/// What a new ticket in the schedule, and its message at the end of its
/// recipient's queue, do to a cache whose parts were in step.
proof fn lemma_push_step(
    held: Map<usize, Pending>,
    schedule: Map<Ticket, i128>,
    issued: u64,
    message: Message,
    longer: Pending,
)
    requires
        held.dom().finite(),
        schedule.dom().finite(),
        all_pending_ok(held, issued),
        in_step(held, schedule),
        issued < u64::MAX,
        longer.messages@ == queue_of(queues_of(held), message.to).push(message),
        longer.tickets@ == (if held.contains_key(message.to) {
            held[message.to].tickets@
        } else {
            Seq::empty()
        }).push(issued),
    ensures
        all_pending_ok(held.insert(message.to, longer), (issued + 1) as u64),
        in_step(
            held.insert(message.to, longer),
            schedule.insert((message.to, issued), message.timestamp as i128),
        ),
        queues_of(held.insert(message.to, longer)) == pushed(queues_of(held), message),
        total(queues_of(held.insert(message.to, longer))) == total(queues_of(held)) + 1,
        schedule.insert((message.to, issued), message.timestamp as i128).dom().len()
            == schedule.dom().len() + 1,
{
    let token = message.to;
    let ticket = (token, issued);
    assert(!schedule.contains_key(ticket)) by {
        if scheduled(held, ticket) {
            let place = choose|place: int|
                0 <= place < held[token].tickets@.len() && held[token].tickets@[place] == issued;
            assert(pending_ok(token, held[token], issued));
        }
    }
    let held_after = held.insert(token, longer);
    let after = schedule.insert(ticket, message.timestamp as i128);
    let known = held.contains_key(token);
    assert(queues_of(held).dom() =~= held.dom());
    assert(queues_of(held_after) =~= pushed(queues_of(held), message));
    lemma_total_insert(queues_of(held), token, longer.messages@);
    if known {
        lemma_total_remove(queues_of(held), token);
        assert(pending_ok(token, held[token], issued));
    } else {
        assert(queues_of(held).remove(token) =~= queues_of(held));
    }
    let last = longer.tickets@.len() - 1;
    assert(longer.tickets@[last] == issued);
    assert(longer.messages@[last] == message);
    assert forall|other: usize| #[trigger] held_after.contains_key(other) implies pending_ok(
        other,
        held_after[other],
        (issued + 1) as u64,
    ) by {
        if other != token {
            assert(held.contains_key(other));
            assert(pending_ok(other, held[other], issued));
        }
    }
    assert forall|other: Ticket| #[trigger] after.contains_key(other) <==> scheduled(
        held_after,
        other,
    ) by {
        if after.contains_key(other) {
            if other == ticket {
                assert(held_after[token].tickets@[last] == other.1);
            } else {
                assert(schedule.contains_key(other));
                assert(scheduled(held, other));
                let place = choose|place: int|
                    0 <= place < held[other.0].tickets@.len() && held[other.0].tickets@[place]
                        == other.1;
                if other.0 == token {
                    assert(longer.tickets@[place] == other.1);
                }
            }
            assert(scheduled(held_after, other));
        }
        if scheduled(held_after, other) {
            let place = choose|place: int|
                0 <= place < held_after[other.0].tickets@.len()
                    && held_after[other.0].tickets@[place] == other.1;
            if other.0 == token {
                if place < last {
                    assert(held[token].tickets@[place] == other.1);
                    assert(scheduled(held, other));
                }
            } else {
                assert(held_after[other.0] == held[other.0]);
                assert(scheduled(held, other));
            }
        }
    }
    assert forall|other: usize, place: int|
        held_after.contains_key(other) && 0 <= place
            < held_after[other].tickets@.len() implies after[#[trigger] ticket_at(
        held_after,
        other,
        place,
    )] == held_after[other].messages@[place].timestamp as i128 by {
        if other == token && place == last {
        } else {
            assert(held.contains_key(other));
            assert(pending_ok(other, held[other], issued));
            assert(ticket_at(held_after, other, place) == ticket_at(held, other, place));
            assert(held[other].tickets@[place] < issued);
            assert(held_after[other].messages@[place] == held[other].messages@[place]);
        }
    }
}

proof fn lemma_fresh_remove(queue: Seq<Message>, at: int, duration: i64, now: i64)
    requires
        0 <= at < queue.len(),
        is_stale(queue[at], duration, now),
    ensures
        fresh(queue.remove(at), duration, now) == fresh(queue, duration, now),
    decreases queue.len(),
{
    if at == queue.len() - 1 {
        assert(queue.remove(at) =~= queue.drop_last());
    } else {
        assert(queue.remove(at).drop_last() =~= queue.drop_last().remove(at));
        assert(queue.remove(at).last() == queue.last());
        lemma_fresh_remove(queue.drop_last(), at, duration, now);
    }
}

proof fn lemma_fresh_all(queue: Seq<Message>, duration: i64, now: i64)
    requires
        forall|at: int| 0 <= at < queue.len() ==> !is_stale(#[trigger] queue[at], duration, now),
    ensures
        fresh(queue, duration, now) == queue,
    decreases queue.len(),
{
    if queue.len() > 0 {
        assert(!is_stale(queue[queue.len() - 1], duration, now));
        lemma_fresh_all(queue.drop_last(), duration, now);
        assert(queue.drop_last().push(queue.last()) =~= queue);
    }
}

/// A stale message that leaves takes nothing from what is fresh.
proof fn lemma_without_fresh(
    queues: Map<usize, Seq<Message>>,
    token: usize,
    at: int,
    duration: i64,
    now: i64,
)
    requires
        queues.contains_key(token),
        0 <= at < queues[token].len(),
        is_stale(queues[token][at], duration, now),
    ensures
        forall|other: usize|
            fresh(#[trigger] queue_of(without(queues, token, at), other), duration, now) == fresh(
                queue_of(queues, other),
                duration,
                now,
            ),
{
    lemma_fresh_remove(queues[token], at, duration, now);
    if queues[token].len() == 1 {
        assert(queues[token].remove(at) =~= Seq::<Message>::empty());
    }
}

/// Queues that kept all that was fresh, and nothing else, are the unexpired
/// ones.
proof fn lemma_unexpired(
    before: Map<usize, Seq<Message>>,
    after: Map<usize, Seq<Message>>,
    duration: i64,
    now: i64,
)
    requires
        well_keyed(after),
        forall|token: usize|
            fresh(#[trigger] queue_of(after, token), duration, now) == fresh(
                queue_of(before, token),
                duration,
                now,
            ),
        forall|token: usize, at: int|
            after.contains_key(token) && 0 <= at < after[token].len() ==> !is_stale(
                #[trigger] after[token][at],
                duration,
                now,
            ),
    ensures
        after == unexpired(before, duration, now),
{
    let kept = unexpired(before, duration, now);
    assert forall|token: usize| #[trigger]
        after.contains_key(token) <==> kept.contains_key(token) by {
        lemma_fresh_all(queue_of(after, token), duration, now);
        assert(fresh(queue_of(after, token), duration, now) == fresh(
            queue_of(before, token),
            duration,
            now,
        ));
    }
    assert forall|token: usize| #[trigger] after.contains_key(token) implies after[token]
        == kept[token] by {
        lemma_fresh_all(queue_of(after, token), duration, now);
        assert(fresh(queue_of(after, token), duration, now) == fresh(
            queue_of(before, token),
            duration,
            now,
        ));
    }
    assert(after =~= kept);
}

/// What is left when the queue of `token` has gone and the schedule was
/// swept of its tickets.
proof fn lemma_remove_step(
    held: Map<usize, Pending>,
    schedule: Map<Ticket, i128>,
    issued: u64,
    token: usize,
)
    requires
        held.dom().finite(),
        schedule.dom().finite(),
        all_pending_ok(held, issued),
        in_step(held, schedule),
        held.contains_key(token),
    ensures
        all_pending_ok(held.remove(token), issued),
        in_step(held.remove(token), live(tombstoned(schedule, token, held[token].tickets@))),
        queues_of(held.remove(token)) == queues_of(held).remove(token),
        total(queues_of(held)) == total(queues_of(held.remove(token))) + held[token].messages@.len(),
        schedule.dom().len() == live(tombstoned(schedule, token, held[token].tickets@)).dom().len()
            + held[token].messages@.len(),
{
    let held_after = held.remove(token);
    let tickets = held[token].tickets@;
    let after = live(tombstoned(schedule, token, tickets));
    assert(pending_ok(token, held[token], issued));
    assert forall|at: int| 0 <= at < tickets.len() implies schedule.dom().contains(
        (token, #[trigger] tickets[at]),
    ) by {
        assert(scheduled(held, (token, tickets[at])));
    }
    lemma_rest_count(schedule.dom(), token, tickets, tickets.len() as int);
    assert(tickets.take(tickets.len() as int) == tickets);
    assert(queues_of(held).dom() =~= held.dom());
    assert(queues_of(held_after) =~= queues_of(held).remove(token));
    lemma_total_remove(queues_of(held), token);
    assert forall|other: usize| #[trigger] held_after.contains_key(other) implies pending_ok(
        other,
        held_after[other],
        issued,
    ) by {
        assert(held.contains_key(other));
    }
    assert forall|other: Ticket| #[trigger] after.contains_key(other) <==> scheduled(
        held_after,
        other,
    ) by {
        if schedule.contains_key(other) {
            assert(scheduled(held, other));
            let place = choose|place: int|
                0 <= place < held[other.0].tickets@.len() && held[other.0].tickets@[place]
                    == other.1;
            assert(ticket_at(held, other.0, place) == other);
        }
        if scheduled(held_after, other) {
            assert(scheduled(held, other));
            assert(schedule.contains_key(other));
        }
    }
    assert(after.dom() =~= rest(schedule.dom(), token, tickets));
    assert forall|other: usize, place: int|
        held_after.contains_key(other) && 0 <= place
            < held_after[other].tickets@.len() implies after[#[trigger] ticket_at(
        held_after,
        other,
        place,
    )] == held_after[other].messages@[place].timestamp as i128 by {
        assert(ticket_at(held_after, other, place) == ticket_at(held, other, place));
        assert(held.contains_key(other));
    }
}

/// `schedule` without the tickets `gone` of `token`.
spec fn rest(schedule: Set<Ticket>, token: usize, gone: Seq<u64>) -> Set<Ticket> {
    Set::new(
        |ticket: Ticket| schedule.contains(ticket) && !(ticket.0 == token && gone.contains(ticket.1)),
    )
}

/// A schedule that loses tickets of its own, no two of them alike, loses as
/// many entries.
proof fn lemma_rest_count(schedule: Set<Ticket>, token: usize, tickets: Seq<u64>, upto: int)
    requires
        schedule.finite(),
        0 <= upto <= tickets.len(),
        forall|at: int| 0 <= at < tickets.len() ==> schedule.contains((token, #[trigger] tickets[at])),
        forall|at: int, later: int|
            0 <= at < later < tickets.len() ==> #[trigger] tickets[at] < #[trigger] tickets[later],
    ensures
        rest(schedule, token, tickets.take(upto)).finite(),
        rest(schedule, token, tickets.take(upto)).len() + upto == schedule.len(),
    decreases upto,
{
    if upto == 0 {
        assert(rest(schedule, token, tickets.take(0)) =~= schedule);
    } else {
        lemma_rest_count(schedule, token, tickets, upto - 1);
        let shorter = tickets.take(upto - 1);
        let longer = tickets.take(upto);
        let gone = (token, tickets[upto - 1]);
        assert(!shorter.contains(gone.1)) by {
            if shorter.contains(gone.1) {
                let place = choose|place: int| 0 <= place < shorter.len() && shorter[place] == gone.1;
                assert(tickets[place] < tickets[upto - 1]);
            }
        }
        assert(rest(schedule, token, shorter).contains(gone));
        assert forall|ticket: u64| longer.contains(ticket) <==> shorter.contains(ticket) || ticket
            == gone.1 by {
            if longer.contains(ticket) {
                let place = choose|place: int| 0 <= place < longer.len() && longer[place] == ticket;
                if place < upto - 1 {
                    assert(shorter[place] == ticket);
                }
            }
            if shorter.contains(ticket) {
                let place = choose|place: int|
                    0 <= place < shorter.len() && shorter[place] == ticket;
                assert(longer[place] == ticket);
            }
            if ticket == gone.1 {
                assert(longer[upto - 1] == ticket);
            }
        }
        assert(rest(schedule, token, longer) =~= rest(schedule, token, shorter).remove(gone));
    }
}

} // verus!
