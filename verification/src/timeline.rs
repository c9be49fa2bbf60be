//! The expiry schedule: every cached message's ticket, ordered by the time
//! at which the message was made. It is a `DoublePriorityQueue` of the
//! `priority-queue` crate, of which Verus knows what is stated here.

use priority_queue::DoublePriorityQueue;
use vstd::prelude::*;

verus! {

#[verifier::external_type_specification]
#[verifier::external_body]
#[verifier::reject_recursive_types(I)]
#[verifier::reject_recursive_types(P)]
#[verifier::reject_recursive_types(H)]
pub struct ExDoublePriorityQueue<I, P, H>(DoublePriorityQueue<I, P, H>);

/// What stands for a cached message in the schedule: its recipient's token
/// and the ticket that the cache gave it.
pub type Ticket = (usize, u64);

/// The priority of an entry that waits to be swept: it lies below the
/// priority of every message, which is the message's timestamp.
pub const TOMBSTONE: i128 = i128::MIN;

/// The entries of a schedule: each ticket in it, with its priority.
pub uninterp spec fn entries(schedule: DoublePriorityQueue<Ticket, i128>) -> Map<Ticket, i128>;

/// `held` has no entry.
pub open spec fn is_vacant(held: Map<Ticket, i128>) -> bool {
    held == Map::<Ticket, i128>::empty()
}

/// `ticket` stands in `held` with priority `least`, and nothing in `held`
/// has a lower one.
pub open spec fn is_lowest(held: Map<Ticket, i128>, ticket: Ticket, least: i128) -> bool {
    &&& held.contains_key(ticket)
    &&& held[ticket] == least
    &&& forall|other: Ticket| held.contains_key(other) ==> least <= #[trigger] held[other]
}

/// `DoublePriorityQueue::new`: a schedule without entries.
#[verifier::external_body]
pub(crate) fn schedule_new() -> (fresh: DoublePriorityQueue<Ticket, i128>)
    ensures
        is_vacant(entries(fresh)),
{
    DoublePriorityQueue::new()
}

/// `DoublePriorityQueue::push`: `ticket` enters with `priority`, or has its
/// priority replaced where it already stood in the schedule. The priority
/// that it had comes back.
#[verifier::external_body]
pub(crate) fn schedule_push(
    schedule: &mut DoublePriorityQueue<Ticket, i128>,
    ticket: Ticket,
    priority: i128,
) -> (before: Option<i128>)
    ensures
        entries(*final(schedule)) == entries(*old(schedule)).insert(ticket, priority),
        before == if entries(*old(schedule)).contains_key(ticket) {
            Some(entries(*old(schedule))[ticket])
        } else {
            None
        },
{
    schedule.push(ticket, priority)
}

/// `DoublePriorityQueue::peek_min`: an entry of lowest priority, `None` for a
/// schedule without entries. Which of several entries of equal priority it is
/// stays open.
#[verifier::external_body]
pub(crate) fn schedule_peek_min(schedule: &DoublePriorityQueue<Ticket, i128>) -> (least: Option<
    (Ticket, i128),
>)
    ensures
        match least {
            Some((ticket, priority)) => is_lowest(entries(*schedule), ticket, priority),
            None => is_vacant(entries(*schedule)),
        },
{
    schedule.peek_min().map(|(ticket, priority)| (*ticket, *priority))
}

/// `DoublePriorityQueue::pop_min`: takes an entry of lowest priority out and
/// returns it, `None` for a schedule without entries, which stays as it is.
/// Which of several entries of equal priority leaves stays open.
#[verifier::external_body]
pub(crate) fn schedule_pop_min(schedule: &mut DoublePriorityQueue<Ticket, i128>) -> (least: Option<
    (Ticket, i128),
>)
    ensures
        match least {
            Some((ticket, priority)) => {
                &&& is_lowest(entries(*old(schedule)), ticket, priority)
                &&& entries(*final(schedule)) == entries(*old(schedule)).remove(ticket)
            },
            None => {
                &&& is_vacant(entries(*old(schedule)))
                &&& entries(*final(schedule)) == entries(*old(schedule))
            },
        },
{
    schedule.pop_min()
}

/// `DoublePriorityQueue::change_priority`: gives `ticket` the priority
/// `priority` and returns the one that it had. A ticket that is not in the
/// schedule does not enter it: the schedule stays as it is and `None` comes
/// back.
#[verifier::external_body]
pub(crate) fn schedule_change_priority(
    schedule: &mut DoublePriorityQueue<Ticket, i128>,
    ticket: Ticket,
    priority: i128,
) -> (before: Option<i128>)
    ensures
        entries(*old(schedule)).contains_key(ticket) ==> {
            &&& before == Some(entries(*old(schedule))[ticket])
            &&& entries(*final(schedule)) == entries(*old(schedule)).insert(ticket, priority)
        },
        !entries(*old(schedule)).contains_key(ticket) ==> {
            &&& before.is_none()
            &&& entries(*final(schedule)) == entries(*old(schedule))
        },
{
    schedule.change_priority(&ticket, priority)
}

/// The entries of `held` that are no tombstones.
pub open spec fn live(held: Map<Ticket, i128>) -> Map<Ticket, i128> {
    Map::new(
        |ticket: Ticket| held.contains_key(ticket) && held[ticket] != TOMBSTONE,
        |ticket: Ticket| held[ticket],
    )
}

/// Sweeps the schedule: takes out the entries of lowest priority for as long
/// as they are tombstones. What stays are the entries that were none.
pub(crate) fn sweep(schedule: &mut DoublePriorityQueue<Ticket, i128>)
    requires
        entries(*old(schedule)).dom().finite(),
    ensures
        entries(*final(schedule)).dom().finite(),
        entries(*final(schedule)) == live(entries(*old(schedule))),
{
    loop
        invariant
            entries(*schedule).dom().finite(),
            live(entries(*schedule)) == live(entries(*old(schedule))),
        ensures
            entries(*schedule) == live(entries(*old(schedule))),
        decreases entries(*schedule).dom().len(),
    {
        match schedule_peek_min(schedule) {
            Some((_, priority)) => {
                if priority != TOMBSTONE {
                    assert(live(entries(*schedule)) == entries(*schedule));
                    break ;
                }
            },
            None => {
                assert(live(entries(*schedule)) == entries(*schedule));
                break ;
            },
        }
        let ghost held = entries(*schedule);
        let swept = schedule_pop_min(schedule);
        assert(swept.is_some());
        assert(swept.unwrap().1 == TOMBSTONE);
        assert(live(entries(*schedule)) == live(held));
    }
}

} // verus!
