//! The decisions of the event loop. The loop itself, the readiness wait and
//! the sockets stay with the caller: it tells the server what happened on
//! a socket, and does what the server answers.

use crate::cache::{queue_of, takes_in, unexpired};
use crate::codec::frame;
use crate::message::{clock_millis, Message};
use crate::server::{Client, Connection, Interest, Receive, Server, LISTENER};
use vstd::prelude::*;

verus! {

/// What happened on a socket.
pub enum Event {
    /// The listener was ready, and this is what its accept call gave.
    Incoming(Result<(), String>),
    /// The socket of the token was ready, and this is what a read from it
    /// gave: the bytes, or why it failed.
    Readable(usize, Result<Vec<u8>, String>),
    /// A write to the socket of the token has ended: with the number of
    /// bytes written, or why it failed.
    Written(usize, Result<usize, String>),
    /// The readiness wait ran out of time with no socket ready.
    Tick,
}

/// What the caller is to do.
#[derive(Debug, PartialEq, Eq)]
pub enum Action {
    /// Write the text to the socket of the token, and report how it ended.
    Write(usize, String),
    /// Keep the socket that was accepted under the token, and watch it for
    /// reads.
    Register(usize),
    /// Close the socket of the token.
    Close(usize),
    /// Close the socket that was accepted.
    Refuse,
}

/// The answer to a connection that came in as `token` while `queue` waited
/// for it: every message of the queue is written to it, in the queue's
/// order, and then its socket is registered.
pub open spec fn welcomes(actions: Seq<Action>, token: usize, queue: Seq<Message>) -> bool {
    &&& actions.len() == queue.len() + 1
    &&& forall|at: int|
        0 <= at < queue.len() ==> #[trigger] actions[at] == Action::Write(token, queue[at].content)
    &&& actions[queue.len() as int] == Action::Register(token)
}

/// `after` and `actions` are what `before` makes of `event` at the time
/// `now`. No event ends the loop, and none costs a connection but the one
/// that it happened on.
pub open spec fn reacts(
    before: Server,
    event: Event,
    now: i64,
    after: Server,
    actions: Seq<Action>,
) -> bool {
    match event {
        Event::Incoming(Err(_)) => {
            &&& after.same_registry(&before)
            &&& after.unread_messages == before.unread_messages
            &&& actions == Seq::<Action>::empty()
        },
        Event::Incoming(Ok(_)) => if before.token_counter == usize::MAX {
            &&& after.same_registry(&before)
            &&& after.unread_messages == before.unread_messages
            &&& actions == seq![Action::Refuse]
        } else {
            let token = before.token_counter;
            &&& after.token_counter == token + 1
            &&& after.connection_order@ == before.connection_order@.push(token)
            &&& after.connections@ == before.connections@.insert(
                token,
                Connection { token, client: Client { interest: Interest::Readable } },
            )
            &&& after.unread_messages@ == before.unread_messages@.remove(token)
            &&& after.unread_messages.len() == before.unread_messages.len() - queue_of(
                before.unread_messages@,
                token,
            ).len()
            &&& after.unread_messages.capacity() == before.unread_messages.capacity()
            &&& after.unread_messages.lifetime() == before.unread_messages.lifetime()
            &&& after.unread_messages.issued() == before.unread_messages.issued()
            &&& welcomes(actions, token, queue_of(before.unread_messages@, token))
        },
        Event::Readable(token, Err(_)) => {
            &&& after.connections@ == before.connections@.remove(token)
            &&& after.token_counter == before.token_counter
            &&& after.connection_order@ == before.connection_order@
            &&& after.unread_messages == before.unread_messages
            &&& actions == seq![Action::Close(token)]
        },
        Event::Readable(token, Ok(bytes)) => if bytes@.len() == 0 {
            &&& after.connections@ == before.connections@.remove(token)
            &&& after.token_counter == before.token_counter
            &&& after.connection_order@ == before.connection_order@
            &&& after.unread_messages == before.unread_messages
            &&& actions == seq![Action::Close(token)]
        } else {
            &&& after.same_registry(&before)
            &&& match frame(bytes@) {
                Err(_) => {
                    &&& after.unread_messages == before.unread_messages
                    &&& actions == Seq::<Action>::empty()
                },
                Ok((to, text)) => if before.connections@.contains_key(to) {
                    &&& after.unread_messages == before.unread_messages
                    &&& actions.len() == 1
                    &&& actions[0] matches Action::Write(recipient, content)
                    &&& recipient == to
                    &&& content@ == text
                } else {
                    &&& actions == Seq::<Action>::empty()
                    &&& exists|message: Message|
                        {
                            &&& #[trigger] takes_in(
                                before.unread_messages,
                                after.unread_messages,
                                message,
                            )
                            &&& message.timestamp == now
                            &&& message.from == token
                            &&& message.to == to
                            &&& message.content@ == text
                        }
                },
            }
        },
        Event::Written(_, Ok(_)) => {
            &&& after.same_registry(&before)
            &&& after.unread_messages == before.unread_messages
            &&& actions == Seq::<Action>::empty()
        },
        Event::Written(to, Err(_)) => {
            &&& after.connections@ == before.connections@.remove(to)
            &&& after.token_counter == before.token_counter
            &&& after.connection_order@ == before.connection_order@
            &&& after.unread_messages == before.unread_messages
            &&& actions == seq![Action::Close(to)]
        },
        Event::Tick => {
            &&& after.same_registry(&before)
            &&& after.unread_messages@ == unexpired(
                before.unread_messages@,
                allowed_age(before.unread_messages.lifetime()),
                now,
            )
            &&& after.unread_messages.capacity() == before.unread_messages.capacity()
            &&& after.unread_messages.lifetime() == before.unread_messages.lifetime()
            &&& after.unread_messages.issued() == before.unread_messages.issued()
            &&& actions == Seq::<Action>::empty()
        },
    }
}

/// The age in milliseconds that a lifetime of `seconds` allows.
pub open spec fn allowed_age(seconds: u32) -> i64 {
    (seconds * 1000) as i64
}

/// One turn of the event loop, at the time `now`.
pub fn react_at(server: &mut Server, event: Event, now: i64) -> (actions: Vec<Action>)
    requires
        old(server).wf(),
    ensures
        final(server).wf(),
        reacts(*old(server), event, now, *final(server), actions@),
{
    let mut actions: Vec<Action> = Vec::new();
    match event {
        Event::Incoming(accepted) => {
            let came = accepted.is_ok();
            match server.accept_connection(accepted) {
                Ok(connection) => {
                    let token = connection.token;
                    let flushed = server.send_unreads(&token);
                    let mut at: usize = 0;
                    while at < flushed.len()
                        invariant
                            at <= flushed.len(),
                            actions@.len() == at,
                            forall|done: int|
                                0 <= done < at ==> #[trigger] actions@[done] == Action::Write(
                                    token,
                                    flushed@[done].content,
                                ),
                        decreases flushed.len() - at,
                    {
                        actions.push(Action::Write(token, flushed[at].content.clone()));
                        at += 1;
                    }
                    actions.push(Action::Register(token));
                },
                Err(_) => {
                    if came {
                        actions.push(Action::Refuse);
                        assert(actions@ == seq![Action::Refuse]);
                    }
                },
            }
        },
        Event::Readable(token, read) => {
            match server.receive(token, read, now) {
                Ok(message) => {
                    match server.direct_send(message) {
                        Ok(delivery) => {
                            actions.push(Action::Write(delivery.to, delivery.content));
                        },
                        Err(_) => {},
                    }
                },
                Err(refused) => {
                    match refused {
                        Receive::ProtocolError(_) => {},
                        Receive::ReceivedZeroBytes(_) => {
                            actions.push(Action::Close(token));
                            assert(actions@ == seq![Action::Close(token)]);
                        },
                        Receive::SocketReadError(_) => {
                            server.remove(token);
                            actions.push(Action::Close(token));
                            assert(actions@ == seq![Action::Close(token)]);
                        },
                    }
                },
            }
        },
        Event::Written(to, written) => {
            match server.delivered(to, written) {
                Ok(_) => {},
                Err(_) => {
                    actions.push(Action::Close(to));
                    assert(actions@ == seq![Action::Close(to)]);
                },
            }
        },
        Event::Tick => {
            let seconds: i64 = server.unread_messages.lifetime() as i64;
            server.unread_messages.expire_at(Some(seconds * 1000), now);
        },
    }
    actions
}

/// One turn of the event loop, at the time that the clock shows.
pub fn react(server: &mut Server, event: Event) -> (actions: Vec<Action>)
    requires
        old(server).wf(),
    ensures
        final(server).wf(),
        exists|now: i64| #[trigger] reacts(*old(server), event, now, *final(server), actions@),
{
    let now = clock_millis();
    let actions = react_at(server, event, now);
    assert(reacts(*old(server), event, now, *final(server), actions@));
    actions
}

/// `actions` registers a socket under `token`.
pub open spec fn registers(actions: Seq<Action>, token: usize) -> bool {
    exists|at: int| 0 <= at < actions.len() && #[trigger] actions[at] == Action::Register(token)
}

/// A turn of the loop never lowers the token counter, and a socket is only
/// registered under the token that the counter showed before the turn,
/// which is not the listener's and which the counter then leaves behind.
pub proof fn lemma_turn_allocates(
    before: Server,
    event: Event,
    now: i64,
    after: Server,
    actions: Seq<Action>,
    token: usize,
)
    requires
        before.wf(),
        reacts(before, event, now, after, actions),
    ensures
        before.token_counter <= after.token_counter,
        registers(actions, token) ==> {
            &&& token == before.token_counter
            &&& token != LISTENER
            &&& after.token_counter == token + 1
            &&& after.connections@.contains_key(token)
        },
{
    if registers(actions, token) {
        let at = choose|at: int|
            0 <= at < actions.len() && #[trigger] actions[at] == Action::Register(token);
        assert(actions[at] == Action::Register(token));
    }
}

/// Tokens are given out in strictly rising order, and so never twice:
/// over any run of turns, a socket registered in a later turn has a greater
/// token than one registered in an earlier turn. `servers` holds the server
/// before the first turn and after each.
pub proof fn lemma_tokens_rise(
    servers: Seq<Server>,
    events: Seq<Event>,
    times: Seq<i64>,
    answers: Seq<Seq<Action>>,
    earlier: int,
    later: int,
    first: usize,
    second: usize,
)
    requires
        servers.len() == events.len() + 1,
        times.len() == events.len(),
        answers.len() == events.len(),
        forall|turn: int| 0 <= turn < servers.len() ==> (#[trigger] servers[turn]).wf(),
        forall|turn: int|
            0 <= turn < events.len() ==> #[trigger] reacts(
                servers[turn],
                events[turn],
                times[turn],
                servers[turn + 1],
                answers[turn],
            ),
        0 <= earlier < later < events.len(),
        registers(answers[earlier], first),
        registers(answers[later], second),
    ensures
        first < second,
{
    lemma_turn_allocates(
        servers[earlier],
        events[earlier],
        times[earlier],
        servers[earlier + 1],
        answers[earlier],
        first,
    );
    lemma_turn_allocates(
        servers[later],
        events[later],
        times[later],
        servers[later + 1],
        answers[later],
        second,
    );
    lemma_counter_rises(servers, events, times, answers, earlier + 1, later);
}

/// The token counter never falls over a run of turns.
pub proof fn lemma_counter_rises(
    servers: Seq<Server>,
    events: Seq<Event>,
    times: Seq<i64>,
    answers: Seq<Seq<Action>>,
    from: int,
    to: int,
)
    requires
        servers.len() == events.len() + 1,
        times.len() == events.len(),
        answers.len() == events.len(),
        forall|turn: int| 0 <= turn < servers.len() ==> (#[trigger] servers[turn]).wf(),
        forall|turn: int|
            0 <= turn < events.len() ==> #[trigger] reacts(
                servers[turn],
                events[turn],
                times[turn],
                servers[turn + 1],
                answers[turn],
            ),
        0 <= from <= to < servers.len(),
    ensures
        servers[from].token_counter <= servers[to].token_counter,
    decreases to - from,
{
    if from < to {
        lemma_counter_rises(servers, events, times, answers, from, to - 1);
        assert(reacts(
            servers[to - 1],
            events[to - 1],
            times[to - 1],
            servers[to - 1 + 1],
            answers[to - 1],
        ));
        lemma_turn_allocates(
            servers[to - 1],
            events[to - 1],
            times[to - 1],
            servers[to],
            answers[to - 1],
            0,
        );
    }
}

} // verus!
