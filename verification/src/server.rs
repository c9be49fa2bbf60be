//! The connection registry and the router. The registry knows which tokens
//! are connected and in what order they came; the sockets stay with the
//! caller, who keeps each under the token that the registry gave it.

use crate::cache::{queue_of, takes_in, UnreadCache};
use crate::codec::{decode, frame, ProtocolError};
use crate::message::{clock_millis, Message};
use std::collections::HashMap;
use vstd::prelude::*;
use vstd::string::*;

verus! {

broadcast use vstd::std_specs::hash::group_hash_axioms;

/// The token of the listening socket. No connection gets it.
pub const LISTENER: usize = 0;

/// The accept call failed, or no token was left for what it gave.
#[derive(Debug)]
pub enum ConnectionError {
    CouldNotAccept(String),
}

/// Why nothing was received from a connection.
#[derive(Debug)]
pub enum Receive {
    /// The read failed.
    SocketReadError(String),
    /// The read gave no byte: the peer has gone.
    ReceivedZeroBytes(String),
    /// What was read is no message.
    ProtocolError(ProtocolError),
}

/// How sending a message ended.
#[derive(Debug)]
pub enum Send {
    MessageSent(String),
    SocketWriteError(String),
    UserOffline(String),
}

/// The readiness that the event loop is to watch a socket for.
#[derive(Debug, Clone, Copy, PartialEq, Eq)]
pub enum Interest {
    Readable,
}

#[derive(Debug, Clone, Copy, PartialEq, Eq)]
pub struct Client {
    pub interest: Interest,
}

#[derive(Debug, Clone, Copy, PartialEq, Eq)]
pub struct Connection {
    pub token: usize,
    pub client: Client,
}

/// Text that is to be written to the socket of `to`.
#[derive(Debug, PartialEq, Eq)]
pub struct Delivery {
    pub to: usize,
    pub content: String,
}

pub struct Server {
    pub connections: HashMap<usize, Connection>,
    pub token_counter: usize,
    pub connection_order: Vec<usize>,
    pub unread_messages: UnreadCache,
}

/// The result that one write of a flush gives.
pub open spec fn write_result(written: Result<usize, String>) -> Result<(), Send> {
    match written {
        Ok(_) => Ok(()),
        Err(why) => Err(Send::SocketWriteError(why)),
    }
}

/// What a server makes of a read from the socket of `token` at `now`:
/// `after` is the server then, `outcome` what it tells the caller.
pub open spec fn receives(
    before: Server,
    token: usize,
    read: Result<Vec<u8>, String>,
    now: i64,
    after: Server,
    outcome: Result<Message, Receive>,
) -> bool {
    &&& after.token_counter == before.token_counter
    &&& after.connection_order@ == before.connection_order@
    &&& after.unread_messages == before.unread_messages
    &&& match read {
        Err(why) => {
            &&& outcome == Err::<Message, Receive>(Receive::SocketReadError(why))
            &&& after.connections@ == before.connections@
        },
        Ok(bytes) => if bytes@.len() == 0 {
            &&& outcome matches Err(Receive::ReceivedZeroBytes(why))
            &&& why@ == "peer disconnected"@
            &&& after.connections@ == before.connections@.remove(token)
        } else {
            &&& after.connections@ == before.connections@
            &&& match frame(bytes@) {
                Ok((to, text)) => {
                    &&& outcome matches Ok(message)
                    &&& message.timestamp == now
                    &&& message.from == token
                    &&& message.to == to
                    &&& message.content@ == text
                },
                Err(error) => outcome == Err::<Message, Receive>(Receive::ProtocolError(error)),
            }
        },
    }
}

impl Client {
    /// A client whose socket is watched for reads.
    pub fn new() -> (client: Client)
        ensures
            client.interest == Interest::Readable,
    {
        Client { interest: Interest::Readable }
    }
}

impl Connection {
    /// The results of a flush, one for each write in the order of the
    /// writes. A write that failed stops none of the others.
    pub fn server_send(&self, written: &Vec<Result<usize, String>>) -> (results: Vec<
        Result<(), Send>,
    >)
        ensures
            results@.len() == written@.len(),
            forall|at: int|
                0 <= at < written@.len() ==> #[trigger] results@[at] == write_result(written@[at]),
    {
        let mut results: Vec<Result<(), Send>> = Vec::new();
        let mut at: usize = 0;
        while at < written.len()
            invariant
                at <= written.len(),
                results@.len() == at,
                forall|done: int|
                    0 <= done < at ==> #[trigger] results@[done] == write_result(written@[done]),
            decreases written.len() - at,
        {
            match &written[at] {
                Ok(_) => results.push(Ok(())),
                Err(why) => results.push(Err(Send::SocketWriteError(why.clone()))),
            }
            at += 1;
        }
        results
    }
}

impl Server {
    /// The server's invariant: its cache is well formed, the listener's
    /// token is not the next to be given out, and every connection is kept
    /// under its own token.
    pub open spec fn wf(&self) -> bool {
        &&& self.unread_messages.wf()
        &&& self.token_counter > LISTENER
        &&& forall|token: usize| #[trigger]
            self.connections@.contains_key(token) ==> self.connections@[token].token == token
    }

    /// `other` has the registry of `self`: the same connections, counter and
    /// order of registration.
    pub open spec fn same_registry(&self, other: &Server) -> bool {
        &&& self.connections@ == other.connections@
        &&& self.token_counter == other.token_counter
        &&& self.connection_order@ == other.connection_order@
    }

    /// A server without connections: the first token is 1, and the cache
    /// holds up to 100 messages for up to 300 seconds.
    pub fn new() -> (server: Server)
        ensures
            server.wf(),
            server.connections@ == Map::<usize, Connection>::empty(),
            server.token_counter == 1,
            server.connection_order@ == Seq::<usize>::empty(),
            server.unread_messages@ == Map::<usize, Seq<Message>>::empty(),
            server.unread_messages.capacity() == 100,
            server.unread_messages.lifetime() == 300,
            server.unread_messages.issued() == 0,
    {
        Server {
            connections: HashMap::new(),
            token_counter: 1,
            connection_order: Vec::new(),
            unread_messages: UnreadCache::new(100, 300),
        }
    }

    /// Registers `connection` under its token, in place of what was there.
    pub fn update(&mut self, connection: Connection)
        requires
            old(self).wf(),
        ensures
            final(self).wf(),
            final(self).connections@ == old(self).connections@.insert(connection.token, connection),
            final(self).token_counter == old(self).token_counter,
            final(self).connection_order@ == old(self).connection_order@,
            final(self).unread_messages == old(self).unread_messages,
    {
        self.connections.insert(connection.token, connection);
    }

    /// Forgets the connection of `token`. The order of registration keeps
    /// the token.
    pub fn remove(&mut self, token: usize)
        requires
            old(self).wf(),
        ensures
            final(self).wf(),
            final(self).connections@ == old(self).connections@.remove(token),
            final(self).token_counter == old(self).token_counter,
            final(self).connection_order@ == old(self).connection_order@,
            final(self).unread_messages == old(self).unread_messages,
    {
        self.connections.remove(&token);
    }

    /// Takes in what the listener's accept call gave: a connection gets the
    /// next token, joins the order of registration and is registered. Where
    /// the call failed, or every token has been given out, nothing changes.
    pub fn accept_connection(&mut self, accepted: Result<(), String>) -> (outcome: Result<
        Connection,
        ConnectionError,
    >)
        requires
            old(self).wf(),
        ensures
            final(self).wf(),
            final(self).unread_messages == old(self).unread_messages,
            match accepted {
                Err(why) => {
                    &&& outcome == Err::<Connection, ConnectionError>(
                        ConnectionError::CouldNotAccept(why),
                    )
                    &&& final(self).same_registry(old(self))
                },
                Ok(_) => if old(self).token_counter < usize::MAX {
                    let token = old(self).token_counter;
                    let connection = Connection {
                        token,
                        client: Client { interest: Interest::Readable },
                    };
                    &&& outcome == Ok::<Connection, ConnectionError>(connection)
                    &&& final(self).token_counter == token + 1
                    &&& final(self).connection_order@ == old(self).connection_order@.push(token)
                    &&& final(self).connections@ == old(self).connections@.insert(
                        token,
                        connection,
                    )
                } else {
                    &&& outcome matches Err(ConnectionError::CouldNotAccept(why))
                    &&& why@ == "no token is left"@
                    &&& final(self).same_registry(old(self))
                },
            },
    {
        match accepted {
            Err(why) => Err(ConnectionError::CouldNotAccept(why)),
            Ok(_) => {
                if self.token_counter == usize::MAX {
                    return Err(
                        ConnectionError::CouldNotAccept(String::from_str("no token is left")),
                    );
                }
                let token = self.token_counter;
                let connection = Connection { token, client: Client::new() };
                self.token_counter = self.token_counter + 1;
                self.connection_order.push(token);
                self.connections.insert(token, connection);
                Ok(connection)
            },
        }
    }

    /// The connection that was registered last, if it still is.
    pub fn last_connection(&self) -> (last: Option<&Connection>)
        ensures
            match last {
                Some(connection) => {
                    &&& self.connection_order@.len() > 0
                    &&& self.connections@.contains_key(self.connection_order@.last())
                    &&& *connection == self.connections@[self.connection_order@.last()]
                },
                None => self.connection_order@.len() == 0 || !self.connections@.contains_key(
                    self.connection_order@.last(),
                ),
            },
    {
        let registered = self.connection_order.len();
        if registered == 0 {
            return None;
        }
        self.connections.get(&self.connection_order[registered - 1])
    }

    /// The message that `bytes` hold, as `from` sent it at `now`.
    fn generate_message(from: usize, bytes: &Vec<u8>, now: i64) -> (made: Result<
        Message,
        ProtocolError,
    >)
        ensures
            match made {
                Ok(message) => {
                    &&& frame(bytes@) == Ok::<(usize, Seq<char>), ProtocolError>(
                        (message.to, message.content@),
                    )
                    &&& message.from == from
                    &&& message.timestamp == now
                },
                Err(error) => frame(bytes@) == Err::<(usize, Seq<char>), ProtocolError>(error),
            },
    {
        match decode(bytes) {
            Ok(found) => Ok(Message::stamped(now, from, found.to, found.content)),
            Err(error) => Err(error),
        }
    }

    /// Takes in what a read from the socket of `token` gave at `now`. A
    /// read of no byte means that the peer has gone: its connection is
    /// forgotten. Bytes are decoded into a message from `token`. A read
    /// that failed changes nothing.
    pub fn receive(&mut self, token: usize, read: Result<Vec<u8>, String>, now: i64) -> (outcome:
        Result<Message, Receive>)
        requires
            old(self).wf(),
        ensures
            final(self).wf(),
            receives(*old(self), token, read, now, *final(self), outcome),
    {
        match read {
            Err(why) => Err(Receive::SocketReadError(why)),
            Ok(bytes) => {
                if bytes.len() == 0 {
                    self.connections.remove(&token);
                    return Err(Receive::ReceivedZeroBytes(String::from_str("peer disconnected")));
                }
                match Self::generate_message(token, &bytes, now) {
                    Ok(message) => Ok(message),
                    Err(error) => Err(Receive::ProtocolError(error)),
                }
            },
        }
    }

    /// Takes in what a read from the socket of `token` gave, as `receive`
    /// does at the time that the clock shows.
    pub fn read_from(&mut self, token: usize, read: Result<Vec<u8>, String>) -> (outcome: Result<
        Message,
        Receive,
    >)
        requires
            old(self).wf(),
        ensures
            final(self).wf(),
            exists|now: i64| #[trigger] receives(*old(self), token, read, now, *final(self), outcome),
    {
        let now = clock_millis();
        let outcome = self.receive(token, read, now);
        assert(receives(*old(self), token, read, now, *final(self), outcome));
        outcome
    }

    /// Routes `message`. For a recipient that is connected the answer is the
    /// text to write to its socket, and the cache stays as it is. For one
    /// that is not, the cache takes the message in.
    pub fn direct_send(&mut self, message: Message) -> (outcome: Result<Delivery, Send>)
        requires
            old(self).wf(),
        ensures
            final(self).wf(),
            final(self).same_registry(old(self)),
            old(self).connections@.contains_key(message.to) ==> {
                &&& outcome == Ok::<Delivery, Send>(
                    Delivery { to: message.to, content: message.content },
                )
                &&& final(self).unread_messages == old(self).unread_messages
            },
            !old(self).connections@.contains_key(message.to) ==> {
                &&& outcome matches Err(Send::UserOffline(why))
                &&& why@ == "recipient is offline"@
                &&& takes_in(old(self).unread_messages, final(self).unread_messages, message)
            },
    {
        if self.connections.contains_key(&message.to) {
            Ok(Delivery { to: message.to, content: message.content })
        } else {
            self.unread_messages.insert(message);
            Err(Send::UserOffline(String::from_str("recipient is offline")))
        }
    }

    /// Takes in how the write of a delivery to `to` ended. A write that
    /// failed costs `to` its connection, and no other.
    pub fn delivered(&mut self, to: usize, written: Result<usize, String>) -> (outcome: Result<
        Send,
        Send,
    >)
        requires
            old(self).wf(),
        ensures
            final(self).wf(),
            final(self).token_counter == old(self).token_counter,
            final(self).connection_order@ == old(self).connection_order@,
            final(self).unread_messages == old(self).unread_messages,
            match written {
                Ok(_) => {
                    &&& outcome matches Ok(Send::MessageSent(note))
                    &&& note@ == "message sent"@
                    &&& final(self).connections@ == old(self).connections@
                },
                Err(why) => {
                    &&& outcome == Err::<Send, Send>(Send::SocketWriteError(why))
                    &&& final(self).connections@ == old(self).connections@.remove(to)
                },
            },
    {
        match written {
            Ok(_) => Ok(Send::MessageSent(String::from_str("message sent"))),
            Err(why) => {
                self.connections.remove(&to);
                Err(Send::SocketWriteError(why))
            },
        }
    }

    /// The messages that wait for `token`, in the order in which they came.
    pub fn unread_messages(&self, token: &usize) -> (queue: Option<&Vec<Message>>)
        ensures
            match queue {
                Some(messages) => self.unread_messages@.contains_key(*token) && messages@
                    == self.unread_messages@[*token],
                None => !self.unread_messages@.contains_key(*token),
            },
    {
        self.unread_messages.extract(token)
    }

    /// Flushes the queue of `token`: the messages that waited for it come
    /// back in the order in which they came, to be written to its socket,
    /// and the cache forgets them.
    pub fn send_unreads(&mut self, token: &usize) -> (flushed: Vec<Message>)
        requires
            old(self).wf(),
        ensures
            final(self).wf(),
            final(self).same_registry(old(self)),
            flushed@ == queue_of(old(self).unread_messages@, *token),
            final(self).unread_messages@ == old(self).unread_messages@.remove(*token),
            !final(self).unread_messages@.contains_key(*token),
            final(self).unread_messages.len() == old(self).unread_messages.len() - flushed@.len(),
            final(self).unread_messages.capacity() == old(self).unread_messages.capacity(),
            final(self).unread_messages.lifetime() == old(self).unread_messages.lifetime(),
            final(self).unread_messages.issued() == old(self).unread_messages.issued(),
    {
        let mut flushed: Vec<Message> = Vec::new();
        match self.unread_messages.extract(token) {
            Some(queue) => {
                let mut at: usize = 0;
                while at < queue.len()
                    invariant
                        at <= queue.len(),
                        flushed@ == queue@.take(at as int),
                    decreases queue.len() - at,
                {
                    flushed.push(queue[at].clone());
                    assert(flushed@ == queue@.take(at + 1));
                    at += 1;
                }
                assert(queue@.take(at as int) == queue@);
            },
            None => {},
        }
        self.unread_messages.remove(token);
        flushed
    }
}

} // verus!
