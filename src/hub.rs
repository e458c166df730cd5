//! The connection registry: identifiers, per-connection mailboxes, and the fan-out of
//! updates to every other authenticated connection.
use vstd::prelude::*;
use crate::keyed::pairs_view;
use crate::protocol::{
    Phase, ProtocolError, decimal, decimal_text, Session, Step, asks_to_close, closes_connection, duplicate_handshake,
    is_welcome, rejection, step, valid_name, terminate_directive, terminate_message, update_envelope,
    update_message,
};
use crate::table::{SharedTable, merged};
use crate::text::{append, string_of};
use crate::value::{Data, Tagged, copy_entries, copy_of, text_field};
use crate::keyed::lemma_pairs_map_last;

verus! {

/// The views of a list of messages.
pub open spec fn messages(v: Seq<Data>) -> Seq<Tagged> {
    Seq::new(v.len(), |i: int| v[i]@)
}

/// The index of the first message that asks to close, or the length if none does.
pub open spec fn first_close(s: Seq<Tagged>) -> int
    decreases s.len(),
{
    if s.len() == 0 {
        0
    } else if asks_to_close(s[0]) {
        0
    } else {
        1 + first_close(s.drop_first())
    }
}

pub proof fn lemma_first_close(s: Seq<Tagged>)
    ensures
        0 <= first_close(s) <= s.len(),
        forall|k: int| 0 <= k < first_close(s) ==> !asks_to_close(#[trigger] s[k]),
        first_close(s) < s.len() ==> asks_to_close(s[first_close(s)]),
    decreases s.len(),
{
    if s.len() > 0 && !asks_to_close(s[0]) {
        lemma_first_close(s.drop_first());
        assert forall|k: int| 0 <= k < first_close(s) implies !asks_to_close(#[trigger] s[k]) by {
            if k > 0 {
                assert(s[k] == s.drop_first()[k - 1]);
            }
        }
    }
}

/// How the console lists a connection with display name `name` and identifier `id`.
pub open spec fn label(name: Seq<char>, id: nat) -> Seq<char> {
    if name.len() == 0 {
        "Connection ("@ + decimal(id) + ")"@
    } else {
        name + " (id: "@ + decimal(id) + ")"@
    }
}

/// One registered connection: its handshake state and its mailbox, the messages
/// waiting to be written to its socket.
pub struct Connection {
    pub session: Session,
    pub outbox: Vec<Data>,
}

/// The messages to write now, and whether to close the socket after them.
pub struct Drained {
    pub messages: Vec<Data>,
    pub close: bool,
}

impl Connection {
    /// A connection with identifier `id`, not yet authenticated, with an empty mailbox.
    pub fn new(id: u64) -> (r: Connection)
        ensures
            r.session.id == id,
            r.session.name@ == Seq::<char>::empty(),
            r.session.phase == Phase::Unauthenticated,
            r.outbox@.len() == 0,
    {
        Connection { session: Session::new(id), outbox: Vec::new() }
    }

    /// The display name; empty until the handshake succeeds.
    pub fn get_name(&self) -> (r: String)
        ensures
            r@ == self.session.name@,
    {
        self.session.name.clone()
    }

    /// How the console lists this connection: `name (id: N)`, or `Connection (N)` before
    /// the handshake.
    pub fn display(&self) -> (r: String)
        ensures
            r@ == label(self.session.name@, self.session.id as nat),
    {
        let mut out: Vec<char> = Vec::new();
        let id = decimal_text(self.session.id);
        if self.session.name.as_str().is_empty() {
            append(&mut out, "Connection (");
            append(&mut out, id.as_str());
            append(&mut out, ")");
        } else {
            append(&mut out, self.session.name.as_str());
            append(&mut out, " (id: ");
            append(&mut out, id.as_str());
            append(&mut out, ")");
        }
        assert(out@ =~= label(self.session.name@, self.session.id as nat));
        string_of(&out)
    }

    /// Queues a message for this connection's socket.
    pub fn send(&mut self, msg: Data)
        ensures
            final(self).session == old(self).session,
            messages(final(self).outbox@) == messages(old(self).outbox@).push(msg@),
    {
        let ghost before = self.outbox@;
        self.outbox.push(msg);
        assert(messages(self.outbox@) =~= messages(before).push(msg@));
    }

    /// Queues the directive that closes this connection once it is written.
    pub fn terminate(&mut self)
        ensures
            final(self).session == old(self).session,
            messages(final(self).outbox@) == messages(old(self).outbox@).push(terminate_directive()),
    {
        self.send(terminate_message());
    }

    /// Takes the messages to write now: those of the mailbox up to and including the
    /// first that asks to close, or all of them if none does.
    pub fn drain(&mut self) -> (r: Drained)
        ensures
            final(self).session == old(self).session,
            ({
                let s = messages(old(self).outbox@);
                let k = first_close(s);
                &&& r.close == (k < s.len())
                &&& r.close ==> messages(r.messages@) == s.subrange(0, k + 1)
                    && messages(final(self).outbox@) == s.subrange(k + 1, s.len() as int)
                &&& !r.close ==> messages(r.messages@) == s && final(self).outbox@.len() == 0
            }),
    {
        let ghost s = messages(self.outbox@);
        proof {
            lemma_first_close(s);
        }
        let mut taken: Vec<Data> = Vec::new();
        let mut rest: Vec<Data> = Vec::new();
        std::mem::swap(&mut rest, &mut self.outbox);
        // copy messages out from the front of the mailbox up to the first closing one
        let mut i: usize = 0;
        let mut close = false;
        let n = rest.len();
        while i < n && !close
            invariant
                n == rest@.len(),
                messages(rest@) == s,
                i <= n,
                close ==> i == first_close(s) + 1 && messages(taken@) == s.subrange(0, i as int),
                !close ==> i <= first_close(s) && messages(taken@) == s.subrange(0, i as int),
                0 <= first_close(s) <= s.len(),
                forall|k: int| 0 <= k < first_close(s) ==> !asks_to_close(#[trigger] s[k]),
                first_close(s) < s.len() ==> asks_to_close(s[first_close(s)]),
            decreases n - i,
        {
            let m = copy_of(&rest[i]);
            let c = closes_connection(&m);
            let ghost before = taken@;
            taken.push(m);
            assert(messages(taken@) =~= s.subrange(0, i + 1 as int)) by {
                assert(messages(taken@) =~= messages(before).push(s[i as int]));
            }
            i = i + 1;
            if c {
                close = true;
            }
        }
        // what follows stays queued
        let mut kept: Vec<Data> = Vec::new();
        let mut j: usize = i;
        assert(messages(kept@) =~= s.subrange(i as int, i as int));
        while j < n
            invariant
                n == rest@.len(),
                messages(rest@) == s,
                i <= j <= n,
                messages(kept@) == s.subrange(i as int, j as int),
            decreases n - j,
        {
            let m = copy_of(&rest[j]);
            let ghost before = kept@;
            kept.push(m);
            assert(messages(kept@) =~= s.subrange(i as int, j + 1 as int)) by {
                assert(messages(kept@) =~= messages(before).push(s[j as int]));
            }
            j = j + 1;
        }
        self.outbox = kept;
        assert(!close ==> first_close(s) == s.len());
        Drained { messages: taken, close }
    }
}

/// The server's shared state: the table, the registered connections and the next
/// identifier to hand out.
pub struct Hub {
    table: SharedTable,
    conns: Vec<Connection>,
    next_id: u64,
}

/// Whether `c` is authenticated.
pub open spec fn authenticated(c: Connection) -> bool {
    c.session.phase == Phase::Authenticated
}

/// What message `m` from connection `i` does to the connections `c0` and the table
/// `t0`, giving `c1`, `t1`, and the error `r`. The sender's mailbox gets the response, if
/// any; an update goes, as one `update` envelope each, to every other authenticated
/// connection, and to no one else.
pub open spec fn received(
    c0: Seq<Connection>,
    t0: Map<Seq<char>, Tagged>,
    i: int,
    m: Tagged,
    c1: Seq<Connection>,
    t1: Map<Seq<char>, Tagged>,
    r: Option<ProtocolError>,
) -> bool {
    let s0 = c0[i].session;
    let s1 = c1[i].session;
    let out0 = messages(c0[i].outbox@);
    let out1 = messages(c1[i].outbox@);
    &&& c1.len() == c0.len()
    &&& s1.id == s0.id
    &&& forall|j: int| 0 <= j < c0.len() && j != i ==> (#[trigger] c1[j]).session == c0[j].session
    &&& match step(s0.phase, m) {
        Step::Ignore(e) => {
            &&& r == Some(e)
            &&& s1.phase == s0.phase && s1.name@ == s0.name@
            &&& out1 == out0
            &&& t1 == t0
            &&& forall|j: int| 0 <= j < c0.len() ==> messages((#[trigger] c1[j]).outbox@) == messages(c0[j].outbox@)
        },
        Step::Duplicate => {
            &&& r == Some(ProtocolError::AlreadyAuthenticated)
            &&& s1.phase == s0.phase && s1.name@ == s0.name@
            &&& out1 == out0.push(duplicate_handshake())
            &&& t1 == t0
            &&& forall|j: int| 0 <= j < c0.len() && j != i ==> messages((#[trigger] c1[j]).outbox@) == messages(c0[j].outbox@)
        },
        Step::Welcome(n) => {
            &&& r is None
            &&& s1.phase == Phase::Authenticated && s1.name@ == n
            &&& out1.len() == out0.len() + 1 && out1.drop_last() == out0
            &&& is_welcome(out1.last(), s0.id as nat, t0)
            &&& t1 == t0
            &&& forall|j: int| 0 <= j < c0.len() && j != i ==> messages((#[trigger] c1[j]).outbox@) == messages(c0[j].outbox@)
        },
        Step::Reject => {
            &&& r == Some(ProtocolError::InvalidName)
            &&& s1.phase == Phase::Rejected && s1.name@ == s0.name@
            &&& out1 == out0.push(rejection())
            &&& t1 == t0
            &&& forall|j: int| 0 <= j < c0.len() && j != i ==> messages((#[trigger] c1[j]).outbox@) == messages(c0[j].outbox@)
        },
        Step::Merge(es) => {
            &&& r is None
            &&& s1.phase == s0.phase && s1.name@ == s0.name@
            &&& out1 == out0
            &&& t1 == merged(t0, es)
            &&& forall|j: int| 0 <= j < c0.len() && j != i ==> messages((#[trigger] c1[j]).outbox@) == if authenticated(c0[j]) {
                messages(c0[j].outbox@).push(update_envelope(es))
            } else {
                messages(c0[j].outbox@)
            }
        },
    }
}

impl Hub {
    /// The registered connections, in order of registration.
    pub closed spec fn connections(&self) -> Seq<Connection> {
        self.conns@
    }

    /// The shared table.
    pub closed spec fn table(&self) -> Map<Seq<char>, Tagged> {
        self.table@
    }

    /// The identifier that the next accepted connection gets.
    pub closed spec fn next_id(&self) -> nat {
        self.next_id as nat
    }

    /// Every registered identifier is below the next one, and no two are equal.
    pub closed spec fn wf(&self) -> bool {
        &&& self.table.wf()
        &&& forall|j: int| 0 <= j < self.conns@.len() ==> (#[trigger] self.conns@[j]).session.id < self.next_id
        &&& forall|j: int, k: int| 0 <= j < k < self.conns@.len() ==> (#[trigger] self.conns@[j]).session.id != (#[trigger] self.conns@[k]).session.id
    }

    /// An empty table and no connections.
    pub fn new() -> (r: Hub)
        ensures
            r.wf(),
            r.connections().len() == 0,
            r.table() == Map::<Seq<char>, Tagged>::empty(),
            r.next_id() == 0,
    {
        Hub { table: SharedTable::new(), conns: Vec::new(), next_id: 0 }
    }

    /// Registers a new connection under a fresh identifier, larger than every one handed
    /// out before; `None` once identifiers are exhausted.
    pub fn accept(&mut self) -> (r: Option<u64>)
        requires
            old(self).wf(),
        ensures
            final(self).wf(),
            final(self).table() == old(self).table(),
            r is None ==> old(self).next_id() == u64::MAX && final(self).connections() == old(self).connections()
                && final(self).next_id() == old(self).next_id(),
            r matches Some(id) ==> {
                &&& id == old(self).next_id()
                &&& final(self).next_id() == id + 1
                &&& final(self).connections().len() == old(self).connections().len() + 1
                &&& final(self).connections().drop_last() == old(self).connections()
                &&& final(self).connections().last().session.id == id
                &&& final(self).connections().last().session.phase == Phase::Unauthenticated
                &&& final(self).connections().last().session.name@ == Seq::<char>::empty()
                &&& final(self).connections().last().outbox@.len() == 0
            },
    {
        if self.next_id == u64::MAX {
            return None;
        }
        let id = self.next_id;
        self.conns.push(Connection::new(id));
        self.next_id = id + 1;
        assert(self.conns@.drop_last() =~= old(self).conns@);
        Some(id)
    }

    /// The position of the connection with identifier `id`.
    fn position(&self, id: u64) -> (r: Option<usize>)
        requires
            self.wf(),
        ensures
            r matches Some(i) ==> i < self.conns@.len() && self.conns@[i as int].session.id == id,
            r is None ==> forall|j: int| 0 <= j < self.conns@.len() ==> (#[trigger] self.conns@[j]).session.id != id,
    {
        let mut i: usize = 0;
        while i < self.conns.len()
            invariant
                i <= self.conns@.len(),
                forall|j: int| 0 <= j < i ==> (#[trigger] self.conns@[j]).session.id != id,
            decreases self.conns@.len() - i,
        {
            if self.conns[i].session.id == id {
                return Some(i);
            }
            i = i + 1;
        }
        None
    }

    /// Handles one message from connection `id`: runs the protocol against the table,
    /// queues the response to the sender, and fans an applied update out to every other
    /// authenticated connection. A message for an identifier that is not registered is
    /// refused as `Closed`.
    pub fn receive(&mut self, id: u64, msg: &Data) -> (r: Option<ProtocolError>)
        requires
            old(self).wf(),
        ensures
            final(self).wf(),
            final(self).next_id() == old(self).next_id(),
            !old(self).registered(id) ==> r == Some(ProtocolError::Closed) && final(self).connections()
                == old(self).connections() && final(self).table() == old(self).table(),
            forall|i: int| 0 <= i < old(self).connections().len() && (#[trigger] old(self).connections()[i]).session.id == id
                ==> received(
                old(self).connections(),
                old(self).table(),
                i,
                msg@,
                final(self).connections(),
                final(self).table(),
                r,
            ),
    {
        let i = match self.position(id) {
            None => return Some(ProtocolError::Closed),
            Some(i) => i,
        };
        let ghost c0 = self.conns@;
        let ghost t0 = self.table@;
        let mut session = Session {
            id: self.conns[i].session.id,
            name: self.conns[i].session.name.clone(),
            phase: self.conns[i].session.phase,
        };
        let ghost s0 = session;
        let o = session.handle(msg, &mut self.table);
        assert(s0 == c0[i as int].session);
        let mut conn = Connection { session: Session::new(0), outbox: Vec::new() };
        std::mem::swap(&mut conn, &mut self.conns[i]);
        conn.session = session;
        let ghost out0 = messages(conn.outbox@);
        let reply = o.reply;
        match reply {
            Some(x) => conn.outbox.push(x),
            None => {},
        }
        assert(messages(conn.outbox@) =~= match reply {
            Some(x) => out0.push(x@),
            None => out0,
        });
        self.conns.set(i, conn);
        let delta = o.delta;
        match delta {
            Some(d) => self.fan_out(i, &d),
            None => {},
        }
        proof {
            assert forall|j: int, k: int| 0 <= j < k < self.conns@.len() implies (#[trigger] self.conns@[j]).session.id
                != (#[trigger] self.conns@[k]).session.id by {
                assert(c0[j].session.id != c0[k].session.id);
            }
            assert forall|ii: int| 0 <= ii < c0.len() && (#[trigger] c0[ii]).session.id == id implies received(
                c0,
                t0,
                ii,
                msg@,
                self.conns@,
                self.table@,
                o.error,
            ) by {
                assert(ii == i as int);
                if reply is Some {
                    assert(messages(self.conns@[ii].outbox@).drop_last() =~= messages(c0[ii].outbox@));
                }
            }
        }
        o.error
    }

    /// Queues the `update` envelope for `delta` to every authenticated connection but the
    /// one at position `from`.
    fn fan_out(&mut self, from: usize, delta: &Vec<(String, Data)>)
        requires
            from < old(self).conns@.len(),
        ensures
            final(self).table == old(self).table,
            final(self).next_id == old(self).next_id,
            final(self).conns@.len() == old(self).conns@.len(),
            final(self).conns@[from as int] == old(self).conns@[from as int],
            forall|j: int| 0 <= j < old(self).conns@.len() ==> (#[trigger] final(self).conns@[j]).session == old(self).conns@[j].session,
            forall|j: int| 0 <= j < old(self).conns@.len() && j != from ==> messages((#[trigger] final(self).conns@[j]).outbox@) == if authenticated(old(self).conns@[j]) {
                messages(old(self).conns@[j].outbox@).push(update_envelope(pairs_view(delta@)))
            } else {
                messages(old(self).conns@[j].outbox@)
            },
    {
        let ghost c0 = self.conns@;
        let mut j: usize = 0;
        while j < self.conns.len()
            invariant
                from < c0.len(),
                self.conns@.len() == c0.len(),
                self.table == old(self).table,
                self.next_id == old(self).next_id,
                c0 == old(self).conns@,
                j <= c0.len(),
                self.conns@[from as int] == c0[from as int],
                forall|k: int| 0 <= k < c0.len() ==> (#[trigger] self.conns@[k]).session == c0[k].session,
                forall|k: int| j <= k < c0.len() ==> #[trigger] self.conns@[k] == c0[k],
                forall|k: int| 0 <= k < j && k != from ==> messages((#[trigger] self.conns@[k]).outbox@) == if authenticated(c0[k]) {
                    messages(c0[k].outbox@).push(update_envelope(pairs_view(delta@)))
                } else {
                    messages(c0[k].outbox@)
                },
            decreases c0.len() - j,
        {
            if j != from && self.conns[j].session.phase == Phase::Authenticated {
                let envelope = update_message(copy_entries(delta));
                let mut conn = Connection { session: Session::new(0), outbox: Vec::new() };
                std::mem::swap(&mut conn, &mut self.conns[j]);
                conn.send(envelope);
                self.conns.set(j, conn);
            }
            j = j + 1;
        }
    }

    /// Queues `msg` to connection `id`; false if no such connection is registered.
    pub fn send(&mut self, id: u64, msg: Data) -> (r: bool)
        requires
            old(self).wf(),
        ensures
            final(self).wf(),
            final(self).table() == old(self).table(),
            final(self).next_id() == old(self).next_id(),
            r == old(self).registered(id),
            final(self).connections().len() == old(self).connections().len(),
            forall|j: int| 0 <= j < old(self).connections().len() ==> (#[trigger] final(self).connections()[j]).session == old(self).connections()[j].session,
            forall|j: int| 0 <= j < old(self).connections().len() ==> messages((#[trigger] final(self).connections()[j]).outbox@) == if old(self).connections()[j].session.id == id {
                messages(old(self).connections()[j].outbox@).push(msg@)
            } else {
                messages(old(self).connections()[j].outbox@)
            },
    {
        match self.position(id) {
            None => {
                assert(!old(self).registered(id));
                false
            },
            Some(i) => {
                let ghost c0 = self.conns@;
                let mut conn = Connection { session: Session::new(0), outbox: Vec::new() };
                std::mem::swap(&mut conn, &mut self.conns[i]);
                conn.send(msg);
                self.conns.set(i, conn);
                proof {
                    assert forall|j: int, k: int| 0 <= j < k < self.conns@.len() implies (#[trigger] self.conns@[j]).session.id
                        != (#[trigger] self.conns@[k]).session.id by {
                        assert(c0[j].session.id != c0[k].session.id);
                    }
                    assert forall|j: int| 0 <= j < c0.len() && j != i implies (#[trigger] c0[j]).session.id != id by {
                        if j < i {
                            assert(c0[j].session.id != c0[i as int].session.id);
                        } else {
                            assert(c0[i as int].session.id != c0[j].session.id);
                        }
                    }
                }
                true
            },
        }
    }

    /// Queues the directive that closes connection `id` once it is written; false if no
    /// such connection is registered.
    pub fn terminate(&mut self, id: u64) -> (r: bool)
        requires
            old(self).wf(),
        ensures
            final(self).wf(),
            final(self).table() == old(self).table(),
            final(self).next_id() == old(self).next_id(),
            r == old(self).registered(id),
            final(self).connections().len() == old(self).connections().len(),
            forall|j: int| 0 <= j < old(self).connections().len() ==> (#[trigger] final(self).connections()[j]).session == old(self).connections()[j].session,
            forall|j: int| 0 <= j < old(self).connections().len() ==> messages((#[trigger] final(self).connections()[j]).outbox@) == if old(self).connections()[j].session.id == id {
                messages(old(self).connections()[j].outbox@).push(terminate_directive())
            } else {
                messages(old(self).connections()[j].outbox@)
            },
    {
        self.send(id, terminate_message())
    }

    /// Queues a copy of `msg` to every registered connection.
    pub fn broadcast(&mut self, msg: &Data)
        requires
            old(self).wf(),
        ensures
            final(self).wf(),
            final(self).table() == old(self).table(),
            final(self).next_id() == old(self).next_id(),
            final(self).connections().len() == old(self).connections().len(),
            forall|j: int| 0 <= j < old(self).connections().len() ==> (#[trigger] final(self).connections()[j]).session == old(self).connections()[j].session,
            forall|j: int| 0 <= j < old(self).connections().len() ==> messages((#[trigger] final(self).connections()[j]).outbox@)
                == messages(old(self).connections()[j].outbox@).push(msg@),
    {
        let ghost c0 = self.conns@;
        let mut j: usize = 0;
        while j < self.conns.len()
            invariant
                self.conns@.len() == c0.len(),
                self.table == old(self).table,
                self.next_id == old(self).next_id,
                c0 == old(self).conns@,
                j <= c0.len(),
                forall|k: int| 0 <= k < c0.len() ==> (#[trigger] self.conns@[k]).session == c0[k].session,
                forall|k: int| j <= k < c0.len() ==> #[trigger] self.conns@[k] == c0[k],
                forall|k: int| 0 <= k < j ==> messages((#[trigger] self.conns@[k]).outbox@) == messages(c0[k].outbox@).push(msg@),
            decreases c0.len() - j,
        {
            let mut conn = Connection { session: Session::new(0), outbox: Vec::new() };
            std::mem::swap(&mut conn, &mut self.conns[j]);
            conn.send(copy_of(msg));
            self.conns.set(j, conn);
            j = j + 1;
        }
        proof {
            assert forall|j: int, k: int| 0 <= j < k < self.conns@.len() implies (#[trigger] self.conns@[j]).session.id
                != (#[trigger] self.conns@[k]).session.id by {
                assert(c0[j].session.id != c0[k].session.id);
            }
        }
    }

    /// Takes from connection `id`'s mailbox the messages to write now (see
    /// [`Connection::drain`]); `None` if no such connection is registered. The other
    /// mailboxes are untouched, so each connection drains at its own pace.
    pub fn drain(&mut self, id: u64) -> (r: Option<Drained>)
        requires
            old(self).wf(),
        ensures
            final(self).wf(),
            final(self).table() == old(self).table(),
            final(self).next_id() == old(self).next_id(),
            r is Some == old(self).registered(id),
            final(self).connections().len() == old(self).connections().len(),
            forall|j: int| 0 <= j < old(self).connections().len() ==> (#[trigger] final(self).connections()[j]).session == old(self).connections()[j].session,
            forall|j: int| 0 <= j < old(self).connections().len() && old(self).connections()[j].session.id != id ==> messages((#[trigger] final(self).connections()[j]).outbox@)
                == messages(old(self).connections()[j].outbox@),
            forall|j: int| 0 <= j < old(self).connections().len() && (#[trigger] old(self).connections()[j]).session.id == id ==> ({
                let s = messages(old(self).connections()[j].outbox@);
                let k = first_close(s);
                let d = r->0;
                &&& d.close == (k < s.len())
                &&& d.close ==> messages(d.messages@) == s.subrange(0, k + 1)
                    && messages(final(self).connections()[j].outbox@) == s.subrange(k + 1, s.len() as int)
                &&& !d.close ==> messages(d.messages@) == s && final(self).connections()[j].outbox@.len() == 0
            }),
    {
        match self.position(id) {
            None => {
                assert(!old(self).registered(id));
                None
            },
            Some(i) => {
                let ghost c0 = self.conns@;
                let mut conn = Connection { session: Session::new(0), outbox: Vec::new() };
                std::mem::swap(&mut conn, &mut self.conns[i]);
                let d = conn.drain();
                self.conns.set(i, conn);
                proof {
                    assert forall|j: int, k: int| 0 <= j < k < self.conns@.len() implies (#[trigger] self.conns@[j]).session.id
                        != (#[trigger] self.conns@[k]).session.id by {
                        assert(c0[j].session.id != c0[k].session.id);
                    }
                    assert forall|j: int| 0 <= j < c0.len() && j != i implies (#[trigger] c0[j]).session.id != id by {
                        if j < i {
                            assert(c0[j].session.id != c0[i as int].session.id);
                        } else {
                            assert(c0[i as int].session.id != c0[j].session.id);
                        }
                    }
                }
                Some(d)
            },
        }
    }

    /// Deregisters connection `id`; false if no such connection was registered. Its
    /// identifier is not handed out again.
    pub fn remove(&mut self, id: u64) -> (r: bool)
        requires
            old(self).wf(),
        ensures
            final(self).wf(),
            final(self).table() == old(self).table(),
            final(self).next_id() == old(self).next_id(),
            r == old(self).registered(id),
            !final(self).registered(id),
            r ==> final(self).connections().len() == old(self).connections().len() - 1,
            !r ==> final(self).connections() == old(self).connections(),
            forall|j: int| 0 <= j < old(self).connections().len() && (#[trigger] old(self).connections()[j]).session.id != id
                ==> final(self).connections().contains(old(self).connections()[j]),
    {
        match self.position(id) {
            None => {
                assert(!old(self).registered(id));
                false
            },
            Some(i) => {
                let ghost c0 = self.conns@;
                let _gone = self.conns.remove(i);
                proof {
                    assert forall|j: int| 0 <= j < c0.len() && j != i implies (#[trigger] c0[j]).session.id != id by {
                        if j < i {
                            assert(c0[j].session.id != c0[i as int].session.id);
                        } else {
                            assert(c0[i as int].session.id != c0[j].session.id);
                        }
                    }
                    assert forall|j: int| 0 <= j < c0.len() && (#[trigger] c0[j]).session.id != id implies self.conns@.contains(c0[j]) by {
                        if j < i {
                            assert(self.conns@[j] == c0[j]);
                        } else {
                            assert(self.conns@[j - 1] == c0[j]);
                        }
                    }
                    assert forall|j: int| 0 <= j < self.conns@.len() implies (#[trigger] self.conns@[j]).session.id != id by {
                        if j < i {
                            assert(self.conns@[j] == c0[j]);
                        } else {
                            assert(self.conns@[j] == c0[j + 1]);
                        }
                    }
                    assert forall|j: int, k: int| 0 <= j < k < self.conns@.len() implies (#[trigger] self.conns@[j]).session.id
                        != (#[trigger] self.conns@[k]).session.id by {
                        let jj = if j < i { j } else { j + 1 };
                        let kk = if k < i { k } else { k + 1 };
                        assert(self.conns@[j] == c0[jj]);
                        assert(self.conns@[k] == c0[kk]);
                        assert(c0[jj].session.id != c0[kk].session.id);
                    }
                    assert forall|j: int| 0 <= j < self.conns@.len() implies (#[trigger] self.conns@[j]).session.id < self.next_id by {
                        if j < i {
                            assert(self.conns@[j] == c0[j]);
                        } else {
                            assert(self.conns@[j] == c0[j + 1]);
                        }
                    }
                }
                true
            },
        }
    }

    /// A copy of the shared table's entries.
    pub fn table_snapshot(&self) -> (r: Vec<(String, Data)>)
        requires
            self.wf(),
        ensures
            crate::keyed::keys_unique(pairs_view(r@)),
            crate::keyed::pairs_map(pairs_view(r@)) == self.table(),
    {
        self.table.snapshot()
    }

    /// The identifier and display name of every registered connection, in order of
    /// registration.
    pub fn connection_list(&self) -> (r: Vec<(u64, String)>)
        ensures
            r@.len() == self.connections().len(),
            forall|j: int| 0 <= j < r@.len() ==> (#[trigger] r@[j]).0 == self.connections()[j].session.id
                && r@[j].1@ == self.connections()[j].session.name@,
    {
        let mut r: Vec<(u64, String)> = Vec::new();
        let mut j: usize = 0;
        while j < self.conns.len()
            invariant
                j <= self.conns@.len(),
                r@.len() == j,
                forall|k: int| 0 <= k < j ==> (#[trigger] r@[k]).0 == self.conns@[k].session.id
                    && r@[k].1@ == self.conns@[k].session.name@,
            decreases self.conns@.len() - j,
        {
            r.push((self.conns[j].session.id, self.conns[j].get_name()));
            j = j + 1;
        }
        r
    }

    /// Whether a connection with identifier `id` is registered.
    pub fn is_registered(&self, id: u64) -> (r: bool)
        requires
            self.wf(),
        ensures
            r == self.registered(id),
    {
        self.position(id).is_some()
    }

    /// How the console lists each registered connection, in order of registration.
    pub fn connection_labels(&self) -> (r: Vec<String>)
        ensures
            r@.len() == self.connections().len(),
            forall|j: int| 0 <= j < r@.len() ==> (#[trigger] r@[j])@ == label(
                self.connections()[j].session.name@,
                self.connections()[j].session.id as nat,
            ),
    {
        let mut r: Vec<String> = Vec::new();
        let mut j: usize = 0;
        while j < self.conns.len()
            invariant
                j <= self.conns@.len(),
                r@.len() == j,
                forall|k: int| 0 <= k < j ==> (#[trigger] r@[k])@ == label(
                    self.conns@[k].session.name@,
                    self.conns@[k].session.id as nat,
                ),
            decreases self.conns@.len() - j,
        {
            r.push(self.conns[j].display());
            j = j + 1;
        }
        r
    }

    /// Whether a connection with identifier `id` is registered.
    pub open spec fn registered(&self, id: u64) -> bool {
        exists|j: int| 0 <= j < self.connections().len() && (#[trigger] self.connections()[j]).session.id == id
    }
}

/// Identifiers are unique and never reused: registered connections have distinct
/// identifiers, all below the next one to be handed out, which no operation lowers.
pub proof fn lemma_identifiers_unique(h: Hub)
    requires
        h.wf(),
    ensures
        forall|j: int| 0 <= j < h.connections().len() ==> (#[trigger] h.connections()[j]).session.id < h.next_id(),
        forall|j: int, k: int| 0 <= j < k < h.connections().len() ==> (#[trigger] h.connections()[j]).session.id
            != (#[trigger] h.connections()[k]).session.id,
{
}

/// A handshake with a valid name on a fresh connection succeeds: the connection is
/// authenticated under that name, and its mailbox gets a success response that carries
/// its own identifier and a snapshot of the table.
pub proof fn lemma_valid_handshake(
    c0: Seq<Connection>,
    t0: Map<Seq<char>, Tagged>,
    i: int,
    m: Tagged,
    c1: Seq<Connection>,
    t1: Map<Seq<char>, Tagged>,
    r: Option<ProtocolError>,
    name: Seq<char>,
)
    requires
        0 <= i < c0.len(),
        c0[i].session.phase == Phase::Unauthenticated,
        text_field(m, "type"@) == Some("handshake"@),
        text_field(m, "name"@) == Some(name),
        valid_name(name),
        received(c0, t0, i, m, c1, t1, r),
    ensures
        r is None,
        c1[i].session.phase == Phase::Authenticated,
        c1[i].session.name@ == name,
        c1[i].session.id == c0[i].session.id,
        messages(c1[i].outbox@).drop_last() == messages(c0[i].outbox@),
        is_welcome(messages(c1[i].outbox@).last(), c0[i].session.id as nat, t0),
        t1 == t0,
{
}

/// A handshake with an empty name, or one with a character that is not alphanumeric,
/// is rejected: the response says so and asks to close, so the connection closes once
/// it is written, and nothing that comes after it is handled.
pub proof fn lemma_invalid_handshake(
    c0: Seq<Connection>,
    t0: Map<Seq<char>, Tagged>,
    i: int,
    m: Tagged,
    c1: Seq<Connection>,
    t1: Map<Seq<char>, Tagged>,
    r: Option<ProtocolError>,
    name: Seq<char>,
    later: Tagged,
)
    requires
        0 <= i < c0.len(),
        c0[i].session.phase == Phase::Unauthenticated,
        text_field(m, "type"@) == Some("handshake"@),
        text_field(m, "name"@) == Some(name),
        !valid_name(name),
        received(c0, t0, i, m, c1, t1, r),
    ensures
        r == Some(ProtocolError::InvalidName),
        c1[i].session.phase == Phase::Rejected,
        messages(c1[i].outbox@) == messages(c0[i].outbox@).push(rejection()),
        asks_to_close(rejection()),
        step(c1[i].session.phase, later) == Step::Ignore(ProtocolError::Closed),
        t1 == t0,
{
    let es = rejection()->Obj_0;
    lemma_pairs_map_last(es, 3);
}

/// Fan-out: when connection `i` has an update applied, every other authenticated
/// connection gets exactly one `update` envelope carrying the same entries, at the end
/// of its own mailbox; connections that are not authenticated get nothing. Each mailbox
/// is then drained on its own ([`Hub::drain`] leaves the others untouched).
pub proof fn lemma_fan_out(
    c0: Seq<Connection>,
    t0: Map<Seq<char>, Tagged>,
    i: int,
    m: Tagged,
    c1: Seq<Connection>,
    t1: Map<Seq<char>, Tagged>,
    r: Option<ProtocolError>,
    es: Seq<(Seq<char>, Tagged)>,
)
    requires
        0 <= i < c0.len(),
        step(c0[i].session.phase, m) == Step::Merge(es),
        received(c0, t0, i, m, c1, t1, r),
    ensures
        r is None,
        t1 == merged(t0, es),
        messages(c1[i].outbox@) == messages(c0[i].outbox@),
        forall|j: int| 0 <= j < c0.len() && j != i && authenticated(#[trigger] c0[j]) ==> messages(c1[j].outbox@)
            == messages(c0[j].outbox@).push(update_envelope(es)),
        forall|j: int| 0 <= j < c0.len() && j != i && !authenticated(#[trigger] c0[j]) ==> messages(c1[j].outbox@)
            == messages(c0[j].outbox@),
{
    assert forall|j: int| 0 <= j < c0.len() && j != i && authenticated(#[trigger] c0[j]) implies messages(c1[j].outbox@)
        == messages(c0[j].outbox@).push(update_envelope(es)) by {
        assert(messages(c1[j].outbox@) == if authenticated(c0[j]) {
            messages(c0[j].outbox@).push(update_envelope(es))
        } else {
            messages(c0[j].outbox@)
        });
    }
    assert forall|j: int| 0 <= j < c0.len() && j != i && !authenticated(#[trigger] c0[j]) implies messages(c1[j].outbox@)
        == messages(c0[j].outbox@) by {
        assert(messages(c1[j].outbox@) == if authenticated(c0[j]) {
            messages(c0[j].outbox@).push(update_envelope(es))
        } else {
            messages(c0[j].outbox@)
        });
    }
}

} // verus!
