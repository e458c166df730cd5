//! The per-connection protocol: the handshake state machine and the handling of
//! `handshake` and `update` messages against the shared table.
use vstd::prelude::*;
use crate::keyed::{keys_unique, pairs_map, pairs_view};
use crate::table::{SharedTable, merged};
use crate::text::{chars_of, string_of, text};
use crate::value::{Data, Tagged, copy_entries, field, lemma_deep_entries, text_field};

verus! {

/// Whether `c` is alphanumeric in the sense of `char::is_alphanumeric` (Unicode
/// `Alphabetic` or `Numeric`).
pub uninterp spec fn alphanumeric(c: char) -> bool;

/// Relies on `char::is_alphanumeric`: whether the character is Unicode alphabetic or
/// numeric.
#[verifier::external_body]
fn char_is_alphanumeric(c: char) -> (r: bool)
    ensures
        r == alphanumeric(c),
{
    c.is_alphanumeric()
}

/// A valid display name: not empty, and every character alphanumeric.
pub open spec fn valid_name(s: Seq<char>) -> bool {
    s.len() > 0 && forall|i: int| 0 <= i < s.len() ==> alphanumeric(#[trigger] s[i])
}

/// The decimal numeral of `n`.
pub open spec fn decimal(n: nat) -> Seq<char>
    decreases n,
{
    if n < 10 {
        seq![digit(n)]
    } else {
        decimal(n / 10).push(digit(n % 10))
    }
}

/// The decimal digit for `d < 10`.
pub open spec fn digit(d: nat) -> char {
    ((d + 48) as u8) as char
}

/// Whether `name` is a valid display name.
pub fn is_valid_name(name: &str) -> (r: bool)
    ensures
        r == valid_name(name@),
{
    let cs = chars_of(name);
    if cs.len() == 0 {
        return false;
    }
    let mut i: usize = 0;
    while i < cs.len()
        invariant
            i <= cs@.len(),
            cs@ == name@,
            forall|j: int| 0 <= j < i ==> alphanumeric(#[trigger] cs@[j]),
        decreases cs@.len() - i,
    {
        if !char_is_alphanumeric(cs[i]) {
            return false;
        }
        i = i + 1;
    }
    true
}

/// The decimal numeral of `n`, as text.
pub fn decimal_text(n: u64) -> (r: String)
    ensures
        r@ == decimal(n as nat),
{
    let mut digits: Vec<char> = Vec::new();
    let mut m: u64 = n;
    // digits of n, least significant first, until m is a single digit
    while m >= 10
        invariant
            decimal(n as nat) == decimal(m as nat) + digits@.reverse(),
        decreases m,
    {
        let d: u64 = m % 10;
        let ghost before = digits@;
        digits.push(((d + 48) as u8) as char);
        proof {
            assert(decimal(m as nat) == decimal((m / 10) as nat).push(digit((m % 10) as nat)));
            assert(digits@.reverse() =~= seq![digit((m % 10) as nat)] + before.reverse());
            assert(decimal(n as nat) =~= decimal((m / 10) as nat) + digits@.reverse());
        }
        m = m / 10;
    }
    let mut out: Vec<char> = Vec::new();
    out.push(((m + 48) as u8) as char);
    let mut i: usize = digits.len();
    while i > 0
        invariant
            i <= digits@.len(),
            out@ == decimal(m as nat) + digits@.subrange(i as int, digits@.len() as int).reverse(),
            decimal(n as nat) == decimal(m as nat) + digits@.reverse(),
        decreases i,
    {
        let ghost before = out@;
        out.push(digits[i - 1]);
        proof {
            assert(digits@.subrange(i - 1, digits@.len() as int).reverse() =~= digits@.subrange(
                i as int,
                digits@.len() as int,
            ).reverse().push(digits@[i - 1]));
        }
        i = i - 1;
    }
    assert(digits@.subrange(0, digits@.len() as int) =~= digits@);
    string_of(&out)
}

/// Where a connection stands in the handshake.
#[derive(Clone, Copy, Debug, PartialEq, Eq, Structural)]
pub enum Phase {
    Unauthenticated,
    Authenticated,
    Rejected,
}

/// Why a message was not handled. Each is recoverable but `InvalidName`, which
/// closes the connection, and `Closed`, which comes after it.
#[derive(Clone, Copy, Debug, PartialEq, Eq, Structural)]
pub enum ProtocolError {
    MissingType,
    UnknownType,
    MissingName,
    InvalidName,
    AlreadyAuthenticated,
    NotAuthenticated,
    MissingTable,
    Closed,
}

/// The success response to a handshake: the identifier and a snapshot of the table,
/// as an object whose entries describe `table`.
pub open spec fn is_welcome(t: Tagged, id: nat, table: Map<Seq<char>, Tagged>) -> bool {
    &&& t matches Tagged::Obj(es)
    &&& es.len() == 4
    &&& es[0] == ("type"@, Tagged::Str("handshake"@))
    &&& es[1] == ("status"@, Tagged::Str("ok"@))
    &&& es[2] == ("id"@, Tagged::Num(decimal(id)))
    &&& es[3].0 == "table"@
    &&& es[3].1 matches Tagged::Obj(s)
    &&& keys_unique(s)
    &&& pairs_map(s) == table
}

/// The response that rejects a display name and closes the connection.
pub open spec fn rejection() -> Tagged {
    Tagged::Obj(
        seq![
            ("type"@, Tagged::Str("handshake"@)),
            ("status"@, Tagged::Str("error"@)),
            ("message"@, Tagged::Str("Invalid client name"@)),
            ("terminate"@, Tagged::Bool(true)),
        ],
    )
}

/// The response to a second handshake on an authenticated connection.
pub open spec fn duplicate_handshake() -> Tagged {
    Tagged::Obj(
        seq![
            ("type"@, Tagged::Str("handshake"@)),
            ("status"@, Tagged::Str("error"@)),
            ("message"@, Tagged::Str("Handshake already completed"@)),
        ],
    )
}

/// The `update` envelope that carries a delta to the other connections.
pub open spec fn update_envelope(delta: Seq<(Seq<char>, Tagged)>) -> Tagged {
    Tagged::Obj(
        seq![
            ("type"@, Tagged::Str("update"@)),
            ("status"@, Tagged::Str("ok"@)),
            ("table"@, Tagged::Obj(delta)),
        ],
    )
}

/// The directive that makes a connection send it and then close.
pub open spec fn terminate_directive() -> Tagged {
    Tagged::Obj(seq![("terminate"@, Tagged::Bool(true))])
}

/// Whether an outbound message asks for the connection to close after it is sent.
pub open spec fn asks_to_close(t: Tagged) -> bool {
    field(t, "terminate"@) == Some(Tagged::Bool(true))
}

/// An object from a list of entries.
fn object(es: Vec<(String, Data)>) -> (r: Data)
    ensures
        r@ == Tagged::Obj(pairs_view(es@)),
{
    proof {
        lemma_deep_entries(es@);
    }
    Data::Object(es)
}

/// The rejection response.
pub fn rejection_message() -> (r: Data)
    ensures
        r@ == rejection(),
{
    let r = object(
        vec![
            (text("type"), Data::String(text("handshake"))),
            (text("status"), Data::String(text("error"))),
            (text("message"), Data::String(text("Invalid client name"))),
            (text("terminate"), Data::Boolean(true)),
        ],
    );
    assert(r@ == rejection()) by {
        assert(r@->Obj_0 =~= rejection()->Obj_0);
    }
    r
}

/// The response to a second handshake.
pub fn duplicate_handshake_message() -> (r: Data)
    ensures
        r@ == duplicate_handshake(),
{
    let r = object(
        vec![
            (text("type"), Data::String(text("handshake"))),
            (text("status"), Data::String(text("error"))),
            (text("message"), Data::String(text("Handshake already completed"))),
        ],
    );
    assert(r@ == duplicate_handshake()) by {
        assert(r@->Obj_0 =~= duplicate_handshake()->Obj_0);
    }
    r
}

/// The success response to a handshake.
pub fn welcome_message(id: u64, snapshot: Vec<(String, Data)>) -> (r: Data)
    requires
        keys_unique(pairs_view(snapshot@)),
    ensures
        is_welcome(r@, id as nat, pairs_map(pairs_view(snapshot@))),
{
    let ghost s = pairs_view(snapshot@);
    let table = object(snapshot);
    let r = object(
        vec![
            (text("type"), Data::String(text("handshake"))),
            (text("status"), Data::String(text("ok"))),
            (text("id"), Data::Number(decimal_text(id))),
            (text("table"), table),
        ],
    );
    r
}

/// The `update` envelope for a delta.
pub fn update_message(delta: Vec<(String, Data)>) -> (r: Data)
    ensures
        r@ == update_envelope(pairs_view(delta@)),
{
    let table = object(delta);
    let r = object(
        vec![
            (text("type"), Data::String(text("update"))),
            (text("status"), Data::String(text("ok"))),
            (text("table"), table),
        ],
    );
    assert(r@ == update_envelope(pairs_view(delta@))) by {
        assert(r@->Obj_0 =~= update_envelope(pairs_view(delta@))->Obj_0);
    }
    r
}

/// The directive that closes a connection.
pub fn terminate_message() -> (r: Data)
    ensures
        r@ == terminate_directive(),
        asks_to_close(r@),
{
    let r = object(vec![(text("terminate"), Data::Boolean(true))]);
    assert(r@ == terminate_directive()) by {
        assert(r@->Obj_0 =~= terminate_directive()->Obj_0);
    }
    proof {
        let es = seq![("terminate"@, Tagged::Bool(true))];
        crate::keyed::lemma_pairs_map_last(es, 0);
    }
    r
}

/// Whether an outbound message asks for the connection to close after it is sent.
pub fn closes_connection(msg: &Data) -> (r: bool)
    ensures
        r == asks_to_close(msg@),
{
    match msg.get(&text("terminate")) {
        Some(Data::Boolean(b)) => *b,
        _ => false,
    }
}

/// What one message does to a connection in a given phase.
pub enum Step {
    /// The message is refused for this reason, and nothing changes.
    Ignore(ProtocolError),
    /// A second handshake: refused, with a failure response.
    Duplicate,
    /// A handshake with this valid name: the connection is authenticated.
    Welcome(Seq<char>),
    /// A handshake with an invalid name: the connection is rejected.
    Reject,
    /// An update with these entries: they are merged into the table.
    Merge(Seq<(Seq<char>, Tagged)>),
}

/// The step that message `m` takes in phase `phase`.
pub open spec fn step(phase: Phase, m: Tagged) -> Step {
    if phase == Phase::Rejected {
        Step::Ignore(ProtocolError::Closed)
    } else {
        match text_field(m, "type"@) {
            None => Step::Ignore(ProtocolError::MissingType),
            Some(t) => if t == "handshake"@ {
                if phase == Phase::Authenticated {
                    Step::Duplicate
                } else {
                    match text_field(m, "name"@) {
                        None => Step::Ignore(ProtocolError::MissingName),
                        Some(n) => if valid_name(n) {
                            Step::Welcome(n)
                        } else {
                            Step::Reject
                        },
                    }
                }
            } else if t == "update"@ {
                if phase != Phase::Authenticated {
                    Step::Ignore(ProtocolError::NotAuthenticated)
                } else {
                    match field(m, "table"@) {
                        Some(Tagged::Obj(es)) => Step::Merge(es),
                        _ => Step::Ignore(ProtocolError::MissingTable),
                    }
                }
            } else {
                Step::Ignore(ProtocolError::UnknownType)
            },
        }
    }
}

/// The handshake state of one connection: its identifier, its display name (empty
/// until the handshake succeeds) and its phase.
pub struct Session {
    pub id: u64,
    pub name: String,
    pub phase: Phase,
}

/// What handling one message produced: a response for this connection, a delta for
/// the other connections, and the error to log.
pub struct Outcome {
    pub reply: Option<Data>,
    pub delta: Option<Vec<(String, Data)>>,
    pub error: Option<ProtocolError>,
}

/// Whether `r` is what handling message `m` gives, from session `s0` and table `t0` to
/// session `s1` and table `t1`.
pub open spec fn handled(
    s0: Session,
    t0: Map<Seq<char>, Tagged>,
    m: Tagged,
    s1: Session,
    t1: Map<Seq<char>, Tagged>,
    r: Outcome,
) -> bool {
    &&& s1.id == s0.id
    &&& match step(s0.phase, m) {
        Step::Ignore(e) => {
            &&& r.error == Some(e)
            &&& r.reply is None
            &&& r.delta is None
            &&& s1.phase == s0.phase
            &&& s1.name@ == s0.name@
            &&& t1 == t0
        },
        Step::Duplicate => {
            &&& r.error == Some(ProtocolError::AlreadyAuthenticated)
            &&& r.reply matches Some(x) && x@ == duplicate_handshake()
            &&& r.delta is None
            &&& s1.phase == s0.phase
            &&& s1.name@ == s0.name@
            &&& t1 == t0
        },
        Step::Welcome(n) => {
            &&& r.error is None
            &&& r.reply matches Some(x) && is_welcome(x@, s0.id as nat, t0)
            &&& r.delta is None
            &&& s1.phase == Phase::Authenticated
            &&& s1.name@ == n
            &&& t1 == t0
        },
        Step::Reject => {
            &&& r.error == Some(ProtocolError::InvalidName)
            &&& r.reply matches Some(x) && x@ == rejection()
            &&& r.delta is None
            &&& s1.phase == Phase::Rejected
            &&& s1.name@ == s0.name@
            &&& t1 == t0
        },
        Step::Merge(es) => {
            &&& r.error is None
            &&& r.reply is None
            &&& r.delta matches Some(d) && pairs_view(d@) == es
            &&& s1.phase == s0.phase
            &&& s1.name@ == s0.name@
            &&& t1 == merged(t0, es)
        },
    }
}

fn refused(e: ProtocolError) -> (r: Outcome)
    ensures
        r.error == Some(e),
        r.reply is None,
        r.delta is None,
{
    Outcome { reply: None, delta: None, error: Some(e) }
}

impl Session {
    /// A connection that has not completed its handshake.
    pub fn new(id: u64) -> (r: Session)
        ensures
            r.id == id,
            r.name@ == Seq::<char>::empty(),
            r.phase == Phase::Unauthenticated,
    {
        Session { id, name: String::new(), phase: Phase::Unauthenticated }
    }

    /// Handles one message from the client against the shared table.
    pub fn handle(&mut self, msg: &Data, table: &mut SharedTable) -> (r: Outcome)
        requires
            old(table).wf(),
        ensures
            final(table).wf(),
            handled(*old(self), old(table)@, msg@, *final(self), final(table)@, r),
    {
        if self.phase == Phase::Rejected {
            return refused(ProtocolError::Closed);
        }
        let ty = match msg.get_text(&text("type")) {
            None => return refused(ProtocolError::MissingType),
            Some(t) => t,
        };
        if *ty == text("handshake") {
            if self.phase == Phase::Authenticated {
                return Outcome {
                    reply: Some(duplicate_handshake_message()),
                    delta: None,
                    error: Some(ProtocolError::AlreadyAuthenticated),
                };
            }
            match msg.get_text(&text("name")) {
                None => refused(ProtocolError::MissingName),
                Some(n) => {
                    if is_valid_name(n.as_str()) {
                        self.phase = Phase::Authenticated;
                        self.name = n.clone();
                        let reply = welcome_message(self.id, table.snapshot());
                        Outcome { reply: Some(reply), delta: None, error: None }
                    } else {
                        self.phase = Phase::Rejected;
                        Outcome {
                            reply: Some(rejection_message()),
                            delta: None,
                            error: Some(ProtocolError::InvalidName),
                        }
                    }
                },
            }
        } else if *ty == text("update") {
            if self.phase != Phase::Authenticated {
                return refused(ProtocolError::NotAuthenticated);
            }
            match msg.get(&text("table")) {
                Some(Data::Object(es)) => {
                    proof {
                        lemma_deep_entries(es@);
                    }
                    table.apply_update(es);
                    Outcome { reply: None, delta: Some(copy_entries(es)), error: None }
                },
                _ => refused(ProtocolError::MissingTable),
            }
        } else {
            refused(ProtocolError::UnknownType)
        }
    }
}

} // verus!
