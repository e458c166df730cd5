//! Console commands that act on the hub.
use vstd::prelude::*;
use crate::command::ParsedCommand;
use crate::hub::{Hub, messages};
use crate::protocol::terminate_directive;
use crate::text::chars_of;

verus! {

/// Whether `c` is an ASCII decimal digit.
pub open spec fn is_digit(c: char) -> bool {
    '0' <= c <= '9'
}

/// The value of a string of decimal digits.
pub open spec fn digits_value(s: Seq<char>) -> nat
    decreases s.len(),
{
    if s.len() == 0 {
        0
    } else {
        digits_value(s.drop_last()) * 10 + (s.last() as nat - '0' as nat) as nat
    }
}

/// `s` without a leading `+`.
pub open spec fn unsigned_part(s: Seq<char>) -> Seq<char> {
    if s.len() > 0 && s[0] == '+' {
        s.drop_first()
    } else {
        s
    }
}

/// Whether every character of `d` is a decimal digit.
pub open spec fn all_digits(d: Seq<char>) -> bool {
    forall|i: int| 0 <= i < d.len() ==> is_digit(#[trigger] d[i])
}

/// The identifier that `s` names: decimal digits, optionally after a `+`, of a value
/// that fits in 64 bits.
pub open spec fn id_of(s: Seq<char>) -> Option<nat> {
    let d = unsigned_part(s);
    if d.len() > 0 && all_digits(d) && digits_value(d) <= u64::MAX {
        Some(digits_value(d))
    } else {
        None
    }
}

proof fn lemma_digits_grow(s: Seq<char>, i: int)
    requires
        0 <= i <= s.len(),
        forall|k: int| 0 <= k < s.len() ==> is_digit(#[trigger] s[k]),
    ensures
        digits_value(s.subrange(0, i)) <= digits_value(s),
    decreases s.len() - i,
{
    if i < s.len() {
        lemma_digits_grow(s, i + 1);
        let p = s.subrange(0, i + 1);
        assert(p.drop_last() =~= s.subrange(0, i));
        assert(is_digit(p.last()));
    } else {
        assert(s.subrange(0, i) =~= s);
    }
}

/// The identifier that `s` names, as `id_of` says.
pub fn parse_id(s: &str) -> (r: Option<u64>)
    ensures
        r matches Some(n) ==> id_of(s@) == Some(n as nat),
        r is None ==> id_of(s@) is None,
{
    let cs = chars_of(s);
    let start: usize = if cs.len() > 0 && cs[0] == '+' { 1 } else { 0 };
    let ghost d = cs@.subrange(start as int, cs@.len() as int);
    proof {
        if start == 1 {
            assert(d =~= s@.drop_first());
        } else {
            assert(d =~= s@);
        }
    }
    if start == cs.len() {
        return None;
    }
    let mut i: usize = start;
    let mut value: u64 = 0;
    assert(d.subrange(0, 0) =~= Seq::<char>::empty());
    while i < cs.len()
        invariant
            start <= i <= cs@.len(),
            d == unsigned_part(s@),
            cs@ == s@,
            d == cs@.subrange(start as int, cs@.len() as int),
            forall|k: int| 0 <= k < i - start ==> is_digit(#[trigger] d[k]),
            value as nat == digits_value(d.subrange(0, i - start)),
        decreases cs@.len() - i,
    {
        let c = cs[i];
        if !('0' <= c && c <= '9') {
            proof {
                let k = i - start;
                assert(d[k] == c);
                assert(!is_digit(d[k]));
                assert(!all_digits(d));
            }
            return None;
        }
        let digit: u64 = (c as u64) - ('0' as u64);
        let ghost p = d.subrange(0, i - start + 1);
        assert(p.drop_last() =~= d.subrange(0, i - start));
        assert(p.last() == c);
        if value > (u64::MAX - digit) / 10 {
            proof {
                assert(value * 10 + digit > u64::MAX) by (nonlinear_arith)
                    requires
                        value > (u64::MAX - digit) / 10,
                        digit <= 9,
                ;
                assert(digits_value(p) > u64::MAX);
                if all_digits(d) {
                    lemma_digits_grow(d, i - start + 1);
                    assert(digits_value(d) > u64::MAX);
                }
            }
            return None;
        }
        value = value * 10 + digit;
        i = i + 1;
    }
    assert(d.subrange(0, d.len() as int) =~= d);
    Some(value)
}

/// Why the `terminate` command did nothing.
#[derive(Clone, Copy, Debug, PartialEq, Eq, Structural)]
pub enum TerminateError {
    MissingId,
    InvalidId,
    NotFound,
}

/// The `terminate` command: queues the closing directive to the connection whose
/// identifier is the command's first argument.
pub fn terminate_command(hub: &mut Hub, command: &ParsedCommand) -> (r: Result<u64, TerminateError>)
    requires
        old(hub).wf(),
    ensures
        final(hub).wf(),
        command.args@.len() == 0 ==> r == Err::<u64, TerminateError>(TerminateError::MissingId),
        command.args@.len() > 0 && id_of(command.args@[0]@) is None ==> r == Err::<u64, TerminateError>(
            TerminateError::InvalidId,
        ),
        command.args@.len() > 0 && id_of(command.args@[0]@) is Some ==> ({
            let n = id_of(command.args@[0]@)->0 as u64;
            if old(hub).registered(n) {
                r == Ok::<u64, TerminateError>(n)
            } else {
                r == Err::<u64, TerminateError>(TerminateError::NotFound)
            }
        }),
        r is Err ==> final(hub).connections() == old(hub).connections(),
        final(hub).table() == old(hub).table(),
        final(hub).next_id() == old(hub).next_id(),
        r matches Ok(id) ==> {
            &&& final(hub).connections().len() == old(hub).connections().len()
            &&& forall|j: int| 0 <= j < old(hub).connections().len() ==> (#[trigger] final(hub).connections()[j]).session == old(hub).connections()[j].session
            &&& forall|j: int| 0 <= j < old(hub).connections().len() ==> messages((#[trigger] final(hub).connections()[j]).outbox@) == if old(hub).connections()[j].session.id == id {
                messages(old(hub).connections()[j].outbox@).push(terminate_directive())
            } else {
                messages(old(hub).connections()[j].outbox@)
            }
        },
{
    if command.args.len() == 0 {
        return Err(TerminateError::MissingId);
    }
    let id = match parse_id(command.args[0].as_str()) {
        Some(id) => id,
        None => return Err(TerminateError::InvalidId),
    };
    if !hub.is_registered(id) {
        return Err(TerminateError::NotFound);
    }
    hub.terminate(id);
    Ok(id)
}

} // verus!
