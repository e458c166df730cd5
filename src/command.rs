//! The operator console's command line: tokens separated by spaces, with double
//! quotes and backslash escapes, then a command name, flags and arguments.
use vstd::prelude::*;
use crate::keyed::{keys_unique, pairs_map, pairs_view, upsert};
use crate::text::{chars_of, string_of, text};

verus! {

/// Where the tokenizer stands after a prefix of the input.
pub struct Lexed {
    pub tokens: Seq<Seq<char>>,
    pub current: Seq<char>,
    pub in_quotes: bool,
    pub escaped: bool,
}

/// The tokenizer's state after character `c`: an escaped character is taken as it is;
/// a backslash escapes the next one; a double quote opens or closes a quoted run; a
/// space outside quotes ends the current token, if any; any other character extends it.
pub open spec fn lex_step(st: Lexed, c: char) -> Lexed {
    if st.escaped {
        Lexed { current: st.current.push(c), escaped: false, ..st }
    } else if c == '\\' {
        Lexed { escaped: true, ..st }
    } else if c == '"' {
        Lexed { in_quotes: !st.in_quotes, ..st }
    } else if c == ' ' && !st.in_quotes {
        if st.current.len() > 0 {
            Lexed { tokens: st.tokens.push(st.current), current: Seq::empty(), ..st }
        } else {
            st
        }
    } else {
        Lexed { current: st.current.push(c), ..st }
    }
}

/// The tokenizer's state after the whole of `s`.
pub open spec fn lex(s: Seq<char>) -> Lexed
    decreases s.len(),
{
    if s.len() == 0 {
        Lexed { tokens: Seq::empty(), current: Seq::empty(), in_quotes: false, escaped: false }
    } else {
        lex_step(lex(s.drop_last()), s.last())
    }
}

/// The tokens of `s`, or `None` where a quote is left open.
pub open spec fn tokens_of(s: Seq<char>) -> Option<Seq<Seq<char>>> {
    let st = lex(s);
    if st.in_quotes {
        None
    } else if st.current.len() > 0 {
        Some(st.tokens.push(st.current))
    } else {
        Some(st.tokens)
    }
}

/// The views of a list of strings.
pub open spec fn strings(v: Seq<String>) -> Seq<Seq<char>> {
    Seq::new(v.len(), |i: int| v[i]@)
}

/// Splits a command line into tokens.
pub fn tokenize(input: &str) -> (r: Result<Vec<String>, String>)
    ensures
        match tokens_of(input@) {
            Some(ts) => r matches Ok(v) && strings(v@) == ts,
            None => r matches Err(e) && e@ == "Unterminated quote"@,
        },
{
    let cs = chars_of(input);
    let mut args: Vec<String> = Vec::new();
    let mut current: Vec<char> = Vec::new();
    let mut in_quotes = false;
    let mut escaped = false;
    let mut i: usize = 0;
    proof {
        assert(cs@.subrange(0, 0) =~= Seq::<char>::empty());
        assert(strings(args@) =~= Seq::<Seq<char>>::empty());
    }
    while i < cs.len()
        invariant
            i <= cs@.len(),
            cs@ == input@,
            lex(cs@.subrange(0, i as int)) == (Lexed {
                tokens: strings(args@),
                current: current@,
                in_quotes,
                escaped,
            }),
        decreases cs@.len() - i,
    {
        let c = cs[i];
        proof {
            assert(cs@.subrange(0, i + 1 as int).drop_last() =~= cs@.subrange(0, i as int));
        }
        if escaped {
            current.push(c);
            escaped = false;
        } else if c == '\\' {
            escaped = true;
        } else if c == '"' {
            in_quotes = !in_quotes;
        } else if c == ' ' && !in_quotes {
            if current.len() > 0 {
                let ghost before = args@;
                args.push(string_of(&current));
                current = Vec::new();
                assert(strings(args@) =~= strings(before).push(args@.last()@));
            }
        } else {
            current.push(c);
        }
        i = i + 1;
    }
    assert(cs@.subrange(0, cs@.len() as int) =~= cs@);
    if current.len() > 0 {
        let ghost before = args@;
        args.push(string_of(&current));
        assert(strings(args@) =~= strings(before).push(args@.last()@));
    }
    if in_quotes {
        return Err(text("Unterminated quote"));
    }
    Ok(args)
}

/// `a` without its leading dashes.
pub open spec fn strip_dashes(a: Seq<char>) -> Seq<char>
    decreases a.len(),
{
    if a.len() > 0 && a[0] == '-' {
        strip_dashes(a.drop_first())
    } else {
        a
    }
}

/// Flags read so far, and the flag that waits for a value (empty if none).
pub struct FlagScan {
    pub flags: Map<Seq<char>, Option<Seq<char>>>,
    pub pending: Seq<char>,
}

/// A flag whose value is still open is recorded without one.
pub open spec fn settle(st: FlagScan) -> Map<Seq<char>, Option<Seq<char>>> {
    if st.pending.len() > 0 {
        st.flags.insert(st.pending, None)
    } else {
        st.flags
    }
}

/// The scan after argument `a`: a word that starts with a dash opens a flag named by
/// the rest of it (the flag open before is recorded without a value); another word is
/// the value of the open flag, if there is one, and is passed over otherwise.
pub open spec fn flag_step(st: FlagScan, a: Seq<char>) -> FlagScan {
    if a.len() > 0 && a[0] == '-' {
        FlagScan { flags: settle(st), pending: strip_dashes(a) }
    } else if st.pending.len() > 0 {
        FlagScan { flags: st.flags.insert(st.pending, Some(a)), pending: Seq::empty() }
    } else {
        st
    }
}

/// The scan after all of `args`.
pub open spec fn flag_scan(args: Seq<Seq<char>>) -> FlagScan
    decreases args.len(),
{
    if args.len() == 0 {
        FlagScan { flags: Map::empty(), pending: Seq::empty() }
    } else {
        flag_step(flag_scan(args.drop_last()), args.last())
    }
}

/// The flags of an argument list, each with its value if one followed it; a later
/// occurrence of a flag wins.
pub open spec fn flags_of(args: Seq<Seq<char>>) -> Map<Seq<char>, Option<Seq<char>>> {
    settle(flag_scan(args))
}

/// `a` without its leading dashes.
fn without_dashes(a: &String) -> (r: String)
    ensures
        r@ == strip_dashes(a@),
{
    let cs = chars_of(a.as_str());
    let mut i: usize = 0;
    assert(cs@.subrange(0, cs@.len() as int) =~= cs@);
    while i < cs.len() && cs[i] == '-'
        invariant
            i <= cs@.len(),
            cs@ == a@,
            strip_dashes(a@) == strip_dashes(cs@.subrange(i as int, cs@.len() as int)),
        decreases cs@.len() - i,
    {
        assert(cs@.subrange(i as int, cs@.len() as int).drop_first() =~= cs@.subrange(
            i + 1 as int,
            cs@.len() as int,
        ));
        i = i + 1;
    }
    let mut rest: Vec<char> = Vec::new();
    let mut j: usize = i;
    while j < cs.len()
        invariant
            i <= j <= cs@.len(),
            rest@ == cs@.subrange(i as int, j as int),
        decreases cs@.len() - j,
    {
        rest.push(cs[j]);
        j = j + 1;
        assert(rest@ =~= cs@.subrange(i as int, j as int));
    }
    string_of(&rest)
}

/// Whether `a` starts with a dash.
fn starts_with_dash(a: &String) -> (r: bool)
    ensures
        r == (a@.len() > 0 && a@[0] == '-'),
{
    let cs = chars_of(a.as_str());
    cs.len() > 0 && cs[0] == '-'
}

/// Reads the flags out of an argument list: `-name` or `--name`, optionally followed by
/// a value.
pub fn get_flags(arguments: Vec<String>) -> (r: Vec<(String, Option<String>)>)
    ensures
        keys_unique(pairs_view(r@)),
        pairs_map(pairs_view(r@)) == flags_of(strings(arguments@)),
{
    let ghost args = strings(arguments@);
    let mut flags: Vec<(String, Option<String>)> = Vec::new();
    let mut current = String::new();
    let mut i: usize = 0;
    proof {
        assert(pairs_view(flags@) =~= Seq::empty());
        assert(args.subrange(0, 0) =~= Seq::<Seq<char>>::empty());
    }
    while i < arguments.len()
        invariant
            i <= arguments@.len(),
            args == strings(arguments@),
            keys_unique(pairs_view(flags@)),
            flag_scan(args.subrange(0, i as int)) == (FlagScan {
                flags: pairs_map(pairs_view(flags@)),
                pending: current@,
            }),
        decreases arguments@.len() - i,
    {
        let arg = &arguments[i];
        proof {
            assert(args.subrange(0, i + 1 as int).drop_last() =~= args.subrange(0, i as int));
        }
        if starts_with_dash(arg) {
            if !current.as_str().is_empty() {
                upsert(&mut flags, current, None);
            }
            current = without_dashes(arg);
        } else if !current.as_str().is_empty() {
            upsert(&mut flags, current, Some(arg.clone()));
            current = String::new();
        }
        i = i + 1;
    }
    assert(args.subrange(0, arguments@.len() as int) =~= args);
    if !current.as_str().is_empty() {
        upsert(&mut flags, current, None);
    }
    flags
}

/// A command line taken apart: the command, its flags, and the words after the command.
pub struct ParsedCommand {
    pub command: String,
    pub flags: Vec<(String, Option<String>)>,
    pub args: Vec<String>,
}

/// Parses a command line: the first token is the command, the rest are its arguments,
/// among which the flags are read.
pub fn parse_command(input: &str) -> (r: Result<ParsedCommand, String>)
    ensures
        match tokens_of(input@) {
            None => r matches Err(e) && e@ == "Unterminated quote"@,
            Some(ts) => if ts.len() == 0 {
                r matches Err(e) && e@ == "No command"@
            } else {
                r matches Ok(p) && p.command@ == ts[0] && strings(p.args@) == ts.drop_first()
                    && keys_unique(pairs_view(p.flags@)) && pairs_map(pairs_view(p.flags@)) == flags_of(
                    ts.drop_first(),
                )
            },
        },
{
    let tokenized = match tokenize(input) {
        Ok(t) => t,
        Err(e) => return Err(e),
    };
    if tokenized.len() == 0 {
        return Err(text("No command"));
    }
    let command = tokenized[0].clone();
    let mut args: Vec<String> = Vec::new();
    let mut copy: Vec<String> = Vec::new();
    let mut i: usize = 1;
    while i < tokenized.len()
        invariant
            1 <= i <= tokenized@.len(),
            strings(args@) == strings(tokenized@).subrange(1, i as int),
            strings(copy@) == strings(tokenized@).subrange(1, i as int),
        decreases tokenized@.len() - i,
    {
        let ghost a0 = args@;
        let ghost c0 = copy@;
        args.push(tokenized[i].clone());
        copy.push(tokenized[i].clone());
        assert(strings(args@) =~= strings(a0).push(tokenized@[i as int]@));
        assert(strings(copy@) =~= strings(c0).push(tokenized@[i as int]@));
        i = i + 1;
        assert(strings(args@) =~= strings(tokenized@).subrange(1, i as int));
    }
    assert(strings(tokenized@).subrange(1, tokenized@.len() as int) =~= strings(tokenized@).drop_first());
    let flags = get_flags(copy);
    proof {
        if args@.len() == 0 {
            assert(strings(args@) =~= Seq::<Seq<char>>::empty());
        }
    }
    Ok(ParsedCommand { command, flags, args })
}

} // verus!
