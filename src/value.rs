//! The tagged value carried in the shared table and in wire messages.
use vstd::prelude::*;
use crate::text::append;
use crate::keyed::{find_key, pairs_map, pairs_view, lemma_pairs_map_dom, lemma_pairs_map_last};

verus! {

/// A self-describing value. A number is held as its decimal numeral text, as it
/// stands on the wire; an object is a list of entries whose keys are meant to be
/// unique (a later entry wins on lookup).
#[derive(Debug, PartialEq)]
pub enum Data {
    String(String),
    Number(String),
    Boolean(bool),
    Array(Vec<Data>),
    Object(Vec<(String, Data)>),
    Null,
}

/// The mathematical model of a [`Data`]: the same tree, with texts as character
/// sequences.
pub enum Tagged {
    Str(Seq<char>),
    Num(Seq<char>),
    Bool(bool),
    List(Seq<Tagged>),
    Obj(Seq<(Seq<char>, Tagged)>),
    Null,
}

pub open spec fn deep(d: Data) -> Tagged
    decreases d,
{
    match d {
        Data::String(s) => Tagged::Str(s@),
        Data::Number(n) => Tagged::Num(n@),
        Data::Boolean(b) => Tagged::Bool(b),
        Data::Array(a) => Tagged::List(deep_list(a@)),
        Data::Object(es) => Tagged::Obj(deep_entries(es@)),
        Data::Null => Tagged::Null,
    }
}

pub open spec fn deep_list(s: Seq<Data>) -> Seq<Tagged>
    decreases s,
{
    if s.len() == 0 {
        Seq::empty()
    } else {
        deep_list(s.drop_last()).push(deep(s.last()))
    }
}

pub open spec fn deep_entries(s: Seq<(String, Data)>) -> Seq<(Seq<char>, Tagged)>
    decreases s,
{
    if s.len() == 0 {
        Seq::empty()
    } else {
        deep_entries(s.drop_last()).push((s.last().0@, deep(s.last().1)))
    }
}

impl View for Data {
    type V = Tagged;

    open spec fn view(&self) -> Tagged {
        deep(*self)
    }
}

impl DeepView for Data {
    type V = Tagged;

    open spec fn deep_view(&self) -> Tagged {
        deep(*self)
    }
}

/// The value under key `k` of an object, or `None` for an absent key or a non-object.
pub open spec fn field(t: Tagged, k: Seq<char>) -> Option<Tagged> {
    match t {
        Tagged::Obj(es) => if pairs_map(es).contains_key(k) {
            Some(pairs_map(es)[k])
        } else {
            None
        },
        _ => None,
    }
}

/// The text under key `k`, where the value there is a string.
pub open spec fn text_field(t: Tagged, k: Seq<char>) -> Option<Seq<char>> {
    match field(t, k) {
        Some(Tagged::Str(s)) => Some(s),
        _ => None,
    }
}

pub proof fn lemma_deep_entries(s: Seq<(String, Data)>)
    ensures
        deep_entries(s) == pairs_view(s),
    decreases s.len(),
{
    if s.len() > 0 {
        lemma_deep_entries(s.drop_last());
    }
    assert(deep_entries(s) =~= pairs_view(s));
}

pub proof fn lemma_deep_list_push(s: Seq<Data>, d: Data)
    ensures
        deep_list(s.push(d)) == deep_list(s).push(deep(d)),
{
    assert(s.push(d).drop_last() =~= s);
}

pub proof fn lemma_deep_list_len(s: Seq<Data>)
    ensures
        deep_list(s).len() == s.len(),
    decreases s.len(),
{
    if s.len() > 0 {
        lemma_deep_list_len(s.drop_last());
    }
}

/// A deep copy of a list of entries.
pub fn copy_entries(es: &Vec<(String, Data)>) -> (r: Vec<(String, Data)>)
    ensures
        pairs_view(r@) == pairs_view(es@),
{
    let mut out: Vec<(String, Data)> = Vec::new();
    let mut i: usize = 0;
    while i < es.len()
        invariant
            i <= es@.len(),
            out@.len() == i,
            pairs_view(out@) =~= pairs_view(es@).subrange(0, i as int),
        decreases es@.len() - i,
    {
        let k = es[i].0.clone();
        let v = copy_of(&es[i].1);
        let ghost before = out@;
        out.push((k, v));
        proof {
            assert(out@.drop_last() == before);
            assert(pairs_view(out@)[i as int] == pairs_view(es@)[i as int]);
            assert(pairs_view(out@) =~= pairs_view(before).push(pairs_view(out@)[i as int]));
        }
        i = i + 1;
    }
    assert(pairs_view(out@) =~= pairs_view(es@));
    out
}

impl Clone for Data {
    fn clone(&self) -> (r: Self)
        ensures
            r@ == self@,
    {
        copy_of(self)
    }
}

/// A deep copy of `d`.
pub fn copy_of(d: &Data) -> (r: Data)
    ensures
        r@ == d@,
    decreases d,
{
        match d {
            Data::String(s) => Data::String(s.clone()),
            Data::Number(n) => Data::Number(n.clone()),
            Data::Boolean(b) => Data::Boolean(*b),
            Data::Array(a) => {
                assert(decreases_to!(*d => d->Array_0));
                assert(decreases_to!(*d => *a));
                let mut out: Vec<Data> = Vec::new();
                let mut i: usize = 0;
                while i < a.len()
                    invariant
                        i <= a@.len(),
                        deep_list(out@) == deep_list(a@.subrange(0, i as int)),
                        decreases_to!(*d => *a),
                    decreases a@.len() - i,
                {
                    proof {
                        broadcast use vstd::std_specs::vec::axiom_vec_index_decreases;
                        assert(decreases_to!(*a => a[i as int]));
                        assert(decreases_to!(*d => a[i as int]));
                    }
                    let c = copy_of(&a[i]);
                    proof {
                        lemma_deep_list_push(out@, c);
                        assert(a@.subrange(0, i + 1 as int).drop_last() =~= a@.subrange(0, i as int));
                    }
                    out.push(c);
                    i = i + 1;
                }
                assert(a@.subrange(0, a@.len() as int) =~= a@);
                Data::Array(out)
            },
            Data::Object(es) => {
                assert(decreases_to!(*d => d->Object_0));
                let mut out: Vec<(String, Data)> = Vec::new();
                let mut i: usize = 0;
                while i < es.len()
                    invariant
                        i <= es@.len(),
                        deep_entries(out@) == deep_entries(es@.subrange(0, i as int)),
                        decreases_to!(*d => *es),
                    decreases es@.len() - i,
                {
                    proof {
                        broadcast use vstd::std_specs::vec::axiom_vec_index_decreases;
                        assert(decreases_to!(*es => es[i as int]));
                        assert(decreases_to!(es[i as int] => es[i as int].1));
                        assert(decreases_to!(*d => es[i as int].1));
                    }
                    let k = es[i].0.clone();
                    let v = copy_of(&es[i].1);
                    proof {
                        assert(out@.push((k, v)).drop_last() =~= out@);
                        assert(es@.subrange(0, i + 1 as int).drop_last() =~= es@.subrange(0, i as int));
                    }
                    out.push((k, v));
                    i = i + 1;
                }
                assert(es@.subrange(0, es@.len() as int) =~= es@);
                Data::Object(out)
            },
            Data::Null => Data::Null,
        }
}

impl Data {
    /// The value under `key`, when `self` is an object holding that key.
    pub fn get(&self, key: &String) -> (r: Option<&Data>)
        ensures
            r matches Some(v) ==> field(self@, key@) == Some(v@),
            r is None ==> field(self@, key@) is None,
    {
        match self {
            Data::Object(es) => match find_key(es, key) {
                Some(i) => {
                    proof {
                        lemma_deep_entries(es@);
                        lemma_pairs_map_last(pairs_view(es@), i as int);
                    }
                    Some(&es[i].1)
                },
                None => {
                    proof {
                        lemma_deep_entries(es@);
                        lemma_pairs_map_dom(pairs_view(es@), key@);
                    }
                    None
                },
            },
            _ => None,
        }
    }

    /// The text under `key`, when the value there is a string.
    pub fn get_text(&self, key: &String) -> (r: Option<&String>)
        ensures
            r matches Some(t) ==> text_field(self@, key@) == Some(t@),
            r is None ==> text_field(self@, key@) is None,
    {
        match self.get(key) {
            Some(Data::String(s)) => Some(s),
            _ => None,
        }
    }
}

/// How the console shows a value: texts and numerals as they are, booleans as `true`
/// or `false`, null as `None`, lists as `[a, b]`, objects as `{"k": v, "l": w}`.
pub open spec fn rendered(t: Tagged) -> Seq<char>
    decreases t,
{
    match t {
        Tagged::Str(s) => s,
        Tagged::Num(n) => n,
        Tagged::Bool(b) => if b {
            "true"@
        } else {
            "false"@
        },
        Tagged::List(items) => "["@ + rendered_list(items) + "]"@,
        Tagged::Obj(es) => "{"@ + rendered_entries(es) + "}"@,
        Tagged::Null => "None"@,
    }
}

/// The items shown one after another, separated by `, `.
pub open spec fn rendered_list(s: Seq<Tagged>) -> Seq<char>
    decreases s,
{
    if s.len() == 0 {
        Seq::empty()
    } else if s.len() == 1 {
        rendered(s[0])
    } else {
        rendered_list(s.drop_last()) + ", "@ + rendered(s.last())
    }
}

/// The entries shown as `"key": value`, separated by `, `.
pub open spec fn rendered_entries(s: Seq<(Seq<char>, Tagged)>) -> Seq<char>
    decreases s,
{
    if s.len() == 0 {
        Seq::empty()
    } else if s.len() == 1 {
        "\""@ + s[0].0 + "\": "@ + rendered(s[0].1)
    } else {
        rendered_entries(s.drop_last()) + ", "@ + "\""@ + s.last().0 + "\": "@ + rendered(s.last().1)
    }
}

pub proof fn lemma_deep_list_index(s: Seq<Data>, i: int)
    requires
        0 <= i < s.len(),
    ensures
        deep_list(s).len() == s.len(),
        deep_list(s)[i] == deep(s[i]),
    decreases s.len(),
{
    lemma_deep_list_len(s);
    if i < s.len() - 1 {
        lemma_deep_list_index(s.drop_last(), i);
    }
}

/// Appends how the console shows `d`.
fn render_into(d: &Data, out: &mut Vec<char>)
    ensures
        final(out)@ == old(out)@ + rendered(d@),
    decreases d,
{
    match d {
        Data::String(s) => append(out, s.as_str()),
        Data::Number(n) => append(out, n.as_str()),
        Data::Boolean(b) => if *b {
            append(out, "true")
        } else {
            append(out, "false")
        },
        Data::Null => append(out, "None"),
        Data::Array(a) => {
            assert(decreases_to!(*d => d->Array_0));
            let ghost items = deep_list(a@);
            proof {
                lemma_deep_list_len(a@);
            }
            append(out, "[");
            let ghost start = out@;
            let mut i: usize = 0;
            while i < a.len()
                invariant
                    decreases_to!(*d => *a),
                    i <= a@.len(),
                    items == deep_list(a@),
                    items.len() == a@.len(),
                    out@ == start + rendered_list(items.subrange(0, i as int)),
                decreases a@.len() - i,
            {
                proof {
                    broadcast use vstd::std_specs::vec::axiom_vec_index_decreases;
                    assert(decreases_to!(*a => a[i as int]));
                    lemma_deep_list_index(a@, i as int);
                    assert(items.subrange(0, i + 1 as int).drop_last() =~= items.subrange(0, i as int));
                    if i == 0 {
                        assert(items.subrange(0, 0) =~= Seq::<Tagged>::empty());
                    }
                }
                if i > 0 {
                    append(out, ", ");
                }
                render_into(&a[i], out);
                proof {
                    if i == 0 {
                        assert(out@ =~= start + rendered_list(items.subrange(0, 1)));
                    } else {
                        assert(out@ =~= start + rendered_list(items.subrange(0, i + 1 as int)));
                    }
                }
                i = i + 1;
            }
            assert(items.subrange(0, a@.len() as int) =~= items);
            append(out, "]");
            assert(out@ =~= old(out)@ + rendered(d@));
        },
        Data::Object(es) => {
            assert(decreases_to!(*d => d->Object_0));
            let ghost items = pairs_view(es@);
            proof {
                lemma_deep_entries(es@);
            }
            append(out, "{");
            let ghost start = out@;
            let mut i: usize = 0;
            while i < es.len()
                invariant
                    decreases_to!(*d => *es),
                    i <= es@.len(),
                    items == pairs_view(es@),
                    out@ == start + rendered_entries(items.subrange(0, i as int)),
                decreases es@.len() - i,
            {
                proof {
                    broadcast use vstd::std_specs::vec::axiom_vec_index_decreases;
                    assert(decreases_to!(*es => es[i as int]));
                    assert(decreases_to!(es[i as int] => es[i as int].1));
                    assert(items.subrange(0, i + 1 as int).drop_last() =~= items.subrange(0, i as int));
                    if i == 0 {
                        assert(items.subrange(0, 0) =~= Seq::<(Seq<char>, Tagged)>::empty());
                    }
                }
                if i > 0 {
                    append(out, ", ");
                }
                append(out, "\"");
                append(out, es[i].0.as_str());
                append(out, "\": ");
                render_into(&es[i].1, out);
                proof {
                    if i == 0 {
                        assert(out@ =~= start + rendered_entries(items.subrange(0, 1)));
                    } else {
                        assert(out@ =~= start + rendered_entries(items.subrange(0, i + 1 as int)));
                    }
                }
                i = i + 1;
            }
            assert(items.subrange(0, es@.len() as int) =~= items);
            append(out, "}");
            assert(out@ =~= old(out)@ + rendered(d@));
        },
    }
}

impl Data {
    /// How the console shows this value.
    pub fn render(&self) -> (r: String)
        ensures
            r@ == rendered(self@),
    {
        let mut out: Vec<char> = Vec::new();
        render_into(self, &mut out);
        assert(out@ =~= rendered(self@));
        crate::text::string_of(&out)
    }
}

} // verus!
