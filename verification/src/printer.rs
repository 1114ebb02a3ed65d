//! The dual-mode printer: "readable" output re-parses to an equal value
//! (strings are escaped), "display" output renders strings literally.
//! Keywords render as `:name` in both modes; function values render as
//! opaque placeholders and never round-trip.

use vstd::prelude::*;
use crate::types::{SoloType, Val, KEYWORD_MARK, val_of, seq_val_of, entries_val_of};
use crate::types::{lemma_seq_val_of, lemma_entries_val_of};
use crate::text::{chars_to_string, dup_chars, extend_chars, str_to_chars};
use crate::text::{int_chars, nat_chars, usize_to_chars};

verus! {

/// The escaped rendering of one character inside a readable string.
pub open spec fn escape_char(c: char) -> Seq<char> {
    if c == '"' {
        seq!['\\', '"']
    } else if c == '\n' {
        seq!['\\', 'n']
    } else if c == '\\' {
        seq!['\\', '\\']
    } else {
        seq![c]
    }
}

/// The escaped interior of a readable string literal.
pub open spec fn spec_escape_body(s: Seq<char>) -> Seq<char>
    decreases s.len(),
{
    if s.len() == 0 {
        Seq::empty()
    } else {
        spec_escape_body(s.drop_last()) + escape_char(s[s.len() - 1])
    }
}

/// The readable rendering of a string: its escaped interior in quotes.
pub open spec fn spec_escape(s: Seq<char>) -> Seq<char> {
    seq!['"'] + spec_escape_body(s) + seq!['"']
}

/// Undoing the escapes of a string literal's interior: every backslash
/// eats the following character, `\n` becomes a newline, anything else
/// stands for itself; a trailing lone backslash stays as it is.
pub open spec fn spec_unescape(s: Seq<char>) -> Seq<char>
    decreases s.len(),
{
    if s.len() == 0 {
        Seq::empty()
    } else if s[0] == '\\' && s.len() >= 2 {
        (if s[1] == 'n' {
            seq!['\n']
        } else {
            seq![s[1]]
        }) + spec_unescape(s.skip(2))
    } else {
        seq![s[0]] + spec_unescape(s.skip(1))
    }
}

/// The rendering of a string payload: a keyword-marked string renders as
/// `:name` in both modes, otherwise readable mode escapes and display mode
/// is literal.
pub open spec fn spec_pr_string(s: Seq<char>, readable: bool) -> Seq<char> {
    if s.len() >= 1 && s[0] == KEYWORD_MARK {
        seq![':'] + s.skip(1)
    } else if readable {
        spec_escape(s)
    } else {
        s
    }
}

/// The printed form of a value.
pub open spec fn spec_pr(v: Val, readable: bool) -> Seq<char>
    decreases v,
{
    match v {
        Val::Nil => "nil"@,
        Val::True => "true"@,
        Val::False => "false"@,
        Val::Int(i) => int_chars(i),
        Val::Sym(s) => s,
        Val::Strn(s) => spec_pr_string(s, readable),
        Val::List(es, _) => seq!['('] + spec_pr_seq(es, readable) + seq![')'],
        Val::Vector(es, _) => seq!['['] + spec_pr_seq(es, readable) + seq![']'],
        Val::Mapping(es, _) => seq!['{'] + spec_pr_entries(es, readable) + seq!['}'],
        Val::Func(_, _) => "#<function ...>"@,
        Val::Closure(c, _) => "(fn* "@ + spec_pr(*c.params, true) + seq![' '] + spec_pr(
            *c.exp,
            true,
        ) + seq![')'],
        Val::Atom(inner) => "(atom "@ + spec_pr(*inner, true) + seq![')'],
    }
}

/// Space-joined printed forms of a value sequence.
pub open spec fn spec_pr_seq(es: Seq<Val>, readable: bool) -> Seq<char>
    decreases es
        via spec_pr_seq_decreases
{
    if es.len() == 0 {
        Seq::empty()
    } else if es.len() == 1 {
        spec_pr(es[0], readable)
    } else {
        spec_pr_seq(es.drop_last(), readable) + seq![' '] + spec_pr(es[es.len() - 1], readable)
    }
}

#[via_fn]
proof fn spec_pr_seq_decreases(es: Seq<Val>, readable: bool) {
    if es.len() > 1 {
        vstd::seq::axiom_seq_subrange_decreases(es, 0, es.len() - 1);
        assert(es.drop_last() == es.subrange(0, es.len() - 1));
    }
}

/// Space-joined `key value` pairs of a map.
pub open spec fn spec_pr_entries(es: Seq<(Seq<char>, Val)>, readable: bool) -> Seq<char>
    decreases es
        via spec_pr_entries_decreases
{
    if es.len() == 0 {
        Seq::empty()
    } else if es.len() == 1 {
        spec_pr_string(es[0].0, readable) + seq![' '] + spec_pr(es[0].1, readable)
    } else {
        spec_pr_entries(es.drop_last(), readable) + seq![' '] + spec_pr_string(
            es[es.len() - 1].0,
            readable,
        ) + seq![' '] + spec_pr(es[es.len() - 1].1, readable)
    }
}

#[via_fn]
proof fn spec_pr_entries_decreases(es: Seq<(Seq<char>, Val)>, readable: bool) {
    if es.len() > 1 {
        vstd::seq::axiom_seq_subrange_decreases(es, 0, es.len() - 1);
        assert(es.drop_last() == es.subrange(0, es.len() - 1));
    }
}

/// The escaped interior of a string, character by character.
pub fn escape_body(s: &Vec<char>) -> (r: Vec<char>)
    ensures
        r@ == spec_escape_body(s@),
{
    let mut out: Vec<char> = Vec::new();
    let mut i: usize = 0;
    while i < s.len()
        invariant
            i <= s@.len(),
            out@ == spec_escape_body(s@.take(i as int)),
        decreases s@.len() - i,
    {
        let c = s[i];
        if c == '"' {
            out.push('\\');
            out.push('"');
        } else if c == '\n' {
            out.push('\\');
            out.push('n');
        } else if c == '\\' {
            out.push('\\');
            out.push('\\');
        } else {
            out.push(c);
        }
        i = i + 1;
        proof {
            assert(s@.take(i as int).drop_last() =~= s@.take(i as int - 1));
            assert(s@.take(i as int)[i as int - 1] == s@[i as int - 1]);
            assert(out@ =~= spec_escape_body(s@.take(i as int - 1)) + escape_char(
                s@[i as int - 1],
            ));
        }
    }
    proof {
        assert(s@.take(s@.len() as int) =~= s@);
    }
    out
}

/// The readable rendering of a string: its escaped interior in quotes.
pub fn escape_str(s: &Vec<char>) -> (r: Vec<char>)
    ensures
        r@ == spec_escape(s@),
{
    let mut out: Vec<char> = Vec::new();
    out.push('"');
    let body = escape_body(s);
    extend_chars(&mut out, &body);
    out.push('"');
    proof {
        assert(out@ =~= spec_escape(s@));
    }
    out
}

/// Undoes the escapes of a string literal's interior.
pub fn unescape_str(s: &Vec<char>) -> (r: Vec<char>)
    ensures
        r@ == spec_unescape(s@),
{
    let mut out: Vec<char> = Vec::new();
    let mut i: usize = 0;
    proof {
        assert(s@.skip(0) =~= s@);
    }
    while i < s.len()
        invariant
            i <= s@.len(),
            spec_unescape(s@) == out@ + spec_unescape(s@.skip(i as int)),
        decreases s@.len() - i,
    {
        let ghost pre = s@.skip(i as int);
        let c = s[i];
        if c == '\\' && i + 1 < s.len() {
            let d = s[i + 1];
            if d == 'n' {
                out.push('\n');
            } else {
                out.push(d);
            }
            proof {
                assert(pre[0] == s@[i as int]);
                assert(pre[1] == s@[i as int + 1]);
                assert(pre.skip(2) =~= s@.skip(i as int + 2));
            }
            i = i + 2;
        } else {
            out.push(c);
            proof {
                assert(pre[0] == s@[i as int]);
                assert(pre.skip(1) =~= s@.skip(i as int + 1));
            }
            i = i + 1;
        }
    }
    proof {
        assert(s@.skip(s@.len() as int) =~= Seq::<char>::empty());
    }
    out
}

/// The decimal notation of an integer.
pub fn int_to_chars(n: isize) -> (r: Vec<char>)
    ensures
        r@ == int_chars(n as int),
{
    let neg = n < 0;
    let m: usize = if n < 0 {
        (-(n + 1)) as usize + 1
    } else {
        n as usize
    };
    proof {
        if neg {
            assert(m == -(n as int));
        } else {
            assert(m == n as int);
        }
    }
    let mut out = usize_to_chars(m);
    if neg {
        out.insert(0, '-');
        proof {
            assert(out@ =~= seq!['-'] + nat_chars(-(n as int)));
        }
    }
    out
}

impl SoloType {
    /// The printed form of this value, in readable or display mode.
    pub fn pr_str(&self, print_readably: bool) -> (r: String)
        ensures
            r@ == spec_pr(self@, print_readably),
    {
        let cs = self.pr_chars(print_readably);
        chars_to_string(&cs)
    }

    /// The printed form as a character vector.
    pub fn pr_chars(&self, readable: bool) -> (r: Vec<char>)
        ensures
            r@ == spec_pr(self@, readable),
        decreases *self,
    {
        match self {
            SoloType::Nil => str_to_chars("nil"),
            SoloType::True => str_to_chars("true"),
            SoloType::False => str_to_chars("false"),
            SoloType::Int(i) => int_to_chars(*i),
            SoloType::Sym(s) => dup_chars(s),
            SoloType::Strn(s) => pr_string_chars(s, readable),
            SoloType::List(es, _) => {
                let mut out: Vec<char> = Vec::new();
                out.push('(');
                let body = pr_seq(es, readable);
                extend_chars(&mut out, &body);
                out.push(')');
                proof {
                    assert(out@ =~= seq!['('] + spec_pr_seq(seq_val_of(es@), readable)
                        + seq![')']);
                }
                out
            },
            SoloType::Vector(es, _) => {
                let mut out: Vec<char> = Vec::new();
                out.push('[');
                let body = pr_seq(es, readable);
                extend_chars(&mut out, &body);
                out.push(']');
                proof {
                    assert(out@ =~= seq!['['] + spec_pr_seq(seq_val_of(es@), readable)
                        + seq![']']);
                }
                out
            },
            SoloType::Hash_Map(es, _) => {
                let mut out: Vec<char> = Vec::new();
                out.push('{');
                let body = pr_entries(es, readable);
                extend_chars(&mut out, &body);
                out.push('}');
                proof {
                    assert(out@ =~= seq!['{'] + spec_pr_entries(
                        entries_val_of(es@),
                        readable,
                    ) + seq!['}']);
                }
                out
            },
            SoloType::Func(_, _) => str_to_chars("#<function ...>"),
            SoloType::SoloFunc(d, _) => {
                let mut out = str_to_chars("(fn* ");
                let ps = d.params.pr_chars(true);
                extend_chars(&mut out, &ps);
                out.push(' ');
                let bs = d.exp.pr_chars(true);
                extend_chars(&mut out, &bs);
                out.push(')');
                proof {
                    assert(out@ =~= "(fn* "@ + spec_pr(d.params@, true) + seq![' ']
                        + spec_pr(d.exp@, true) + seq![')']);
                }
                out
            },
            SoloType::Atom(inner) => {
                let mut out = str_to_chars("(atom ");
                let is = inner.pr_chars(true);
                extend_chars(&mut out, &is);
                out.push(')');
                proof {
                    assert(out@ =~= "(atom "@ + spec_pr(inner@, true) + seq![')']);
                }
                out
            },
        }
    }
}

/// The rendering of a string payload, keyword detection included.
fn pr_string_chars(s: &Vec<char>, readable: bool) -> (r: Vec<char>)
    ensures
        r@ == spec_pr_string(s@, readable),
{
    if s.len() > 0 && s[0] == KEYWORD_MARK {
        let mut out: Vec<char> = Vec::new();
        out.push(':');
        let mut i: usize = 1;
        while i < s.len()
            invariant
                1 <= i <= s@.len(),
                s@.len() >= 1,
                out@ == seq![':'] + s@.subrange(1, i as int),
            decreases s@.len() - i,
        {
            out.push(s[i]);
            i = i + 1;
            proof {
                assert(out@ =~= seq![':'] + s@.subrange(1, i as int));
            }
        }
        proof {
            assert(s@.subrange(1, s@.len() as int) =~= s@.skip(1));
        }
        out
    } else if readable {
        escape_str(s)
    } else {
        dup_chars(s)
    }
}

/// Space-joined printed forms of the elements of a value vector.
fn pr_seq(es: &Vec<SoloType>, readable: bool) -> (r: Vec<char>)
    ensures
        r@ == spec_pr_seq(seq_val_of(es@), readable),
    decreases *es,
{
    let ghost sv = seq_val_of(es@);
    proof {
        lemma_seq_val_of(es@);
    }
    let mut out: Vec<char> = Vec::new();
    let mut i: usize = 0;
    while i < es.len()
        invariant
            i <= es@.len(),
            sv == seq_val_of(es@),
            sv.len() == es@.len(),
            forall|j: int| 0 <= j < es@.len() ==> sv[j] == es@[j]@,
            out@ == spec_pr_seq(sv.take(i as int), readable),
        decreases es@.len() - i,
    {
        if i != 0 {
            out.push(' ');
        }
        let cs = es[i].pr_chars(readable);
        extend_chars(&mut out, &cs);
        i = i + 1;
        proof {
            let t = sv.take(i as int);
            assert(t.drop_last() =~= sv.take(i as int - 1));
            assert(t[i as int - 1] == sv[i as int - 1]);
            if i == 1 {
                assert(out@ =~= spec_pr(sv[0], readable));
            } else {
                assert(out@ =~= spec_pr_seq(sv.take(i as int - 1), readable) + seq![' ']
                    + spec_pr(sv[i as int - 1], readable));
            }
        }
    }
    proof {
        assert(sv.take(sv.len() as int) =~= sv);
    }
    out
}

/// Space-joined `key value` pairs of a map's entries.
fn pr_entries(es: &Vec<(Vec<char>, SoloType)>, readable: bool) -> (r: Vec<char>)
    ensures
        r@ == spec_pr_entries(entries_val_of(es@), readable),
    decreases *es,
{
    let ghost ev = entries_val_of(es@);
    proof {
        lemma_entries_val_of(es@);
    }
    let mut out: Vec<char> = Vec::new();
    let mut i: usize = 0;
    while i < es.len()
        invariant
            i <= es@.len(),
            ev == entries_val_of(es@),
            ev.len() == es@.len(),
            forall|j: int| 0 <= j < es@.len() ==> ev[j] == (es@[j].0@, es@[j].1@),
            out@ == spec_pr_entries(ev.take(i as int), readable),
        decreases es@.len() - i,
    {
        if i != 0 {
            out.push(' ');
        }
        let ks = pr_string_chars(&es[i].0, readable);
        extend_chars(&mut out, &ks);
        out.push(' ');
        let vs = es[i].1.pr_chars(readable);
        extend_chars(&mut out, &vs);
        i = i + 1;
        proof {
            let t = ev.take(i as int);
            assert(t.drop_last() =~= ev.take(i as int - 1));
            assert(t[i as int - 1] == ev[i as int - 1]);
            if i == 1 {
                assert(out@ =~= spec_pr_string(ev[0].0, readable) + seq![' '] + spec_pr(
                    ev[0].1,
                    readable,
                ));
            } else {
                assert(out@ =~= spec_pr_entries(ev.take(i as int - 1), readable)
                    + seq![' '] + spec_pr_string(ev[i as int - 1].0, readable)
                    + seq![' '] + spec_pr(ev[i as int - 1].1, readable));
            }
        }
    }
    proof {
        assert(ev.take(ev.len() as int) =~= ev);
    }
    out
}

} // verus!
