//! Laws of the reader and printer: readable output of each atom literal
//! class re-reads to the value it printed, and the stated properties of
//! structural equality.

use vstd::prelude::*;
use crate::types::{Val, NativeFn, KEYWORD_MARK, equiv, equiv_seq};
use crate::types::{unique_keys, key_in, key_index, entries_set, entries_remove, spec_assoc};
use crate::types::{build_entries, spec_dissoc, dissoc_entries, lemma_key_index};
use crate::text::{
    is_digit,
    digit_val,
    digit_char,
    digits_val,
    nat_chars,
    int_chars,
};
use crate::types::ErrV;
use crate::printer::{spec_pr, spec_pr_string, spec_escape, spec_escape_body, spec_unescape};
use crate::reader::{spec_read_atom, is_int_token, tok_int_val, spec_read_str, spec_tokenize};
use crate::reader::{ends_bare, is_special, bare_end};

verus! {

/// Two runs of digits equal up to `n` read to the same value.
proof fn lemma_digits_val_prefix(s: Seq<char>, t: Seq<char>, n: int)
    requires
        n <= s.len(),
        n <= t.len(),
        forall|i: int| 0 <= i < n ==> s[i] == t[i],
    ensures
        digits_val(s, n) == digits_val(t, n),
    decreases n,
{
    if n > 0 {
        lemma_digits_val_prefix(s, t, n - 1);
    }
}

/// The decimal notation of a non-negative integer consists of digits,
/// is never empty, and reads back to the number itself.
proof fn lemma_nat_chars_val(m: int)
    requires
        m >= 0,
    ensures
        nat_chars(m).len() >= 1,
        forall|i: int| 0 <= i < nat_chars(m).len() ==> is_digit(nat_chars(m)[i]),
        digits_val(nat_chars(m), nat_chars(m).len() as int) == m,
    decreases m,
{
    if m <= 9 {
        assert(digit_val(digit_char(m)) == m);
        assert(digits_val(nat_chars(m), 1) == 10 * digits_val(nat_chars(m), 0) + digit_val(
            nat_chars(m)[0],
        ));
    } else {
        lemma_nat_chars_val(m / 10);
        let pre = nat_chars(m / 10);
        let whole = nat_chars(m);
        assert(whole == pre.push(digit_char(m % 10)));
        assert(forall|i: int| 0 <= i < pre.len() ==> whole[i] == pre[i]);
        lemma_digits_val_prefix(whole, pre, pre.len() as int);
        assert(digit_val(digit_char(m % 10)) == m % 10);
        assert(digits_val(whole, whole.len() as int) == 10 * digits_val(
            whole,
            whole.len() - 1,
        ) + digit_val(whole[whole.len() - 1]));
    }
}

/// Round-trip of integer literals: the readable printing of an integer
/// value is classified back to exactly that integer.
pub proof fn lemma_roundtrip_int(n: int)
    requires
        isize::MIN as int <= n <= isize::MAX as int,
    ensures
        spec_pr(Val::Int(n), true) == int_chars(n),
        spec_read_atom(int_chars(n)) == Ok::<Val, Seq<char>>(Val::Int(n)),
{
    let t = int_chars(n);
    if n >= 0 {
        lemma_nat_chars_val(n);
        assert(t == nat_chars(n));
        assert(is_digit(t[0]));
        assert(t[0] != '-');
        assert(is_int_token(t));
        assert(tok_int_val(t) == n);
    } else {
        lemma_nat_chars_val(-n);
        let d = nat_chars(-n);
        assert(t == seq!['-'] + d);
        assert(t[0] == '-');
        assert(t.len() == d.len() + 1);
        assert(forall|i: int| 1 <= i < t.len() ==> t[i] == d[i - 1]);
        assert(forall|i: int| 1 <= i < t.len() ==> is_digit(t[i]));
        assert(is_int_token(t));
        assert(t.skip(1) =~= d);
        assert(tok_int_val(t) == -digits_val(d, t.len() - 1));
        assert(tok_int_val(t) == n);
    }
}

/// A text without quote, backslash or line break escapes to itself.
proof fn lemma_escape_plain(s: Seq<char>)
    requires
        forall|i: int| 0 <= i < s.len() ==> s[i] != '"' && s[i] != '\\' && s[i] != '\n',
    ensures
        spec_escape_body(s) == s,
    decreases s.len(),
{
    if s.len() > 0 {
        lemma_escape_plain(s.drop_last());
        assert(spec_escape_body(s) =~= s);
    }
}

/// A text without backslashes unescapes to itself.
proof fn lemma_unescape_plain(s: Seq<char>)
    requires
        forall|i: int| 0 <= i < s.len() ==> s[i] != '\\',
    ensures
        spec_unescape(s) == s,
    decreases s.len(),
{
    if s.len() > 0 {
        assert(forall|i: int| 0 <= i < s.skip(1).len() ==> s.skip(1)[i] == s[i + 1]);
        lemma_unescape_plain(s.skip(1));
        assert(spec_unescape(s) =~= s);
    }
}

/// Round-trip of quoted string literals without special characters: the
/// readable printing of such a string value is classified back to exactly
/// that string.
pub proof fn lemma_roundtrip_string(s: Seq<char>)
    requires
        forall|i: int| 0 <= i < s.len() ==> s[i] != '"' && s[i] != '\\' && s[i] != '\n',
        s.len() == 0 || s[0] != KEYWORD_MARK,
    ensures
        spec_pr(Val::Strn(s), true) == spec_escape(s),
        spec_read_atom(spec_escape(s)) == Ok::<Val, Seq<char>>(Val::Strn(s)),
{
    lemma_escape_plain(s);
    let t = spec_escape(s);
    assert(t =~= seq!['"'] + s + seq!['"']);
    assert(t[0] == '"');
    assert(t[t.len() - 1] == '"');
    assert(!is_digit('"') && '"' != '-');
    assert(!is_int_token(t));
    assert(t.subrange(1, t.len() - 1) =~= s);
    lemma_unescape_plain(s);
}

/// Round-trip of keyword literals: reading `:name` yields the sentinel-
/// marked string, which prints back as `:name`.
pub proof fn lemma_roundtrip_keyword(name: Seq<char>)
    ensures
        spec_read_atom(seq![':'] + name) == Ok::<Val, Seq<char>>(
            Val::Strn(seq![KEYWORD_MARK] + name),
        ),
        spec_pr(Val::Strn(seq![KEYWORD_MARK] + name), true) == seq![':'] + name,
{
    let t = seq![':'] + name;
    assert(t[0] == ':');
    assert(!is_digit(':') && ':' != '-');
    assert(!is_int_token(t));
    assert(!(t.len() >= 2 && t[0] == '"' && t[t.len() - 1] == '"'));
    assert(t.skip(1) =~= name);
    let v = seq![KEYWORD_MARK] + name;
    assert(v[0] == KEYWORD_MARK);
    assert(v.skip(1) =~= name);
    assert(spec_pr_string(v, true) == seq![':'] + name);
}

/// Round-trip of the three literal constants.
pub proof fn lemma_roundtrip_constants()
    ensures
        spec_read_atom("nil"@) == Ok::<Val, Seq<char>>(Val::Nil),
        spec_pr(Val::Nil, true) == "nil"@,
        spec_read_atom("true"@) == Ok::<Val, Seq<char>>(Val::True),
        spec_pr(Val::True, true) == "true"@,
        spec_read_atom("false"@) == Ok::<Val, Seq<char>>(Val::False),
        spec_pr(Val::False, true) == "false"@,
{
    reveal_strlit("nil");
    reveal_strlit("true");
    reveal_strlit("false");
    assert(!is_digit('n') && !is_digit('t') && !is_digit('f'));
    assert(!is_int_token("nil"@));
    assert(!is_int_token("true"@));
    assert(!is_int_token("false"@));
}

/// Round-trip of symbols: a token that no earlier atom class claims reads
/// as a symbol, and a symbol prints as its own text.
pub proof fn lemma_roundtrip_symbol(t: Seq<char>)
    requires
        t.len() >= 1,
        !is_int_token(t),
        t[0] != '"',
        t[0] != ':',
        t != "nil"@,
        t != "true"@,
        t != "false"@,
    ensures
        spec_read_atom(t) == Ok::<Val, Seq<char>>(Val::Sym(t)),
        spec_pr(Val::Sym(t), true) == t,
{
}

/// A List and a Vector holding equivalent elements in equal order compare
/// equal, whatever metadata either carries.
pub proof fn lemma_list_vector_equiv(xs: Seq<Val>, ys: Seq<Val>, m1: Box<Val>, m2: Box<Val>)
    requires
        equiv_seq(xs, ys),
    ensures
        equiv(Val::List(xs, m1), Val::Vector(ys, m2)),
        equiv(Val::Vector(xs, m1), Val::List(ys, m2)),
        equiv(Val::List(xs, m1), Val::List(ys, m2)),
        equiv(Val::Vector(xs, m1), Val::Vector(ys, m2)),
{
}

/// Function values are never equal to anything, not even two values
/// wrapping the same underlying native function.
pub proof fn lemma_func_never_equal(f1: NativeFn, f2: NativeFn, m1: Box<Val>, m2: Box<Val>, other: Val)
    ensures
        !equiv(Val::Func(f1, m1), Val::Func(f2, m2)),
        !equiv(Val::Func(f1, m1), other),
        !equiv(other, Val::Func(f1, m1)),
{
}

/// A character that the tokenizer treats as part of a bare token: it is
/// neither a single-character token nor a character that ends a bare run.
pub open spec fn plain_char(c: char) -> bool {
    !ends_bare(c) && !is_special(c)
}

/// A run of plain characters has no bare-token boundary inside it.
proof fn lemma_bare_end_all(s: Seq<char>, i: int)
    requires
        0 <= i <= s.len(),
        forall|j: int| i <= j < s.len() ==> !ends_bare(s[j]),
    ensures
        bare_end(s, i) == s.len(),
    decreases s.len() - i,
{
    if i < s.len() {
        lemma_bare_end_all(s, i + 1);
    }
}

/// A text made of plain characters scans as exactly one bare token.
pub proof fn lemma_tokenize_bare(t: Seq<char>)
    requires
        t.len() >= 1,
        forall|j: int| 0 <= j < t.len() ==> plain_char(t[j]),
    ensures
        spec_tokenize(t, 0) == seq![t],
{
    lemma_bare_end_all(t, 0);
    assert(t.subrange(0, t.len() as int) =~= t);
    assert(spec_tokenize(t, t.len() as int) =~= Seq::<Seq<char>>::empty());
    assert(seq![t] + Seq::<Seq<char>>::empty() =~= seq![t]);
}

/// Reading a text that is one bare token classifies that token as an atom,
/// and nothing else.
pub proof fn lemma_read_str_bare(t: Seq<char>)
    requires
        t.len() >= 1,
        forall|j: int| 0 <= j < t.len() ==> plain_char(t[j]),
    ensures
        spec_read_str(t) == (match spec_read_atom(t) {
            Ok(v) => Ok::<Val, ErrV>(v),
            Err(m) => Err::<Val, ErrV>(ErrV::Msg(m)),
        }),
{
    lemma_tokenize_bare(t);
    reveal_strlit("'");
    reveal_strlit("`");
    reveal_strlit("~");
    reveal_strlit("~@");
    reveal_strlit("@");
    reveal_strlit("^");
    reveal_strlit(")");
    reveal_strlit("]");
    reveal_strlit("}");
    reveal_strlit("(");
    reveal_strlit("[");
    reveal_strlit("{");
    assert(plain_char(t[0]));
    assert(t != "'"@ && t != "`"@ && t != "~"@ && t != "~@"@ && t != "@"@ && t != "^"@);
    assert(t != ")"@ && t != "]"@ && t != "}"@ && t != "("@ && t != "["@ && t != "{"@);
}

/// Every digit, and the minus sign, is a plain tokenizer character.
proof fn lemma_digit_plain(c: char)
    requires
        is_digit(c) || c == '-' || c == ':',
    ensures
        plain_char(c),
{
}

/// Full round trip for integer literals: the readable printing of an
/// integer value reads back to exactly that value.
pub proof fn lemma_read_print_int(n: int)
    requires
        isize::MIN as int <= n <= isize::MAX as int,
    ensures
        spec_read_str(spec_pr(Val::Int(n), true)) == Ok::<Val, ErrV>(Val::Int(n)),
{
    lemma_roundtrip_int(n);
    let t = int_chars(n);
    assert forall|j: int| 0 <= j < t.len() implies plain_char(t[j]) by {
        assert(is_digit(t[j]) || t[j] == '-');
        lemma_digit_plain(t[j]);
    }
    lemma_read_str_bare(t);
}

/// Full round trip for keyword literals: the readable printing of the
/// keyword value of `name` reads back to exactly that value, provided the
/// name itself is made of plain tokenizer characters.
pub proof fn lemma_read_print_keyword(name: Seq<char>)
    requires
        forall|j: int| 0 <= j < name.len() ==> plain_char(name[j]),
    ensures
        spec_read_str(seq![':'] + name) == Ok::<Val, ErrV>(Val::Strn(seq![KEYWORD_MARK] + name)),
        spec_pr(Val::Strn(seq![KEYWORD_MARK] + name), true) == seq![':'] + name,
{
    lemma_roundtrip_keyword(name);
    let t = seq![':'] + name;
    assert forall|j: int| 0 <= j < t.len() implies plain_char(t[j]) by {
        if j == 0 {
            lemma_digit_plain(':');
        } else {
            assert(t[j] == name[j - 1]);
        }
    }
    lemma_read_str_bare(t);
}

/// Full round trip for the literal constants.
pub proof fn lemma_read_print_constants()
    ensures
        spec_read_str("nil"@) == Ok::<Val, ErrV>(Val::Nil),
        spec_read_str("true"@) == Ok::<Val, ErrV>(Val::True),
        spec_read_str("false"@) == Ok::<Val, ErrV>(Val::False),
{
    lemma_roundtrip_constants();
    reveal_strlit("nil");
    reveal_strlit("true");
    reveal_strlit("false");
    assert forall|j: int| 0 <= j < "nil"@.len() implies plain_char("nil"@[j]) by {
        assert(plain_char('n') && plain_char('i') && plain_char('l'));
    }
    assert forall|j: int| 0 <= j < "true"@.len() implies plain_char("true"@[j]) by {
        assert(plain_char('t') && plain_char('r') && plain_char('u') && plain_char('e'));
    }
    assert forall|j: int| 0 <= j < "false"@.len() implies plain_char("false"@[j]) by {
        assert(plain_char('f') && plain_char('a') && plain_char('l') && plain_char('s')
            && plain_char('e'));
    }
    lemma_read_str_bare("nil"@);
    lemma_read_str_bare("true"@);
    lemma_read_str_bare("false"@);
}

/// Full round trip for symbols: a bare token that no earlier atom class
/// claims reads back as the symbol that prints as that token.
pub proof fn lemma_read_print_symbol(t: Seq<char>)
    requires
        t.len() >= 1,
        forall|j: int| 0 <= j < t.len() ==> plain_char(t[j]),
        !is_int_token(t),
        t[0] != ':',
        t != "nil"@,
        t != "true"@,
        t != "false"@,
    ensures
        spec_read_str(t) == Ok::<Val, ErrV>(Val::Sym(t)),
        spec_pr(Val::Sym(t), true) == t,
{
    assert(t[0] != '"') by {
        assert(plain_char(t[0]));
    }
    lemma_roundtrip_symbol(t);
    lemma_read_str_bare(t);
}

/// Storing a value under a key keeps the map's keys unique.
proof fn lemma_entries_set_unique(es: Seq<(Seq<char>, Val)>, k: Seq<char>, v: Val)
    requires
        unique_keys(es),
    ensures
        unique_keys(entries_set(es, k, v)),
{
    if key_in(es, k) {
        lemma_key_index(es, k);
        let u = es.update(key_index(es, k), (k, v));
        assert(forall|i: int| 0 <= i < u.len() ==> u[i].0 == es[i].0);
    } else {
        let u = es.push((k, v));
        assert(forall|i: int| 0 <= i < es.len() ==> es[i].0 != k);
        assert(forall|i: int| 0 <= i < es.len() ==> u[i] == es[i]);
        assert(u[es.len() as int].0 == k);
    }
}

/// Removing a key keeps the map's keys unique.
proof fn lemma_entries_remove_unique(es: Seq<(Seq<char>, Val)>, k: Seq<char>)
    requires
        unique_keys(es),
    ensures
        unique_keys(entries_remove(es, k)),
{
    if key_in(es, k) {
        lemma_key_index(es, k);
        let ki = key_index(es, k);
        let u = es.remove(ki);
        assert forall|i: int, j: int| 0 <= i < j < u.len() implies u[i].0 != u[j].0 by {
            let oi = if i < ki { i } else { i + 1 };
            let oj = if j < ki { j } else { j + 1 };
            assert(u[i] == es[oi]);
            assert(u[j] == es[oj]);
        }
    }
}

/// The folding step of a map build keeps keys unique.
proof fn lemma_build_unique(es: Seq<(Seq<char>, Val)>, kvs: Seq<Val>, pos: int)
    requires
        unique_keys(es),
    ensures
        build_entries(es, kvs, pos) matches Ok(es2) ==> unique_keys(es2),
    decreases kvs.len(),
{
    if kvs.len() >= 2 && kvs[0] is Strn {
        lemma_entries_set_unique(es, kvs[0]->Strn_0, kvs[1]);
        lemma_build_unique(entries_set(es, kvs[0]->Strn_0, kvs[1]), kvs.skip(2), pos + 2);
    }
}

/// Building a map from a flat key/value sequence keeps keys unique: the
/// data model's map invariant is preserved by every update path.
pub proof fn lemma_assoc_unique(es: Seq<(Seq<char>, Val)>, kvs: Seq<Val>)
    requires
        unique_keys(es),
    ensures
        spec_assoc(es, kvs) matches Ok(es2) ==> unique_keys(es2),
{
    lemma_build_unique(es, kvs, 0);
}

/// The removal step keeps keys unique.
proof fn lemma_dissoc_entries_unique(es: Seq<(Seq<char>, Val)>, keys: Seq<Val>, pos: int)
    requires
        unique_keys(es),
    ensures
        dissoc_entries(es, keys, pos) matches Ok(es2) ==> unique_keys(es2),
    decreases keys.len(),
{
    if keys.len() >= 1 && keys[0] is Strn {
        lemma_entries_remove_unique(es, keys[0]->Strn_0);
        lemma_dissoc_entries_unique(entries_remove(es, keys[0]->Strn_0), keys.skip(1), pos + 1);
    }
}

/// Removing a sequence of keys keeps keys unique.
pub proof fn lemma_dissoc_unique(es: Seq<(Seq<char>, Val)>, keys: Seq<Val>)
    requires
        unique_keys(es),
    ensures
        spec_dissoc(es, keys) matches Ok(es2) ==> unique_keys(es2),
{
    lemma_dissoc_entries_unique(es, keys, 0);
}

} // verus!
