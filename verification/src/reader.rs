//! The reader: a tokenizer over raw text, a positional cursor over the
//! token sequence, and a recursive-descent form parser with reader-macro
//! dispatch.

use vstd::prelude::*;
use crate::types::{SoloType, SoloError, SoloRet, Val, ErrV, KEYWORD_MARK};
use crate::types::{val_of, seq_val_of, lemma_seq_val_of, ret_view, err_str, err_string, err_val};
use crate::types::{_nil, _true, _false, _int, symbol, list, vector, hash_mapv, spec_assoc};
use crate::text::{str_to_chars, chars_to_string, dup_chars, sub_chars, chars_eq_str, extend_chars};
use crate::text::{is_digit, digit_val, digits_val, exec_is_digit, lemma_digits_val_nonneg, lemma_digits_val_mono};
use crate::printer::{spec_unescape, unescape_str};
use vstd::string::StringExecFns;

verus! {

// ---------------------------------------------------------------------
// Tokenizer.
// ---------------------------------------------------------------------
/// Insignificant characters: Unicode whitespace and commas.
pub open spec fn is_skip(c: char) -> bool {
    c == ' ' || c == '\t' || c == '\n' || c == '\r' || c == '\u{b}' || c == '\u{c}' || c == ','
        || c == '\u{85}' || c == '\u{a0}' || c == '\u{1680}' || (0x2000 <= c as u32 <= 0x200a)
        || c == '\u{2028}' || c == '\u{2029}' || c == '\u{202f}' || c == '\u{205f}'
        || c == '\u{3000}'
}

/// The single-character punctuation tokens.
pub open spec fn is_special(c: char) -> bool {
    c == '[' || c == ']' || c == '{' || c == '}' || c == '(' || c == ')' || c == '\'' || c == '`'
        || c == '~' || c == '^' || c == '@'
}

/// Characters that end a bare token.
pub open spec fn ends_bare(c: char) -> bool {
    is_skip(c) || c == '[' || c == ']' || c == '{' || c == '}' || c == '(' || c == ')' || c == '\''
        || c == '"' || c == '`' || c == ';'
}

pub fn exec_is_skip(c: char) -> (r: bool)
    ensures
        r == is_skip(c),
{
    let u = c as u32;
    c == ' ' || c == '\t' || c == '\n' || c == '\r' || c == '\u{b}' || c == '\u{c}' || c == ','
        || c == '\u{85}' || c == '\u{a0}' || c == '\u{1680}' || (0x2000 <= u && u <= 0x200a)
        || c == '\u{2028}' || c == '\u{2029}' || c == '\u{202f}' || c == '\u{205f}'
        || c == '\u{3000}'
}

pub fn exec_is_special(c: char) -> (r: bool)
    ensures
        r == is_special(c),
{
    c == '[' || c == ']' || c == '{' || c == '}' || c == '(' || c == ')' || c == '\'' || c == '`'
        || c == '~' || c == '^' || c == '@'
}

pub fn exec_ends_bare(c: char) -> (r: bool)
    ensures
        r == ends_bare(c),
{
    exec_is_skip(c) || c == '[' || c == ']' || c == '{' || c == '}' || c == '(' || c == ')'
        || c == '\'' || c == '"' || c == '`' || c == ';'
}

/// Index just past the closing quote of a string token opened before `j`,
/// or -1 when the text ends first: a backslash always escapes the next
/// character.
pub open spec fn str_end(s: Seq<char>, j: int) -> int
    decreases s.len() - j,
{
    if j < 0 || j >= s.len() {
        -1
    } else if s[j] == '"' {
        j
    } else if s[j] == '\\' {
        if j + 1 < s.len() {
            str_end(s, j + 2)
        } else {
            -1
        }
    } else {
        str_end(s, j + 1)
    }
}

/// Bounds of [`str_end`].
pub proof fn lemma_str_end(s: Seq<char>, j: int)
    requires
        0 <= j,
    ensures
        str_end(s, j) == -1 || (j <= str_end(s, j) < s.len()),
    decreases s.len() - j,
{
    if j < s.len() && s[j] != '"' {
        if s[j] == '\\' {
            if j + 1 < s.len() {
                lemma_str_end(s, j + 2);
            }
        } else {
            lemma_str_end(s, j + 1);
        }
    }
}

/// Index of the first line break at or after `i`, or the text's end.
pub open spec fn line_end(s: Seq<char>, i: int) -> int
    decreases s.len() - i,
{
    if i < 0 || i >= s.len() {
        s.len() as int
    } else if s[i] == '\n' {
        i
    } else {
        line_end(s, i + 1)
    }
}

/// Bounds of [`line_end`].
pub proof fn lemma_line_end(s: Seq<char>, i: int)
    requires
        0 <= i <= s.len(),
    ensures
        i <= line_end(s, i) <= s.len(),
    decreases s.len() - i,
{
    if i < s.len() && s[i] != '\n' {
        lemma_line_end(s, i + 1);
    }
}

/// Index of the first character at or after `i` that ends a bare token,
/// or the text's end.
pub open spec fn bare_end(s: Seq<char>, i: int) -> int
    decreases s.len() - i,
{
    if i < 0 || i >= s.len() {
        s.len() as int
    } else if ends_bare(s[i]) {
        i
    } else {
        bare_end(s, i + 1)
    }
}

/// Bounds of [`bare_end`].
pub proof fn lemma_bare_end(s: Seq<char>, i: int)
    requires
        0 <= i <= s.len(),
    ensures
        i <= bare_end(s, i) <= s.len(),
    decreases s.len() - i,
{
    if i < s.len() && !ends_bare(s[i]) {
        lemma_bare_end(s, i + 1);
    }
}

/// The token sequence of the text from position `i` on: whitespace and
/// commas are skipped, comments are dropped. A string literal may legally
/// be unterminated in the raw text: the scan then emits the rest of the
/// text as one token and ends, and the atom classifier diagnoses it.
pub open spec fn spec_tokenize(s: Seq<char>, i: int) -> Seq<Seq<char>>
    decreases s.len() - i
        via spec_tokenize_decreases
{
    if i < 0 || i >= s.len() {
        Seq::empty()
    } else if is_skip(s[i]) {
        spec_tokenize(s, i + 1)
    } else if s[i] == '~' && i + 1 < s.len() && s[i + 1] == '@' {
        seq![s.subrange(i, i + 2)] + spec_tokenize(s, i + 2)
    } else if is_special(s[i]) {
        seq![s.subrange(i, i + 1)] + spec_tokenize(s, i + 1)
    } else if s[i] == '"' {
        let e = str_end(s, i + 1);
        if e < 0 {
            seq![s.subrange(i, s.len() as int)]
        } else {
            seq![s.subrange(i, e + 1)] + spec_tokenize(s, e + 1)
        }
    } else if s[i] == ';' {
        spec_tokenize(s, line_end(s, i))
    } else {
        seq![s.subrange(i, bare_end(s, i))] + spec_tokenize(s, bare_end(s, i))
    }
}

#[via_fn]
proof fn spec_tokenize_decreases(s: Seq<char>, i: int) {
    if 0 <= i < s.len() {
        if s[i] == '"' {
            lemma_str_end(s, i + 1);
        }
        if s[i] == ';' {
            lemma_line_end(s, i + 1);
            assert(line_end(s, i) == line_end(s, i + 1));
        }
        if !is_skip(s[i]) && !is_special(s[i]) && !(s[i] == '~' && i + 1 < s.len() && s[i + 1]
            == '@') && s[i] != '"' && s[i] != ';' {
            lemma_bare_end(s, i + 1);
            assert(bare_end(s, i) == bare_end(s, i + 1));
        }
    }
}

/// Views of a token vector.
pub open spec fn toks_of(ts: Seq<Vec<char>>) -> Seq<Seq<char>>
    decreases ts
        via toks_of_decreases
{
    if ts.len() == 0 {
        Seq::empty()
    } else {
        toks_of(ts.drop_last()).push(ts[ts.len() - 1]@)
    }
}

#[via_fn]
proof fn toks_of_decreases(ts: Seq<Vec<char>>) {
    if ts.len() > 0 {
        vstd::seq::axiom_seq_subrange_decreases(ts, 0, ts.len() - 1);
        assert(ts.drop_last() == ts.subrange(0, ts.len() - 1));
    }
}

/// The pointwise reading of [`toks_of`].
pub broadcast proof fn lemma_toks_of(ts: Seq<Vec<char>>)
    ensures
        (#[trigger] toks_of(ts)).len() == ts.len(),
        forall|i: int| 0 <= i < ts.len() ==> toks_of(ts)[i] == ts[i]@,
    decreases ts.len(),
{
    if ts.len() > 0 {
        lemma_toks_of(ts.drop_last());
    }
}

/// Appending one token.
pub proof fn lemma_toks_push(ts: Seq<Vec<char>>, t: Vec<char>)
    ensures
        toks_of(ts.push(t)) == toks_of(ts).push(t@),
{
    assert(ts.push(t).drop_last() =~= ts);
    assert(ts.push(t)[ts.push(t).len() - 1] == t);
}

/// Scans the raw text into its token sequence.
pub fn tokenize(s: &Vec<char>) -> (r: Vec<Vec<char>>)
    ensures
        toks_of(r@) == spec_tokenize(s@, 0),
{
    let mut out: Vec<Vec<char>> = Vec::new();
    let mut i: usize = 0;
    proof {
        lemma_toks_of(out@);
        assert(toks_of(out@) =~= Seq::<Seq<char>>::empty());
    }
    while i < s.len()
        invariant
            i <= s@.len(),
            spec_tokenize(s@, 0) == toks_of(out@) + spec_tokenize(s@, i as int),
        decreases s@.len() - i,
    {
        let ghost pre_toks = toks_of(out@);
        let c = s[i];
        if exec_is_skip(c) {
            i = i + 1;
        } else if c == '~' && i + 1 < s.len() && s[i + 1] == '@' {
            let ghost pre_out = out@;
            let t = sub_chars(s, i, i + 2);
            let ghost tv = t@;
            out.push(t);
            proof {
                lemma_toks_push(pre_out, out@[out@.len() - 1]);
                assert(toks_of(out@) =~= pre_toks + seq![tv]);
                assert(pre_toks + spec_tokenize(s@, i as int) =~= toks_of(out@)
                    + spec_tokenize(s@, i as int + 2));
            }
            i = i + 2;
        } else if exec_is_special(c) {
            let ghost pre_out = out@;
            let t = sub_chars(s, i, i + 1);
            let ghost tv = t@;
            out.push(t);
            proof {
                lemma_toks_push(pre_out, out@[out@.len() - 1]);
                assert(toks_of(out@) =~= pre_toks + seq![tv]);
                assert(pre_toks + spec_tokenize(s@, i as int) =~= toks_of(out@)
                    + spec_tokenize(s@, i as int + 1));
            }
            i = i + 1;
        } else if c == '"' {
            // scan for the closing quote; a backslash escapes the next
            // character
            let mut j: usize = i + 1;
            let mut closed: bool = false;
            while j < s.len() && !closed
                invariant
                    i + 1 <= j <= s@.len(),
                    str_end(s@, i as int + 1) == if closed {
                        j as int - 1
                    } else {
                        str_end(s@, j as int)
                    },
                    closed ==> j <= s@.len(),
                decreases s@.len() - j + (if closed { 0int } else { 1int }),
            {
                let d = s[j];
                if d == '"' {
                    closed = true;
                    j = j + 1;
                } else if d == '\\' {
                    if j + 1 < s.len() {
                        j = j + 2;
                    } else {
                        j = s.len();
                        proof {
                            assert(str_end(s@, j as int) == -1);
                        }
                    }
                } else {
                    j = j + 1;
                }
            }
            if !closed {
                // unterminated string literal: the rest of the text is one
                // token and the scan ends
                let ghost pre_out = out@;
                let t = sub_chars(s, i, s.len());
                let ghost tv = t@;
                out.push(t);
                proof {
                    assert(str_end(s@, i as int + 1) == -1);
                    lemma_toks_push(pre_out, out@[out@.len() - 1]);
                    assert(toks_of(out@) =~= pre_toks + seq![tv]);
                    assert(spec_tokenize(s@, i as int) =~= seq![tv]);
                    assert(pre_toks + spec_tokenize(s@, i as int) =~= toks_of(out@));
                }
                return out;
            }
            let ghost pre_out = out@;
            let t = sub_chars(s, i, j);
            let ghost tv = t@;
            out.push(t);
            proof {
                lemma_toks_push(pre_out, out@[out@.len() - 1]);
                assert(toks_of(out@) =~= pre_toks + seq![tv]);
                assert(str_end(s@, i as int + 1) == j as int - 1);
                assert(pre_toks + spec_tokenize(s@, i as int) =~= toks_of(out@)
                    + spec_tokenize(s@, j as int));
            }
            i = j;
        } else if c == ';' {
            // comment: recognized and discarded
            let mut j: usize = i;
            while j < s.len() && s[j] != '\n'
                invariant
                    i <= j <= s@.len(),
                    line_end(s@, i as int) == line_end(s@, j as int),
                decreases s@.len() - j,
            {
                j = j + 1;
            }
            i = j;
        } else {
            let mut j: usize = i;
            while j < s.len() && !exec_ends_bare(s[j])
                invariant
                    i <= j <= s@.len(),
                    bare_end(s@, i as int) == bare_end(s@, j as int),
                decreases s@.len() - j,
            {
                j = j + 1;
            }
            let ghost pre_out = out@;
            let t = sub_chars(s, i, j);
            let ghost tv = t@;
            out.push(t);
            proof {
                lemma_toks_push(pre_out, out@[out@.len() - 1]);
                assert(toks_of(out@) =~= pre_toks + seq![tv]);
                assert(bare_end(s@, i as int) == j as int);
                assert(pre_toks + spec_tokenize(s@, i as int) =~= toks_of(out@)
                    + spec_tokenize(s@, j as int));
            }
            i = j;
        }
    }
    proof {
        assert(spec_tokenize(s@, i as int) =~= Seq::<Seq<char>>::empty());
        assert(toks_of(out@) + spec_tokenize(s@, i as int) =~= toks_of(out@));
    }
    out
}

// ---------------------------------------------------------------------
// Atom classifier.
// ---------------------------------------------------------------------
/// An integer token: an optional leading minus, then one or more digits.
pub open spec fn is_int_token(t: Seq<char>) -> bool {
    if t.len() == 0 {
        false
    } else if t[0] == '-' {
        t.len() >= 2 && forall|i: int| 1 <= i < t.len() ==> is_digit(t[i])
    } else {
        forall|i: int| 0 <= i < t.len() ==> is_digit(t[i])
    }
}

/// The mathematical value of an integer token.
pub open spec fn tok_int_val(t: Seq<char>) -> int {
    if t.len() > 0 && t[0] == '-' {
        -digits_val(t.skip(1), t.len() - 1)
    } else {
        digits_val(t, t.len() as int)
    }
}

/// What classifying one raw token yields, tried in this order: an integer
/// (one whose value does not fit the machine word is rejected), a quoted
/// string whose interior is unescaped (a literal left unterminated by the
/// raw text is diagnosed here, naming the quote the input still owed), a
/// keyword, one of the three literal constants, else a symbol.
pub open spec fn spec_read_atom(t: Seq<char>) -> Result<Val, Seq<char>> {
    if is_int_token(t) {
        if isize::MIN as int <= tok_int_val(t) <= isize::MAX as int {
            Ok(Val::Int(tok_int_val(t)))
        } else {
            Err("integer literal out of range"@)
        }
    } else if t.len() >= 1 && t[0] == '"' {
        if t.len() >= 2 && t[t.len() - 1] == '"' {
            Ok(Val::Strn(spec_unescape(t.subrange(1, t.len() - 1))))
        } else {
            Err("expected '\"', got EOF"@)
        }
    } else if t.len() >= 1 && t[0] == ':' {
        Ok(Val::Strn(seq![KEYWORD_MARK] + t.skip(1)))
    } else if t == "nil"@ {
        Ok(Val::Nil)
    } else if t == "true"@ {
        Ok(Val::True)
    } else if t == "false"@ {
        Ok(Val::False)
    } else {
        Ok(Val::Sym(t))
    }
}

fn exec_is_int_token(t: &Vec<char>) -> (r: bool)
    ensures
        r == is_int_token(t@),
{
    if t.len() == 0 {
        return false;
    }
    let start: usize = if t[0] == '-' {
        1
    } else {
        0
    };
    if t.len() == start {
        return false;
    }
    let mut i: usize = start;
    while i < t.len()
        invariant
            start <= i <= t@.len(),
            start == (if t@[0] == '-' {
                1int
            } else {
                0int
            }),
            t@.len() > start,
            forall|j: int| start <= j < i ==> is_digit(t@[j]),
        decreases t@.len() - i,
    {
        if !exec_is_digit(t[i]) {
            return false;
        }
        i = i + 1;
    }
    true
}

/// Parses an integer token's value, or reports that it does not fit.
fn parse_int(t: &Vec<char>) -> (r: Option<isize>)
    requires
        is_int_token(t@),
    ensures
        match r {
            Some(v) => v as int == tok_int_val(t@),
            None => !(isize::MIN as int <= tok_int_val(t@) <= isize::MAX as int),
        },
{
    let neg = t[0] == '-';
    let start: usize = if neg {
        1
    } else {
        0
    };
    let ghost ds = t@.skip(start as int);
    proof {
        assert(forall|j: int| 0 <= j < ds.len() ==> ds[j] == t@[j + start]);
        lemma_digits_val_nonneg(ds, ds.len() as int);
    }
    let mut acc: isize = 0;
    let mut i: usize = start;
    while i < t.len()
        invariant
            start <= i <= t@.len(),
            start == (if neg {
                1int
            } else {
                0int
            }),
            is_int_token(t@),
            neg == (t@[0] == '-'),
            ds == t@.skip(start as int),
            forall|j: int| 0 <= j < ds.len() ==> ds[j] == t@[j + start],
            forall|j: int| 0 <= j < ds.len() ==> is_digit(ds[j]),
            acc as int == -digits_val(ds, i - start),
        decreases t@.len() - i,
    {
        let ghost k = i - start;
        proof {
            assert(ds[k] == t@[i as int]);
            assert(is_digit(t@[i as int]));
            lemma_digits_val_nonneg(ds, k);
            lemma_digits_val_mono(ds, k + 1, ds.len() as int);
            assert(digits_val(ds, k + 1) == 10 * digits_val(ds, k) + digit_val(ds[k]));
        }
        let d = ((t[i] as u32) - 48) as isize;
        proof {
            assert(d as int == digit_val(ds[k]));
            assert(0 <= d <= 9);
        }
        let ghost dv_all = digits_val(ds, ds.len() as int);
        let ghost dv_next = digits_val(ds, k + 1);
        let m = match acc.checked_mul(10) {
            Some(m) => m,
            None => {
                proof {
                    assert(10 * digits_val(ds, k) > -(isize::MIN as int));
                    assert(dv_next > -(isize::MIN as int));
                    assert(dv_all >= dv_next);
                    if neg {
                        assert(ds =~= t@.skip(1));
                    } else {
                        assert(ds =~= t@);
                    }
                    assert(tok_int_val(t@) == (if neg { -dv_all } else { dv_all }));
                    assert(-(isize::MIN as int) >= isize::MAX as int);
                }
                return None;
            },
        };
        let a2 = match m.checked_add(-d) {
            Some(a2) => a2,
            None => {
                proof {
                    assert((m as int) - (d as int) < (isize::MIN as int));
                    assert(dv_next > -(isize::MIN as int));
                    assert(dv_all >= dv_next);
                    if neg {
                        assert(ds =~= t@.skip(1));
                    } else {
                        assert(ds =~= t@);
                    }
                    assert(tok_int_val(t@) == (if neg { -dv_all } else { dv_all }));
                    assert(-(isize::MIN as int) >= isize::MAX as int);
                }
                return None;
            },
        };
        acc = a2;
        i = i + 1;
    }
    proof {
        assert(ds.len() == t@.len() - start);
        assert(acc as int == -digits_val(ds, ds.len() as int));
        if neg {
            assert(tok_int_val(t@) == -digits_val(t@.skip(1), t@.len() - 1));
            assert(ds =~= t@.skip(1));
        } else {
            assert(ds =~= t@);
        }
    }
    if neg {
        Some(acc)
    } else {
        if acc == isize::MIN {
            None
        } else {
            Some(-acc)
        }
    }
}

// ---------------------------------------------------------------------
// Form parser.
// ---------------------------------------------------------------------
/// The message of an error view; parse errors only ever carry messages.
pub open spec fn errv_msg(e: ErrV) -> Seq<char> {
    match e {
        ErrV::Msg(m) => m,
        ErrV::Val(_) => "read_seq exception"@,
    }
}

/// A reader-macro expansion: the named symbol wrapping the next form.
pub open spec fn spec_wrap(toks: Seq<Seq<char>>, p: int, name: Seq<char>) -> Result<
    (Val, int),
    Seq<char>,
>
    decreases toks.len() - p, 0int,
{
    if p < 0 || p >= toks.len() {
        Err("read_atom underflow"@)
    } else {
        match spec_read_form(toks, p + 1) {
            Ok((f, p2)) => Ok(
                (Val::List(seq![Val::Sym(name), f], Box::new(Val::Nil)), p2),
            ),
            Err(e) => Err(e),
        }
    }
}

/// Parsing a bracketed sequence: the expected opening delimiter, then the
/// items up to the closing delimiter.
pub open spec fn spec_read_seq(
    toks: Seq<Seq<char>>,
    p: int,
    start: Seq<char>,
    end: Seq<char>,
) -> Result<(Seq<Val>, int), Seq<char>>
    decreases toks.len() - p, 0int,
{
    if p < 0 || p >= toks.len() {
        Err("read_atom underflow"@)
    } else if toks[p] != start {
        Err("expected '"@ + start + seq!['\''])
    } else {
        spec_read_items(toks, p + 1, end)
    }
}

/// The items of a bracketed sequence up to its closing delimiter; input
/// exhausted before the delimiter is an EOF error naming it.
pub open spec fn spec_read_items(toks: Seq<Seq<char>>, p: int, end: Seq<char>) -> Result<
    (Seq<Val>, int),
    Seq<char>,
>
    decreases toks.len() - p, 2int,
{
    if p < 0 || p >= toks.len() {
        Err("expected '"@ + end + "', got EOF"@)
    } else if toks[p] == end {
        Ok((Seq::empty(), p + 1))
    } else {
        match spec_read_form(toks, p) {
            Ok((f, p2)) => if p2 <= p || p2 > toks.len() {
                Err("read_atom underflow"@)
            } else {
                match spec_read_items(toks, p2, end) {
                    Ok((fs, p3)) => Ok((seq![f] + fs, p3)),
                    Err(e) => Err(e),
                }
            },
            Err(e) => Err(e),
        }
    }
}

/// Parsing one form at token position `p`: reader-macro tokens rewrite to
/// canonical list forms, an opening bracket reads the matching sequence,
/// a closing bracket where a form is expected is a syntax error, and any
/// other token is classified as an atom.
pub open spec fn spec_read_form(toks: Seq<Seq<char>>, p: int) -> Result<(Val, int), Seq<char>>
    decreases toks.len() - p, 1int,
{
    if p < 0 || p >= toks.len() {
        Err("read_atom underflow"@)
    } else {
        let t = toks[p];
        if t == "'"@ {
            spec_wrap(toks, p, "quote"@)
        } else if t == "`"@ {
            spec_wrap(toks, p, "quasiquote"@)
        } else if t == "~"@ {
            spec_wrap(toks, p, "unquote"@)
        } else if t == "~@"@ {
            spec_wrap(toks, p, "splice-unquote"@)
        } else if t == "@"@ {
            spec_wrap(toks, p, "deref"@)
        } else if t == "^"@ {
            // the metadata form is read first but stands second in the
            // expansion
            match spec_read_form(toks, p + 1) {
                Ok((meta, p2)) => if p2 <= p + 1 || p2 > toks.len() {
                    Err("read_atom underflow"@)
                } else {
                    match spec_read_form(toks, p2) {
                        Ok((target, p3)) => Ok(
                            (
                                Val::List(
                                    seq![Val::Sym("with-meta"@), target, meta],
                                    Box::new(Val::Nil),
                                ),
                                p3,
                            ),
                        ),
                        Err(e) => Err(e),
                    }
                },
                Err(e) => Err(e),
            }
        } else if t == ")"@ {
            Err("unexpected ')'"@)
        } else if t == "]"@ {
            Err("unexpected ']'"@)
        } else if t == "}"@ {
            Err("unexpected '}'"@)
        } else if t == "("@ {
            match spec_read_seq(toks, p, "("@, ")"@) {
                Ok((fs, p2)) => Ok((Val::List(fs, Box::new(Val::Nil)), p2)),
                Err(e) => Err(e),
            }
        } else if t == "["@ {
            match spec_read_seq(toks, p, "["@, "]"@) {
                Ok((fs, p2)) => Ok((Val::Vector(fs, Box::new(Val::Nil)), p2)),
                Err(e) => Err(e),
            }
        } else if t == "{"@ {
            match spec_read_seq(toks, p, "{"@, "}"@) {
                Ok((fs, p2)) => match spec_assoc(Seq::empty(), fs) {
                    Ok(es) => Ok((Val::Mapping(es, Box::new(Val::Nil)), p2)),
                    Err(e) => Err(errv_msg(e)),
                },
                Err(e) => Err(e),
            }
        } else {
            match spec_read_atom(t) {
                Ok(v) => Ok((v, p + 1)),
                Err(m) => Err(m),
            }
        }
    }
}

/// Appending one value to a sequence of values.
pub proof fn lemma_seq_val_push(s: Seq<SoloType>, v: SoloType)
    ensures
        seq_val_of(s.push(v)) == seq_val_of(s).push(val_of(v)),
{
    assert(s.push(v).drop_last() =~= s);
    assert(s.push(v)[s.push(v).len() - 1] == v);
}

/// The positional cursor over the token sequence.
struct Reader {
    tokens: Vec<Vec<char>>,
    position: usize,
}

impl Reader {
    /// The token sequence under view.
    spec fn toks(&self) -> Seq<Seq<char>> {
        toks_of(self.tokens@)
    }

    /// The token at the current position, consuming it; `None` past the
    /// end.
    fn next(&mut self) -> (r: Option<Vec<char>>)
        ensures
            final(self).tokens@ == old(self).tokens@,
            old(self).position < old(self).tokens@.len() ==> final(self).position == old(
                self,
            ).position + 1 && (r matches Some(t) && t@ == old(self).toks()[old(
                self,
            ).position as int]),
            old(self).position >= old(self).tokens@.len() ==> *final(self) == *old(self) && r
                is None,
    {
        proof {
            lemma_toks_of(self.tokens@);
        }
        if self.position < self.tokens.len() {
            self.position = self.position + 1;
            Some(dup_chars(&self.tokens[self.position - 1]))
        } else {
            None
        }
    }

    /// The token at the current position, without advancing; `None` at the
    /// end.
    fn peek(&self) -> (r: Option<Vec<char>>)
        ensures
            self.position < self.tokens@.len() ==> (r matches Some(t) && t@ == self.toks()[
                self.position as int]),
            self.position >= self.tokens@.len() ==> r is None,
    {
        proof {
            lemma_toks_of(self.tokens@);
        }
        if self.position < self.tokens.len() {
            Some(dup_chars(&self.tokens[self.position]))
        } else {
            None
        }
    }
}

/// The message naming a delimiter that was not found where expected.
fn delim_err(start: &str) -> (r: String)
    ensures
        r@ == "expected '"@ + start@ + seq!['\''],
{
    let mut m = str_to_chars("expected '");
    let sc = str_to_chars(start);
    extend_chars(&mut m, &sc);
    m.push('\'');
    proof {
        assert(m@ =~= "expected '"@ + start@ + seq!['\'']);
    }
    chars_to_string(&m)
}

/// The message naming the delimiter that the exhausted input still owed.
fn eof_err(end: &str) -> (r: String)
    ensures
        r@ == "expected '"@ + end@ + "', got EOF"@,
{
    let mut m = str_to_chars("expected '");
    let ec = str_to_chars(end);
    extend_chars(&mut m, &ec);
    let tail = str_to_chars("', got EOF");
    extend_chars(&mut m, &tail);
    proof {
        assert(m@ =~= "expected '"@ + end@ + "', got EOF"@);
    }
    chars_to_string(&m)
}

/// Consumes one token and classifies it as an atom.
fn read_atom(rdr: &mut Reader) -> (r: SoloRet)
    ensures
        final(rdr).tokens@ == old(rdr).tokens@,
        old(rdr).position >= old(rdr).tokens@.len() ==> *final(rdr) == *old(rdr) && ret_view(r)
            == Err::<Val, ErrV>(ErrV::Msg("read_atom underflow"@)),
        old(rdr).position < old(rdr).tokens@.len() ==> final(rdr).position == old(
            rdr,
        ).position + 1 && ret_view(r) == (match spec_read_atom(
            old(rdr).toks()[old(rdr).position as int],
        ) {
            Ok(v) => Ok::<Val, ErrV>(v),
            Err(m) => Err::<Val, ErrV>(ErrV::Msg(m)),
        }),
{
    let otoken = rdr.next();
    match otoken {
        None => err_str("read_atom underflow"),
        Some(t) => {
            if exec_is_int_token(&t) {
                match parse_int(&t) {
                    Some(v) => Ok(_int(v)),
                    None => err_str("integer literal out of range"),
                }
            } else if t.len() >= 1 && t[0] == '"' {
                if t.len() >= 2 && t[t.len() - 1] == '"' {
                    let mid = sub_chars(&t, 1, t.len() - 1);
                    Ok(SoloType::Strn(unescape_str(&mid)))
                } else {
                    err_str("expected '\"', got EOF")
                }
            } else if t.len() >= 1 && t[0] == ':' {
                let mut k: Vec<char> = Vec::new();
                k.push(KEYWORD_MARK);
                let rest = sub_chars(&t, 1, t.len());
                extend_chars(&mut k, &rest);
                proof {
                    assert(t@.subrange(1, t@.len() as int) =~= t@.skip(1));
                    assert(k@ =~= seq![KEYWORD_MARK] + t@.skip(1));
                }
                Ok(SoloType::Strn(k))
            } else if chars_eq_str(&t, "nil") {
                Ok(_nil())
            } else if chars_eq_str(&t, "true") {
                Ok(_true())
            } else if chars_eq_str(&t, "false") {
                Ok(_false())
            } else {
                Ok(SoloType::Sym(t))
            }
        },
    }
}

/// Consumes the expected opening delimiter, then forms until the closing
/// delimiter.
fn read_seq(rdr: &mut Reader, start: &str, end: &str) -> (r: Result<Vec<SoloType>, String>)
    requires
        old(rdr).position <= old(rdr).tokens@.len(),
    ensures
        final(rdr).tokens@ == old(rdr).tokens@,
        final(rdr).position <= final(rdr).tokens@.len(),
        (match spec_read_seq(old(rdr).toks(), old(rdr).position as int, start@, end@) {
            Ok((fs, p2)) => r matches Ok(v) && seq_val_of(v@) == fs && final(rdr).position
                == p2,
            Err(m) => r matches Err(s) && s@ == m,
        }),
        r is Ok ==> old(rdr).position < final(rdr).position,
    decreases rdr.tokens@.len() - rdr.position, 0int,
{
    let ghost toks = old(rdr).toks();
    proof {
        lemma_toks_of(rdr.tokens@);
    }
    let otoken = rdr.next();
    match otoken {
        None => {
            return Err(String::from_str("read_atom underflow"));
        },
        Some(t) => {
            if !chars_eq_str(&t, start) {
                return Err(delim_err(start));
            }
        },
    }
    let ghost q0 = rdr.position as int;
    let mut ast: Vec<SoloType> = Vec::new();
    proof {
        assert(seq_val_of(ast@) =~= Seq::<Val>::empty());
    }
    loop
        invariant
            rdr.tokens@ == old(rdr).tokens@,
            toks == toks_of(rdr.tokens@),
            toks.len() == rdr.tokens@.len(),
            old(rdr).position < q0 <= rdr.position <= rdr.tokens@.len(),
            spec_read_seq(toks, old(rdr).position as int, start@, end@) == spec_read_items(
                toks,
                q0,
                end@,
            ),
            (match spec_read_items(toks, rdr.position as int, end@) {
                Ok((fs, p3)) => spec_read_items(toks, q0, end@) == Ok::<
                    (Seq<Val>, int),
                    Seq<char>,
                >((seq_val_of(ast@) + fs, p3)),
                Err(m) => spec_read_items(toks, q0, end@) == Err::<
                    (Seq<Val>, int),
                    Seq<char>,
                >(m),
            }),
        decreases rdr.tokens@.len() - rdr.position,
    {
        let opeek = rdr.peek();
        match opeek {
            None => {
                return Err(eof_err(end));
            },
            Some(t) => {
                if chars_eq_str(&t, end) {
                    let _ = rdr.next();
                    proof {
                        assert(seq_val_of(ast@) + Seq::<Val>::empty() =~= seq_val_of(
                            ast@,
                        ));
                    }
                    return Ok(ast);
                }
                match read_form(rdr) {
                    Ok(mv) => {
                        let ghost pre_ast = ast@;
                        ast.push(mv);
                        proof {
                            lemma_seq_val_push(pre_ast, ast@[ast@.len() - 1]);
                            let rest = spec_read_items(toks, rdr.position as int, end@);
                            match rest {
                                Ok((fs2, p3)) => {
                                    assert(seq_val_of(pre_ast) + (seq![val_of(
                                        ast@[ast@.len() - 1],
                                    )] + fs2) =~= seq_val_of(ast@) + fs2);
                                },
                                Err(_) => {},
                            }
                        }
                    },
                    Err(SoloError::ErrString(es)) => {
                        return Err(es);
                    },
                    Err(SoloError::ErrSoloVal(_)) => {
                        proof {
                            assert(false);
                        }
                        return Err(String::from_str("read_seq exception"));
                    },
                }
            },
        }
    }
}

/// A parenthesized list form.
fn read_list(rdr: &mut Reader) -> (r: SoloRet)
    requires
        old(rdr).position <= old(rdr).tokens@.len(),
    ensures
        final(rdr).tokens@ == old(rdr).tokens@,
        final(rdr).position <= final(rdr).tokens@.len(),
        (match spec_read_seq(old(rdr).toks(), old(rdr).position as int, "("@, ")"@) {
            Ok((fs, p2)) => ret_view(r) == Ok::<Val, ErrV>(
                Val::List(fs, Box::new(Val::Nil)),
            ) && final(rdr).position == p2,
            Err(m) => ret_view(r) == Err::<Val, ErrV>(ErrV::Msg(m)),
        }),
        r is Ok ==> old(rdr).position < final(rdr).position,
    decreases rdr.tokens@.len() - rdr.position, 1int,
{
    match read_seq(rdr, "(", ")") {
        Ok(seq) => Ok(list(seq)),
        Err(es) => err_string(es),
    }
}

/// A bracketed vector form.
fn read_vector(rdr: &mut Reader) -> (r: SoloRet)
    requires
        old(rdr).position <= old(rdr).tokens@.len(),
    ensures
        final(rdr).tokens@ == old(rdr).tokens@,
        final(rdr).position <= final(rdr).tokens@.len(),
        (match spec_read_seq(old(rdr).toks(), old(rdr).position as int, "["@, "]"@) {
            Ok((fs, p2)) => ret_view(r) == Ok::<Val, ErrV>(
                Val::Vector(fs, Box::new(Val::Nil)),
            ) && final(rdr).position == p2,
            Err(m) => ret_view(r) == Err::<Val, ErrV>(ErrV::Msg(m)),
        }),
        r is Ok ==> old(rdr).position < final(rdr).position,
    decreases rdr.tokens@.len() - rdr.position, 1int,
{
    match read_seq(rdr, "[", "]") {
        Ok(seq) => Ok(vector(seq)),
        Err(es) => err_string(es),
    }
}

/// A failed map build always carries a message.
proof fn lemma_build_err_msg(es: Seq<(Seq<char>, Val)>, kvs: Seq<Val>, pos: int)
    ensures
        crate::types::build_entries(es, kvs, pos) matches Err(e) ==> e is Msg,
        pos == 0 ==> (spec_assoc(es, kvs) matches Err(e) ==> e is Msg),
    decreases kvs.len(),
{
    if kvs.len() >= 2 && kvs[0] is Strn {
        lemma_build_err_msg(
            crate::types::entries_set(es, kvs[0]->Strn_0, kvs[1]),
            kvs.skip(2),
            pos + 2,
        );
    }
}

/// A braced map form: the flat sequence becomes key/value pairs.
fn read_hash_map(rdr: &mut Reader) -> (r: SoloRet)
    requires
        old(rdr).position <= old(rdr).tokens@.len(),
    ensures
        final(rdr).tokens@ == old(rdr).tokens@,
        final(rdr).position <= final(rdr).tokens@.len(),
        (match spec_read_seq(old(rdr).toks(), old(rdr).position as int, "{"@, "}"@) {
            Ok((fs, p2)) => ret_view(r) == (match spec_assoc(Seq::empty(), fs) {
                Ok(es) => Ok::<Val, ErrV>(Val::Mapping(es, Box::new(Val::Nil))),
                Err(e) => Err::<Val, ErrV>(ErrV::Msg(errv_msg(e))),
            }) && (r is Ok ==> final(rdr).position == p2),
            Err(m) => ret_view(r) == Err::<Val, ErrV>(ErrV::Msg(m)),
        }),
        r is Ok ==> old(rdr).position < final(rdr).position,
    decreases rdr.tokens@.len() - rdr.position, 1int,
{
    match read_seq(rdr, "{", "}") {
        Ok(seq) => {
            proof {
                lemma_build_err_msg(Seq::empty(), seq_val_of(seq@), 0);
            }
            hash_mapv(seq)
        },
        Err(es) => err_string(es),
    }
}

/// One reader-macro expansion: consumes the macro token and wraps the next
/// form in a list with the named symbol.
fn read_wrap(rdr: &mut Reader, name: &str) -> (r: SoloRet)
    requires
        old(rdr).position < old(rdr).tokens@.len(),
    ensures
        final(rdr).tokens@ == old(rdr).tokens@,
        final(rdr).position <= final(rdr).tokens@.len(),
        (match spec_wrap(old(rdr).toks(), old(rdr).position as int, name@) {
            Ok((v, p2)) => ret_view(r) == Ok::<Val, ErrV>(v) && final(rdr).position == p2,
            Err(m) => ret_view(r) == Err::<Val, ErrV>(ErrV::Msg(m)),
        }),
        r is Ok ==> old(rdr).position < final(rdr).position,
    decreases rdr.tokens@.len() - rdr.position, 0int,
{
    proof {
        lemma_toks_of(rdr.tokens@);
    }
    let _ = rdr.next();
    match read_form(rdr) {
        Ok(f) => {
            let mut items: Vec<SoloType> = Vec::new();
            items.push(symbol(name));
            items.push(f);
            proof {
                lemma_seq_val_of(items@);
                assert(seq_val_of(items@) =~= seq![Val::Sym(name@), items@[1]@]);
            }
            Ok(list(items))
        },
        Err(e) => Err(e),
    }
}

/// Parses exactly one form at the cursor: reader-macro dispatch, bracketed
/// sequences, or an atom.
fn read_form(rdr: &mut Reader) -> (r: SoloRet)
    requires
        old(rdr).position <= old(rdr).tokens@.len(),
    ensures
        final(rdr).tokens@ == old(rdr).tokens@,
        final(rdr).position <= final(rdr).tokens@.len(),
        (match spec_read_form(old(rdr).toks(), old(rdr).position as int) {
            Ok((v, p2)) => ret_view(r) == Ok::<Val, ErrV>(v) && final(rdr).position == p2,
            Err(m) => ret_view(r) == Err::<Val, ErrV>(ErrV::Msg(m)),
        }),
        r is Ok ==> old(rdr).position < final(rdr).position,
    decreases rdr.tokens@.len() - rdr.position, 2int,
{
    proof {
        lemma_toks_of(rdr.tokens@);
    }
    let opeek = rdr.peek();
    match opeek {
        None => err_str("read_atom underflow"),
        Some(t) => {
            if chars_eq_str(&t, "'") {
                read_wrap(rdr, "quote")
            } else if chars_eq_str(&t, "`") {
                read_wrap(rdr, "quasiquote")
            } else if chars_eq_str(&t, "~") {
                read_wrap(rdr, "unquote")
            } else if chars_eq_str(&t, "~@") {
                read_wrap(rdr, "splice-unquote")
            } else if chars_eq_str(&t, "@") {
                read_wrap(rdr, "deref")
            } else if chars_eq_str(&t, "^") {
                let _ = rdr.next();
                match read_form(rdr) {
                    Ok(meta) => {
                        match read_form(rdr) {
                            Ok(f) => {
                                let mut items: Vec<SoloType> = Vec::new();
                                items.push(symbol("with-meta"));
                                items.push(f);
                                items.push(meta);
                                proof {
                                    lemma_seq_val_of(items@);
                                    assert(seq_val_of(items@) =~= seq![
                                        Val::Sym("with-meta"@),
                                        items@[1]@,
                                        items@[2]@,
                                    ]);
                                }
                                Ok(list(items))
                            },
                            Err(e) => Err(e),
                        }
                    },
                    Err(e) => Err(e),
                }
            } else if chars_eq_str(&t, ")") {
                err_str("unexpected ')'")
            } else if chars_eq_str(&t, "]") {
                err_str("unexpected ']'")
            } else if chars_eq_str(&t, "}") {
                err_str("unexpected '}'")
            } else if chars_eq_str(&t, "(") {
                read_list(rdr)
            } else if chars_eq_str(&t, "[") {
                read_vector(rdr)
            } else if chars_eq_str(&t, "{") {
                read_hash_map(rdr)
            } else {
                read_atom(rdr)
            }
        },
    }
}

/// Parses one form from raw text; text with no tokens at all yields the
/// blank-input signal, a value error carrying Nil, so a caller can tell
/// "nothing to evaluate" from a genuine syntax error.
pub fn read_str(s: String) -> (r: SoloRet)
    ensures
        ret_view(r) == spec_read_str(s@),
{
    let cs = str_to_chars(s.as_str());
    let tokens = tokenize(&cs);
    proof {
        lemma_toks_of(tokens@);
    }
    if tokens.len() == 0 {
        return err_val(_nil());
    }
    let mut rdr = Reader { tokens: tokens, position: 0 };
    read_form(&mut rdr)
}

/// What parsing one form from raw text yields: text without tokens is the
/// distinguished blank-input signal, an error value carrying Nil.
pub open spec fn spec_read_str(s: Seq<char>) -> Result<Val, ErrV> {
    let toks = spec_tokenize(s, 0);
    if toks.len() == 0 {
        Err(ErrV::Val(Val::Nil))
    } else {
        match spec_read_form(toks, 0) {
            Ok((v, _)) => Ok(v),
            Err(m) => Err(ErrV::Msg(m)),
        }
    }
}

} // verus!
