//! The tagged value model: one discriminated type for every runtime value,
//! its mathematical view, constructors, and the one-argument type predicates.
//!
//! Keywords are not a separate variant: a keyword is a `Strn` value whose
//! first character is the reserved sentinel `'\u{29e}'`, never produced by
//! ordinary reader input.

use vstd::prelude::*;
use crate::text::str_to_chars;
use crate::text::dup_chars;
use crate::text::extend_chars;
use crate::text::chars_eq;
use crate::text::chars_to_string;
use crate::text::usize_to_chars;
use crate::text::nat_chars;

verus! {

/// The reserved sentinel character that marks a string value as a keyword.
pub const KEYWORD_MARK: char = '\u{29e}';

/// Mathematical view of a runtime value: text is a sequence of characters,
/// collections are sequences, integers are unbounded.
pub enum Val {
    Nil,
    True,
    False,
    Int(int),
    Strn(Seq<char>),
    Sym(Seq<char>),
    List(Seq<Val>, Box<Val>),
    Vector(Seq<Val>, Box<Val>),
    Mapping(Seq<(Seq<char>, Val)>, Box<Val>),
    Func(NativeFn, Box<Val>),
    Closure(SpecClosure, Box<Val>),
    Atom(Box<Val>),
}

/// View of the payload of a closure value.
pub struct SpecClosure {
    pub exp: Box<Val>,
    pub env: u64,
    pub params: Box<Val>,
    pub is_macro: bool,
}

/// The built-in native functions this core supplies; a `Func` value names
/// one of them, and `apply` dispatches on the name.
#[derive(Clone, Copy, PartialEq, Eq, Structural, Debug)]
pub enum NativeFn {
    NilQ,
    TrueQ,
    FalseQ,
    SymbolQ,
    KeywordQ,
    ListQ,
    VectorQ,
    MapQ,
    AtomQ,
    SequentialQ,
    ToSymbol,
    ToKeyword,
    ToList,
    ToVector,
    ToMap,
    ToAtom,
}

/// A runtime value. All variants except `Atom` are immutable once built;
/// "updates" of collections construct new values.
#[allow(non_camel_case_types)]
pub enum SoloType {
    Nil,
    True,
    False,
    Int(isize),
    Strn(Vec<char>),
    Sym(Vec<char>),
    List(Vec<SoloType>, Box<SoloType>),
    Vector(Vec<SoloType>, Box<SoloType>),
    Hash_Map(Vec<(Vec<char>, SoloType)>, Box<SoloType>),
    Func(NativeFn, Box<SoloType>),
    SoloFunc(Box<SoloFuncData>, Box<SoloType>),
    Atom(Box<SoloType>),
}

/// Payload of a user-defined function or macro: the parameter pattern, the
/// body expression, and a handle to the lexical environment captured at
/// definition time.  The environment chain itself, and the evaluator that
/// walks the body, are external collaborators reached through [`Evaluator`].
pub struct SoloFuncData {
    pub exp: Box<SoloType>,
    pub env: u64,
    pub params: Box<SoloType>,
    pub is_macro: bool,
}

/// The two error kinds: a descriptive message, or an arbitrary runtime
/// value carried by a language-level exception.
pub enum SoloError {
    ErrString(String),
    ErrSoloVal(SoloType),
}

/// View of an error: message errors carry character sequences, value
/// errors carry a value view.
pub enum ErrV {
    Msg(Seq<char>),
    Val(Val),
}

pub type SoloRet = Result<SoloType, SoloError>;

/// Views of the elements of a value sequence.
pub open spec fn seq_val_of(s: Seq<SoloType>) -> Seq<Val>
    decreases s
        via seq_val_of_decreases
{
    if s.len() == 0 {
        Seq::empty()
    } else {
        seq_val_of(s.drop_last()).push(val_of(s[s.len() - 1]))
    }
}

#[via_fn]
proof fn seq_val_of_decreases(s: Seq<SoloType>) {
    if s.len() > 0 {
        vstd::seq::axiom_seq_subrange_decreases(s, 0, s.len() - 1);
        assert(s.drop_last() == s.subrange(0, s.len() - 1));
    }
}

/// Views of the entries of a map's key/value vector.
pub open spec fn entries_val_of(s: Seq<(Vec<char>, SoloType)>) -> Seq<(Seq<char>, Val)>
    decreases s
        via entries_val_of_decreases
{
    if s.len() == 0 {
        Seq::empty()
    } else {
        entries_val_of(s.drop_last()).push(
            (s[s.len() - 1].0@, val_of(s[s.len() - 1].1)),
        )
    }
}

#[via_fn]
proof fn entries_val_of_decreases(s: Seq<(Vec<char>, SoloType)>) {
    if s.len() > 0 {
        vstd::seq::axiom_seq_subrange_decreases(s, 0, s.len() - 1);
        assert(s.drop_last() == s.subrange(0, s.len() - 1));
    }
}

/// The pointwise reading of [`seq_val_of`].
pub broadcast proof fn lemma_seq_val_of(s: Seq<SoloType>)
    ensures
        (#[trigger] seq_val_of(s)).len() == s.len(),
        forall|i: int| 0 <= i < s.len() ==> seq_val_of(s)[i] == val_of(s[i]),
    decreases s.len(),
{
    if s.len() > 0 {
        lemma_seq_val_of(s.drop_last());
    }
}

/// The pointwise reading of [`entries_val_of`].
pub broadcast proof fn lemma_entries_val_of(s: Seq<(Vec<char>, SoloType)>)
    ensures
        (#[trigger] entries_val_of(s)).len() == s.len(),
        forall|i: int|
            0 <= i < s.len() ==> entries_val_of(s)[i] == (s[i].0@, val_of(s[i].1)),
    decreases s.len(),
{
    if s.len() > 0 {
        lemma_entries_val_of(s.drop_last());
    }
}

/// The view of one runtime value.
pub open spec fn val_of(v: SoloType) -> Val
    decreases v,
{
    match v {
        SoloType::Nil => Val::Nil,
        SoloType::True => Val::True,
        SoloType::False => Val::False,
        SoloType::Int(i) => Val::Int(i as int),
        SoloType::Strn(cs) => Val::Strn(cs@),
        SoloType::Sym(cs) => Val::Sym(cs@),
        SoloType::List(es, m) => Val::List(seq_val_of(es@), Box::new(val_of(*m))),
        SoloType::Vector(es, m) => Val::Vector(seq_val_of(es@), Box::new(val_of(*m))),
        SoloType::Hash_Map(es, m) => Val::Mapping(entries_val_of(es@), Box::new(val_of(*m))),
        SoloType::Func(f, m) => Val::Func(f, Box::new(val_of(*m))),
        SoloType::SoloFunc(d, m) => Val::Closure(
            SpecClosure {
                exp: Box::new(val_of(*d.exp)),
                env: d.env,
                params: Box::new(val_of(*d.params)),
                is_macro: d.is_macro,
            },
            Box::new(val_of(*m)),
        ),
        SoloType::Atom(inner) => Val::Atom(Box::new(val_of(*inner))),
    }
}

impl View for SoloType {
    type V = Val;

    open spec fn view(&self) -> Val {
        val_of(*self)
    }
}

impl View for SoloError {
    type V = ErrV;

    open spec fn view(&self) -> ErrV {
        match self {
            SoloError::ErrString(s) => ErrV::Msg(s@),
            SoloError::ErrSoloVal(v) => ErrV::Val(v@),
        }
    }
}

/// A keyword is a string value whose first character is the sentinel.
pub open spec fn is_keyword(v: Val) -> bool {
    v matches Val::Strn(s) && s.len() >= 1 && s[0] == KEYWORD_MARK
}

/// The boolean constants of the language.
pub open spec fn bool_val(b: bool) -> Val {
    if b {
        Val::True
    } else {
        Val::False
    }
}

// Map entry sequences: a map is an ordered sequence of key/value entries
// whose keys are unique; a lookup finds the first entry with the key.
pub open spec fn key_in(es: Seq<(Seq<char>, Val)>, k: Seq<char>) -> bool {
    exists|i: int| 0 <= i < es.len() && es[i].0 == k
}

/// Index of the first entry holding the key.
pub open spec fn key_index(es: Seq<(Seq<char>, Val)>, k: Seq<char>) -> int
    decreases es.len(),
{
    if es.len() == 0 {
        0
    } else if es[0].0 == k {
        0
    } else {
        1 + key_index(es.drop_first(), k)
    }
}

/// The value stored under a key.
pub open spec fn lookup(es: Seq<(Seq<char>, Val)>, k: Seq<char>) -> Val {
    es[key_index(es, k)].1
}

/// No two entries share a key.
pub open spec fn unique_keys(es: Seq<(Seq<char>, Val)>) -> bool {
    forall|i: int, j: int| 0 <= i < j < es.len() ==> es[i].0 != es[j].0
}

/// The reading of [`key_index`]: when the key is present it is the first
/// index holding it, and the entry there carries the key.
pub proof fn lemma_key_index(es: Seq<(Seq<char>, Val)>, k: Seq<char>)
    requires
        key_in(es, k),
    ensures
        0 <= key_index(es, k) < es.len(),
        es[key_index(es, k)].0 == k,
        forall|j: int| 0 <= j < key_index(es, k) ==> es[j].0 != k,
    decreases es.len(),
{
    if es.len() > 0 && es[0].0 != k {
        assert(key_in(es.drop_first(), k)) by {
            let i = choose|i: int| 0 <= i < es.len() && es[i].0 == k;
            assert(es.drop_first()[i - 1] == es[i]);
        }
        lemma_key_index(es.drop_first(), k);
        assert forall|j: int| 0 <= j < key_index(es, k) implies es[j].0 != k by {
            if j > 0 {
                assert(es.drop_first()[j - 1] == es[j]);
            }
        }
    }
}

/// Updating a map: an existing key has its value replaced in place, a new
/// key is appended.
pub open spec fn entries_set(
    es: Seq<(Seq<char>, Val)>,
    k: Seq<char>,
    v: Val,
) -> Seq<(Seq<char>, Val)> {
    if key_in(es, k) {
        es.update(key_index(es, k), (k, v))
    } else {
        es.push((k, v))
    }
}

/// Removing a key; an absent key leaves the map unchanged.
pub open spec fn entries_remove(es: Seq<(Seq<char>, Val)>, k: Seq<char>) -> Seq<
    (Seq<char>, Val),
> {
    if key_in(es, k) {
        es.remove(key_index(es, k))
    } else {
        es
    }
}

/// The message of a non-string key, naming its position in the flat
/// key/value sequence.
pub open spec fn key_pos_msg(pos: int) -> Seq<char> {
    "key at position "@ + nat_chars(pos) + " is not a string in hash-map call"@
}

/// Folding a flat key/value sequence into a map, two values at a time:
/// a non-string key fails naming its position `pos` in the sequence, a
/// repeated key overwrites the earlier value.
pub open spec fn build_entries(es: Seq<(Seq<char>, Val)>, kvs: Seq<Val>, pos: int) -> Result<
    Seq<(Seq<char>, Val)>,
    ErrV,
>
    decreases kvs.len()
        via build_entries_decreases
{
    if kvs.len() == 0 {
        Ok(es)
    } else if !(kvs[0] is Strn) {
        Err(ErrV::Msg(key_pos_msg(pos)))
    } else if kvs.len() == 1 {
        // never reached through `spec_assoc`, which rejects odd lengths
        Ok(es)
    } else {
        build_entries(entries_set(es, kvs[0]->Strn_0, kvs[1]), kvs.skip(2), pos + 2)
    }
}

#[via_fn]
proof fn build_entries_decreases(es: Seq<(Seq<char>, Val)>, kvs: Seq<Val>, pos: int) {
    if kvs.len() >= 2 && kvs[0] is Strn {
        assert(kvs.skip(2).len() == kvs.len() - 2);
    }
}

/// What building a map from a flat sequence yields: an odd-length sequence
/// is rejected before any key is inspected.
pub open spec fn spec_assoc(es: Seq<(Seq<char>, Val)>, kvs: Seq<Val>) -> Result<
    Seq<(Seq<char>, Val)>,
    ErrV,
> {
    if kvs.len() % 2 == 1 {
        Err(ErrV::Msg("odd number of hash-map keys/values"@))
    } else {
        build_entries(es, kvs, 0)
    }
}

/// Removing the listed keys one at a time: a non-string key fails naming
/// its position `pos` in the key list, absent keys are tolerated.
pub open spec fn dissoc_entries(es: Seq<(Seq<char>, Val)>, keys: Seq<Val>, pos: int) -> Result<
    Seq<(Seq<char>, Val)>,
    ErrV,
>
    decreases keys.len(),
{
    if keys.len() == 0 {
        Ok(es)
    } else if !(keys[0] is Strn) {
        Err(ErrV::Msg(key_pos_msg(pos)))
    } else {
        dissoc_entries(entries_remove(es, keys[0]->Strn_0), keys.skip(1), pos + 1)
    }
}

/// What removing a sequence of keys yields: every key must be a string,
/// absent keys are tolerated.
pub open spec fn spec_dissoc(es: Seq<(Seq<char>, Val)>, keys: Seq<Val>) -> Result<
    Seq<(Seq<char>, Val)>,
    ErrV,
> {
    dissoc_entries(es, keys, 0)
}

// Structural equality of values: lists and vectors cross-compare by their
// element sequences, maps by their key/value mapping, metadata never takes
// part, and function values are never equal to anything.
pub open spec fn equiv(a: Val, b: Val) -> bool
    decreases a, b,
{
    match (a, b) {
        (Val::Nil, Val::Nil) => true,
        (Val::True, Val::True) => true,
        (Val::False, Val::False) => true,
        (Val::Int(x), Val::Int(y)) => x == y,
        (Val::Strn(x), Val::Strn(y)) => x == y,
        (Val::Sym(x), Val::Sym(y)) => x == y,
        (Val::List(x, _), Val::List(y, _)) => equiv_seq(x, y),
        (Val::List(x, _), Val::Vector(y, _)) => equiv_seq(x, y),
        (Val::Vector(x, _), Val::List(y, _)) => equiv_seq(x, y),
        (Val::Vector(x, _), Val::Vector(y, _)) => equiv_seq(x, y),
        (Val::Mapping(x, _), Val::Mapping(y, _)) => x.len() == y.len() && equiv_entries(x, y),
        _ => false,
    }
}

/// Elementwise equivalence of two value sequences.
pub open spec fn equiv_seq(x: Seq<Val>, y: Seq<Val>) -> bool
    decreases x, y,
{
    if x.len() != y.len() {
        false
    } else if x.len() == 0 {
        true
    } else {
        equiv(x[x.len() - 1], y[y.len() - 1]) && equiv_seq(x.drop_last(), y.drop_last())
    }
}

/// Every entry of `x` is present in `y` under an equivalent value.
pub open spec fn equiv_entries(
    x: Seq<(Seq<char>, Val)>,
    y: Seq<(Seq<char>, Val)>,
) -> bool
    decreases x,
{
    if x.len() == 0 {
        true
    } else {
        key_in(y, x[x.len() - 1].0) && equiv(x[x.len() - 1].1, lookup(y, x[x.len() - 1].0))
            && equiv_entries(x.drop_last(), y)
    }
}

/// The pointwise reading of [`equiv_seq`].
pub proof fn lemma_equiv_seq(x: Seq<Val>, y: Seq<Val>)
    ensures
        equiv_seq(x, y) <==> (x.len() == y.len() && forall|i: int|
            0 <= i < x.len() ==> equiv(x[i], y[i])),
    decreases x.len(),
{
    if x.len() == y.len() && x.len() > 0 {
        let n = x.len() - 1;
        lemma_equiv_seq(x.drop_last(), y.drop_last());
        if equiv_seq(x, y) {
            assert forall|i: int| 0 <= i < x.len() implies equiv(x[i], y[i]) by {
                if i < n {
                    assert(x.drop_last()[i] == x[i]);
                    assert(y.drop_last()[i] == y[i]);
                    assert(equiv(x.drop_last()[i], y.drop_last()[i]));
                }
            }
        }
        if forall|i: int| 0 <= i < x.len() ==> equiv(x[i], y[i]) {
            assert forall|i: int|
                0 <= i < x.drop_last().len() implies equiv(
                x.drop_last()[i],
                y.drop_last()[i],
            ) by {
                assert(x.drop_last()[i] == x[i]);
                assert(y.drop_last()[i] == y[i]);
                assert(equiv(x[i], y[i]));
            }
            assert(equiv_seq(x.drop_last(), y.drop_last()));
            assert(equiv(x[n], y[n]));
        }
    }
}

/// The pointwise reading of [`equiv_entries`].
pub proof fn lemma_equiv_entries(x: Seq<(Seq<char>, Val)>, y: Seq<(Seq<char>, Val)>)
    ensures
        equiv_entries(x, y) <==> forall|i: int|
            0 <= i < x.len() ==> key_in(y, x[i].0) && equiv(x[i].1, lookup(y, x[i].0)),
    decreases x.len(),
{
    if x.len() > 0 {
        let n = x.len() - 1;
        lemma_equiv_entries(x.drop_last(), y);
        if equiv_entries(x, y) {
            assert forall|i: int|
                0 <= i < x.len() implies key_in(y, x[i].0) && equiv(
                x[i].1,
                lookup(y, x[i].0),
            ) by {
                if i < n {
                    assert(x.drop_last()[i] == x[i]);
                    assert(key_in(y, x.drop_last()[i].0));
                    assert(equiv(x.drop_last()[i].1, lookup(y, x.drop_last()[i].0)));
                }
            }
        }
        if forall|i: int|
            0 <= i < x.len() ==> key_in(y, x[i].0) && equiv(x[i].1, lookup(y, x[i].0)) {
            assert forall|i: int|
                0 <= i < x.drop_last().len() implies key_in(y, x.drop_last()[i].0) && equiv(
                x.drop_last()[i].1,
                lookup(y, x.drop_last()[i].0),
            ) by {
                assert(x.drop_last()[i] == x[i]);
                assert(key_in(y, x[i].0) && equiv(x[i].1, lookup(y, x[i].0)));
            }
            assert(equiv_entries(x.drop_last(), y));
            assert(key_in(y, x[n].0) && equiv(x[n].1, lookup(y, x[n].0)));
        }
    }
}

/// View of a success-or-error result.
pub open spec fn ret_view(r: SoloRet) -> Result<Val, ErrV> {
    match r {
        Ok(v) => Ok(v@),
        Err(e) => Err(e@),
    }
}

pub fn err_string(s: String) -> (r: SoloRet)
    ensures
        r == Err::<SoloType, SoloError>(SoloError::ErrString(s)),
{
    Err(SoloError::ErrString(s))
}

pub fn err_str(s: &str) -> (r: SoloRet)
    ensures
        ret_view(r) == Err::<Val, ErrV>(ErrV::Msg(s@)),
{
    Err(SoloError::ErrString(s.to_owned()))
}

pub fn err_val(sv: SoloType) -> (r: SoloRet)
    ensures
        r == Err::<SoloType, SoloError>(SoloError::ErrSoloVal(sv)),
{
    Err(SoloError::ErrSoloVal(sv))
}

// Scalar constructors.
pub fn _nil() -> (r: SoloType)
    ensures
        r@ == Val::Nil,
{
    SoloType::Nil
}

pub fn _true() -> (r: SoloType)
    ensures
        r@ == Val::True,
{
    SoloType::True
}

pub fn _false() -> (r: SoloType)
    ensures
        r@ == Val::False,
{
    SoloType::False
}

pub fn _int(i: isize) -> (r: SoloType)
    ensures
        r@ == Val::Int(i as int),
{
    SoloType::Int(i)
}

// Symbols and strings.
pub fn symbol(s: &str) -> (r: SoloType)
    ensures
        r@ == Val::Sym(s@),
{
    SoloType::Sym(str_to_chars(s))
}

pub fn strn(s: &str) -> (r: SoloType)
    ensures
        r@ == Val::Strn(s@),
{
    SoloType::Strn(str_to_chars(s))
}

pub fn string(s: String) -> (r: SoloType)
    ensures
        r@ == Val::Strn(s@),
{
    SoloType::Strn(str_to_chars(s.as_str()))
}

/// What each built-in native function returns: every one-argument builtin
/// demands exactly one argument, the converting builtins reject arguments
/// of the wrong kind, and the collection builtins wrap the whole argument
/// sequence.
pub open spec fn spec_native(f: NativeFn, args: Seq<Val>) -> Result<Val, ErrV> {
    match f {
        NativeFn::NilQ => if args.len() != 1 {
            Err(ErrV::Msg("Wrong arity to nil? call"@))
        } else {
            Ok(bool_val(args[0] is Nil))
        },
        NativeFn::TrueQ => if args.len() != 1 {
            Err(ErrV::Msg("Wrong arity to true? call"@))
        } else {
            Ok(bool_val(args[0] is True))
        },
        NativeFn::FalseQ => if args.len() != 1 {
            Err(ErrV::Msg("Wrong arity to false? call"@))
        } else {
            Ok(bool_val(args[0] is False))
        },
        NativeFn::SymbolQ => if args.len() != 1 {
            Err(ErrV::Msg("Wrong arity to symbol? call"@))
        } else {
            Ok(bool_val(args[0] is Sym))
        },
        NativeFn::KeywordQ => if args.len() != 1 {
            Err(ErrV::Msg("Wrong arity to keyword? call"@))
        } else {
            Ok(bool_val(is_keyword(args[0])))
        },
        NativeFn::ListQ => if args.len() != 1 {
            Err(ErrV::Msg("Wrong arity to list? call"@))
        } else {
            Ok(bool_val(args[0] is List))
        },
        NativeFn::VectorQ => if args.len() != 1 {
            Err(ErrV::Msg("Wrong arity to vector? call"@))
        } else {
            Ok(bool_val(args[0] is Vector))
        },
        NativeFn::MapQ => if args.len() != 1 {
            Err(ErrV::Msg("Wrong arity to map? call"@))
        } else {
            Ok(bool_val(args[0] is Mapping))
        },
        NativeFn::AtomQ => if args.len() != 1 {
            Err(ErrV::Msg("Wrong arity to atom? call"@))
        } else {
            Ok(bool_val(args[0] is Atom))
        },
        NativeFn::SequentialQ => if args.len() != 1 {
            Err(ErrV::Msg("Wrong arity to sequential? call"@))
        } else {
            Ok(bool_val(args[0] is List || args[0] is Vector))
        },
        NativeFn::ToSymbol => if args.len() != 1 {
            Err(ErrV::Msg("Wrong arity to symbol call"@))
        } else if args[0] is Strn {
            Ok(Val::Sym(args[0]->Strn_0))
        } else {
            Err(ErrV::Msg("symbol called on non-string"@))
        },
        NativeFn::ToKeyword => if args.len() != 1 {
            Err(ErrV::Msg("Wrong arity to keyword call"@))
        } else if args[0] is Strn {
            Ok(Val::Strn(seq![KEYWORD_MARK] + args[0]->Strn_0))
        } else {
            Err(ErrV::Msg("keyword called on non-string"@))
        },
        NativeFn::ToList => Ok(Val::List(args, Box::new(Val::Nil))),
        NativeFn::ToVector => Ok(Val::Vector(args, Box::new(Val::Nil))),
        NativeFn::ToMap => match spec_assoc(Seq::empty(), args) {
            Ok(es) => Ok(Val::Mapping(es, Box::new(Val::Nil))),
            Err(e) => Err(e),
        },
        NativeFn::ToAtom => if args.len() != 1 {
            Err(ErrV::Msg("Wrong arity to atom call"@))
        } else {
            Ok(Val::Atom(Box::new(args[0])))
        },
    }
}

impl SoloType {
    /// A structurally identical copy; every value is shared by copying.
    pub fn duplicate(&self) -> (r: SoloType)
        ensures
            r@ == self@,
        decreases *self,
    {
        match self {
            SoloType::Nil => SoloType::Nil,
            SoloType::True => SoloType::True,
            SoloType::False => SoloType::False,
            SoloType::Int(i) => SoloType::Int(*i),
            SoloType::Strn(cs) => SoloType::Strn(dup_chars(cs)),
            SoloType::Sym(cs) => SoloType::Sym(dup_chars(cs)),
            SoloType::List(es, m) => SoloType::List(dup_seq(es), Box::new(m.duplicate())),
            SoloType::Vector(es, m) => SoloType::Vector(dup_seq(es), Box::new(m.duplicate())),
            SoloType::Hash_Map(es, m) => SoloType::Hash_Map(
                dup_entries(es),
                Box::new(m.duplicate()),
            ),
            SoloType::Func(f, m) => SoloType::Func(*f, Box::new(m.duplicate())),
            SoloType::SoloFunc(d, m) => SoloType::SoloFunc(
                Box::new(
                    SoloFuncData {
                        exp: Box::new(d.exp.duplicate()),
                        env: d.env,
                        params: Box::new(d.params.duplicate()),
                        is_macro: d.is_macro,
                    },
                ),
                Box::new(m.duplicate()),
            ),
            SoloType::Atom(inner) => SoloType::Atom(Box::new(inner.duplicate())),
        }
    }
}

/// A copy of every element of a value vector.
fn dup_seq(es: &Vec<SoloType>) -> (r: Vec<SoloType>)
    ensures
        seq_val_of(r@) == seq_val_of(es@),
    decreases *es,
{
    let mut out: Vec<SoloType> = Vec::new();
    let mut i: usize = 0;
    while i < es.len()
        invariant
            i <= es.len(),
            out@.len() == i,
            forall|j: int| 0 <= j < i ==> out@[j]@ == es@[j]@,
        decreases es.len() - i,
    {
        let d = es[i].duplicate();
        out.push(d);
        i = i + 1;
    }
    proof {
        lemma_seq_val_of(out@);
        lemma_seq_val_of(es@);
        assert(seq_val_of(out@) =~= seq_val_of(es@));
    }
    out
}

/// A copy of every entry of a map's key/value vector.
fn dup_entries(es: &Vec<(Vec<char>, SoloType)>) -> (r: Vec<(Vec<char>, SoloType)>)
    ensures
        entries_val_of(r@) == entries_val_of(es@),
    decreases *es,
{
    let mut out: Vec<(Vec<char>, SoloType)> = Vec::new();
    let mut i: usize = 0;
    while i < es.len()
        invariant
            i <= es.len(),
            out@.len() == i,
            forall|j: int|
                0 <= j < i ==> out@[j].0@ == es@[j].0@ && out@[j].1@ == es@[j].1@,
        decreases es.len() - i,
    {
        let k = dup_chars(&es[i].0);
        let v = es[i].1.duplicate();
        out.push((k, v));
        i = i + 1;
    }
    proof {
        lemma_entries_val_of(out@);
        lemma_entries_val_of(es@);
        assert(entries_val_of(out@) =~= entries_val_of(es@));
    }
    out
}

// Collection constructors: the plain form attaches Nil metadata, the `m`
// form attaches the given metadata value.
pub fn list(seq: Vec<SoloType>) -> (r: SoloType)
    ensures
        r@ == Val::List(seq_val_of(seq@), Box::new(Val::Nil)),
{
    proof {
        assert(val_of(SoloType::Nil) == Val::Nil);
    }
    SoloType::List(seq, Box::new(SoloType::Nil))
}

pub fn listm(seq: Vec<SoloType>, meta: SoloType) -> (r: SoloType)
    ensures
        r@ == Val::List(seq_val_of(seq@), Box::new(meta@)),
{
    SoloType::List(seq, Box::new(meta))
}

pub fn listv(seq: Vec<SoloType>) -> (r: SoloRet)
    ensures
        ret_view(r) == spec_native(NativeFn::ToList, seq_val_of(seq@)),
{
    Ok(list(seq))
}

pub fn vector(seq: Vec<SoloType>) -> (r: SoloType)
    ensures
        r@ == Val::Vector(seq_val_of(seq@), Box::new(Val::Nil)),
{
    proof {
        assert(val_of(SoloType::Nil) == Val::Nil);
    }
    SoloType::Vector(seq, Box::new(SoloType::Nil))
}

pub fn vectorm(seq: Vec<SoloType>, meta: SoloType) -> (r: SoloType)
    ensures
        r@ == Val::Vector(seq_val_of(seq@), Box::new(meta@)),
{
    SoloType::Vector(seq, Box::new(meta))
}

pub fn vectorv(seq: Vec<SoloType>) -> (r: SoloRet)
    ensures
        ret_view(r) == spec_native(NativeFn::ToVector, seq_val_of(seq@)),
{
    Ok(vector(seq))
}

pub fn hash_map(hm: Vec<(Vec<char>, SoloType)>) -> (r: SoloType)
    requires
        unique_keys(entries_val_of(hm@)),
    ensures
        r@ == Val::Mapping(entries_val_of(hm@), Box::new(Val::Nil)),
{
    proof {
        assert(val_of(SoloType::Nil) == Val::Nil);
    }
    SoloType::Hash_Map(hm, Box::new(SoloType::Nil))
}

pub fn hash_mapm(hm: Vec<(Vec<char>, SoloType)>, meta: SoloType) -> (r: SoloType)
    requires
        unique_keys(entries_val_of(hm@)),
    ensures
        r@ == Val::Mapping(entries_val_of(hm@), Box::new(meta@)),
{
    SoloType::Hash_Map(hm, Box::new(meta))
}

// Function constructors.
pub fn func(f: NativeFn) -> (r: SoloType)
    ensures
        r@ == Val::Func(f, Box::new(Val::Nil)),
{
    proof {
        assert(val_of(SoloType::Nil) == Val::Nil);
    }
    SoloType::Func(f, Box::new(SoloType::Nil))
}

pub fn funcm(f: NativeFn, meta: SoloType) -> (r: SoloType)
    ensures
        r@ == Val::Func(f, Box::new(meta@)),
{
    SoloType::Func(f, Box::new(meta))
}

pub fn solofunc(exp: SoloType, env: u64, params: SoloType, meta: SoloType) -> (r: SoloType)
    ensures
        r@ == Val::Closure(
            SpecClosure {
                exp: Box::new(exp@),
                env: env,
                params: Box::new(params@),
                is_macro: false,
            },
            Box::new(meta@),
        ),
{
    SoloType::SoloFunc(
        Box::new(
            SoloFuncData { exp: Box::new(exp), env: env, params: Box::new(params), is_macro: false },
        ),
        Box::new(meta),
    )
}

pub fn solofuncd(mfd: SoloFuncData, meta: SoloType) -> (r: SoloType)
    ensures
        r@ == Val::Closure(
            SpecClosure {
                exp: Box::new(mfd.exp@),
                env: mfd.env,
                params: Box::new(mfd.params@),
                is_macro: mfd.is_macro,
            },
            Box::new(meta@),
        ),
{
    SoloType::SoloFunc(Box::new(mfd), Box::new(meta))
}

impl SoloType {
    /// Structural equality, as [`equiv`] states it: lists and vectors
    /// cross-compare, metadata is ignored, function and atom values are
    /// never equal to anything.
    pub fn val_eq(&self, other: &SoloType) -> (r: bool)
        ensures
            r == equiv(self@, other@),
        decreases *self,
    {
        match (self, other) {
            (SoloType::Nil, SoloType::Nil) => true,
            (SoloType::True, SoloType::True) => true,
            (SoloType::False, SoloType::False) => true,
            (SoloType::Int(x), SoloType::Int(y)) => x == y,
            (SoloType::Strn(x), SoloType::Strn(y)) => chars_eq(x, y),
            (SoloType::Sym(x), SoloType::Sym(y)) => chars_eq(x, y),
            (SoloType::List(x, _), SoloType::List(y, _)) => seq_eq(x, y),
            (SoloType::List(x, _), SoloType::Vector(y, _)) => seq_eq(x, y),
            (SoloType::Vector(x, _), SoloType::List(y, _)) => seq_eq(x, y),
            (SoloType::Vector(x, _), SoloType::Vector(y, _)) => seq_eq(x, y),
            (SoloType::Hash_Map(x, _), SoloType::Hash_Map(y, _)) => map_eq(x, y),
            _ => false,
        }
    }
}

/// Elementwise equality of two value vectors.
fn seq_eq(x: &Vec<SoloType>, y: &Vec<SoloType>) -> (r: bool)
    ensures
        r == equiv_seq(seq_val_of(x@), seq_val_of(y@)),
    decreases *x,
{
    proof {
        lemma_seq_val_of(x@);
        lemma_seq_val_of(y@);
        lemma_equiv_seq(seq_val_of(x@), seq_val_of(y@));
    }
    if x.len() != y.len() {
        return false;
    }
    let mut i: usize = 0;
    while i < x.len()
        invariant
            i <= x@.len(),
            x@.len() == y@.len(),
            forall|j: int| 0 <= j < i ==> equiv(x@[j]@, y@[j]@),
        decreases x@.len() - i,
    {
        if !x[i].val_eq(&y[i]) {
            proof {
                lemma_seq_val_of(x@);
                lemma_seq_val_of(y@);
                assert(seq_val_of(x@)[i as int] == x@[i as int]@);
                assert(seq_val_of(y@)[i as int] == y@[i as int]@);
                lemma_equiv_seq(seq_val_of(x@), seq_val_of(y@));
            }
            return false;
        }
        i = i + 1;
    }
    proof {
        lemma_seq_val_of(x@);
        lemma_seq_val_of(y@);
        assert forall|j: int| 0 <= j < seq_val_of(x@).len() implies equiv(
            seq_val_of(x@)[j],
            seq_val_of(y@)[j],
        ) by {
            assert(seq_val_of(x@)[j] == x@[j]@);
            assert(seq_val_of(y@)[j] == y@[j]@);
            assert(equiv(x@[j]@, y@[j]@));
        }
        lemma_equiv_seq(seq_val_of(x@), seq_val_of(y@));
    }
    true
}

/// Map equality over entry vectors: equal sizes and every entry of `x`
/// present in `y` under an equivalent value.
fn map_eq(x: &Vec<(Vec<char>, SoloType)>, y: &Vec<(Vec<char>, SoloType)>) -> (r: bool)
    ensures
        r == (entries_val_of(x@).len() == entries_val_of(y@).len() && equiv_entries(
            entries_val_of(x@),
            entries_val_of(y@),
        )),
    decreases *x,
{
    let ghost xv = entries_val_of(x@);
    let ghost yv = entries_val_of(y@);
    proof {
        lemma_entries_val_of(x@);
        lemma_entries_val_of(y@);
        lemma_equiv_entries(xv, yv);
    }
    if x.len() != y.len() {
        return false;
    }
    let mut i: usize = 0;
    while i < x.len()
        invariant
            i <= x@.len(),
            x@.len() == y@.len(),
            xv == entries_val_of(x@),
            yv == entries_val_of(y@),
            xv.len() == x@.len(),
            yv.len() == y@.len(),
            forall|j: int| 0 <= j < x@.len() ==> xv[j] == (x@[j].0@, x@[j].1@),
            forall|j: int| 0 <= j < y@.len() ==> yv[j] == (y@[j].0@, y@[j].1@),
            forall|j: int| 0 <= j < i ==> key_in(yv, xv[j].0) && equiv(xv[j].1, lookup(yv, xv[j].0)),
        decreases x@.len() - i,
    {
        match find_key(y, &x[i].0) {
            Some(j) => {
                proof {
                    lemma_key_index_is_first(yv, x@[i as int].0@, j as int);
                }
                if !x[i].1.val_eq(&y[j].1) {
                    proof {
                        assert(xv[i as int] == (x@[i as int].0@, x@[i as int].1@));
                        assert(yv[j as int] == (y@[j as int].0@, y@[j as int].1@));
                        assert(key_index(yv, xv[i as int].0) == j as int);
                        assert(lookup(yv, xv[i as int].0) == yv[j as int].1);
                        assert(!equiv(xv[i as int].1, lookup(yv, xv[i as int].0)));
                        lemma_equiv_entries(xv, yv);
                        assert(!equiv_entries(xv, yv));
                    }
                    return false;
                }
            },
            None => {
                proof {
                    assert(xv[i as int] == (x@[i as int].0@, x@[i as int].1@));
                    let ghost xk = xv[i as int].0;
                    assert forall|l: int| 0 <= l < yv.len() implies yv[l].0 != xk by {
                        assert(yv[l] == (y@[l].0@, y@[l].1@));
                    }
                    assert(!key_in(yv, xv[i as int].0));
                    lemma_equiv_entries(xv, yv);
                    assert(!equiv_entries(xv, yv));
                }
                return false;
            },
        }
        i = i + 1;
    }
    proof {
        lemma_equiv_entries(xv, yv);
    }
    true
}

/// The collaborators this core calls to run a user-defined function: the
/// lexical-environment chain and the expression evaluator, both owned by
/// the embedding interpreter. Environments are named by opaque handles.
pub trait Evaluator {
    /// A fresh environment whose parent is `parent`.
    fn env_new(&mut self, parent: u64) -> u64;

    /// Binds a closure's parameter pattern against an argument list in the
    /// given environment; a failure (say, an arity mismatch) is reported
    /// as a message.
    fn env_bind(&mut self, env: u64, pattern: &SoloType, args: SoloType) -> Result<(), String>;

    /// Evaluates an expression in an environment.
    fn eval(&mut self, exp: SoloType, env: u64) -> SoloRet;
}

/// The decision taken once the collaborator has attempted the parameter
/// binding of a closure call: a binding failure is returned as a message
/// error, exactly as reported, and only a successful binding lets the body
/// be evaluated.
pub fn bind_outcome(bind: Result<(), String>) -> (r: Option<SoloError>)
    ensures
        match bind {
            Ok(_) => r is None,
            Err(e) => r == Some(SoloError::ErrString(e)),
        },
{
    match bind {
        Ok(_) => None,
        Err(e) => Some(SoloError::ErrString(e)),
    }
}

impl SoloType {
    /// The function-call protocol: a native function runs directly and its
    /// result is pinned by [`spec_native`]; a closure builds the argument
    /// list, binds its parameter pattern in a fresh child of its captured
    /// environment and hands its body to the evaluator (a binding failure
    /// is returned without evaluating the body); any other value is not a
    /// function.
    pub fn apply<E: Evaluator>(&self, ev: &mut E, args: Vec<SoloType>) -> (r: SoloRet)
        ensures
            self@ matches Val::Func(f, _) ==> ret_view(r) == spec_native(f, seq_val_of(args@)),
            !(self@ is Func) && !(self@ is Closure) ==> ret_view(r) == Err::<Val, ErrV>(
                ErrV::Msg("attempt to call non-function"@),
            ),
    {
        match self {
            SoloType::Func(f, _) => match f {
                NativeFn::NilQ => nil_q(args),
                NativeFn::TrueQ => true_q(args),
                NativeFn::FalseQ => false_q(args),
                NativeFn::SymbolQ => symbol_q(args),
                NativeFn::KeywordQ => keyword_q(args),
                NativeFn::ListQ => list_q(args),
                NativeFn::VectorQ => vector_q(args),
                NativeFn::MapQ => hash_map_q(args),
                NativeFn::AtomQ => atom_q(args),
                NativeFn::SequentialQ => sequential_q(args),
                NativeFn::ToSymbol => _symbol(args),
                NativeFn::ToKeyword => _keyword(args),
                NativeFn::ToList => listv(args),
                NativeFn::ToVector => vectorv(args),
                NativeFn::ToMap => hash_mapv(args),
                NativeFn::ToAtom => atom(args),
            },
            SoloType::SoloFunc(d, _) => {
                let exp = d.exp.duplicate();
                let params = d.params.duplicate();
                let alst = list(args);
                let new_env = ev.env_new(d.env);
                let bound = ev.env_bind(new_env, &params, alst);
                match bind_outcome(bound) {
                    None => ev.eval(exp, new_env),
                    Some(e) => Err(e),
                }
            },
            _ => err_str("attempt to call non-function"),
        }
    }
}

// Symbol and keyword builtins.
pub fn _symbol(a: Vec<SoloType>) -> (r: SoloRet)
    ensures
        ret_view(r) == spec_native(NativeFn::ToSymbol, seq_val_of(a@)),
{
    proof {
        lemma_seq_val_of(a@);
    }
    if a.len() != 1 {
        return err_str("Wrong arity to symbol call");
    }
    match &a[0] {
        SoloType::Strn(s) => Ok(SoloType::Sym(dup_chars(s))),
        _ => err_str("symbol called on non-string"),
    }
}

pub fn _keyword(a: Vec<SoloType>) -> (r: SoloRet)
    ensures
        ret_view(r) == spec_native(NativeFn::ToKeyword, seq_val_of(a@)),
{
    proof {
        lemma_seq_val_of(a@);
    }
    if a.len() != 1 {
        return err_str("Wrong arity to keyword call");
    }
    match &a[0] {
        SoloType::Strn(s) => {
            let mut k: Vec<char> = Vec::new();
            k.push(KEYWORD_MARK);
            extend_chars(&mut k, s);
            proof {
                assert(k@ =~= seq![KEYWORD_MARK] + s@);
            }
            Ok(SoloType::Strn(k))
        },
        _ => err_str("keyword called on non-string"),
    }
}

// Atoms.
pub fn atom(a: Vec<SoloType>) -> (r: SoloRet)
    ensures
        ret_view(r) == spec_native(NativeFn::ToAtom, seq_val_of(a@)),
{
    proof {
        lemma_seq_val_of(a@);
    }
    if a.len() != 1 {
        return err_str("Wrong arity to atom call");
    }
    let mut a = a;
    let v = a.remove(0);
    Ok(SoloType::Atom(Box::new(v)))
}

/// Index of the first entry of `es` holding the key `k`, if any.
fn find_key(es: &Vec<(Vec<char>, SoloType)>, k: &Vec<char>) -> (r: Option<usize>)
    ensures
        match r {
            Some(j) => j < es@.len() && es@[j as int].0@ == k@ && forall|l: int|
                0 <= l < j ==> es@[l].0@ != k@,
            None => forall|l: int| 0 <= l < es@.len() ==> es@[l].0@ != k@,
        },
{
    let mut i: usize = 0;
    while i < es.len()
        invariant
            i <= es.len(),
            forall|l: int| 0 <= l < i ==> es@[l].0@ != k@,
        decreases es.len() - i,
    {
        if chars_eq(&es[i].0, k) {
            return Some(i);
        }
        i = i + 1;
    }
    None
}

/// When an index is the first holding a key, it is the key's index.
proof fn lemma_key_index_is_first(es: Seq<(Seq<char>, Val)>, k: Seq<char>, j: int)
    requires
        0 <= j < es.len(),
        es[j].0 == k,
        forall|l: int| 0 <= l < j ==> es[l].0 != k,
    ensures
        key_index(es, k) == j,
        key_in(es, k),
{
    assert(key_in(es, k));
    lemma_key_index(es, k);
    let ki = key_index(es, k);
    if ki < j {
        assert(es[ki].0 != k);
    }
}

/// Stores `v` under `k`: an existing entry is replaced in place, a new key
/// is appended at the end.
fn set_entry(es: &mut Vec<(Vec<char>, SoloType)>, k: Vec<char>, v: SoloType)
    ensures
        entries_val_of(final(es)@) == entries_set(entries_val_of(old(es)@), k@, v@),
{
    proof {
        lemma_entries_val_of(es@);
    }
    let ghost ev = entries_val_of(es@);
    match find_key(es, &k) {
        Some(j) => {
            es.set(j, (k, v));
            proof {
                lemma_key_index_is_first(ev, k@, j as int);
                lemma_entries_val_of(es@);
                assert(entries_val_of(es@) =~= ev.update(j as int, (k@, v@)));
            }
        },
        None => {
            es.push((k, v));
            proof {
                assert(!key_in(ev, k@));
                lemma_entries_val_of(es@);
                assert(entries_val_of(es@) =~= ev.push((k@, v@)));
            }
        },
    }
}

/// Removes the entry holding `k`, if any.
fn remove_entry(es: &mut Vec<(Vec<char>, SoloType)>, k: &Vec<char>)
    ensures
        entries_val_of(final(es)@) == entries_remove(entries_val_of(old(es)@), k@),
{
    proof {
        lemma_entries_val_of(es@);
    }
    let ghost ev = entries_val_of(es@);
    match find_key(es, k) {
        Some(j) => {
            es.remove(j);
            proof {
                lemma_key_index_is_first(ev, k@, j as int);
                lemma_entries_val_of(es@);
                assert(entries_val_of(es@) =~= ev.remove(j as int));
            }
        },
        None => {
            proof {
                assert(!key_in(ev, k@));
            }
        },
    }
}

/// The error naming a non-string key's position in the flat sequence.
fn key_pos_err(i: usize) -> (r: SoloRet)
    ensures
        ret_view(r) == Err::<Val, ErrV>(ErrV::Msg(key_pos_msg(i as int))),
{
    let mut m = str_to_chars("key at position ");
    let d = usize_to_chars(i);
    extend_chars(&mut m, &d);
    let tail = str_to_chars(" is not a string in hash-map call");
    extend_chars(&mut m, &tail);
    proof {
        assert(m@ =~= key_pos_msg(i as int));
    }
    err_string(chars_to_string(&m))
}

/// What `_assoc` returns on success: the updated entries under reset
/// metadata.
pub open spec fn assoc_ret(es: Seq<(Seq<char>, Val)>, kvs: Seq<Val>) -> Result<Val, ErrV> {
    match spec_assoc(es, kvs) {
        Ok(es2) => Ok(Val::Mapping(es2, Box::new(Val::Nil))),
        Err(e) => Err(e),
    }
}

/// What `_dissoc` returns on success: the remaining entries under reset
/// metadata.
pub open spec fn dissoc_ret(es: Seq<(Seq<char>, Val)>, keys: Seq<Val>) -> Result<Val, ErrV> {
    match spec_dissoc(es, keys) {
        Ok(es2) => Ok(Val::Mapping(es2, Box::new(Val::Nil))),
        Err(e) => Err(e),
    }
}

/// Persistent map update: a new map holding the old entries plus the given
/// flat key/value sequence; the input map keeps its value and the result's
/// metadata is reset to Nil.
pub fn _assoc(hm: &Vec<(Vec<char>, SoloType)>, a: Vec<SoloType>) -> (r: SoloRet)
    ensures
        ret_view(r) == assoc_ret(entries_val_of(hm@), seq_val_of(a@)),
{
    proof {
        lemma_seq_val_of(a@);
        assert(val_of(SoloType::Nil) == Val::Nil);
    }
    let ghost kvs = seq_val_of(a@);
    if a.len() % 2 == 1 {
        return err_str("odd number of hash-map keys/values");
    }
    let mut es = dup_entries(hm);
    proof {
        assert(kvs.skip(0) =~= kvs);
    }
    let mut i: usize = 0;
    while i < a.len()
        invariant
            i <= a@.len(),
            i % 2 == 0,
            a@.len() % 2 == 0,
            kvs == seq_val_of(a@),
            kvs.len() == a@.len(),
            forall|j: int| 0 <= j < a@.len() ==> kvs[j] == a@[j]@,
            build_entries(entries_val_of(hm@), kvs, 0) == build_entries(
                entries_val_of(es@),
                kvs.skip(i as int),
                i as int,
            ),
        decreases a.len() - i,
    {
        let ghost pre = entries_val_of(es@);
        match &a[i] {
            SoloType::Strn(key) => {
                let k = dup_chars(key);
                let v = a[i + 1].duplicate();
                set_entry(&mut es, k, v);
                proof {
                    assert(kvs.skip(i as int)[0] == kvs[i as int]);
                    assert(kvs.skip(i as int)[1] == kvs[i as int + 1]);
                    assert(kvs.skip(i as int).skip(2) =~= kvs.skip(i as int + 2));
                    assert(build_entries(pre, kvs.skip(i as int), i as int) == build_entries(
                        entries_val_of(es@),
                        kvs.skip(i as int + 2),
                        i as int + 2,
                    ));
                }
                i = i + 2;
            },
            _ => {
                proof {
                    assert(kvs.skip(i as int)[0] == kvs[i as int]);
                }
                return key_pos_err(i);
            },
        }
    }
    proof {
        assert(kvs.skip(a@.len() as int) =~= Seq::<Val>::empty());
    }
    Ok(SoloType::Hash_Map(es, Box::new(SoloType::Nil)))
}

/// Persistent map removal: a new map without the given keys; absent keys
/// are tolerated and the result's metadata is reset to Nil.
pub fn _dissoc(hm: &Vec<(Vec<char>, SoloType)>, a: Vec<SoloType>) -> (r: SoloRet)
    ensures
        ret_view(r) == dissoc_ret(entries_val_of(hm@), seq_val_of(a@)),
{
    proof {
        lemma_seq_val_of(a@);
        assert(val_of(SoloType::Nil) == Val::Nil);
    }
    let ghost keys = seq_val_of(a@);
    let mut es = dup_entries(hm);
    proof {
        assert(keys.skip(0) =~= keys);
    }
    let mut i: usize = 0;
    while i < a.len()
        invariant
            i <= a@.len(),
            keys == seq_val_of(a@),
            keys.len() == a@.len(),
            forall|j: int| 0 <= j < a@.len() ==> keys[j] == a@[j]@,
            dissoc_entries(entries_val_of(hm@), keys, 0) == dissoc_entries(
                entries_val_of(es@),
                keys.skip(i as int),
                i as int,
            ),
        decreases a.len() - i,
    {
        let ghost pre = entries_val_of(es@);
        match &a[i] {
            SoloType::Strn(key) => {
                remove_entry(&mut es, key);
                proof {
                    assert(keys.skip(i as int)[0] == keys[i as int]);
                    assert(keys.skip(i as int).skip(1) =~= keys.skip(i as int + 1));
                    assert(dissoc_entries(pre, keys.skip(i as int), i as int) == dissoc_entries(
                        entries_val_of(es@),
                        keys.skip(i as int + 1),
                        i as int + 1,
                    ));
                }
                i = i + 1;
            },
            _ => {
                proof {
                    assert(keys.skip(i as int)[0] == keys[i as int]);
                }
                return key_pos_err(i);
            },
        }
    }
    proof {
        assert(keys.skip(a@.len() as int) =~= Seq::<Val>::empty());
    }
    Ok(SoloType::Hash_Map(es, Box::new(SoloType::Nil)))
}

/// A map built from a flat key/value sequence; a built-in native function.
pub fn hash_mapv(seq: Vec<SoloType>) -> (r: SoloRet)
    ensures
        ret_view(r) == spec_native(NativeFn::ToMap, seq_val_of(seq@)),
{
    let empty: Vec<(Vec<char>, SoloType)> = Vec::new();
    proof {
        assert(entries_val_of(empty@) =~= Seq::<(Seq<char>, Val)>::empty());
    }
    _assoc(&empty, seq)
}

// The one-argument type predicates; each is a built-in native function.
pub fn nil_q(a: Vec<SoloType>) -> (r: SoloRet)
    ensures
        ret_view(r) == spec_native(NativeFn::NilQ, seq_val_of(a@)),
{
    proof {
        lemma_seq_val_of(a@);
    }
    if a.len() != 1 {
        return err_str("Wrong arity to nil? call");
    }
    match &a[0] {
        SoloType::Nil => Ok(_true()),
        _ => Ok(_false()),
    }
}

pub fn true_q(a: Vec<SoloType>) -> (r: SoloRet)
    ensures
        ret_view(r) == spec_native(NativeFn::TrueQ, seq_val_of(a@)),
{
    proof {
        lemma_seq_val_of(a@);
    }
    if a.len() != 1 {
        return err_str("Wrong arity to true? call");
    }
    match &a[0] {
        SoloType::True => Ok(_true()),
        _ => Ok(_false()),
    }
}

pub fn false_q(a: Vec<SoloType>) -> (r: SoloRet)
    ensures
        ret_view(r) == spec_native(NativeFn::FalseQ, seq_val_of(a@)),
{
    proof {
        lemma_seq_val_of(a@);
    }
    if a.len() != 1 {
        return err_str("Wrong arity to false? call");
    }
    match &a[0] {
        SoloType::False => Ok(_true()),
        _ => Ok(_false()),
    }
}

pub fn symbol_q(a: Vec<SoloType>) -> (r: SoloRet)
    ensures
        ret_view(r) == spec_native(NativeFn::SymbolQ, seq_val_of(a@)),
{
    proof {
        lemma_seq_val_of(a@);
    }
    if a.len() != 1 {
        return err_str("Wrong arity to symbol? call");
    }
    match &a[0] {
        SoloType::Sym(_) => Ok(_true()),
        _ => Ok(_false()),
    }
}

pub fn keyword_q(a: Vec<SoloType>) -> (r: SoloRet)
    ensures
        ret_view(r) == spec_native(NativeFn::KeywordQ, seq_val_of(a@)),
{
    proof {
        lemma_seq_val_of(a@);
    }
    if a.len() != 1 {
        return err_str("Wrong arity to keyword? call");
    }
    match &a[0] {
        SoloType::Strn(s) => {
            if s.len() > 0 && s[0] == KEYWORD_MARK {
                Ok(_true())
            } else {
                Ok(_false())
            }
        },
        _ => Ok(_false()),
    }
}

pub fn list_q(a: Vec<SoloType>) -> (r: SoloRet)
    ensures
        ret_view(r) == spec_native(NativeFn::ListQ, seq_val_of(a@)),
{
    proof {
        lemma_seq_val_of(a@);
    }
    if a.len() != 1 {
        return err_str("Wrong arity to list? call");
    }
    match &a[0] {
        SoloType::List(_, _) => Ok(_true()),
        _ => Ok(_false()),
    }
}

pub fn vector_q(a: Vec<SoloType>) -> (r: SoloRet)
    ensures
        ret_view(r) == spec_native(NativeFn::VectorQ, seq_val_of(a@)),
{
    proof {
        lemma_seq_val_of(a@);
    }
    if a.len() != 1 {
        return err_str("Wrong arity to vector? call");
    }
    match &a[0] {
        SoloType::Vector(_, _) => Ok(_true()),
        _ => Ok(_false()),
    }
}

pub fn hash_map_q(a: Vec<SoloType>) -> (r: SoloRet)
    ensures
        ret_view(r) == spec_native(NativeFn::MapQ, seq_val_of(a@)),
{
    proof {
        lemma_seq_val_of(a@);
    }
    if a.len() != 1 {
        return err_str("Wrong arity to map? call");
    }
    match &a[0] {
        SoloType::Hash_Map(_, _) => Ok(_true()),
        _ => Ok(_false()),
    }
}

pub fn atom_q(a: Vec<SoloType>) -> (r: SoloRet)
    ensures
        ret_view(r) == spec_native(NativeFn::AtomQ, seq_val_of(a@)),
{
    proof {
        lemma_seq_val_of(a@);
    }
    if a.len() != 1 {
        return err_str("Wrong arity to atom? call");
    }
    match &a[0] {
        SoloType::Atom(_) => Ok(_true()),
        _ => Ok(_false()),
    }
}

pub fn sequential_q(a: Vec<SoloType>) -> (r: SoloRet)
    ensures
        ret_view(r) == spec_native(NativeFn::SequentialQ, seq_val_of(a@)),
{
    proof {
        lemma_seq_val_of(a@);
    }
    if a.len() != 1 {
        return err_str("Wrong arity to sequential? call");
    }
    match &a[0] {
        SoloType::List(_, _) | SoloType::Vector(_, _) => Ok(_true()),
        _ => Ok(_false()),
    }
}

} // verus!
