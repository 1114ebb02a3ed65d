use solo_rust::reader::read_str;
use solo_rust::types::{
    SoloType, SoloError, SoloRet, NativeFn, Evaluator,
    _nil, _true, _false, _int, symbol, strn, string, list, listm, listv, vector, vectorm,
    vectorv, hash_map, hash_mapm, hash_mapv, hash_map_q, func, funcm, solofunc, solofuncd,
    SoloFuncData, nil_q, true_q, false_q, symbol_q, keyword_q, list_q, vector_q, atom_q,
    sequential_q, _symbol, _keyword, atom, _assoc, _dissoc, err_str, bind_outcome,
};

fn rd(s: &str) -> SoloType {
    match read_str(s.to_string()) {
        Ok(v) => v,
        Err(_) => panic!("parse failed"),
    }
}

fn ok_of(r: SoloRet) -> SoloType {
    match r {
        Ok(v) => v,
        Err(_) => panic!("expected Ok"),
    }
}

fn err_of(r: SoloRet) -> String {
    match r {
        Err(SoloError::ErrString(m)) => m,
        _ => panic!("expected a message error"),
    }
}

#[test]
fn list_and_vector_with_equal_elements_are_equal() {
    let a = rd("(1 \"x\" [2])");
    let b = rd("[1 \"x\" (2)]");
    assert!(a.val_eq(&b));
    assert!(b.val_eq(&a));
}

#[test]
fn lists_of_different_lengths_differ() {
    assert!(!rd("(1 2)").val_eq(&rd("(1 2 3)")));
    assert!(!rd("(1 2)").val_eq(&rd("(1 3)")));
}

#[test]
fn metadata_plays_no_role_in_equality() {
    let plain = vector(vec![_int(1)]);
    let tagged = vectorm(vec![_int(1)], strn("meta"));
    assert!(plain.val_eq(&tagged));
}

#[test]
fn native_functions_never_compare_equal() {
    let f = func(NativeFn::NilQ);
    let g = func(NativeFn::NilQ);
    assert!(!f.val_eq(&g));
    assert!(!f.val_eq(&f));
    assert!(!f.val_eq(&_nil()));
}

#[test]
fn atoms_never_compare_equal() {
    let a = ok_of(atom(vec![_int(1)]));
    let b = ok_of(atom(vec![_int(1)]));
    assert!(!a.val_eq(&b));
}

#[test]
fn map_equality_ignores_entry_order() {
    let a = rd("{\"a\" 1 \"b\" 2}");
    let b = rd("{\"b\" 2 \"a\" 1}");
    assert!(a.val_eq(&b));
}

#[test]
fn map_assoc_then_dissoc_round_trips() {
    let built = ok_of(hash_mapv(vec![strn("a"), _int(1), strn("b"), _int(2)]));
    let trimmed = match &built {
        SoloType::Hash_Map(es, _) => ok_of(_dissoc(es, vec![strn("a")])),
        _ => panic!("not a map"),
    };
    let direct = ok_of(hash_mapv(vec![strn("b"), _int(2)]));
    assert!(trimmed.val_eq(&direct));
}

#[test]
fn dissoc_tolerates_absent_keys() {
    let built = ok_of(hash_mapv(vec![strn("a"), _int(1)]));
    let trimmed = match &built {
        SoloType::Hash_Map(es, _) => ok_of(_dissoc(es, vec![strn("zzz")])),
        _ => panic!("not a map"),
    };
    assert!(trimmed.val_eq(&built));
}

#[test]
fn assoc_overwrites_and_keeps_others() {
    let built = ok_of(hash_mapv(vec![strn("a"), _int(1), strn("b"), _int(2)]));
    let updated = match &built {
        SoloType::Hash_Map(es, _) => ok_of(_assoc(es, vec![strn("a"), _int(9)])),
        _ => panic!("not a map"),
    };
    let expect = ok_of(hash_mapv(vec![strn("a"), _int(9), strn("b"), _int(2)]));
    assert!(updated.val_eq(&expect));
}

#[test]
fn assoc_rejects_odd_and_non_string_keys() {
    let empty: Vec<(Vec<char>, SoloType)> = Vec::new();
    assert_eq!(err_of(_assoc(&empty, vec![strn("a")])), "odd number of hash-map keys/values");
    assert_eq!(
        err_of(_assoc(&empty, vec![_int(1), _int(2)])),
        "key at position 0 is not a string in hash-map call",
    );
    assert_eq!(
        err_of(_assoc(&empty, vec![strn("a"), _int(1), _nil(), _int(2)])),
        "key at position 2 is not a string in hash-map call",
    );
}

#[test]
fn dissoc_rejects_non_string_keys() {
    let empty: Vec<(Vec<char>, SoloType)> = Vec::new();
    assert_eq!(
        err_of(_dissoc(&empty, vec![strn("a"), _int(1)])),
        "key at position 1 is not a string in hash-map call",
    );
}

#[test]
fn predicates_classify_values() {
    assert!(matches!(ok_of(nil_q(vec![_nil()])), SoloType::True));
    assert!(matches!(ok_of(nil_q(vec![_int(0)])), SoloType::False));
    assert!(matches!(ok_of(true_q(vec![_true()])), SoloType::True));
    assert!(matches!(ok_of(false_q(vec![_false()])), SoloType::True));
    assert!(matches!(ok_of(symbol_q(vec![symbol("s")])), SoloType::True));
    assert!(matches!(ok_of(list_q(vec![list(vec![])])), SoloType::True));
    assert!(matches!(ok_of(vector_q(vec![vector(vec![])])), SoloType::True));
    assert!(matches!(ok_of(hash_map_q(vec![hash_map(Vec::new())])), SoloType::True));
    assert!(matches!(ok_of(sequential_q(vec![list(vec![])])), SoloType::True));
    assert!(matches!(ok_of(sequential_q(vec![vector(vec![])])), SoloType::True));
    assert!(matches!(ok_of(sequential_q(vec![_nil()])), SoloType::False));
    assert!(matches!(ok_of(atom_q(vec![ok_of(atom(vec![_nil()]))])), SoloType::True));
}

#[test]
fn predicates_demand_one_argument() {
    assert_eq!(err_of(nil_q(vec![])), "Wrong arity to nil? call");
    assert_eq!(err_of(keyword_q(vec![_nil(), _nil()])), "Wrong arity to keyword? call");
    assert_eq!(err_of(atom(vec![])), "Wrong arity to atom call");
}

#[test]
fn symbol_and_keyword_builtins_convert_strings() {
    let s = ok_of(_symbol(vec![strn("abc")]));
    assert!(matches!(s, SoloType::Sym(_)));
    assert_eq!(s.pr_str(true), "abc");
    assert_eq!(err_of(_symbol(vec![_int(1)])), "symbol called on non-string");
    let k = ok_of(_keyword(vec![strn("kw")]));
    assert!(matches!(ok_of(keyword_q(vec![k.duplicate()])), SoloType::True));
    assert_eq!(k.pr_str(true), ":kw");
    assert_eq!(err_of(_keyword(vec![_nil()])), "keyword called on non-string");
}

#[test]
fn keyword_of_plain_string_differs_from_it() {
    let k = ok_of(_keyword(vec![strn("a")]));
    assert!(!k.val_eq(&strn("a")));
    assert!(matches!(ok_of(keyword_q(vec![strn("a")])), SoloType::False));
}

#[test]
fn printing_covers_every_variant() {
    assert_eq!(_nil().pr_str(true), "nil");
    assert_eq!(_int(-7).pr_str(true), "-7");
    assert_eq!(strn("x").pr_str(false), "x");
    assert_eq!(strn("x").pr_str(true), "\"x\"");
    assert_eq!(func(NativeFn::NilQ).pr_str(true), "#<function ...>");
    assert_eq!(ok_of(atom(vec![_int(5)])).pr_str(false), "(atom 5)");
    let cl = solofunc(symbol("body"), 0, vector(vec![symbol("x")]), _nil());
    assert_eq!(cl.pr_str(true), "(fn* [x] body)");
    assert_eq!(listv(vec![_int(1)]).map(|v| v.pr_str(true)).unwrap_or_default(), "(1)");
    assert_eq!(vectorv(vec![_int(1)]).map(|v| v.pr_str(true)).unwrap_or_default(), "[1]");
    assert_eq!(listm(vec![_int(1)], _nil()).pr_str(true), "(1)");
    assert_eq!(hash_mapm(Vec::new(), _nil()).pr_str(true), "{}");
    assert_eq!(funcm(NativeFn::NilQ, _nil()).pr_str(false), "#<function ...>");
}

struct MockEval {
    bind_fail: Option<String>,
    binds: usize,
    evals: usize,
    last_exp: Option<SoloType>,
    next_env: u64,
}

impl MockEval {
    fn new(bind_fail: Option<String>) -> MockEval {
        MockEval { bind_fail, binds: 0, evals: 0, last_exp: None, next_env: 100 }
    }
}

impl Evaluator for MockEval {
    fn env_new(&mut self, parent: u64) -> u64 {
        self.next_env = parent + 1;
        self.next_env
    }

    fn env_bind(&mut self, _env: u64, _pattern: &SoloType, _args: SoloType) -> Result<(), String> {
        self.binds += 1;
        match &self.bind_fail {
            Some(m) => Err(m.clone()),
            None => Ok(()),
        }
    }

    fn eval(&mut self, exp: SoloType, _env: u64) -> SoloRet {
        self.evals += 1;
        self.last_exp = Some(exp.duplicate());
        Ok(exp)
    }
}

#[test]
fn apply_non_function_fails() {
    let mut ev = MockEval::new(None);
    assert_eq!(err_of(_int(3).apply(&mut ev, vec![])), "attempt to call non-function");
    assert_eq!(err_of(strn("f").apply(&mut ev, vec![_nil()])), "attempt to call non-function");
}

#[test]
fn apply_native_forwards_arguments_unchanged() {
    let mut ev = MockEval::new(None);
    let f = func(NativeFn::SequentialQ);
    assert!(matches!(ok_of(f.apply(&mut ev, vec![vector(vec![])])), SoloType::True));
    assert!(matches!(ok_of(f.apply(&mut ev, vec![_int(1)])), SoloType::False));
    assert_eq!(err_of(f.apply(&mut ev, vec![])), "Wrong arity to sequential? call");
    let lister = func(NativeFn::ToList);
    let r = ok_of(lister.apply(&mut ev, vec![_int(1), _int(2)]));
    assert!(r.val_eq(&list(vec![_int(1), _int(2)])));
    // no collaborator is consulted for a native call
    assert_eq!(ev.binds, 0);
    assert_eq!(ev.evals, 0);
}

#[test]
fn apply_closure_binds_then_evaluates_body() {
    let mut ev = MockEval::new(None);
    let body = symbol("body");
    let cl = solofunc(body, 7, vector(vec![symbol("x")]), _nil());
    let r = ok_of(cl.apply(&mut ev, vec![_int(1)]));
    assert_eq!(ev.binds, 1);
    assert_eq!(ev.evals, 1);
    assert!(r.val_eq(&symbol("body")));
    // the fresh environment is a child of the captured one
    assert_eq!(ev.next_env, 8);
}

#[test]
fn apply_closure_bind_failure_skips_the_body() {
    let mut ev = MockEval::new(Some("Wrong arity (1 vs 2)".to_string()));
    let cl = solofunc(symbol("body"), 0, vector(vec![]), _nil());
    assert_eq!(err_of(cl.apply(&mut ev, vec![_int(1)])), "Wrong arity (1 vs 2)");
    assert_eq!(ev.binds, 1);
    assert_eq!(ev.evals, 0);
}

#[test]
fn bind_outcome_maps_failures_to_errors() {
    assert!(bind_outcome(Ok(())).is_none());
    match bind_outcome(Err("boom".to_string())) {
        Some(SoloError::ErrString(m)) => assert_eq!(m, "boom"),
        _ => panic!("expected the binding failure back"),
    }
}

#[test]
fn closure_data_constructor_keeps_the_macro_flag() {
    let d = SoloFuncData {
        exp: Box::new(symbol("b")),
        env: 3,
        params: Box::new(vector(vec![])),
        is_macro: true,
    };
    let v = solofuncd(d, _nil());
    match v {
        SoloType::SoloFunc(d2, _) => {
            assert!(d2.is_macro);
            assert_eq!(d2.env, 3);
        },
        _ => panic!("not a closure"),
    }
}

#[test]
fn error_constructors_carry_their_payloads() {
    match err_str("boom") {
        Err(SoloError::ErrString(m)) => assert_eq!(m, "boom"),
        _ => panic!("expected a message error"),
    }
    match solo_rust::types::err_string("ouch".to_string()) {
        Err(SoloError::ErrString(m)) => assert_eq!(m, "ouch"),
        _ => panic!("expected a message error"),
    }
    match solo_rust::types::err_val(_int(9)) {
        Err(SoloError::ErrSoloVal(v)) => assert!(v.val_eq(&_int(9))),
        _ => panic!("expected a value error"),
    }
}

#[test]
fn string_constructors_agree() {
    assert!(strn("hi").val_eq(&string("hi".to_string())));
    assert_eq!(string("hi".to_string()).pr_str(false), "hi");
}
