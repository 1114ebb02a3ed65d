use solo_rust::reader::read_str;
use solo_rust::types::{SoloType, SoloError};

fn rd(s: &str) -> SoloType {
    match read_str(s.to_string()) {
        Ok(v) => v,
        Err(SoloError::ErrString(m)) => panic!("parse failed: {}", m),
        Err(SoloError::ErrSoloVal(_)) => panic!("parse failed with value error"),
    }
}

fn rd_err(s: &str) -> String {
    match read_str(s.to_string()) {
        Ok(_) => panic!("expected a parse error"),
        Err(SoloError::ErrString(m)) => m,
        Err(SoloError::ErrSoloVal(_)) => panic!("expected a message error"),
    }
}

#[test]
fn list_of_three_ints() {
    match rd("(1 2 3)") {
        SoloType::List(es, _) => {
            assert_eq!(es.len(), 3);
            for (i, expect) in [1isize, 2, 3].iter().enumerate() {
                match &es[i] {
                    SoloType::Int(v) => assert_eq!(v, expect),
                    _ => panic!("element {} is not an Int", i),
                }
            }
        },
        _ => panic!("not a list"),
    }
}

#[test]
fn keyword_reads_and_prints() {
    let v = rd(":foo");
    let q = solo_rust::types::keyword_q(vec![v.duplicate()]);
    match q {
        Ok(b) => assert!(matches!(b, SoloType::True)),
        Err(_) => panic!("keyword_q failed"),
    }
    assert_eq!(v.pr_str(true), ":foo");
    assert_eq!(v.pr_str(false), ":foo");
}

#[test]
fn comment_only_is_blank_signal() {
    match read_str("; comment only".to_string()) {
        Err(SoloError::ErrSoloVal(v)) => assert!(matches!(v, SoloType::Nil)),
        _ => panic!("expected the blank-input signal"),
    }
}

#[test]
fn empty_input_is_blank_signal() {
    match read_str("   , ,, ".to_string()) {
        Err(SoloError::ErrSoloVal(v)) => assert!(matches!(v, SoloType::Nil)),
        _ => panic!("expected the blank-input signal"),
    }
}

#[test]
fn unterminated_list_is_eof_error() {
    assert_eq!(rd_err("(1 2"), "expected ')', got EOF");
}

#[test]
fn unterminated_vector_is_eof_error() {
    assert_eq!(rd_err("[1 2"), "expected ']', got EOF");
}

#[test]
fn unexpected_close_is_error() {
    assert_eq!(rd_err(")"), "unexpected ')'");
    assert_eq!(rd_err("]"), "unexpected ']'");
    assert_eq!(rd_err("}"), "unexpected '}'");
}

#[test]
fn quote_macro_equals_spelled_form() {
    let a = rd("'x");
    let b = rd("(quote x)");
    assert!(a.val_eq(&b));
    assert_eq!(a.pr_str(true), "(quote x)");
}

#[test]
fn quasiquote_unquote_deref_macros() {
    assert_eq!(rd("`x").pr_str(true), "(quasiquote x)");
    assert_eq!(rd("~x").pr_str(true), "(unquote x)");
    assert_eq!(rd("~@(1 2)").pr_str(true), "(splice-unquote (1 2))");
    assert_eq!(rd("@a").pr_str(true), "(deref a)");
}

#[test]
fn meta_macro_reads_meta_first_target_second() {
    let a = rd("^{\"a\" 1} [1 2]");
    let b = rd("(with-meta [1 2] {\"a\" 1})");
    assert!(a.val_eq(&b));
    assert_eq!(a.pr_str(true), "(with-meta [1 2] {\"a\" 1})");
}

#[test]
fn atom_literal_round_trips() {
    for text in ["7", "-42", "0", "nil", "true", "false", "abc", ":k", "\"hello\""] {
        assert_eq!(rd(text).pr_str(true), text.to_string());
    }
}

#[test]
fn string_escapes_round_trip() {
    let v = rd("\"a\\nb\"");
    assert_eq!(v.pr_str(true), "\"a\\nb\"");
    assert_eq!(v.pr_str(false), "a\nb");
    let q = rd("\"say \\\"hi\\\"\"");
    assert_eq!(q.pr_str(false), "say \"hi\"");
}

#[test]
fn commas_are_whitespace() {
    assert_eq!(rd("(1,2, 3)").pr_str(true), "(1 2 3)");
}

#[test]
fn unicode_whitespace_separates_tokens() {
    assert_eq!(rd("(1\u{a0}2)").pr_str(true), "(1 2)");
    assert_eq!(rd("(1\u{2003}2)").pr_str(true), "(1 2)");
}

#[test]
fn comment_after_form_is_dropped() {
    assert_eq!(rd("42 ; the answer").pr_str(true), "42");
}

#[test]
fn nested_collections_parse() {
    assert_eq!(rd("(+ [1 2] {\"k\" (3)})").pr_str(true), "(+ [1 2] {\"k\" (3)})");
}

#[test]
fn map_with_odd_entries_is_error() {
    assert_eq!(rd_err("{\"a\"}"), "odd number of hash-map keys/values");
}

#[test]
fn map_with_non_string_key_is_error() {
    assert_eq!(rd_err("{1 2}"), "key at position 0 is not a string in hash-map call");
    assert_eq!(
        rd_err("{\"a\" 1 2 3}"),
        "key at position 2 is not a string in hash-map call",
    );
}

#[test]
fn map_later_key_overwrites_earlier() {
    let m = rd("{\"a\" 1 \"a\" 2}");
    let n = rd("{\"a\" 2}");
    assert!(m.val_eq(&n));
}

#[test]
fn keyword_map_keys_print_as_keywords() {
    assert_eq!(rd("{:a 1}").pr_str(true), "{:a 1}");
}

#[test]
fn integer_out_of_machine_range_is_error() {
    assert_eq!(rd_err("92233720368547758080000"), "integer literal out of range");
    assert_eq!(rd_err("-92233720368547758080000"), "integer literal out of range");
}

#[test]
fn unterminated_string_is_eof_error() {
    assert_eq!(rd_err("\"abc"), "expected '\"', got EOF");
    assert_eq!(rd_err("\""), "expected '\"', got EOF");
    // a trailing backslash leaves the literal unterminated too
    assert_eq!(rd_err("\"abc\\"), "expected '\"', got EOF");
    assert_eq!(rd_err("(\"abc"), "expected '\"', got EOF");
}

#[test]
fn trailing_forms_are_ignored() {
    assert_eq!(rd("1 2 3").pr_str(true), "1");
}

#[test]
fn bare_token_may_contain_macro_characters() {
    // ~, ^ and @ do not end a bare token once it has started
    assert_eq!(rd("a~@b").pr_str(true), "a~@b");
}

#[test]
fn macro_token_without_a_form_is_underflow() {
    assert_eq!(rd_err("'"), "read_atom underflow");
    assert_eq!(rd_err("^{\"a\" 1}"), "read_atom underflow");
}

#[test]
fn map_inside_vector_round_trips() {
    assert_eq!(rd("[{\"k\" :v} nil]").pr_str(true), "[{\"k\" :v} nil]");
}
