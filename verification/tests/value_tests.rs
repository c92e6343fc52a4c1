use minilux::interp::{eval_binop, index_value, pop_from, push_onto, shift_from};
use minilux::value::{int_chars, parse_int, Value};
use minilux::ast::BinOp;

fn cv(s: &str) -> Vec<char> {
    s.chars().collect()
}

#[test]
fn parse_plain_number() {
    assert_eq!(parse_int(&cv("42")), 42);
    assert_eq!(parse_int(&cv("+5")), 5);
    assert_eq!(parse_int(&cv("-7")), -7);
}

#[test]
fn parse_trims_whitespace() {
    assert_eq!(parse_int(&cv("  -7 \t")), -7);
    assert_eq!(parse_int(&cv("\n 10 \r")), 10);
}

#[test]
fn parse_rejects_partial_text() {
    assert_eq!(parse_int(&cv("abc")), 0);
    assert_eq!(parse_int(&cv("")), 0);
    assert_eq!(parse_int(&cv("123abc")), 0);
    assert_eq!(parse_int(&cv("12 3")), 0);
    assert_eq!(parse_int(&cv("-")), 0);
}

#[test]
fn parse_extremes() {
    assert_eq!(parse_int(&cv("9223372036854775807")), i64::MAX);
    assert_eq!(parse_int(&cv("-9223372036854775808")), i64::MIN);
    assert_eq!(parse_int(&cv("9223372036854775808")), 0);
    assert_eq!(parse_int(&cv("99999999999999999999999999")), 0);
}

#[test]
fn arithmetic_coerces_text() {
    let a = Value::Text(cv("5"));
    let b = Value::Int(3);
    assert!(a.add(&b).equals(&Value::Int(8)));
    assert!(a.multiply(&b).equals(&Value::Int(15)));
    let junk = Value::Text(cv("junk"));
    assert!(junk.add(&Value::Int(4)).equals(&Value::Int(4)));
}

#[test]
fn division_by_zero_defined() {
    let a = Value::Int(17);
    let z = Value::Int(0);
    assert!(a.divide(&z).equals(&Value::Int(0)));
    assert!(a.modulo(&z).equals(&Value::Int(0)));
}

#[test]
fn remainder_truncating_signs() {
    assert!(Value::Int(-7).modulo(&Value::Int(3)).equals(&Value::Int(-1)));
    assert!(Value::Int(7).modulo(&Value::Int(-3)).equals(&Value::Int(1)));
    assert!(Value::Int(-7).modulo(&Value::Int(-3)).equals(&Value::Int(-1)));
    assert!(Value::Int(-7).divide(&Value::Int(3)).equals(&Value::Int(-2)));
    assert!(Value::Int(7).divide(&Value::Int(-3)).equals(&Value::Int(-2)));
    assert!(Value::Int(i64::MIN).modulo(&Value::Int(-1)).equals(&Value::Int(0)));
    assert!(Value::Int(i64::MIN).divide(&Value::Int(-1)).equals(&Value::Int(0)));
}

#[test]
fn equality_coerces_between_int_and_text() {
    assert!(Value::Int(1).equals(&Value::Text(cv("1"))));
    assert!(Value::Text(cv("01")).equals(&Value::Int(1)));
    assert!(!Value::Int(1).equals(&Value::Text(cv("2"))));
    assert!(Value::Text(cv("a")).equals(&Value::Text(cv("a"))));
    assert!(Value::Nil.equals(&Value::Nil));
    assert!(!Value::Nil.equals(&Value::Int(0)));
}

#[test]
fn array_equality_is_deep() {
    let a = Value::Arr(vec![Value::Int(1), Value::Text(cv("x"))]);
    let b = Value::Arr(vec![Value::Int(1), Value::Text(cv("x"))]);
    let c = Value::Arr(vec![Value::Int(1), Value::Text(cv("y"))]);
    assert!(a.equals(&b));
    assert!(!a.equals(&c));
}

#[test]
fn rendering_integers() {
    let r: String = int_chars(-123).into_iter().collect();
    assert_eq!(r, "-123");
    let r: String = int_chars(0).into_iter().collect();
    assert_eq!(r, "0");
    let r: String = int_chars(i64::MIN).into_iter().collect();
    assert_eq!(r, "-9223372036854775808");
}

#[test]
fn rendering_arrays_is_a_summary() {
    let a = Value::Arr(vec![Value::Int(1), Value::Int(2)]);
    let r: String = a.render().into_iter().collect();
    assert_eq!(r, "[Array(2)]");
}

#[test]
fn truthiness_rules() {
    assert!(!Value::Nil.is_truthy());
    assert!(!Value::Int(0).is_truthy());
    assert!(Value::Int(-1).is_truthy());
    assert!(!Value::Text(cv("")).is_truthy());
    assert!(Value::Text(cv("0")).is_truthy());
    assert!(!Value::Arr(vec![]).is_truthy());
    assert!(Value::Arr(vec![Value::Nil]).is_truthy());
}

#[test]
fn text_and_array_never_ordered() {
    let t = Value::Text(cv("abc"));
    let a = Value::Arr(vec![Value::Int(1)]);
    for op in [BinOp::Less, BinOp::LessEqual, BinOp::Greater, BinOp::GreaterEqual] {
        let r = eval_binop(&op, &t, &a).unwrap();
        assert!(r.equals(&Value::Int(0)));
        let r = eval_binop(&op, &a, &t).unwrap();
        assert!(r.equals(&Value::Int(0)));
    }
}

#[test]
fn text_ordering_is_lexicographic() {
    let r = eval_binop(&BinOp::Less, &Value::Text(cv("abc")), &Value::Text(cv("abd"))).unwrap();
    assert!(r.equals(&Value::Int(1)));
    let r = eval_binop(&BinOp::GreaterEqual, &Value::Text(cv("b")), &Value::Text(cv("ab")))
        .unwrap();
    assert!(r.equals(&Value::Int(1)));
}

#[test]
fn match_operator_uses_real_patterns() {
    let r = eval_binop(&BinOp::Match, &Value::Text(cv("hello")), &Value::Pat(cv("l+o$")))
        .unwrap();
    assert!(r.equals(&Value::Int(1)));
    let r = eval_binop(&BinOp::Match, &Value::Text(cv("hello")), &Value::Text(cv("^x")))
        .unwrap();
    assert!(r.equals(&Value::Int(0)));
    let e = eval_binop(&BinOp::Match, &Value::Text(cv("x")), &Value::Pat(cv("(")));
    let msg: String = match e {
        Err(m) => m.into_iter().collect(),
        Ok(_) => panic!("expected a pattern error"),
    };
    assert_eq!(msg, "Invalid regex /(/");
}

#[test]
fn push_pop_round_trip_on_nonempty_array() {
    let a = Value::Arr(vec![Value::Int(1), Value::Int(2)]);
    let b = Value::Arr(vec![Value::Int(1), Value::Int(2)]);
    let pushed = push_onto(a, Value::Int(9));
    let back = pop_from(pushed);
    assert!(back.equals(&b));
}

#[test]
fn pop_and_shift_on_empty_array_are_no_ops() {
    let empty = Value::Arr(vec![]);
    assert!(pop_from(empty).equals(&Value::Arr(vec![])));
    let empty = Value::Arr(vec![]);
    assert!(shift_from(empty).equals(&Value::Arr(vec![])));
}

#[test]
fn push_replaces_non_array_values() {
    let v = push_onto(Value::Int(7), Value::Int(1));
    assert!(v.equals(&Value::Arr(vec![Value::Int(1)])));
}

#[test]
fn indexing_rules() {
    let a = Value::Arr(vec![Value::Int(1), Value::Int(2), Value::Int(3)]);
    assert!(index_value(&a, 5).equals(&Value::Nil));
    assert!(index_value(&a, 1).equals(&Value::Int(2)));
    assert!(index_value(&a, -1).equals(&Value::Nil));
    let s = Value::Text(cv("hi"));
    assert!(index_value(&s, 1).equals(&Value::Text(cv("i"))));
    assert!(index_value(&s, 2).equals(&Value::Nil));
    assert!(index_value(&Value::Int(5), 0).equals(&Value::Nil));
}

#[test]
fn splitting_module_path_lists() {
    let parts = minilux::text::split_path_list(&cv(" /a : /b ;; c "));
    let texts: Vec<String> = parts.into_iter().map(|p| p.into_iter().collect()).collect();
    assert_eq!(texts, vec!["/a".to_string(), "/b".to_string(), "c".to_string()]);
    let parts = minilux::text::split_path_list(&cv("  "));
    assert!(parts.is_empty());
}
