use mork_helper::arith::{factorial, factorial_i64, falling_factorial, falling_factorial_i64};
use mork_helper::error::HelperError;
use mork_helper::expr::{byte_item, check_expr, item_byte, Tag};
use mork_helper::normalize::{freshen_pattern, normalize_expr};
use mork_helper::partition::{partitions, tuple_items};
use mork_helper::vars::{
    expr_is_exp, expr_is_var, indices_to_vars, is_exp, is_var, var_marker_key, vars_to_indices,
};

const NEW: u8 = 0xc0;

fn vref(i: u8) -> u8 {
    0x80 + i
}

fn sym(s: &[u8]) -> Vec<u8> {
    let mut v = vec![0xc0 + s.len() as u8];
    v.extend_from_slice(s);
    v
}

fn tup(children: &[Vec<u8>]) -> Vec<u8> {
    let mut v = vec![children.len() as u8];
    for c in children {
        v.extend_from_slice(c);
    }
    v
}

fn var(k: usize) -> Vec<u8> {
    tup(&[sym(b"var"), sym(k.to_string().as_bytes())])
}

fn int_sym(x: i64) -> Vec<u8> {
    let mut v = vec![0xc8];
    v.extend_from_slice(&x.to_be_bytes());
    v
}

// ---------------------------------------------------------------- the encoding

#[test]
fn tags_round_trip() {
    for t in [Tag::NewVar, Tag::VarRef(0), Tag::VarRef(63), Tag::SymbolSize(1), Tag::SymbolSize(63), Tag::Arity(0), Tag::Arity(63)] {
        assert_eq!(byte_item(item_byte(t)), Some(t));
    }
    assert_eq!(byte_item(0xc0), Some(Tag::NewVar));
    assert_eq!(byte_item(0x85), Some(Tag::VarRef(5)));
    assert_eq!(byte_item(0xc3), Some(Tag::SymbolSize(3)));
    assert_eq!(byte_item(0x02), Some(Tag::Arity(2)));
    assert_eq!(byte_item(0x40), None);
    assert_eq!(byte_item(0x7f), None);
}

#[test]
fn check_expr_accepts_whole_expressions_only() {
    assert!(check_expr(&[NEW]));
    assert!(check_expr(&sym(b"abc")));
    assert!(check_expr(&tup(&[sym(b"a"), tup(&[vec![NEW], vec![vref(0)]])])));
    assert!(check_expr(&tup(&[])));
    assert!(!check_expr(&[]));
    assert!(!check_expr(&[2, NEW]));
    assert!(!check_expr(&[NEW, NEW]));
    assert!(!check_expr(&[0xc3, b'a']));
    assert!(!check_expr(&[0x40]));
}

// ---------------------------------------------------------------- factorials

#[test]
fn factorial_values() {
    assert_eq!(factorial_i64(0), Ok(1));
    assert_eq!(factorial_i64(1), Ok(1));
    assert_eq!(factorial_i64(5), Ok(120));
    assert_eq!(factorial_i64(20), Ok(2432902008176640000));
    assert_eq!(factorial(5), Ok(int_sym(120)));
    assert_eq!(factorial(5), Ok(vec![0xc8, 0, 0, 0, 0, 0, 0, 0, 120]));
}

#[test]
fn factorial_errors() {
    assert_eq!(factorial_i64(-1), Err(HelperError::FactorialNegative));
    assert_eq!(factorial(-7), Err(HelperError::FactorialNegative));
    assert_eq!(factorial_i64(21), Err(HelperError::FactorialOverflow));
    assert_eq!(factorial(i64::MAX), Err(HelperError::FactorialOverflow));
}

#[test]
fn falling_factorial_values() {
    assert_eq!(falling_factorial_i64(25, 3), Ok(13800));
    assert_eq!(falling_factorial_i64(5, 0), Ok(1));
    assert_eq!(falling_factorial_i64(0, 0), Ok(1));
    assert_eq!(falling_factorial_i64(5, 5), Ok(120));
    assert_eq!(falling_factorial(25, 3), Ok(int_sym(13800)));
}

#[test]
fn falling_factorial_errors() {
    assert_eq!(falling_factorial_i64(-1, 0), Err(HelperError::FallingFactorialNegative));
    assert_eq!(falling_factorial_i64(3, -1), Err(HelperError::FallingFactorialNegative));
    assert_eq!(falling_factorial_i64(3, 4), Err(HelperError::FallingFactorialKGreaterThanN));
    assert_eq!(falling_factorial(i64::MAX, 2), Err(HelperError::FallingFactorialOverflow));
    assert_eq!(falling_factorial_i64(21, 21), Err(HelperError::FallingFactorialOverflow));
}

#[test]
fn binomial_from_falling_factorial() {
    // C(n, k) = falling_factorial(n, k) / factorial(k)
    let c = falling_factorial_i64(25, 3).unwrap() / factorial_i64(3).unwrap();
    assert_eq!(c, 2300);
    let c = falling_factorial_i64(10, 4).unwrap() / factorial_i64(4).unwrap();
    assert_eq!(c, 210);
    assert_eq!(falling_factorial_i64(10, 4).unwrap() % factorial_i64(4).unwrap(), 0);
}

#[test]
fn falling_factorial_times_rest_is_factorial() {
    for n in 0..=20i64 {
        for k in 0..=n {
            let a = falling_factorial_i64(n, k).unwrap();
            let b = factorial_i64(n - k).unwrap();
            assert_eq!(a * b, factorial_i64(n).unwrap());
        }
        assert_eq!(falling_factorial_i64(n, n), factorial_i64(n));
    }
}

// ---------------------------------------------------------------- is_var / is_exp

#[test]
fn is_var_cases() {
    assert!(expr_is_var(&[NEW]));
    assert!(expr_is_var(&[vref(3)]));
    assert!(expr_is_var(&var(0)));
    assert!(expr_is_var(&tup(&[sym(b"var"), tup(&[sym(b"a")])])));
    assert!(!expr_is_var(&sym(b"var")));
    assert!(!expr_is_var(&tup(&[sym(b"var")])));
    assert!(!expr_is_var(&tup(&[sym(b"vax"), sym(b"0")])));
    assert!(!expr_is_var(&tup(&[sym(b"a"), sym(b"b")])));
    assert_eq!(is_var(&[NEW]), vec![0xc1, 1]);
    assert_eq!(is_var(&sym(b"x")), vec![0xc1, 0]);
}

#[test]
fn is_exp_cases() {
    assert!(expr_is_exp(&tup(&[sym(b"a"), sym(b"b")])));
    assert!(expr_is_exp(&tup(&[])));
    assert!(!expr_is_exp(&var(1)));
    assert!(!expr_is_exp(&[NEW]));
    assert!(!expr_is_exp(&sym(b"a")));
    assert_eq!(is_exp(&tup(&[sym(b"a")])), vec![0xc1, 1]);
    assert_eq!(is_exp(&var(2)), vec![0xc1, 0]);
}

#[test]
fn marker_keys() {
    assert_eq!(var_marker_key(&var(12)), Some(sym(b"12")));
    let k = tup(&[sym(b"a"), vec![NEW]]);
    assert_eq!(var_marker_key(&tup(&[sym(b"var"), k.clone()])), Some(k));
    assert_eq!(var_marker_key(&tup(&[sym(b"x"), sym(b"12")])), None);
    assert_eq!(var_marker_key(&[NEW]), None);
}

// ---------------------------------------------------------------- vars_to_indices / indices_to_vars

#[test]
fn vars_to_indices_writes_markers() {
    let e = tup(&[vec![NEW], vec![NEW], vec![vref(1)], vec![vref(2)], sym(b"s")]);
    let want = tup(&[var(0), var(1), var(0), var(1), sym(b"s")]);
    assert_eq!(vars_to_indices(&e), Ok(want));
    assert_eq!(vars_to_indices(&sym(b"a")), Ok(sym(b"a")));
    assert_eq!(vars_to_indices(&[NEW]), Ok(var(0)));
}

#[test]
fn vars_to_indices_errors() {
    assert_eq!(vars_to_indices(&tup(&[vec![NEW], vec![vref(0)]])), Err(HelperError::VarRefOutside));
    let many: Vec<Vec<u8>> = (0..33).map(|_| vec![NEW]).collect();
    let e = tup(&[tup(&many), tup(&many)]);
    assert_eq!(vars_to_indices(&e), Err(HelperError::VariableLimit));
    let some: Vec<Vec<u8>> = (0..32).map(|_| vec![NEW]).collect();
    assert!(vars_to_indices(&tup(&[tup(&some), tup(&some)])).is_ok());
}

#[test]
fn indices_to_vars_reads_markers() {
    let e = tup(&[var(0), var(1), var(0), var(1)]);
    assert_eq!(indices_to_vars(&e), Ok(tup(&[vec![NEW], vec![NEW], vec![vref(0)], vec![vref(1)]])));
    let e = tup(&[vec![NEW], tup(&[sym(b"var"), sym(b"a")]), tup(&[sym(b"var"), sym(b"a")])]);
    assert_eq!(indices_to_vars(&e), Ok(tup(&[vec![NEW], vec![NEW], vec![vref(1)]])));
    // a key is any expression, and a marker inside a key stays part of the key
    let key = tup(&[sym(b"f"), var(3)]);
    let m = tup(&[sym(b"var"), key]);
    assert_eq!(indices_to_vars(&tup(&[m.clone(), m])), Ok(tup(&[vec![NEW], vec![vref(0)]])));
    assert_eq!(indices_to_vars(&sym(b"a")), Ok(sym(b"a")));
}

#[test]
fn indices_to_vars_limit() {
    let many: Vec<Vec<u8>> = (0..33).map(|k| var(k)).collect();
    let more: Vec<Vec<u8>> = (33..66).map(|k| var(k)).collect();
    assert_eq!(indices_to_vars(&tup(&[tup(&many), tup(&more)])), Err(HelperError::VariableLimit));
}

#[test]
fn round_trip_through_markers() {
    let e = tup(&[vec![NEW], sym(b"a"), tup(&[vec![NEW], sym(b"b")])]);
    let m = vars_to_indices(&e).unwrap();
    assert_eq!(indices_to_vars(&m), Ok(e));
    // a reference i comes back as reference i - 1
    let e = tup(&[vec![NEW], vec![NEW], vec![vref(2)], vec![vref(1)]]);
    let m = vars_to_indices(&e).unwrap();
    assert_eq!(indices_to_vars(&m), Ok(tup(&[vec![NEW], vec![NEW], vec![vref(1)], vec![vref(0)]])));
}

// ---------------------------------------------------------------- freshen-pattern

#[test]
fn freshen_pattern_renumbers() {
    assert_eq!(freshen_pattern(&tup(&[vec![vref(0)], vec![NEW]])), Ok(tup(&[vec![NEW], vec![NEW]])));
    assert_eq!(freshen_pattern(&tup(&[vec![vref(5)], vec![vref(5)]])), Ok(tup(&[vec![NEW], vec![vref(0)]])));
    let e = tup(&[vec![NEW], vec![NEW], vec![vref(1)], sym(b"x")]);
    assert_eq!(freshen_pattern(&e), Ok(e.clone()));
    // a new variable takes over the slot of a reference that was introduced before it
    let e = tup(&[vec![vref(0)], vec![NEW], vec![vref(0)]]);
    assert_eq!(freshen_pattern(&e), Ok(tup(&[vec![NEW], vec![NEW], vec![vref(1)]])));
}

#[test]
fn freshen_pattern_twice_is_once() {
    let e = tup(&[vec![vref(7)], vec![NEW], vec![vref(0)], tup(&[vec![vref(3)], vec![NEW]])]);
    let once = normalize_expr(&e).unwrap();
    assert_eq!(normalize_expr(&once), Ok(once.clone()));
}

#[test]
fn freshen_pattern_limit() {
    let many: Vec<Vec<u8>> = (0..33).map(|_| vec![NEW]).collect();
    assert_eq!(freshen_pattern(&tup(&[tup(&many), tup(&many)])), Err(HelperError::TooManyVariables));
}

// ---------------------------------------------------------------- partitions

#[test]
fn tuple_items_cases() {
    let e = tup(&[sym(b"a"), tup(&[sym(b"b"), vec![NEW]])]);
    assert_eq!(tuple_items(&e), Ok(vec![sym(b"a"), tup(&[sym(b"b"), vec![NEW]])]));
    assert_eq!(tuple_items(&tup(&[])), Ok(vec![]));
    assert_eq!(tuple_items(&sym(b"a")), Err(HelperError::NotTuple));
    assert_eq!(tuple_items(&[NEW]), Err(HelperError::NotTuple));
}

#[test]
fn partitions_of_three() {
    let (a, b, c) = (sym(b"a"), sym(b"b"), sym(b"c"));
    let want = tup(&[
        tup(&[tup(&[a.clone(), b.clone()]), tup(&[c.clone()])]),
        tup(&[tup(&[a.clone(), c.clone()]), tup(&[b.clone()])]),
        tup(&[tup(&[a.clone()]), tup(&[b.clone(), c.clone()])]),
        tup(&[tup(&[a.clone()]), tup(&[b.clone()]), tup(&[c.clone()])]),
    ]);
    assert_eq!(partitions(&tup(&[a, b, c])), Ok(want));
}

#[test]
fn partitions_small() {
    let a = sym(b"a");
    assert_eq!(partitions(&tup(&[])), Ok(tup(&[])));
    assert_eq!(partitions(&tup(&[a.clone()])), Ok(tup(&[])));
    let b = sym(b"b");
    assert_eq!(
        partitions(&tup(&[a.clone(), b.clone()])),
        Ok(tup(&[tup(&[tup(&[a.clone()]), tup(&[b])])]))
    );
}

#[test]
fn partitions_drop_repeats() {
    let a = sym(b"a");
    // [[a],[a]] is the only partition of (a a) into two blocks
    assert_eq!(partitions(&tup(&[a.clone(), a.clone()])), Ok(tup(&[tup(&[tup(&[a.clone()]), tup(&[a.clone()])])])));
    let out = partitions(&tup(&[a.clone(), a.clone(), a.clone()])).unwrap();
    // [[a a] [a]] comes twice from the generation and is kept once; [[a] [a a]] differs in
    // the order of its blocks
    assert_eq!(out, tup(&[
        tup(&[tup(&[a.clone(), a.clone()]), tup(&[a.clone()])]),
        tup(&[tup(&[a.clone()]), tup(&[a.clone(), a.clone()])]),
        tup(&[tup(&[a.clone()]), tup(&[a.clone()]), tup(&[a.clone()])]),
    ]));
}

#[test]
fn partitions_renumber_variables() {
    let e = tup(&[vec![NEW], vec![NEW]]);
    let out = partitions(&e).unwrap();
    assert_eq!(out, tup(&[tup(&[tup(&[vec![NEW]]), tup(&[vec![NEW]])])]));
}

#[test]
fn partitions_errors() {
    assert_eq!(partitions(&sym(b"a")), Err(HelperError::NotTuple));
    let six: Vec<Vec<u8>> = (0..6u8).map(|i| sym(&[b'a' + i])).collect();
    assert_eq!(partitions(&tup(&six)), Err(HelperError::TupleArityUnencodable));
    let seven: Vec<Vec<u8>> = (0..7u8).map(|i| sym(&[b'a' + i])).collect();
    assert_eq!(partitions(&tup(&seven)), Err(HelperError::TupleArityExceeds255));
    let five: Vec<Vec<u8>> = (0..5u8).map(|i| sym(&[b'a' + i])).collect();
    let out = partitions(&tup(&five)).unwrap();
    // Bell(5) - 1 partitions into at least two blocks
    assert_eq!(out[0], 51);
    assert!(check_expr(&out));
}
