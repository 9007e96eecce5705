use compiler_lib::js::dead_code::{optimize, NameSet};
use compiler_lib::js::{assign, binop, call, comma_list, func, lit, obj, scope_field, var, Expr, Op};

fn l(s: &str) -> Expr {
    lit(s.to_string())
}

fn sf(name: &str) -> Expr {
    scope_field("$", name)
}

fn run(e: Expr, bindings: &[Expr]) -> String {
    let mut e = e;
    optimize(&mut e, bindings);
    e.to_source()
}

#[test]
fn unread_store_of_a_constant_is_dropped() {
    let e = comma_list(vec![assign(sf("v0"), l("1")), sf("v1")]);
    assert_eq!(run(e, &[]), "$.v1");
}

#[test]
fn store_read_later_is_kept() {
    let e = comma_list(vec![assign(sf("v0"), l("1")), sf("v0")]);
    assert_eq!(run(e, &[]), "$.v0 = 1, $.v0");
}

#[test]
fn store_read_by_a_binding_is_kept() {
    let e = comma_list(vec![assign(sf("v0"), l("1")), l("2")]);
    assert_eq!(run(e, &[sf("v0")]), "$.v0 = 1, 2");
}

#[test]
fn effects_of_an_unread_store_are_kept() {
    let e = comma_list(vec![assign(sf("v0"), call(var("f".to_string()), l("1"))), l("2")]);
    assert_eq!(run(e, &[]), "f(1), 2");
}

#[test]
fn top_level_unread_store_keeps_only_its_calls() {
    let rhs = binop(call(var("f".to_string()), l("1")), l("2"), Op::Add);
    assert_eq!(run(assign(sf("v0"), rhs), &[]), "f(1)");
    assert_eq!(run(assign(sf("v0"), l("2")), &[]), "void 0");
}

#[test]
fn pure_parts_of_a_sequence_are_dropped() {
    let e = comma_list(vec![
        l("1"),
        obj(vec![("a".to_string(), call(var("g".to_string()), l("0")))]),
        func(var("x".to_string()), "s0".to_string(), l("3")),
        l("4"),
    ]);
    assert_eq!(run(e, &[]), "g(0), 4");
}

#[test]
fn stores_inside_calls_and_prints_are_checked() {
    let e = compiler_lib::js::println(vec![comma_list(vec![assign(sf("v0"), l("1")), l("5")])]);
    assert_eq!(run(e, &[]), "p.println(5)");
}

#[test]
fn store_read_inside_a_function_body_is_kept() {
    let body = binop(sf("v0"), l("1"), Op::Add);
    let e = comma_list(vec![assign(sf("v0"), l("1")), func(var("x".to_string()), "s0".to_string(), body)]);
    assert_eq!(run(e, &[]), "$.v0 = 1, (x, s0={}) => $.v0+1");
}

#[test]
fn name_set_membership() {
    let mut s = NameSet::new();
    assert!(!s.contains(&"$.v0".to_string()));
    s.insert("$.v0".to_string());
    s.insert("$.v0".to_string());
    assert!(s.contains(&"$.v0".to_string()));
    assert!(!s.contains(&"$.v1".to_string()));
}
