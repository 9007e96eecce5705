use compiler_lib::js::{
    assign, binop, call, comma_list, eqop, field, func, lit, obj, scope_field, ternary,
    unary_minus, var, void, CommaListWrite, Expr, Expr2, Op, Precedence, Token,
};

fn v(s: &str) -> Expr {
    var(s.to_string())
}

fn l(s: &str) -> Expr {
    lit(s.to_string())
}

#[test]
fn literal_and_variable_print_as_is() {
    assert_eq!(l("42").to_source(), "42");
    assert_eq!(v("x").to_source(), "x");
    assert_eq!(void().to_source(), "void 0");
}

#[test]
fn each_operator_prints_its_symbol() {
    let cases = [
        (Op::Add, "a+b"),
        (Op::Sub, "a- b"),
        (Op::Mult, "a*b"),
        (Op::Div, "a/b"),
        (Op::Rem, "a%b"),
        (Op::Lt, "a<b"),
        (Op::Lte, "a<=b"),
        (Op::Gt, "a>b"),
        (Op::Gte, "a>=b"),
        (Op::Eq, "a===b"),
        (Op::Neq, "a!==b"),
    ];
    for (op, text) in cases {
        assert_eq!(binop(v("a"), v("b"), op).to_source(), text);
    }
    assert_eq!(eqop(v("a"), v("b")).to_source(), "a===b");
}

#[test]
fn looser_operand_gets_parentheses() {
    let sum = binop(v("a"), v("b"), Op::Add);
    assert_eq!(binop(sum, v("c"), Op::Mult).to_source(), "(a+b)*c");
    let prod = binop(v("a"), v("b"), Op::Mult);
    assert_eq!(binop(prod, v("c"), Op::Add).to_source(), "a*b+c");
}

#[test]
fn right_operand_of_same_level_gets_parentheses() {
    let inner = binop(v("b"), v("c"), Op::Sub);
    assert_eq!(binop(v("a"), inner, Op::Sub).to_source(), "a- (b- c)");
    let left = binop(v("a"), v("b"), Op::Sub);
    assert_eq!(binop(left, v("c"), Op::Sub).to_source(), "a- b- c");
}

#[test]
fn comparison_of_comparisons() {
    let lt = binop(v("a"), v("b"), Op::Lt);
    assert_eq!(binop(lt, v("c"), Op::Eq).to_source(), "a<b===c");
    let eq = binop(v("a"), v("b"), Op::Eq);
    assert_eq!(binop(v("c"), eq, Op::Eq).to_source(), "c===(a===b)");
}

#[test]
fn field_and_call() {
    assert_eq!(field(v("x"), "y".to_string()).to_source(), "x.y");
    let sum = binop(v("a"), v("b"), Op::Add);
    assert_eq!(field(sum, "y".to_string()).to_source(), "(a+b).y");
    let f = field(v("f"), "g".to_string());
    assert_eq!(call(f, l("1")).to_source(), "f.g(1)");
    let args = comma_list(vec![v("a"), v("b")]);
    assert_eq!(call(v("f"), args).to_source(), "f((a, b))");
}

#[test]
fn unary_minus_wraps_looser_operand() {
    assert_eq!(unary_minus(l("5")).to_source(), "-5");
    assert_eq!(unary_minus(binop(v("a"), v("b"), Op::Add)).to_source(), "-(a+b)");
}

#[test]
fn ternary_and_assignment() {
    assert_eq!(ternary(v("c"), l("1"), l("2")).to_source(), "c ? 1 : 2");
    let inner = comma_list(vec![v("x"), v("y")]);
    assert_eq!(ternary(v("c"), inner, l("2")).to_source(), "c ? (x, y) : 2");
    assert_eq!(assign(scope_field("$", "v0"), l("3")).to_source(), "$.v0 = 3");
}

#[test]
fn arrow_function_with_object_body_is_parenthesized() {
    let body = obj(vec![("a".to_string(), l("1"))]);
    assert_eq!(func(v("x"), "s0".to_string(), body).to_source(), "(x, s0={}) => ({'a': 1})");
    let body = binop(v("x"), l("1"), Op::Add);
    assert_eq!(func(v("x"), "s1".to_string(), body).to_source(), "(x, s1={}) => x+1");
}

#[test]
fn object_properties() {
    let o = obj(vec![
        ("a".to_string(), l("1")),
        ("b".to_string(), comma_list(vec![v("x"), v("y")])),
    ]);
    assert_eq!(o.to_source(), "{'a': 1, 'b': (x, y)}");
    assert_eq!(obj(vec![]).to_source(), "{}");
}

#[test]
fn println_parenthesizes_non_primary_arguments() {
    let p = compiler_lib::js::println(vec![l("1"), binop(v("a"), v("b"), Op::Add)]);
    assert_eq!(p.to_source(), "p.println(1, (a+b))");
    assert_eq!(compiler_lib::js::println(vec![]).to_source(), "p.println()");
}

#[test]
fn comma_list_flattens_and_collapses() {
    assert_eq!(comma_list(vec![]).to_source(), "void 0");
    assert_eq!(comma_list(vec![v("a")]).to_source(), "a");
    let nested = comma_list(vec![v("a"), v("b")]);
    assert_eq!(comma_list(vec![nested, v("c")]).to_source(), "a, b, c");
    let stores = comma_list(vec![
        assign(scope_field("$", "a"), l("1")),
        assign(scope_field("$", "b"), l("2")),
    ]);
    assert_eq!(stores.to_source(), "$.a = 1, $.b = 2");
}

#[test]
fn should_inline_short_literals_and_scope_fields() {
    assert!(l("1234567890").should_inline());
    assert!(!l("12345678901").should_inline());
    assert!(unary_minus(l("7")).should_inline());
    assert!(scope_field("$", "v0").should_inline());
    assert!(!v("x").should_inline());
    assert!(!call(v("f"), l("1")).should_inline());
}

#[test]
fn clone_prints_the_same() {
    let e = binop(v("a"), call(v("f"), l("2")), Op::Mult);
    let c = e.clone();
    assert_eq!(e.to_source(), c.to_source());
}

#[test]
fn precedence_and_first_token() {
    assert_eq!(Expr2::Var("x".to_string()).precedence(), Precedence::PRIMARY);
    assert_eq!(Expr2::Void.precedence(), Precedence::UNARY);
    let sum = Expr2::BinOp(Box::new(Expr2::Obj(vec![])), Box::new(Expr2::Void), Op::Add);
    assert_eq!(sum.precedence(), Precedence::ADDITIVE);
    assert_eq!(sum.first(), Token::BRACE);
    assert_eq!(Expr2::Comma(vec![]).first(), Token::OTHER);
    assert_eq!(Precedence::ASSIGN.level_exec(), 13);
}

#[test]
fn adding_parentheses_twice_changes_nothing() {
    let mut e = Expr2::BinOp(
        Box::new(Expr2::BinOp(
            Box::new(Expr2::Var("a".to_string())),
            Box::new(Expr2::Var("b".to_string())),
            Op::Add,
        )),
        Box::new(Expr2::Minus(Box::new(Expr2::Literal("1".to_string())))),
        Op::Mult,
    );
    e.add_parens();
    let mut once = String::new();
    e.write(&mut once);
    e.add_parens();
    let mut twice = String::new();
    e.write(&mut twice);
    assert_eq!(once, "(a+b)*-1");
    assert_eq!(once, twice);
}

#[test]
fn ensure_wraps_only_when_needed() {
    let mut e = Expr2::Var("x".to_string());
    e.ensure(Precedence::PRIMARY);
    let mut s = String::new();
    e.write(&mut s);
    assert_eq!(s, "x");
    let mut e = Expr2::Void;
    e.ensure(Precedence::MEMBER);
    let mut s = String::new();
    e.write(&mut s);
    assert_eq!(s, "(void 0)");
}

#[test]
fn comma_list_writer_separates_items() {
    let mut out = String::new();
    let mut cw = CommaListWrite::new();
    cw.write(&mut out);
    out.push_str("a");
    cw.write(&mut out);
    out.push_str("b");
    assert_eq!(out, "a, b");
}

#[test]
fn ternary_condition_is_printed_as_it_is() {
    let cond = assign(scope_field("$", "x"), l("1"));
    assert_eq!(ternary(cond, v("a"), v("b")).to_source(), "$.x = 1 ? a : b");
}
