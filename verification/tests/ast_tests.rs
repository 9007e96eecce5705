use compiler_lib::ast::expr::{binop, call, case, literal, loop_expr, record, variable, KeyPair};
use compiler_lib::ast::{
    any_cmp, float_cmp, float_op, int_cmp, int_op, make_join_ast, str_op, Expr, JoinKind, Literal, Op,
    Span, TypeExpr, TypeParam,
};

fn lit(s: &str, at: usize) -> Box<Expr> {
    Box::new(literal(Literal::Int, (s.to_string(), Span(at))))
}

#[test]
fn op_types() {
    assert_eq!(int_op(), (Some(Literal::Int), Literal::Int));
    assert_eq!(float_op(), (Some(Literal::Float), Literal::Float));
    assert_eq!(str_op(), (Some(Literal::Str), Literal::Str));
    assert_eq!(int_cmp(), (Some(Literal::Int), Literal::Bool));
    assert_eq!(float_cmp(), (Some(Literal::Float), Literal::Bool));
    assert_eq!(any_cmp(), (None, Literal::Bool));
}

#[test]
fn each_expression_reports_its_span() {
    let b = binop(lit("1", 1), Span(1), lit("2", 3), Span(3), int_op(), Op::Add, Span(2));
    assert_eq!(b.span(), Span(2));
    let c = call(lit("1", 1), lit("2", 2), Span(9));
    assert_eq!(c.span(), Span(9));
    assert_eq!(case((7, Span(4)), lit("1", 5)).span(), Span(4));
    assert_eq!(lit("1", 6).span(), Span(6));
    assert_eq!(variable((3, Span(8))).span(), Span(8));
    assert_eq!(loop_expr(lit("1", 1), Span(11)).span(), Span(11));
    let fields: Vec<KeyPair> = vec![((1, Span(2)), lit("5", 3), false, None)];
    assert_eq!(record(fields, Span(12)).span(), Span(12));
}

#[test]
fn literal_keeps_its_text() {
    match literal(Literal::Str, ("\"hi\"".to_string(), Span(0))) {
        Expr::Literal(e) => {
            assert_eq!(e.lit_type, Literal::Str);
            assert_eq!(e.value.0, "\"hi\"");
        }
        _ => panic!("not a literal"),
    }
}

#[test]
fn type_param_alias_defaults_to_name() {
    let p = TypeParam::new((1, Span(0)), None);
    assert_eq!(p.alias, (1, Span(0)));
    let q = TypeParam::new((1, Span(0)), Some((2, Span(5))));
    assert_eq!(q.name, (1, Span(0)));
    assert_eq!(q.alias, (2, Span(5)));
}

#[test]
fn join_of_one_type_is_that_type() {
    let one = make_join_ast(JoinKind::Union, vec![(TypeExpr::Top, Span(0))]);
    assert!(matches!(one, TypeExpr::Top));
    let two = make_join_ast(JoinKind::Intersect, vec![(TypeExpr::Top, Span(0)), (TypeExpr::Bot, Span(1))]);
    match two {
        TypeExpr::VarJoin(JoinKind::Intersect, children) => assert_eq!(children.len(), 2),
        _ => panic!("not a join"),
    }
}
