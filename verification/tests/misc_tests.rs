use compiler_lib::ast::{InstantiateSourceKind, JoinKind, Literal, Op, PolyKind};
use compiler_lib::CompilationResult;

#[test]
fn compilation_result_prints_status_line_first() {
    let ok = CompilationResult::Success("let x = 1;".to_string());
    assert_eq!(ok.to_string(), "SUCCESS\nlet x = 1;");
    let err = CompilationResult::Error("TypeError: boom".to_string());
    assert_eq!(err.to_string(), "ERROR\nTypeError: boom");
    assert_eq!(CompilationResult::Success(String::new()).to_string(), "SUCCESS\n");
}

#[test]
fn compilation_results_compare_by_value() {
    let a = CompilationResult::Error("x".to_string());
    assert_eq!(a.clone(), a);
    assert_ne!(a, CompilationResult::Success("x".to_string()));
}

#[test]
fn syntax_enums_compare_by_variant() {
    assert_eq!(Literal::Int, Literal::Int);
    assert_ne!(Literal::Int, Literal::Float);
    assert_ne!(Op::Add, Op::Sub);
    assert_eq!(PolyKind::Universal, PolyKind::Universal);
    assert_ne!(JoinKind::Union, JoinKind::Intersect);
    assert_eq!(InstantiateSourceKind::ExplicitParams(true), InstantiateSourceKind::ExplicitParams(true));
    assert_ne!(InstantiateSourceKind::ExplicitParams(true), InstantiateSourceKind::ExplicitParams(false));
    assert_ne!(InstantiateSourceKind::ImplicitCall, InstantiateSourceKind::ImplicitRecord);
}
