//! Expressions of the surface syntax tree, one struct per kind, with their
//! constructors.

use vstd::prelude::*;
use crate::ast::LetPattern;
use crate::ast::Literal;
use crate::ast::Op;
use crate::ast::OpType;
use crate::ast::STypeExpr;
use crate::ast::Span;
use crate::ast::Spanned;
use crate::ast::Statement;
use crate::ast::StringId;
use crate::ast::TypeParam;

verus! {

/// A record field: its name, value, whether it is mutable, and its type if given.
pub type KeyPair = (Spanned<StringId>, Box<SExpr>, bool, Option<STypeExpr>);

/// Where the type arguments of an instantiation come from.
#[derive(Debug, Clone, Copy, PartialEq, Eq, Structural)]
pub enum InstantiateSourceKind {
    ImplicitCall,
    ImplicitRecord,
    ExplicitParams(bool),
}

/// A binary operation.
#[derive(Debug)]
pub struct BinOpExpr {
    pub lhs: Box<SExpr>,
    pub lhs_span: Span,
    pub rhs: Box<SExpr>,
    pub rhs_span: Span,
    pub op_type: OpType,
    pub op: Op,
    pub span: Span,
}

/// A block: statements, then the expression that gives its value.
#[derive(Debug)]
pub struct BlockExpr {
    pub statements: Vec<Statement>,
    pub expr: Box<SExpr>,
    pub span: Span,
}

/// A function call.
#[derive(Debug)]
pub struct CallExpr {
    pub func: Box<SExpr>,
    pub arg: Box<SExpr>,
    pub span: Span,
}

/// A tagged value.
#[derive(Debug)]
pub struct CaseExpr {
    pub tag: Spanned<StringId>,
    pub expr: Box<SExpr>,
}

/// Reading a record field.
#[derive(Debug)]
pub struct FieldAccessExpr {
    pub expr: Box<SExpr>,
    pub field: Spanned<StringId>,
    pub span: Span,
}

/// Writing a record field.
#[derive(Debug)]
pub struct FieldSetExpr {
    pub expr: Box<SExpr>,
    pub field: Spanned<StringId>,
    pub value: Box<SExpr>,
    pub span: Span,
}

/// A function: its type parameters, argument pattern, return type and body.
#[derive(Debug)]
pub struct FuncDefExpr {
    pub def: Spanned<(Option<Vec<TypeParam>>, Spanned<LetPattern>, Option<STypeExpr>, Box<SExpr>)>,
}

/// A conditional.
#[derive(Debug)]
pub struct IfExpr {
    pub cond: Spanned<Box<SExpr>>,
    pub then_expr: Box<SExpr>,
    pub else_expr: Box<SExpr>,
    pub span: Span,
}

/// Instantiating an existential type.
#[derive(Debug)]
pub struct InstantiateExistExpr {
    pub expr: Box<SExpr>,
    pub types: Spanned<Vec<(StringId, STypeExpr)>>,
    pub source: InstantiateSourceKind,
    pub span: Span,
}

/// Instantiating a universal type.
#[derive(Debug)]
pub struct InstantiateUniExpr {
    pub expr: Spanned<Box<SExpr>>,
    pub types: Spanned<Vec<(StringId, STypeExpr)>>,
    pub source: InstantiateSourceKind,
    pub span: Span,
}

/// A literal: its kind and its source text.
#[derive(Debug)]
pub struct LiteralExpr {
    pub lit_type: Literal,
    pub value: Spanned<String>,
}

/// A loop.
#[derive(Debug)]
pub struct LoopExpr {
    pub body: Box<SExpr>,
    pub span: Span,
}

/// A match: the value and its cases.
#[derive(Debug)]
pub struct MatchExpr {
    pub expr: Spanned<Box<SExpr>>,
    pub cases: Vec<(Spanned<LetPattern>, Box<SExpr>)>,
    pub span: Span,
}

/// A record literal.
#[derive(Debug)]
pub struct RecordExpr {
    pub fields: Vec<KeyPair>,
    pub span: Span,
}

/// An expression with a type annotation.
#[derive(Debug)]
pub struct TypedExpr {
    pub expr: Box<SExpr>,
    pub type_expr: STypeExpr,
    pub span: Span,
}

/// A variable.
#[derive(Debug)]
pub struct VariableExpr {
    pub name: Spanned<StringId>,
}

/// An expression.
#[derive(Debug)]
pub enum Expr {
    BinOp(BinOpExpr),
    Block(BlockExpr),
    Call(CallExpr),
    Case(CaseExpr),
    FieldAccess(FieldAccessExpr),
    FieldSet(FieldSetExpr),
    FuncDef(FuncDefExpr),
    If(IfExpr),
    InstantiateExist(InstantiateExistExpr),
    InstantiateUni(InstantiateUniExpr),
    Literal(LiteralExpr),
    Loop(LoopExpr),
    Match(MatchExpr),
    Record(RecordExpr),
    Typed(TypedExpr),
    Variable(VariableExpr),
}

pub type SExpr = Expr;

impl Expr {
    /// The span of source text that the expression reports as its own.
    pub open spec fn span_of(&self) -> Span {
        match self {
            Expr::BinOp(e) => e.span,
            Expr::Block(e) => e.span,
            Expr::Call(e) => e.span,
            Expr::Case(e) => e.tag.1,
            Expr::FieldAccess(e) => e.span,
            Expr::FieldSet(e) => e.span,
            Expr::FuncDef(e) => e.def.1,
            Expr::If(e) => e.span,
            Expr::InstantiateExist(e) => e.span,
            Expr::InstantiateUni(e) => e.span,
            Expr::Literal(e) => e.value.1,
            Expr::Loop(e) => e.span,
            Expr::Match(e) => e.span,
            Expr::Record(e) => e.span,
            Expr::Typed(e) => e.span,
            Expr::Variable(e) => e.name.1,
        }
    }

    pub fn span(&self) -> (r: Span)
        ensures
            r == self.span_of(),
    {
        match self {
            Expr::BinOp(e) => e.span,
            Expr::Block(e) => e.span,
            Expr::Call(e) => e.span,
            Expr::Case(e) => e.tag.1,
            Expr::FieldAccess(e) => e.span,
            Expr::FieldSet(e) => e.span,
            Expr::FuncDef(e) => e.def.1,
            Expr::If(e) => e.span,
            Expr::InstantiateExist(e) => e.span,
            Expr::InstantiateUni(e) => e.span,
            Expr::Literal(e) => e.value.1,
            Expr::Loop(e) => e.span,
            Expr::Match(e) => e.span,
            Expr::Record(e) => e.span,
            Expr::Typed(e) => e.span,
            Expr::Variable(e) => e.name.1,
        }
    }
}

pub fn binop(lhs: Box<SExpr>, lhs_span: Span, rhs: Box<SExpr>, rhs_span: Span, op_type: OpType, op: Op, op_span: Span) -> (r: Expr)
    ensures
        r == Expr::BinOp(BinOpExpr { lhs, lhs_span, rhs, rhs_span, op_type, op, span: op_span }),
{
    Expr::BinOp(BinOpExpr { lhs, lhs_span, rhs, rhs_span, op_type, op, span: op_span })
}

pub fn block(statements: Vec<Statement>, expr: Box<SExpr>, span: Span) -> (r: Expr)
    ensures
        r == Expr::Block(BlockExpr { statements, expr, span }),
{
    Expr::Block(BlockExpr { statements, expr, span })
}

pub fn call(func: Box<SExpr>, arg: Box<SExpr>, span: Span) -> (r: Expr)
    ensures
        r == Expr::Call(CallExpr { func, arg, span }),
{
    Expr::Call(CallExpr { func, arg, span })
}

pub fn case(tag: Spanned<StringId>, expr: Box<SExpr>) -> (r: Expr)
    ensures
        r == Expr::Case(CaseExpr { tag, expr }),
{
    Expr::Case(CaseExpr { tag, expr })
}

pub fn field_access(expr: Box<SExpr>, field: Spanned<StringId>, span: Span) -> (r: Expr)
    ensures
        r == Expr::FieldAccess(FieldAccessExpr { expr, field, span }),
{
    Expr::FieldAccess(FieldAccessExpr { expr, field, span })
}

pub fn field_set(expr: Box<SExpr>, field: Spanned<StringId>, value: Box<SExpr>, span: Span) -> (r: Expr)
    ensures
        r == Expr::FieldSet(FieldSetExpr { expr, field, value, span }),
{
    Expr::FieldSet(FieldSetExpr { expr, field, value, span })
}

pub fn func_def(def: Spanned<(Option<Vec<TypeParam>>, Spanned<LetPattern>, Option<STypeExpr>, Box<SExpr>)>) -> (r: Expr)
    ensures
        r == Expr::FuncDef(FuncDefExpr { def }),
{
    Expr::FuncDef(FuncDefExpr { def })
}

pub fn if_expr(cond: Spanned<Box<SExpr>>, then_expr: Box<SExpr>, else_expr: Box<SExpr>, span: Span) -> (r: Expr)
    ensures
        r == Expr::If(IfExpr { cond, then_expr, else_expr, span }),
{
    Expr::If(IfExpr { cond, then_expr, else_expr, span })
}

pub fn instantiate_exist(expr: Box<SExpr>, types: Spanned<Vec<(StringId, STypeExpr)>>, source: InstantiateSourceKind, span: Span) -> (r: Expr)
    ensures
        r == Expr::InstantiateExist(InstantiateExistExpr { expr, types, source, span }),
{
    Expr::InstantiateExist(InstantiateExistExpr { expr, types, source, span })
}

pub fn instantiate_uni(expr: Spanned<Box<SExpr>>, types: Spanned<Vec<(StringId, STypeExpr)>>, source: InstantiateSourceKind, span: Span) -> (r: Expr)
    ensures
        r == Expr::InstantiateUni(InstantiateUniExpr { expr, types, source, span }),
{
    Expr::InstantiateUni(InstantiateUniExpr { expr, types, source, span })
}

pub fn literal(lit_type: Literal, value: Spanned<String>) -> (r: Expr)
    ensures
        r == Expr::Literal(LiteralExpr { lit_type, value }),
{
    Expr::Literal(LiteralExpr { lit_type, value })
}

pub fn loop_expr(body: Box<SExpr>, span: Span) -> (r: Expr)
    ensures
        r == Expr::Loop(LoopExpr { body, span }),
{
    Expr::Loop(LoopExpr { body, span })
}

pub fn match_expr(expr: Spanned<Box<SExpr>>, cases: Vec<(Spanned<LetPattern>, Box<SExpr>)>, span: Span) -> (r: Expr)
    ensures
        r == Expr::Match(MatchExpr { expr, cases, span }),
{
    Expr::Match(MatchExpr { expr, cases, span })
}

pub fn record(fields: Vec<KeyPair>, span: Span) -> (r: Expr)
    ensures
        r == Expr::Record(RecordExpr { fields, span }),
{
    Expr::Record(RecordExpr { fields, span })
}

pub fn typed(expr: Box<SExpr>, type_expr: STypeExpr, span: Span) -> (r: Expr)
    ensures
        r == Expr::Typed(TypedExpr { expr, type_expr, span }),
{
    Expr::Typed(TypedExpr { expr, type_expr, span })
}

pub fn variable(name: Spanned<StringId>) -> (r: Expr)
    ensures
        r == Expr::Variable(VariableExpr { name }),
{
    Expr::Variable(VariableExpr { name })
}

} // verus!
