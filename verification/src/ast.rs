//! The surface syntax tree. A span of source text is held as the index that
//! identifies it, and an interned name as its integer id.

use vstd::prelude::*;

pub mod expr;

pub use expr::Expr;
pub use expr::InstantiateSourceKind;

verus! {

/// A span of source text, held as the index that identifies it.
#[derive(Debug, Clone, Copy, PartialEq, Eq, Structural)]
pub struct Span(pub usize);

/// A value with the span of source text it came from.
pub type Spanned<T> = (T, Span);

/// An interned name.
pub type StringId = u32;

/// The kind of a literal in the surface language.
#[derive(Debug, Clone, Copy, PartialEq, Eq, Structural)]
pub enum Literal {
    Bool,
    Float,
    Int,
    Str,
}

/// A binary operator of the surface language.
#[derive(Debug, Clone, Copy, PartialEq, Eq, Structural)]
pub enum Op {
    Add,
    Sub,
    Mult,
    Div,
    Rem,
    Lt,
    Lte,
    Gt,
    Gte,
    Eq,
    Neq,
}

/// The operand type an operator takes (any, where `None`) and its result type.
pub type OpType = (Option<Literal>, Literal);

/// Integer arithmetic: the operand and result types.
pub fn int_op() -> (r: OpType)
    ensures
        r == (Some(Literal::Int), Literal::Int),
{
    (Some(Literal::Int), Literal::Int)
}

/// Float arithmetic: the operand and result types.
pub fn float_op() -> (r: OpType)
    ensures
        r == (Some(Literal::Float), Literal::Float),
{
    (Some(Literal::Float), Literal::Float)
}

/// String concatenation: the operand and result types.
pub fn str_op() -> (r: OpType)
    ensures
        r == (Some(Literal::Str), Literal::Str),
{
    (Some(Literal::Str), Literal::Str)
}

/// Integer comparison: the operand and result types.
pub fn int_cmp() -> (r: OpType)
    ensures
        r == (Some(Literal::Int), Literal::Bool),
{
    (Some(Literal::Int), Literal::Bool)
}

/// Float comparison: the operand and result types.
pub fn float_cmp() -> (r: OpType)
    ensures
        r == (Some(Literal::Float), Literal::Bool),
{
    (Some(Literal::Float), Literal::Bool)
}

/// Comparison of any two values: the operand and result types.
pub fn any_cmp() -> (r: OpType)
    ensures
        r == (None::<Literal>, Literal::Bool),
{
    (None, Literal::Bool)
}

/// A pattern on the left of a `let` or in a match case.
#[derive(Debug)]
pub enum LetPattern {
    Case(Spanned<StringId>, Box<LetPattern>),
    Record(Spanned<(Vec<TypeParam>, Vec<(Spanned<StringId>, Box<LetPattern>)>)>),
    Var((Option<StringId>, Span), Option<STypeExpr>),
}

/// A type parameter: its name, and the alias it is known by in the body.
#[derive(Debug, Clone, Copy)]
pub struct TypeParam {
    pub name: Spanned<StringId>,
    pub alias: Spanned<StringId>,
}

impl TypeParam {
    /// A parameter known by `alias`, or by its own name when there is none.
    pub fn new(name: Spanned<StringId>, alias: Option<Spanned<StringId>>) -> (r: Self)
        ensures
            r.name == name,
            r.alias == match alias {
                Some(a) => a,
                None => name,
            },
    {
        let alias = match alias {
            Some(a) => a,
            None => name,
        };
        TypeParam { name, alias }
    }
}

/// A field of a record type: read-only, or readable and writable with one
/// type or with a pair of types.
#[derive(Debug)]
pub enum FieldTypeDecl {
    Imm(STypeExpr),
    RWSame(STypeExpr),
    RWPair(STypeExpr, STypeExpr),
}

pub type KeyPairType = (Spanned<StringId>, FieldTypeDecl);

/// Whether a polymorphic type binds its parameters universally or existentially.
#[derive(Debug, Clone, Copy, PartialEq, Eq, Structural)]
pub enum PolyKind {
    Universal,
    Existential,
}

/// Whether a join of type variables is a union or an intersection.
#[derive(Debug, Clone, Copy, PartialEq, Eq, Structural)]
pub enum JoinKind {
    Union,
    Intersect,
}

/// A type expression.
#[derive(Debug)]
pub enum TypeExpr {
    Bot,
    Case(Vec<(Spanned<StringId>, Box<STypeExpr>)>),
    Func(Box<STypeExpr>, Box<STypeExpr>),
    Hole,
    Ident(StringId),
    Poly(Vec<TypeParam>, Box<STypeExpr>, PolyKind),
    Record(Vec<KeyPairType>),
    RecursiveDef(StringId, Box<STypeExpr>),
    Top,
    VarJoin(JoinKind, Vec<STypeExpr>),
}

pub type STypeExpr = Spanned<TypeExpr>;

pub type LetDefinition = (LetPattern, Box<Expr>);

pub type LetRecDefinition = (StringId, Spanned<Expr>);

/// A statement of a block or of a script.
#[derive(Debug)]
pub enum Statement {
    Empty,
    Expr(Expr),
    LetDef(LetDefinition),
    LetRecDef(Vec<LetRecDefinition>),
    Println(Vec<Expr>),
}

/// A join of the given types: the type itself when there is one, else a
/// `VarJoin` of them all.
pub fn make_join_ast(kind: JoinKind, children: Vec<STypeExpr>) -> (r: TypeExpr)
    requires
        children.len() >= 1,
    ensures
        children.len() == 1 ==> r == children@[0].0,
        children.len() > 1 ==> r == TypeExpr::VarJoin(kind, children),
{
    let mut children = children;
    if children.len() <= 1 {
        children.pop().unwrap().0
    } else {
        TypeExpr::VarJoin(kind, children)
    }
}

} // verus!
