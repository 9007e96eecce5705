//! JavaScript expression trees: construction, printing with parentheses
//! around each operand that binds looser than its position allows (the
//! condition of a ternary is printed as it is), and a dead-code pass that
//! drops assignments to scope fields nobody reads.

use vstd::prelude::*;
use vstd::string::*;
use vstd::utf8::encode_utf8;

pub mod dead_code;

verus! {

/// A binary operator of the generated JavaScript.
#[derive(Debug, Clone, Copy, PartialEq, Eq, Structural)]
pub enum Op {
    Add,
    Sub,
    Mult,
    Div,
    Rem,
    Lt,
    Lte,
    Gt,
    Gte,
    Eq,
    Neq,
}

/// The first token that an expression prints, as far as the printer cares.
#[derive(Debug, Clone, Copy, PartialEq, Eq, Structural)]
pub enum Token {
    OTHER,
    BRACE,
    PAREN,
}

/// JavaScript's operator precedence levels, tightest first.
#[allow(non_camel_case_types)]
#[derive(Debug, Clone, Copy, PartialEq, Eq, Structural)]
pub enum Precedence {
    PRIMARY,
    MEMBER,
    CALL,
    LHS,
    UNARY,
    EXPONENT,
    MULTIPLICATIVE,
    ADDITIVE,
    SHIFT,
    RELATIONAL,
    EQUALITY,
    LOR,
    CONDITIONAL,
    ASSIGN,
    EXPR,
}

impl Precedence {
    /// The position of the level in the list above (0 binds tightest).
    pub open spec fn level(self) -> nat {
        match self {
            Precedence::PRIMARY => 0,
            Precedence::MEMBER => 1,
            Precedence::CALL => 2,
            Precedence::LHS => 3,
            Precedence::UNARY => 4,
            Precedence::EXPONENT => 5,
            Precedence::MULTIPLICATIVE => 6,
            Precedence::ADDITIVE => 7,
            Precedence::SHIFT => 8,
            Precedence::RELATIONAL => 9,
            Precedence::EQUALITY => 10,
            Precedence::LOR => 11,
            Precedence::CONDITIONAL => 12,
            Precedence::ASSIGN => 13,
            Precedence::EXPR => 14,
        }
    }

    /// The level as a number.
    pub fn level_exec(self) -> (r: u8)
        ensures
            r == self.level(),
    {
        match self {
            Precedence::PRIMARY => 0,
            Precedence::MEMBER => 1,
            Precedence::CALL => 2,
            Precedence::LHS => 3,
            Precedence::UNARY => 4,
            Precedence::EXPONENT => 5,
            Precedence::MULTIPLICATIVE => 6,
            Precedence::ADDITIVE => 7,
            Precedence::SHIFT => 8,
            Precedence::RELATIONAL => 9,
            Precedence::EQUALITY => 10,
            Precedence::LOR => 11,
            Precedence::CONDITIONAL => 12,
            Precedence::ASSIGN => 13,
            Precedence::EXPR => 14,
        }
    }
}

/// A property of an object literal.
#[derive(Debug)]
pub enum PropertyDefinition {
    Named(String, Box<Expr2>),
}

/// The JavaScript expression tree.
#[derive(Debug)]
pub enum Expr2 {
    Paren(Box<Expr2>),
    Literal(String),
    Obj(Vec<PropertyDefinition>),
    Var(String),
    Field(Box<Expr2>, String),
    ScopeField(String, String),
    Call(Box<Expr2>, Box<Expr2>),
    Minus(Box<Expr2>),
    Void,
    BinOp(Box<Expr2>, Box<Expr2>, Op),
    Ternary(Box<Expr2>, Box<Expr2>, Box<Expr2>),
    Assignment(Box<Expr2>, Box<Expr2>),
    ArrowFunc(Box<Expr2>, String, Box<Expr2>),
    Comma(Vec<Expr2>),
    Print(Vec<Expr2>),
}

/// The mathematical model of an expression tree: strings are character
/// sequences and child lists are sequences. An object property is a pair of
/// its name and its value.
pub enum JsExpr {
    Paren(Box<JsExpr>),
    Literal(Seq<char>),
    Obj(Seq<(Seq<char>, JsExpr)>),
    Var(Seq<char>),
    Field(Box<JsExpr>, Seq<char>),
    ScopeField(Seq<char>, Seq<char>),
    Call(Box<JsExpr>, Box<JsExpr>),
    Minus(Box<JsExpr>),
    Void,
    BinOp(Box<JsExpr>, Box<JsExpr>, Op),
    Ternary(Box<JsExpr>, Box<JsExpr>, Box<JsExpr>),
    Assignment(Box<JsExpr>, Box<JsExpr>),
    ArrowFunc(Box<JsExpr>, Seq<char>, Box<JsExpr>),
    Comma(Seq<JsExpr>),
    Print(Seq<JsExpr>),
}

/// The model of an expression tree.
pub open spec fn model(e: Expr2) -> JsExpr
    decreases e,
{
    match e {
        Expr2::Paren(inner) => JsExpr::Paren(Box::new(model(*inner))),
        Expr2::Literal(code) => JsExpr::Literal(code@),
        Expr2::Obj(fields) => JsExpr::Obj(props_model_of(fields)),
        Expr2::Var(name) => JsExpr::Var(name@),
        Expr2::Field(lhs, rhs) => JsExpr::Field(Box::new(model(*lhs)), rhs@),
        Expr2::ScopeField(s1, s2) => JsExpr::ScopeField(s1@, s2@),
        Expr2::Call(lhs, rhs) => JsExpr::Call(Box::new(model(*lhs)), Box::new(model(*rhs))),
        Expr2::Minus(inner) => JsExpr::Minus(Box::new(model(*inner))),
        Expr2::Void => JsExpr::Void,
        Expr2::BinOp(lhs, rhs, op) => JsExpr::BinOp(
            Box::new(model(*lhs)),
            Box::new(model(*rhs)),
            op,
        ),
        Expr2::Ternary(c, e1, e2) => JsExpr::Ternary(
            Box::new(model(*c)),
            Box::new(model(*e1)),
            Box::new(model(*e2)),
        ),
        Expr2::Assignment(lhs, rhs) => JsExpr::Assignment(
            Box::new(model(*lhs)),
            Box::new(model(*rhs)),
        ),
        Expr2::ArrowFunc(arg, scope, body) => JsExpr::ArrowFunc(
            Box::new(model(*arg)),
            scope@,
            Box::new(model(*body)),
        ),
        Expr2::Comma(exprs) => JsExpr::Comma(list_model_of(exprs)),
        Expr2::Print(exprs) => JsExpr::Print(list_model_of(exprs)),
    }
}

/// The model of a list of expressions.
pub open spec fn list_model_of(v: Vec<Expr2>) -> Seq<JsExpr>
    decreases v,
{
    Seq::new(
        v@.len(),
        |i: int|
            if 0 <= i < v@.len() {
                proof {
                    assert(decreases_to!(v => v@));
                }
                model(v@[i])
            } else {
                JsExpr::Void
            },
    )
}

/// The model of the property list of an object literal.
pub open spec fn props_model_of(v: Vec<PropertyDefinition>) -> Seq<(Seq<char>, JsExpr)>
    decreases v,
{
    Seq::new(
        v@.len(),
        |i: int|
            if 0 <= i < v@.len() {
                proof {
                    assert(decreases_to!(v => v@));
                }
                prop_model(v@[i])
            } else {
                (Seq::empty(), JsExpr::Void)
            },
    )
}

/// The model of an object property: its name and the model of its value.
pub open spec fn prop_model(p: PropertyDefinition) -> (Seq<char>, JsExpr)
    decreases p,
{
    match p {
        PropertyDefinition::Named(name, val) => (name@, model(*val)),
    }
}

/// The model of a list has the list's length and the models of its elements.
pub proof fn lemma_list_model(v: Vec<Expr2>)
    ensures
        list_model_of(v).len() == v.len(),
        forall|k: int| 0 <= k < v.len() ==> #[trigger] list_model_of(v)[k] == v@[k]@,
{
}

/// The model of a property list has the list's length and the models of its
/// properties.
pub proof fn lemma_props_model(v: Vec<PropertyDefinition>)
    ensures
        props_model_of(v).len() == v.len(),
        forall|k: int| 0 <= k < v.len() ==> #[trigger] props_model_of(v)[k] == prop_model(v@[k]),
{
}

impl View for Expr2 {
    type V = JsExpr;

    open spec fn view(&self) -> JsExpr {
        model(*self)
    }
}

/// The precedence level at which a binary operator binds.
pub open spec fn op_precedence(op: Op) -> Precedence {
    match op {
        Op::Mult | Op::Div | Op::Rem => Precedence::MULTIPLICATIVE,
        Op::Add | Op::Sub => Precedence::ADDITIVE,
        Op::Lt | Op::Lte | Op::Gt | Op::Gte => Precedence::RELATIONAL,
        Op::Eq | Op::Neq => Precedence::EQUALITY,
    }
}

/// The loosest precedence allowed for the left and the right operand of a
/// binary operator without parentheses (operators associate to the left).
pub open spec fn operand_requirements(op: Op) -> (Precedence, Precedence) {
    match op {
        Op::Mult | Op::Div | Op::Rem => (Precedence::MULTIPLICATIVE, Precedence::EXPONENT),
        Op::Add | Op::Sub => (Precedence::ADDITIVE, Precedence::MULTIPLICATIVE),
        Op::Lt | Op::Lte | Op::Gt | Op::Gte => (Precedence::RELATIONAL, Precedence::SHIFT),
        Op::Eq | Op::Neq => (Precedence::EQUALITY, Precedence::RELATIONAL),
    }
}

/// The text of a binary operator. Subtraction carries a trailing space so
/// that `a - -b` never prints as `a--b`.
pub open spec fn op_text(op: Op) -> Seq<char> {
    match op {
        Op::Add => "+"@,
        Op::Sub => "- "@,
        Op::Mult => "*"@,
        Op::Div => "/"@,
        Op::Rem => "%"@,
        Op::Lt => "<"@,
        Op::Lte => "<="@,
        Op::Gt => ">"@,
        Op::Gte => ">="@,
        Op::Eq => "==="@,
        Op::Neq => "!=="@,
    }
}

/// The precedence of an expression as printed at its root.
pub open spec fn precedence_of(e: JsExpr) -> Precedence {
    match e {
        JsExpr::Paren(..) => Precedence::PRIMARY,
        JsExpr::Literal(..) => Precedence::PRIMARY,
        JsExpr::Obj(..) => Precedence::PRIMARY,
        JsExpr::Var(..) => Precedence::PRIMARY,
        JsExpr::Field(..) => Precedence::MEMBER,
        JsExpr::ScopeField(..) => Precedence::MEMBER,
        JsExpr::Call(..) => Precedence::CALL,
        JsExpr::Minus(..) => Precedence::UNARY,
        JsExpr::Void => Precedence::UNARY,
        JsExpr::BinOp(_, _, op) => op_precedence(op),
        JsExpr::Ternary(..) => Precedence::CONDITIONAL,
        JsExpr::Assignment(..) => Precedence::ASSIGN,
        JsExpr::ArrowFunc(..) => Precedence::ASSIGN,
        JsExpr::Comma(..) => Precedence::EXPR,
        JsExpr::Print(..) => Precedence::CALL,
    }
}

/// The first token that an expression prints.
pub open spec fn first_token(e: JsExpr) -> Token
    decreases e,
{
    match e {
        JsExpr::Paren(..) => Token::PAREN,
        JsExpr::Literal(..) => Token::OTHER,
        JsExpr::Obj(..) => Token::BRACE,
        JsExpr::Var(..) => Token::OTHER,
        JsExpr::Field(lhs, _) => first_token(*lhs),
        JsExpr::ScopeField(..) => Token::OTHER,
        JsExpr::Call(lhs, _) => first_token(*lhs),
        JsExpr::Minus(..) => Token::OTHER,
        JsExpr::Void => Token::OTHER,
        JsExpr::BinOp(lhs, _, _) => first_token(*lhs),
        JsExpr::Ternary(lhs, _, _) => first_token(*lhs),
        JsExpr::Assignment(lhs, _) => first_token(*lhs),
        JsExpr::ArrowFunc(..) => Token::PAREN,
        JsExpr::Comma(exprs) => if exprs.len() == 0 {
            Token::OTHER
        } else {
            first_token(exprs[0])
        },
        JsExpr::Print(..) => Token::OTHER,
    }
}

/// The source text of an expression, printed exactly as the tree says (no
/// parentheses are added here).
pub open spec fn render(e: JsExpr) -> Seq<char>
    decreases e,
{
    match e {
        JsExpr::Paren(inner) => "("@ + render(*inner) + ")"@,
        JsExpr::Literal(code) => code,
        JsExpr::Obj(fields) => "{"@ + render_props(fields) + "}"@,
        JsExpr::Var(name) => name,
        JsExpr::Field(lhs, rhs) => render(*lhs) + "."@ + rhs,
        JsExpr::ScopeField(s1, s2) => s1 + "."@ + s2,
        JsExpr::Call(lhs, rhs) => render(*lhs) + "("@ + render(*rhs) + ")"@,
        JsExpr::Minus(inner) => "-"@ + render(*inner),
        JsExpr::Void => "void 0"@,
        JsExpr::BinOp(lhs, rhs, op) => render(*lhs) + op_text(op) + render(*rhs),
        JsExpr::Ternary(c, e1, e2) => render(*c) + " ? "@ + render(*e1) + " : "@ + render(*e2),
        JsExpr::Assignment(lhs, rhs) => render(*lhs) + " = "@ + render(*rhs),
        JsExpr::ArrowFunc(arg, scope, body) => "("@ + render(*arg) + ", "@ + scope + "={}) => "@
            + render(*body),
        JsExpr::Comma(exprs) => render_list(exprs),
        JsExpr::Print(exprs) => "p.println("@ + render_list(exprs) + ")"@,
    }
}

/// The expressions of a list printed one after another, separated by `, `.
pub open spec fn render_list(s: Seq<JsExpr>) -> Seq<char>
    decreases s,
{
    if s.len() == 0 {
        Seq::empty()
    } else if s.len() == 1 {
        render(s[0])
    } else {
        render_list(s.drop_last()) + ", "@ + render(s.last())
    }
}

/// One property of an object literal: `'name': value`.
pub open spec fn render_prop(p: (Seq<char>, JsExpr)) -> Seq<char>
    decreases p,
{
    "'"@ + p.0 + "': "@ + render(p.1)
}

/// The properties of an object literal separated by `, `.
pub open spec fn render_props(s: Seq<(Seq<char>, JsExpr)>) -> Seq<char>
    decreases s,
{
    if s.len() == 0 {
        Seq::empty()
    } else if s.len() == 1 {
        render_prop(s[0])
    } else {
        render_props(s.drop_last()) + ", "@ + render_prop(s.last())
    }
}

/// `e` as a child that may bind no looser than `required`: wrapped in
/// parentheses exactly when its own precedence is looser.
pub open spec fn ensure_prec(e: JsExpr, required: Precedence) -> JsExpr {
    if precedence_of(e).level() > required.level() {
        JsExpr::Paren(Box::new(e))
    } else {
        e
    }
}

/// An arrow function's body must not start with `{`, which would read as a
/// block: such a body is wrapped in parentheses.
pub open spec fn guard_brace(body: JsExpr) -> JsExpr {
    if first_token(body) == Token::BRACE {
        JsExpr::Paren(Box::new(body))
    } else {
        body
    }
}

/// The tree with parentheses inserted, bottom-up, around each operand that
/// binds looser than its position allows (a ternary's condition is left as
/// it is) and around an arrow function's body that starts with `{`.
pub open spec fn parenthesize(e: JsExpr) -> JsExpr
    decreases e,
{
    match e {
        JsExpr::Paren(inner) => JsExpr::Paren(Box::new(parenthesize(*inner))),
        JsExpr::Literal(code) => JsExpr::Literal(code),
        JsExpr::Obj(fields) => JsExpr::Obj(
            Seq::new(
                fields.len(),
                |i: int|
                    if 0 <= i < fields.len() {
                        (fields[i].0, ensure_prec(parenthesize(fields[i].1), Precedence::ASSIGN))
                    } else {
                        (Seq::empty(), JsExpr::Void)
                    },
            ),
        ),
        JsExpr::Var(name) => JsExpr::Var(name),
        JsExpr::Field(lhs, rhs) => JsExpr::Field(
            Box::new(ensure_prec(parenthesize(*lhs), Precedence::MEMBER)),
            rhs,
        ),
        JsExpr::ScopeField(s1, s2) => JsExpr::ScopeField(s1, s2),
        JsExpr::Call(lhs, rhs) => JsExpr::Call(
            Box::new(ensure_prec(parenthesize(*lhs), Precedence::MEMBER)),
            Box::new(ensure_prec(parenthesize(*rhs), Precedence::ASSIGN)),
        ),
        JsExpr::Minus(inner) => JsExpr::Minus(
            Box::new(ensure_prec(parenthesize(*inner), Precedence::UNARY)),
        ),
        JsExpr::Void => JsExpr::Void,
        JsExpr::BinOp(lhs, rhs, op) => JsExpr::BinOp(
            Box::new(ensure_prec(parenthesize(*lhs), operand_requirements(op).0)),
            Box::new(ensure_prec(parenthesize(*rhs), operand_requirements(op).1)),
            op,
        ),
        JsExpr::Ternary(c, e1, e2) => JsExpr::Ternary(
            Box::new(parenthesize(*c)),
            Box::new(ensure_prec(parenthesize(*e1), Precedence::ASSIGN)),
            Box::new(ensure_prec(parenthesize(*e2), Precedence::ASSIGN)),
        ),
        JsExpr::Assignment(lhs, rhs) => JsExpr::Assignment(
            Box::new(ensure_prec(parenthesize(*lhs), Precedence::LHS)),
            Box::new(ensure_prec(parenthesize(*rhs), Precedence::ASSIGN)),
        ),
        JsExpr::ArrowFunc(arg, scope, body) => JsExpr::ArrowFunc(
            Box::new(parenthesize(*arg)),
            scope,
            Box::new(guard_brace(ensure_prec(parenthesize(*body), Precedence::ASSIGN))),
        ),
        JsExpr::Comma(exprs) => JsExpr::Comma(
            Seq::new(
                exprs.len(),
                |i: int|
                    if 0 <= i < exprs.len() {
                        if i == 0 {
                            parenthesize(exprs[i])
                        } else {
                            ensure_prec(parenthesize(exprs[i]), Precedence::ASSIGN)
                        }
                    } else {
                        JsExpr::Void
                    },
            ),
        ),
        JsExpr::Print(exprs) => JsExpr::Print(
            Seq::new(
                exprs.len(),
                |i: int|
                    if 0 <= i < exprs.len() {
                        ensure_prec(parenthesize(exprs[i]), Precedence::PRIMARY)
                    } else {
                        JsExpr::Void
                    },
            ),
        ),
    }
}

/// Whether every comma expression in the tree has at least one element
/// (the constructors never build an empty one; the dead-code pass relies on
/// it).
pub open spec fn well_formed(e: JsExpr) -> bool
    decreases e,
{
    match e {
        JsExpr::Paren(inner) => well_formed(*inner),
        JsExpr::Literal(_) => true,
        JsExpr::Obj(fields) => well_formed_props(fields),
        JsExpr::Var(_) => true,
        JsExpr::Field(lhs, _) => well_formed(*lhs),
        JsExpr::ScopeField(..) => true,
        JsExpr::Call(lhs, rhs) => well_formed(*lhs) && well_formed(*rhs),
        JsExpr::Minus(inner) => well_formed(*inner),
        JsExpr::Void => true,
        JsExpr::BinOp(lhs, rhs, _) => well_formed(*lhs) && well_formed(*rhs),
        JsExpr::Ternary(c, e1, e2) => well_formed(*c) && well_formed(*e1) && well_formed(*e2),
        JsExpr::Assignment(lhs, rhs) => well_formed(*lhs) && well_formed(*rhs),
        JsExpr::ArrowFunc(arg, _, body) => well_formed(*arg) && well_formed(*body),
        JsExpr::Comma(exprs) => exprs.len() >= 1 && well_formed_list(exprs),
        JsExpr::Print(exprs) => well_formed_list(exprs),
    }
}

/// Whether every expression of a list is well formed.
pub open spec fn well_formed_list(s: Seq<JsExpr>) -> bool
    decreases s,
{
    s.len() == 0 || (well_formed_list(s.drop_last()) && well_formed(s.last()))
}

/// Whether every property value of an object literal is well formed.
pub open spec fn well_formed_props(s: Seq<(Seq<char>, JsExpr)>) -> bool
    decreases s,
{
    s.len() == 0 || (well_formed_props(s.drop_last()) && well_formed(s.last().1))
}

/// A list is well formed exactly when each of its expressions is.
pub proof fn lemma_well_formed_list(s: Seq<JsExpr>)
    ensures
        well_formed_list(s) <==> forall|i: int| 0 <= i < s.len() ==> well_formed(#[trigger] s[i]),
    decreases s.len(),
{
    if s.len() > 0 {
        lemma_well_formed_list(s.drop_last());
        if forall|i: int| 0 <= i < s.len() ==> well_formed(#[trigger] s[i]) {
            assert forall|i: int| 0 <= i < s.drop_last().len() implies well_formed(
                #[trigger] s.drop_last()[i],
            ) by {
                assert(s.drop_last()[i] == s[i]);
            }
            assert(well_formed(s[s.len() - 1]));
        }
        if well_formed_list(s) {
            assert forall|i: int| 0 <= i < s.len() implies well_formed(#[trigger] s[i]) by {
                if i < s.len() - 1 {
                    assert(s.drop_last()[i] == s[i]);
                }
            }
        }
    }
}

/// The properties are well formed exactly when each value is.
pub proof fn lemma_well_formed_props(s: Seq<(Seq<char>, JsExpr)>)
    ensures
        well_formed_props(s) <==> forall|i: int| 0 <= i < s.len() ==> well_formed(#[trigger] s[i].1),
    decreases s.len(),
{
    if s.len() > 0 {
        lemma_well_formed_props(s.drop_last());
        if forall|i: int| 0 <= i < s.len() ==> well_formed(#[trigger] s[i].1) {
            assert forall|i: int| 0 <= i < s.drop_last().len() implies well_formed(
                #[trigger] s.drop_last()[i].1,
            ) by {
                assert(s.drop_last()[i] == s[i]);
            }
            assert(well_formed(s[s.len() - 1].1));
        }
        if well_formed_props(s) {
            assert forall|i: int| 0 <= i < s.len() implies well_formed(#[trigger] s[i].1) by {
                if i < s.len() - 1 {
                    assert(s.drop_last()[i] == s[i]);
                }
            }
        }
    }
}

/// A list of expressions as one expression: nothing is `void 0`, a single
/// expression stands for itself, several form a comma expression.
pub open spec fn comma_of(s: Seq<JsExpr>) -> JsExpr {
    if s.len() == 0 {
        JsExpr::Void
    } else if s.len() == 1 {
        s[0]
    } else {
        JsExpr::Comma(s)
    }
}

/// A list of well-formed expressions joined into one is well formed.
pub proof fn lemma_comma_of_well_formed(s: Seq<JsExpr>)
    requires
        forall|i: int| 0 <= i < s.len() ==> well_formed(#[trigger] s[i]),
    ensures
        well_formed(comma_of(s)),
{
    lemma_well_formed_list(s);
    if s.len() == 1 {
        assert(well_formed(s[0]));
    }
}

/// The list with each comma expression replaced by its elements (one level).
pub open spec fn flatten_commas(s: Seq<JsExpr>) -> Seq<JsExpr>
    decreases s.len(),
{
    if s.len() == 0 {
        Seq::empty()
    } else {
        flatten_commas(s.drop_last()) + match s.last() {
            JsExpr::Comma(nested) => nested,
            e => seq![e],
        }
    }
}

/// Whether the code generator may repeat this expression instead of storing
/// it in a variable: short literals (at most ten bytes of UTF-8), negations
/// of such, and scope fields.
pub open spec fn inlinable(e: JsExpr) -> bool
    decreases e,
{
    match e {
        JsExpr::Literal(code) => encode_utf8(code).len() as usize <= 10,
        JsExpr::Minus(inner) => inlinable(*inner),
        JsExpr::ScopeField(..) => true,
        _ => false,
    }
}

/// The models of a sequence of public expressions.
pub open spec fn exprs_model(s: Seq<Expr>) -> Seq<JsExpr> {
    s.map_values(|e: Expr| e@)
}

/// A JavaScript expression. Every comma expression inside has at least one
/// element.
pub struct Expr(Expr2);

impl Expr {
    #[verifier::type_invariant]
    spec fn inv(self) -> bool {
        well_formed(self.0@)
    }

    /// Prints the expression as JavaScript source, with the parentheses that
    /// JavaScript's precedence rules need.
    pub fn to_source(self) -> (r: String)
        ensures
            r@ == render(parenthesize(self@)),
    {
        let Expr(e) = self;
        let e = e.parenthesized();
        let mut s = String::new();
        e.write(&mut s);
        s
    }

    /// Whether the code generator may repeat this expression rather than
    /// store it in a variable.
    pub fn should_inline(&self) -> (r: bool)
        ensures
            r == inlinable(self@),
    {
        self.0.should_inline()
    }
}

impl View for Expr {
    type V = JsExpr;

    closed spec fn view(&self) -> JsExpr {
        self.0@
    }
}

impl Clone for Expr {
    fn clone(&self) -> (r: Self)
        ensures
            r@ == self@,
    {
        proof {
            use_type_invariant(self);
        }
        let e = self.0.clone_tree();
        Expr(e)
    }
}

/// `lhs = rhs`.
pub fn assign(lhs: Expr, rhs: Expr) -> (r: Expr)
    ensures
        r@ == JsExpr::Assignment(Box::new(lhs@), Box::new(rhs@)),
{
    proof {
        use_type_invariant(&lhs);
        use_type_invariant(&rhs);
    }
    Expr(Expr2::Assignment(Box::new(lhs.0), Box::new(rhs.0)))
}

/// `lhs op rhs`.
pub fn binop(lhs: Expr, rhs: Expr, op: Op) -> (r: Expr)
    ensures
        r@ == JsExpr::BinOp(Box::new(lhs@), Box::new(rhs@), op),
{
    proof {
        use_type_invariant(&lhs);
        use_type_invariant(&rhs);
    }
    Expr(Expr2::BinOp(Box::new(lhs.0), Box::new(rhs.0), op))
}

/// `lhs(rhs)`.
pub fn call(lhs: Expr, rhs: Expr) -> (r: Expr)
    ensures
        r@ == JsExpr::Call(Box::new(lhs@), Box::new(rhs@)),
{
    proof {
        use_type_invariant(&lhs);
        use_type_invariant(&rhs);
    }
    Expr(Expr2::Call(Box::new(lhs.0), Box::new(rhs.0)))
}

/// `-rhs`.
pub fn unary_minus(rhs: Expr) -> (r: Expr)
    ensures
        r@ == JsExpr::Minus(Box::new(rhs@)),
{
    proof {
        use_type_invariant(&rhs);
    }
    Expr(Expr2::Minus(Box::new(rhs.0)))
}

/// `void 0`.
pub fn void() -> (r: Expr)
    ensures
        r@ == JsExpr::Void,
{
    Expr(Expr2::Void)
}

/// `lhs === rhs`.
pub fn eqop(lhs: Expr, rhs: Expr) -> (r: Expr)
    ensures
        r@ == JsExpr::BinOp(Box::new(lhs@), Box::new(rhs@), Op::Eq),
{
    proof {
        use_type_invariant(&lhs);
        use_type_invariant(&rhs);
    }
    Expr(Expr2::BinOp(Box::new(lhs.0), Box::new(rhs.0), Op::Eq))
}

/// `lhs.rhs`.
pub fn field(lhs: Expr, rhs: String) -> (r: Expr)
    ensures
        r@ == JsExpr::Field(Box::new(lhs@), rhs@),
{
    proof {
        use_type_invariant(&lhs);
    }
    Expr(Expr2::Field(Box::new(lhs.0), rhs))
}

/// `scope_var.name`, a variable stored in a scope object.
pub fn scope_field(scope_var: &str, name: &str) -> (r: Expr)
    ensures
        r@ == JsExpr::ScopeField(scope_var@, name@),
{
    Expr(Expr2::ScopeField(scope_var.to_owned(), name.to_owned()))
}

/// A literal, printed as the given code.
pub fn lit(code: String) -> (r: Expr)
    ensures
        r@ == JsExpr::Literal(code@),
{
    Expr(Expr2::Literal(code))
}

/// `cond ? e1 : e2`.
pub fn ternary(cond: Expr, e1: Expr, e2: Expr) -> (r: Expr)
    ensures
        r@ == JsExpr::Ternary(Box::new(cond@), Box::new(e1@), Box::new(e2@)),
{
    proof {
        use_type_invariant(&cond);
        use_type_invariant(&e1);
        use_type_invariant(&e2);
    }
    Expr(Expr2::Ternary(Box::new(cond.0), Box::new(e1.0), Box::new(e2.0)))
}

/// A variable reference.
pub fn var(s: String) -> (r: Expr)
    ensures
        r@ == JsExpr::Var(s@),
{
    Expr(Expr2::Var(s))
}

/// The expressions in sequence, as one comma expression. Nested comma
/// expressions are flattened into the list (one level), and a list of one
/// expression is that expression; an empty list is `void 0`.
pub fn comma_list(exprs: Vec<Expr>) -> (r: Expr)
    ensures
        r@ == comma_of(flatten_commas(exprs_model(exprs@))),
{
    let ghost orig = exprs@;
    let mut flattened: Vec<Expr2> = Vec::new();
    for expr in it: exprs.into_iter()
        invariant
            it.seq() == orig,
            list_model_of(flattened) == flatten_commas(exprs_model(orig.take(it.index() as int))),
            forall|k: int| 0 <= k < flattened.len() ==> well_formed(#[trigger] flattened@[k]@),
    {
        proof {
            use_type_invariant(&expr);
            assert(exprs_model(orig.take(it.index() + 1)).drop_last() =~= exprs_model(
                orig.take(it.index() as int),
            ));
        }
        let ghost before = list_model_of(flattened);
        let Expr(e) = expr;
        match e {
            Expr2::Comma(mut nested) => {
                let ghost nm = list_model_of(nested);
                let ghost old_flat = flattened@;
                let ghost nested_old = nested@;
                proof {
                    lemma_list_model(nested);
                    lemma_list_model(flattened);
                    lemma_well_formed_list(nm);
                }
                flattened.append(&mut nested);
                proof {
                    lemma_list_model(flattened);
                    assert(list_model_of(flattened) =~= before + nm);
                    assert forall|k: int| 0 <= k < flattened.len() implies well_formed(
                        #[trigger] flattened@[k]@,
                    ) by {
                        if k >= old_flat.len() {
                            assert(flattened@[k] == nested_old[k - old_flat.len()]);
                            assert(nm[k - old_flat.len()] == nested_old[k - old_flat.len()]@);
                        }
                    }
                }
            },
            other => {
                flattened.push(other);
                proof {
                    assert(list_model_of(flattened) =~= before + seq![other@]);
                }
            },
        }
    }
    proof {
        assert(orig.take(orig.len() as int) =~= orig);
        lemma_list_model(flattened);
        assert forall|k: int| 0 <= k < list_model_of(flattened).len() implies well_formed(
            #[trigger] list_model_of(flattened)[k],
        ) by {
            assert(list_model_of(flattened)[k] == flattened@[k]@);
        }
        lemma_comma_of_well_formed(list_model_of(flattened));
    }
    Expr(comma_list_sub(flattened))
}

/// A list of expressions as one: `void 0` when empty, the expression itself
/// when alone, otherwise a comma expression.
pub(crate) fn comma_list_sub(flattened: Vec<Expr2>) -> (r: Expr2)
    ensures
        r@ == comma_of(list_model_of(flattened)),
{
    let n = flattened.len();
    if n == 0 {
        Expr2::Void
    } else if n == 1 {
        let mut f = flattened;
        let e = f.pop().unwrap();
        e
    } else {
        proof {
            assert(list_model_of(flattened) =~= list_model_of(flattened));
        }
        Expr2::Comma(flattened)
    }
}

/// `p.println(exprs...)`.
pub fn println(exprs: Vec<Expr>) -> (r: Expr)
    ensures
        r@ == JsExpr::Print(exprs_model(exprs@)),
{
    let ghost orig = exprs@;
    let mut v: Vec<Expr2> = Vec::new();
    for e in it: exprs.into_iter()
        invariant
            it.seq() == orig,
            v.len() == it.index(),
            forall|k: int| 0 <= k < v.len() ==> #[trigger] v@[k]@ == orig[k]@,
            forall|k: int| 0 <= k < v.len() ==> well_formed(#[trigger] v@[k]@),
    {
        proof {
            use_type_invariant(&e);
        }
        let Expr(inner) = e;
        v.push(inner);
    }
    proof {
        lemma_list_model(v);
        assert(list_model_of(v) =~= exprs_model(orig));
        assert forall|k: int| 0 <= k < list_model_of(v).len() implies well_formed(
            #[trigger] list_model_of(v)[k],
        ) by {
            assert(list_model_of(v)[k] == v@[k]@);
        }
        lemma_well_formed_list(list_model_of(v));
    }
    Expr(Expr2::Print(v))
}

/// `(arg, scope={}) => body`: an arrow function whose second parameter is
/// the scope object of its body.
pub fn func(arg: Expr, scope: String, body: Expr) -> (r: Expr)
    ensures
        r@ == JsExpr::ArrowFunc(Box::new(arg@), scope@, Box::new(body@)),
{
    proof {
        use_type_invariant(&arg);
        use_type_invariant(&body);
    }
    Expr(Expr2::ArrowFunc(Box::new(arg.0), scope, Box::new(body.0)))
}

/// An object literal with the given properties, in order.
pub fn obj(fields: Vec<(String, Expr)>) -> (r: Expr)
    ensures
        r@ == JsExpr::Obj(fields@.map_values(|f: (String, Expr)| (f.0@, f.1@))),
{
    let ghost orig = fields@;
    let mut prop_defs: Vec<PropertyDefinition> = Vec::new();
    for f in it: fields.into_iter()
        invariant
            it.seq() == orig,
            prop_defs.len() == it.index(),
            forall|k: int|
                0 <= k < prop_defs.len() ==> #[trigger] prop_model(prop_defs@[k]) == (
                    orig[k].0@,
                    orig[k].1@,
                ),
            forall|k: int| 0 <= k < prop_defs.len() ==> well_formed(#[trigger] prop_model(prop_defs@[k]).1),
    {
        let (name, v) = f;
        proof {
            use_type_invariant(&v);
        }
        let Expr(inner) = v;
        prop_defs.push(PropertyDefinition::Named(name, Box::new(inner)));
    }
    proof {
        lemma_props_model(prop_defs);
        assert(props_model_of(prop_defs) =~= orig.map_values(|f: (String, Expr)| (f.0@, f.1@)));
        assert forall|k: int| 0 <= k < props_model_of(prop_defs).len() implies well_formed(
            #[trigger] props_model_of(prop_defs)[k].1,
        ) by {
            assert(props_model_of(prop_defs)[k] == prop_model(prop_defs@[k]));
        }
        lemma_well_formed_props(props_model_of(prop_defs));
    }
    Expr(Expr2::Obj(prop_defs))
}

/// The buffer `out` after starting an item: unchanged for the first item,
/// else with `, ` appended.
pub open spec fn separated(first: bool, out: Seq<char>) -> Seq<char> {
    if first {
        out
    } else {
        out + ", "@
    }
}

/// Items separated by `, `, in order.
pub open spec fn comma_join(items: Seq<Seq<char>>) -> Seq<char>
    decreases items.len(),
{
    if items.len() == 0 {
        Seq::empty()
    } else if items.len() == 1 {
        items[0]
    } else {
        comma_join(items.drop_last()) + ", "@ + items.last()
    }
}

/// The buffer that held `start` after each of `items` was started with
/// `CommaListWrite::write` on one fresh writer (the first call sees
/// `is_first`, every later one does not) and then appended.
pub open spec fn write_items(start: Seq<char>, items: Seq<Seq<char>>) -> Seq<char>
    decreases items.len(),
{
    if items.len() == 0 {
        start
    } else {
        separated(items.len() == 1, write_items(start, items.drop_last())) + items.last()
    }
}

/// Writing items one after another with one `CommaListWrite` gives them
/// separated by `, `: `s1, s2, ..., sk`.
pub proof fn lemma_comma_writes_join(start: Seq<char>, items: Seq<Seq<char>>)
    ensures
        write_items(start, items) == start + comma_join(items),
    decreases items.len(),
{
    if items.len() > 0 {
        lemma_comma_writes_join(start, items.drop_last());
        if items.len() == 1 {
            assert(comma_join(items.drop_last()) =~= Seq::<char>::empty());
            assert(start + comma_join(items) =~= start + Seq::<char>::empty() + items[0]);
        } else {
            assert(start + comma_join(items) =~= start + comma_join(items.drop_last()) + ", "@
                + items.last());
        }
    }
}

/// A run of calls on one fresh `CommaListWrite`: `firsts[i]` is whether the
/// writer reported `is_first` before the call for item `i` (true for the
/// first call, as `new` gives; false after, as `write` leaves it), and
/// `bufs[i + 1]` is the buffer after that call (`write` turns `bufs[i]` into
/// `separated(firsts[i], bufs[i])`) with item `i` appended. The buffer ends
/// as it started, followed by the items separated by `, `.
pub proof fn lemma_comma_writer_run(firsts: Seq<bool>, bufs: Seq<Seq<char>>, items: Seq<Seq<char>>)
    requires
        bufs.len() == items.len() + 1,
        firsts.len() == items.len(),
        items.len() > 0 ==> firsts[0],
        forall|i: int| 1 <= i < firsts.len() ==> !#[trigger] firsts[i],
        forall|i: int|
            0 <= i < items.len() ==> #[trigger] bufs[i + 1] == separated(firsts[i], bufs[i]) + items[i],
    ensures
        bufs[items.len() as int] == bufs[0] + comma_join(items),
    decreases items.len(),
{
    if items.len() > 0 {
        let n = items.len() - 1;
        let f2 = firsts.drop_last();
        let b2 = bufs.drop_last();
        let i2 = items.drop_last();
        assert forall|i: int| 0 <= i < i2.len() implies #[trigger] b2[i + 1] == separated(f2[i], b2[i]) + i2[i] by {
            assert(bufs[i + 1] == separated(firsts[i], bufs[i]) + items[i]);
        }
        assert forall|i: int| 1 <= i < f2.len() implies !#[trigger] f2[i] by {
            assert(!firsts[i]);
        }
        lemma_comma_writer_run(f2, b2, i2);
        assert(bufs[n + 1] == separated(firsts[n], bufs[n]) + items[n]);
        if n == 0 {
            assert(bufs[0] + comma_join(items) =~= bufs[0] + items[0]);
        } else {
            assert(!firsts[n]);
            assert(bufs[0] + comma_join(items) =~= bufs[0] + comma_join(i2) + ", "@ + items[n]);
        }
    }
}

/// Writes the separators of a comma-separated list: nothing before the first
/// item, `, ` before every later one.
pub struct CommaListWrite {
    first: bool,
}

impl CommaListWrite {
    /// A writer positioned before the first item.
    pub fn new() -> (r: Self)
        ensures
            r.is_first(),
    {
        CommaListWrite { first: true }
    }

    /// Whether no item has been started yet.
    pub closed spec fn is_first(self) -> bool {
        self.first
    }

    /// Starts the next item: appends `, ` unless this is the first item.
    pub fn write(&mut self, out: &mut String)
        ensures
            !final(self).is_first(),
            final(out)@ == separated(old(self).is_first(), old(out)@),
    {
        if self.first {
            self.first = false;
        } else {
            out.append(", ");
        }
    }
}

impl Expr2 {
    /// The precedence of this expression at its root.
    pub fn precedence(&self) -> (r: Precedence)
        ensures
            r == precedence_of(self@),
    {
        match self {
            Expr2::Paren(..) => Precedence::PRIMARY,
            Expr2::Literal(..) => Precedence::PRIMARY,
            Expr2::Obj(..) => Precedence::PRIMARY,
            Expr2::Var(..) => Precedence::PRIMARY,
            Expr2::Field(..) => Precedence::MEMBER,
            Expr2::ScopeField(..) => Precedence::MEMBER,
            Expr2::Call(..) => Precedence::CALL,
            Expr2::Minus(..) => Precedence::UNARY,
            Expr2::Void => Precedence::UNARY,
            Expr2::BinOp(_, _, op) => match op {
                Op::Mult | Op::Div | Op::Rem => Precedence::MULTIPLICATIVE,
                Op::Add | Op::Sub => Precedence::ADDITIVE,
                Op::Lt | Op::Lte | Op::Gt | Op::Gte => Precedence::RELATIONAL,
                Op::Eq | Op::Neq => Precedence::EQUALITY,
            },
            Expr2::Ternary(..) => Precedence::CONDITIONAL,
            Expr2::Assignment(..) => Precedence::ASSIGN,
            Expr2::ArrowFunc(..) => Precedence::ASSIGN,
            Expr2::Comma(..) => Precedence::EXPR,
            Expr2::Print(..) => Precedence::CALL,
        }
    }

    /// The first token this expression prints.
    pub fn first(&self) -> (r: Token)
        ensures
            r == first_token(self@),
        decreases self,
    {
        match self {
            Expr2::Paren(..) => Token::PAREN,
            Expr2::Literal(..) => Token::OTHER,
            Expr2::Obj(..) => Token::BRACE,
            Expr2::Var(..) => Token::OTHER,
            Expr2::Field(lhs, _) => lhs.first(),
            Expr2::ScopeField(..) => Token::OTHER,
            Expr2::Call(lhs, _) => lhs.first(),
            Expr2::Minus(..) => Token::OTHER,
            Expr2::Void => Token::OTHER,
            Expr2::BinOp(lhs, _, _) => lhs.first(),
            Expr2::Ternary(lhs, _, _) => lhs.first(),
            Expr2::Assignment(lhs, _) => lhs.first(),
            Expr2::ArrowFunc(..) => Token::PAREN,
            Expr2::Comma(exprs) => {
                assert(list_model_of(*exprs).len() == exprs.len());
                if exprs.len() == 0 {
                    Token::OTHER
                } else {
                    proof {
                        assert(decreases_to!(*self => self->Comma_0));
                        assert(decreases_to!(self->Comma_0 => exprs@));
                        assert(list_model_of(*exprs)[0] == exprs@[0]@);
                    }
                    exprs[0].first()
                }
            },
            Expr2::Print(..) => Token::OTHER,
        }
    }
    /// Replaces this expression by the same expression in parentheses.
    pub fn wrap_in_parens(&mut self)
        ensures
            final(self)@ == JsExpr::Paren(Box::new(old(self)@)),
    {
        let mut temp = Expr2::Literal(String::new());
        std::mem::swap(self, &mut temp);
        *self = Expr2::Paren(Box::new(temp));
    }

    /// Ensures this expression binds no looser than `required`, wrapping it in
    /// parentheses if it does.
    pub fn ensure(&mut self, required: Precedence)
        ensures
            final(self)@ == ensure_prec(old(self)@, required),
    {
        if self.precedence().level_exec() > required.level_exec() {
            self.wrap_in_parens();
        }
    }

    /// This expression, wrapped in parentheses if it binds looser than
    /// `required`.
    pub fn ensured(self, required: Precedence) -> (r: Expr2)
        ensures
            r@ == ensure_prec(self@, required),
    {
        if self.precedence().level_exec() > required.level_exec() {
            Expr2::Paren(Box::new(self))
        } else {
            self
        }
    }

    /// Wraps, throughout the tree, each operand that binds looser than its
    /// position allows (not a ternary's condition) and each arrow-function
    /// body that starts with `{`.
    pub fn add_parens(&mut self)
        ensures
            final(self)@ == parenthesize(old(self)@),
    {
        let mut temp = Expr2::Void;
        std::mem::swap(self, &mut temp);
        *self = temp.parenthesized();
    }

    /// This expression with the parentheses that JavaScript's precedence
    /// rules need inserted throughout.
    pub fn parenthesized(self) -> (r: Expr2)
        ensures
            r@ == parenthesize(self@),
        decreases self,
    {
        let ghost old_model = self@;
        match self {
            Expr2::Paren(e) => Expr2::Paren(Box::new(e.parenthesized())),
            Expr2::Literal(code) => Expr2::Literal(code),
            Expr2::Obj(fields) => {
                let ghost fm = props_model_of(fields);
                let r = parenthesized_props(fields);
                proof {
                    let target = parenthesize(old_model)->Obj_0;
                    assert forall|k: int| 0 <= k < r.len() implies #[trigger] props_model_of(r)[k]
                        == target[k] by {
                        assert(fm[k] == prop_model(fields@[k]));
                        assert(target[k] == (fm[k].0, ensure_prec(parenthesize(fm[k].1), Precedence::ASSIGN)));
                    }
                    assert(props_model_of(r) =~= target);
                }
                Expr2::Obj(r)
            },
            Expr2::Var(name) => Expr2::Var(name),
            Expr2::Field(lhs, rhs) => Expr2::Field(
                Box::new(lhs.parenthesized().ensured(Precedence::MEMBER)),
                rhs,
            ),
            Expr2::ScopeField(s1, s2) => Expr2::ScopeField(s1, s2),
            Expr2::Call(lhs, rhs) => Expr2::Call(
                Box::new(lhs.parenthesized().ensured(Precedence::MEMBER)),
                Box::new(rhs.parenthesized().ensured(Precedence::ASSIGN)),
            ),
            Expr2::Minus(e) => Expr2::Minus(Box::new(e.parenthesized().ensured(Precedence::UNARY))),
            Expr2::Void => Expr2::Void,
            Expr2::BinOp(lhs, rhs, op) => {
                let (left_req, right_req) = operand_reqs(op);
                Expr2::BinOp(
                    Box::new(lhs.parenthesized().ensured(left_req)),
                    Box::new(rhs.parenthesized().ensured(right_req)),
                    op,
                )
            },
            Expr2::Ternary(cond, e1, e2) => Expr2::Ternary(
                Box::new(cond.parenthesized()),
                Box::new(e1.parenthesized().ensured(Precedence::ASSIGN)),
                Box::new(e2.parenthesized().ensured(Precedence::ASSIGN)),
            ),
            Expr2::Assignment(lhs, rhs) => Expr2::Assignment(
                Box::new(lhs.parenthesized().ensured(Precedence::LHS)),
                Box::new(rhs.parenthesized().ensured(Precedence::ASSIGN)),
            ),
            Expr2::ArrowFunc(arg, scope_arg, body) => {
                let mut body = body.parenthesized().ensured(Precedence::ASSIGN);
                // The body can't be an expression starting with "{".
                if body.first() == Token::BRACE {
                    body.wrap_in_parens();
                }
                Expr2::ArrowFunc(Box::new(arg.parenthesized()), scope_arg, Box::new(body))
            },
            Expr2::Comma(exprs) => {
                let ghost em = list_model_of(exprs);
                let r = parenthesized_list(exprs, Precedence::EXPR, Precedence::ASSIGN);
                proof {
                    let target = parenthesize(old_model)->Comma_0;
                    assert forall|k: int| 0 <= k < r.len() implies #[trigger] list_model_of(r)[k]
                        == target[k] by {
                        assert(em[k] == exprs@[k]@);
                        if k == 0 {
                            assert(precedence_of(parenthesize(em[k])).level() <= Precedence::EXPR.level());
                        }
                    }
                    assert(list_model_of(r) =~= parenthesize(old_model)->Comma_0);
                }
                Expr2::Comma(r)
            },
            Expr2::Print(exprs) => {
                let ghost em = list_model_of(exprs);
                let r = parenthesized_list(exprs, Precedence::PRIMARY, Precedence::PRIMARY);
                proof {
                    let target = parenthesize(old_model)->Print_0;
                    assert forall|k: int| 0 <= k < r.len() implies #[trigger] list_model_of(r)[k]
                        == target[k] by {
                        assert(em[k] == exprs@[k]@);
                        assert(r@[k]@ == ensure_prec(parenthesize(exprs@[k]@), Precedence::PRIMARY));
                    }
                    assert(list_model_of(r) =~= parenthesize(old_model)->Print_0);
                }
                Expr2::Print(r)
            },
        }
    }

    /// Whether the code generator may repeat this expression instead of
    /// storing it in a variable.
    pub fn should_inline(&self) -> (r: bool)
        ensures
            r == inlinable(self@),
        decreases self,
    {
        match self {
            Expr2::Literal(s) => s.as_str().len() <= 10,
            Expr2::Minus(e) => e.should_inline(),
            Expr2::ScopeField(..) => true,
            _ => false,
        }
    }

    /// A copy of the tree.
    pub fn clone_tree(&self) -> (r: Expr2)
        ensures
            r@ == self@,
        decreases self,
    {
        match self {
            Expr2::Paren(e) => Expr2::Paren(Box::new(e.clone_tree())),
            Expr2::Literal(code) => Expr2::Literal(code.clone()),
            Expr2::Obj(fields) => {
                let mut r: Vec<PropertyDefinition> = Vec::new();
                let mut i: usize = 0;
                while i < fields.len()
                    invariant
                        i <= fields.len(),
                        *self == Expr2::Obj(*fields),
                        r.len() == i,
                        forall|k: int| 0 <= k < i ==> #[trigger] prop_model(r@[k]) == prop_model(fields@[k]),
                    decreases fields.len() - i,
                {
                    proof {
                        assert(decreases_to!(*self => self->Obj_0));
                        assert(decreases_to!(self->Obj_0 => fields@));
                        assert(decreases_to!(fields@ => fields@[i as int]));
                    }
                    match &fields[i] {
                        PropertyDefinition::Named(name, val) => {
                            proof {
                                assert(decreases_to!(fields@[i as int] => *val));
                            }
                            r.push(PropertyDefinition::Named(name.clone(), Box::new(val.clone_tree())));
                        },
                    }
                    i += 1;
                }
                proof {
                    lemma_props_model(r);
                    lemma_props_model(*fields);
                    assert(props_model_of(r) =~= props_model_of(*fields));
                }
                Expr2::Obj(r)
            },
            Expr2::Var(name) => Expr2::Var(name.clone()),
            Expr2::Field(lhs, rhs) => Expr2::Field(Box::new(lhs.clone_tree()), rhs.clone()),
            Expr2::ScopeField(s1, s2) => Expr2::ScopeField(s1.clone(), s2.clone()),
            Expr2::Call(lhs, rhs) => Expr2::Call(Box::new(lhs.clone_tree()), Box::new(rhs.clone_tree())),
            Expr2::Minus(e) => Expr2::Minus(Box::new(e.clone_tree())),
            Expr2::Void => Expr2::Void,
            Expr2::BinOp(lhs, rhs, op) => Expr2::BinOp(
                Box::new(lhs.clone_tree()),
                Box::new(rhs.clone_tree()),
                *op,
            ),
            Expr2::Ternary(c, e1, e2) => Expr2::Ternary(
                Box::new(c.clone_tree()),
                Box::new(e1.clone_tree()),
                Box::new(e2.clone_tree()),
            ),
            Expr2::Assignment(lhs, rhs) => Expr2::Assignment(
                Box::new(lhs.clone_tree()),
                Box::new(rhs.clone_tree()),
            ),
            Expr2::ArrowFunc(arg, scope, body) => Expr2::ArrowFunc(
                Box::new(arg.clone_tree()),
                scope.clone(),
                Box::new(body.clone_tree()),
            ),
            Expr2::Comma(exprs) => {
                proof {
                    assert(decreases_to!(*self => self->Comma_0));
                }
                Expr2::Comma(clone_list(exprs))
            },
            Expr2::Print(exprs) => {
                proof {
                    assert(decreases_to!(*self => self->Print_0));
                }
                Expr2::Print(clone_list(exprs))
            },
        }
    }

    /// Appends the source text of this expression to `out`.
    pub fn write(&self, out: &mut String)
        ensures
            final(out)@ == old(out)@ + render(self@),
        decreases self,
    {
        match self {
            Expr2::Paren(e) => {
                out.append("(");
                e.write(out);
                out.append(")");
            },
            Expr2::Literal(code) => {
                out.append(code.as_str());
            },
            Expr2::Obj(fields) => {
                out.append("{");
                let ghost start = out@;
                let ghost fm = self@->Obj_0;
                let mut cw = CommaListWrite::new();
                let mut i: usize = 0;
                while i < fields.len()
                    invariant
                        i <= fields.len(),
                        *self == Expr2::Obj(*fields),
                        out@ == start + render_props(fm.take(i as int)),
                        fm == props_model_of(*fields),
                        cw.is_first() <==> i == 0,
                    decreases fields.len() - i,
                {
                    proof {
                        assert(decreases_to!(*self => self->Obj_0));
                        assert(decreases_to!(self->Obj_0 => fields@));
                        assert(decreases_to!(fields@ => fields@[i as int]));
                        assert(fm.take(i + 1).drop_last() =~= fm.take(i as int));
                    }
                    cw.write(out);
                    let ghost sep = out@;
                    match &fields[i] {
                        PropertyDefinition::Named(name, val) => {
                            proof {
                                assert(decreases_to!(fields@[i as int] => *val));
                            }
                            out.append("'");
                            out.append(name.as_str());
                            out.append("': ");
                            val.write(out);
                            assert(out@ =~= sep + render_prop(fm[i as int]));
                        },
                    }
                    assert(out@ =~= start + render_props(fm.take(i + 1)));
                    i += 1;
                }
                assert(fm.take(fields.len() as int) =~= fm);
                out.append("}");
            },
            Expr2::Var(name) => {
                out.append(name.as_str());
            },
            Expr2::Field(lhs, rhs) => {
                lhs.write(out);
                out.append(".");
                out.append(rhs.as_str());
            },
            Expr2::ScopeField(s1, s2) => {
                out.append(s1.as_str());
                out.append(".");
                out.append(s2.as_str());
            },
            Expr2::Call(lhs, rhs) => {
                lhs.write(out);
                out.append("(");
                rhs.write(out);
                out.append(")");
            },
            Expr2::Minus(e) => {
                out.append("-");
                e.write(out);
            },
            Expr2::Void => {
                out.append("void 0");
            },
            Expr2::BinOp(lhs, rhs, op) => {
                let opstr = match op {
                    Op::Add => "+",
                    Op::Sub => "- ",
                    Op::Mult => "*",
                    Op::Div => "/",
                    Op::Rem => "%",
                    Op::Lt => "<",
                    Op::Lte => "<=",
                    Op::Gt => ">",
                    Op::Gte => ">=",
                    Op::Eq => "===",
                    Op::Neq => "!==",
                };
                assert(opstr@ == op_text(*op));
                lhs.write(out);
                out.append(opstr);
                rhs.write(out);
            },
            Expr2::Ternary(cond, e1, e2) => {
                cond.write(out);
                out.append(" ? ");
                e1.write(out);
                out.append(" : ");
                e2.write(out);
            },
            Expr2::Assignment(lhs, rhs) => {
                lhs.write(out);
                out.append(" = ");
                rhs.write(out);
            },
            Expr2::ArrowFunc(arg, scope_arg, body) => {
                out.append("(");
                arg.write(out);
                out.append(", ");
                out.append(scope_arg.as_str());
                out.append("={}) => ");
                body.write(out);
            },
            Expr2::Comma(exprs) => {
                proof {
                    assert(decreases_to!(*self => self->Comma_0));
                }
                write_list(exprs, out);
            },
            Expr2::Print(exprs) => {
                out.append("p.println(");
                proof {
                    assert(decreases_to!(*self => self->Print_0));
                }
                write_list(exprs, out);
                out.append(")");
            },
        }
    }
}

/// The loosest precedence allowed for each operand of `op`.
fn operand_reqs(op: Op) -> (r: (Precedence, Precedence))
    ensures
        r == operand_requirements(op),
{
    match op {
        Op::Mult | Op::Div | Op::Rem => (Precedence::MULTIPLICATIVE, Precedence::EXPONENT),
        Op::Add | Op::Sub => (Precedence::ADDITIVE, Precedence::MULTIPLICATIVE),
        Op::Lt | Op::Lte | Op::Gt | Op::Gte => (Precedence::RELATIONAL, Precedence::SHIFT),
        Op::Eq | Op::Neq => (Precedence::EQUALITY, Precedence::RELATIONAL),
    }
}

/// The properties with parentheses added throughout each value; every value
/// must then bind no looser than an assignment.
fn parenthesized_props(fields: Vec<PropertyDefinition>) -> (r: Vec<PropertyDefinition>)
    ensures
        r.len() == fields.len(),
        forall|k: int|
            #![trigger r@[k]]
            0 <= k < fields.len() ==> prop_model(r@[k]).0 == prop_model(fields@[k]).0 && prop_model(
                r@[k],
            ).1 == ensure_prec(parenthesize(prop_model(fields@[k]).1), Precedence::ASSIGN),
    decreases fields,
{
    let ghost old_fields = fields;
    let mut r: Vec<PropertyDefinition> = Vec::new();
    for p in it: fields.into_iter()
        invariant
            it.seq() == old_fields@,
            r.len() == it.index(),
            forall|k: int|
                #![trigger r@[k]]
                0 <= k < r.len() ==> prop_model(r@[k]).0 == prop_model(old_fields@[k]).0
                    && prop_model(r@[k]).1 == ensure_prec(
                    parenthesize(prop_model(old_fields@[k]).1),
                    Precedence::ASSIGN,
                ),
    {
        proof {
            assert(decreases_to!(old_fields => old_fields@));
            assert(decreases_to!(old_fields@ => old_fields@[it.index() as int]));
            assert(decreases_to!(old_fields@[it.index() as int] => p->Named_1));
        }
        match p {
            PropertyDefinition::Named(name, val) => {
                r.push(PropertyDefinition::Named(
                    name,
                    Box::new(val.parenthesized().ensured(Precedence::ASSIGN)),
                ));
            },
        }
    }
    r
}

/// The expressions with parentheses added throughout each one; the first
/// must then bind no looser than `first_req`, every later one no looser than
/// `rest_req`.
fn parenthesized_list(exprs: Vec<Expr2>, first_req: Precedence, rest_req: Precedence) -> (r: Vec<
    Expr2,
>)
    ensures
        r.len() == exprs.len(),
        forall|k: int|
            #![trigger r@[k]]
            0 <= k < exprs.len() ==> r@[k]@ == ensure_prec(
                parenthesize(exprs@[k]@),
                if k == 0 {
                    first_req
                } else {
                    rest_req
                },
            ),
    decreases exprs,
{
    let ghost old_exprs = exprs;
    let mut r: Vec<Expr2> = Vec::new();
    for e in it: exprs.into_iter()
        invariant
            it.seq() == old_exprs@,
            r.len() == it.index(),
            forall|k: int|
                #![trigger r@[k]]
                0 <= k < r.len() ==> r@[k]@ == ensure_prec(
                    parenthesize(old_exprs@[k]@),
                    if k == 0 {
                        first_req
                    } else {
                        rest_req
                    },
                ),
    {
        proof {
            assert(decreases_to!(old_exprs => old_exprs@));
        }
        let req = if r.len() == 0 {
            first_req
        } else {
            rest_req
        };
        r.push(e.parenthesized().ensured(req));
    }
    r
}

/// A copy of each expression of the list.
fn clone_list(exprs: &Vec<Expr2>) -> (r: Vec<Expr2>)
    ensures
        list_model_of(r) == list_model_of(*exprs),
    decreases exprs,
{
    let mut r: Vec<Expr2> = Vec::new();
    let mut i: usize = 0;
    while i < exprs.len()
        invariant
            i <= exprs.len(),
            r.len() == i,
            forall|k: int| 0 <= k < i ==> #[trigger] r@[k]@ == exprs@[k]@,
        decreases exprs.len() - i,
    {
        proof {
            assert(decreases_to!(*exprs => exprs@));
            assert(decreases_to!(exprs@ => exprs@[i as int]));
        }
        r.push(exprs[i].clone_tree());
        i += 1;
    }
    proof {
        lemma_list_model(r);
        lemma_list_model(*exprs);
        assert(list_model_of(r) =~= list_model_of(*exprs));
    }
    r
}

/// Appends the expressions of `exprs` to `out`, separated by `, `.
fn write_list(exprs: &Vec<Expr2>, out: &mut String)
    ensures
        final(out)@ == old(out)@ + render_list(list_model_of(*exprs)),
    decreases exprs,
{
    let mut cw = CommaListWrite::new();
    let mut i: usize = 0;
    while i < exprs.len()
        invariant
            i <= exprs.len(),
            out@ == old(out)@ + render_list(list_model_of(*exprs).take(i as int)),
            cw.is_first() <==> i == 0,
        decreases exprs.len() - i,
    {
        proof {
            assert(decreases_to!(*exprs => exprs@));
            assert(decreases_to!(exprs@ => exprs@[i as int]));
            assert(list_model_of(*exprs).take(i + 1).drop_last() =~= list_model_of(*exprs).take(i as int));
        }
        cw.write(out);
        exprs[i].write(out);
        i += 1;
    }
    assert(list_model_of(*exprs).take(exprs.len() as int) =~= list_model_of(*exprs));
}

} // verus!

verus! {

/// Parenthesizing an already parenthesized child and re-imposing the same
/// precedence bound changes nothing.
proof fn lemma_ensure_stable(x: JsExpr, required: Precedence)
    requires
        parenthesize(parenthesize(x)) == parenthesize(x),
    ensures
        parenthesize(ensure_prec(parenthesize(x), required)) == ensure_prec(parenthesize(x), required),
        ensure_prec(ensure_prec(parenthesize(x), required), required) == ensure_prec(
            parenthesize(x),
            required,
        ),
{
}

/// Adding parentheses is idempotent: a second pass over a tree that has
/// been through one adds none.
pub proof fn lemma_parenthesize_idempotent(e: JsExpr)
    ensures
        parenthesize(parenthesize(e)) == parenthesize(e),
    decreases e,
{
    match e {
        JsExpr::Paren(inner) => {
            lemma_parenthesize_idempotent(*inner);
        },
        JsExpr::Obj(fields) => {
            let p = parenthesize(e)->Obj_0;
            let pp = parenthesize(parenthesize(e))->Obj_0;
            assert forall|i: int| 0 <= i < fields.len() implies #[trigger] pp[i] == p[i] by {
                lemma_parenthesize_idempotent(fields[i].1);
                lemma_ensure_stable(fields[i].1, Precedence::ASSIGN);
            }
            assert(pp =~= p);
        },
        JsExpr::Field(lhs, _) => {
            lemma_parenthesize_idempotent(*lhs);
            lemma_ensure_stable(*lhs, Precedence::MEMBER);
        },
        JsExpr::Call(lhs, rhs) => {
            lemma_parenthesize_idempotent(*lhs);
            lemma_ensure_stable(*lhs, Precedence::MEMBER);
            lemma_parenthesize_idempotent(*rhs);
            lemma_ensure_stable(*rhs, Precedence::ASSIGN);
        },
        JsExpr::Minus(inner) => {
            lemma_parenthesize_idempotent(*inner);
            lemma_ensure_stable(*inner, Precedence::UNARY);
        },
        JsExpr::BinOp(lhs, rhs, op) => {
            lemma_parenthesize_idempotent(*lhs);
            lemma_ensure_stable(*lhs, operand_requirements(op).0);
            lemma_parenthesize_idempotent(*rhs);
            lemma_ensure_stable(*rhs, operand_requirements(op).1);
        },
        JsExpr::Ternary(c, e1, e2) => {
            lemma_parenthesize_idempotent(*c);
            lemma_parenthesize_idempotent(*e1);
            lemma_ensure_stable(*e1, Precedence::ASSIGN);
            lemma_parenthesize_idempotent(*e2);
            lemma_ensure_stable(*e2, Precedence::ASSIGN);
        },
        JsExpr::Assignment(lhs, rhs) => {
            lemma_parenthesize_idempotent(*lhs);
            lemma_ensure_stable(*lhs, Precedence::LHS);
            lemma_parenthesize_idempotent(*rhs);
            lemma_ensure_stable(*rhs, Precedence::ASSIGN);
        },
        JsExpr::ArrowFunc(arg, _, body) => {
            lemma_parenthesize_idempotent(*arg);
            lemma_parenthesize_idempotent(*body);
            lemma_ensure_stable(*body, Precedence::ASSIGN);
            let y = ensure_prec(parenthesize(*body), Precedence::ASSIGN);
            if first_token(y) == Token::BRACE {
                assert(parenthesize(JsExpr::Paren(Box::new(y))) == JsExpr::Paren(Box::new(y)));
            }
        },
        JsExpr::Comma(exprs) => {
            let p = parenthesize(e)->Comma_0;
            let pp = parenthesize(parenthesize(e))->Comma_0;
            assert forall|i: int| 0 <= i < exprs.len() implies #[trigger] pp[i] == p[i] by {
                lemma_parenthesize_idempotent(exprs[i]);
                lemma_ensure_stable(exprs[i], Precedence::ASSIGN);
            }
            assert(pp =~= p);
        },
        JsExpr::Print(exprs) => {
            let p = parenthesize(e)->Print_0;
            let pp = parenthesize(parenthesize(e))->Print_0;
            assert forall|i: int| 0 <= i < exprs.len() implies #[trigger] pp[i] == p[i] by {
                lemma_parenthesize_idempotent(exprs[i]);
                lemma_ensure_stable(exprs[i], Precedence::PRIMARY);
            }
            assert(pp =~= p);
        },
        _ => {},
    }
}

/// Whether `e` binds no looser than `required` at its root.
pub open spec fn fits(e: JsExpr, required: Precedence) -> bool {
    precedence_of(e).level() <= required.level()
}

/// Whether every child in the tree binds no looser than its position
/// allows (the condition of a ternary excepted, which is printed as it is)
/// and no arrow function's body starts with `{`.
pub open spec fn parens_ok(e: JsExpr) -> bool
    decreases e,
{
    match e {
        JsExpr::Paren(inner) => parens_ok(*inner),
        JsExpr::Literal(_) => true,
        JsExpr::Obj(fields) => parens_ok_props(fields),
        JsExpr::Var(_) => true,
        JsExpr::Field(lhs, _) => fits(*lhs, Precedence::MEMBER) && parens_ok(*lhs),
        JsExpr::ScopeField(..) => true,
        JsExpr::Call(lhs, rhs) => fits(*lhs, Precedence::MEMBER) && parens_ok(*lhs) && fits(
            *rhs,
            Precedence::ASSIGN,
        ) && parens_ok(*rhs),
        JsExpr::Minus(inner) => fits(*inner, Precedence::UNARY) && parens_ok(*inner),
        JsExpr::Void => true,
        JsExpr::BinOp(lhs, rhs, op) => fits(*lhs, operand_requirements(op).0) && parens_ok(*lhs)
            && fits(*rhs, operand_requirements(op).1) && parens_ok(*rhs),
        JsExpr::Ternary(c, e1, e2) => parens_ok(*c) && fits(*e1, Precedence::ASSIGN) && parens_ok(*e1)
            && fits(*e2, Precedence::ASSIGN) && parens_ok(*e2),
        JsExpr::Assignment(lhs, rhs) => fits(*lhs, Precedence::LHS) && parens_ok(*lhs) && fits(
            *rhs,
            Precedence::ASSIGN,
        ) && parens_ok(*rhs),
        JsExpr::ArrowFunc(arg, _, body) => parens_ok(*arg) && fits(*body, Precedence::ASSIGN)
            && first_token(*body) != Token::BRACE && parens_ok(*body),
        JsExpr::Comma(exprs) => parens_ok_comma(exprs),
        JsExpr::Print(exprs) => parens_ok_list(exprs, Precedence::PRIMARY),
    }
}

/// Every expression of the list fits `required` and is itself in order.
pub open spec fn parens_ok_list(s: Seq<JsExpr>, required: Precedence) -> bool
    decreases s,
{
    s.len() == 0 || (parens_ok_list(s.drop_last(), required) && fits(s.last(), required) && parens_ok(
        s.last(),
    ))
}

/// Every expression of a comma list is in order, and all but the first fit
/// an assignment's position.
pub open spec fn parens_ok_comma(s: Seq<JsExpr>) -> bool
    decreases s,
{
    if s.len() <= 1 {
        s.len() == 0 || parens_ok(s[0])
    } else {
        parens_ok_comma(s.drop_last()) && fits(s.last(), Precedence::ASSIGN) && parens_ok(s.last())
    }
}

/// Every property value fits an assignment's position and is in order.
pub open spec fn parens_ok_props(s: Seq<(Seq<char>, JsExpr)>) -> bool
    decreases s,
{
    s.len() == 0 || (parens_ok_props(s.drop_last()) && fits(s.last().1, Precedence::ASSIGN)
        && parens_ok(s.last().1))
}

proof fn lemma_parens_ok_list(s: Seq<JsExpr>, required: Precedence)
    requires
        forall|i: int| 0 <= i < s.len() ==> fits(#[trigger] s[i], required) && parens_ok(s[i]),
    ensures
        parens_ok_list(s, required),
    decreases s.len(),
{
    if s.len() > 0 {
        assert forall|i: int| 0 <= i < s.drop_last().len() implies fits(
            #[trigger] s.drop_last()[i],
            required,
        ) && parens_ok(s.drop_last()[i]) by {
            assert(s.drop_last()[i] == s[i]);
        }
        lemma_parens_ok_list(s.drop_last(), required);
        assert(fits(s[s.len() - 1], required));
    }
}

proof fn lemma_parens_ok_comma(s: Seq<JsExpr>)
    requires
        s.len() > 0 ==> parens_ok(s[0]),
        forall|i: int| 1 <= i < s.len() ==> fits(#[trigger] s[i], Precedence::ASSIGN) && parens_ok(s[i]),
    ensures
        parens_ok_comma(s),
    decreases s.len(),
{
    if s.len() > 1 {
        assert forall|i: int| 1 <= i < s.drop_last().len() implies fits(
            #[trigger] s.drop_last()[i],
            Precedence::ASSIGN,
        ) && parens_ok(s.drop_last()[i]) by {
            assert(s.drop_last()[i] == s[i]);
        }
        assert(s.drop_last()[0] == s[0]);
        lemma_parens_ok_comma(s.drop_last());
        assert(fits(s[s.len() - 1], Precedence::ASSIGN));
    }
}

proof fn lemma_parens_ok_props(s: Seq<(Seq<char>, JsExpr)>)
    requires
        forall|i: int| 0 <= i < s.len() ==> fits(#[trigger] s[i].1, Precedence::ASSIGN) && parens_ok(s[i].1),
    ensures
        parens_ok_props(s),
    decreases s.len(),
{
    if s.len() > 0 {
        assert forall|i: int| 0 <= i < s.drop_last().len() implies fits(
            #[trigger] s.drop_last()[i].1,
            Precedence::ASSIGN,
        ) && parens_ok(s.drop_last()[i].1) by {
            assert(s.drop_last()[i] == s[i]);
        }
        lemma_parens_ok_props(s.drop_last());
        assert(fits(s[s.len() - 1].1, Precedence::ASSIGN));
    }
}

/// A child put in place by `ensure_prec` fits its position, and is in order
/// exactly when it was before.
proof fn lemma_ensure_prec_ok(x: JsExpr, required: Precedence)
    ensures
        fits(ensure_prec(x, required), required),
        parens_ok(ensure_prec(x, required)) == parens_ok(x),
{
    if precedence_of(x).level() > required.level() {
        assert(ensure_prec(x, required) == JsExpr::Paren(Box::new(x)));
        assert(parens_ok(JsExpr::Paren(Box::new(x))) == parens_ok(x));
    }
}

/// After `add_parens` (the tree that `to_source` prints), every child binds
/// no looser than its position allows, the condition of a ternary excepted,
/// and no arrow function's body starts with `{`.
pub proof fn lemma_parenthesize_parens_ok(e: JsExpr)
    ensures
        parens_ok(parenthesize(e)),
    decreases e,
{
    match e {
        JsExpr::Paren(inner) => {
            lemma_parenthesize_parens_ok(*inner);
            let q = parenthesize(*inner);
            assert(parenthesize(e) == JsExpr::Paren(Box::new(q)));
            assert(parens_ok(JsExpr::Paren(Box::new(q))) == parens_ok(q));
        },
        JsExpr::Obj(fields) => {
            let p = parenthesize(e)->Obj_0;
            assert forall|i: int| 0 <= i < p.len() implies fits(#[trigger] p[i].1, Precedence::ASSIGN)
                && parens_ok(p[i].1) by {
                lemma_parenthesize_parens_ok(fields[i].1);
                lemma_ensure_prec_ok(parenthesize(fields[i].1), Precedence::ASSIGN);
            }
            lemma_parens_ok_props(p);
        },
        JsExpr::Field(lhs, _) => {
            lemma_parenthesize_parens_ok(*lhs);
            lemma_ensure_prec_ok(parenthesize(*lhs), Precedence::MEMBER);
        },
        JsExpr::Call(lhs, rhs) => {
            lemma_parenthesize_parens_ok(*lhs);
            lemma_parenthesize_parens_ok(*rhs);
            lemma_ensure_prec_ok(parenthesize(*lhs), Precedence::MEMBER);
            lemma_ensure_prec_ok(parenthesize(*rhs), Precedence::ASSIGN);
        },
        JsExpr::Minus(inner) => {
            lemma_parenthesize_parens_ok(*inner);
            lemma_ensure_prec_ok(parenthesize(*inner), Precedence::UNARY);
        },
        JsExpr::BinOp(lhs, rhs, op) => {
            lemma_parenthesize_parens_ok(*lhs);
            lemma_parenthesize_parens_ok(*rhs);
            lemma_ensure_prec_ok(parenthesize(*lhs), operand_requirements(op).0);
            lemma_ensure_prec_ok(parenthesize(*rhs), operand_requirements(op).1);
        },
        JsExpr::Ternary(c, e1, e2) => {
            lemma_parenthesize_parens_ok(*c);
            lemma_parenthesize_parens_ok(*e1);
            lemma_parenthesize_parens_ok(*e2);
            lemma_ensure_prec_ok(parenthesize(*e1), Precedence::ASSIGN);
            lemma_ensure_prec_ok(parenthesize(*e2), Precedence::ASSIGN);
        },
        JsExpr::Assignment(lhs, rhs) => {
            lemma_parenthesize_parens_ok(*lhs);
            lemma_parenthesize_parens_ok(*rhs);
            lemma_ensure_prec_ok(parenthesize(*lhs), Precedence::LHS);
            lemma_ensure_prec_ok(parenthesize(*rhs), Precedence::ASSIGN);
        },
        JsExpr::ArrowFunc(arg, _, body) => {
            lemma_parenthesize_parens_ok(*arg);
            lemma_parenthesize_parens_ok(*body);
            let y = ensure_prec(parenthesize(*body), Precedence::ASSIGN);
            lemma_ensure_prec_ok(parenthesize(*body), Precedence::ASSIGN);
            if first_token(y) == Token::BRACE {
                assert(guard_brace(y) == JsExpr::Paren(Box::new(y)));
                assert(parens_ok(JsExpr::Paren(Box::new(y))) == parens_ok(y));
            }
        },
        JsExpr::Comma(exprs) => {
            let p = parenthesize(e)->Comma_0;
            assert forall|i: int| 1 <= i < p.len() implies fits(#[trigger] p[i], Precedence::ASSIGN)
                && parens_ok(p[i]) by {
                lemma_parenthesize_parens_ok(exprs[i]);
                lemma_ensure_prec_ok(parenthesize(exprs[i]), Precedence::ASSIGN);
            }
            if p.len() > 0 {
                lemma_parenthesize_parens_ok(exprs[0]);
            }
            lemma_parens_ok_comma(p);
        },
        JsExpr::Print(exprs) => {
            let p = parenthesize(e)->Print_0;
            assert forall|i: int| 0 <= i < p.len() implies fits(#[trigger] p[i], Precedence::PRIMARY)
                && parens_ok(p[i]) by {
                lemma_parenthesize_parens_ok(exprs[i]);
                lemma_ensure_prec_ok(parenthesize(exprs[i]), Precedence::PRIMARY);
            }
            lemma_parens_ok_list(p, Precedence::PRIMARY);
        },
        _ => {},
    }
}

/// The tree with every parenthesis node removed.
pub open spec fn strip_parens(e: JsExpr) -> JsExpr
    decreases e,
{
    match e {
        JsExpr::Paren(inner) => strip_parens(*inner),
        JsExpr::Literal(code) => JsExpr::Literal(code),
        JsExpr::Obj(fields) => JsExpr::Obj(
            Seq::new(
                fields.len(),
                |i: int|
                    if 0 <= i < fields.len() {
                        (fields[i].0, strip_parens(fields[i].1))
                    } else {
                        (Seq::empty(), JsExpr::Void)
                    },
            ),
        ),
        JsExpr::Var(name) => JsExpr::Var(name),
        JsExpr::Field(lhs, rhs) => JsExpr::Field(Box::new(strip_parens(*lhs)), rhs),
        JsExpr::ScopeField(s1, s2) => JsExpr::ScopeField(s1, s2),
        JsExpr::Call(lhs, rhs) => JsExpr::Call(Box::new(strip_parens(*lhs)), Box::new(strip_parens(*rhs))),
        JsExpr::Minus(inner) => JsExpr::Minus(Box::new(strip_parens(*inner))),
        JsExpr::Void => JsExpr::Void,
        JsExpr::BinOp(lhs, rhs, op) => JsExpr::BinOp(
            Box::new(strip_parens(*lhs)),
            Box::new(strip_parens(*rhs)),
            op,
        ),
        JsExpr::Ternary(c, e1, e2) => JsExpr::Ternary(
            Box::new(strip_parens(*c)),
            Box::new(strip_parens(*e1)),
            Box::new(strip_parens(*e2)),
        ),
        JsExpr::Assignment(lhs, rhs) => JsExpr::Assignment(
            Box::new(strip_parens(*lhs)),
            Box::new(strip_parens(*rhs)),
        ),
        JsExpr::ArrowFunc(arg, scope, body) => JsExpr::ArrowFunc(
            Box::new(strip_parens(*arg)),
            scope,
            Box::new(strip_parens(*body)),
        ),
        JsExpr::Comma(exprs) => JsExpr::Comma(
            Seq::new(
                exprs.len(),
                |i: int|
                    if 0 <= i < exprs.len() {
                        strip_parens(exprs[i])
                    } else {
                        JsExpr::Void
                    },
            ),
        ),
        JsExpr::Print(exprs) => JsExpr::Print(
            Seq::new(
                exprs.len(),
                |i: int|
                    if 0 <= i < exprs.len() {
                        strip_parens(exprs[i])
                    } else {
                        JsExpr::Void
                    },
            ),
        ),
    }
}

proof fn lemma_strip_wrapped(x: JsExpr, required: Precedence)
    ensures
        strip_parens(ensure_prec(x, required)) == strip_parens(x),
        strip_parens(guard_brace(ensure_prec(x, required))) == strip_parens(x),
{
    let y = ensure_prec(x, required);
    if precedence_of(x).level() > required.level() {
        assert(strip_parens(JsExpr::Paren(Box::new(x))) == strip_parens(x));
    }
    if first_token(y) == Token::BRACE {
        assert(strip_parens(JsExpr::Paren(Box::new(y))) == strip_parens(y));
    }
}

/// `add_parens` adds parentheses and nothing else: with every parenthesis
/// removed, the tree it gives is the tree it was given.
pub proof fn lemma_parenthesize_adds_only_parens(e: JsExpr)
    ensures
        strip_parens(parenthesize(e)) == strip_parens(e),
    decreases e,
{
    match e {
        JsExpr::Paren(inner) => {
            lemma_parenthesize_adds_only_parens(*inner);
            assert(strip_parens(JsExpr::Paren(Box::new(parenthesize(*inner)))) == strip_parens(
                parenthesize(*inner),
            ));
        },
        JsExpr::Obj(fields) => {
            let a = strip_parens(parenthesize(e))->Obj_0;
            let b = strip_parens(e)->Obj_0;
            assert forall|i: int| 0 <= i < fields.len() implies #[trigger] a[i] == b[i] by {
                lemma_parenthesize_adds_only_parens(fields[i].1);
                lemma_strip_wrapped(parenthesize(fields[i].1), Precedence::ASSIGN);
            }
            assert(a =~= b);
        },
        JsExpr::Field(lhs, _) => {
            lemma_parenthesize_adds_only_parens(*lhs);
            lemma_strip_wrapped(parenthesize(*lhs), Precedence::MEMBER);
        },
        JsExpr::Call(lhs, rhs) => {
            lemma_parenthesize_adds_only_parens(*lhs);
            lemma_parenthesize_adds_only_parens(*rhs);
            lemma_strip_wrapped(parenthesize(*lhs), Precedence::MEMBER);
            lemma_strip_wrapped(parenthesize(*rhs), Precedence::ASSIGN);
        },
        JsExpr::Minus(inner) => {
            lemma_parenthesize_adds_only_parens(*inner);
            lemma_strip_wrapped(parenthesize(*inner), Precedence::UNARY);
        },
        JsExpr::BinOp(lhs, rhs, op) => {
            lemma_parenthesize_adds_only_parens(*lhs);
            lemma_parenthesize_adds_only_parens(*rhs);
            lemma_strip_wrapped(parenthesize(*lhs), operand_requirements(op).0);
            lemma_strip_wrapped(parenthesize(*rhs), operand_requirements(op).1);
        },
        JsExpr::Ternary(c, e1, e2) => {
            lemma_parenthesize_adds_only_parens(*c);
            lemma_parenthesize_adds_only_parens(*e1);
            lemma_parenthesize_adds_only_parens(*e2);
            lemma_strip_wrapped(parenthesize(*e1), Precedence::ASSIGN);
            lemma_strip_wrapped(parenthesize(*e2), Precedence::ASSIGN);
        },
        JsExpr::Assignment(lhs, rhs) => {
            lemma_parenthesize_adds_only_parens(*lhs);
            lemma_parenthesize_adds_only_parens(*rhs);
            lemma_strip_wrapped(parenthesize(*lhs), Precedence::LHS);
            lemma_strip_wrapped(parenthesize(*rhs), Precedence::ASSIGN);
        },
        JsExpr::ArrowFunc(arg, _, body) => {
            lemma_parenthesize_adds_only_parens(*arg);
            lemma_parenthesize_adds_only_parens(*body);
            lemma_strip_wrapped(parenthesize(*body), Precedence::ASSIGN);
        },
        JsExpr::Comma(exprs) => {
            let a = strip_parens(parenthesize(e))->Comma_0;
            let b = strip_parens(e)->Comma_0;
            assert forall|i: int| 0 <= i < exprs.len() implies #[trigger] a[i] == b[i] by {
                lemma_parenthesize_adds_only_parens(exprs[i]);
                lemma_strip_wrapped(parenthesize(exprs[i]), Precedence::ASSIGN);
            }
            assert(a =~= b);
        },
        JsExpr::Print(exprs) => {
            let a = strip_parens(parenthesize(e))->Print_0;
            let b = strip_parens(e)->Print_0;
            assert forall|i: int| 0 <= i < exprs.len() implies #[trigger] a[i] == b[i] by {
                lemma_parenthesize_adds_only_parens(exprs[i]);
                lemma_strip_wrapped(parenthesize(exprs[i]), Precedence::PRIMARY);
            }
            assert(a =~= b);
        },
        _ => {},
    }
}

proof fn lemma_render_list_first(s: Seq<JsExpr>)
    requires
        s.len() >= 1,
        render(s[0]).len() > 0,
    ensures
        render_list(s).len() > 0,
        render_list(s)[0] == render(s[0])[0],
    decreases s.len(),
{
    if s.len() > 1 {
        assert(s.drop_last()[0] == s[0]);
        lemma_render_list_first(s.drop_last());
    }
}

/// `first` tells the first character that `write` prints: a brace for
/// `BRACE`, an opening parenthesis for `PAREN`.
pub proof fn lemma_first_token_prints_first(e: JsExpr)
    ensures
        first_token(e) == Token::BRACE ==> render(e).len() > 0 && render(e)[0] == '{',
        first_token(e) == Token::PAREN ==> render(e).len() > 0 && render(e)[0] == '(',
    decreases e,
{
    reveal_strlit("{");
    reveal_strlit("(");
    match e {
        JsExpr::Field(lhs, _) => {
            lemma_first_token_prints_first(*lhs);
        },
        JsExpr::Call(lhs, _) => {
            lemma_first_token_prints_first(*lhs);
        },
        JsExpr::BinOp(lhs, _, _) => {
            lemma_first_token_prints_first(*lhs);
        },
        JsExpr::Ternary(lhs, _, _) => {
            lemma_first_token_prints_first(*lhs);
        },
        JsExpr::Assignment(lhs, _) => {
            lemma_first_token_prints_first(*lhs);
        },
        JsExpr::Comma(exprs) => {
            if exprs.len() > 0 {
                lemma_first_token_prints_first(exprs[0]);
                if first_token(exprs[0]) != Token::OTHER {
                    lemma_render_list_first(exprs);
                }
            }
        },
        _ => {},
    }
}

/// The text that starts the printed expression (the leftmost literal,
/// variable or scope) is non-empty and starts with neither `{` nor `(`, and
/// no comma list on the way to it is empty.
pub open spec fn plain_start(e: JsExpr) -> bool
    decreases e,
{
    match e {
        JsExpr::Literal(code) => code.len() > 0 && code[0] != '{' && code[0] != '(',
        JsExpr::Var(name) => name.len() > 0 && name[0] != '{' && name[0] != '(',
        JsExpr::ScopeField(s1, _) => s1.len() > 0 && s1[0] != '{' && s1[0] != '(',
        JsExpr::Field(lhs, _) => plain_start(*lhs),
        JsExpr::Call(lhs, _) => plain_start(*lhs),
        JsExpr::BinOp(lhs, _, _) => plain_start(*lhs),
        JsExpr::Ternary(lhs, _, _) => plain_start(*lhs),
        JsExpr::Assignment(lhs, _) => plain_start(*lhs),
        JsExpr::Comma(exprs) => exprs.len() > 0 && plain_start(exprs[0]),
        _ => true,
    }
}

/// Where the leftmost text starts plainly, `first` is exact: it is `BRACE`
/// exactly when `write` prints `{` first, and `PAREN` exactly when it
/// prints `(` first.
pub proof fn lemma_first_token_exact(e: JsExpr)
    requires
        plain_start(e),
    ensures
        render(e).len() > 0,
        (first_token(e) == Token::BRACE) == (render(e)[0] == '{'),
        (first_token(e) == Token::PAREN) == (render(e)[0] == '('),
    decreases e,
{
    reveal_strlit("{");
    reveal_strlit("(");
    reveal_strlit("-");
    reveal_strlit("void 0");
    reveal_strlit("p.println(");
    reveal_strlit(".");
    match e {
        JsExpr::Field(lhs, _) => {
            lemma_first_token_exact(*lhs);
        },
        JsExpr::Call(lhs, _) => {
            lemma_first_token_exact(*lhs);
        },
        JsExpr::BinOp(lhs, _, _) => {
            lemma_first_token_exact(*lhs);
        },
        JsExpr::Ternary(lhs, _, _) => {
            lemma_first_token_exact(*lhs);
        },
        JsExpr::Assignment(lhs, _) => {
            lemma_first_token_exact(*lhs);
        },
        JsExpr::Comma(exprs) => {
            lemma_first_token_exact(exprs[0]);
            lemma_render_list_first(exprs);
        },
        _ => {},
    }
}

/// `comma_list` keeps order: flattening a list of expressions distributes
/// over concatenation, a nested comma list contributes its elements in
/// place, and any other expression contributes itself.
pub proof fn lemma_flatten_commas_in_order(s1: Seq<JsExpr>, s2: Seq<JsExpr>, e: JsExpr)
    ensures
        flatten_commas(s1 + s2) == flatten_commas(s1) + flatten_commas(s2),
        flatten_commas(seq![e]) == match e {
            JsExpr::Comma(nested) => nested,
            _ => seq![e],
        },
        flatten_commas(Seq::<JsExpr>::empty()) == Seq::<JsExpr>::empty(),
    decreases s2.len(),
{
    assert(seq![e].drop_last() =~= Seq::<JsExpr>::empty());
    assert(seq![e].last() == e);
    assert(flatten_commas(Seq::<JsExpr>::empty()) == Seq::<JsExpr>::empty());
    assert(Seq::<JsExpr>::empty() + match e {
        JsExpr::Comma(nested) => nested,
        _ => seq![e],
    } =~= match e {
        JsExpr::Comma(nested) => nested,
        _ => seq![e],
    });
    assert(flatten_commas(seq![e]) =~= match e {
        JsExpr::Comma(nested) => nested,
        _ => seq![e],
    });
    if s2.len() == 0 {
        assert(s1 + s2 =~= s1);
        assert(flatten_commas(s1) + flatten_commas(s2) =~= flatten_commas(s1));
    } else {
        lemma_flatten_commas_in_order(s1, s2.drop_last(), e);
        assert((s1 + s2).drop_last() =~= s1 + s2.drop_last());
        assert((s1 + s2).last() == s2.last());
        assert(flatten_commas(s1 + s2) =~= flatten_commas(s1) + flatten_commas(s2));
    }
}

/// Evaluating the expression has no effect and allocates nothing (no call,
/// assignment, print, object literal or function, nor a choice or sequence
/// that could hide one), and every literal in it is at most ten bytes long
/// (its UTF-8 length, as `len` gives it):
/// what may be repeated in place of a stored value.
pub open spec fn repeatable(e: JsExpr) -> bool
    decreases e,
{
    match e {
        JsExpr::Literal(code) => encode_utf8(code).len() as usize <= 10,
        JsExpr::Var(_) => true,
        JsExpr::ScopeField(..) => true,
        JsExpr::Void => true,
        JsExpr::Paren(inner) => repeatable(*inner),
        JsExpr::Minus(inner) => repeatable(*inner),
        JsExpr::Field(lhs, _) => repeatable(*lhs),
        JsExpr::BinOp(lhs, rhs, _) => repeatable(*lhs) && repeatable(*rhs),
        _ => false,
    }
}

/// What `should_inline` allows the code generator to repeat is safe to
/// repeat, and only a literal, a negation or a scope field is ever repeated:
/// object literals, calls, assignments, functions, variables and the rest
/// are always stored.
pub proof fn lemma_inline_only_repeatable(e: JsExpr)
    ensures
        inlinable(e) ==> repeatable(e),
        inlinable(e) ==> (e is Literal || e is Minus || e is ScopeField),
    decreases e,
{
    if let JsExpr::Minus(inner) = e {
        lemma_inline_only_repeatable(*inner);
    }
}

/// Scope fields and literals of at most ten bytes are always repeated, and
/// a negation is repeated exactly when what it negates is.
pub proof fn lemma_inline_short_values(code: Seq<char>, s1: Seq<char>, s2: Seq<char>, x: JsExpr)
    ensures
        inlinable(JsExpr::ScopeField(s1, s2)),
        encode_utf8(code).len() as usize <= 10 ==> inlinable(JsExpr::Literal(code)),
        encode_utf8(code).len() as usize > 10 ==> !inlinable(JsExpr::Literal(code)),
        inlinable(JsExpr::Minus(Box::new(x))) == inlinable(x),
{
}

/// How loosely each kind of expression binds in JavaScript, after the
/// ECMAScript grammar (0 binds tightest): primary expressions 0, member
/// access 1, calls 2, left-hand-side expressions 3, unary operators 4,
/// `* / %` 6, `+ -` 7, `< <= > >=` 9, `=== !==` 10, the conditional 12,
/// assignment and arrow functions 13, the comma operator 14.
pub open spec fn js_looseness(e: JsExpr) -> nat {
    match e {
        JsExpr::Paren(..) | JsExpr::Literal(..) | JsExpr::Obj(..) | JsExpr::Var(..) => 0,
        JsExpr::Field(..) | JsExpr::ScopeField(..) => 1,
        JsExpr::Call(..) | JsExpr::Print(..) => 2,
        JsExpr::Minus(..) | JsExpr::Void => 4,
        JsExpr::BinOp(_, _, op) => js_op_looseness(op),
        JsExpr::Ternary(..) => 12,
        JsExpr::Assignment(..) | JsExpr::ArrowFunc(..) => 13,
        JsExpr::Comma(..) => 14,
    }
}

/// How loosely a binary operator binds in JavaScript.
pub open spec fn js_op_looseness(op: Op) -> nat {
    match op {
        Op::Mult | Op::Div | Op::Rem => 6,
        Op::Add | Op::Sub => 7,
        Op::Lt | Op::Lte | Op::Gt | Op::Gte => 9,
        Op::Eq | Op::Neq => 10,
    }
}

/// Whether JavaScript reads the printed tree back as this tree: each
/// operand binds tightly enough for its position (binary operators
/// associate to the left, so a right operand must bind strictly tighter than
/// its operator; a conditional, assignment or comma is never a bare operand
/// of a binary operator), call and print arguments, object values,
/// conditional branches, assignment values, function bodies and later comma
/// elements bind no looser than an assignment, and no function body starts
/// with `{`. The condition of a conditional is not checked: the printer
/// leaves it as it is.
pub open spec fn js_faithful(e: JsExpr) -> bool
    decreases e,
{
    match e {
        JsExpr::Paren(inner) => js_faithful(*inner),
        JsExpr::Obj(fields) => js_faithful_props(fields),
        JsExpr::Field(lhs, _) => js_looseness(*lhs) <= 2 && js_faithful(*lhs),
        JsExpr::Call(lhs, rhs) => js_looseness(*lhs) <= 2 && js_faithful(*lhs) && js_looseness(*rhs)
            <= 13 && js_faithful(*rhs),
        JsExpr::Minus(inner) => js_looseness(*inner) <= 4 && js_faithful(*inner),
        JsExpr::BinOp(lhs, rhs, op) => js_looseness(*lhs) <= js_op_looseness(op) && js_faithful(*lhs)
            && js_looseness(*rhs) < js_op_looseness(op) && js_faithful(*rhs),
        JsExpr::Ternary(c, e1, e2) => js_faithful(*c) && js_looseness(*e1) <= 13 && js_faithful(*e1)
            && js_looseness(*e2) <= 13 && js_faithful(*e2),
        JsExpr::Assignment(lhs, rhs) => js_looseness(*lhs) <= 3 && js_faithful(*lhs) && js_looseness(
            *rhs,
        ) <= 13 && js_faithful(*rhs),
        JsExpr::ArrowFunc(arg, _, body) => js_faithful(*arg) && js_looseness(*body) <= 13
            && first_token(*body) != Token::BRACE && js_faithful(*body),
        JsExpr::Comma(exprs) => js_faithful_comma(exprs),
        JsExpr::Print(exprs) => js_faithful_list(exprs),
        _ => true,
    }
}

/// Every expression of an argument list binds no looser than an assignment
/// and is read back as itself.
pub open spec fn js_faithful_list(s: Seq<JsExpr>) -> bool
    decreases s,
{
    s.len() == 0 || (js_faithful_list(s.drop_last()) && js_looseness(s.last()) <= 13 && js_faithful(
        s.last(),
    ))
}

/// Every element of a comma list is read back as itself, and all but the
/// first bind no looser than an assignment.
pub open spec fn js_faithful_comma(s: Seq<JsExpr>) -> bool
    decreases s,
{
    if s.len() <= 1 {
        s.len() == 0 || js_faithful(s[0])
    } else {
        js_faithful_comma(s.drop_last()) && js_looseness(s.last()) <= 13 && js_faithful(s.last())
    }
}

/// Every property value binds no looser than an assignment and is read
/// back as itself.
pub open spec fn js_faithful_props(s: Seq<(Seq<char>, JsExpr)>) -> bool
    decreases s,
{
    s.len() == 0 || (js_faithful_props(s.drop_last()) && js_looseness(s.last().1) <= 13
        && js_faithful(s.last().1))
}

/// The printer's precedence of an expression is JavaScript's.
proof fn lemma_precedence_is_js(e: JsExpr)
    ensures
        precedence_of(e).level() == js_looseness(e),
{
}

/// What the printer demands of the operands of a binary operator is what
/// JavaScript needs: the left operand may bind as loosely as the operator,
/// the right operand must bind strictly tighter.
proof fn lemma_operands_are_js(op: Op)
    ensures
        operand_requirements(op).0.level() == js_op_looseness(op),
        operand_requirements(op).1.level() < js_op_looseness(op),
        op_precedence(op).level() == js_op_looseness(op),
{
}

proof fn lemma_parens_ok_list_js(s: Seq<JsExpr>, required: Precedence)
    requires
        parens_ok_list(s, required),
        required.level() <= 13,
    ensures
        js_faithful_list(s),
    decreases s, 0int,
{
    if s.len() > 0 {
        lemma_parens_ok_list_js(s.drop_last(), required);
        lemma_parens_ok_js(s.last());
        lemma_precedence_is_js(s.last());
    }
}

proof fn lemma_parens_ok_comma_js(s: Seq<JsExpr>)
    requires
        parens_ok_comma(s),
    ensures
        js_faithful_comma(s),
    decreases s, 0int,
{
    if s.len() == 1 {
        lemma_parens_ok_js(s[0]);
    } else if s.len() > 1 {
        lemma_parens_ok_comma_js(s.drop_last());
        lemma_parens_ok_js(s.last());
        lemma_precedence_is_js(s.last());
    }
}

proof fn lemma_parens_ok_props_js(s: Seq<(Seq<char>, JsExpr)>)
    requires
        parens_ok_props(s),
    ensures
        js_faithful_props(s),
    decreases s, 0int,
{
    if s.len() > 0 {
        lemma_parens_ok_props_js(s.drop_last());
        lemma_parens_ok_js(s.last().1);
        lemma_precedence_is_js(s.last().1);
    }
}

proof fn lemma_parens_ok_js(e: JsExpr)
    requires
        parens_ok(e),
    ensures
        js_faithful(e),
    decreases e, 1int,
{
    match e {
        JsExpr::Paren(inner) => lemma_parens_ok_js(*inner),
        JsExpr::Obj(fields) => lemma_parens_ok_props_js(fields),
        JsExpr::Field(lhs, _) => {
            lemma_parens_ok_js(*lhs);
            lemma_precedence_is_js(*lhs);
        },
        JsExpr::Call(lhs, rhs) => {
            lemma_parens_ok_js(*lhs);
            lemma_precedence_is_js(*lhs);
            lemma_parens_ok_js(*rhs);
            lemma_precedence_is_js(*rhs);
        },
        JsExpr::Minus(inner) => {
            lemma_parens_ok_js(*inner);
            lemma_precedence_is_js(*inner);
        },
        JsExpr::BinOp(lhs, rhs, op) => {
            lemma_parens_ok_js(*lhs);
            lemma_precedence_is_js(*lhs);
            lemma_parens_ok_js(*rhs);
            lemma_precedence_is_js(*rhs);
            lemma_operands_are_js(op);
        },
        JsExpr::Ternary(c, e1, e2) => {
            lemma_parens_ok_js(*c);
            lemma_parens_ok_js(*e1);
            lemma_precedence_is_js(*e1);
            lemma_parens_ok_js(*e2);
            lemma_precedence_is_js(*e2);
        },
        JsExpr::Assignment(lhs, rhs) => {
            lemma_parens_ok_js(*lhs);
            lemma_precedence_is_js(*lhs);
            lemma_parens_ok_js(*rhs);
            lemma_precedence_is_js(*rhs);
        },
        JsExpr::ArrowFunc(arg, _, body) => {
            lemma_parens_ok_js(*arg);
            lemma_parens_ok_js(*body);
            lemma_precedence_is_js(*body);
        },
        JsExpr::Comma(exprs) => lemma_parens_ok_comma_js(exprs),
        JsExpr::Print(exprs) => lemma_parens_ok_list_js(exprs, Precedence::PRIMARY),
        _ => {},
    }
}

/// Printing is faithful to JavaScript's precedence: the tree that
/// `to_source` prints (the tree after `add_parens`) is read back by
/// JavaScript, operator precedence and left associativity included, as
/// itself; so with its parentheses removed it is the input tree
/// (`lemma_parenthesize_adds_only_parens`). In particular the right operand
/// of a binary operator that binds at the operator's own level, and a
/// conditional used as any operand of a binary operator, are printed in
/// parentheses. The condition of a conditional is the one place left as it
/// is.
pub proof fn lemma_printing_is_faithful(e: JsExpr)
    ensures
        js_faithful(parenthesize(e)),
        strip_parens(parenthesize(e)) == strip_parens(e),
{
    lemma_parenthesize_parens_ok(e);
    lemma_parens_ok_js(parenthesize(e));
    lemma_parenthesize_adds_only_parens(e);
}

/// `e` printed in a position that allows binding no looser than `bound`:
/// it is wrapped in parentheses exactly when it was parenthesized already or
/// binds looser than the position allows.
pub open spec fn wrapped_as_needed(printed: JsExpr, input: JsExpr, bound: nat) -> bool {
    (printed is Paren) == (input is Paren || js_looseness(input) > bound)
}

/// `add_parens` wraps no more than it must: at every position of the tree,
/// the printed child is in parentheses exactly when the input child was, or
/// binds looser than the position allows. The bounds, on JavaScript's
/// looseness scale: the base of a member access or of a call 1 (a primary
/// expression or a member access), a call argument, an object value, a
/// conditional branch, an assigned value, a function body or a later comma
/// element 13 (an assignment), a negated operand 4 (a unary operator), an
/// assignment target 3, a print argument 0, the left operand of a binary
/// operator the operator's own looseness and its right operand one less. A
/// function body is also wrapped when it would start with `{`.
pub open spec fn parens_minimal(e: JsExpr) -> bool
    decreases e,
{
    match e {
        JsExpr::Paren(inner) => parens_minimal(*inner),
        JsExpr::Obj(fields) => parens_minimal_props(fields) && forall|i: int|
            0 <= i < fields.len() ==> wrapped_as_needed(
                parenthesize(e)->Obj_0[i].1,
                #[trigger] fields[i].1,
                13,
            ),
        JsExpr::Field(lhs, _) => parens_minimal(*lhs) && wrapped_as_needed(
            *parenthesize(e)->Field_0,
            *lhs,
            1,
        ),
        JsExpr::Call(lhs, rhs) => parens_minimal(*lhs) && parens_minimal(*rhs) && wrapped_as_needed(
            *parenthesize(e)->Call_0,
            *lhs,
            1,
        ) && wrapped_as_needed(*parenthesize(e)->Call_1, *rhs, 13),
        JsExpr::Minus(inner) => parens_minimal(*inner) && wrapped_as_needed(
            *parenthesize(e)->Minus_0,
            *inner,
            4,
        ),
        JsExpr::BinOp(lhs, rhs, op) => parens_minimal(*lhs) && parens_minimal(*rhs)
            && wrapped_as_needed(*parenthesize(e)->BinOp_0, *lhs, js_op_looseness(op))
            && wrapped_as_needed(*parenthesize(e)->BinOp_1, *rhs, (js_op_looseness(op) - 1) as nat),
        JsExpr::Ternary(c, e1, e2) => parens_minimal(*c) && parens_minimal(*e1) && parens_minimal(*e2)
            && *parenthesize(e)->Ternary_0 == parenthesize(*c) && wrapped_as_needed(
            *parenthesize(e)->Ternary_1,
            *e1,
            13,
        ) && wrapped_as_needed(*parenthesize(e)->Ternary_2, *e2, 13),
        JsExpr::Assignment(lhs, rhs) => parens_minimal(*lhs) && parens_minimal(*rhs)
            && wrapped_as_needed(*parenthesize(e)->Assignment_0, *lhs, 3) && wrapped_as_needed(
            *parenthesize(e)->Assignment_1,
            *rhs,
            13,
        ),
        JsExpr::ArrowFunc(arg, _, body) => parens_minimal(*arg) && parens_minimal(*body)
            && *parenthesize(e)->ArrowFunc_0 == parenthesize(*arg) && (
        *parenthesize(e)->ArrowFunc_2 is Paren) == (*body is Paren || js_looseness(*body) > 13
            || first_token(parenthesize(*body)) == Token::BRACE),
        JsExpr::Comma(exprs) => parens_minimal_list(exprs) && parenthesize(e)->Comma_0.len()
            == exprs.len() && (exprs.len() > 0 ==> parenthesize(e)->Comma_0[0] == parenthesize(exprs[0]))
            && forall|i: int|
            1 <= i < exprs.len() ==> wrapped_as_needed(
                parenthesize(e)->Comma_0[i],
                #[trigger] exprs[i],
                13,
            ),
        JsExpr::Print(exprs) => parens_minimal_list(exprs) && forall|i: int|
            0 <= i < exprs.len() ==> wrapped_as_needed(
                parenthesize(e)->Print_0[i],
                #[trigger] exprs[i],
                0,
            ),
        _ => true,
    }
}

/// `parens_minimal` holds of every expression of the list.
pub open spec fn parens_minimal_list(s: Seq<JsExpr>) -> bool
    decreases s,
{
    s.len() == 0 || (parens_minimal_list(s.drop_last()) && parens_minimal(s.last()))
}

/// `parens_minimal` holds of every property value.
pub open spec fn parens_minimal_props(s: Seq<(Seq<char>, JsExpr)>) -> bool
    decreases s,
{
    s.len() == 0 || (parens_minimal_props(s.drop_last()) && parens_minimal(s.last().1))
}

/// Adding parentheses keeps the kind of the root: it is a parenthesis node
/// exactly when it was one, and binds as loosely as before.
proof fn lemma_parenthesize_root(e: JsExpr)
    ensures
        (parenthesize(e) is Paren) == (e is Paren),
        js_looseness(parenthesize(e)) == js_looseness(e),
{
}

/// A child put in place with `ensure_prec` is wrapped exactly as needed.
proof fn lemma_ensure_wraps(c: JsExpr, required: Precedence)
    ensures
        wrapped_as_needed(ensure_prec(parenthesize(c), required), c, required.level()),
{
    lemma_parenthesize_root(c);
    lemma_precedence_is_js(parenthesize(c));
}

proof fn lemma_parens_minimal_list(s: Seq<JsExpr>)
    ensures
        parens_minimal_list(s),
    decreases s, 0int,
{
    if s.len() > 0 {
        lemma_parens_minimal_list(s.drop_last());
        lemma_parens_minimal(s.last());
    }
}

proof fn lemma_parens_minimal_props(s: Seq<(Seq<char>, JsExpr)>)
    ensures
        parens_minimal_props(s),
    decreases s, 0int,
{
    if s.len() > 0 {
        lemma_parens_minimal_props(s.drop_last());
        lemma_parens_minimal(s.last().1);
    }
}

/// `add_parens` wraps exactly where JavaScript needs it (and where it was
/// wrapped already): see `parens_minimal`.
pub proof fn lemma_parens_minimal(e: JsExpr)
    ensures
        parens_minimal(e),
    decreases e, 1int,
{
    match e {
        JsExpr::Paren(inner) => lemma_parens_minimal(*inner),
        JsExpr::Obj(fields) => {
            lemma_parens_minimal_props(fields);
            assert forall|i: int| 0 <= i < fields.len() implies wrapped_as_needed(
                parenthesize(e)->Obj_0[i].1,
                #[trigger] fields[i].1,
                13,
            ) by {
                lemma_ensure_wraps(fields[i].1, Precedence::ASSIGN);
            }
        },
        JsExpr::Field(lhs, _) => {
            lemma_parens_minimal(*lhs);
            lemma_ensure_wraps(*lhs, Precedence::MEMBER);
        },
        JsExpr::Call(lhs, rhs) => {
            lemma_parens_minimal(*lhs);
            lemma_parens_minimal(*rhs);
            lemma_ensure_wraps(*lhs, Precedence::MEMBER);
            lemma_ensure_wraps(*rhs, Precedence::ASSIGN);
        },
        JsExpr::Minus(inner) => {
            lemma_parens_minimal(*inner);
            lemma_ensure_wraps(*inner, Precedence::UNARY);
        },
        JsExpr::BinOp(lhs, rhs, op) => {
            lemma_parens_minimal(*lhs);
            lemma_parens_minimal(*rhs);
            lemma_operands_are_js(op);
            lemma_operand_right_bound(op);
            lemma_ensure_wraps(*lhs, operand_requirements(op).0);
            lemma_ensure_wraps(*rhs, operand_requirements(op).1);
        },
        JsExpr::Ternary(c, e1, e2) => {
            lemma_parens_minimal(*c);
            lemma_parens_minimal(*e1);
            lemma_parens_minimal(*e2);
            lemma_ensure_wraps(*e1, Precedence::ASSIGN);
            lemma_ensure_wraps(*e2, Precedence::ASSIGN);
        },
        JsExpr::Assignment(lhs, rhs) => {
            lemma_parens_minimal(*lhs);
            lemma_parens_minimal(*rhs);
            lemma_ensure_wraps(*lhs, Precedence::LHS);
            lemma_ensure_wraps(*rhs, Precedence::ASSIGN);
        },
        JsExpr::ArrowFunc(arg, _, body) => {
            lemma_parens_minimal(*arg);
            lemma_parens_minimal(*body);
            lemma_parenthesize_root(*body);
            lemma_precedence_is_js(parenthesize(*body));
        },
        JsExpr::Comma(exprs) => {
            lemma_parens_minimal_list(exprs);
            assert forall|i: int| 1 <= i < exprs.len() implies wrapped_as_needed(
                parenthesize(e)->Comma_0[i],
                #[trigger] exprs[i],
                13,
            ) by {
                lemma_ensure_wraps(exprs[i], Precedence::ASSIGN);
            }
        },
        JsExpr::Print(exprs) => {
            lemma_parens_minimal_list(exprs);
            assert forall|i: int| 0 <= i < exprs.len() implies wrapped_as_needed(
                parenthesize(e)->Print_0[i],
                #[trigger] exprs[i],
                0,
            ) by {
                lemma_ensure_wraps(exprs[i], Precedence::PRIMARY);
            }
        },
        _ => {},
    }
}

/// The right operand of a binary operator may bind exactly one step
/// tighter than the operator.
proof fn lemma_operand_right_bound(op: Op)
    ensures
        operand_requirements(op).1.level() + 1 == js_op_looseness(op),
{
}

} // verus!
