//! Dead-code removal: assignments to scope fields that nothing reads are
//! dropped, keeping only the parts of their right-hand sides that may have an
//! effect.

use vstd::prelude::*;
use vstd::string::*;
use crate::js::{Expr, Expr2, JsExpr, PropertyDefinition, comma_of, comma_list_sub, list_model_of,
    props_model_of, prop_model, lemma_list_model, lemma_props_model, well_formed, well_formed_list, well_formed_props,
    lemma_well_formed_list, lemma_well_formed_props, lemma_comma_of_well_formed};

verus! {

/// The name under which a scope field is tracked: `scope.name`.
pub open spec fn scope_key(s1: Seq<char>, s2: Seq<char>) -> Seq<char> {
    s1 + "."@ + s2
}

/// The scope fields that an expression reads. The target of an assignment
/// to a scope field is written, not read, so it does not count.
pub open spec fn used_vars(e: JsExpr) -> Set<Seq<char>>
    decreases e,
{
    match e {
        JsExpr::Paren(inner) => used_vars(*inner),
        JsExpr::Literal(_) => Set::empty(),
        JsExpr::Obj(fields) => used_vars_props(fields),
        JsExpr::Var(_) => Set::empty(),
        JsExpr::Field(lhs, _) => used_vars(*lhs),
        JsExpr::ScopeField(s1, s2) => set![scope_key(s1, s2)],
        JsExpr::Call(lhs, rhs) => used_vars(*lhs) + used_vars(*rhs),
        JsExpr::Minus(inner) => used_vars(*inner),
        JsExpr::Void => Set::empty(),
        JsExpr::BinOp(lhs, rhs, _) => used_vars(*lhs) + used_vars(*rhs),
        JsExpr::Ternary(c, e1, e2) => used_vars(*c) + used_vars(*e1) + used_vars(*e2),
        JsExpr::Assignment(lhs, rhs) => (if *lhs is ScopeField {
            Set::empty()
        } else {
            used_vars(*lhs)
        }) + used_vars(*rhs),
        JsExpr::ArrowFunc(_, _, body) => used_vars(*body),
        JsExpr::Comma(exprs) => used_vars_list(exprs),
        JsExpr::Print(exprs) => used_vars_list(exprs),
    }
}

/// The scope fields that the expressions of a list read.
pub open spec fn used_vars_list(s: Seq<JsExpr>) -> Set<Seq<char>>
    decreases s,
{
    if s.len() == 0 {
        Set::empty()
    } else {
        used_vars_list(s.drop_last()) + used_vars(s.last())
    }
}

/// The scope fields that the values of an object literal read.
pub open spec fn used_vars_props(s: Seq<(Seq<char>, JsExpr)>) -> Set<Seq<char>>
    decreases s,
{
    if s.len() == 0 {
        Set::empty()
    } else {
        used_vars_props(s.drop_last()) + used_vars(s.last().1)
    }
}

/// The expression with every assignment to a scope field outside `used`
/// replaced by the effectful parts of its right-hand side.
pub open spec fn remove_unused(e: JsExpr, used: Set<Seq<char>>) -> JsExpr
    decreases e, 0int,
{
    match e {
        JsExpr::Paren(inner) => JsExpr::Paren(Box::new(remove_unused(*inner, used))),
        JsExpr::Literal(code) => JsExpr::Literal(code),
        JsExpr::Obj(fields) => JsExpr::Obj(
            Seq::new(
                fields.len(),
                |i: int|
                    if 0 <= i < fields.len() {
                        (fields[i].0, remove_unused(fields[i].1, used))
                    } else {
                        (Seq::empty(), JsExpr::Void)
                    },
            ),
        ),
        JsExpr::Var(name) => JsExpr::Var(name),
        JsExpr::Field(lhs, rhs) => JsExpr::Field(Box::new(remove_unused(*lhs, used)), rhs),
        JsExpr::ScopeField(s1, s2) => JsExpr::ScopeField(s1, s2),
        JsExpr::Call(lhs, rhs) => JsExpr::Call(
            Box::new(remove_unused(*lhs, used)),
            Box::new(remove_unused(*rhs, used)),
        ),
        JsExpr::Minus(inner) => JsExpr::Minus(Box::new(remove_unused(*inner, used))),
        JsExpr::Void => JsExpr::Void,
        JsExpr::BinOp(lhs, rhs, op) => JsExpr::BinOp(
            Box::new(remove_unused(*lhs, used)),
            Box::new(remove_unused(*rhs, used)),
            op,
        ),
        JsExpr::Ternary(c, e1, e2) => JsExpr::Ternary(
            Box::new(remove_unused(*c, used)),
            Box::new(remove_unused(*e1, used)),
            Box::new(remove_unused(*e2, used)),
        ),
        JsExpr::Assignment(lhs, rhs) => if dead_store_target(*lhs, used) {
            comma_of(simplify_unused(*rhs, used))
        } else {
            JsExpr::Assignment(
                Box::new(remove_unused(*lhs, used)),
                Box::new(remove_unused(*rhs, used)),
            )
        },
        JsExpr::ArrowFunc(arg, scope, body) => JsExpr::ArrowFunc(
            arg,
            scope,
            Box::new(remove_unused(*body, used)),
        ),
        JsExpr::Comma(exprs) => if exprs.len() == 0 {
            JsExpr::Comma(exprs)
        } else {
            comma_of(
                simplify_unused_list(exprs.drop_last(), used).push(
                    remove_unused(exprs.last(), used),
                ),
            )
        },
        JsExpr::Print(exprs) => JsExpr::Print(
            Seq::new(
                exprs.len(),
                |i: int|
                    if 0 <= i < exprs.len() {
                        remove_unused(exprs[i], used)
                    } else {
                        JsExpr::Void
                    },
            ),
        ),
    }
}

/// Whether an assignment target is a scope field that nothing reads.
pub open spec fn dead_store_target(lhs: JsExpr, used: Set<Seq<char>>) -> bool {
    match lhs {
        JsExpr::ScopeField(s1, s2) => !used.contains(scope_key(s1, s2)),
        _ => false,
    }
}

/// The parts of an expression whose value is not needed that may still have
/// an effect (calls, conditionals, assignments, prints), in evaluation order,
/// each with its unused assignments removed. Function definitions and plain
/// reads have no effect and vanish.
pub open spec fn simplify_unused(e: JsExpr, used: Set<Seq<char>>) -> Seq<JsExpr>
    decreases e, 1int,
{
    match e {
        JsExpr::Paren(inner) => simplify_unused(*inner, used),
        JsExpr::Literal(_) => Seq::empty(),
        JsExpr::Obj(fields) => simplify_unused_props(fields, used),
        JsExpr::Var(_) => Seq::empty(),
        JsExpr::Field(lhs, _) => simplify_unused(*lhs, used),
        JsExpr::ScopeField(..) => Seq::empty(),
        JsExpr::Minus(inner) => simplify_unused(*inner, used),
        JsExpr::Void => Seq::empty(),
        JsExpr::BinOp(lhs, rhs, _) => simplify_unused(*lhs, used) + simplify_unused(*rhs, used),
        JsExpr::ArrowFunc(..) => Seq::empty(),
        JsExpr::Comma(exprs) => simplify_unused_list(exprs, used),
        JsExpr::Call(..) | JsExpr::Ternary(..) | JsExpr::Assignment(..) | JsExpr::Print(..) => {
            let r = remove_unused(e, used);
            if r is Void {
                Seq::empty()
            } else {
                seq![r]
            }
        },
    }
}

/// `simplify_unused` of each expression of a list, concatenated.
pub open spec fn simplify_unused_list(s: Seq<JsExpr>, used: Set<Seq<char>>) -> Seq<JsExpr>
    decreases s, 1int,
{
    if s.len() == 0 {
        Seq::empty()
    } else {
        simplify_unused_list(s.drop_last(), used) + simplify_unused(s.last(), used)
    }
}

/// `simplify_unused` of each property value, concatenated.
pub open spec fn simplify_unused_props(s: Seq<(Seq<char>, JsExpr)>, used: Set<Seq<char>>) -> Seq<
    JsExpr,
>
    decreases s, 1int,
{
    if s.len() == 0 {
        Seq::empty()
    } else {
        simplify_unused_props(s.drop_last(), used) + simplify_unused(s.last().1, used)
    }
}

/// A set of names (the library's stand-in for a hash set of strings): each
/// name is stored once.
pub struct NameSet {
    names: Vec<String>,
}

impl View for NameSet {
    type V = Set<Seq<char>>;

    closed spec fn view(&self) -> Set<Seq<char>> {
        Set::new(|s: Seq<char>| exists|i: int| 0 <= i < self.names.len() && #[trigger] self.names@[i]@ == s)
    }
}

impl NameSet {
    /// The empty set.
    pub fn new() -> (r: NameSet)
        ensures
            r@ == Set::<Seq<char>>::empty(),
    {
        let r = NameSet { names: Vec::new() };
        assert(r@ =~= Set::<Seq<char>>::empty());
        r
    }

    /// Whether `s` is in the set.
    pub fn contains(&self, s: &String) -> (r: bool)
        ensures
            r == self@.contains(s@),
    {
        let mut i: usize = 0;
        while i < self.names.len()
            invariant
                i <= self.names.len(),
                forall|k: int| 0 <= k < i ==> #[trigger] self.names@[k]@ != s@,
            decreases self.names.len() - i,
        {
            if self.names[i] == *s {
                assert(self@.contains(s@) == (exists|k: int|
                    0 <= k < self.names.len() && #[trigger] self.names@[k]@ == s@));
                return true;
            }
            i += 1;
        }
        false
    }

    /// Adds `s` to the set.
    pub fn insert(&mut self, s: String)
        ensures
            final(self)@ == old(self)@.insert(s@),
    {
        if !self.contains(&s) {
            let ghost old_names = self.names@;
            self.names.push(s);
            proof {
                assert forall|x: Seq<char>| #[trigger] self@.contains(x) == old(self)@.insert(s@).contains(x) by {
                    if old(self)@.contains(x) {
                        let k = choose|k: int| 0 <= k < old_names.len() && #[trigger] old_names[k]@ == x;
                        assert(self.names@[k] == old_names[k]);
                    }
                    if self@.contains(x) && x != s@ {
                        let k = choose|k: int| 0 <= k < self.names.len() && #[trigger] self.names@[k]@ == x;
                        assert(k < old_names.len());
                        assert(old_names[k] == self.names@[k]);
                    }
                    if x == s@ {
                        assert(self.names@[old_names.len() as int]@ == x);
                    }
                }
                assert(self@ =~= old(self)@.insert(s@));
            }
        }
    }
}

/// The name under which the scope field `s1.s2` is tracked.
fn scope_key_exec(s1: &String, s2: &String) -> (r: String)
    ensures
        r@ == scope_key(s1@, s2@),
{
    let mut s = String::new();
    s.append(s1.as_str());
    s.append(".");
    s.append(s2.as_str());
    s
}

/// The scope fields that the expressions of a sequence read, together.
pub open spec fn used_vars_of_all(s: Seq<Expr>) -> Set<Seq<char>>
    decreases s.len(),
{
    if s.len() == 0 {
        Set::empty()
    } else {
        used_vars_of_all(s.drop_last()) + used_vars(s.last()@)
    }
}

/// Adds the scope fields that `expr` reads to `used`.
pub(crate) fn find_used_vars(expr: &Expr2, used: &mut NameSet)
    ensures
        final(used)@ == old(used)@ + used_vars(expr@),
    decreases expr,
{
    match expr {
        Expr2::Paren(e) => {
            find_used_vars(e, used);
            assert(used@ =~= old(used)@ + used_vars(expr@));
        },
        Expr2::Literal(_) => {
            assert(used@ =~= old(used)@ + used_vars(expr@));
        },
        Expr2::Obj(fields) => {
            let ghost fm = props_model_of(*fields);
            proof {
                lemma_props_model(*fields);
            }
            let mut i: usize = 0;
            while i < fields.len()
                invariant
                    i <= fields.len(),
                    *expr == Expr2::Obj(*fields),
                    fm == props_model_of(*fields),
                    fm.len() == fields.len(),
                    forall|k: int| 0 <= k < fields.len() ==> #[trigger] fm[k] == prop_model(fields@[k]),
                    used@ == old(used)@ + used_vars_props(fm.take(i as int)),
                decreases fields.len() - i,
            {
                proof {
                    assert(decreases_to!(*expr => expr->Obj_0));
                    assert(decreases_to!(expr->Obj_0 => fields@));
                    assert(decreases_to!(fields@ => fields@[i as int]));
                    assert(fm.take(i + 1).drop_last() =~= fm.take(i as int));
                }
                match &fields[i] {
                    PropertyDefinition::Named(_, val) => {
                        proof {
                            assert(decreases_to!(fields@[i as int] => *val));
                        }
                        find_used_vars(val, used);
                    },
                }
                i += 1;
            }
            proof {
                assert(fm.take(fields.len() as int) =~= fm);
            }
            assert(used@ =~= old(used)@ + used_vars(expr@));
        },
        Expr2::Var(_) => {
            assert(used@ =~= old(used)@ + used_vars(expr@));
        },
        Expr2::Field(lhs, _) => {
            find_used_vars(lhs, used);
            assert(used@ =~= old(used)@ + used_vars(expr@));
        },
        Expr2::ScopeField(s1, s2) => {
            used.insert(scope_key_exec(s1, s2));
            assert(used@ =~= old(used)@ + used_vars(expr@));
        },
        Expr2::Call(lhs, rhs) => {
            find_used_vars(lhs, used);
            find_used_vars(rhs, used);
            assert(used@ =~= old(used)@ + used_vars(expr@));
        },
        Expr2::Minus(e) => {
            find_used_vars(e, used);
            assert(used@ =~= old(used)@ + used_vars(expr@));
        },
        Expr2::Void => {
            assert(used@ =~= old(used)@ + used_vars(expr@));
        },
        Expr2::BinOp(lhs, rhs, _) => {
            find_used_vars(lhs, used);
            find_used_vars(rhs, used);
            assert(used@ =~= old(used)@ + used_vars(expr@));
        },
        Expr2::Ternary(cond, e1, e2) => {
            find_used_vars(cond, used);
            find_used_vars(e1, used);
            find_used_vars(e2, used);
            assert(used@ =~= old(used)@ + used_vars(expr@));
        },
        Expr2::Assignment(lhs, rhs) => {
            let ghost mid = used@;
            match &**lhs {
                Expr2::ScopeField(..) => {
                    assert(mid == old(used)@);
                },
                _ => {
                    find_used_vars(lhs, used);
                    assert(!(lhs@ is ScopeField));
                    assert(used@ == old(used)@ + used_vars(lhs@));
                },
            }
            find_used_vars(rhs, used);
            assert(used@ =~= old(used)@ + used_vars(expr@));
        },
        Expr2::ArrowFunc(_, _, body) => {
            find_used_vars(body, used);
            assert(used@ =~= old(used)@ + used_vars(expr@));
        },
        Expr2::Comma(exprs) => {
            proof {
                assert(decreases_to!(*expr => expr->Comma_0));
            }
            find_used_vars_list(exprs, used);
            assert(used@ =~= old(used)@ + used_vars(expr@));
        },
        Expr2::Print(exprs) => {
            proof {
                assert(decreases_to!(*expr => expr->Print_0));
            }
            find_used_vars_list(exprs, used);
            assert(used@ =~= old(used)@ + used_vars(expr@));
        },
    }
}

/// Adds the scope fields that the expressions of `exprs` read to `used`.
fn find_used_vars_list(exprs: &Vec<Expr2>, used: &mut NameSet)
    ensures
        final(used)@ == old(used)@ + used_vars_list(list_model_of(*exprs)),
    decreases exprs,
{
    let ghost m = list_model_of(*exprs);
    proof {
        lemma_list_model(*exprs);
    }
    let mut i: usize = 0;
    while i < exprs.len()
        invariant
            i <= exprs.len(),
            m == list_model_of(*exprs),
            m.len() == exprs.len(),
            forall|k: int| 0 <= k < exprs.len() ==> #[trigger] m[k] == exprs@[k]@,
            used@ == old(used)@ + used_vars_list(m.take(i as int)),
        decreases exprs.len() - i,
    {
        proof {
            assert(decreases_to!(*exprs => exprs@));
            assert(decreases_to!(exprs@ => exprs@[i as int]));
            assert(m.take(i + 1).drop_last() =~= m.take(i as int));
        }
        find_used_vars(&exprs[i], used);
        i += 1;
    }
    proof {
        assert(m.take(exprs.len() as int) =~= m);
    }
}

/// Replaces every assignment in `expr` to a scope field outside `used` by the
/// effectful parts of its right-hand side.
pub(crate) fn remove_unused_subexprs(expr: &mut Expr2, used: &NameSet)
    requires
        well_formed(old(expr)@),
    ensures
        final(expr)@ == remove_unused(old(expr)@, used@),
{
    let mut temp = Expr2::Void;
    std::mem::swap(expr, &mut temp);
    *expr = without_unused(temp, used);
}

/// Moves the expression at `i` out of `v`, leaving `void 0` in its place.
fn take_expr(v: &mut Vec<Expr2>, i: usize) -> (r: Expr2)
    requires
        i < old(v).len(),
    ensures
        r == old(v)@[i as int],
        final(v).len() == old(v).len(),
        forall|k: int| 0 <= k < old(v).len() && k != i ==> final(v)@[k] == old(v)@[k],
{
    let mut t = Expr2::Void;
    std::mem::swap(&mut v[i], &mut t);
    t
}

/// Moves the property at `i` out of `v`, leaving a placeholder in its place.
fn take_prop(v: &mut Vec<PropertyDefinition>, i: usize) -> (r: PropertyDefinition)
    requires
        i < old(v).len(),
    ensures
        r == old(v)@[i as int],
        final(v).len() == old(v).len(),
        forall|k: int| 0 <= k < old(v).len() && k != i ==> final(v)@[k] == old(v)@[k],
{
    let mut t = PropertyDefinition::Named(String::new(), Box::new(Expr2::Void));
    std::mem::swap(&mut v[i], &mut t);
    t
}

/// `expr` with every assignment to a scope field outside `used` replaced by
/// the effectful parts of its right-hand side.
#[verifier::loop_isolation(false)]
fn without_unused(expr: Expr2, used: &NameSet) -> (r: Expr2)
    requires
        well_formed(expr@),
    ensures
        r@ == remove_unused(expr@, used@),
    decreases expr, 0int,
{
    let ghost orig = expr;
    let ghost em = expr@;
    match expr {
        Expr2::Paren(e) => Expr2::Paren(Box::new(without_unused(*e, used))),
        Expr2::Literal(code) => Expr2::Literal(code),
        Expr2::Obj(fields) => {
            let ghost fm = props_model_of(fields);
            let ghost old_fields = fields;
            proof {
                lemma_props_model(fields);
                lemma_well_formed_props(fm);
            }
            let mut fields = fields;
            let n = fields.len();
            let mut r: Vec<PropertyDefinition> = Vec::new();
            let mut i: usize = 0;
            while i < n
                invariant
                    n == fields.len(),
                    n == old_fields.len(),
                    i <= n,
                    fm.len() == n,
                    orig == Expr2::Obj(old_fields),
                    forall|k: int| 0 <= k < n ==> #[trigger] fm[k] == prop_model(old_fields@[k]),
                    forall|k: int| 0 <= k < n ==> well_formed(#[trigger] fm[k].1),
                    forall|k: int| i <= k < n ==> #[trigger] fields@[k] == old_fields@[k],
                    r.len() == i,
                    forall|k: int|
                        0 <= k < i ==> #[trigger] prop_model(r@[k]) == (
                            fm[k].0,
                            remove_unused(fm[k].1, used@),
                        ),
                decreases n - i,
            {
                let p = take_prop(&mut fields, i);
                proof {
                    assert(decreases_to!(orig => orig->Obj_0));
                    assert(decreases_to!(old_fields => old_fields@));
                    assert(decreases_to!(old_fields@ => old_fields@[i as int]));
                    assert(p == old_fields@[i as int]);
                    assert(decreases_to!(p => p->Named_1));
                    assert(fm[i as int] == prop_model(p));
                    assert(well_formed(fm[i as int].1));
                }
                match p {
                    PropertyDefinition::Named(name, val) => {
                        r.push(PropertyDefinition::Named(name, Box::new(without_unused(*val, used))));
                    },
                }
                i += 1;
            }
            proof {
                lemma_props_model(r);
                assert(props_model_of(r) =~= remove_unused(em, used@)->Obj_0);
            }
            Expr2::Obj(r)
        },
        Expr2::Var(name) => Expr2::Var(name),
        Expr2::Field(lhs, rhs) => Expr2::Field(Box::new(without_unused(*lhs, used)), rhs),
        Expr2::ScopeField(s1, s2) => Expr2::ScopeField(s1, s2),
        Expr2::Call(lhs, rhs) => Expr2::Call(
            Box::new(without_unused(*lhs, used)),
            Box::new(without_unused(*rhs, used)),
        ),
        Expr2::Minus(e) => Expr2::Minus(Box::new(without_unused(*e, used))),
        Expr2::Void => Expr2::Void,
        Expr2::BinOp(lhs, rhs, op) => Expr2::BinOp(
            Box::new(without_unused(*lhs, used)),
            Box::new(without_unused(*rhs, used)),
            op,
        ),
        Expr2::Ternary(cond, e1, e2) => Expr2::Ternary(
            Box::new(without_unused(*cond, used)),
            Box::new(without_unused(*e1, used)),
            Box::new(without_unused(*e2, used)),
        ),
        Expr2::Assignment(lhs, rhs) => {
            let dead = match &*lhs {
                Expr2::ScopeField(s1, s2) => !used.contains(&scope_key_exec(s1, s2)),
                _ => {
                    assert(!(lhs@ is ScopeField));
                    false
                },
            };
            assert(dead == dead_store_target(lhs@, used@));
            if dead {
                let mut out: Vec<Expr2> = Vec::new();
                proof {
                    lemma_list_model(out);
                    assert(list_model_of(out) =~= Seq::<JsExpr>::empty());
                }
                simplify_unused_expr(*rhs, used, &mut out);
                proof {
                    assert(list_model_of(out) =~= simplify_unused(rhs@, used@));
                }
                comma_list_sub(out)
            } else {
                Expr2::Assignment(
                    Box::new(without_unused(*lhs, used)),
                    Box::new(without_unused(*rhs, used)),
                )
            }
        },
        Expr2::ArrowFunc(arg, scope_arg, body) => Expr2::ArrowFunc(
            arg,
            scope_arg,
            Box::new(without_unused(*body, used)),
        ),
        Expr2::Comma(exprs) => {
            let ghost m = list_model_of(exprs);
            let ghost old_exprs = exprs;
            proof {
                lemma_list_model(exprs);
                lemma_well_formed_list(m);
            }
            let mut exprs = exprs;
            let n = exprs.len();
            let last = take_expr(&mut exprs, n - 1);
            let mut out: Vec<Expr2> = Vec::new();
            proof {
                lemma_list_model(out);
                assert(list_model_of(out) =~= simplify_unused_list(m.take(0), used@));
            }
            let mut i: usize = 0;
            while i < n - 1
                invariant
                    n == exprs.len(),
                    n == old_exprs.len(),
                    n >= 1,
                    i <= n - 1,
                    m.len() == n,
                    orig == Expr2::Comma(old_exprs),
                    forall|k: int| 0 <= k < n ==> #[trigger] m[k] == old_exprs@[k]@,
                    forall|k: int| 0 <= k < n ==> well_formed(#[trigger] m[k]),
                    forall|k: int| i <= k < n - 1 ==> #[trigger] exprs@[k] == old_exprs@[k],
                    list_model_of(out) == simplify_unused_list(m.take(i as int), used@),
                decreases n - 1 - i,
            {
                let ex = take_expr(&mut exprs, i);
                proof {
                    assert(decreases_to!(orig => orig->Comma_0));
                    assert(decreases_to!(old_exprs => old_exprs@));
                    assert(decreases_to!(old_exprs@ => old_exprs@[i as int]));
                    assert(ex == old_exprs@[i as int]);
                    assert(m[i as int] == ex@);
                    assert(m.take(i + 1).drop_last() =~= m.take(i as int));
                }
                simplify_unused_expr(ex, used, &mut out);
                i += 1;
            }
            proof {
                assert(decreases_to!(orig => orig->Comma_0));
                assert(decreases_to!(old_exprs => old_exprs@));
                assert(decreases_to!(old_exprs@ => old_exprs@[n - 1]));
                assert(m[n - 1] == last@);
            }
            let last = without_unused(last, used);
            let ghost before = list_model_of(out);
            out.push(last);
            proof {
                lemma_list_model(out);
                assert(m.take(n - 1) =~= m.drop_last());
                assert(list_model_of(out) =~= before.push(last@));
            }
            comma_list_sub(out)
        },
        Expr2::Print(exprs) => {
            let ghost m = list_model_of(exprs);
            let ghost old_exprs = exprs;
            proof {
                lemma_list_model(exprs);
                lemma_well_formed_list(m);
            }
            let mut exprs = exprs;
            let n = exprs.len();
            let mut r: Vec<Expr2> = Vec::new();
            let mut i: usize = 0;
            while i < n
                invariant
                    n == exprs.len(),
                    n == old_exprs.len(),
                    i <= n,
                    m.len() == n,
                    orig == Expr2::Print(old_exprs),
                    forall|k: int| 0 <= k < n ==> #[trigger] m[k] == old_exprs@[k]@,
                    forall|k: int| 0 <= k < n ==> well_formed(#[trigger] m[k]),
                    forall|k: int| i <= k < n ==> #[trigger] exprs@[k] == old_exprs@[k],
                    r.len() == i,
                    forall|k: int| 0 <= k < i ==> #[trigger] r@[k]@ == remove_unused(m[k], used@),
                decreases n - i,
            {
                let ex = take_expr(&mut exprs, i);
                proof {
                    assert(decreases_to!(orig => orig->Print_0));
                    assert(decreases_to!(old_exprs => old_exprs@));
                    assert(decreases_to!(old_exprs@ => old_exprs@[i as int]));
                    assert(ex == old_exprs@[i as int]);
                    assert(m[i as int] == ex@);
                }
                r.push(without_unused(ex, used));
                i += 1;
            }
            proof {
                lemma_list_model(r);
                assert(list_model_of(r) =~= remove_unused(em, used@)->Print_0);
            }
            Expr2::Print(r)
        },
    }
}

/// Appends to `out` the parts of `expr` that may have an effect, each with
/// its unused assignments removed; the value of `expr` itself is not needed.
#[verifier::loop_isolation(false)]
pub(crate) fn simplify_unused_expr(expr: Expr2, used: &NameSet, out: &mut Vec<Expr2>)
    requires
        well_formed(expr@),
    ensures
        list_model_of(*final(out)) == list_model_of(*old(out)) + simplify_unused(expr@, used@),
    decreases expr, 1int,
{
    let ghost orig = expr;
    let ghost em = expr@;
    let ghost start = list_model_of(*out);
    proof {
        lemma_list_model(*out);
    }
    let effectful = match &expr {
        Expr2::Call(..) | Expr2::Ternary(..) | Expr2::Assignment(..) | Expr2::Print(..) => true,
        _ => false,
    };
    if effectful {
        let r = without_unused(expr, used);
        let is_void = match &r {
            Expr2::Void => true,
            _ => false,
        };
        if !is_void {
            out.push(r);
            proof {
                lemma_list_model(*out);
                assert(list_model_of(*out) =~= start + seq![r@]);
            }
        } else {
            assert(start + simplify_unused(em, used@) =~= start);
        }
        return ;
    }
    match expr {
        Expr2::Paren(e) => simplify_unused_expr(*e, used, out),
        Expr2::Obj(fields) => {
            let ghost fm = props_model_of(fields);
            let ghost old_fields = fields;
            proof {
                lemma_props_model(fields);
                lemma_well_formed_props(fm);
            }
            let mut fields = fields;
            let n = fields.len();
            let mut i: usize = 0;
            while i < n
                invariant
                    n == fields.len(),
                    n == old_fields.len(),
                    i <= n,
                    fm.len() == n,
                    orig == Expr2::Obj(old_fields),
                    forall|k: int| 0 <= k < n ==> #[trigger] fm[k] == prop_model(old_fields@[k]),
                    forall|k: int| 0 <= k < n ==> well_formed(#[trigger] fm[k].1),
                    forall|k: int| i <= k < n ==> #[trigger] fields@[k] == old_fields@[k],
                    list_model_of(*out) == start + simplify_unused_props(fm.take(i as int), used@),
                decreases n - i,
            {
                let p = take_prop(&mut fields, i);
                proof {
                    assert(decreases_to!(orig => orig->Obj_0));
                    assert(decreases_to!(old_fields => old_fields@));
                    assert(decreases_to!(old_fields@ => old_fields@[i as int]));
                    assert(p == old_fields@[i as int]);
                    assert(decreases_to!(p => p->Named_1));
                    assert(fm[i as int] == prop_model(p));
                    assert(well_formed(fm[i as int].1));
                    assert(fm.take(i + 1).drop_last() =~= fm.take(i as int));
                }
                match p {
                    PropertyDefinition::Named(_, val) => {
                        simplify_unused_expr(*val, used, out);
                    },
                }
                i += 1;
            }
            proof {
                assert(fm.take(n as int) =~= fm);
            }
        },
        Expr2::Field(lhs, _) => simplify_unused_expr(*lhs, used, out),
        Expr2::Minus(e) => simplify_unused_expr(*e, used, out),
        Expr2::BinOp(lhs, rhs, _) => {
            simplify_unused_expr(*lhs, used, out);
            simplify_unused_expr(*rhs, used, out);
        },
        Expr2::Comma(exprs) => {
            let ghost m = list_model_of(exprs);
            let ghost old_exprs = exprs;
            proof {
                lemma_list_model(exprs);
                lemma_well_formed_list(m);
            }
            let mut exprs = exprs;
            let n = exprs.len();
            let mut i: usize = 0;
            while i < n
                invariant
                    n == exprs.len(),
                    n == old_exprs.len(),
                    i <= n,
                    m.len() == n,
                    orig == Expr2::Comma(old_exprs),
                    forall|k: int| 0 <= k < n ==> #[trigger] m[k] == old_exprs@[k]@,
                    forall|k: int| 0 <= k < n ==> well_formed(#[trigger] m[k]),
                    forall|k: int| i <= k < n ==> #[trigger] exprs@[k] == old_exprs@[k],
                    list_model_of(*out) == start + simplify_unused_list(m.take(i as int), used@),
                decreases n - i,
            {
                let ex = take_expr(&mut exprs, i);
                proof {
                    assert(decreases_to!(orig => orig->Comma_0));
                    assert(decreases_to!(old_exprs => old_exprs@));
                    assert(decreases_to!(old_exprs@ => old_exprs@[i as int]));
                    assert(ex == old_exprs@[i as int]);
                    assert(m[i as int] == ex@);
                    assert(m.take(i + 1).drop_last() =~= m.take(i as int));
                }
                simplify_unused_expr(ex, used, out);
                i += 1;
            }
            proof {
                assert(m.take(n as int) =~= m);
            }
        },
        _ => {
            assert(start + simplify_unused(em, used@) =~= start);
        },
    }
}

/// Basic dead-code removal. Every scope field that `expr` reads, or that one
/// of `bindings` reads (the expressions the module's names are bound to at
/// its end, which later code may still use), is kept; every assignment to
/// any other scope field is replaced by the effectful parts of its
/// right-hand side.
pub fn optimize(expr: &mut Expr, bindings: &[Expr])
    ensures
        final(expr)@ == remove_unused(
            old(expr)@,
            used_vars(old(expr)@) + used_vars_of_all(bindings@),
        ),
{
    let mut used = NameSet::new();
    find_used_vars(&expr.0, &mut used);
    let mut i: usize = 0;
    while i < bindings.len()
        invariant
            i <= bindings.len(),
            used@ == used_vars(expr@) + used_vars_of_all(bindings@.take(i as int)),
        decreases bindings.len() - i,
    {
        proof {
            assert(bindings@.take(i + 1).drop_last() =~= bindings@.take(i as int));
        }
        find_used_vars(&bindings[i].0, &mut used);
        i += 1;
    }
    proof {
        assert(bindings@.take(bindings.len() as int) =~= bindings@);
    }
    let mut taken = Expr(Expr2::Void);
    std::mem::swap(expr, &mut taken);
    proof {
        use_type_invariant(&taken);
    }
    let Expr(mut e) = taken;
    remove_unused_subexprs(&mut e, &used);
    proof {
        lemma_remove_unused_well_formed(old(expr)@, used@);
    }
    *expr = Expr(e);
}

/// Removing unused assignments keeps every comma expression non-empty.
pub proof fn lemma_remove_unused_well_formed(e: JsExpr, used: Set<Seq<char>>)
    requires
        well_formed(e),
    ensures
        well_formed(remove_unused(e, used)),
    decreases e, 0int,
{
    match e {
        JsExpr::Paren(inner) => lemma_remove_unused_well_formed(*inner, used),
        JsExpr::Obj(fields) => {
            let r = remove_unused(e, used)->Obj_0;
            lemma_well_formed_props(fields);
            assert forall|i: int| 0 <= i < r.len() implies well_formed(#[trigger] r[i].1) by {
                assert(well_formed(fields[i].1));
                lemma_remove_unused_well_formed(fields[i].1, used);
            }
            lemma_well_formed_props(r);
        },
        JsExpr::Field(lhs, _) => lemma_remove_unused_well_formed(*lhs, used),
        JsExpr::Call(lhs, rhs) => {
            lemma_remove_unused_well_formed(*lhs, used);
            lemma_remove_unused_well_formed(*rhs, used);
        },
        JsExpr::Minus(inner) => lemma_remove_unused_well_formed(*inner, used),
        JsExpr::BinOp(lhs, rhs, _) => {
            lemma_remove_unused_well_formed(*lhs, used);
            lemma_remove_unused_well_formed(*rhs, used);
        },
        JsExpr::Ternary(c, e1, e2) => {
            lemma_remove_unused_well_formed(*c, used);
            lemma_remove_unused_well_formed(*e1, used);
            lemma_remove_unused_well_formed(*e2, used);
        },
        JsExpr::Assignment(lhs, rhs) => {
            if dead_store_target(*lhs, used) {
                lemma_simplify_unused_well_formed(*rhs, used);
                lemma_comma_of_well_formed(simplify_unused(*rhs, used));
            } else {
                lemma_remove_unused_well_formed(*lhs, used);
                lemma_remove_unused_well_formed(*rhs, used);
            }
        },
        JsExpr::ArrowFunc(_, _, body) => lemma_remove_unused_well_formed(*body, used),
        JsExpr::Comma(exprs) => {
            lemma_well_formed_list(exprs);
            let prefix = exprs.drop_last();
            assert forall|i: int| 0 <= i < prefix.len() implies well_formed(#[trigger] prefix[i]) by {
                assert(prefix[i] == exprs[i]);
            }
            lemma_simplify_unused_list_well_formed(prefix, used);
            assert(well_formed(exprs[exprs.len() - 1]));
            lemma_remove_unused_well_formed(exprs.last(), used);
            let s = simplify_unused_list(prefix, used).push(remove_unused(exprs.last(), used));
            assert forall|i: int| 0 <= i < s.len() implies well_formed(#[trigger] s[i]) by {
                if i < s.len() - 1 {
                    assert(s[i] == simplify_unused_list(prefix, used)[i]);
                }
            }
            lemma_comma_of_well_formed(s);
        },
        JsExpr::Print(exprs) => {
            let r = remove_unused(e, used)->Print_0;
            lemma_well_formed_list(exprs);
            assert forall|i: int| 0 <= i < r.len() implies well_formed(#[trigger] r[i]) by {
                assert(well_formed(exprs[i]));
                lemma_remove_unused_well_formed(exprs[i], used);
            }
            lemma_well_formed_list(r);
        },
        _ => {},
    }
}

/// The effectful parts kept from a well-formed expression are well formed.
pub proof fn lemma_simplify_unused_well_formed(e: JsExpr, used: Set<Seq<char>>)
    requires
        well_formed(e),
    ensures
        forall|i: int|
            0 <= i < simplify_unused(e, used).len() ==> well_formed(#[trigger] simplify_unused(e, used)[i]),
    decreases e, 1int,
{
    match e {
        JsExpr::Paren(inner) => {
            lemma_simplify_unused_well_formed(*inner, used);
            assert(simplify_unused(e, used) == simplify_unused(*inner, used));
        },
        JsExpr::Obj(fields) => {
            lemma_well_formed_props(fields);
            lemma_simplify_unused_props_well_formed(fields, used);
            assert(simplify_unused(e, used) == simplify_unused_props(fields, used));
        },
        JsExpr::Field(lhs, _) => {
            lemma_simplify_unused_well_formed(*lhs, used);
            assert(simplify_unused(e, used) == simplify_unused(*lhs, used));
        },
        JsExpr::Minus(inner) => {
            lemma_simplify_unused_well_formed(*inner, used);
            assert(simplify_unused(e, used) == simplify_unused(*inner, used));
        },
        JsExpr::BinOp(lhs, rhs, _) => {
            lemma_simplify_unused_well_formed(*lhs, used);
            lemma_simplify_unused_well_formed(*rhs, used);
            let a = simplify_unused(*lhs, used);
            let b = simplify_unused(*rhs, used);
            assert forall|i: int| 0 <= i < (a + b).len() implies well_formed(#[trigger] (a + b)[i]) by {
                if i < a.len() {
                    assert((a + b)[i] == a[i]);
                } else {
                    assert((a + b)[i] == b[i - a.len()]);
                }
            }
        },
        JsExpr::Comma(exprs) => {
            lemma_well_formed_list(exprs);
            lemma_simplify_unused_list_well_formed(exprs, used);
            assert(simplify_unused(e, used) == simplify_unused_list(exprs, used));
        },
        JsExpr::Call(..) | JsExpr::Ternary(..) | JsExpr::Assignment(..) | JsExpr::Print(..) => {
            lemma_remove_unused_well_formed(e, used);
            let r = remove_unused(e, used);
            if !(r is Void) {
                assert(simplify_unused(e, used) =~= seq![r]);
            }
        },
        _ => {
            assert(simplify_unused(e, used).len() == 0);
        },
    }
}

/// The effectful parts kept from a list of well-formed expressions are well
/// formed.
pub proof fn lemma_simplify_unused_list_well_formed(s: Seq<JsExpr>, used: Set<Seq<char>>)
    requires
        forall|i: int| 0 <= i < s.len() ==> well_formed(#[trigger] s[i]),
    ensures
        forall|i: int|
            0 <= i < simplify_unused_list(s, used).len() ==> well_formed(
                #[trigger] simplify_unused_list(s, used)[i],
            ),
    decreases s, 1int,
{
    if s.len() > 0 {
        let p = s.drop_last();
        assert forall|i: int| 0 <= i < p.len() implies well_formed(#[trigger] p[i]) by {
            assert(p[i] == s[i]);
        }
        lemma_simplify_unused_list_well_formed(p, used);
        assert(well_formed(s[s.len() - 1]));
        lemma_simplify_unused_well_formed(s.last(), used);
        let a = simplify_unused_list(p, used);
        let b = simplify_unused(s.last(), used);
        assert forall|i: int| 0 <= i < (a + b).len() implies well_formed(#[trigger] (a + b)[i]) by {
            if i < a.len() {
                assert((a + b)[i] == a[i]);
            } else {
                assert((a + b)[i] == b[i - a.len()]);
            }
        }
    }
}

/// The effectful parts kept from the values of an object literal with
/// well-formed values are well formed.
pub proof fn lemma_simplify_unused_props_well_formed(s: Seq<(Seq<char>, JsExpr)>, used: Set<Seq<char>>)
    requires
        forall|i: int| 0 <= i < s.len() ==> well_formed(#[trigger] s[i].1),
    ensures
        forall|i: int|
            0 <= i < simplify_unused_props(s, used).len() ==> well_formed(
                #[trigger] simplify_unused_props(s, used)[i],
            ),
    decreases s, 1int,
{
    if s.len() > 0 {
        let p = s.drop_last();
        assert forall|i: int| 0 <= i < p.len() implies well_formed(#[trigger] p[i].1) by {
            assert(p[i] == s[i]);
        }
        lemma_simplify_unused_props_well_formed(p, used);
        assert(well_formed(s[s.len() - 1].1));
        lemma_simplify_unused_well_formed(s.last().1, used);
        let a = simplify_unused_props(p, used);
        let b = simplify_unused(s.last().1, used);
        assert forall|i: int| 0 <= i < (a + b).len() implies well_formed(#[trigger] (a + b)[i]) by {
            if i < a.len() {
                assert((a + b)[i] == a[i]);
            } else {
                assert((a + b)[i] == b[i - a.len()]);
            }
        }
    }
}

} // verus!

verus! {

/// Whether every assignment in the tree stores into a reference: a scope
/// field, a variable, or a field of an object (the only targets JavaScript
/// accepts, and the only ones the code generator builds).
pub open spec fn valid_targets(e: JsExpr) -> bool
    decreases e,
{
    match e {
        JsExpr::Paren(inner) => valid_targets(*inner),
        JsExpr::Obj(fields) => valid_targets_props(fields),
        JsExpr::Field(lhs, _) => valid_targets(*lhs),
        JsExpr::Call(lhs, rhs) => valid_targets(*lhs) && valid_targets(*rhs),
        JsExpr::Minus(inner) => valid_targets(*inner),
        JsExpr::BinOp(lhs, rhs, _) => valid_targets(*lhs) && valid_targets(*rhs),
        JsExpr::Ternary(c, e1, e2) => valid_targets(*c) && valid_targets(*e1) && valid_targets(*e2),
        JsExpr::Assignment(lhs, rhs) => (*lhs is ScopeField || *lhs is Var || *lhs is Field)
            && valid_targets(*lhs) && valid_targets(*rhs),
        JsExpr::ArrowFunc(arg, _, body) => valid_targets(*arg) && valid_targets(*body),
        JsExpr::Comma(exprs) => valid_targets_list(exprs),
        JsExpr::Print(exprs) => valid_targets_list(exprs),
        _ => true,
    }
}

/// Whether every expression of the list has valid assignment targets.
pub open spec fn valid_targets_list(s: Seq<JsExpr>) -> bool
    decreases s,
{
    s.len() == 0 || (valid_targets_list(s.drop_last()) && valid_targets(s.last()))
}

/// Whether every property value has valid assignment targets.
pub open spec fn valid_targets_props(s: Seq<(Seq<char>, JsExpr)>) -> bool
    decreases s,
{
    s.len() == 0 || (valid_targets_props(s.drop_last()) && valid_targets(s.last().1))
}

proof fn lemma_valid_targets_list_index(s: Seq<JsExpr>)
    ensures
        valid_targets_list(s) <==> forall|i: int| 0 <= i < s.len() ==> valid_targets(#[trigger] s[i]),
    decreases s.len(),
{
    if s.len() > 0 {
        lemma_valid_targets_list_index(s.drop_last());
        if forall|i: int| 0 <= i < s.len() ==> valid_targets(#[trigger] s[i]) {
            assert forall|i: int| 0 <= i < s.drop_last().len() implies valid_targets(
                #[trigger] s.drop_last()[i],
            ) by {
                assert(s.drop_last()[i] == s[i]);
            }
            assert(valid_targets(s[s.len() - 1]));
        }
        if valid_targets_list(s) {
            assert forall|i: int| 0 <= i < s.len() implies valid_targets(#[trigger] s[i]) by {
                if i < s.len() - 1 {
                    assert(s.drop_last()[i] == s[i]);
                }
            }
        }
    }
}

proof fn lemma_valid_targets_props_index(s: Seq<(Seq<char>, JsExpr)>)
    ensures
        valid_targets_props(s) <==> forall|i: int| 0 <= i < s.len() ==> valid_targets(#[trigger] s[i].1),
    decreases s.len(),
{
    if s.len() > 0 {
        lemma_valid_targets_props_index(s.drop_last());
        if forall|i: int| 0 <= i < s.len() ==> valid_targets(#[trigger] s[i].1) {
            assert forall|i: int| 0 <= i < s.drop_last().len() implies valid_targets(
                #[trigger] s.drop_last()[i].1,
            ) by {
                assert(s.drop_last()[i] == s[i]);
            }
            assert(valid_targets(s[s.len() - 1].1));
        }
        if valid_targets_props(s) {
            assert forall|i: int| 0 <= i < s.len() implies valid_targets(#[trigger] s[i].1) by {
                if i < s.len() - 1 {
                    assert(s.drop_last()[i] == s[i]);
                }
            }
        }
    }
}

/// Whether no assignment in the tree targets a scope field outside `used`
/// (the parameter pattern of an arrow function is not an expression that
/// runs, so it is not looked at).
pub open spec fn no_dead_stores(e: JsExpr, used: Set<Seq<char>>) -> bool
    decreases e,
{
    match e {
        JsExpr::Paren(inner) => no_dead_stores(*inner, used),
        JsExpr::Obj(fields) => no_dead_stores_props(fields, used),
        JsExpr::Field(lhs, _) => no_dead_stores(*lhs, used),
        JsExpr::Call(lhs, rhs) => no_dead_stores(*lhs, used) && no_dead_stores(*rhs, used),
        JsExpr::Minus(inner) => no_dead_stores(*inner, used),
        JsExpr::BinOp(lhs, rhs, _) => no_dead_stores(*lhs, used) && no_dead_stores(*rhs, used),
        JsExpr::Ternary(c, e1, e2) => no_dead_stores(*c, used) && no_dead_stores(*e1, used)
            && no_dead_stores(*e2, used),
        JsExpr::Assignment(lhs, rhs) => !dead_store_target(*lhs, used) && no_dead_stores(*lhs, used)
            && no_dead_stores(*rhs, used),
        JsExpr::ArrowFunc(_, _, body) => no_dead_stores(*body, used),
        JsExpr::Comma(exprs) => no_dead_stores_list(exprs, used),
        JsExpr::Print(exprs) => no_dead_stores_list(exprs, used),
        _ => true,
    }
}

/// Whether no expression of the list holds a dead store.
pub open spec fn no_dead_stores_list(s: Seq<JsExpr>, used: Set<Seq<char>>) -> bool
    decreases s,
{
    s.len() == 0 || (no_dead_stores_list(s.drop_last(), used) && no_dead_stores(s.last(), used))
}

/// Whether no property value holds a dead store.
pub open spec fn no_dead_stores_props(s: Seq<(Seq<char>, JsExpr)>, used: Set<Seq<char>>) -> bool
    decreases s,
{
    s.len() == 0 || (no_dead_stores_props(s.drop_last(), used) && no_dead_stores(s.last().1, used))
}

/// The scope fields that an expression assigns when it is evaluated; stores
/// inside function bodies are not counted, since defining a function runs
/// none of them.
pub open spec fn live_stores(e: JsExpr) -> Set<Seq<char>>
    decreases e,
{
    match e {
        JsExpr::Paren(inner) => live_stores(*inner),
        JsExpr::Obj(fields) => live_stores_props(fields),
        JsExpr::Field(lhs, _) => live_stores(*lhs),
        JsExpr::Call(lhs, rhs) => live_stores(*lhs) + live_stores(*rhs),
        JsExpr::Minus(inner) => live_stores(*inner),
        JsExpr::BinOp(lhs, rhs, _) => live_stores(*lhs) + live_stores(*rhs),
        JsExpr::Ternary(c, e1, e2) => live_stores(*c) + live_stores(*e1) + live_stores(*e2),
        JsExpr::Assignment(lhs, rhs) => (match *lhs {
            JsExpr::ScopeField(s1, s2) => set![scope_key(s1, s2)],
            other => live_stores(other),
        }) + live_stores(*rhs),
        JsExpr::Comma(exprs) => live_stores_list(exprs),
        JsExpr::Print(exprs) => live_stores_list(exprs),
        _ => Set::empty(),
    }
}

/// The scope fields that the expressions of a list assign.
pub open spec fn live_stores_list(s: Seq<JsExpr>) -> Set<Seq<char>>
    decreases s,
{
    if s.len() == 0 {
        Set::empty()
    } else {
        live_stores_list(s.drop_last()) + live_stores(s.last())
    }
}

/// The scope fields that the property values of an object literal assign.
pub open spec fn live_stores_props(s: Seq<(Seq<char>, JsExpr)>) -> Set<Seq<char>>
    decreases s,
{
    if s.len() == 0 {
        Set::empty()
    } else {
        live_stores_props(s.drop_last()) + live_stores(s.last().1)
    }
}

proof fn lemma_no_dead_list_index(s: Seq<JsExpr>, used: Set<Seq<char>>)
    ensures
        no_dead_stores_list(s, used) <==> forall|i: int|
            0 <= i < s.len() ==> no_dead_stores(#[trigger] s[i], used),
    decreases s.len(),
{
    if s.len() > 0 {
        lemma_no_dead_list_index(s.drop_last(), used);
        if forall|i: int| 0 <= i < s.len() ==> no_dead_stores(#[trigger] s[i], used) {
            assert forall|i: int| 0 <= i < s.drop_last().len() implies no_dead_stores(
                #[trigger] s.drop_last()[i],
                used,
            ) by {
                assert(s.drop_last()[i] == s[i]);
            }
            assert(no_dead_stores(s[s.len() - 1], used));
        }
        if no_dead_stores_list(s, used) {
            assert forall|i: int| 0 <= i < s.len() implies no_dead_stores(#[trigger] s[i], used) by {
                if i < s.len() - 1 {
                    assert(s.drop_last()[i] == s[i]);
                }
            }
        }
    }
}

proof fn lemma_no_dead_props_index(s: Seq<(Seq<char>, JsExpr)>, used: Set<Seq<char>>)
    ensures
        no_dead_stores_props(s, used) <==> forall|i: int|
            0 <= i < s.len() ==> no_dead_stores(#[trigger] s[i].1, used),
    decreases s.len(),
{
    if s.len() > 0 {
        lemma_no_dead_props_index(s.drop_last(), used);
        if forall|i: int| 0 <= i < s.len() ==> no_dead_stores(#[trigger] s[i].1, used) {
            assert forall|i: int| 0 <= i < s.drop_last().len() implies no_dead_stores(
                #[trigger] s.drop_last()[i].1,
                used,
            ) by {
                assert(s.drop_last()[i] == s[i]);
            }
            assert(no_dead_stores(s[s.len() - 1].1, used));
        }
        if no_dead_stores_props(s, used) {
            assert forall|i: int| 0 <= i < s.len() implies no_dead_stores(#[trigger] s[i].1, used) by {
                if i < s.len() - 1 {
                    assert(s.drop_last()[i] == s[i]);
                }
            }
        }
    }
}

proof fn lemma_no_dead_list_concat(a: Seq<JsExpr>, b: Seq<JsExpr>, used: Set<Seq<char>>)
    requires
        no_dead_stores_list(a, used),
        no_dead_stores_list(b, used),
    ensures
        no_dead_stores_list(a + b, used),
{
    lemma_no_dead_list_index(a, used);
    lemma_no_dead_list_index(b, used);
    lemma_no_dead_list_index(a + b, used);
    assert forall|i: int| 0 <= i < (a + b).len() implies no_dead_stores(#[trigger] (a + b)[i], used) by {
        if i < a.len() {
            assert((a + b)[i] == a[i]);
        } else {
            assert((a + b)[i] == b[i - a.len()]);
        }
    }
}

proof fn lemma_no_dead_comma_of(s: Seq<JsExpr>, used: Set<Seq<char>>)
    requires
        no_dead_stores_list(s, used),
    ensures
        no_dead_stores(comma_of(s), used),
{
    if s.len() == 1 {
        assert(s.drop_last().len() == 0);
        assert(s.last() == s[0]);
    }
}

/// After unused assignments are removed, no assignment to a scope field
/// outside `used` is left anywhere in the tree.
pub proof fn lemma_remove_unused_leaves_no_dead_store(e: JsExpr, used: Set<Seq<char>>)
    requires
        valid_targets(e),
    ensures
        no_dead_stores(remove_unused(e, used), used),
    decreases e, 0int,
{
    match e {
        JsExpr::Paren(inner) => lemma_remove_unused_leaves_no_dead_store(*inner, used),
        JsExpr::Obj(fields) => {
            let r = remove_unused(e, used)->Obj_0;
            lemma_valid_targets_props_index(fields);
            assert forall|i: int| 0 <= i < r.len() implies no_dead_stores(#[trigger] r[i].1, used) by {
                assert(valid_targets(fields[i].1));
                lemma_remove_unused_leaves_no_dead_store(fields[i].1, used);
            }
            lemma_no_dead_props_index(r, used);
        },
        JsExpr::Field(lhs, _) => lemma_remove_unused_leaves_no_dead_store(*lhs, used),
        JsExpr::Call(lhs, rhs) => {
            lemma_remove_unused_leaves_no_dead_store(*lhs, used);
            lemma_remove_unused_leaves_no_dead_store(*rhs, used);
        },
        JsExpr::Minus(inner) => lemma_remove_unused_leaves_no_dead_store(*inner, used),
        JsExpr::BinOp(lhs, rhs, _) => {
            lemma_remove_unused_leaves_no_dead_store(*lhs, used);
            lemma_remove_unused_leaves_no_dead_store(*rhs, used);
        },
        JsExpr::Ternary(c, e1, e2) => {
            lemma_remove_unused_leaves_no_dead_store(*c, used);
            lemma_remove_unused_leaves_no_dead_store(*e1, used);
            lemma_remove_unused_leaves_no_dead_store(*e2, used);
        },
        JsExpr::Assignment(lhs, rhs) => {
            if dead_store_target(*lhs, used) {
                lemma_simplify_unused_leaves_no_dead_store(*rhs, used);
                lemma_no_dead_comma_of(simplify_unused(*rhs, used), used);
                assert(remove_unused(e, used) == comma_of(simplify_unused(*rhs, used)));
            } else {
                lemma_remove_unused_leaves_no_dead_store(*lhs, used);
                lemma_remove_unused_leaves_no_dead_store(*rhs, used);
                match *lhs {
                    JsExpr::ScopeField(s1, s2) => {
                        assert(remove_unused(*lhs, used) == *lhs);
                    },
                    JsExpr::Var(_) => {
                        assert(remove_unused(*lhs, used) == *lhs);
                    },
                    _ => {
                        assert(remove_unused(*lhs, used) is Field);
                    },
                }
                assert(!dead_store_target(remove_unused(*lhs, used), used));

            }
        },
        JsExpr::ArrowFunc(_, _, body) => {
            lemma_remove_unused_leaves_no_dead_store(*body, used);
        },
        JsExpr::Comma(exprs) => {
            if exprs.len() > 0 {
                lemma_valid_targets_list_index(exprs);
                lemma_valid_targets_list_index(exprs.drop_last());
                assert forall|i: int| 0 <= i < exprs.drop_last().len() implies valid_targets(
                    #[trigger] exprs.drop_last()[i],
                ) by {
                    assert(exprs.drop_last()[i] == exprs[i]);
                }
                assert(valid_targets(exprs[exprs.len() - 1]));
                lemma_simplify_unused_list_leaves_no_dead_store(exprs.drop_last(), used);
                lemma_remove_unused_leaves_no_dead_store(exprs.last(), used);
                let s = simplify_unused_list(exprs.drop_last(), used);
                let t = seq![remove_unused(exprs.last(), used)];
                lemma_no_dead_list_index(t, used);
                lemma_no_dead_list_concat(s, t, used);
                assert(s.push(remove_unused(exprs.last(), used)) =~= s + t);
                lemma_no_dead_comma_of(s + t, used);
                assert(remove_unused(e, used) == comma_of(s + t));
            } else {
                assert(remove_unused(e, used) == e);
                assert(no_dead_stores_list(exprs, used));
            }
        },
        JsExpr::Print(exprs) => {
            let r = remove_unused(e, used)->Print_0;
            lemma_valid_targets_list_index(exprs);
            assert forall|i: int| 0 <= i < r.len() implies no_dead_stores(#[trigger] r[i], used) by {
                assert(valid_targets(exprs[i]));
                lemma_remove_unused_leaves_no_dead_store(exprs[i], used);
            }
            lemma_no_dead_list_index(r, used);
        },
        _ => {},
    }
}

/// The effectful parts kept from an expression hold no dead store.
pub proof fn lemma_simplify_unused_leaves_no_dead_store(e: JsExpr, used: Set<Seq<char>>)
    requires
        valid_targets(e),
    ensures
        no_dead_stores_list(simplify_unused(e, used), used),
    decreases e, 1int,
{
    match e {
        JsExpr::Paren(inner) => lemma_simplify_unused_leaves_no_dead_store(*inner, used),
        JsExpr::Obj(fields) => lemma_simplify_unused_props_leaves_no_dead_store(fields, used),
        JsExpr::Field(lhs, _) => lemma_simplify_unused_leaves_no_dead_store(*lhs, used),
        JsExpr::Minus(inner) => lemma_simplify_unused_leaves_no_dead_store(*inner, used),
        JsExpr::BinOp(lhs, rhs, _) => {
            lemma_simplify_unused_leaves_no_dead_store(*lhs, used);
            lemma_simplify_unused_leaves_no_dead_store(*rhs, used);
            lemma_no_dead_list_concat(simplify_unused(*lhs, used), simplify_unused(*rhs, used), used);
        },
        JsExpr::Comma(exprs) => lemma_simplify_unused_list_leaves_no_dead_store(exprs, used),
        JsExpr::Call(..) | JsExpr::Ternary(..) | JsExpr::Assignment(..) | JsExpr::Print(..) => {
            lemma_remove_unused_leaves_no_dead_store(e, used);
            let r = remove_unused(e, used);
            if !(r is Void) {
                lemma_no_dead_list_index(seq![r], used);
            }
        },
        _ => {},
    }
}

/// The effectful parts kept from a list hold no dead store.
pub proof fn lemma_simplify_unused_list_leaves_no_dead_store(s: Seq<JsExpr>, used: Set<Seq<char>>)
    requires
        valid_targets_list(s),
    ensures
        no_dead_stores_list(simplify_unused_list(s, used), used),
    decreases s, 1int,
{
    if s.len() > 0 {
        lemma_simplify_unused_list_leaves_no_dead_store(s.drop_last(), used);
        lemma_simplify_unused_leaves_no_dead_store(s.last(), used);
        lemma_no_dead_list_concat(
            simplify_unused_list(s.drop_last(), used),
            simplify_unused(s.last(), used),
            used,
        );
    }
}

/// The effectful parts kept from the values of an object literal hold no
/// dead store.
pub proof fn lemma_simplify_unused_props_leaves_no_dead_store(
    s: Seq<(Seq<char>, JsExpr)>,
    used: Set<Seq<char>>,
)
    requires
        valid_targets_props(s),
    ensures
        no_dead_stores_list(simplify_unused_props(s, used), used),
    decreases s, 1int,
{
    if s.len() > 0 {
        lemma_simplify_unused_props_leaves_no_dead_store(s.drop_last(), used);
        lemma_simplify_unused_leaves_no_dead_store(s.last().1, used);
        lemma_no_dead_list_concat(
            simplify_unused_props(s.drop_last(), used),
            simplify_unused(s.last().1, used),
            used,
        );
    }
}

} // verus!

verus! {

proof fn lemma_live_list_concat(a: Seq<JsExpr>, b: Seq<JsExpr>)
    ensures
        live_stores_list(a + b) == live_stores_list(a) + live_stores_list(b),
    decreases b.len(),
{
    if b.len() == 0 {
        assert(a + b =~= a);
        assert(live_stores_list(a) + live_stores_list(b) =~= live_stores_list(a));
    } else {
        lemma_live_list_concat(a, b.drop_last());
        assert((a + b).drop_last() =~= a + b.drop_last());
        assert((a + b).last() == b.last());
        assert(live_stores_list(a + b) =~= live_stores_list(a) + live_stores_list(b));
    }
}

proof fn lemma_live_list_single(x: JsExpr)
    ensures
        live_stores_list(seq![x]) == live_stores(x),
{
    let s = seq![x];
    assert(s.drop_last() =~= Seq::<JsExpr>::empty());
    assert(live_stores_list(s.drop_last()) =~= Set::<Seq<char>>::empty());
    assert(s.last() == x);
    assert(live_stores_list(s) =~= live_stores(x));
}

proof fn lemma_live_comma_of(s: Seq<JsExpr>)
    ensures
        live_stores(comma_of(s)) == live_stores_list(s),
{
    if s.len() == 0 {
        assert(live_stores_list(s) =~= Set::<Seq<char>>::empty());
    } else if s.len() == 1 {
        lemma_live_list_single(s[0]);
        assert(s =~= seq![s[0]]);
    }
}

proof fn lemma_live_list_pointwise(a: Seq<JsExpr>, b: Seq<JsExpr>, used: Set<Seq<char>>)
    requires
        a.len() == b.len(),
        forall|i: int| 0 <= i < a.len() ==> live_stores(#[trigger] a[i]).intersect(used).subset_of(
            live_stores(b[i]),
        ),
    ensures
        live_stores_list(a).intersect(used).subset_of(live_stores_list(b)),
    decreases a.len(),
{
    if a.len() > 0 {
        assert forall|i: int| 0 <= i < a.drop_last().len() implies live_stores(
            #[trigger] a.drop_last()[i],
        ).intersect(used).subset_of(live_stores(b.drop_last()[i])) by {
            assert(a.drop_last()[i] == a[i]);
            assert(b.drop_last()[i] == b[i]);
        }
        lemma_live_list_pointwise(a.drop_last(), b.drop_last(), used);
        assert(live_stores(a[a.len() - 1]).intersect(used).subset_of(live_stores(b[b.len() - 1])));
    }
}

proof fn lemma_live_props_pointwise(
    a: Seq<(Seq<char>, JsExpr)>,
    b: Seq<(Seq<char>, JsExpr)>,
    used: Set<Seq<char>>,
)
    requires
        a.len() == b.len(),
        forall|i: int| 0 <= i < a.len() ==> live_stores(#[trigger] a[i].1).intersect(used).subset_of(
            live_stores(b[i].1),
        ),
    ensures
        live_stores_props(a).intersect(used).subset_of(live_stores_props(b)),
    decreases a.len(),
{
    if a.len() > 0 {
        assert forall|i: int| 0 <= i < a.drop_last().len() implies live_stores(
            #[trigger] a.drop_last()[i].1,
        ).intersect(used).subset_of(live_stores(b.drop_last()[i].1)) by {
            assert(a.drop_last()[i] == a[i]);
            assert(b.drop_last()[i] == b[i]);
        }
        lemma_live_props_pointwise(a.drop_last(), b.drop_last(), used);
        assert(live_stores(a[a.len() - 1].1).intersect(used).subset_of(live_stores(b[b.len() - 1].1)));
    }
}

/// Removing unused assignments keeps every store to a scope field in
/// `used` that runs when the expression is evaluated.
pub proof fn lemma_remove_unused_keeps_used_stores(e: JsExpr, used: Set<Seq<char>>)
    requires
        valid_targets(e),
    ensures
        live_stores(e).intersect(used).subset_of(live_stores(remove_unused(e, used))),
    decreases e, 0int,
{
    match e {
        JsExpr::Paren(inner) => lemma_remove_unused_keeps_used_stores(*inner, used),
        JsExpr::Obj(fields) => {
            let r = remove_unused(e, used)->Obj_0;
            lemma_valid_targets_props_index(fields);
            assert forall|i: int| 0 <= i < fields.len() implies live_stores(
                #[trigger] fields[i].1,
            ).intersect(used).subset_of(live_stores(r[i].1)) by {
                assert(valid_targets(fields[i].1));
                lemma_remove_unused_keeps_used_stores(fields[i].1, used);
            }
            lemma_live_props_pointwise(fields, r, used);
            assert(live_stores(e).intersect(used).subset_of(live_stores(remove_unused(e, used))));
        },
        JsExpr::Field(lhs, _) => lemma_remove_unused_keeps_used_stores(*lhs, used),
        JsExpr::Call(lhs, rhs) => {
            lemma_remove_unused_keeps_used_stores(*lhs, used);
            lemma_remove_unused_keeps_used_stores(*rhs, used);
            assert(live_stores(e).intersect(used).subset_of(live_stores(remove_unused(e, used))));
        },
        JsExpr::Minus(inner) => lemma_remove_unused_keeps_used_stores(*inner, used),
        JsExpr::BinOp(lhs, rhs, _) => {
            lemma_remove_unused_keeps_used_stores(*lhs, used);
            lemma_remove_unused_keeps_used_stores(*rhs, used);
            assert(live_stores(e).intersect(used).subset_of(live_stores(remove_unused(e, used))));
        },
        JsExpr::Ternary(c, e1, e2) => {
            lemma_remove_unused_keeps_used_stores(*c, used);
            lemma_remove_unused_keeps_used_stores(*e1, used);
            lemma_remove_unused_keeps_used_stores(*e2, used);
            assert(live_stores(e).intersect(used).subset_of(live_stores(remove_unused(e, used))));
        },
        JsExpr::Assignment(lhs, rhs) => {
            if dead_store_target(*lhs, used) {
                lemma_simplify_unused_keeps_used_stores(*rhs, used);
                lemma_live_comma_of(simplify_unused(*rhs, used));
                assert(remove_unused(e, used) == comma_of(simplify_unused(*rhs, used)));
            } else {
                lemma_remove_unused_keeps_used_stores(*lhs, used);
                lemma_remove_unused_keeps_used_stores(*rhs, used);
                match *lhs {
                    JsExpr::ScopeField(s1, s2) => {
                        assert(remove_unused(*lhs, used) == *lhs);
                    },
                    JsExpr::Var(_) => {
                        assert(remove_unused(*lhs, used) == *lhs);
                    },
                    _ => {
                        assert(remove_unused(*lhs, used) is Field);
                    },
                }
            }
            assert(live_stores(e).intersect(used).subset_of(live_stores(remove_unused(e, used))));
        },
        JsExpr::Comma(exprs) => {
            if exprs.len() > 0 {
                lemma_valid_targets_list_index(exprs);
                lemma_valid_targets_list_index(exprs.drop_last());
                assert forall|i: int| 0 <= i < exprs.drop_last().len() implies valid_targets(
                    #[trigger] exprs.drop_last()[i],
                ) by {
                    assert(exprs.drop_last()[i] == exprs[i]);
                }
                assert(valid_targets(exprs[exprs.len() - 1]));
                lemma_simplify_unused_list_keeps_used_stores(exprs.drop_last(), used);
                lemma_remove_unused_keeps_used_stores(exprs.last(), used);
                let s = simplify_unused_list(exprs.drop_last(), used);
                let t = seq![remove_unused(exprs.last(), used)];
                lemma_live_list_single(remove_unused(exprs.last(), used));
                lemma_live_list_concat(s, t);
                assert(s.push(remove_unused(exprs.last(), used)) =~= s + t);
                lemma_live_comma_of(s + t);
                assert(remove_unused(e, used) == comma_of(s + t));
                assert(live_stores(e) == live_stores_list(exprs));
                assert(live_stores_list(exprs) == live_stores_list(exprs.drop_last()) + live_stores(
                    exprs.last(),
                ));
                assert(live_stores(remove_unused(e, used)) == live_stores_list(s) + live_stores(
                    remove_unused(exprs.last(), used),
                ));
            } else {
                assert(remove_unused(e, used) == e);
            }
            assert(live_stores(e).intersect(used).subset_of(live_stores(remove_unused(e, used))));
        },
        JsExpr::Print(exprs) => {
            let r = remove_unused(e, used)->Print_0;
            lemma_valid_targets_list_index(exprs);
            assert forall|i: int| 0 <= i < exprs.len() implies live_stores(#[trigger] exprs[i]).intersect(
                used,
            ).subset_of(live_stores(r[i])) by {
                assert(valid_targets(exprs[i]));
                lemma_remove_unused_keeps_used_stores(exprs[i], used);
            }
            lemma_live_list_pointwise(exprs, r, used);
            assert(live_stores(e).intersect(used).subset_of(live_stores(remove_unused(e, used))));
        },
        _ => {},
    }
}

/// The effectful parts kept from an expression perform every store to a
/// scope field in `used` that the expression performs.
pub proof fn lemma_simplify_unused_keeps_used_stores(e: JsExpr, used: Set<Seq<char>>)
    requires
        valid_targets(e),
    ensures
        live_stores(e).intersect(used).subset_of(live_stores_list(simplify_unused(e, used))),
    decreases e, 1int,
{
    match e {
        JsExpr::Paren(inner) => lemma_simplify_unused_keeps_used_stores(*inner, used),
        JsExpr::Obj(fields) => lemma_simplify_unused_props_keeps_used_stores(fields, used),
        JsExpr::Field(lhs, _) => lemma_simplify_unused_keeps_used_stores(*lhs, used),
        JsExpr::Minus(inner) => lemma_simplify_unused_keeps_used_stores(*inner, used),
        JsExpr::BinOp(lhs, rhs, _) => {
            lemma_simplify_unused_keeps_used_stores(*lhs, used);
            lemma_simplify_unused_keeps_used_stores(*rhs, used);
            lemma_live_list_concat(simplify_unused(*lhs, used), simplify_unused(*rhs, used));
        },
        JsExpr::Comma(exprs) => lemma_simplify_unused_list_keeps_used_stores(exprs, used),
        JsExpr::Call(..) | JsExpr::Ternary(..) | JsExpr::Assignment(..) | JsExpr::Print(..) => {
            lemma_remove_unused_keeps_used_stores(e, used);
            let r = remove_unused(e, used);
            if !(r is Void) {
                lemma_live_list_single(r);
            } else {
                assert(live_stores_list(simplify_unused(e, used)) =~= Set::<Seq<char>>::empty());
            }
        },
        _ => {},
    }
}

/// The effectful parts kept from a list perform every store to a scope
/// field in `used` that the list performs.
pub proof fn lemma_simplify_unused_list_keeps_used_stores(s: Seq<JsExpr>, used: Set<Seq<char>>)
    requires
        valid_targets_list(s),
    ensures
        live_stores_list(s).intersect(used).subset_of(live_stores_list(simplify_unused_list(s, used))),
    decreases s, 1int,
{
    if s.len() > 0 {
        lemma_simplify_unused_list_keeps_used_stores(s.drop_last(), used);
        lemma_simplify_unused_keeps_used_stores(s.last(), used);
        lemma_live_list_concat(
            simplify_unused_list(s.drop_last(), used),
            simplify_unused(s.last(), used),
        );
    }
}

/// The effectful parts kept from the values of an object literal perform
/// every store to a scope field in `used` that the values perform.
pub proof fn lemma_simplify_unused_props_keeps_used_stores(
    s: Seq<(Seq<char>, JsExpr)>,
    used: Set<Seq<char>>,
)
    requires
        valid_targets_props(s),
    ensures
        live_stores_props(s).intersect(used).subset_of(
            live_stores_list(simplify_unused_props(s, used)),
        ),
    decreases s, 1int,
{
    if s.len() > 0 {
        lemma_simplify_unused_props_keeps_used_stores(s.drop_last(), used);
        lemma_simplify_unused_keeps_used_stores(s.last().1, used);
        lemma_live_list_concat(
            simplify_unused_props(s.drop_last(), used),
            simplify_unused(s.last().1, used),
        );
    }
}

/// Whether `e` reads the scope field `k`: `k` occurs in `e` as a scope
/// field anywhere (inside print arguments, call arguments, function bodies
/// and every other place) except as the target of an assignment.
pub open spec fn reads_field(e: JsExpr, k: Seq<char>) -> bool
    decreases e,
{
    match e {
        JsExpr::Paren(inner) => reads_field(*inner, k),
        JsExpr::Obj(fields) => reads_field_props(fields, k),
        JsExpr::Field(lhs, _) => reads_field(*lhs, k),
        JsExpr::ScopeField(s1, s2) => scope_key(s1, s2) == k,
        JsExpr::Call(lhs, rhs) => reads_field(*lhs, k) || reads_field(*rhs, k),
        JsExpr::Minus(inner) => reads_field(*inner, k),
        JsExpr::BinOp(lhs, rhs, _) => reads_field(*lhs, k) || reads_field(*rhs, k),
        JsExpr::Ternary(c, e1, e2) => reads_field(*c, k) || reads_field(*e1, k) || reads_field(*e2, k),
        JsExpr::Assignment(lhs, rhs) => (!(*lhs is ScopeField) && reads_field(*lhs, k)) || reads_field(
            *rhs,
            k,
        ),
        JsExpr::ArrowFunc(_, _, body) => reads_field(*body, k),
        JsExpr::Comma(exprs) => reads_field_list(exprs, k),
        JsExpr::Print(exprs) => reads_field_list(exprs, k),
        _ => false,
    }
}

/// Whether some expression of the list reads `k`.
pub open spec fn reads_field_list(s: Seq<JsExpr>, k: Seq<char>) -> bool
    decreases s,
{
    s.len() > 0 && (reads_field_list(s.drop_last(), k) || reads_field(s.last(), k))
}

/// Whether some property value reads `k`.
pub open spec fn reads_field_props(s: Seq<(Seq<char>, JsExpr)>, k: Seq<char>) -> bool
    decreases s,
{
    s.len() > 0 && (reads_field_props(s.drop_last(), k) || reads_field(s.last().1, k))
}

proof fn lemma_reads_list_used(s: Seq<JsExpr>, k: Seq<char>)
    requires
        reads_field_list(s, k),
    ensures
        used_vars_list(s).contains(k),
    decreases s, 0int,
{
    if reads_field_list(s.drop_last(), k) {
        lemma_reads_list_used(s.drop_last(), k);
    } else {
        lemma_reads_used(s.last(), k);
    }
}

proof fn lemma_reads_props_used(s: Seq<(Seq<char>, JsExpr)>, k: Seq<char>)
    requires
        reads_field_props(s, k),
    ensures
        used_vars_props(s).contains(k),
    decreases s, 0int,
{
    if reads_field_props(s.drop_last(), k) {
        lemma_reads_props_used(s.drop_last(), k);
    } else {
        lemma_reads_used(s.last().1, k);
    }
}

/// Every scope field that an expression reads is among those that
/// `find_used_vars` collects.
pub proof fn lemma_reads_used(e: JsExpr, k: Seq<char>)
    requires
        reads_field(e, k),
    ensures
        used_vars(e).contains(k),
    decreases e, 1int,
{
    match e {
        JsExpr::Paren(inner) => lemma_reads_used(*inner, k),
        JsExpr::Obj(fields) => lemma_reads_props_used(fields, k),
        JsExpr::Field(lhs, _) => lemma_reads_used(*lhs, k),
        JsExpr::Call(lhs, rhs) => {
            if reads_field(*lhs, k) {
                lemma_reads_used(*lhs, k);
            } else {
                lemma_reads_used(*rhs, k);
            }
        },
        JsExpr::Minus(inner) => lemma_reads_used(*inner, k),
        JsExpr::BinOp(lhs, rhs, _) => {
            if reads_field(*lhs, k) {
                lemma_reads_used(*lhs, k);
            } else {
                lemma_reads_used(*rhs, k);
            }
        },
        JsExpr::Ternary(c, e1, e2) => {
            if reads_field(*c, k) {
                lemma_reads_used(*c, k);
            } else if reads_field(*e1, k) {
                lemma_reads_used(*e1, k);
            } else {
                lemma_reads_used(*e2, k);
            }
        },
        JsExpr::Assignment(lhs, rhs) => {
            if !(*lhs is ScopeField) && reads_field(*lhs, k) {
                lemma_reads_used(*lhs, k);
            } else {
                lemma_reads_used(*rhs, k);
            }
        },
        JsExpr::ArrowFunc(_, _, body) => lemma_reads_used(*body, k),
        JsExpr::Comma(exprs) => lemma_reads_list_used(exprs, k),
        JsExpr::Print(exprs) => lemma_reads_list_used(exprs, k),
        _ => {},
    }
}

proof fn lemma_reads_bindings_used(bindings: Seq<Expr>, i: int, k: Seq<char>)
    requires
        0 <= i < bindings.len(),
        reads_field(bindings[i]@, k),
    ensures
        used_vars_of_all(bindings).contains(k),
    decreases bindings.len(),
{
    if i == bindings.len() - 1 {
        lemma_reads_used(bindings[i]@, k);
    } else {
        assert(bindings.drop_last()[i] == bindings[i]);
        lemma_reads_bindings_used(bindings.drop_last(), i, k);
    }
}

/// `optimize` never removes a store that is read: for every scope field that
/// the expression or one of the bindings reads (print arguments and function
/// bodies included), every assignment to it that runs in the expression
/// still runs in the result. (`optimize` leaves `expr` as this
/// `remove_unused` of it.)
pub proof fn lemma_optimize_keeps_read_stores(e: JsExpr, bindings: Seq<Expr>, k: Seq<char>)
    requires
        valid_targets(e),
        reads_field(e, k) || exists|i: int| 0 <= i < bindings.len() && reads_field(#[trigger] bindings[i]@, k),
        live_stores(e).contains(k),
    ensures
        live_stores(remove_unused(e, used_vars(e) + used_vars_of_all(bindings))).contains(k),
{
    let used = used_vars(e) + used_vars_of_all(bindings);
    if reads_field(e, k) {
        lemma_reads_used(e, k);
    } else {
        let i = choose|i: int| 0 <= i < bindings.len() && reads_field(#[trigger] bindings[i]@, k);
        lemma_reads_bindings_used(bindings, i, k);
    }
    assert(used.contains(k));
    lemma_remove_unused_keeps_used_stores(e, used);
    assert(live_stores(e).intersect(used).contains(k));
}

} // verus!
