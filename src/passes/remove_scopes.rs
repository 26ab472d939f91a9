//! Scope elimination: each let-binding is replaced by its body, in which every
//! reference to the bound name has become a copy of the bound value.
//!
//! The substitution is textual: it does not rename, so a free name of the value
//! that a deeper binding of the body also binds is captured, and the value is
//! copied at every use.

use crate::passes::{bodies_rewritten, transform_expression, transform_module, transformed, transformed_all, Rewrite};
use crate::sir::{Expr, Expression, Module, Ty};
use vstd::prelude::*;

verus! {

/// `e` with every reference to `name` replaced by `value`.
pub open spec fn substituted(name: Seq<char>, value: Expr, e: Expr) -> Expr
    decreases e, 0nat,
{
    match e {
        Expr::Binary { operation, left, right } => Expr::Binary {
            operation,
            left: Box::new(substituted(name, value, *left)),
            right: Box::new(substituted(name, value, *right)),
        },
        Expr::Call { function, arguments } => Expr::Call {
            function: Box::new(substituted(name, value, *function)),
            arguments: substituted_all(name, value, arguments),
        },
        Expr::Member { left, member } => Expr::Member {
            left: Box::new(substituted(name, value, *left)),
            member,
        },
        Expr::Ref { name: n } => if n == name {
            value
        } else {
            e
        },
        Expr::Scope { name: n, value: v, body } => Expr::Scope {
            name: n,
            value: Box::new(substituted(name, value, *v)),
            body: Box::new(substituted(name, value, *body)),
        },
        Expr::Tuple { values } => Expr::Tuple { values: substituted_all(name, value, values) },
        _ => e,
    }
}

/// Each of `s` with the substitution made.
pub open spec fn substituted_all(name: Seq<char>, value: Expr, s: Seq<Expr>) -> Seq<Expr>
    decreases s, 1nat,
{
    if s.len() == 0 {
        Seq::empty()
    } else {
        substituted_all(name, value, s.drop_last()).push(substituted(name, value, s.last()))
    }
}

/// Whether no let-binding occurs anywhere in `e`.
pub open spec fn scope_free(e: Expr) -> bool
    decreases e,
{
    match e {
        Expr::Binary { left, right, .. } => scope_free(*left) && scope_free(*right),
        Expr::Call { function, arguments } => scope_free(*function) && forall|i: int|
            0 <= i < arguments.len() ==> scope_free(#[trigger] arguments[i]),
        Expr::Member { left, .. } => scope_free(*left),
        Expr::Scope { .. } => false,
        Expr::Tuple { values } => forall|i: int|
            0 <= i < values.len() ==> scope_free(#[trigger] values[i]),
        _ => true,
    }
}

/// Replaces a reference by the bound value.
pub struct Substitution {
    pub name: String,
    pub value: Expression,
}

impl Rewrite for Substitution {
    open spec fn rewrite(&self, e: Expr) -> Expr {
        match e {
            Expr::Ref { name } => if name == self.name@ {
                self.value@
            } else {
                e
            },
            _ => e,
        }
    }

    fn apply(&self, expression: &mut Expression) {
        let hit = match expression {
            Expression::Reference { name } => *name == self.name,
            _ => false,
        };
        if hit {
            *expression = self.value.duplicate();
        }
    }
}

/// Replaces a let-binding by its body, the bound name substituted.
pub struct ScopeRemover;

impl Rewrite for ScopeRemover {
    open spec fn rewrite(&self, e: Expr) -> Expr {
        match e {
            Expr::Scope { name, value, body } => substituted(name, *value, *body),
            _ => e,
        }
    }

    fn apply(&self, expression: &mut Expression) {
        let mut result = Expression::I64Literal(0);
        let is_scope = match expression {
            Expression::Scope { name, value, body } => {
                remove_scope(name.as_str(), &**value, &mut **body);
                std::mem::swap(&mut result, &mut **body);
                true
            },
            _ => false,
        };
        if is_scope {
            *expression = result;
        }
    }
}

/// `e` with every let-binding removed, innermost first.
pub open spec fn scopes_removed(e: Expr) -> Expr {
    transformed(ScopeRemover, e)
}

/// Removes every let-binding from every global of `module`.
pub fn remove_scopes(module: &mut Module)
    ensures
        bodies_rewritten(old(module)@, final(module)@, |a: Seq<(Seq<char>, Ty)>, e: Expr| scopes_removed(e)),
        forall|i: int| 0 <= i < final(module)@.len() ==> scope_free(#[trigger] final(module)@[i].1.body),
{
    transform_module(module, &ScopeRemover);
    proof {
        assert forall|i: int| 0 <= i < module@.len() implies scope_free(#[trigger] module@[i].1.body) by {
            assert(module@[i].0 == old(module)@[i].0);
            removal_leaves_no_scope(old(module)@[i].1.body);
        }
    }
}

/// Substitutes `value` for every reference to `name` in `body`.
fn remove_scope(name: &str, value: &Expression, body: &mut Expression)
    ensures
        final(body)@ == substituted(name@, value@, old(body)@),
{
    let substitution = Substitution { name: name.to_owned(), value: value.duplicate() };
    transform_expression(body, &substitution);
    proof {
        lemma_substitution(substitution, old(body)@);
    }
}

proof fn lemma_substitution(s: Substitution, e: Expr)
    ensures
        transformed(s, e) == substituted(s.name@, s.value@, e),
    decreases e, 0nat,
{
    match e {
        Expr::Binary { left, right, .. } => {
            lemma_substitution(s, *left);
            lemma_substitution(s, *right);
        },
        Expr::Call { function, arguments } => {
            lemma_substitution(s, *function);
            lemma_substitution_all(s, arguments);
        },
        Expr::Member { left, .. } => {
            lemma_substitution(s, *left);
        },
        Expr::Scope { value, body, .. } => {
            lemma_substitution(s, *value);
            lemma_substitution(s, *body);
        },
        Expr::Tuple { values } => {
            lemma_substitution_all(s, values);
        },
        _ => {},
    }
}

proof fn lemma_substitution_all(s: Substitution, v: Seq<Expr>)
    ensures
        transformed_all(s, v) == substituted_all(s.name@, s.value@, v),
    decreases v, 1nat,
{
    if v.len() > 0 {
        lemma_substitution_all(s, v.drop_last());
        lemma_substitution(s, v.last());
    }
}

/// Substituting a binding-free value into a binding-free expression leaves
/// it binding-free.
proof fn substitution_keeps_scope_free(name: Seq<char>, value: Expr, e: Expr)
    requires
        scope_free(value),
        scope_free(e),
    ensures
        scope_free(substituted(name, value, e)),
    decreases e, 0nat,
{
    match e {
        Expr::Binary { left, right, .. } => {
            substitution_keeps_scope_free(name, value, *left);
            substitution_keeps_scope_free(name, value, *right);
        },
        Expr::Call { function, arguments } => {
            substitution_keeps_scope_free(name, value, *function);
            substitution_keeps_scope_free_all(name, value, arguments);
        },
        Expr::Member { left, .. } => {
            substitution_keeps_scope_free(name, value, *left);
        },
        Expr::Tuple { values } => {
            substitution_keeps_scope_free_all(name, value, values);
        },
        _ => {},
    }
}

proof fn substitution_keeps_scope_free_all(name: Seq<char>, value: Expr, s: Seq<Expr>)
    requires
        scope_free(value),
        forall|i: int| 0 <= i < s.len() ==> scope_free(#[trigger] s[i]),
    ensures
        substituted_all(name, value, s).len() == s.len(),
        forall|i: int|
            0 <= i < s.len() ==> scope_free(#[trigger] substituted_all(name, value, s)[i]),
    decreases s, 1nat,
{
    if s.len() > 0 {
        let p = s.drop_last();
        assert forall|i: int| 0 <= i < p.len() implies scope_free(#[trigger] p[i]) by {
            assert(p[i] == s[i]);
        }
        substitution_keeps_scope_free_all(name, value, p);
        substitution_keeps_scope_free(name, value, s.last());
    }
}

/// Scope elimination leaves no let-binding anywhere in an expression.
pub proof fn removal_leaves_no_scope(e: Expr)
    ensures
        scope_free(scopes_removed(e)),
    decreases e, 0nat,
{
    match e {
        Expr::Binary { left, right, .. } => {
            removal_leaves_no_scope(*left);
            removal_leaves_no_scope(*right);
        },
        Expr::Call { function, arguments } => {
            removal_leaves_no_scope(*function);
            removal_leaves_no_scope_all(arguments);
        },
        Expr::Member { left, .. } => {
            removal_leaves_no_scope(*left);
        },
        Expr::Scope { value, body, name } => {
            removal_leaves_no_scope(*value);
            removal_leaves_no_scope(*body);
            substitution_keeps_scope_free(name, scopes_removed(*value), scopes_removed(*body));
        },
        Expr::Tuple { values } => {
            removal_leaves_no_scope_all(values);
        },
        _ => {},
    }
}

proof fn removal_leaves_no_scope_all(s: Seq<Expr>)
    ensures
        transformed_all(ScopeRemover, s).len() == s.len(),
        forall|i: int|
            0 <= i < s.len() ==> scope_free(#[trigger] transformed_all(ScopeRemover, s)[i]),
    decreases s, 1nat,
{
    if s.len() > 0 {
        removal_leaves_no_scope_all(s.drop_last());
        removal_leaves_no_scope(s.last());
    }
}

} // verus!
