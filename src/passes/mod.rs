//! Whole-tree rewrites of a module, and the passes built on them.

pub mod build_function_params;
pub mod build_global_references;
pub mod remove_scopes;

use crate::sir::{
    arguments_model, exprs_model, lemma_exprs_model, DataType, Expr, Expression, GlobalModel, Module,
    Ty,
};
use vstd::prelude::*;

verus! {

/// A rewrite of one node, applied bottom-up by [`transform_expression`].
pub trait Rewrite {
    /// What the rewrite makes of a node whose children are already rewritten.
    spec fn rewrite(&self, e: Expr) -> Expr;

    fn apply(&self, expression: &mut Expression)
        ensures
            final(expression)@ == self.rewrite(old(expression)@),
    ;
}

/// `e` with the rewrite applied to every node, children before their parent.
pub open spec fn transformed<R: Rewrite>(f: R, e: Expr) -> Expr
    decreases e, 0nat,
{
    let inner = match e {
        Expr::Binary { operation, left, right } => Expr::Binary {
            operation,
            left: Box::new(transformed(f, *left)),
            right: Box::new(transformed(f, *right)),
        },
        Expr::Call { function, arguments } => Expr::Call {
            function: Box::new(transformed(f, *function)),
            arguments: transformed_all(f, arguments),
        },
        Expr::Member { left, member } => Expr::Member {
            left: Box::new(transformed(f, *left)),
            member,
        },
        Expr::Scope { name, value, body } => Expr::Scope {
            name,
            value: Box::new(transformed(f, *value)),
            body: Box::new(transformed(f, *body)),
        },
        Expr::Tuple { values } => Expr::Tuple { values: transformed_all(f, values) },
        _ => e,
    };
    f.rewrite(inner)
}

/// Each of `s` transformed.
pub open spec fn transformed_all<R: Rewrite>(f: R, s: Seq<Expr>) -> Seq<Expr>
    decreases s, 1nat,
{
    if s.len() == 0 {
        Seq::empty()
    } else {
        transformed_all(f, s.drop_last()).push(transformed(f, s.last()))
    }
}

/// The position of the first entry of `table` called `name`, searching from `i`.
pub open spec fn table_search(table: Seq<(Seq<char>, Ty)>, name: Seq<char>, i: nat) -> Option<nat>
    decreases table.len() - i,
{
    if i >= table.len() {
        None
    } else if table[i as int].0 == name {
        Some(i)
    } else {
        table_search(table, name, i + 1)
    }
}

/// The position of the first entry of `table` called `name`.
pub open spec fn table_position(table: Seq<(Seq<char>, Ty)>, name: Seq<char>) -> Option<nat> {
    table_search(table, name, 0)
}

pub proof fn lemma_table_search(table: Seq<(Seq<char>, Ty)>, name: Seq<char>, i: nat)
    ensures
        table_search(table, name, i) matches Some(k) ==> i <= k < table.len() && table[k as int].0
            == name,
        table_search(table, name, i) is None ==> forall|j: int|
            i <= j < table.len() ==> table[j].0 != name,
    decreases table.len() - i,
{
    if i < table.len() {
        lemma_table_search(table, name, i + 1);
    }
}

/// The position of the first entry of `table` called `name`.
pub fn table_index(table: &Vec<(String, DataType)>, name: &String) -> (r: Option<usize>)
    ensures
        r matches Some(i) ==> i < table@.len() && table_position(arguments_model(table@), name@)
            == Some(i as nat),
        r is None ==> table_position(arguments_model(table@), name@) is None,
{
    let ghost model = arguments_model(table@);
    proof {
        lemma_table_search(model, name@, 0);
    }
    let mut i: usize = 0;
    while i < table.len()
        invariant
            i <= table.len(),
            model == arguments_model(table@),
            table_position(model, name@) == table_search(model, name@, i as nat),
        decreases table.len() - i,
    {
        assert(model[i as int].0 == table@[i as int].0@);
        if table[i].0 == *name {
            return Some(i);
        }
        i = i + 1;
    }
    None
}

/// `e` with every reference node, `Ref { name }`, replaced by `g(name)`.
pub open spec fn references_replaced(e: Expr, g: spec_fn(Seq<char>) -> Expr) -> Expr
    decreases e, 0nat,
{
    match e {
        Expr::Binary { operation, left, right } => Expr::Binary {
            operation,
            left: Box::new(references_replaced(*left, g)),
            right: Box::new(references_replaced(*right, g)),
        },
        Expr::Call { function, arguments } => Expr::Call {
            function: Box::new(references_replaced(*function, g)),
            arguments: references_replaced_all(arguments, g),
        },
        Expr::Member { left, member } => Expr::Member {
            left: Box::new(references_replaced(*left, g)),
            member,
        },
        Expr::Ref { name } => g(name),
        Expr::Scope { name, value, body } => Expr::Scope {
            name,
            value: Box::new(references_replaced(*value, g)),
            body: Box::new(references_replaced(*body, g)),
        },
        Expr::Tuple { values } => Expr::Tuple { values: references_replaced_all(values, g) },
        _ => e,
    }
}

/// Each of `s` with its references replaced.
pub open spec fn references_replaced_all(s: Seq<Expr>, g: spec_fn(Seq<char>) -> Expr) -> Seq<Expr>
    decreases s, 1nat,
{
    if s.len() == 0 {
        Seq::empty()
    } else {
        references_replaced_all(s.drop_last(), g).push(references_replaced(s.last(), g))
    }
}

/// Whether the rewrite `f` changes reference nodes only, each `Ref { name }` into `g(name)`.
pub open spec fn replaces_references<R: Rewrite>(f: R, g: spec_fn(Seq<char>) -> Expr) -> bool {
    forall|x: Expr|
        #[trigger] f.rewrite(x) == match x {
            Expr::Ref { name } => g(name),
            _ => x,
        }
}

/// Whether no reference node whose name satisfies `p` occurs in `e`.
pub open spec fn lacks_reference(e: Expr, p: spec_fn(Seq<char>) -> bool) -> bool
    decreases e,
{
    match e {
        Expr::Binary { left, right, .. } => lacks_reference(*left, p) && lacks_reference(*right, p),
        Expr::Call { function, arguments } => lacks_reference(*function, p) && forall|i: int|
            0 <= i < arguments.len() ==> lacks_reference(#[trigger] arguments[i], p),
        Expr::Member { left, .. } => lacks_reference(*left, p),
        Expr::Ref { name } => !p(name),
        Expr::Scope { value, body, .. } => lacks_reference(*value, p) && lacks_reference(*body, p),
        Expr::Tuple { values } => forall|i: int|
            0 <= i < values.len() ==> lacks_reference(#[trigger] values[i], p),
        _ => true,
    }
}

/// A rewrite of reference nodes alone, applied bottom-up, replaces each reference.
pub proof fn lemma_reference_rewrite<R: Rewrite>(f: R, g: spec_fn(Seq<char>) -> Expr, e: Expr)
    requires
        replaces_references(f, g),
    ensures
        transformed(f, e) == references_replaced(e, g),
    decreases e, 0nat,
{
    match e {
        Expr::Binary { left, right, .. } => {
            lemma_reference_rewrite(f, g, *left);
            lemma_reference_rewrite(f, g, *right);
        },
        Expr::Call { function, arguments } => {
            lemma_reference_rewrite(f, g, *function);
            lemma_reference_rewrite_all(f, g, arguments);
        },
        Expr::Member { left, .. } => {
            lemma_reference_rewrite(f, g, *left);
        },
        Expr::Scope { value, body, .. } => {
            lemma_reference_rewrite(f, g, *value);
            lemma_reference_rewrite(f, g, *body);
        },
        Expr::Tuple { values } => {
            lemma_reference_rewrite_all(f, g, values);
        },
        _ => {},
    }
    let inner = match e {
        Expr::Binary { operation, left, right } => Expr::Binary {
            operation,
            left: Box::new(transformed(f, *left)),
            right: Box::new(transformed(f, *right)),
        },
        Expr::Call { function, arguments } => Expr::Call {
            function: Box::new(transformed(f, *function)),
            arguments: transformed_all(f, arguments),
        },
        Expr::Member { left, member } => Expr::Member {
            left: Box::new(transformed(f, *left)),
            member,
        },
        Expr::Scope { name, value, body } => Expr::Scope {
            name,
            value: Box::new(transformed(f, *value)),
            body: Box::new(transformed(f, *body)),
        },
        Expr::Tuple { values } => Expr::Tuple { values: transformed_all(f, values) },
        _ => e,
    };
    assert(transformed(f, e) == f.rewrite(inner));
}

proof fn lemma_reference_rewrite_all<R: Rewrite>(
    f: R,
    g: spec_fn(Seq<char>) -> Expr,
    s: Seq<Expr>,
)
    requires
        replaces_references(f, g),
    ensures
        transformed_all(f, s) == references_replaced_all(s, g),
    decreases s, 1nat,
{
    if s.len() > 0 {
        lemma_reference_rewrite_all(f, g, s.drop_last());
        lemma_reference_rewrite(f, g, s.last());
    }
}

/// Replacing each reference by an expression free of `p`-references leaves
/// none anywhere.
pub proof fn lemma_replaced_lacks(
    e: Expr,
    g: spec_fn(Seq<char>) -> Expr,
    p: spec_fn(Seq<char>) -> bool,
)
    requires
        forall|n: Seq<char>| lacks_reference(#[trigger] g(n), p),
    ensures
        lacks_reference(references_replaced(e, g), p),
    decreases e, 0nat,
{
    match e {
        Expr::Binary { left, right, .. } => {
            lemma_replaced_lacks(*left, g, p);
            lemma_replaced_lacks(*right, g, p);
        },
        Expr::Call { function, arguments } => {
            lemma_replaced_lacks(*function, g, p);
            lemma_replaced_lacks_all(arguments, g, p);
        },
        Expr::Member { left, .. } => {
            lemma_replaced_lacks(*left, g, p);
        },
        Expr::Ref { name } => {
            assert(lacks_reference(g(name), p));
        },
        Expr::Scope { value, body, .. } => {
            lemma_replaced_lacks(*value, g, p);
            lemma_replaced_lacks(*body, g, p);
        },
        Expr::Tuple { values } => {
            lemma_replaced_lacks_all(values, g, p);
        },
        _ => {},
    }
}

proof fn lemma_replaced_lacks_all(
    s: Seq<Expr>,
    g: spec_fn(Seq<char>) -> Expr,
    p: spec_fn(Seq<char>) -> bool,
)
    requires
        forall|n: Seq<char>| lacks_reference(#[trigger] g(n), p),
    ensures
        references_replaced_all(s, g).len() == s.len(),
        forall|i: int|
            0 <= i < s.len() ==> lacks_reference(#[trigger] references_replaced_all(s, g)[i], p),
    decreases s, 1nat,
{
    if s.len() > 0 {
        lemma_replaced_lacks_all(s.drop_last(), g, p);
        lemma_replaced_lacks(s.last(), g, p);
    }
}

/// `after` is `before` with the body of each global replaced by `body(before's body)`;
/// names, arguments and return types are kept.
pub open spec fn bodies_rewritten(
    before: Seq<(Seq<char>, GlobalModel)>,
    after: Seq<(Seq<char>, GlobalModel)>,
    body: spec_fn(Seq<(Seq<char>, Ty)>, Expr) -> Expr,
) -> bool {
    &&& after.len() == before.len()
    &&& forall|i: int|
        0 <= i < before.len() ==> {
            &&& #[trigger] after[i].0 == before[i].0
            &&& after[i].1.arguments == before[i].1.arguments
            &&& after[i].1.return_type == before[i].1.return_type
            &&& after[i].1.body == body(before[i].1.arguments, before[i].1.body)
        }
}

/// Rewrites the body of every global of `module` with [`transform_expression`].
pub fn transform_module<R: Rewrite>(module: &mut Module, f: &R)
    ensures
        bodies_rewritten(old(module)@, final(module)@, |a: Seq<(Seq<char>, Ty)>, e: Expr| transformed(*f, e)),
{
    let ghost initial = module@;
    let mut i: usize = 0;
    while i < module.globals.len()
        invariant
            i <= module.globals.len(),
            initial == old(module)@,
            module@.len() == initial.len(),
            forall|j: int| i <= j < initial.len() ==> #[trigger] module@[j] == initial[j],
            forall|j: int|
                0 <= j < i ==> {
                    &&& #[trigger] module@[j].0 == initial[j].0
                    &&& module@[j].1.arguments == initial[j].1.arguments
                    &&& module@[j].1.return_type == initial[j].1.return_type
                    &&& module@[j].1.body == transformed(*f, initial[j].1.body)
                },
        decreases module.globals.len() - i,
    {
        let ghost before = module@;
        assert(before[i as int] == initial[i as int]);
        transform_expression(&mut module.globals[i].1.body, f);
        proof {
            let g = initial[i as int].1;
            let after = before.update(
                i as int,
                (
                    initial[i as int].0,
                    GlobalModel {
                        arguments: g.arguments,
                        return_type: g.return_type,
                        body: transformed(*f, g.body),
                    },
                ),
            );
            assert(module@ =~= after);
            assert forall|j: int| 0 <= j < i + 1 implies {
                &&& #[trigger] module@[j].0 == initial[j].0
                &&& module@[j].1.arguments == initial[j].1.arguments
                &&& module@[j].1.return_type == initial[j].1.return_type
                &&& module@[j].1.body == transformed(*f, initial[j].1.body)
            } by {
                assert(module@[j] == after[j]);
                if j < i {
                    assert(after[j] == before[j]);
                    assert(before[j].0 == initial[j].0);
                }
            }
        }
        i = i + 1;
    }
    assert(bodies_rewritten(initial, module@, |a: Seq<(Seq<char>, Ty)>, e: Expr| transformed(*f, e)));
}

/// Rewrites `expression` bottom-up: each node's children first, then the node.
pub fn transform_expression<R: Rewrite>(expression: &mut Expression, f: &R)
    ensures
        final(expression)@ == transformed(*f, old(expression)@),
    decreases *old(expression),
{
    match expression {
        Expression::BinaryOperation { left, right, .. } => {
            transform_expression(&mut **left, f);
            transform_expression(&mut **right, f);
        },
        Expression::Call { function, arguments } => {
            transform_expression(&mut **function, f);
            transform_all(arguments, f);
        },
        Expression::MemberAccess { left, .. } => {
            transform_expression(&mut **left, f);
        },
        Expression::Scope { value, body, .. } => {
            transform_expression(&mut **value, f);
            transform_expression(&mut **body, f);
        },
        Expression::Tuple { values } => {
            transform_all(values, f);
        },
        _ => {},
    }
    f.apply(expression);
}

/// Rewrites each of `values` bottom-up.
fn transform_all<R: Rewrite>(values: &mut Vec<Expression>, f: &R)
    ensures
        exprs_model(final(values)@) == transformed_all(*f, exprs_model(old(values)@)),
    decreases *old(values),
{
    let ghost start = *values;
    let ghost initial = values@;
    let mut i: usize = 0;
    while i < values.len()
        invariant
            i <= values.len(),
            values@.len() == initial.len(),
            start@ == initial,
            start == *old(values),
            forall|j: int| i <= j < initial.len() ==> #[trigger] values@[j] == initial[j],
            forall|j: int| 0 <= j < i ==> #[trigger] values@[j]@ == transformed(*f, initial[j]@),
        decreases values.len() - i,
    {
        assert(decreases_to!(start => start@[i as int]));
        transform_expression(&mut values[i], f);
        i = i + 1;
    }
    proof {
        lemma_transformed_all(*f, initial, values@);
    }
}

proof fn lemma_transformed_all<R: Rewrite>(f: R, before: Seq<Expression>, after: Seq<Expression>)
    requires
        before.len() == after.len(),
        forall|j: int| 0 <= j < before.len() ==> #[trigger] after[j]@ == transformed(f, before[j]@),
    ensures
        exprs_model(after) == transformed_all(f, exprs_model(before)),
    decreases before.len(),
{
    if before.len() > 0 {
        let (b, a) = (before.drop_last(), after.drop_last());
        assert forall|j: int| 0 <= j < b.len() implies #[trigger] a[j]@ == transformed(f, b[j]@) by {
            assert(a[j] == after[j] && b[j] == before[j]);
        }
        lemma_transformed_all(f, b, a);
        let m = exprs_model(before);
        assert(m.drop_last() == exprs_model(b));
        assert(m.last() == before.last()@);
        assert(after.last()@ == transformed(f, before.last()@));
        assert(transformed_all(f, m) == transformed_all(f, m.drop_last()).push(transformed(f, m.last())));
    }
}

} // verus!
