//! Parameter resolution: a reference to one of the enclosing global's own
//! formal parameters becomes a positional parameter access.

use crate::passes::{
    bodies_rewritten, lacks_reference, lemma_reference_rewrite, lemma_replaced_lacks,
    lemma_table_search, references_replaced, replaces_references, table_index, table_position,
    transform_expression, Rewrite,
};
use crate::sir::{
    arguments_model, duplicate_arguments, DataType, Expr, Expression, GlobalModel, Module, Ty,
};
use vstd::prelude::*;

verus! {

/// Whether `name` is one of the arguments' names.
pub open spec fn is_parameter_name(arguments: Seq<(Seq<char>, Ty)>, name: Seq<char>) -> bool {
    exists|i: int| 0 <= i < arguments.len() && arguments[i].0 == name
}

/// Turns a reference to a formal parameter into a positional access.
pub struct ParamResolver {
    pub arguments: Vec<(String, DataType)>,
}

/// What a reference to `name` resolves to: the first argument of that name,
/// by position, or the reference itself. The position is a `u32`; it wraps in
/// a global of more than `u32::MAX` parameters, which [`crate::compile::compile`] refuses.
pub open spec fn parameter_target(arguments: Seq<(Seq<char>, Ty)>, name: Seq<char>) -> Expr {
    match table_position(arguments, name) {
        Some(i) => Expr::Param { index: i as u32, data_type: arguments[i as int].1 },
        None => Expr::Ref { name },
    }
}

/// `e` with every reference to one of `arguments` resolved to its position.
pub open spec fn parameters_resolved(arguments: Seq<(Seq<char>, Ty)>, e: Expr) -> Expr {
    references_replaced(e, |n: Seq<char>| parameter_target(arguments, n))
}

impl Rewrite for ParamResolver {
    open spec fn rewrite(&self, e: Expr) -> Expr {
        match e {
            Expr::Ref { name } => parameter_target(arguments_model(self.arguments@), name),
            _ => e,
        }
    }

    fn apply(&self, expression: &mut Expression) {
        let replacement = match &*expression {
            Expression::Reference { name } => match table_index(&self.arguments, name) {
                Some(i) => {
                    assert(arguments_model(self.arguments@)[i as int] == (
                        self.arguments@[i as int].0@,
                        self.arguments@[i as int].1@,
                    ));
                    let index: u32 = #[verifier::truncate] (i as u32);
                    Some(Expression::FunctionParam { index, data_type: self.arguments[i].1.duplicate() })
                },
                None => None,
            },
            _ => None,
        };
        match replacement {
            Some(r) => {
                *expression = r;
            },
            None => {},
        }
    }
}

/// After parameter resolution no reference to a formal parameter remains.
pub proof fn resolution_leaves_no_parameter_reference(arguments: Seq<(Seq<char>, Ty)>, e: Expr)
    ensures
        lacks_reference(
            parameters_resolved(arguments, e),
            |n: Seq<char>| is_parameter_name(arguments, n),
        ),
{
    let p = |n: Seq<char>| is_parameter_name(arguments, n);
    let g = |n: Seq<char>| parameter_target(arguments, n);
    assert forall|n: Seq<char>| lacks_reference(#[trigger] g(n), p) by {
        lemma_table_search(arguments, n, 0);
    }
    lemma_replaced_lacks(e, g, p);
}

/// Resolves, in every global, the references to its own formal parameters.
pub fn build_function_params(module: &mut Module)
    ensures
        bodies_rewritten(
            old(module)@,
            final(module)@,
            |a: Seq<(Seq<char>, Ty)>, e: Expr| parameters_resolved(a, e),
        ),
        forall|i: int|
            0 <= i < final(module)@.len() ==> lacks_reference(
                #[trigger] final(module)@[i].1.body,
                |n: Seq<char>| is_parameter_name(final(module)@[i].1.arguments, n),
            ),
{
    let ghost initial = module@;
    let mut i: usize = 0;
    while i < module.globals.len()
        invariant
            i <= module.globals.len(),
            initial == old(module)@,
            module@.len() == initial.len(),
            forall|j: int| i <= j < initial.len() ==> #[trigger] module@[j] == initial[j],
            forall|j: int|
                0 <= j < i ==> {
                    &&& #[trigger] module@[j].0 == initial[j].0
                    &&& module@[j].1.arguments == initial[j].1.arguments
                    &&& module@[j].1.return_type == initial[j].1.return_type
                    &&& module@[j].1.body == parameters_resolved(
                        initial[j].1.arguments,
                        initial[j].1.body,
                    )
                },
        decreases module.globals.len() - i,
    {
        let ghost before = module@;
        assert(before[i as int] == initial[i as int]);
        let resolver = ParamResolver { arguments: duplicate_arguments(&module.globals[i].1.arguments) };
        transform_expression(&mut module.globals[i].1.body, &resolver);
        proof {
            let g = initial[i as int].1;
            let target = |n: Seq<char>| parameter_target(g.arguments, n);
            assert(replaces_references(resolver, target));
            lemma_reference_rewrite(resolver, target, g.body);
            let after = before.update(
                i as int,
                (
                    initial[i as int].0,
                    GlobalModel {
                        arguments: g.arguments,
                        return_type: g.return_type,
                        body: parameters_resolved(g.arguments, g.body),
                    },
                ),
            );
            assert(module@ =~= after);
            assert forall|j: int| 0 <= j < i + 1 implies {
                &&& #[trigger] module@[j].0 == initial[j].0
                &&& module@[j].1.arguments == initial[j].1.arguments
                &&& module@[j].1.return_type == initial[j].1.return_type
                &&& module@[j].1.body == parameters_resolved(
                    initial[j].1.arguments,
                    initial[j].1.body,
                )
            } by {
                assert(module@[j] == after[j]);
                if j < i {
                    assert(after[j] == before[j]);
                    assert(before[j].0 == initial[j].0);
                }
            }
        }
        i = i + 1;
    }
    proof {
        assert forall|i: int| 0 <= i < module@.len() implies lacks_reference(
            #[trigger] module@[i].1.body,
            |n: Seq<char>| is_parameter_name(module@[i].1.arguments, n),
        ) by {
            assert(module@[i].0 == initial[i].0);
            resolution_leaves_no_parameter_reference(initial[i].1.arguments, initial[i].1.body);
        }
    }
}

} // verus!
