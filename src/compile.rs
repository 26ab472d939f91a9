//! The whole pipeline: scope elimination, parameter resolution, global-reference
//! resolution, then code generation.

use crate::generator::{generate, lowerable, lowers, LoweringError};
use crate::passes::build_function_params::{build_function_params, parameters_resolved};
use crate::passes::build_global_references::{
    build_global_references, fully_resolved, global_table, globals_resolved, refers_to, UnresolvedName,
};
use crate::passes::remove_scopes::{remove_scopes, scopes_removed};
use crate::passes::bodies_rewritten;
use crate::sir::{Expr, GlobalModel, Module, Ty};
use crate::target::TargetModule;
use vstd::prelude::*;

verus! {

/// Why a module could not be compiled.
#[derive(Debug)]
pub enum CompileError {
    /// Two globals have this name.
    DuplicateGlobal { name: String },
    /// The global has more parameters than a parameter index can count.
    TooManyParameters { global: String },
    Unresolved(UnresolvedName),
    Lowering(LoweringError),
}

/// Whether the names of `module` are unique.
fn names_are_unique(module: &Module) -> (r: Option<String>)
    ensures
        r is None <==> module.names_unique(),
        r matches Some(n) ==> exists|i: int, j: int|
            0 <= i < j < module@.len() && module@[i].0 == n@ && module@[j].0 == n@,
{
    let n = module.globals.len();
    let mut j: usize = 0;
    while j < n
        invariant
            n == module.globals@.len(),
            n == module@.len(),
            j <= n,
            forall|a: int, b: int| 0 <= a < b < j ==> #[trigger] module@[a].0 != #[trigger] module@[b].0,
        decreases n - j,
    {
        let mut i: usize = 0;
        while i < j
            invariant
                n == module.globals@.len(),
                n == module@.len(),
                i <= j < n,
                forall|a: int, b: int| 0 <= a < b < j ==> #[trigger] module@[a].0 != #[trigger] module@[b].0,
                forall|a: int| 0 <= a < i ==> #[trigger] module@[a].0 != module@[j as int].0,
            decreases j - i,
        {
            assert(module@[i as int].0 == module.globals@[i as int].0@);
            assert(module@[j as int].0 == module.globals@[j as int].0@);
            if module.globals[i].0 == module.globals[j].0 {
                return Some(module.globals[j].0.clone());
            }
            i = i + 1;
        }
        j = j + 1;
    }
    None
}

/// The first global with more parameters than a `u32` index can count.
fn oversized_global(module: &Module) -> (r: Option<String>)
    ensures
        r is None <==> forall|i: int| 0 <= i < module@.len() ==> #[trigger] module@[i].1.arguments.len() <= u32::MAX,
        r matches Some(n) ==> exists|i: int|
            0 <= i < module@.len() && module@[i].0 == n@ && module@[i].1.arguments.len() > u32::MAX,
{
    let mut i: usize = 0;
    while i < module.globals.len()
        invariant
            i <= module.globals@.len(),
            module.globals@.len() == module@.len(),
            forall|j: int| 0 <= j < i ==> #[trigger] module@[j].1.arguments.len() <= u32::MAX,
        decreases module.globals.len() - i,
    {
        assert(module@[i as int].1.arguments.len() == module.globals@[i as int].1.arguments@.len());
        if module.globals[i].1.arguments.len() > u32::MAX as usize {
            return Some(module.globals[i].0.clone());
        }
        i = i + 1;
    }
    None
}

/// Two modules with the same names, arguments and return types, in order.
pub open spec fn same_shape(a: Seq<(Seq<char>, GlobalModel)>, b: Seq<(Seq<char>, GlobalModel)>) -> bool {
    &&& a.len() == b.len()
    &&& forall|i: int|
        0 <= i < a.len() ==> #[trigger] a[i].0 == b[i].0 && a[i].1.arguments == b[i].1.arguments
            && a[i].1.return_type == b[i].1.return_type
}

proof fn lemma_rewrite_keeps_shape(a: Seq<(Seq<char>, GlobalModel)>, b: Seq<(Seq<char>, GlobalModel)>)
    requires
        exists|f: spec_fn(Seq<(Seq<char>, Ty)>, Expr) -> Expr| bodies_rewritten(a, b, f),
    ensures
        same_shape(a, b),
{
    let f = choose|f: spec_fn(Seq<(Seq<char>, Ty)>, Expr) -> Expr| bodies_rewritten(a, b, f);
    assert forall|i: int| 0 <= i < a.len() implies #[trigger] a[i].0 == b[i].0 && a[i].1.arguments
        == b[i].1.arguments && a[i].1.return_type == b[i].1.return_type by {
        assert(b[i].0 == a[i].0);
    }
}

/// Whether every global has at most `u32::MAX` parameters, so that each
/// parameter position fits a parameter index.
pub open spec fn parameters_fit(m: Seq<(Seq<char>, GlobalModel)>) -> bool {
    forall|i: int| 0 <= i < m.len() ==> #[trigger] m[i].1.arguments.len() <= u32::MAX
}

/// What the three passes make of the body `e` of a global with arguments
/// `a`, in a module whose globals are seen as `table`.
pub open spec fn passes_applied(table: Seq<(Seq<char>, Ty)>, a: Seq<(Seq<char>, Ty)>, e: Expr) -> Expr {
    globals_resolved(table, parameters_resolved(a, scopes_removed(e)))
}

/// Whether no unresolved name is left in any global of `m`.
pub open spec fn all_resolved(m: Seq<(Seq<char>, GlobalModel)>) -> bool {
    forall|i: int| 0 <= i < m.len() ==> fully_resolved(#[trigger] m[i].1.body)
}

/// Whether every global of `m` can be lowered.
pub open spec fn all_lowerable(m: Seq<(Seq<char>, GlobalModel)>) -> bool {
    forall|i: int| 0 <= i < m.len() ==> lowerable(#[trigger] m[i].1)
}

proof fn lemma_same_shape_same_table(a: Seq<(Seq<char>, GlobalModel)>, b: Seq<(Seq<char>, GlobalModel)>)
    requires
        same_shape(a, b),
    ensures
        global_table(a) == global_table(b),
{
    assert forall|i: int| 0 <= i < a.len() implies global_table(a)[i] == global_table(b)[i] by {
        assert(a[i].0 == b[i].0);
    }
    assert(global_table(a) =~= global_table(b));
}

/// Runs the three passes over `module` and lowers the result.
///
/// Names must be unique and each global must have at most `u32::MAX`
/// parameters; otherwise the module is left as it was. Then every body is
/// rewritten by the three passes in turn, and the result is lowered if no
/// unresolved name is left and every global can be lowered.
pub fn compile(module: &mut Module) -> (r: Result<TargetModule, CompileError>)
    ensures
        old(module).names_unique() && parameters_fit(old(module)@) ==> bodies_rewritten(
            old(module)@,
            final(module)@,
            |a: Seq<(Seq<char>, Ty)>, e: Expr| passes_applied(global_table(old(module)@), a, e),
        ),
        !(old(module).names_unique() && parameters_fit(old(module)@)) ==> final(module)@ == old(
            module,
        )@,
        r is Ok <==> old(module).names_unique() && parameters_fit(old(module)@) && all_resolved(
            final(module)@,
        ) && all_lowerable(final(module)@),
        r matches Ok(t) ==> lowers(final(module)@, t@),
        r matches Err(CompileError::DuplicateGlobal { .. }) <==> !old(module).names_unique(),
        r matches Err(CompileError::DuplicateGlobal { name }) ==> exists|i: int, j: int|
            0 <= i < j < old(module)@.len() && old(module)@[i].0 == name@ && old(module)@[j].0
                == name@,
        r matches Err(CompileError::TooManyParameters { .. }) <==> old(module).names_unique()
            && !parameters_fit(old(module)@),
        r matches Err(CompileError::TooManyParameters { global }) ==> exists|i: int|
            0 <= i < old(module)@.len() && old(module)@[i].0 == global@
                && old(module)@[i].1.arguments.len() > u32::MAX,
        r matches Err(CompileError::Unresolved(_)) <==> old(module).names_unique()
            && parameters_fit(old(module)@) && !all_resolved(final(module)@),
        r matches Err(CompileError::Unresolved(u)) ==> exists|i: int|
            0 <= i < final(module)@.len() && final(module)@[i].0 == u.global@ && refers_to(
                final(module)@[i].1.body,
                u.name@,
            ),
        r matches Err(CompileError::Lowering(_)) <==> old(module).names_unique()
            && parameters_fit(old(module)@) && all_resolved(final(module)@) && !all_lowerable(
            final(module)@,
        ),
        r matches Err(CompileError::Lowering(e)) ==> e matches LoweringError::Unsupported {
            global,
            ..
        } && exists|i: int|
            0 <= i < final(module)@.len() && final(module)@[i].0 == global@ && !lowerable(
                final(module)@[i].1,
            ),
{
    match names_are_unique(module) {
        Some(name) => {
            return Err(CompileError::DuplicateGlobal { name });
        },
        None => {},
    }
    match oversized_global(module) {
        Some(global) => {
            return Err(CompileError::TooManyParameters { global });
        },
        None => {},
    }
    let ghost initial = module@;
    remove_scopes(module);
    proof {
        lemma_rewrite_keeps_shape(initial, module@);
    }
    let ghost after_scopes = module@;
    build_function_params(module);
    proof {
        lemma_rewrite_keeps_shape(after_scopes, module@);
    }
    let ghost after_parameters = module@;
    let resolved = build_global_references(module);
    proof {
        lemma_rewrite_keeps_shape(after_parameters, module@);
        lemma_same_shape_same_table(initial, after_parameters);
        let table = global_table(initial);
        assert forall|i: int| 0 <= i < initial.len() implies {
            &&& #[trigger] module@[i].0 == initial[i].0
            &&& module@[i].1.arguments == initial[i].1.arguments
            &&& module@[i].1.return_type == initial[i].1.return_type
            &&& module@[i].1.body == passes_applied(table, initial[i].1.arguments, initial[i].1.body)
        } by {
            assert(after_scopes[i].0 == initial[i].0);
            assert(after_parameters[i].0 == after_scopes[i].0);
            assert(module@[i].0 == after_parameters[i].0);
        }
        assert(bodies_rewritten(
            initial,
            module@,
            |a: Seq<(Seq<char>, Ty)>, e: Expr| passes_applied(table, a, e),
        ));
    }
    match resolved {
        Ok(()) => {},
        Err(e) => {
            return Err(CompileError::Unresolved(e));
        },
    }
    proof {
        assert(module.names_unique()) by {
            assert forall|i: int, j: int| 0 <= i < j < module@.len() implies #[trigger] module@[i].0
                != #[trigger] module@[j].0 by {
                assert(initial[i].0 != initial[j].0);
            }
        }
    }
    match generate(module) {
        Ok(t) => Ok(t),
        Err(e) => Err(CompileError::Lowering(e)),
    }
}

} // verus!
