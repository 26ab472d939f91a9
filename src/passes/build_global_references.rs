//! Global-reference resolution: each remaining reference to a module-level
//! global becomes a resolved reference that carries the global's type; a name
//! that is neither a parameter nor a global is reported.

use crate::passes::{
    bodies_rewritten, lacks_reference, lemma_reference_rewrite, references_replaced,
    replaces_references, table_index, table_position, transform_module, Rewrite,
};
use crate::sir::{
    arguments_model, exprs_model, lemma_exprs_model, lemma_types_model, types_model, DataType, Expr,
    Expression, Global, GlobalModel, Module, PrimitiveDataType, Ty,
};
use vstd::prelude::*;

verus! {

/// A name that resolves to neither a parameter nor a global.
#[derive(Debug)]
pub struct UnresolvedName {
    /// The global in whose body the name occurs.
    pub global: String,
    pub name: String,
}

/// The type under which a global is seen by the others: its return type if it
/// is a constant, else the function type of its arguments and return type.
pub open spec fn global_type_of(g: GlobalModel) -> Ty {
    if g.arguments.len() == 0 {
        g.return_type
    } else {
        Ty::Function {
            params: g.arguments.map_values(|a: (Seq<char>, Ty)| a.1),
            ret: Box::new(g.return_type),
        }
    }
}

/// Each global's name with the type under which the others see it.
pub open spec fn global_table(m: Seq<(Seq<char>, GlobalModel)>) -> Seq<(Seq<char>, Ty)> {
    m.map_values(|g: (Seq<char>, GlobalModel)| (g.0, global_type_of(g.1)))
}

/// What a reference to `name` resolves to: the first global of that name, with
/// its type, or the reference itself.
pub open spec fn global_target(table: Seq<(Seq<char>, Ty)>, name: Seq<char>) -> Expr {
    match table_position(table, name) {
        Some(i) => Expr::GlobalRef { name, data_type: table[i as int].1 },
        None => Expr::Ref { name },
    }
}

/// `e` with every reference to a global of `table` resolved.
pub open spec fn globals_resolved(table: Seq<(Seq<char>, Ty)>, e: Expr) -> Expr {
    references_replaced(e, |n: Seq<char>| global_target(table, n))
}

/// Whether no reference node remains in `e`.
pub open spec fn fully_resolved(e: Expr) -> bool
    decreases e,
{
    match e {
        Expr::Binary { left, right, .. } => fully_resolved(*left) && fully_resolved(*right),
        Expr::Call { function, arguments } => fully_resolved(*function) && forall|i: int|
            0 <= i < arguments.len() ==> fully_resolved(#[trigger] arguments[i]),
        Expr::Member { left, .. } => fully_resolved(*left),
        Expr::Ref { .. } => false,
        Expr::Scope { value, body, .. } => fully_resolved(*value) && fully_resolved(*body),
        Expr::Tuple { values } => forall|i: int|
            0 <= i < values.len() ==> fully_resolved(#[trigger] values[i]),
        _ => true,
    }
}

/// Whether a reference to `name` occurs in `e`.
pub open spec fn refers_to(e: Expr, name: Seq<char>) -> bool
    decreases e,
{
    match e {
        Expr::Binary { left, right, .. } => refers_to(*left, name) || refers_to(*right, name),
        Expr::Call { function, arguments } => refers_to(*function, name) || exists|i: int|
            0 <= i < arguments.len() && refers_to(#[trigger] arguments[i], name),
        Expr::Member { left, .. } => refers_to(*left, name),
        Expr::Ref { name: n } => n == name,
        Expr::Scope { value, body, .. } => refers_to(*value, name) || refers_to(*body, name),
        Expr::Tuple { values } => exists|i: int|
            0 <= i < values.len() && refers_to(#[trigger] values[i], name),
        _ => false,
    }
}

/// Turns a reference to a global into a resolved reference.
pub struct GlobalResolver {
    pub table: Vec<(String, DataType)>,
}

impl Rewrite for GlobalResolver {
    open spec fn rewrite(&self, e: Expr) -> Expr {
        match e {
            Expr::Ref { name } => global_target(arguments_model(self.table@), name),
            _ => e,
        }
    }

    fn apply(&self, expression: &mut Expression) {
        let replacement = match &*expression {
            Expression::Reference { name } => match table_index(&self.table, name) {
                Some(i) => {
                    assert(arguments_model(self.table@)[i as int] == (
                        self.table@[i as int].0@,
                        self.table@[i as int].1@,
                    ));
                    Some(
                        Expression::GlobalReference {
                            name: name.clone(),
                            data_type: self.table[i].1.duplicate(),
                        },
                    )
                },
                None => None,
            },
            _ => None,
        };
        match replacement {
            Some(r) => {
                *expression = r;
            },
            None => {},
        }
    }
}

/// The type under which `global` is seen by the other globals.
pub fn global_type(global: &Global) -> (r: DataType)
    ensures
        r@ == global_type_of(global@),
{
    if global.arguments.len() == 0 {
        global.return_type.duplicate()
    } else {
        let mut argument_types: Vec<DataType> = Vec::new();
        let mut i: usize = 0;
        while i < global.arguments.len()
            invariant
                i <= global.arguments.len(),
                argument_types@.len() == i,
                forall|j: int|
                    0 <= j < i ==> #[trigger] argument_types@[j]@ == global.arguments@[j].1@,
            decreases global.arguments.len() - i,
        {
            argument_types.push(global.arguments[i].1.duplicate());
            i = i + 1;
        }
        proof {
            lemma_types_model(argument_types@);
            assert(types_model(argument_types@) =~= global@.arguments.map_values(
                |a: (Seq<char>, Ty)| a.1,
            ));
        }
        DataType::Primitive(
            PrimitiveDataType::Function {
                argument_types,
                return_type: Box::new(global.return_type.duplicate()),
            },
        )
    }
}

/// A name referred to in `e` but not resolved, if any.
pub fn find_reference(e: &Expression) -> (r: Option<String>)
    ensures
        r is None <==> fully_resolved(e@),
        r is Some ==> refers_to(e@, r->0@),
    decreases e, 0nat,
{
    match e {
        Expression::BinaryOperation { left, right, .. } => {
            assert(e@ == Expr::Binary {
                operation: e@->operation,
                left: Box::new(left@),
                right: Box::new(right@),
            });
            assert(fully_resolved(e@) == (fully_resolved(left@) && fully_resolved(right@)));
            let r = find_reference(left);
            if r.is_some() {
                assert(refers_to(e@, r->0@));
                return r;
            }
            let r = find_reference(right);
            proof {
                if r is Some {
                    assert(refers_to(right@, r->0@));
                    assert(refers_to(e@, r->0@));
                }
            }
            r
        },
        Expression::Call { function, arguments } => {
            assert(e@ == Expr::Call {
                function: Box::new(function@),
                arguments: exprs_model(arguments@),
            });
            let r = find_reference(function);
            if r.is_some() {
                assert(refers_to(e@, r->0@));
                return r;
            }
            let r = find_reference_in_all(arguments);
            proof {
                if r is Some {
                    let i = choose|i: int|
                        0 <= i < arguments@.len() && refers_to(
                            #[trigger] exprs_model(arguments@)[i],
                            r->0@,
                        );
                    let args = exprs_model(arguments@);
                    assert(e@->arguments[i] == args[i]);
                    assert(refers_to(e@, r->0@));
                }
            }
            r
        },
        Expression::MemberAccess { left, .. } => {
            assert(e@ == Expr::Member { left: Box::new(left@), member: e@->member });
            let r = find_reference(left);
            proof {
                if r is Some {
                    assert(refers_to(left@, r->0@));
                }
            }
            r
        },
        Expression::Reference { name } => {
            assert(e@ == Expr::Ref { name: name@ });
            let r = name.clone();
            assert(r@ == name@);
            Some(r)
        },
        Expression::Scope { value, body, .. } => {
            assert(e@ == Expr::Scope {
                name: e@->Scope_name,
                value: Box::new(value@),
                body: Box::new(body@),
            });
            let r = find_reference(value);
            if r.is_some() {
                assert(refers_to(e@, r->0@));
                return r;
            }
            let r = find_reference(body);
            proof {
                if r is Some {
                    assert(refers_to(body@, r->0@));
                    assert(refers_to(e@, r->0@));
                }
            }
            r
        },
        Expression::Tuple { values } => {
            assert(e@ == Expr::Tuple { values: exprs_model(values@) });
            let r = find_reference_in_all(values);
            proof {
                if r is Some {
                    let i = choose|i: int|
                        0 <= i < values@.len() && refers_to(#[trigger] exprs_model(values@)[i], r->0@);
                    let vals = exprs_model(values@);
                    assert(e@->values[i] == vals[i]);
                    assert(refers_to(e@, r->0@));
                }
            }
            r
        },
        Expression::GlobalReference { name, data_type } => {
            assert(e@ == Expr::GlobalRef { name: name@, data_type: data_type@ });
            None
        },
        Expression::I64Literal(v) => {
            assert(e@ == Expr::Int(*v));
            None
        },
        Expression::FunctionParam { index, data_type } => {
            assert(e@ == Expr::Param { index: *index, data_type: data_type@ });
            None
        },
    }
}

/// A name referred to in one of `values` but not resolved, if any.
fn find_reference_in_all(values: &Vec<Expression>) -> (r: Option<String>)
    ensures
        r is None <==> forall|i: int|
            0 <= i < values@.len() ==> fully_resolved(#[trigger] exprs_model(values@)[i]),
        r matches Some(n) ==> exists|i: int|
            0 <= i < values@.len() && refers_to(#[trigger] exprs_model(values@)[i], n@),
        exprs_model(values@).len() == values@.len(),
    decreases values, 1nat,
{
    proof {
        lemma_exprs_model(values@);
    }
    let mut i: usize = 0;
    while i < values.len()
        invariant
            i <= values.len(),
            exprs_model(values@).len() == values@.len(),
            forall|j: int| 0 <= j < values@.len() ==> #[trigger] exprs_model(values@)[j] == values@[j]@,
            forall|j: int| 0 <= j < i ==> fully_resolved(#[trigger] exprs_model(values@)[j]),
        decreases values.len() - i,
    {
        assert(decreases_to!(values => values@[i as int]));
        let r = find_reference(&values[i]);
        if r.is_some() {
            assert(refers_to(exprs_model(values@)[i as int], r->0@));
            return r;
        }
        i = i + 1;
    }
    None
}

/// Resolves every reference to a global, then reports the first name that is
/// left unresolved, if any.
pub fn build_global_references(module: &mut Module) -> (r: Result<(), UnresolvedName>)
    ensures
        bodies_rewritten(
            old(module)@,
            final(module)@,
            |a: Seq<(Seq<char>, Ty)>, e: Expr| globals_resolved(global_table(old(module)@), e),
        ),
        r is Ok <==> forall|i: int|
            0 <= i < final(module)@.len() ==> fully_resolved(#[trigger] final(module)@[i].1.body),
        r matches Err(u) ==> exists|i: int|
            0 <= i < final(module)@.len() && #[trigger] final(module)@[i].0 == u.global@ && refers_to(
                final(module)@[i].1.body,
                u.name@,
            ),
{
    let ghost initial = module@;
    let mut table: Vec<(String, DataType)> = Vec::new();
    let mut i: usize = 0;
    while i < module.globals.len()
        invariant
            i <= module.globals.len(),
            module@ == initial,
            table@.len() == i,
            forall|j: int|
                0 <= j < i ==> #[trigger] arguments_model(table@)[j] == global_table(initial)[j],
        decreases module.globals.len() - i,
    {
        let entry = (module.globals[i].0.clone(), global_type(&module.globals[i].1));
        let ghost previous = table@;
        table.push(entry);
        proof {
            assert(module@[i as int] == (module.globals@[i as int].0@, module.globals@[i as int].1@));
            assert(global_table(initial)[i as int] == (
                initial[i as int].0,
                global_type_of(initial[i as int].1),
            ));
            assert(arguments_model(table@)[i as int] == (entry.0@, entry.1@));
            assert forall|j: int| 0 <= j < i + 1 implies #[trigger] arguments_model(table@)[j]
                == global_table(initial)[j] by {
                if j < i {
                    assert(table@[j] == previous[j]);
                    assert(arguments_model(previous)[j] == global_table(initial)[j]);
                    assert(arguments_model(previous)[j] == (previous[j].0@, previous[j].1@));
                    assert(arguments_model(table@)[j] == (table@[j].0@, table@[j].1@));
                }
            }
        }
        i = i + 1;
    }
    assert(arguments_model(table@) =~= global_table(initial));
    let resolver = GlobalResolver { table };
    transform_module(module, &resolver);
    proof {
        let target = |n: Seq<char>| global_target(global_table(initial), n);
        assert(replaces_references(resolver, target));
        assert forall|e: Expr| crate::passes::transformed(resolver, e) == globals_resolved(global_table(initial), e) by {
            lemma_reference_rewrite(resolver, target, e);
        }
    }
    let ghost resolved = module@;
    let mut k: usize = 0;
    while k < module.globals.len()
        invariant
            k <= module.globals.len(),
            module@ == resolved,
            initial == old(module)@,
            bodies_rewritten(
                initial,
                resolved,
                |a: Seq<(Seq<char>, Ty)>, e: Expr| globals_resolved(global_table(initial), e),
            ),
            forall|j: int| 0 <= j < k ==> fully_resolved(#[trigger] module@[j].1.body),
        decreases module.globals.len() - k,
    {
        match find_reference(&module.globals[k].1.body) {
            Some(name) => {
                let global = module.globals[k].0.clone();
                assert(module@[k as int].0 == global@);
                return Err(UnresolvedName { global, name });
            },
            None => {},
        }
        k = k + 1;
    }
    Ok(())
}

} // verus!
