//! The code generator: lowers a resolved module into a [`TargetModule`].
//!
//! A value of primitive type (an integer or a function pointer) is passed and
//! returned in a register. A tuple is never: a function that returns one gets
//! a trailing output pointer to storage its caller owns, and a tuple argument
//! is passed as a pointer to the caller's storage. Each expression is lowered
//! either in value mode, to a register, or in location mode, into storage
//! whose address a register holds. A tuple parameter is borrowed, so moving it
//! into storage the function owns calls a copy routine made once per type.

use crate::sir::{
    arguments_model, exprs_model, lemma_exprs_model, field_position, is_primitive, mangled, type_of, types_of, BinaryOperation,
    DataType, Expr, Expression, GlobalModel, Module, PrimitiveDataType, Ty,
};
use crate::target::{
    code_model, registers_model, Callee, Function, FunctionModel, Instr, Instruction, Pass, Passing, Sig, Signature,
    Target, TargetModule,
};
use vstd::prelude::*;

verus! {

/// How a value of type `t` crosses a call boundary.
pub open spec fn passing(t: Ty) -> Pass {
    if is_primitive(t) {
        Pass::Value(t)
    } else {
        Pass::Pointer(t)
    }
}

/// The external signature of a global with these argument types and this
/// return type: each argument by value or by pointer as its type says, and a
/// composite result through a trailing output pointer instead of a returned value.
pub open spec fn abi_signature(arguments: Seq<Ty>, ret: Ty) -> Sig {
    let parameters = arguments.map_values(|t: Ty| passing(t));
    if is_primitive(ret) {
        Sig { parameters, result: Some(ret) }
    } else {
        Sig { parameters: parameters.push(Pass::Pointer(ret)), result: None }
    }
}

/// The name of the copy routine for values of type `t`.
pub open spec fn clone_name(t: Ty) -> Seq<char> {
    seq!['c', 'l', 'o', 'n', 'e', '.'] + mangled(t)
}

/// The copy routine for values of type `t`: it copies the value at its first
/// parameter into the storage at its second.
pub open spec fn clone_routine(t: Ty) -> FunctionModel {
    FunctionModel {
        name: clone_name(t),
        signature: Sig { parameters: seq![Pass::Pointer(t), Pass::Pointer(t)], result: None },
        body: seq![
            Instr::Parameter { result: 0, index: 0 },
            Instr::Parameter { result: 1, index: 1 },
            Instr::Copy { destination: 1, source: 0, data_type: t },
            Instr::Return { returned: None },
        ],
    }
}

/// Whether lowering in value mode goes through location mode: tuples, and
/// calls and constants of tuple type.
pub open spec fn through_storage(e: Expr) -> bool {
    match type_of(e) {
        Some(t) => !is_primitive(t) && (e is Tuple || e is Call || e is GlobalRef),
        None => false,
    }
}

/// Value-mode lowering of `e` with registers numbered from `next`: the code,
/// the register that holds the value (for a tuple, its address), and the next
/// free register. `None` where `e` cannot be lowered.
pub open spec fn value_code(e: Expr, next: nat) -> Option<(Seq<Instr>, nat, nat)>
    decreases e, if through_storage(e) {
        2nat
    } else {
        0nat
    },
{
    match type_of(e) {
        None => None,
        Some(t) => if through_storage(e) {
            match into_code(e, next, next + 1) {
                Some((code, after)) => Some(
                    (seq![Instr::Allocate { result: next, data_type: t }] + code, next, after),
                ),
                None => None,
            }
        } else {
            match e {
                Expr::Int(value) => Some(
                    (seq![Instr::Constant { result: next, constant: value }], next, next + 1),
                ),
                Expr::Binary { operation, left, right } => if operation == BinaryOperation::Add {
                    match value_code(*left, next) {
                        Some((lc, l, n1)) => match value_code(*right, n1) {
                            Some((rc, r, n2)) => Some(
                                (
                                    lc + rc + seq![Instr::Add { result: n2, left: l, right: r }],
                                    n2,
                                    n2 + 1,
                                ),
                            ),
                            None => None,
                        },
                        None => None,
                    }
                } else {
                    None
                },
                Expr::Call { function, arguments } => match value_code(*function, next) {
                    Some((fc, f, n1)) => match values_code(arguments, n1) {
                        Some((ac, regs, n2)) => Some(
                            (
                                fc + ac + seq![
                                    Instr::Call {
                                        output: Some(n2),
                                        callee: Target::Indirect(f),
                                        arguments: regs,
                                    },
                                ],
                                n2,
                                n2 + 1,
                            ),
                        ),
                        None => None,
                    },
                    None => None,
                },
                Expr::GlobalRef { name, data_type } => if data_type is Function {
                    Some((seq![Instr::FunctionAddress { result: next, name }], next, next + 1))
                } else {
                    Some(
                        (
                            seq![
                                Instr::Call {
                                    output: Some(next),
                                    callee: Target::Direct(name),
                                    arguments: seq![],
                                },
                            ],
                            next,
                            next + 1,
                        ),
                    )
                },
                Expr::Param { index, .. } => Some(
                    (seq![Instr::Parameter { result: next, index: index as nat }], next, next + 1),
                ),
                Expr::Member { left, member } => match type_of(*left) {
                    Some(lt) => match field_position(lt, member) {
                        Some(i) => match value_code(*left, next) {
                            Some((lc, base, n1)) => {
                                let address = Instr::FieldAddress {
                                    result: n1,
                                    base,
                                    data_type: lt,
                                    index: i,
                                };
                                if is_primitive(t) {
                                    Some(
                                        (
                                            lc + seq![
                                                address,
                                                Instr::Load {
                                                    result: n1 + 1,
                                                    address: n1,
                                                    data_type: t,
                                                },
                                            ],
                                            n1 + 1,
                                            n1 + 2,
                                        ),
                                    )
                                } else {
                                    Some((lc + seq![address], n1, n1 + 1))
                                }
                            },
                            None => None,
                        },
                        None => None,
                    },
                    None => None,
                },
                _ => None,
            }
        },
    }
}

/// Value-mode lowering of each of `s` in turn.
pub open spec fn values_code(s: Seq<Expr>, next: nat) -> Option<(Seq<Instr>, Seq<nat>, nat)>
    decreases s, 3nat,
{
    if s.len() == 0 {
        Some((seq![], seq![], next))
    } else {
        match values_code(s.drop_last(), next) {
            Some((c0, regs, n1)) => match value_code(s.last(), n1) {
                Some((c1, r, n2)) => Some((c0 + c1, regs.push(r), n2)),
                None => None,
            },
            None => None,
        }
    }
}

/// Location-mode lowering of `e` into the storage whose address register
/// `dest` holds, with registers numbered from `next`: the code and the next
/// free register. `None` where `e` cannot be lowered.
pub open spec fn into_code(e: Expr, dest: nat, next: nat) -> Option<(Seq<Instr>, nat)>
    decreases e, 1nat,
{
    match type_of(e) {
        None => None,
        Some(t) => if is_primitive(t) {
            if through_storage(e) {
                None
            } else {
                match value_code(e, next) {
                    Some((c, v, n1)) => Some((c + seq![Instr::Store { address: dest, value: v }], n1)),
                    None => None,
                }
            }
        } else {
            match e {
                Expr::Call { function, arguments } => match value_code(*function, next) {
                    Some((fc, f, n1)) => match values_code(arguments, n1) {
                        Some((ac, regs, n2)) => Some(
                            (
                                fc + ac + seq![
                                    Instr::Call {
                                        output: None,
                                        callee: Target::Indirect(f),
                                        arguments: regs.push(dest),
                                    },
                                ],
                                n2,
                            ),
                        ),
                        None => None,
                    },
                    None => None,
                },
                Expr::GlobalRef { name, .. } => Some(
                    (
                        seq![
                            Instr::Call {
                                output: None,
                                callee: Target::Direct(name),
                                arguments: seq![dest],
                            },
                        ],
                        next,
                    ),
                ),
                Expr::Tuple { values } => fields_code(values, t, dest, next),
                Expr::Param { .. } | Expr::Member { .. } => if through_storage(e) {
                    None
                } else {
                    match value_code(e, next) {
                        Some((c, source, n1)) => Some(
                            (
                                c + seq![
                                    Instr::Call {
                                        output: None,
                                        callee: Target::Direct(clone_name(t)),
                                        arguments: seq![source, dest],
                                    },
                                ],
                                n1,
                            ),
                        ),
                        None => None,
                    }
                },
                _ => None,
            }
        },
    }
}

/// Location-mode lowering of the fields `values` of a tuple of type `t` into
/// the storage at register `dest`, each into its field's slot, in order.
pub open spec fn fields_code(values: Seq<Expr>, t: Ty, dest: nat, next: nat) -> Option<
    (Seq<Instr>, nat),
>
    decreases values, 3nat,
{
    if values.len() == 0 {
        Some((seq![], next))
    } else {
        match fields_code(values.drop_last(), t, dest, next) {
            Some((c0, n1)) => match into_code(values.last(), n1, n1 + 1) {
                Some((c1, n2)) => Some(
                    (
                        c0 + seq![
                            Instr::FieldAddress {
                                result: n1,
                                base: dest,
                                data_type: t,
                                index: (values.len() - 1) as nat,
                            },
                        ] + c1,
                        n2,
                    ),
                ),
                None => None,
            },
            None => None,
        }
    }
}

pub proof fn lemma_values_code_prefix(s: Seq<Expr>, k: nat, next: nat)
    requires
        k <= s.len(),
        values_code(s.subrange(0, k as int), next) is None,
    ensures
        values_code(s, next) is None,
    decreases s.len() - k,
{
    if k < s.len() {
        let p = s.subrange(0, k + 1 as int);
        assert(p.drop_last() =~= s.subrange(0, k as int));
        lemma_values_code_prefix(s, k + 1, next);
    } else {
        assert(s.subrange(0, k as int) =~= s);
    }
}

pub proof fn lemma_fields_code_prefix(s: Seq<Expr>, t: Ty, dest: nat, k: nat, next: nat)
    requires
        k <= s.len(),
        fields_code(s.subrange(0, k as int), t, dest, next) is None,
    ensures
        fields_code(s, t, dest, next) is None,
    decreases s.len() - k,
{
    if k < s.len() {
        let p = s.subrange(0, k + 1 as int);
        assert(p.drop_last() =~= s.subrange(0, k as int));
        lemma_fields_code_prefix(s, t, dest, k + 1, next);
    } else {
        assert(s.subrange(0, k as int) =~= s);
    }
}

pub proof fn lemma_grows_by_clones_refl(a: Seq<FunctionModel>)
    ensures
        Generator::grows_by_clones(a, a),
{
    assert(a.subrange(0, a.len() as int) =~= a);
}

pub proof fn lemma_grows_by_clones_trans(
    a: Seq<FunctionModel>,
    b: Seq<FunctionModel>,
    c: Seq<FunctionModel>,
)
    requires
        Generator::grows_by_clones(a, b),
        Generator::grows_by_clones(b, c),
    ensures
        Generator::grows_by_clones(a, c),
{
    assert(c.subrange(0, a.len() as int) =~= b.subrange(0, a.len() as int));
    assert forall|j: int, k: int| 0 <= j < k < c.len() && a.len() <= k implies #[trigger] c[j]
        != #[trigger] c[k] by {
        if k < b.len() {
            assert(c[j] == c.subrange(0, b.len() as int)[j]);
            assert(c[k] == c.subrange(0, b.len() as int)[k]);
            assert(b[j] != b[k]);
        }
    }
    assert forall|k: int| a.len() <= k < c.len() implies exists|t: Ty| #[trigger] c[k] == clone_routine(t) by {
        if k < b.len() {
            assert(c[k] == b[k]);
            let t = choose|t: Ty| #[trigger] b[k] == clone_routine(t);
            assert(c[k] == clone_routine(t));
        } else {
            let t = choose|t: Ty| #[trigger] c[k] == clone_routine(t);
            assert(c[k] == clone_routine(t));
        }
    }
}

/// The name of the copy routine for values of type `t`.
pub fn clone_name_string(t: &DataType) -> (r: String)
    ensures
        r@ == clone_name(t@),
{
    proof {
        reveal_strlit("clone.");
    }
    let mut r = "clone.".to_owned();
    t.mangle(&mut r);
    r
}

/// The types of a list of named, typed arguments.
pub open spec fn argument_types(arguments: Seq<(String, DataType)>) -> Seq<Ty> {
    arguments.map_values(|a: (String, DataType)| a.1@)
}

/// The position of the first of `functions` called `name`, searching from `i`.
pub open spec fn function_search(functions: Seq<FunctionModel>, name: Seq<char>, i: nat) -> Option<nat>
    decreases functions.len() - i,
{
    if i >= functions.len() {
        None
    } else if functions[i as int].name == name {
        Some(i)
    } else {
        function_search(functions, name, i + 1)
    }
}

/// The position of the first of `functions` called `name`.
pub open spec fn function_position(functions: Seq<FunctionModel>, name: Seq<char>) -> Option<nat> {
    function_search(functions, name, 0)
}

pub proof fn lemma_function_search(functions: Seq<FunctionModel>, name: Seq<char>, i: nat)
    ensures
        function_search(functions, name, i) matches Some(k) ==> i <= k < functions.len()
            && functions[k as int].name == name,
        function_search(functions, name, i) is None ==> forall|j: int|
            i <= j < functions.len() ==> functions[j].name != name,
    decreases functions.len() - i,
{
    if i < functions.len() {
        lemma_function_search(functions, name, i + 1);
    }
}

/// The body of a function with signature `sig` whose value is `e`: the value
/// returned in a register where the signature returns one, else written
/// through the trailing output pointer. `None` where `e` cannot be lowered or
/// its type does not fit the signature.
pub open spec fn definition_code(sig: Sig, e: Expr) -> Option<Seq<Instr>> {
    match type_of(e) {
        None => None,
        Some(t) => if sig.result is Some {
            if is_primitive(t) {
                match value_code(e, 0) {
                    Some((c, v, _)) => Some(c.push(Instr::Return { returned: Some(v) })),
                    None => None,
                }
            } else {
                None
            }
        } else if is_primitive(t) || sig.parameters.len() == 0 || sig.parameters.len() - 1
            > u32::MAX {
            None
        } else {
            match into_code(e, 0, 1) {
                Some((c, _)) => Some(
                    seq![Instr::Parameter { result: 0, index: (sig.parameters.len() - 1) as nat }]
                        + c + seq![Instr::Return { returned: None }],
                ),
                None => None,
            }
        },
    }
}

/// The external signature for these arguments and return type.
pub fn signature_of(arguments: &[(String, DataType)], return_type: &DataType) -> (r: Signature)
    ensures
        r@ == abi_signature(argument_types(arguments@), return_type@),
{
    let mut parameters: Vec<Passing> = Vec::new();
    let mut i: usize = 0;
    while i < arguments.len()
        invariant
            i <= arguments@.len(),
            parameters@.len() == i,
            forall|j: int| 0 <= j < i ==> #[trigger] parameters@[j]@ == passing(arguments@[j].1@),
        decreases arguments.len() - i,
    {
        let t = arguments[i].1.duplicate();
        if t.is_primitive() {
            parameters.push(Passing::ByValue(t));
        } else {
            parameters.push(Passing::ByPointer(t));
        }
        i = i + 1;
    }
    let ghost passed = argument_types(arguments@).map_values(|t: Ty| passing(t));
    assert(parameters@.map_values(|p: Passing| p@) =~= passed);
    if return_type.is_primitive() {
        Signature { parameters, result: Some(return_type.duplicate()) }
    } else {
        let ghost before = parameters@;
        parameters.push(Passing::ByPointer(return_type.duplicate()));
        assert(parameters@.map_values(|p: Passing| p@) =~= passed.push(Pass::Pointer(return_type@)));
        Signature { parameters, result: None }
    }
}

/// A lowered global is never a copy routine: its body starts by reading the
/// last parameter, or returns a value.
proof fn lemma_definition_not_clone(sig: Sig, e: Expr, name: Seq<char>, t: Ty)
    requires
        definition_code(sig, e) is Some,
    ensures
        (FunctionModel { name, signature: sig, body: definition_code(sig, e)->0 }) != clone_routine(t),
{
    let body = definition_code(sig, e)->0;
    let clone = clone_routine(t);
    if sig == clone.signature {
        let c = stored(into_code(e, 0, 1));
        assert(body == seq![Instr::Parameter { result: 0, index: 1 }] + c + seq![Instr::Return { returned: None }]);
        assert(body[0] == Instr::Parameter { result: 0, index: 1 });
        assert(clone.body[0] == Instr::Parameter { result: 0, index: 0 });
    }
}

pub proof fn lemma_grows_by_clones_update(
    before: Seq<FunctionModel>,
    after: Seq<FunctionModel>,
    k: int,
    f: FunctionModel,
)
    requires
        Generator::grows_by_clones(before, after),
        0 <= k < before.len(),
        forall|t: Ty| f != clone_routine(t),
    ensures
        Generator::grows_by_clones(before.update(k, f), after.update(k, f)),
{
    let u = after.update(k, f);
    assert forall|j: int, i: int| 0 <= j < i < u.len() && before.len() <= i implies #[trigger] u[j]
        != #[trigger] u[i] by {
        let t = choose|t: Ty| #[trigger] after[i] == clone_routine(t);
        assert(u[i] == after[i]);
        if j != k {
            assert(u[j] == after[j]);
        }
    }
    assert(after.update(k, f).subrange(0, before.len() as int) =~= before.update(k, f));
    assert forall|j: int| before.len() <= j < after.len() implies exists|t: Ty|
        #[trigger] after.update(k, f)[j] == clone_routine(t) by {
        assert(after.update(k, f)[j] == after[j]);
        let t = choose|t: Ty| #[trigger] after[j] == clone_routine(t);
        assert(after.update(k, f)[j] == clone_routine(t));
    }
}

/// Whether `x` occurs in `e`, `e` itself included.
pub open spec fn part_of(x: Expr, e: Expr) -> bool
    decreases e,
{
    x == e || match e {
        Expr::Binary { left, right, .. } => part_of(x, *left) || part_of(x, *right),
        Expr::Call { function, arguments } => part_of(x, *function) || exists|i: int|
            0 <= i < arguments.len() && part_of(x, #[trigger] arguments[i]),
        Expr::Member { left, .. } => part_of(x, *left),
        Expr::Scope { value, body, .. } => part_of(x, *value) || part_of(x, *body),
        Expr::Tuple { values } => exists|i: int| 0 <= i < values.len() && part_of(x, #[trigger] values[i]),
        _ => false,
    }
}

/// Whether `x` has no lowering, in value mode or in location mode.
pub open spec fn unlowerable(x: Expr) -> bool {
    (exists|n: nat| #[trigger] value_code(x, n) is None) || (exists|d: nat, n: nat|
        #[trigger] into_code(x, d, n) is None)
}

/// The code of a value-mode lowering.
pub open spec fn emitted(lowered: Option<(Seq<Instr>, nat, nat)>) -> Seq<Instr> {
    match lowered {
        Some((code, _, _)) => code,
        None => seq![],
    }
}

/// The first free register after a value-mode lowering.
pub open spec fn next_register(lowered: Option<(Seq<Instr>, nat, nat)>) -> nat {
    match lowered {
        Some((_, _, next)) => next,
        None => 0,
    }
}

/// The code of the lowering of a list of values.
pub open spec fn listed_code(lowered: Option<(Seq<Instr>, Seq<nat>, nat)>) -> Seq<Instr> {
    match lowered {
        Some((code, _, _)) => code,
        None => seq![],
    }
}

/// The first free register after the lowering of a list of values.
pub open spec fn next_listed(lowered: Option<(Seq<Instr>, Seq<nat>, nat)>) -> nat {
    match lowered {
        Some((_, _, next)) => next,
        None => 0,
    }
}

/// The code of a location-mode lowering.
pub open spec fn stored(lowered: Option<(Seq<Instr>, nat)>) -> Seq<Instr> {
    match lowered {
        Some((code, _)) => code,
        None => seq![],
    }
}

/// Why a global could not be lowered.
#[derive(Debug)]
pub enum LoweringError {
    /// No function of that name was declared.
    Undeclared { global: String },
    /// The function of that name already has a body.
    Redefined { global: String },
    /// The expression, part of the global's body, has no lowering: it is an
    /// unresolved name, a binding, an unsupported operator, or ill-typed.
    Unsupported { global: String, expression: Expression },
}

/// Lowers the globals of a module, one function each: all are declared first,
/// then each body is written.
pub struct Generator {
    functions: Vec<Function>,
    /// The types whose copy routine is among the functions.
    clones: Vec<DataType>,
    /// The body being written.
    code: Vec<Instruction>,
    /// The first register that the body being written does not use yet.
    next: usize,
}

impl Generator {
    /// The functions declared or made so far.
    pub closed spec fn functions(&self) -> Seq<FunctionModel> {
        self.functions@.map_values(|f: Function| f@)
    }

    pub closed spec fn wf(&self) -> bool {
        &&& self.next <= self.code@.len()
        &&& forall|j: int| 0 <= j < self.clones@.len() ==> self.has_clone(#[trigger] self.clones@[j]@)
        &&& forall|t: Ty| #[trigger] self.has_clone(t) ==> self.listed(t)
    }

    /// Whether `t` is in the table of types whose copy routine was made.
    spec fn listed(&self, t: Ty) -> bool {
        exists|j: int| 0 <= j < self.clones@.len() && #[trigger] self.clones@[j]@ == t
    }

    /// Whether the copy routine for `t` is among the functions.
    pub open spec fn has_clone(&self, t: Ty) -> bool {
        exists|k: int| 0 <= k < self.functions().len() && #[trigger] self.functions()[k] == clone_routine(t)
    }

    /// `after` holds the functions of `before`, and after them copy routines only.
    pub open spec fn grows_by_clones(before: Seq<FunctionModel>, after: Seq<FunctionModel>) -> bool {
        &&& before.len() <= after.len()
        &&& after.subrange(0, before.len() as int) == before
        &&& forall|k: int|
            before.len() <= k < after.len() ==> exists|t: Ty| #[trigger] after[k] == clone_routine(t)
        &&& forall|j: int, k: int|
            0 <= j < k < after.len() && before.len() <= k ==> #[trigger] after[j] != #[trigger] after[k]
    }

    proof fn lemma_wf_kept(a: Generator, b: Generator)
        requires
            a.wf(),
            b.functions() == a.functions(),
            b.clones@ == a.clones@,
            b.next <= b.code@.len(),
        ensures
            b.wf(),
    {
        assert forall|j: int| 0 <= j < b.clones@.len() implies b.has_clone(#[trigger] b.clones@[j]@) by {
            assert(a.has_clone(a.clones@[j]@));
        }
        assert forall|u: Ty| #[trigger] b.has_clone(u) implies b.listed(u) by {
            assert(a.has_clone(u));
            let j = choose|j: int| 0 <= j < a.clones@.len() && #[trigger] a.clones@[j]@ == u;
            assert(b.clones@[j]@ == u);
        }
    }

    pub fn new() -> (r: Generator)
        ensures
            r.wf(),
            r.functions().len() == 0,
    {
        let r = Generator { functions: Vec::new(), clones: Vec::new(), code: Vec::new(), next: 0 };
        assert(r.functions() =~= seq![]);
        assert forall|u: Ty| #[trigger] r.has_clone(u) implies r.listed(u) by {}
        r
    }

    fn add_function(&mut self, name: String, signature: Signature)
        requires
            old(self).wf(),
        ensures
            final(self).wf(),
            final(self).functions() == old(self).functions().push(
                FunctionModel { name: name@, signature: signature@, body: seq![] },
            ),
    {
        let ghost before = self.functions();
        let body: Vec<Instruction> = Vec::new();
        assert(code_model(body@) =~= seq![]);
        self.functions.push(Function { name, signature, body });
        proof {
            assert(self.functions() =~= before.push(
                FunctionModel { name: name@, signature: signature@, body: seq![] },
            ));
            assert forall|j: int| 0 <= j < self.clones@.len() implies self.has_clone(
                #[trigger] self.clones@[j]@,
            ) by {
                assert(old(self).has_clone(old(self).clones@[j]@));
                let k = choose|k: int|
                    0 <= k < before.len() && before[k] == clone_routine(self.clones@[j]@);
                assert(self.functions()[k] == before[k]);
            }
            assert forall|u: Ty| #[trigger] self.has_clone(u) implies self.listed(u) by {
                let m = choose|m: int| 0 <= m < self.functions().len() && self.functions()[m] == clone_routine(u);
                assert(clone_routine(u).body.len() == 4);
                assert(m < before.len());
                assert(before[m] == clone_routine(u));
                assert(old(self).has_clone(u));
                let j = choose|j: int| 0 <= j < old(self).clones@.len() && #[trigger] old(self).clones@[j]@ == u;
                assert(self.clones@[j]@ == u);
            }
        }
    }

    /// Declares a constant: a function of no parameters that returns the value
    /// if it is primitive, else writes it through an output pointer.
    pub fn declare_global_constant(&mut self, name: String, data_type: &DataType)
        requires
            old(self).wf(),
        ensures
            final(self).wf(),
            final(self).functions() == old(self).functions().push(
                FunctionModel {
                    name: name@,
                    signature: abi_signature(seq![], data_type@),
                    body: seq![],
                },
            ),
    {
        let arguments: Vec<(String, DataType)> = Vec::new();
        let signature = signature_of(arguments.as_slice(), data_type);
        assert(argument_types(arguments@) =~= seq![]);
        self.add_function(name, signature);
    }

    /// Declares a function of these arguments and return type.
    pub fn declare_global_function(
        &mut self,
        name: String,
        arguments: &[(String, DataType)],
        return_type: &DataType,
    )
        requires
            old(self).wf(),
        ensures
            final(self).wf(),
            final(self).functions() == old(self).functions().push(
                FunctionModel {
                    name: name@,
                    signature: abi_signature(argument_types(arguments@), return_type@),
                    body: seq![],
                },
            ),
    {
        let signature = signature_of(arguments, return_type);
        self.add_function(name, signature);
    }

    /// Writes the body of the declared constant `name`, whose value is primitive.
    pub fn write_global_primitive_constant(&mut self, name: &str, value: &Expression) -> (r: Result<
        (),
        LoweringError,
    >)
        requires
            old(self).wf(),
        ensures
            Self::defined(*old(self), *final(self), name@, value@, r),
    {
        self.define(name, value)
    }

    /// Writes the body of the declared constant `name`, whose value is a tuple.
    pub fn write_global_nonprimitive_constant(&mut self, name: &str, value: &Expression) -> (r:
        Result<(), LoweringError>)
        requires
            old(self).wf(),
        ensures
            Self::defined(*old(self), *final(self), name@, value@, r),
    {
        self.define(name, value)
    }

    /// Writes the body of the declared function `name`.
    pub fn write_global_function(&mut self, name: &str, value: &Expression) -> (r: Result<
        (),
        LoweringError,
    >)
        requires
            old(self).wf(),
        ensures
            Self::defined(*old(self), *final(self), name@, value@, r),
    {
        self.define(name, value)
    }

    /// What writing the body `value` of the declared function `name` does:
    /// the first function of that name gets the body that [`definition_code`]
    /// gives, and copy routines may be added; where the name is not declared,
    /// or the body cannot be lowered, the error says so. A body that cannot be
    /// lowered is reported with a part of it that has no lowering, or with the
    /// whole body where its type does not fit the declared signature.
    pub open spec fn defined(
        before: Generator,
        after: Generator,
        name: Seq<char>,
        value: Expr,
        r: Result<(), LoweringError>,
    ) -> bool {
        &&& after.wf()
        &&& match function_position(before.functions(), name) {
            None => r matches Err(LoweringError::Undeclared { global }) && global@ == name
                && after.functions() == before.functions(),
            Some(k) => if before.functions()[k as int].body.len() > 0 {
                r matches Err(LoweringError::Redefined { global }) && global@ == name
                    && after.functions() == before.functions()
            } else { match definition_code(before.functions()[k as int].signature, value) {
                Some(body) => r is Ok && Self::grows_by_clones(
                    before.functions().update(
                        k as int,
                        FunctionModel { body, ..before.functions()[k as int] },
                    ),
                    after.functions(),
                ),
                None => r matches Err(LoweringError::Unsupported { global, expression }) && global@
                    == name && part_of(expression@, value) && (unlowerable(expression@)
                    || expression@ == value) && Self::grows_by_clones(
                    before.functions(),
                    after.functions(),
                ),
            } },
        }
    }

    fn define(&mut self, name: &str, value: &Expression) -> (r: Result<(), LoweringError>)
        requires
            old(self).wf(),
        ensures
            Self::defined(*old(self), *final(self), name@, value@, r),
    {
        let ghost functions = self.functions();
        proof {
            lemma_grows_by_clones_refl(functions);
        }
        let wanted = name.to_owned();
        let position = self.function_index(&wanted);
        proof {
            lemma_function_search(functions, name@, 0);
        }
        let k = match position {
            Some(k) => k,
            None => {
                return Err(LoweringError::Undeclared { global: wanted });
            },
        };
        assert(functions[k as int] == self.functions@[k as int]@);
        if self.functions[k].body.len() > 0 {
            return Err(LoweringError::Redefined { global: wanted });
        }
        let ghost unreset = *self;
        self.code = Vec::new();
        self.next = 0;
        assert(self.functions() == functions);
        proof {
            Self::lemma_wf_kept(unreset, *self);
        }
        let ghost signature = functions[k as int].signature;
        proof {
            assert(self.functions@[k as int]@ == functions[k as int]);
        }
        let t = match value.data_type() {
            Some(t) => t,
            None => {
                return Err(LoweringError::Unsupported { global: wanted, expression: value.duplicate() });
            },
        };
        let returns_value = self.functions[k].signature.result.is_some();
        let count = self.functions[k].signature.parameters.len();
        assert(count == signature.parameters.len());
        if returns_value {
            if !t.is_primitive() {
                return Err(LoweringError::Unsupported { global: wanted, expression: value.duplicate() });
            }
            let v = match self.write_expression(value) {
                Ok(v) => v,
                Err(x) => {
                    return Err(LoweringError::Unsupported { global: wanted, expression: x });
                },
            };
            self.emit(Instruction::Return { returned: Some(v) });
        } else {
            if t.is_primitive() || count == 0 || count - 1 > u32::MAX as usize {
                return Err(LoweringError::Unsupported { global: wanted, expression: value.duplicate() });
            }
            let index = (count - 1) as u32;
            self.emit_defining(Instruction::Parameter { result: 0, index });
            match self.write_expression_into(value, 0) {
                Ok(()) => {},
                Err(x) => {
                    return Err(LoweringError::Unsupported { global: wanted, expression: x });
                },
            }
            self.emit(Instruction::Return { returned: None });
        }
        let ghost code = self.written();
        let ghost lowered = self.functions();
        let ghost written_state = *self;
        let mut body: Vec<Instruction> = Vec::new();
        std::mem::swap(&mut body, &mut self.code);
        self.next = 0;
        proof {
            Self::lemma_wf_kept(written_state, *self);
            assert forall|u: Ty| (FunctionModel { body: code, ..functions[k as int] }) != clone_routine(u) by {
                lemma_definition_not_clone(signature, value@, functions[k as int].name, u);
            }
            assert(code_model(body@) == code);
            assert(definition_code(signature, value@) == Some(code)) by {
                assert(code =~= definition_code(signature, value@)->0);
            }
            assert(lowered.subrange(0, functions.len() as int) == functions);
            assert(lowered[k as int] == lowered.subrange(0, functions.len() as int)[k as int]);
        }
        self.set_body(k, body);
        proof {
            lemma_grows_by_clones_update(functions, lowered, k as int, FunctionModel { body: code, ..functions[k as int] });
        }
        Ok(())
    }

    fn set_body(&mut self, k: usize, body: Vec<Instruction>)
        requires
            old(self).wf(),
            k < old(self).functions().len(),
            old(self).functions()[k as int].body.len() == 0,
            forall|t: Ty|
                (FunctionModel { body: code_model(body@), ..old(self).functions()[k as int] })
                    != clone_routine(t),
        ensures
            final(self).wf(),
            final(self).functions() == old(self).functions().update(
                k as int,
                FunctionModel { body: code_model(body@), ..old(self).functions()[k as int] },
            ),
            final(self).code == old(self).code,
            final(self).next == old(self).next,
    {
        let ghost before = self.functions();
        self.functions[k].body = body;
        proof {
            assert(self.functions() =~= before.update(
                k as int,
                FunctionModel { body: code_model(body@), ..before[k as int] },
            ));
            assert forall|j: int| 0 <= j < self.clones@.len() implies self.has_clone(
                #[trigger] self.clones@[j]@,
            ) by {
                assert(old(self).has_clone(old(self).clones@[j]@));
                let m = choose|m: int|
                    0 <= m < before.len() && before[m] == clone_routine(self.clones@[j]@);
                assert(m != k);
                assert(self.functions()[m] == before[m]);
            }
            assert forall|u: Ty| #[trigger] self.has_clone(u) implies self.listed(u) by {
                let m = choose|m: int| 0 <= m < self.functions().len() && self.functions()[m] == clone_routine(u);
                assert(m != k);
                assert(before[m] == clone_routine(u));
                assert(old(self).has_clone(u));
                let j = choose|j: int| 0 <= j < old(self).clones@.len() && #[trigger] old(self).clones@[j]@ == u;
                assert(self.clones@[j]@ == u);
            }
        }
    }

    /// The position of the first function called `name`.
    fn function_index(&self, name: &String) -> (r: Option<usize>)
        ensures
            r matches Some(k) ==> function_position(self.functions(), name@) == Some(k as nat),
            r is None ==> function_position(self.functions(), name@) is None,
    {
        let mut i: usize = 0;
        while i < self.functions.len()
            invariant
                i <= self.functions@.len(),
                function_position(self.functions(), name@) == function_search(self.functions(), name@, i as nat),
            decreases self.functions.len() - i,
        {
            assert(self.functions()[i as int].name == self.functions@[i as int].name@);
            if self.functions[i].name == *name {
                return Some(i);
            }
            i = i + 1;
        }
        None
    }

    /// The lowered module.
    pub fn build(self) -> (r: TargetModule)
        ensures
            r@ == self.functions(),
    {
        TargetModule { functions: self.functions }
    }

    /// Makes the copy routine for `t` unless it was made before, and returns its name.
    fn ensure_clone(&mut self, t: &DataType) -> (r: String)
        requires
            old(self).wf(),
        ensures
            final(self).wf(),
            r@ == clone_name(t@),
            final(self).has_clone(t@),
            old(self).has_clone(t@) ==> final(self).functions() == old(self).functions(),
            Self::grows_by_clones(old(self).functions(), final(self).functions()),
            final(self).code == old(self).code,
            final(self).next == old(self).next,
    {
        let name = clone_name_string(t);
        let mut j: usize = 0;
        while j < self.clones.len()
            invariant
                self.wf(),
                j <= self.clones@.len(),
                name@ == clone_name(t@),
                self.functions == old(self).functions,
                self.clones == old(self).clones,
                self.code == old(self).code,
                self.next == old(self).next,
                forall|i: int| 0 <= i < j ==> self.clones@[i]@ != t@,
            decreases self.clones.len() - j,
        {
            if self.clones[j].same_as(t) {
                assert(self.clones@[j as int]@ == t@);
                assert(self.functions().subrange(0, self.functions().len() as int) =~= self.functions());
                return name;
            }
            j = j + 1;
        }
        let ghost before = self.functions();
        assert(!self.listed(t@));
        assert(!old(self).has_clone(t@));
        let routine = Function {
            name: name.clone(),
            signature: Signature {
                parameters: vec![Passing::ByPointer(t.duplicate()), Passing::ByPointer(t.duplicate())],
                result: None,
            },
            body: vec![
                Instruction::Parameter { result: 0, index: 0 },
                Instruction::Parameter { result: 1, index: 1 },
                Instruction::Copy { destination: 1, source: 0, data_type: t.duplicate() },
                Instruction::Return { returned: None },
            ],
        };
        proof {
            assert(routine.signature@.parameters =~= seq![Pass::Pointer(t@), Pass::Pointer(t@)]);
            assert(routine@.body =~= clone_routine(t@).body);
        }
        self.functions.push(routine);
        self.clones.push(t.duplicate());
        proof {
            assert(self.functions() =~= before.push(clone_routine(t@)));
            assert(self.functions()[before.len() as int] == clone_routine(t@));
            assert forall|j: int| 0 <= j < self.clones@.len() implies self.has_clone(
                #[trigger] self.clones@[j]@,
            ) by {
                if j == self.clones@.len() - 1 {
                    assert(self.functions()[before.len() as int] == clone_routine(self.clones@[j]@));
                } else {
                    assert(old(self).has_clone(old(self).clones@[j]@));
                    let k = choose|k: int|
                        0 <= k < before.len() && before[k] == clone_routine(self.clones@[j]@);
                    assert(self.functions()[k] == before[k]);
                }
            }
            assert(self.functions().subrange(0, before.len() as int) =~= before);
            assert forall|u: Ty| #[trigger] self.has_clone(u) implies self.listed(u) by {
                let k = choose|k: int| 0 <= k < self.functions().len() && self.functions()[k] == clone_routine(u);
                if u == t@ {
                    assert(self.clones@[self.clones@.len() - 1]@ == u);
                } else {
                    assert(k < before.len());
                    assert(before[k] == clone_routine(u));
                    assert(old(self).has_clone(u));
                    assert(old(self).listed(u));
                    let j = choose|j: int| 0 <= j < old(self).clones@.len() && old(self).clones@[j]@ == u;
                    assert(self.clones@[j] == old(self).clones@[j]);
                }
            }
            assert forall|j: int, k: int|
                0 <= j < k < self.functions().len() && before.len() <= k implies #[trigger] self.functions()[j]
                    != #[trigger] self.functions()[k] by {
                assert(self.functions()[j] == before[j]);
                if self.functions()[j] == self.functions()[k] {
                    assert(old(self).has_clone(t@));
                }
            }
        }
        name
    }

    /// Lowers `e` in value mode at the end of the body being written, and
    /// returns the register that holds its value.
    fn write_expression(&mut self, e: &Expression) -> (r: Result<usize, Expression>)
        requires
            old(self).wf(),
        ensures
            final(self).wf(),
            Self::grows_by_clones(old(self).functions(), final(self).functions()),
            match value_code(e@, old(self).next as nat) {
                Some((c, v, n)) => {
                    &&& r matches Ok(x) && x as nat == v
                    &&& final(self).written() == old(self).written() + c
                    &&& final(self).next as nat == n
                },
                None => r is Err,
            },
            r matches Err(x) ==> part_of(x@, e@) && unlowerable(x@),
        decreases e, if through_storage(e@) {
            3nat
        } else {
            1nat
        },
    {
        let ghost start = self.written();
        let ghost functions = self.functions();
        let ghost n0 = self.next as nat;
        proof {
            lemma_grows_by_clones_refl(functions);
        }
        let t = match e.data_type() {
            Some(t) => t,
            None => {
                return Err(e.duplicate());
            },
        };
        let storage = !t.is_primitive() && (matches!(e, Expression::Tuple { .. }) || matches!(
            e,
            Expression::Call { .. }
        ) || matches!(e, Expression::GlobalReference { .. }));
        assert(storage == through_storage(e@));
        if storage {
            let r = self.next;
            self.emit_defining(Instruction::Allocate { result: r, data_type: t });
            return match self.write_expression_into(e, r) {
                Ok(()) => {
                    assert(self.written() =~= start + (seq![
                        Instr::Allocate { result: n0, data_type: type_of(e@)->0 },
                    ] + stored(into_code(e@, n0, n0 + 1))));
                    Ok(r)
                },
                Err(x) => Err(x),
            };
        }
        match e {
            Expression::I64Literal(value) => {
                let r = self.next;
                self.emit_defining(Instruction::Constant { result: r, constant: *value });
                assert(self.written() =~= start + seq![Instr::Constant { result: n0, constant: *value }]);
                Ok(r)
            },
            Expression::BinaryOperation { operation, left, right } => {
                match operation {
                    BinaryOperation::Add => {},
                    _ => {
                        return Err(e.duplicate());
                    },
                }
                let l = match self.write_expression(left) {
                    Ok(l) => l,
                    Err(x) => {
                        return Err(x);
                    },
                };
                let ghost mid = self.functions();
                let ghost after_left = self.written();
                let rr = match self.write_expression(right) {
                    Ok(rr) => rr,
                    Err(x) => {
                        proof {
                            lemma_grows_by_clones_trans(functions, mid, self.functions());
                        }
                        return Err(x);
                    },
                };
                proof {
                    lemma_grows_by_clones_trans(functions, mid, self.functions());
                }
                let ghost after_right = self.written();
                let r = self.next;
                self.emit_defining(Instruction::Add { result: r, left: l, right: rr });
                proof {
                    let lc = emitted(value_code(left@, n0));
                    let rc = emitted(value_code(right@, next_register(value_code(left@, n0))));
                    assert(after_left == start + lc);
                    assert(after_right == start + lc + rc);
                    assert(self.written() =~= start + (lc + rc + seq![
                        Instr::Add { result: r as nat, left: l as nat, right: rr as nat },
                    ]));
                }
                Ok(r)
            },
            Expression::Call { function, arguments } => {
                let f = match self.write_expression(function) {
                    Ok(f) => f,
                    Err(x) => {
                        return Err(x);
                    },
                };
                let ghost mid = self.functions();
                let ghost after_function = self.written();
                let registers = match self.write_values(arguments) {
                    Ok(registers) => registers,
                    Err(x) => {
                        proof {
                            lemma_grows_by_clones_trans(functions, mid, self.functions());
                            assert(e@ == Expr::Call {
                                function: Box::new(function@),
                                arguments: exprs_model(arguments@),
                            });
                            let i = choose|i: int|
                                0 <= i < arguments@.len() && part_of(
                                    x@,
                                    #[trigger] exprs_model(arguments@)[i],
                                );
                            lemma_exprs_model(arguments@);
                            assert(e@->arguments[i] == exprs_model(arguments@)[i]);
                            assert(part_of(x@, e@));
                        }
                        return Err(x);
                    },
                };
                proof {
                    lemma_grows_by_clones_trans(functions, mid, self.functions());
                }
                let ghost after_arguments = self.written();
                let ghost argument_registers = registers_model(registers@);
                let r = self.next;
                self.emit_defining(
                    Instruction::Call { output: Some(r), callee: Callee::Indirect(f), arguments: registers },
                );
                proof {
                    let fc = emitted(value_code(function@, n0));
                    let ac = listed_code(values_code(exprs_model(arguments@), next_register(value_code(function@, n0))));
                    assert(after_function == start + fc);
                    assert(after_arguments == start + fc + ac);
                    assert(self.written() =~= start + (fc + ac + seq![
                        Instr::Call {
                            output: Some(r as nat),
                            callee: Target::Indirect(f as nat),
                            arguments: argument_registers,
                        },
                    ]));
                }
                Ok(r)
            },
            Expression::GlobalReference { name, data_type } => {
                let r = self.next;
                match data_type {
                    DataType::Primitive(PrimitiveDataType::Function { .. }) => {
                        self.emit_defining(Instruction::FunctionAddress { result: r, name: name.clone() });
                        assert(self.written() =~= start + seq![
                            Instr::FunctionAddress { result: n0, name: name@ },
                        ]);
                    },
                    _ => {
                        let no_arguments: Vec<usize> = Vec::new();
                        self.emit_defining(
                            Instruction::Call {
                                output: Some(r),
                                callee: Callee::Direct(name.clone()),
                                arguments: no_arguments,
                            },
                        );
                        assert(registers_model(no_arguments@) =~= seq![]);
                        assert(self.written() =~= start + seq![
                            Instr::Call {
                                output: Some(n0),
                                callee: Target::Direct(name@),
                                arguments: seq![],
                            },
                        ]);
                    },
                }
                Ok(r)
            },
            Expression::FunctionParam { index, .. } => {
                let r = self.next;
                self.emit_defining(Instruction::Parameter { result: r, index: *index });
                assert(self.written() =~= start + seq![
                    Instr::Parameter { result: n0, index: *index as nat },
                ]);
                Ok(r)
            },
            Expression::MemberAccess { .. } => self.write_member_access(e, t),
            _ => Err(e.duplicate()),
        }
    }

    /// Value-mode lowering of a field access `e` of type `t`.
    fn write_member_access(&mut self, e: &Expression, t: DataType) -> (r: Result<usize, Expression>)
        requires
            old(self).wf(),
            e is MemberAccess,
            type_of(e@) == Some(t@),
            !through_storage(e@),
        ensures
            final(self).wf(),
            Self::grows_by_clones(old(self).functions(), final(self).functions()),
            match value_code(e@, old(self).next as nat) {
                Some((c, v, n)) => {
                    &&& r matches Ok(x) && x as nat == v
                    &&& final(self).written() == old(self).written() + c
                    &&& final(self).next as nat == n
                },
                None => r is Err,
            },
            r matches Err(x) ==> part_of(x@, e@) && unlowerable(x@),
        decreases e, 0nat,
    {
        let ghost start = self.written();
        let ghost functions = self.functions();
        let ghost n0 = self.next as nat;
        proof {
            lemma_grows_by_clones_refl(functions);
        }
        let (left, member) = match e {
            Expression::MemberAccess { left, member } => (left, member),
            _ => {
                return Err(e.duplicate());
            },
        };
        let left_type = match left.data_type() {
            Some(left_type) => left_type,
            None => {
                return Err(e.duplicate());
            },
        };
        let index = match left_type.field_index(member.as_str()) {
            Some(index) => index,
            None => {
                return Err(e.duplicate());
            },
        };
        let base = match self.write_expression(left) {
            Ok(base) => base,
            Err(x) => {
                return Err(x);
            },
        };
        let ghost after_left = self.written();
        let ghost lt = left_type@;
        let address = self.next;
        self.emit_defining(
            Instruction::FieldAddress { result: address, base, data_type: left_type, index },
        );
        let ghost field_address = Instr::FieldAddress {
            result: address as nat,
            base: base as nat,
            data_type: lt,
            index: index as nat,
        };
        proof {
            assert(e@ == Expr::Member { left: Box::new(left@), member: member@ });
            assert(type_of(left@) == Some(lt));
            assert(field_position(lt, member@) == Some(index as nat));
            assert(value_code(left@, n0) matches Some((_, b, n1)) && b == base as nat && n1 == address as nat);
        }
        if t.is_primitive() {
            let r = self.next;
            self.emit_defining(Instruction::Load { result: r, address, data_type: t });
            proof {
                let lc = emitted(value_code(left@, n0));
                assert(self.written() =~= start + (lc + seq![
                    field_address,
                    Instr::Load {
                        result: r as nat,
                        address: address as nat,
                        data_type: type_of(e@)->0,
                    },
                ]));
            }
            Ok(r)
        } else {
            proof {
                let lc = emitted(value_code(left@, n0));
                assert(self.written() =~= start + (lc + seq![field_address]));
            }
            Ok(address)
        }
    }

    /// Lowers each of `values` in value mode, in order, and returns their registers.
    fn write_values(&mut self, values: &Vec<Expression>) -> (r: Result<Vec<usize>, Expression>)
        requires
            old(self).wf(),
        ensures
            final(self).wf(),
            Self::grows_by_clones(old(self).functions(), final(self).functions()),
            match values_code(exprs_model(values@), old(self).next as nat) {
                Some((c, registers, n)) => {
                    &&& r matches Ok(v) && registers_model(v@) == registers
                    &&& final(self).written() == old(self).written() + c
                    &&& final(self).next as nat == n
                },
                None => r is Err,
            },
            r matches Err(x) ==> unlowerable(x@) && exists|i: int|
                0 <= i < values@.len() && part_of(x@, #[trigger] exprs_model(values@)[i]),
        decreases values, 4nat,
    {
        let ghost start = self.written();
        let ghost functions = self.functions();
        let ghost n0 = self.next as nat;
        let ghost model = exprs_model(values@);
        proof {
            lemma_exprs_model(values@);
            lemma_grows_by_clones_refl(functions);
            assert(model.subrange(0, 0) =~= seq![]);
            assert(start + seq![] =~= start);
        }
        let mut registers: Vec<usize> = Vec::new();
        let mut i: usize = 0;
        while i < values.len()
            invariant
                self.wf(),
                i <= values@.len(),
                model == exprs_model(values@),
                model.len() == values@.len(),
                forall|j: int| 0 <= j < values@.len() ==> #[trigger] model[j] == values@[j]@,
                Self::grows_by_clones(functions, self.functions()),
                functions == old(self).functions(),
                start == old(self).written(),
                n0 == old(self).next as nat,
                values_code(model.subrange(0, i as int), n0) matches Some((c, regs, n)) && start + c
                    == self.written() && regs == registers_model(registers@) && n == self.next,
            decreases values.len() - i,
        {
            assert(decreases_to!(values => values@[i as int]));
            let ghost before = self.written();
            let ghost mid = self.functions();
            let ghost prefix = model.subrange(0, i as int);
            let ghost next_prefix = model.subrange(0, i + 1 as int);
            proof {
                assert(next_prefix.drop_last() =~= prefix);
                assert(next_prefix.last() == values@[i as int]@);
            }
            match self.write_expression(&values[i]) {
                Ok(v) => {
                    proof {
                        lemma_grows_by_clones_trans(functions, mid, self.functions());
                        let (c, regs, n) = values_code(prefix, n0)->0;
                        let c1 = emitted(value_code(values@[i as int]@, n));
                        assert(self.written() == before + c1);
                        assert(self.written() =~= start + (c + c1));
                        assert(registers_model(registers@.push(v)) =~= regs.push(v as nat));
                    }
                    registers.push(v);
                },
                Err(x) => {
                    proof {
                        lemma_grows_by_clones_trans(functions, mid, self.functions());
                        assert(value_code(values@[i as int]@, next_listed(values_code(prefix, n0))) is None);
                        assert(values_code(next_prefix, n0) is None);
                        lemma_values_code_prefix(model, (i + 1) as nat, n0);
                        assert(values_code(model, n0) is None);
                        assert(Self::grows_by_clones(old(self).functions(), self.functions()));
                    }
                    return Err(x);
                },
            }
            i = i + 1;
        }
        assert(model.subrange(0, values@.len() as int) =~= model);
        Ok(registers)
    }

    /// Lowers in location mode, into the storage at register `dest`, the value
    /// of `e`.
    fn write_expression_into(&mut self, e: &Expression, dest: usize) -> (r: Result<(), Expression>)
        requires
            old(self).wf(),
        ensures
            final(self).wf(),
            Self::grows_by_clones(old(self).functions(), final(self).functions()),
            match into_code(e@, dest as nat, old(self).next as nat) {
                Some((c, n)) => {
                    &&& r is Ok
                    &&& final(self).written() == old(self).written() + c
                    &&& final(self).next as nat == n
                },
                None => r is Err,
            },
            r matches Err(x) ==> part_of(x@, e@) && unlowerable(x@),
        decreases e, 2nat,
    {
        let ghost start = self.written();
        let ghost functions = self.functions();
        let ghost n0 = self.next as nat;
        proof {
            lemma_grows_by_clones_refl(functions);
        }
        let t = match e.data_type() {
            Some(t) => t,
            None => {
                return Err(e.duplicate());
            },
        };
        if t.is_primitive() {
            let value = match self.write_expression(e) {
                Ok(value) => value,
                Err(x) => {
                    return Err(x);
                },
            };
            self.emit(Instruction::Store { address: dest, value });
            proof {
                let c = emitted(value_code(e@, n0));
                assert(self.written() =~= start + (c + seq![
                    Instr::Store { address: dest as nat, value: value as nat },
                ]));
            }
            return Ok(());
        }
        match e {
            Expression::Call { function, arguments } => {
                let f = match self.write_expression(function) {
                    Ok(f) => f,
                    Err(x) => {
                        return Err(x);
                    },
                };
                let ghost mid = self.functions();
                let ghost after_function = self.written();
                let mut registers = match self.write_values(arguments) {
                    Ok(registers) => registers,
                    Err(x) => {
                        proof {
                            lemma_grows_by_clones_trans(functions, mid, self.functions());
                            assert(e@ == Expr::Call {
                                function: Box::new(function@),
                                arguments: exprs_model(arguments@),
                            });
                            let i = choose|i: int|
                                0 <= i < arguments@.len() && part_of(
                                    x@,
                                    #[trigger] exprs_model(arguments@)[i],
                                );
                            lemma_exprs_model(arguments@);
                            assert(e@->arguments[i] == exprs_model(arguments@)[i]);
                            assert(part_of(x@, e@));
                        }
                        return Err(x);
                    },
                };
                proof {
                    lemma_grows_by_clones_trans(functions, mid, self.functions());
                }
                let ghost after_arguments = self.written();
                let ghost argument_registers = registers_model(registers@);
                registers.push(dest);
                proof {
                    assert(registers_model(registers@) =~= argument_registers.push(dest as nat));
                }
                self.emit(Instruction::Call { output: None, callee: Callee::Indirect(f), arguments: registers });
                proof {
                    let fc = emitted(value_code(function@, n0));
                    let ac = listed_code(values_code(exprs_model(arguments@), next_register(value_code(function@, n0))));
                    assert(self.written() =~= start + (fc + ac + seq![
                        Instr::Call {
                            output: None,
                            callee: Target::Indirect(f as nat),
                            arguments: argument_registers.push(dest as nat),
                        },
                    ]));
                }
                Ok(())
            },
            Expression::GlobalReference { name, .. } => {
                let arguments: Vec<usize> = vec![dest];
                assert(registers_model(arguments@) =~= seq![dest as nat]);
                self.emit(Instruction::Call { output: None, callee: Callee::Direct(name.clone()), arguments });
                Ok(())
            },
            Expression::Tuple { values } => {
                let r = self.write_fields(values, &t, dest);
                proof {
                    if r is Err {
                        let x = r->Err_0;
                        assert(e@ == Expr::Tuple { values: exprs_model(values@) });
                        let i = choose|i: int|
                            0 <= i < values@.len() && part_of(x@, #[trigger] exprs_model(values@)[i]);
                        lemma_exprs_model(values@);
                        assert(e@->values[i] == exprs_model(values@)[i]);
                        assert(part_of(x@, e@));
                    }
                }
                r
            },
            Expression::FunctionParam { .. } | Expression::MemberAccess { .. } => {
                let source = match self.write_expression(e) {
                    Ok(source) => source,
                    Err(x) => {
                        return Err(x);
                    },
                };
                let ghost mid = self.functions();
                let name = self.ensure_clone(&t);
                proof {
                    lemma_grows_by_clones_trans(functions, mid, self.functions());
                }
                let arguments: Vec<usize> = vec![source, dest];
                assert(registers_model(arguments@) =~= seq![source as nat, dest as nat]);
                self.emit(Instruction::Call { output: None, callee: Callee::Direct(name), arguments });
                proof {
                    let c = emitted(value_code(e@, n0));
                    assert(self.written() =~= start + (c + seq![
                        Instr::Call {
                            output: None,
                            callee: Target::Direct(clone_name(t@)),
                            arguments: seq![source as nat, dest as nat],
                        },
                    ]));
                }
                Ok(())
            },
            _ => Err(e.duplicate()),
        }
    }

    /// Lowers the fields `values` of a tuple of type `t` into the storage at
    /// register `dest`, each into its slot, in order.
    fn write_fields(&mut self, values: &Vec<Expression>, t: &DataType, dest: usize) -> (r: Result<(), Expression>)
        requires
            old(self).wf(),
        ensures
            final(self).wf(),
            Self::grows_by_clones(old(self).functions(), final(self).functions()),
            match fields_code(exprs_model(values@), t@, dest as nat, old(self).next as nat) {
                Some((c, n)) => {
                    &&& r is Ok
                    &&& final(self).written() == old(self).written() + c
                    &&& final(self).next as nat == n
                },
                None => r is Err,
            },
            r matches Err(x) ==> unlowerable(x@) && exists|i: int|
                0 <= i < values@.len() && part_of(x@, #[trigger] exprs_model(values@)[i]),
        decreases values, 4nat,
    {
        let ghost start = self.written();
        let ghost functions = self.functions();
        let ghost n0 = self.next as nat;
        let ghost model = exprs_model(values@);
        proof {
            lemma_exprs_model(values@);
            lemma_grows_by_clones_refl(functions);
            assert(model.subrange(0, 0) =~= seq![]);
            assert(start + seq![] =~= start);
        }
        let mut i: usize = 0;
        while i < values.len()
            invariant
                self.wf(),
                i <= values@.len(),
                model == exprs_model(values@),
                model.len() == values@.len(),
                forall|j: int| 0 <= j < values@.len() ==> #[trigger] model[j] == values@[j]@,
                Self::grows_by_clones(functions, self.functions()),
                functions == old(self).functions(),
                start == old(self).written(),
                n0 == old(self).next as nat,
                fields_code(model.subrange(0, i as int), t@, dest as nat, n0) matches Some((c, n))
                    && start + c == self.written() && n == self.next,
            decreases values.len() - i,
        {
            assert(decreases_to!(values => values@[i as int]));
            let ghost before = self.written();
            let ghost prefix = model.subrange(0, i as int);
            let ghost next_prefix = model.subrange(0, i + 1 as int);
            proof {
                assert(next_prefix.drop_last() =~= prefix);
                assert(next_prefix.last() == values@[i as int]@);
            }
            let slot = self.next;
            self.emit_defining(
                Instruction::FieldAddress { result: slot, base: dest, data_type: t.duplicate(), index: i },
            );
            let ghost mid = self.functions();
            let ghost after_address = self.written();
            match self.write_expression_into(&values[i], slot) {
                Ok(()) => {
                    proof {
                        lemma_grows_by_clones_trans(functions, mid, self.functions());
                        let (c, n) = fields_code(prefix, t@, dest as nat, n0)->0;
                        let c1 = stored(into_code(values@[i as int]@, slot as nat, slot as nat + 1));
                        let address = Instr::FieldAddress {
                            result: slot as nat,
                            base: dest as nat,
                            data_type: t@,
                            index: i as nat,
                        };
                        assert(after_address == before.push(address));
                        assert(self.written() =~= start + (c + seq![address] + c1));
                    }
                },
                Err(x) => {
                    proof {
                        lemma_grows_by_clones_trans(functions, mid, self.functions());
                        lemma_fields_code_prefix(model, t@, dest as nat, (i + 1) as nat, n0);
                    }
                    return Err(x);
                },
            }
            i = i + 1;
        }
        assert(model.subrange(0, values@.len() as int) =~= model);
        Ok(())
    }

    spec fn written(&self) -> Seq<Instr> {
        code_model(self.code@)
    }

    fn emit(&mut self, instruction: Instruction)
        requires
            old(self).wf(),
        ensures
            final(self).wf(),
            final(self).written() == old(self).written().push(instruction@),
            final(self).next == old(self).next,
            final(self).functions == old(self).functions,
            final(self).code@.len() == old(self).code@.len() + 1,
    {
        let ghost before = self.code@;
        let ghost old_self = *self;
        self.code.push(instruction);
        assert(code_model(self.code@) =~= code_model(before).push(instruction@));
        assert(self.functions() == old_self.functions());
        proof {
            Self::lemma_wf_kept(old_self, *self);
        }
    }

    /// Emits an instruction that defines register `self.next`, and moves past it.
    fn emit_defining(&mut self, instruction: Instruction)
        requires
            old(self).wf(),
        ensures
            final(self).wf(),
            final(self).written() == old(self).written().push(instruction@),
            final(self).next == old(self).next + 1,
            final(self).functions == old(self).functions,
    {
        self.emit(instruction);
        assert(self.code.len() <= usize::MAX);
        let ghost emitted_state = *self;
        self.next = self.next + 1;
        proof {
            Self::lemma_wf_kept(emitted_state, *self);
        }
    }
}

} // verus!
verus! {

/// The external signature of a global.
pub open spec fn global_signature(g: GlobalModel) -> Sig {
    abi_signature(g.arguments.map_values(|a: (Seq<char>, Ty)| a.1), g.return_type)
}

/// The function that lowers a global: its name, its signature, and the body
/// that [`definition_code`] gives.
pub open spec fn lowered_global(name: Seq<char>, g: GlobalModel) -> FunctionModel {
    FunctionModel {
        name,
        signature: global_signature(g),
        body: definition_code(global_signature(g), g.body)->0,
    }
}

/// Whether global `g` can be lowered.
pub open spec fn lowerable(g: GlobalModel) -> bool {
    definition_code(global_signature(g), g.body) is Some
}

/// Whether `t` lowers the module `m`: one function per global, in module
/// order, then copy routines only, no two alike: at most one per type.
pub open spec fn lowers(m: Seq<(Seq<char>, GlobalModel)>, t: Seq<FunctionModel>) -> bool {
    &&& m.len() <= t.len()
    &&& forall|i: int| 0 <= i < m.len() ==> #[trigger] t[i] == lowered_global(m[i].0, m[i].1)
    &&& forall|k: int| m.len() <= k < t.len() ==> exists|ty: Ty| #[trigger] t[k] == clone_routine(ty)
    &&& forall|j: int, k: int| m.len() <= j < k < t.len() ==> #[trigger] t[j] != #[trigger] t[k]
}

#[verifier::rlimit(50)]
/// Lowers every global of `module`: each is declared first, in module order,
/// then each body is written. It fails, naming a global, where one cannot be
/// lowered.
pub fn generate(module: &Module) -> (r: Result<TargetModule, LoweringError>)
    requires
        module.names_unique(),
    ensures
        r is Ok <==> forall|i: int| 0 <= i < module@.len() ==> lowerable(#[trigger] module@[i].1),
        r matches Ok(t) ==> lowers(module@, t@),
        r matches Err(e) ==> e matches LoweringError::Unsupported { global, expression } && exists|
            i: int,
        |
            0 <= i < module@.len() && #[trigger] module@[i].0 == global@ && !lowerable(module@[i].1)
                && part_of(expression@, module@[i].1.body) && (unlowerable(expression@)
                || expression@ == module@[i].1.body),
{
    let ghost m = module@;
    let n = module.globals.len();
    let mut generator = Generator::new();
    let mut i: usize = 0;
    while i < n
        invariant
            n == module.globals@.len(),
            m == module@,
            i <= n,
            generator.wf(),
            generator.functions().len() == i,
            forall|j: int|
                0 <= j < i ==> #[trigger] generator.functions()[j] == (FunctionModel {
                    name: m[j].0,
                    signature: global_signature(m[j].1),
                    body: seq![],
                }),
        decreases n - i,
    {
        let name = &module.globals[i].0;
        let global = &module.globals[i].1;
        let ghost before = generator.functions();
        assert(m[i as int] == (name@, global@));
        if global.arguments.len() == 0 {
            generator.declare_global_constant(name.clone(), &global.return_type);
            assert(global@.arguments.map_values(|a: (Seq<char>, Ty)| a.1) =~= seq![]);
        } else {
            generator.declare_global_function(name.clone(), global.arguments.as_slice(), &global.return_type);
            assert(global@.arguments.map_values(|a: (Seq<char>, Ty)| a.1) =~= argument_types(global.arguments@));
        }
        assert forall|j: int| 0 <= j < i + 1 implies #[trigger] generator.functions()[j] == (FunctionModel {
            name: m[j].0,
            signature: global_signature(m[j].1),
            body: seq![],
        }) by {
            if j < i {
                assert(generator.functions()[j] == before[j]);
            }
        }
        i = i + 1;
    }
    let mut i: usize = 0;
    while i < n
        invariant
            n == module.globals@.len(),
            m == module@,
            m.len() == n,
            module.names_unique(),
            i <= n,
            generator.wf(),
            n <= generator.functions().len(),
            forall|j: int| 0 <= j < i ==> lowerable(#[trigger] m[j].1),
            forall|j: int|
                0 <= j < i ==> #[trigger] generator.functions()[j] == lowered_global(m[j].0, m[j].1),
            forall|j: int|
                i <= j < n ==> #[trigger] generator.functions()[j] == (FunctionModel {
                    name: m[j].0,
                    signature: global_signature(m[j].1),
                    body: seq![],
                }),
            forall|k: int|
                n <= k < generator.functions().len() ==> exists|ty: Ty|
                    #[trigger] generator.functions()[k] == clone_routine(ty),
            forall|j: int, k: int|
                n <= j < k < generator.functions().len() ==> #[trigger] generator.functions()[j]
                    != #[trigger] generator.functions()[k],
        decreases n - i,
    {
        let name = &module.globals[i].0;
        let global = &module.globals[i].1;
        let ghost before = generator.functions();
        proof {
            assert(m[i as int] == (name@, global@));
            assert forall|j: int| 0 <= j < i implies before[j].name != name@ by {
                assert(m[j].0 != m[i as int].0);
            }
            lemma_function_position_at(before, name@, i as nat);
        }
        let result = if global.arguments.len() == 0 {
            if global.return_type.is_primitive() {
                generator.write_global_primitive_constant(name.as_str(), &global.body)
            } else {
                generator.write_global_nonprimitive_constant(name.as_str(), &global.body)
            }
        } else {
            generator.write_global_function(name.as_str(), &global.body)
        };
        match result {
            Ok(()) => {},
            Err(e) => {
                proof {
                    assert(!lowerable(m[i as int].1));
                }
                return Err(e);
            },
        }
        proof {
            let f = lowered_global(m[i as int].0, m[i as int].1);
            let updated = before.update(i as int, f);
            assert(before[i as int].body.len() == 0);
            assert(FunctionModel { body: definition_code(global_signature(m[i as int].1), global@.body)->0, ..before[i as int] } == f);
            let after = generator.functions();
            assert(after.subrange(0, before.len() as int) == updated);
            assert forall|j: int| 0 <= j < i + 1 implies #[trigger] after[j] == lowered_global(m[j].0, m[j].1) by {
                assert(after[j] == after.subrange(0, before.len() as int)[j]);
            }
            assert forall|j: int| i + 1 <= j < n implies #[trigger] after[j] == (FunctionModel {
                name: m[j].0,
                signature: global_signature(m[j].1),
                body: seq![],
            }) by {
                assert(after[j] == after.subrange(0, before.len() as int)[j]);
            }
            assert forall|j: int, k: int| n <= j < k < after.len() implies #[trigger] after[j]
                != #[trigger] after[k] by {
                if k < before.len() {
                    assert(after[j] == after.subrange(0, before.len() as int)[j]);
                    assert(after[k] == after.subrange(0, before.len() as int)[k]);
                    assert(updated[j] == before[j] && updated[k] == before[k]);
                }
            }
            assert forall|k: int| n <= k < after.len() implies exists|ty: Ty| #[trigger] after[k] == clone_routine(ty) by {
                if k < before.len() {
                    assert(after[k] == after.subrange(0, before.len() as int)[k]);
                    assert(after[k] == before[k]);
                    let ty = choose|ty: Ty| #[trigger] before[k] == clone_routine(ty);
                    assert(after[k] == clone_routine(ty));
                } else {
                    let ty = choose|ty: Ty| #[trigger] after[k] == clone_routine(ty);
                    assert(after[k] == clone_routine(ty));
                }
            }
        }
        i = i + 1;
    }
    let ghost functions = generator.functions();
    assert(i == n);
    assert(m.len() <= functions.len());
    assert(forall|j: int| 0 <= j < m.len() ==> #[trigger] functions[j] == lowered_global(m[j].0, m[j].1));
    assert(forall|j: int, k: int| m.len() <= j < k < functions.len() ==> #[trigger] functions[j] != #[trigger] functions[k]);
    assert forall|k: int| m.len() <= k < functions.len() implies exists|ty: Ty|
        #[trigger] functions[k] == clone_routine(ty) by {
        assert(n <= k);
        assert(exists|ty: Ty| #[trigger] functions[k] == clone_routine(ty));
    }
    assert(lowers(m, functions));
    let t = generator.build();
    Ok(t)
}

proof fn lemma_function_position_at(functions: Seq<FunctionModel>, name: Seq<char>, i: nat)
    requires
        i < functions.len(),
        functions[i as int].name == name,
        forall|j: int| 0 <= j < i ==> functions[j].name != name,
    ensures
        function_position(functions, name) == Some(i),
{
    lemma_function_search_skip(functions, name, 0, i);
}

proof fn lemma_function_search_skip(functions: Seq<FunctionModel>, name: Seq<char>, from: nat, i: nat)
    requires
        from <= i < functions.len(),
        functions[i as int].name == name,
        forall|j: int| from <= j < i ==> functions[j].name != name,
    ensures
        function_search(functions, name, from) == Some(i),
    decreases i - from,
{
    if from < i {
        lemma_function_search_skip(functions, name, from + 1, i);
    }
}

} // verus!
verus! {

/// The calling convention of every global follows its types: each parameter
/// is passed by value if its type is primitive and by pointer otherwise, and a
/// trailing output pointer is present, and no value returned, exactly when the
/// return type is composite.
pub proof fn signature_is_type_directed(g: GlobalModel)
    ensures
        ({
            let s = global_signature(g);
            &&& s.parameters.len() == g.arguments.len() + if is_primitive(g.return_type) {
                0int
            } else {
                1int
            }
            &&& forall|i: int|
                0 <= i < g.arguments.len() ==> #[trigger] s.parameters[i] == if is_primitive(
                    g.arguments[i].1,
                ) {
                    Pass::Value(g.arguments[i].1)
                } else {
                    Pass::Pointer(g.arguments[i].1)
                }
            &&& is_primitive(g.return_type) <==> s.result == Some(g.return_type)
            &&& !is_primitive(g.return_type) <==> s.parameters.last() == Pass::Pointer(
                g.return_type,
            ) && s.result is None
        }),
{
    let s = global_signature(g);
    let types = g.arguments.map_values(|a: (Seq<char>, Ty)| a.1);
    assert forall|i: int| 0 <= i < g.arguments.len() implies #[trigger] s.parameters[i] == if is_primitive(
        g.arguments[i].1,
    ) {
        Pass::Value(g.arguments[i].1)
    } else {
        Pass::Pointer(g.arguments[i].1)
    } by {
        assert(types[i] == g.arguments[i].1);
    }
    if is_primitive(g.return_type) && s.parameters.len() > 0 {
        let last = s.parameters.last();
        assert(last == passing(types.last()));
    }
}

} // verus!
