//! The lowered module that the code generator produces: functions over
//! numbered registers and word-addressed memory, each with a signature that
//! says which values cross the call boundary in a register and which through
//! a pointer. It is what a native backend consumes.

use crate::sir::{is_primitive, DataType, Ty};
use vstd::prelude::*;

verus! {

/// How one parameter crosses a call boundary.
#[derive(Debug)]
pub enum Passing {
    /// The value itself, in a register.
    ByValue(DataType),
    /// A pointer to storage that holds a value of the type.
    ByPointer(DataType),
}

/// Model of a [`Passing`].
pub enum Pass {
    Value(Ty),
    Pointer(Ty),
}

/// The external signature of a lowered function.
#[derive(Debug)]
pub struct Signature {
    pub parameters: Vec<Passing>,
    /// The type of the returned value; `None` where nothing is returned.
    pub result: Option<DataType>,
}

/// Model of a [`Signature`].
pub struct Sig {
    pub parameters: Seq<Pass>,
    pub result: Option<Ty>,
}

#[derive(Debug)]
pub enum Callee {
    /// The function of that name.
    Direct(String),
    /// The function whose address the register holds.
    Indirect(usize),
}

/// Model of a [`Callee`].
pub enum Target {
    Direct(Seq<char>),
    Indirect(nat),
}

/// One step of a lowered function. Registers are numbered from zero in the
/// order in which they are defined; each is written once.
#[derive(Debug)]
pub enum Instruction {
    Constant { result: usize, constant: i64 },
    /// Integer addition that wraps on overflow.
    Add { result: usize, left: usize, right: usize },
    /// The function's parameter at `index`.
    Parameter { result: usize, index: u32 },
    FunctionAddress { result: usize, name: String },
    Call { output: Option<usize>, callee: Callee, arguments: Vec<usize> },
    /// Fresh storage for a value of the type, owned by the running function.
    Allocate { result: usize, data_type: DataType },
    /// The address of field `index` of the tuple of type `data_type` at `base`.
    FieldAddress { result: usize, base: usize, data_type: DataType, index: usize },
    Load { result: usize, address: usize, data_type: DataType },
    Store { address: usize, value: usize },
    /// Copies a whole value of the type from `source` to `destination`.
    Copy { destination: usize, source: usize, data_type: DataType },
    Return { returned: Option<usize> },
}

/// Model of an [`Instruction`].
pub enum Instr {
    Constant { result: nat, constant: i64 },
    Add { result: nat, left: nat, right: nat },
    Parameter { result: nat, index: nat },
    FunctionAddress { result: nat, name: Seq<char> },
    Call { output: Option<nat>, callee: Target, arguments: Seq<nat> },
    Allocate { result: nat, data_type: Ty },
    FieldAddress { result: nat, base: nat, data_type: Ty, index: nat },
    Load { result: nat, address: nat, data_type: Ty },
    Store { address: nat, value: nat },
    Copy { destination: nat, source: nat, data_type: Ty },
    Return { returned: Option<nat> },
}

/// A function of the lowered module; its body is empty until it is defined.
#[derive(Debug)]
pub struct Function {
    pub name: String,
    pub signature: Signature,
    pub body: Vec<Instruction>,
}

/// Model of a [`Function`].
pub struct FunctionModel {
    pub name: Seq<char>,
    pub signature: Sig,
    pub body: Seq<Instr>,
}

/// The lowered module: its functions, in the order they were declared.
#[derive(Debug)]
pub struct TargetModule {
    pub functions: Vec<Function>,
}

impl View for Passing {
    type V = Pass;

    open spec fn view(&self) -> Pass {
        match self {
            Passing::ByValue(t) => Pass::Value(t@),
            Passing::ByPointer(t) => Pass::Pointer(t@),
        }
    }
}

impl View for Signature {
    type V = Sig;

    open spec fn view(&self) -> Sig {
        Sig {
            parameters: self.parameters@.map_values(|p: Passing| p@),
            result: match self.result {
                Some(t) => Some(t@),
                None => None,
            },
        }
    }
}

impl View for Callee {
    type V = Target;

    open spec fn view(&self) -> Target {
        match self {
            Callee::Direct(name) => Target::Direct(name@),
            Callee::Indirect(r) => Target::Indirect(*r as nat),
        }
    }
}

/// The registers of a list, as numbers.
pub open spec fn registers_model(s: Seq<usize>) -> Seq<nat> {
    s.map_values(|r: usize| r as nat)
}

/// The model of an optional register.
pub open spec fn register_model(r: Option<usize>) -> Option<nat> {
    match r {
        Some(r) => Some(r as nat),
        None => None,
    }
}

impl View for Instruction {
    type V = Instr;

    open spec fn view(&self) -> Instr {
        match self {
            Instruction::Constant { result, constant } => Instr::Constant { result: *result as nat, constant: *constant },
            Instruction::Add { result, left, right } => Instr::Add {
                result: *result as nat,
                left: *left as nat,
                right: *right as nat,
            },
            Instruction::Parameter { result, index } => Instr::Parameter {
                result: *result as nat,
                index: *index as nat,
            },
            Instruction::FunctionAddress { result, name } => Instr::FunctionAddress {
                result: *result as nat,
                name: name@,
            },
            Instruction::Call { output, callee, arguments } => Instr::Call {
                output: register_model(*output),
                callee: callee@,
                arguments: registers_model(arguments@),
            },
            Instruction::Allocate { result, data_type } => Instr::Allocate {
                result: *result as nat,
                data_type: data_type@,
            },
            Instruction::FieldAddress { result, base, data_type, index } => Instr::FieldAddress {
                result: *result as nat,
                base: *base as nat,
                data_type: data_type@,
                index: *index as nat,
            },
            Instruction::Load { result, address, data_type } => Instr::Load {
                result: *result as nat,
                address: *address as nat,
                data_type: data_type@,
            },
            Instruction::Store { address, value } => Instr::Store {
                address: *address as nat,
                value: *value as nat,
            },
            Instruction::Copy { destination, source, data_type } => Instr::Copy {
                destination: *destination as nat,
                source: *source as nat,
                data_type: data_type@,
            },
            Instruction::Return { returned } => Instr::Return { returned: register_model(*returned) },
        }
    }
}

/// The models of a list of instructions.
pub open spec fn code_model(s: Seq<Instruction>) -> Seq<Instr> {
    s.map_values(|i: Instruction| i@)
}

impl View for Function {
    type V = FunctionModel;

    open spec fn view(&self) -> FunctionModel {
        FunctionModel { name: self.name@, signature: self.signature@, body: code_model(self.body@) }
    }
}

impl View for TargetModule {
    type V = Seq<FunctionModel>;

    open spec fn view(&self) -> Seq<FunctionModel> {
        self.functions@.map_values(|f: Function| f@)
    }
}

} // verus!
