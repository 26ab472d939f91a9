//! The meaning of lowered code on word-addressed memory: the layout of a
//! value of each type, how a value is read back from its words, and the
//! effect of straight-line instructions. Calls and allocation are not given a
//! meaning here.

use crate::generator::clone_routine;
use crate::sir::{is_primitive, Ty};
use crate::target::Instr;
use vstd::prelude::*;

verus! {

/// The number of words a value of type `t` occupies: one for an integer or a
/// function pointer, the sum of its fields for a tuple, laid out in order.
pub open spec fn size_of(t: Ty) -> nat
    decreases t, 0nat,
{
    match t {
        Ty::Tuple { elements } => sizes_sum(elements),
        _ => 1,
    }
}

/// The words that values of the types `s`, laid out in order, occupy.
pub open spec fn sizes_sum(s: Seq<Ty>) -> nat
    decreases s, 1nat,
{
    if s.len() == 0 {
        0
    } else {
        sizes_sum(s.drop_last()) + size_of(s.last())
    }
}

/// A value as it is read from memory.
pub enum Val {
    Word(int),
    Tuple(Seq<Val>),
}

/// The value of type `t` that the words `w` hold.
pub open spec fn decode(t: Ty, w: Seq<int>) -> Val
    decreases t, 0nat,
{
    match t {
        Ty::Tuple { elements } => Val::Tuple(decode_fields(elements, w)),
        _ => Val::Word(w[0]),
    }
}

/// The values of the fields of types `s`, laid out in order in the words `w`.
pub open spec fn decode_fields(s: Seq<Ty>, w: Seq<int>) -> Seq<Val>
    decreases s, 1nat,
{
    if s.len() == 0 {
        Seq::empty()
    } else {
        let start = sizes_sum(s.drop_last());
        decode_fields(s.drop_last(), w).push(
            decode(s.last(), w.subrange(start as int, (start + size_of(s.last())) as int)),
        )
    }
}

/// The `n` words of `memory` from address `a` on.
pub open spec fn region(memory: Map<int, int>, a: int, n: nat) -> Seq<int> {
    Seq::new(n, |k: int| memory[a + k])
}

/// The value of type `t` stored at address `a`.
pub open spec fn value_at(memory: Map<int, int>, a: int, t: Ty) -> Val {
    decode(t, region(memory, a, size_of(t)))
}

/// `memory` with the `n` words from `source` on copied to `destination`.
pub open spec fn copy_words(memory: Map<int, int>, source: int, destination: int, n: nat) -> Map<
    int,
    int,
> {
    Map::new(
        |x: int| true,
        |x: int|
            if destination <= x < destination + n {
                memory[source + (x - destination)]
            } else {
                memory[x]
            },
    )
}

/// The state of a running function.
pub struct Machine {
    pub registers: Map<nat, int>,
    pub memory: Map<int, int>,
    pub parameters: Seq<int>,
}

/// The effect of one instruction. Integer addition wraps; a field address
/// is the tuple's address plus the sizes of the fields before it.
pub open spec fn step(s: Machine, i: Instr) -> Machine {
    match i {
        Instr::Constant { result, constant } => Machine {
            registers: s.registers.insert(result, constant as int),
            ..s
        },
        Instr::Add { result, left, right } => Machine {
            registers: s.registers.insert(
                result,
                (s.registers[left] + s.registers[right]) as i64 as int,
            ),
            ..s
        },
        Instr::Parameter { result, index } => Machine {
            registers: s.registers.insert(result, s.parameters[index as int]),
            ..s
        },
        Instr::FieldAddress { result, base, data_type, index } => Machine {
            registers: s.registers.insert(
                result,
                s.registers[base] + sizes_sum(data_type->elements.subrange(0, index as int)),
            ),
            ..s
        },
        Instr::Load { result, address, .. } => Machine {
            registers: s.registers.insert(result, s.memory[s.registers[address]]),
            ..s
        },
        Instr::Store { address, value } => Machine {
            memory: s.memory.insert(s.registers[address], s.registers[value]),
            ..s
        },
        Instr::Copy { destination, source, data_type } => Machine {
            memory: copy_words(
                s.memory,
                s.registers[source],
                s.registers[destination],
                size_of(data_type),
            ),
            ..s
        },
        _ => s,
    }
}

/// The state after running `code` from `s`.
pub open spec fn run(code: Seq<Instr>, s: Machine) -> Machine
    decreases code.len(),
{
    if code.len() == 0 {
        s
    } else {
        step(run(code.drop_last(), s), code.last())
    }
}

/// Copying a tuple with its copy routine into storage that does not overlap
/// the source makes the destination read back as the source value, leaves
/// the source unchanged, and does not alias: a later write anywhere in the
/// destination leaves the source value as it was.
pub proof fn clone_copies(t: Ty, memory: Map<int, int>, source: int, destination: int, at: int, word: int)
    requires
        !is_primitive(t),
        source + size_of(t) <= destination || destination + size_of(t) <= source,
    ensures
        ({
            let after = run(
                clone_routine(t).body,
                Machine { registers: Map::empty(), memory, parameters: seq![source, destination] },
            ).memory;
            &&& value_at(after, destination, t) == value_at(memory, source, t)
            &&& value_at(after, source, t) == value_at(memory, source, t)
            &&& destination <= at < destination + size_of(t) ==> value_at(
                after.insert(at, word),
                source,
                t,
            ) == value_at(memory, source, t)
        }),
{
    let body = clone_routine(t).body;
    let s0 = Machine { registers: Map::empty(), memory, parameters: seq![source, destination] };
    reveal_with_fuel(run, 5);
    assert(body.drop_last().drop_last().drop_last().drop_last() =~= seq![]);
    let n = size_of(t);
    let after = run(body, s0).memory;
    assert(after == copy_words(memory, source, destination, n));
    assert(region(after, destination, n) =~= region(memory, source, n));
    assert forall|k: int| 0 <= k < n implies #[trigger] after[source + k] == memory[source + k] by {
        assert(!(destination <= source + k < destination + n));
    }
    assert(region(after, source, n) =~= region(memory, source, n));
    if destination <= at < destination + n {
        assert forall|k: int| 0 <= k < n implies #[trigger] after.insert(at, word)[source + k]
            == memory[source + k] by {
            assert(source + k != at);
            assert(after[source + k] == memory[source + k]);
        }
        assert(region(after.insert(at, word), source, n) =~= region(memory, source, n));
    }
}

} // verus!
