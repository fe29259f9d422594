//! The virtual machine: executes one chunk's instruction sequence against
//! an explicit operand stack, to a terminal value or a terminal failure.

use crate::chunk::{Chunk, Opcode};
use crate::value::{
    add_bits, div_bits, literal_bits, literal_value, mul_bits, negate_bits, sub_bits, value_add,
    value_div, value_mul, value_negate, value_sub, Value,
};
use vstd::prelude::*;

verus! {

/// The closed set of execution failures, each fatal to the current run.
/// `Compile` marks a failed compilation upstream of the machine;
/// `StdinError` an interactive input failure outside this core.
#[derive(Debug, Clone, Copy, PartialEq, Eq, Structural)]
pub enum InterpretError {
    Compile,
    Runtime,
    StackUnderflow,
    StdinError,
}

/// The value a binary instruction pushes, with the operand that was popped
/// second — the one deeper in the stack — as the left-hand side.
pub open spec fn binop_bits(op: Opcode, lhs: Value, rhs: Value) -> Value {
    match op {
        Opcode::Add => add_bits(lhs, rhs),
        Opcode::Sub => sub_bits(lhs, rhs),
        Opcode::Mul => mul_bits(lhs, rhs),
        Opcode::Div => div_bits(lhs, rhs),
        _ => arbitrary(),
    }
}

/// What executing `code` from instruction pointer `ip` against `stack`
/// yields. The pointer only ever moves forward by one: running off the end
/// without a `Return` is a `Runtime` fault, as is a `Constant` operand
/// outside the pool; popping an empty stack is a `StackUnderflow`; `Return`
/// pops one value and yields it.
pub open spec fn vm_result(
    code: Seq<Opcode>,
    values: Seq<Value>,
    stack: Seq<Value>,
    ip: int,
) -> Result<Value, InterpretError>
    decreases code.len() - ip,
{
    if ip < 0 || ip >= code.len() {
        Err(InterpretError::Runtime)
    } else {
        match code[ip] {
            Opcode::Return => {
                if stack.len() == 0 {
                    Err(InterpretError::StackUnderflow)
                } else {
                    Ok(stack.last())
                }
            },
            Opcode::Negate => {
                if stack.len() == 0 {
                    Err(InterpretError::StackUnderflow)
                } else {
                    vm_result(
                        code,
                        values,
                        stack.update(stack.len() - 1, negate_bits(stack.last())),
                        ip + 1,
                    )
                }
            },
            Opcode::Add | Opcode::Sub | Opcode::Mul | Opcode::Div => {
                if stack.len() < 2 {
                    Err(InterpretError::StackUnderflow)
                } else {
                    let rhs = stack.last();
                    let lhs = stack[stack.len() - 2];
                    vm_result(
                        code,
                        values,
                        stack.take(stack.len() - 2).push(binop_bits(code[ip], lhs, rhs)),
                        ip + 1,
                    )
                }
            },
            Opcode::Constant(idx) => {
                if idx < values.len() {
                    vm_result(code, values, stack.push(values[idx as int]), ip + 1)
                } else {
                    Err(InterpretError::Runtime)
                }
            },
            Opcode::Literal(n) => {
                vm_result(code, values, stack.push(literal_bits(n)), ip + 1)
            },
        }
    }
}

/// A run can succeed only through `Return`: executing a chunk that holds no
/// `Return` instruction yields a failure from any state — in particular, a
/// fault once the pointer passes the end of the code — never a value.
pub proof fn lemma_no_return_never_succeeds(
    code: Seq<Opcode>,
    values: Seq<Value>,
    stack: Seq<Value>,
    ip: int,
)
    requires
        forall|k: int| 0 <= k < code.len() ==> !(#[trigger] code[k] is Return),
    ensures
        vm_result(code, values, stack, ip) is Err,
    decreases code.len() - ip,
{
    if 0 <= ip < code.len() {
        match code[ip] {
            Opcode::Negate => {
                if stack.len() > 0 {
                    lemma_no_return_never_succeeds(
                        code,
                        values,
                        stack.update(stack.len() - 1, negate_bits(stack.last())),
                        ip + 1,
                    );
                }
            },
            Opcode::Add | Opcode::Sub | Opcode::Mul | Opcode::Div => {
                if stack.len() >= 2 {
                    lemma_no_return_never_succeeds(
                        code,
                        values,
                        stack.take(stack.len() - 2).push(
                            binop_bits(code[ip], stack[stack.len() - 2], stack.last()),
                        ),
                        ip + 1,
                    );
                }
            },
            Opcode::Constant(idx) => {
                if idx < values.len() {
                    lemma_no_return_never_succeeds(code, values, stack.push(values[idx as int]), ip + 1);
                }
            },
            Opcode::Literal(n) => {
                lemma_no_return_never_succeeds(code, values, stack.push(literal_bits(n)), ip + 1);
            },
            Opcode::Return => {},
        }
    }
}

/// The machine: exclusive owner of one chunk and of a growable operand
/// stack. A run consumes the machine, so a second run takes a fresh
/// machine and chunk.
#[derive(Debug)]
pub struct VirtualMachine {
    pub chunk: Chunk,
    pub stack: Vec<Value>,
}

impl VirtualMachine {
    /// A machine over `chunk` with an empty operand stack.
    pub fn new(chunk: Chunk) -> (vm: VirtualMachine)
        ensures
            vm.chunk == chunk,
            vm.stack@ =~= Seq::<Value>::empty(),
    {
        VirtualMachine { chunk, stack: Vec::with_capacity(256) }
    }

    /// Pop the right-hand operand and combine it into the left-hand operand
    /// beneath it, in place. Popping from an empty stack at either step is a
    /// stack underflow; the first pop's effect remains.
    pub fn exec_binop(stack: &mut Vec<Value>, op: &Opcode) -> (r: Result<(), InterpretError>)
        requires
            op is Add || op is Sub || op is Mul || op is Div,
        ensures
            ({
                let s0 = old(stack)@;
                if s0.len() == 0 {
                    &&& r == Err::<(), InterpretError>(InterpretError::StackUnderflow)
                    &&& final(stack)@ == s0
                } else if s0.len() == 1 {
                    &&& r == Err::<(), InterpretError>(InterpretError::StackUnderflow)
                    &&& final(stack)@ == s0.take(0)
                } else {
                    &&& r == Ok::<(), InterpretError>(())
                    &&& final(stack)@ == s0.take(s0.len() - 2).push(
                        binop_bits(*op, s0[s0.len() - 2], s0.last()),
                    )
                }
            }),
    {
        let a = match stack.pop() {
            Some(a) => a,
            None => return Err(InterpretError::StackUnderflow),
        };
        let n = stack.len();
        if n == 0 {
            proof {
                assert(final(stack)@ =~= old(stack)@.take(0));
            }
            return Err(InterpretError::StackUnderflow);
        }
        let b = stack[n - 1];
        let c = match op {
            Opcode::Add => value_add(b, a),
            Opcode::Sub => value_sub(b, a),
            Opcode::Div => value_div(b, a),
            Opcode::Mul => value_mul(b, a),
            _ => unreached(),
        };
        stack[n - 1] = c;
        proof {
            assert(final(stack)@ =~= old(stack)@.take(old(stack)@.len() - 2).push(
                binop_bits(*op, old(stack)@[old(stack)@.len() - 2], old(stack)@.last()),
            ));
        }
        Ok(())
    }

    /// Execute the chunk from offset 0 until a `Return` yields a value or a
    /// fault ends the run; the machine is consumed either way.
    #[verifier::loop_isolation(false)]
    pub fn run(self) -> (r: Result<Value, InterpretError>)
        ensures
            r == vm_result(self.chunk.code@, self.chunk.values@, self.stack@, 0),
    {
        let chunk = self.chunk;
        let mut stack = self.stack;
        let ghost code = chunk.code@;
        let ghost values = chunk.values@;
        let ghost s0 = stack@;
        let n = chunk.code.len();
        let mut ip: usize = 0;
        loop
            invariant
                ip <= n,
                n == code.len(),
                chunk.code@ == code,
                chunk.values@ == values,
                vm_result(code, values, stack@, ip as int) == vm_result(code, values, s0, 0),
            decreases n - ip,
        {
            if ip >= n {
                return Err(InterpretError::Runtime);
            }
            let op = chunk.code[ip];
            match op {
                Opcode::Return => {
                    match stack.pop() {
                        Some(v) => return Ok(v),
                        None => return Err(InterpretError::StackUnderflow),
                    }
                },
                Opcode::Negate => {
                    let depth = stack.len();
                    if depth == 0 {
                        return Err(InterpretError::StackUnderflow);
                    }
                    let ghost pre = stack@;
                    let v = stack[depth - 1];
                    stack[depth - 1] = value_negate(v);
                    proof {
                        assert(stack@ =~= pre.update(pre.len() - 1, negate_bits(pre.last())));
                    }
                },
                Opcode::Add | Opcode::Sub | Opcode::Mul | Opcode::Div => {
                    match Self::exec_binop(&mut stack, &op) {
                        Ok(_) => {},
                        Err(e) => {
                            return Err(e);
                        },
                    }
                },
                Opcode::Constant(idx) => {
                    if (idx as usize) < chunk.values.len() {
                        let v = chunk.values[idx as usize];
                        stack.push(v);
                    } else {
                        return Err(InterpretError::Runtime);
                    }
                },
                Opcode::Literal(lit) => {
                    stack.push(literal_value(lit));
                },
            }
            ip = ip + 1;
        }
    }
}

} // verus!
