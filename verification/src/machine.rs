//! The execution engine: a small-step machine over a fixed circular byte
//! tape, an input stream and an output stream, dispatching one operation per
//! step and following the jump table at loop markers.

use vstd::prelude::*;
use vstd::arithmetic::div_mod::{
    lemma_add_mod_noop, lemma_mod_add_multiples_vanish, lemma_mod_bound, lemma_small_mod,
    lemma_sub_mod_noop,
};

use crate::inst::Instructions;
use crate::jumps::{is_match, jump_table_for};

verus! {

/// The whole state of one run: the tape of byte cells, the pointer into it,
/// the instruction cursor, the input not yet consumed, the output emitted so
/// far, and the count of operations dispatched so far.
#[verifier::ext_equal]
pub struct MState {
    pub tape: Seq<u8>,
    pub ptr: int,
    pub cursor: int,
    pub input: Seq<u8>,
    pub output: Seq<u8>,
    pub actions: nat,
}

/// The pointer after moving forward by `x` over a tape of length `m`,
/// wrapping circularly.
pub open spec fn ptr_forward(p: int, x: int, m: int) -> int {
    (p + x) % m
}

/// The pointer after moving backward by `x` over a tape of length `m`,
/// wrapping circularly.
pub open spec fn ptr_backward(p: int, x: int, m: int) -> int {
    (p - x) % m
}

/// A cell after adding `x`, wrapping at 256.
pub open spec fn cell_add(v: u8, x: int) -> u8 {
    (((v as int) + x) % 256) as u8
}

/// A cell after subtracting `x`, wrapping below zero.
pub open spec fn cell_sub(v: u8, x: int) -> u8 {
    (((v as int) - x) % 256) as u8
}

/// The state at the start of a run: cursor at the first operation, nothing
/// read, nothing written, no operation dispatched.
pub open spec fn init_state(tape: Seq<u8>, ptr: int, input: Seq<u8>) -> MState {
    MState { tape: tape, ptr: ptr, cursor: 0, input: input, output: Seq::<u8>::empty(), actions: 0 }
}

/// One dispatch step of the machine: executes the operation under the
/// cursor. Every operation, a jump not taken included, counts as one action.
/// `BeginLoop` skips to just past its partner when the cell is zero;
/// `EndLoop` returns to just past its partner when the cell is non-zero.
/// `ReadChar` on an exhausted input leaves the cell unchanged.
pub open spec fn step(prog: Seq<Instructions>, jump: Seq<usize>, s: MState) -> MState
    recommends
        0 <= s.cursor < prog.len(),
        s.tape.len() > 0,
        0 <= s.ptr < s.tape.len(),
{
    let m = s.tape.len() as int;
    match prog[s.cursor] {
        Instructions::IncrementPointer(x) => MState {
            ptr: ptr_forward(s.ptr, x as int, m),
            cursor: s.cursor + 1,
            actions: s.actions + 1,
            ..s
        },
        Instructions::DecrementPointer(x) => MState {
            ptr: ptr_backward(s.ptr, x as int, m),
            cursor: s.cursor + 1,
            actions: s.actions + 1,
            ..s
        },
        Instructions::IncrementValue(x) => MState {
            tape: s.tape.update(s.ptr, cell_add(s.tape[s.ptr], x as int)),
            cursor: s.cursor + 1,
            actions: s.actions + 1,
            ..s
        },
        Instructions::DecrementValue(x) => MState {
            tape: s.tape.update(s.ptr, cell_sub(s.tape[s.ptr], x as int)),
            cursor: s.cursor + 1,
            actions: s.actions + 1,
            ..s
        },
        Instructions::BeginLoop => MState {
            cursor: if s.tape[s.ptr] == 0 {
                jump[s.cursor] + 1
            } else {
                s.cursor + 1
            },
            actions: s.actions + 1,
            ..s
        },
        Instructions::EndLoop => MState {
            cursor: if s.tape[s.ptr] != 0 {
                jump[s.cursor] + 1
            } else {
                s.cursor + 1
            },
            actions: s.actions + 1,
            ..s
        },
        Instructions::ReadChar => if s.input.len() > 0 {
            MState {
                tape: s.tape.update(s.ptr, s.input[0]),
                input: s.input.skip(1),
                cursor: s.cursor + 1,
                actions: s.actions + 1,
                ..s
            }
        } else {
            MState { cursor: s.cursor + 1, actions: s.actions + 1, ..s }
        },
        Instructions::PrintChar => MState {
            output: s.output.push(s.tape[s.ptr]),
            cursor: s.cursor + 1,
            actions: s.actions + 1,
            ..s
        },
        Instructions::SetZero => MState {
            tape: s.tape.update(s.ptr, 0),
            cursor: s.cursor + 1,
            actions: s.actions + 1,
            ..s
        },
    }
}

/// The state after at most `n` dispatch steps: stepping stops early when the
/// cursor leaves the program, so a finished state absorbs further steps.
pub open spec fn steps_from(prog: Seq<Instructions>, jump: Seq<usize>, s: MState, n: nat) -> MState
    decreases n,
{
    if n == 0 {
        s
    } else if 0 <= s.cursor < prog.len() {
        steps_from(prog, jump, step(prog, jump, s), (n - 1) as nat)
    } else {
        s
    }
}

/// Unfolds one step at the end of a stepping chain instead of the front.
pub proof fn lemma_steps_snoc(prog: Seq<Instructions>, jump: Seq<usize>, s: MState, n: nat)
    ensures
        steps_from(prog, jump, s, n + 1) == (if 0 <= steps_from(prog, jump, s, n).cursor
            < prog.len() {
            step(prog, jump, steps_from(prog, jump, s, n))
        } else {
            steps_from(prog, jump, s, n)
        }),
    decreases n,
{
    if n == 0 {
        assert(steps_from(prog, jump, s, 1) == (if 0 <= s.cursor < prog.len() {
            steps_from(prog, jump, step(prog, jump, s), 0)
        } else {
            s
        }));
    } else if 0 <= s.cursor < prog.len() {
        lemma_steps_snoc(prog, jump, step(prog, jump, s), (n - 1) as nat);
        assert(steps_from(prog, jump, s, n + 1) == steps_from(
            prog,
            jump,
            step(prog, jump, s),
            ((n + 1) - 1) as nat,
        ));
        assert(steps_from(prog, jump, s, n) == steps_from(
            prog,
            jump,
            step(prog, jump, s),
            (n - 1) as nat,
        ));
    } else {
        assert(steps_from(prog, jump, s, n + 1) == s);
        assert(steps_from(prog, jump, s, n) == s);
    }
}

/// Once the cursor has left the program, further steps change nothing.
pub proof fn lemma_steps_stable(
    prog: Seq<Instructions>,
    jump: Seq<usize>,
    s: MState,
    n: nat,
    m: nat,
)
    requires
        n <= m,
        !(0 <= steps_from(prog, jump, s, n).cursor < prog.len()),
    ensures
        steps_from(prog, jump, s, m) == steps_from(prog, jump, s, n),
    decreases n,
{
    if n == 0 {
        assert(steps_from(prog, jump, s, m) == s);
    } else if 0 <= s.cursor < prog.len() {
        lemma_steps_stable(prog, jump, step(prog, jump, s), (n - 1) as nat, (m - 1) as nat);
    } else {
        assert(steps_from(prog, jump, s, n) == s);
        assert(steps_from(prog, jump, s, m) == s);
    }
}

/// Pointer movement wraps circularly: a pointer on the last cell moved
/// forward by one lands on the first cell, a pointer on the first cell moved
/// backward by one lands on the last cell, and moving forward by the whole
/// tape length lands back on the starting cell.
pub proof fn lemma_pointer_wraparound(prog: Seq<Instructions>, jump: Seq<usize>, s: MState)
    requires
        0 <= s.cursor < prog.len(),
        s.tape.len() > 0,
        0 <= s.ptr < s.tape.len(),
    ensures
        prog[s.cursor] == Instructions::IncrementPointer(1) && s.ptr == s.tape.len() - 1 ==> step(
            prog,
            jump,
            s,
        ).ptr == 0,
        prog[s.cursor] == Instructions::DecrementPointer(1) && s.ptr == 0 ==> step(prog, jump, s).ptr
            == s.tape.len() - 1,
        prog[s.cursor] matches Instructions::IncrementPointer(x) && x == s.tape.len() ==> step(
            prog,
            jump,
            s,
        ).ptr == s.ptr,
{
    let m = s.tape.len() as int;
    lemma_mod_add_multiples_vanish(0, m);
    lemma_small_mod(0, m as nat);
    lemma_mod_add_multiples_vanish(-1, m);
    lemma_small_mod((m - 1) as nat, m as nat);
    lemma_mod_add_multiples_vanish(s.ptr, m);
    lemma_small_mod(s.ptr as nat, m as nat);
}

/// Cell arithmetic wraps at the byte range: a cell at 255 incremented by one
/// becomes 0, and a cell at 0 decremented by one becomes 255.
pub proof fn lemma_cell_wraparound(prog: Seq<Instructions>, jump: Seq<usize>, s: MState)
    requires
        0 <= s.cursor < prog.len(),
        s.tape.len() > 0,
        0 <= s.ptr < s.tape.len(),
    ensures
        prog[s.cursor] == Instructions::IncrementValue(1) && s.tape[s.ptr] == 255 ==> step(
            prog,
            jump,
            s,
        ).tape[s.ptr] == 0,
        prog[s.cursor] == Instructions::DecrementValue(1) && s.tape[s.ptr] == 0 ==> step(
            prog,
            jump,
            s,
        ).tape[s.ptr] == 255,
{
    lemma_mod_add_multiples_vanish(0, 256);
    lemma_small_mod(0, 256);
    lemma_mod_add_multiples_vanish(-1, 256);
    lemma_small_mod(255, 256);
}

/// The overflow-free pointer advance agrees with modular addition.
proof fn lemma_ptr_forward_exec(p: int, x: int, m: int)
    requires
        0 <= p < m,
        0 <= x,
    ensures
        ptr_forward(p, x, m) == (if p + x % m >= m {
            p + x % m - m
        } else {
            p + x % m
        }),
        0 <= ptr_forward(p, x, m) < m,
{
    let r = x % m;
    lemma_mod_bound(x, m);
    lemma_small_mod(p as nat, m as nat);
    lemma_add_mod_noop(p, x, m);
    lemma_small_mod(r as nat, m as nat);
    assert((p + x) % m == (p + r) % m);
    if p + r >= m {
        lemma_mod_add_multiples_vanish(p + r - m, m);
        lemma_small_mod((p + r - m) as nat, m as nat);
    } else {
        lemma_small_mod((p + r) as nat, m as nat);
    }
}

/// The overflow-free pointer retreat agrees with modular subtraction.
proof fn lemma_ptr_backward_exec(p: int, x: int, m: int)
    requires
        0 <= p < m,
        0 <= x,
    ensures
        ptr_backward(p, x, m) == (if x % m > p {
            m - (x % m - p)
        } else {
            p - x % m
        }),
        0 <= ptr_backward(p, x, m) < m,
{
    let r = x % m;
    lemma_mod_bound(x, m);
    lemma_small_mod(p as nat, m as nat);
    lemma_small_mod(r as nat, m as nat);
    lemma_sub_mod_noop(p, x, m);
    assert((p - x) % m == (p - r) % m);
    if r > p {
        lemma_mod_add_multiples_vanish(p - r, m);
        lemma_small_mod((p - r + m) as nat, m as nat);
    } else {
        lemma_small_mod((p - r) as nat, m as nat);
    }
}

/// Wrapping byte addition of a reduced count agrees with `cell_add`.
proof fn lemma_cell_add_exec(v: u8, x: int)
    requires
        0 <= x,
    ensures
        cell_add(v, x) == vstd::wrapping::u8_specs::wrapping_add(v, (x % 256) as u8),
{
    let r = x % 256;
    lemma_mod_bound(x, 256);
    lemma_small_mod(v as nat, 256);
    lemma_add_mod_noop(v as int, x, 256);
    lemma_small_mod(r as nat, 256);
    assert((v + x) % 256 == (v + r) % 256);
    if v + r >= 256 {
        lemma_mod_add_multiples_vanish(v + r - 256, 256);
        lemma_small_mod((v + r - 256) as nat, 256);
    } else {
        lemma_small_mod((v + r) as nat, 256);
    }
}

/// Executes the program against the tape, consuming `input` and collecting
/// output, for at most `step_limit` dispatch steps. The tape, the output and
/// the result are exactly those of the small-step machine: when the program
/// finishes within the budget the result carries the count of dispatched
/// operations and the final pointer; otherwise the call returns `None` and
/// leaves the tape and output as they stand after `step_limit` steps. The
/// tape must be non-empty and the jump table must belong to the program.
#[verifier::loop_isolation(false)]
pub fn run(
    inst: &Vec<Instructions>,
    jump: &Vec<usize>,
    memory: &mut Vec<u8>,
    idx: usize,
    input: &Vec<u8>,
    out: &mut Vec<u8>,
    step_limit: usize,
) -> (r: Option<(usize, usize)>)
    requires
        old(memory)@.len() > 0,
        idx < old(memory)@.len(),
        jump_table_for(inst@, jump@),
    ensures
        ({
            let g = steps_from(
                inst@,
                jump@,
                init_state(old(memory)@, idx as int, input@),
                step_limit as nat,
            );
            &&& final(memory)@ == g.tape
            &&& final(out)@ == old(out)@ + g.output
            &&& (r is Some <==> g.cursor == inst@.len())
            &&& (r matches Some(res) ==> res.0 == g.actions && res.1 == g.ptr)
        }),
{
    let n = inst.len();
    let mut i: usize = 0;
    let mut ptr: usize = idx;
    let mut in_pos: usize = 0;
    let mut steps: usize = 0;
    let ghost init = init_state(memory@, idx as int, input@);
    let ghost mut cur = init;
    proof {
        assert(cur.input =~= input@.subrange(0, input@.len() as int));
        assert(out@ =~= old(out)@ + cur.output);
    }
    while i < n && steps < step_limit
        invariant
            i <= n,
            steps <= step_limit,
            memory@.len() == old(memory)@.len(),
            ptr < memory@.len(),
            in_pos <= input@.len(),
            cur == steps_from(inst@, jump@, init, steps as nat),
            cur.tape == memory@,
            cur.ptr == ptr as int,
            cur.cursor == i as int,
            cur.input == input@.subrange(in_pos as int, input@.len() as int),
            out@ == old(out)@ + cur.output,
            cur.actions == steps as nat,
        decreases step_limit - steps,
    {
        let ghost prev = cur;
        proof {
            lemma_steps_snoc(inst@, jump@, init, steps as nat);
            cur = step(inst@, jump@, prev);
        }
        let op = inst[i];
        match op {
            Instructions::IncrementPointer(x) => {
                let m = memory.len();
                let r = x % m;
                proof {
                    lemma_ptr_forward_exec(ptr as int, x as int, m as int);
                }
                ptr = if ptr >= m - r {
                    ptr - (m - r)
                } else {
                    ptr + r
                };
                i = i + 1;
            },
            Instructions::DecrementPointer(x) => {
                let m = memory.len();
                let r = x % m;
                proof {
                    lemma_ptr_backward_exec(ptr as int, x as int, m as int);
                }
                ptr = if r > ptr {
                    m - (r - ptr)
                } else {
                    ptr - r
                };
                i = i + 1;
            },
            Instructions::IncrementValue(x) => {
                let v = memory[ptr];
                proof {
                    lemma_cell_add_exec(v, x as int);
                }
                memory[ptr] = v.wrapping_add((x % 256) as u8);
                i = i + 1;
            },
            Instructions::DecrementValue(x) => {
                let v = memory[ptr];
                proof {
                    lemma_cell_sub_exec(v, x as int);
                }
                memory[ptr] = v.wrapping_sub((x % 256) as u8);
                i = i + 1;
            },
            Instructions::BeginLoop => {
                proof {
                    assert(is_match(inst@, i as int, jump@[i as int] as int));
                }
                if memory[ptr] == 0 {
                    i = jump[i] + 1;
                } else {
                    i = i + 1;
                }
            },
            Instructions::EndLoop => {
                proof {
                    assert(is_match(inst@, jump@[i as int] as int, i as int));
                }
                if memory[ptr] != 0 {
                    i = jump[i] + 1;
                } else {
                    i = i + 1;
                }
            },
            Instructions::ReadChar => {
                proof {
                    assert(prev.input.len() == input@.len() - in_pos);
                    if prev.input.len() > 0 {
                        assert(prev.input[0] == input@[in_pos as int]);
                        assert(prev.input.skip(1) =~= input@.subrange(
                            in_pos + 1,
                            input@.len() as int,
                        ));
                    }
                }
                if in_pos < input.len() {
                    memory[ptr] = input[in_pos];
                    in_pos = in_pos + 1;
                }
                i = i + 1;
            },
            Instructions::PrintChar => {
                proof {
                    assert((old(out)@ + prev.output).push(prev.tape[prev.ptr]) =~= old(out)@
                        + prev.output.push(prev.tape[prev.ptr]));
                }
                out.push(memory[ptr]);
                i = i + 1;
            },
            Instructions::SetZero => {
                memory[ptr] = 0;
                i = i + 1;
            },
        }
        steps = steps + 1;
    }
    if i == n {
        proof {
            lemma_steps_stable(inst@, jump@, init, steps as nat, step_limit as nat);
        }
        Some((steps, ptr))
    } else {
        None
    }
}

/// Wrapping byte subtraction of a reduced count agrees with `cell_sub`.
proof fn lemma_cell_sub_exec(v: u8, x: int)
    requires
        0 <= x,
    ensures
        cell_sub(v, x) == vstd::wrapping::u8_specs::wrapping_sub(v, (x % 256) as u8),
{
    let r = x % 256;
    lemma_mod_bound(x, 256);
    lemma_small_mod(v as nat, 256);
    lemma_sub_mod_noop(v as int, x, 256);
    lemma_small_mod(r as nat, 256);
    assert((v - x) % 256 == (v - r) % 256);
    if r > v {
        lemma_mod_add_multiples_vanish(v - r, 256);
        lemma_small_mod((v - r + 256) as nat, 256);
    } else {
        lemma_small_mod((v - r) as nat, 256);
    }
}

} // verus!
