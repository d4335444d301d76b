//! Transparency of the peephole optimizer. Three results: on source text
//! without loop markers the optimized and the raw program compute exactly
//! the same tape, pointer, remaining input and output; the self-zeroing
//! loop terminates from every cell value with exactly the effect of the
//! `SetZero` operation that replaces it; and on every source text the
//! optimizer preserves well-bracketedness, so jump-table construction
//! succeeds on the optimized program exactly when it succeeds on the raw
//! one.

use vstd::prelude::*;
use vstd::arithmetic::div_mod::{
    lemma_add_mod_noop, lemma_add_mod_noop_right, lemma_mod_bound, lemma_sub_mod_noop,
    lemma_sub_mod_noop_right,
};

use crate::inst::{is_unit, lemma_lex_units, lex, Instructions};
use crate::jumps::{depth, nesting_delta, well_bracketed};
use crate::machine::{
    cell_add, cell_sub, init_state, ptr_backward, ptr_forward, step, steps_from, MState,
};
use crate::parser::{
    is_zero_idiom, lemma_run_len_bounds, mergeable, opt_units, parse_spec, run_len, same_kind,
    with_count,
};

verus! {

/// Holds of a program with no loop markers.
pub open spec fn loop_free(ops: Seq<Instructions>) -> bool {
    forall|k: int|
        0 <= k < ops.len() ==> #[trigger] ops[k] != Instructions::BeginLoop && ops[k]
            != Instructions::EndLoop
}

/// The part of the machine state that straight-line execution touches: no
/// cursor and no action count, which are the only things the optimizer may
/// legitimately change.
#[verifier::ext_equal]
pub struct TapeState {
    pub tape: Seq<u8>,
    pub ptr: int,
    pub input: Seq<u8>,
    pub output: Seq<u8>,
}

/// The effect of one non-loop operation on tape, pointer and streams.
pub open spec fn apply_op(op: Instructions, t: TapeState) -> TapeState
    recommends
        op != Instructions::BeginLoop,
        op != Instructions::EndLoop,
{
    let m = t.tape.len() as int;
    match op {
        Instructions::IncrementPointer(x) => TapeState {
            ptr: ptr_forward(t.ptr, x as int, m),
            ..t
        },
        Instructions::DecrementPointer(x) => TapeState {
            ptr: ptr_backward(t.ptr, x as int, m),
            ..t
        },
        Instructions::IncrementValue(x) => TapeState {
            tape: t.tape.update(t.ptr, cell_add(t.tape[t.ptr], x as int)),
            ..t
        },
        Instructions::DecrementValue(x) => TapeState {
            tape: t.tape.update(t.ptr, cell_sub(t.tape[t.ptr], x as int)),
            ..t
        },
        Instructions::ReadChar => if t.input.len() > 0 {
            TapeState { tape: t.tape.update(t.ptr, t.input[0]), input: t.input.skip(1), ..t }
        } else {
            t
        },
        Instructions::PrintChar => TapeState { output: t.output.push(t.tape[t.ptr]), ..t },
        Instructions::SetZero => TapeState { tape: t.tape.update(t.ptr, 0), ..t },
        _ => t,
    }
}

/// The effect of a straight-line program, folded left to right.
pub open spec fn apply_ops(ops: Seq<Instructions>, t: TapeState) -> TapeState
    decreases ops.len(),
{
    if ops.len() == 0 {
        t
    } else {
        apply_ops(ops.skip(1), apply_op(ops[0], t))
    }
}

/// The straight-line part of a machine state.
pub open spec fn proj(s: MState) -> TapeState {
    TapeState { tape: s.tape, ptr: s.ptr, input: s.input, output: s.output }
}

proof fn lemma_apply_op_wf(op: Instructions, t: TapeState)
    requires
        t.tape.len() > 0,
        0 <= t.ptr < t.tape.len(),
    ensures
        apply_op(op, t).tape.len() == t.tape.len(),
        0 <= apply_op(op, t).ptr < t.tape.len(),
{
    let m = t.tape.len() as int;
    match op {
        Instructions::IncrementPointer(x) => {
            lemma_mod_bound(t.ptr + x as int, m);
        },
        Instructions::DecrementPointer(x) => {
            lemma_mod_bound(t.ptr - x as int, m);
        },
        _ => {},
    }
}

/// On a straight-line program the machine finishes in one step per
/// operation, and its effect is the left-to-right fold of the operations.
proof fn lemma_machine_straight(prog: Seq<Instructions>, jump: Seq<usize>, s: MState)
    requires
        loop_free(prog),
        0 <= s.cursor <= prog.len(),
        s.tape.len() > 0,
        0 <= s.ptr < s.tape.len(),
    ensures
        steps_from(prog, jump, s, (prog.len() - s.cursor) as nat).cursor == prog.len(),
        proj(steps_from(prog, jump, s, (prog.len() - s.cursor) as nat)) == apply_ops(
            prog.skip(s.cursor),
            proj(s),
        ),
    decreases prog.len() - s.cursor,
{
    if s.cursor == prog.len() {
        assert(prog.skip(s.cursor) =~= Seq::<Instructions>::empty());
    } else {
        let s2 = step(prog, jump, s);
        assert(s2.cursor == s.cursor + 1);
        assert(proj(s2) =~= apply_op(prog[s.cursor], proj(s)));
        lemma_apply_op_wf(prog[s.cursor], proj(s));
        lemma_machine_straight(prog, jump, s2);
        assert(prog.skip(s.cursor).skip(1) =~= prog.skip(s.cursor + 1));
        assert(prog.skip(s.cursor)[0] == prog[s.cursor]);
        assert(steps_from(prog, jump, s, (prog.len() - s.cursor) as nat) == steps_from(
            prog,
            jump,
            s2,
            (prog.len() - s2.cursor) as nat,
        ));
    }
}

proof fn lemma_ptr_forward_compose(p: int, a: int, b: int, m: int)
    requires
        0 < m,
    ensures
        ptr_forward(ptr_forward(p, a, m), b, m) == ptr_forward(p, a + b, m),
{
    let x = p + a;
    lemma_add_mod_noop(x, b, m);
    lemma_add_mod_noop_right(x % m, b, m);
    assert(((x % m) + (b % m)) % m == (x + b) % m);
}

proof fn lemma_ptr_backward_compose(p: int, a: int, b: int, m: int)
    requires
        0 < m,
    ensures
        ptr_backward(ptr_backward(p, a, m), b, m) == ptr_backward(p, a + b, m),
{
    let x = p - a;
    lemma_sub_mod_noop(x, b, m);
    lemma_sub_mod_noop_right(x % m, b, m);
    assert(((x % m) - (b % m)) % m == (x - b) % m);
}

proof fn lemma_cell_add_compose(v: u8, a: int, b: int)
    ensures
        cell_add(cell_add(v, a), b) == cell_add(v, a + b),
{
    lemma_mod_bound(v + a, 256);
    lemma_ptr_forward_compose(v as int, a, b, 256);
}

proof fn lemma_cell_sub_compose(v: u8, a: int, b: int)
    ensures
        cell_sub(cell_sub(v, a), b) == cell_sub(v, a + b),
{
    lemma_mod_bound(v - a, 256);
    lemma_ptr_backward_compose(v as int, a, b, 256);
}

/// One unit operation followed by the same kind counted `k - 1` times has
/// the effect of that kind counted `k` times.
proof fn lemma_unit_then_counted(op: Instructions, k: int, t: TapeState)
    requires
        mergeable(op),
        is_unit(op),
        1 <= k <= usize::MAX,
        t.tape.len() > 0,
        0 <= t.ptr < t.tape.len(),
    ensures
        apply_op(with_count(op, (k - 1) as usize), apply_op(op, t)) == apply_op(
            with_count(op, k as usize),
            t,
        ),
{
    let m = t.tape.len() as int;
    let u = apply_op(op, t);
    match op {
        Instructions::IncrementPointer(_) => {
            lemma_ptr_forward_compose(t.ptr, 1, k - 1, m);
            assert(apply_op(with_count(op, (k - 1) as usize), u) =~= apply_op(
                with_count(op, k as usize),
                t,
            ));
        },
        Instructions::DecrementPointer(_) => {
            lemma_ptr_backward_compose(t.ptr, 1, k - 1, m);
            assert(apply_op(with_count(op, (k - 1) as usize), u) =~= apply_op(
                with_count(op, k as usize),
                t,
            ));
        },
        Instructions::IncrementValue(_) => {
            lemma_cell_add_compose(t.tape[t.ptr], 1, k - 1);
            assert(u.tape[t.ptr] == cell_add(t.tape[t.ptr], 1));
            assert(u.tape.update(t.ptr, cell_add(u.tape[t.ptr], k - 1)) =~= t.tape.update(
                t.ptr,
                cell_add(t.tape[t.ptr], k),
            ));
            assert(apply_op(with_count(op, (k - 1) as usize), u) =~= apply_op(
                with_count(op, k as usize),
                t,
            ));
        },
        Instructions::DecrementValue(_) => {
            lemma_cell_sub_compose(t.tape[t.ptr], 1, k - 1);
            assert(u.tape[t.ptr] == cell_sub(t.tape[t.ptr], 1));
            assert(u.tape.update(t.ptr, cell_sub(u.tape[t.ptr], k - 1)) =~= t.tape.update(
                t.ptr,
                cell_sub(t.tape[t.ptr], k),
            ));
            assert(apply_op(with_count(op, (k - 1) as usize), u) =~= apply_op(
                with_count(op, k as usize),
                t,
            ));
        },
        _ => {},
    }
}

/// A run of unit operations of one mergeable kind has the same effect as the
/// single counted operation the optimizer merges it into.
proof fn lemma_run_fold(s: Seq<Instructions>, k: int, t: TapeState)
    requires
        1 <= k <= s.len(),
        k <= usize::MAX,
        t.tape.len() > 0,
        0 <= t.ptr < t.tape.len(),
        mergeable(s[0]),
        forall|j: int| 0 <= j < k ==> same_kind(s[0], #[trigger] s[j]) || j == 0,
        forall|j: int| 0 <= j < k ==> is_unit(#[trigger] s[j]),
    ensures
        apply_ops(s.take(k), t) == apply_op(with_count(s[0], k as usize), t),
    decreases k,
{
    if k == 1 {
        assert(s.take(1)[0] == s[0]);
        assert(s.take(1).skip(1) =~= Seq::<Instructions>::empty());
        assert(with_count(s[0], 1) == s[0]);
        assert(apply_ops(Seq::<Instructions>::empty(), apply_op(s[0], t)) == apply_op(s[0], t));
    } else {
        let rest = s.skip(1);
        assert(s.take(k)[0] == s[0]);
        assert(s.take(k).skip(1) =~= rest.take(k - 1));
        assert forall|j: int| 0 <= j < k - 1 implies (same_kind(rest[0], #[trigger] rest[j]) || j
            == 0) && is_unit(rest[j]) by {
            assert(rest[j] == s[j + 1]);
        }
        lemma_apply_op_wf(s[0], t);
        lemma_run_fold(rest, k - 1, apply_op(s[0], t));
        assert(with_count(rest[0], (k - 1) as usize) == with_count(s[0], (k - 1) as usize));
        lemma_unit_then_counted(s[0], k, t);
        assert(apply_ops(s.take(k), t) == apply_ops(s.take(k).skip(1), apply_op(s[0], t)));
        assert(apply_ops(s.take(k).skip(1), apply_op(s[0], t)) == apply_ops(
            rest.take(k - 1),
            apply_op(s[0], t),
        ));
        assert(apply_ops(rest.take(k - 1), apply_op(s[0], t)) == apply_op(
            with_count(s[0], (k - 1) as usize),
            apply_op(s[0], t),
        ));
    }
}

/// The fold over a program splits at any position.
proof fn lemma_apply_split(s: Seq<Instructions>, k: int, t: TapeState)
    requires
        0 <= k <= s.len(),
    ensures
        apply_ops(s, t) == apply_ops(s.skip(k), apply_ops(s.take(k), t)),
    decreases k,
{
    if k == 0 {
        assert(s.take(0) =~= Seq::<Instructions>::empty());
        assert(s.skip(0) =~= s);
    } else {
        assert(s.take(k)[0] == s[0]);
        assert(s.take(k).skip(1) =~= s.skip(1).take(k - 1));
        assert(s.skip(1).skip(k - 1) =~= s.skip(k));
        lemma_apply_split(s.skip(1), k - 1, apply_op(s[0], t));
    }
}

/// The optimizer never introduces a loop marker.
proof fn lemma_opt_loop_free(s: Seq<Instructions>)
    requires
        loop_free(s),
    ensures
        loop_free(opt_units(s)),
    decreases s.len(),
{
    if s.len() > 0 {
        assert(!is_zero_idiom(s));
        if mergeable(s[0]) {
            lemma_run_len_bounds(s);
            let k = run_len(s);
            assert forall|j: int|
                0 <= j < s.skip(k).len() implies #[trigger] s.skip(k)[j] != Instructions::BeginLoop
                && s.skip(k)[j] != Instructions::EndLoop by {
                assert(s.skip(k)[j] == s[j + k]);
            }
            lemma_opt_loop_free(s.skip(k));
            let head = with_count(s[0], k as usize);
            assert(head != Instructions::BeginLoop && head != Instructions::EndLoop);
            assert forall|j: int|
                0 <= j < opt_units(s).len() implies #[trigger] opt_units(s)[j]
                != Instructions::BeginLoop && opt_units(s)[j] != Instructions::EndLoop by {
                if j >= 1 {
                    assert(opt_units(s)[j] == opt_units(s.skip(k))[j - 1]);
                }
            }
        } else {
            assert forall|j: int|
                0 <= j < s.skip(1).len() implies #[trigger] s.skip(1)[j] != Instructions::BeginLoop
                && s.skip(1)[j] != Instructions::EndLoop by {
                assert(s.skip(1)[j] == s[j + 1]);
            }
            lemma_opt_loop_free(s.skip(1));
            assert forall|j: int|
                0 <= j < opt_units(s).len() implies #[trigger] opt_units(s)[j]
                != Instructions::BeginLoop && opt_units(s)[j] != Instructions::EndLoop by {
                if j >= 1 {
                    assert(opt_units(s)[j] == opt_units(s.skip(1))[j - 1]);
                }
            }
        }
    }
}

/// The optimization pass preserves the straight-line fold.
proof fn lemma_opt_preserves_fold(s: Seq<Instructions>, t: TapeState)
    requires
        loop_free(s),
        forall|j: int| 0 <= j < s.len() ==> is_unit(#[trigger] s[j]),
        s.len() <= usize::MAX,
        t.tape.len() > 0,
        0 <= t.ptr < t.tape.len(),
    ensures
        apply_ops(opt_units(s), t) == apply_ops(s, t),
    decreases s.len(),
{
    if s.len() == 0 {
    } else {
        assert(!is_zero_idiom(s));
        if mergeable(s[0]) {
            lemma_run_len_bounds(s);
            let k = run_len(s);
            let head = with_count(s[0], k as usize);
            let opt_rest = opt_units(s.skip(k));
            assert((seq![head] + opt_rest)[0] == head);
            assert((seq![head] + opt_rest).skip(1) =~= opt_rest);
            lemma_run_fold(s, k, t);
            lemma_apply_split(s, k, t);
            assert forall|j: int|
                0 <= j < s.skip(k).len() implies (#[trigger] s.skip(k)[j]
                != Instructions::BeginLoop && s.skip(k)[j] != Instructions::EndLoop && is_unit(
                s.skip(k)[j],
            )) by {
                assert(s.skip(k)[j] == s[j + k]);
            }
            lemma_apply_op_wf(head, t);
            lemma_opt_preserves_fold(s.skip(k), apply_op(head, t));
        } else {
            let opt_rest = opt_units(s.skip(1));
            assert((seq![s[0]] + opt_rest)[0] == s[0]);
            assert((seq![s[0]] + opt_rest).skip(1) =~= opt_rest);
            assert forall|j: int|
                0 <= j < s.skip(1).len() implies (#[trigger] s.skip(1)[j]
                != Instructions::BeginLoop && s.skip(1)[j] != Instructions::EndLoop && is_unit(
                s.skip(1)[j],
            )) by {
                assert(s.skip(1)[j] == s[j + 1]);
            }
            lemma_apply_op_wf(s[0], t);
            lemma_opt_preserves_fold(s.skip(1), apply_op(s[0], t));
        }
    }
}

proof fn lemma_lex_len(s: Seq<char>)
    ensures
        lex(s).len() <= s.len(),
    decreases s.len(),
{
    if s.len() > 0 {
        lemma_lex_len(s.drop_last());
    }
}

proof fn lemma_bracket_free_lex(src: Seq<char>)
    requires
        forall|k: int| 0 <= k < src.len() ==> #[trigger] src[k] != '[' && src[k] != ']',
    ensures
        loop_free(lex(src)),
    decreases src.len(),
{
    if src.len() > 0 {
        let pre = src.drop_last();
        assert(forall|k: int| 0 <= k < pre.len() ==> #[trigger] pre[k] == src[k]);
        lemma_bracket_free_lex(pre);
        assert forall|j: int|
            0 <= j < lex(src).len() implies #[trigger] lex(src)[j] != Instructions::BeginLoop
            && lex(src)[j] != Instructions::EndLoop by {
            if j < lex(pre).len() {
                assert(lex(src)[j] == lex(pre)[j]);
            }
        }
    }
}

proof fn lemma_zero_loop_body(prog: Seq<Instructions>, jump: Seq<usize>, s: MState)
    requires
        prog =~= seq![
            Instructions::BeginLoop,
            Instructions::DecrementValue(1),
            Instructions::EndLoop,
        ],
        jump =~= seq![2usize, 0usize, 0usize],
        s.cursor == 1,
        s.tape.len() > 0,
        0 <= s.ptr < s.tape.len(),
        s.tape[s.ptr] >= 1,
    ensures
        ({
            let v = s.tape[s.ptr] as int;
            let f = steps_from(prog, jump, s, (2 * v) as nat);
            &&& f.cursor == 3
            &&& f.tape =~= s.tape.update(s.ptr, 0)
            &&& f.ptr == s.ptr
            &&& f.input == s.input
            &&& f.output == s.output
            &&& f.actions == s.actions + 2 * v
        }),
    decreases s.tape[s.ptr],
{
    let v = s.tape[s.ptr] as int;
    vstd::arithmetic::div_mod::lemma_small_mod((v - 1) as nat, 256);
    let s1 = step(prog, jump, s);
    assert(s1.tape =~= s.tape.update(s.ptr, (v - 1) as u8));
    assert(s1.cursor == 2);
    let s2 = step(prog, jump, s1);
    assert(s1.tape[s.ptr] == v - 1);
    assert(steps_from(prog, jump, s, (2 * v) as nat) == steps_from(
        prog,
        jump,
        s1,
        (2 * v - 1) as nat,
    ));
    assert(steps_from(prog, jump, s1, (2 * v - 1) as nat) == steps_from(
        prog,
        jump,
        s2,
        (2 * v - 2) as nat,
    ));
    if v == 1 {
        assert(s2.cursor == 3);
        assert(steps_from(prog, jump, s2, 0) == s2);
        assert(s2.tape =~= s.tape.update(s.ptr, 0));
    } else {
        assert(s2.cursor == 1);
        assert(s2.tape[s.ptr] == v - 1);
        lemma_zero_loop_body(prog, jump, s2);
        assert(s2.tape.update(s.ptr, 0) =~= s.tape.update(s.ptr, 0));
    }
}

proof fn lemma_zero_loop_body_inc(prog: Seq<Instructions>, jump: Seq<usize>, s: MState)
    requires
        prog =~= seq![
            Instructions::BeginLoop,
            Instructions::IncrementValue(1),
            Instructions::EndLoop,
        ],
        jump =~= seq![2usize, 0usize, 0usize],
        s.cursor == 1,
        s.tape.len() > 0,
        0 <= s.ptr < s.tape.len(),
        s.tape[s.ptr] >= 1,
    ensures
        ({
            let v = s.tape[s.ptr] as int;
            let f = steps_from(prog, jump, s, (2 * (256 - v)) as nat);
            &&& f.cursor == 3
            &&& f.tape =~= s.tape.update(s.ptr, 0)
            &&& f.ptr == s.ptr
            &&& f.input == s.input
            &&& f.output == s.output
            &&& f.actions == s.actions + 2 * (256 - v)
        }),
    decreases 256 - s.tape[s.ptr],
{
    let v = s.tape[s.ptr] as int;
    if v == 255 {
        vstd::arithmetic::div_mod::lemma_mod_self_0(256);
    } else {
        vstd::arithmetic::div_mod::lemma_small_mod((v + 1) as nat, 256);
    }
    let s1 = step(prog, jump, s);
    assert(s1.cursor == 2);
    let s2 = step(prog, jump, s1);
    assert(steps_from(prog, jump, s, (2 * (256 - v)) as nat) == steps_from(
        prog,
        jump,
        s1,
        (2 * (256 - v) - 1) as nat,
    ));
    assert(steps_from(prog, jump, s1, (2 * (256 - v) - 1) as nat) == steps_from(
        prog,
        jump,
        s2,
        (2 * (256 - v) - 2) as nat,
    ));
    if v == 255 {
        assert(s1.tape[s.ptr] == 0);
        assert(s2.cursor == 3);
        assert(steps_from(prog, jump, s2, 0) == s2);
        assert(s2.tape =~= s.tape.update(s.ptr, 0));
    } else {
        assert(s1.tape[s.ptr] == v + 1);
        assert(s2.cursor == 1);
        assert(s2.tape[s.ptr] == v + 1);
        lemma_zero_loop_body_inc(prog, jump, s2);
        assert(s2.tape.update(s.ptr, 0) =~= s.tape.update(s.ptr, 0));
    }
}

/// The self-zeroing loop that the optimizer collapses — a loop whose whole
/// body is one unit decrement or one unit increment — terminates from every
/// cell value and has exactly the effect of the one `SetZero` operation that
/// replaces it: the current cell becomes zero and nothing else changes. Only
/// the number of dispatched operations differs: `SetZero` takes one step,
/// the loop takes one step for a cell already at zero and otherwise two
/// steps per iteration plus the entry, the decrement variant iterating the
/// cell's value many times and the increment variant 256 minus that value.
pub proof fn lemma_self_zeroing_loop(prog: Seq<Instructions>, jump: Seq<usize>, s: MState)
    requires
        prog.len() == 3,
        is_zero_idiom(prog),
        jump =~= seq![2usize, 0usize, 0usize],
        s.cursor == 0,
        s.tape.len() > 0,
        0 <= s.ptr < s.tape.len(),
    ensures
        ({
            let v = s.tape[s.ptr] as int;
            let n: int = if v == 0 {
                1
            } else if prog[1] == Instructions::DecrementValue(1) {
                1 + 2 * v
            } else {
                1 + 2 * (256 - v)
            };
            let f = steps_from(prog, jump, s, n as nat);
            &&& f.cursor == 3
            &&& f.tape =~= s.tape.update(s.ptr, 0)
            &&& f.ptr == s.ptr
            &&& f.input == s.input
            &&& f.output == s.output
            &&& f.actions == s.actions + n
        }),
{
    let v = s.tape[s.ptr] as int;
    let s1 = step(prog, jump, s);
    if v == 0 {
        assert(s1.cursor == 3);
        assert(steps_from(prog, jump, s, 1) == steps_from(prog, jump, s1, 0));
        assert(s1.tape =~= s.tape.update(s.ptr, 0));
    } else if prog[1] == Instructions::DecrementValue(1) {
        assert(s1.cursor == 1);
        assert(prog =~= seq![
            Instructions::BeginLoop,
            Instructions::DecrementValue(1),
            Instructions::EndLoop,
        ]);
        lemma_zero_loop_body(prog, jump, s1);
        assert(steps_from(prog, jump, s, (1 + 2 * v) as nat) == steps_from(
            prog,
            jump,
            s1,
            (2 * v) as nat,
        ));
    } else {
        assert(s1.cursor == 1);
        assert(prog =~= seq![
            Instructions::BeginLoop,
            Instructions::IncrementValue(1),
            Instructions::EndLoop,
        ]);
        lemma_zero_loop_body_inc(prog, jump, s1);
        assert(steps_from(prog, jump, s, (1 + 2 * (256 - v)) as nat) == steps_from(
            prog,
            jump,
            s1,
            (2 * (256 - v)) as nat,
        ));
    }
}

/// Balanced bracket structure at open-depth `d`, checked left to right.
spec fn bal(q: Seq<Instructions>, d: int) -> bool
    decreases q.len(),
{
    if q.len() == 0 {
        d == 0
    } else if q[0] == Instructions::BeginLoop {
        bal(q.skip(1), d + 1)
    } else if q[0] == Instructions::EndLoop {
        d > 0 && bal(q.skip(1), d - 1)
    } else {
        bal(q.skip(1), d)
    }
}

proof fn lemma_bal_iff_wb(q: Seq<Instructions>, i: int)
    requires
        0 <= i <= q.len(),
        depth(q, i) >= 0,
    ensures
        bal(q.skip(i), depth(q, i)) <==> (depth(q, q.len() as int) == 0 && (forall|k: int|
            i < k <= q.len() ==> #[trigger] depth(q, k) >= 0)),
    decreases q.len() - i,
{
    if i == q.len() {
        assert(q.skip(i) =~= Seq::<Instructions>::empty());
    } else {
        assert(q.skip(i)[0] == q[i]);
        assert(q.skip(i).skip(1) =~= q.skip(i + 1));
        assert(depth(q, i + 1) == depth(q, i) + nesting_delta(q[i]));
        if q[i] == Instructions::EndLoop && depth(q, i) == 0 {
            assert(!bal(q.skip(i), depth(q, i)));
            assert(depth(q, i + 1) == -1);
        } else {
            assert(depth(q, i + 1) >= 0);
            lemma_bal_iff_wb(q, i + 1);
            assert(bal(q.skip(i), depth(q, i)) == bal(q.skip(i + 1), depth(q, i + 1)));
            if depth(q, q.len() as int) == 0 && (forall|k: int|
                i + 1 < k <= q.len() ==> #[trigger] depth(q, k) >= 0) {
                assert forall|k: int| i < k <= q.len() implies #[trigger] depth(q, k) >= 0 by {
                    if k == i + 1 {
                        assert(depth(q, i + 1) >= 0);
                    }
                }
            }
        }
    }
}

proof fn lemma_bal_skip_run(s: Seq<Instructions>, k: int, d: int)
    requires
        0 <= k <= s.len(),
        forall|j: int|
            0 <= j < k ==> #[trigger] s[j] != Instructions::BeginLoop && s[j]
                != Instructions::EndLoop,
    ensures
        bal(s, d) == bal(s.skip(k), d),
    decreases k,
{
    if k == 0 {
        assert(s.skip(0) =~= s);
    } else {
        assert(s.skip(1).skip(k - 1) =~= s.skip(k));
        assert forall|j: int|
            0 <= j < k - 1 implies #[trigger] s.skip(1)[j] != Instructions::BeginLoop && s.skip(
            1,
        )[j] != Instructions::EndLoop by {
            assert(s.skip(1)[j] == s[j + 1]);
        }
        lemma_bal_skip_run(s.skip(1), k - 1, d);
    }
}

proof fn lemma_bal_opt(s: Seq<Instructions>, d: int)
    requires
        d >= 0,
    ensures
        bal(opt_units(s), d) == bal(s, d),
    decreases s.len(),
{
    if s.len() == 0 {
    } else if is_zero_idiom(s) {
        let rest = opt_units(s.skip(3));
        assert((seq![Instructions::SetZero] + rest)[0] == Instructions::SetZero);
        assert((seq![Instructions::SetZero] + rest).skip(1) =~= rest);
        lemma_bal_opt(s.skip(3), d);
        assert(s.skip(1)[0] == s[1]);
        assert(s.skip(1).skip(1) =~= s.skip(2));
        assert(s.skip(2)[0] == s[2]);
        assert(s.skip(2).skip(1) =~= s.skip(3));
        assert(bal(s, d) == bal(s.skip(1), d + 1));
        assert(bal(s.skip(1), d + 1) == bal(s.skip(2), d + 1));
        assert(bal(s.skip(2), d + 1) == (d + 1 > 0 && bal(s.skip(3), d)));
    } else if mergeable(s[0]) {
        lemma_run_len_bounds(s);
        let k = run_len(s);
        let head = with_count(s[0], k as usize);
        let rest = opt_units(s.skip(k));
        assert(head != Instructions::BeginLoop && head != Instructions::EndLoop);
        assert((seq![head] + rest)[0] == head);
        assert((seq![head] + rest).skip(1) =~= rest);
        lemma_bal_opt(s.skip(k), d);
        assert forall|j: int|
            0 <= j < k implies #[trigger] s[j] != Instructions::BeginLoop && s[j]
            != Instructions::EndLoop by {
            assert(same_kind(s[0], s[j]) || j == 0);
        }
        lemma_bal_skip_run(s, k, d);
    } else {
        let rest = opt_units(s.skip(1));
        assert((seq![s[0]] + rest)[0] == s[0]);
        assert((seq![s[0]] + rest).skip(1) =~= rest);
        if s[0] == Instructions::BeginLoop {
            lemma_bal_opt(s.skip(1), d + 1);
        } else if s[0] == Instructions::EndLoop {
            if d > 0 {
                lemma_bal_opt(s.skip(1), d - 1);
            } else {
                assert(!bal(s, d));
                assert(!bal(opt_units(s), d));
            }
        } else {
            lemma_bal_opt(s.skip(1), d);
        }
    }
}

/// The optimizer fails transparently: the optimized program is
/// well-bracketed exactly when the raw program is, so jump-table
/// construction succeeds on the one exactly when it succeeds on the other.
pub proof fn lemma_optimize_preserves_bracketing(src: Seq<char>)
    ensures
        well_bracketed(parse_spec(src, true)) <==> well_bracketed(parse_spec(src, false)),
{
    let raw = lex(src);
    let opt = opt_units(raw);
    lemma_bal_opt(raw, 0);
    lemma_bal_iff_wb(raw, 0);
    lemma_bal_iff_wb(opt, 0);
    assert(raw.skip(0) =~= raw);
    assert(opt.skip(0) =~= opt);
    assert(depth(raw, 0) == 0);
    assert(depth(opt, 0) == 0);
    lemma_wb_positive_prefixes(raw);
    lemma_wb_positive_prefixes(opt);
}

proof fn lemma_wb_positive_prefixes(q: Seq<Instructions>)
    ensures
        well_bracketed(q) <==> (depth(q, q.len() as int) == 0 && (forall|k: int|
            0 < k <= q.len() ==> #[trigger] depth(q, k) >= 0)),
{
    if depth(q, q.len() as int) == 0 && (forall|k: int|
        0 < k <= q.len() ==> #[trigger] depth(q, k) >= 0) {
        assert forall|k: int| 0 <= k <= q.len() implies #[trigger] depth(q, k) >= 0 by {
            if k == 0 {
                assert(depth(q, 0) == 0);
            }
        }
    }
}

/// Optimization is semantically transparent on straight-line source text:
/// for source without loop-marker characters, any tape, any starting
/// pointer and any input stream, running the program parsed with
/// optimization produces exactly the tape, pointer, remaining input and
/// output of running the program parsed without it, and both runs finish
/// within one step per operation. Only the dispatched-operation count may
/// differ.
pub proof fn lemma_optimize_transparent_straight(
    src: Seq<char>,
    jump_raw: Seq<usize>,
    jump_opt: Seq<usize>,
    tape: Seq<u8>,
    p: int,
    input: Seq<u8>,
)
    requires
        forall|k: int| 0 <= k < src.len() ==> #[trigger] src[k] != '[' && src[k] != ']',
        src.len() <= usize::MAX,
        tape.len() > 0,
        0 <= p < tape.len(),
    ensures
        ({
            let raw = parse_spec(src, false);
            let opt = parse_spec(src, true);
            let f_raw = steps_from(raw, jump_raw, init_state(tape, p, input), raw.len());
            let f_opt = steps_from(opt, jump_opt, init_state(tape, p, input), opt.len());
            &&& f_raw.cursor == raw.len()
            &&& f_opt.cursor == opt.len()
            &&& f_opt.tape == f_raw.tape
            &&& f_opt.ptr == f_raw.ptr
            &&& f_opt.input == f_raw.input
            &&& f_opt.output == f_raw.output
        }),
{
    let raw = lex(src);
    let opt = opt_units(raw);
    lemma_bracket_free_lex(src);
    lemma_lex_units(src);
    lemma_lex_len(src);
    lemma_opt_loop_free(raw);
    let s0 = init_state(tape, p, input);
    lemma_machine_straight(raw, jump_raw, s0);
    lemma_machine_straight(opt, jump_opt, s0);
    lemma_opt_preserves_fold(raw, proj(s0));
    assert(raw.skip(0) =~= raw);
    assert(opt.skip(0) =~= opt);
}

} // verus!
