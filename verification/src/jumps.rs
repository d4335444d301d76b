//! Loop resolution: one linear pass over a program that matches every
//! `BeginLoop` with its `EndLoop` partner and records the pair in a
//! bidirectional jump table, or reports the first structural fault.

use vstd::prelude::*;

use crate::inst::Instructions;

verus! {

/// A program whose loop markers do not pair up has no well-defined control
/// flow; the variant names the kind of fault and the offending position.
#[derive(Debug, PartialEq, Eq, Structural, Copy, Clone)]
pub enum StructuralError {
    /// A `BeginLoop` at the given position is never closed.
    UnmatchedBeginLoop(usize),
    /// An `EndLoop` at the given position closes nothing.
    UnmatchedEndLoop(usize),
}

/// How one operation changes the loop-nesting depth.
pub open spec fn nesting_delta(op: Instructions) -> int {
    match op {
        Instructions::BeginLoop => 1,
        Instructions::EndLoop => -1,
        _ => 0,
    }
}

/// The loop-nesting depth in front of position `i`: the number of `BeginLoop`
/// minus the number of `EndLoop` operations among the first `i` operations.
pub open spec fn depth(prog: Seq<Instructions>, i: int) -> int
    decreases i,
{
    if i <= 0 {
        0
    } else {
        depth(prog, i - 1) + nesting_delta(prog[i - 1])
    }
}

/// Holds of a program whose loop markers form a balanced, well-nested
/// structure: the depth never goes negative and ends at zero.
pub open spec fn well_bracketed(prog: Seq<Instructions>) -> bool {
    &&& forall|i: int| 0 <= i <= prog.len() ==> #[trigger] depth(prog, i) >= 0
    &&& depth(prog, prog.len() as int) == 0
}

/// Holds when positions `b` and `e` are a structurally matched loop pair:
/// `e` is the first position at which the depth returns to its level in
/// front of `b`.
pub open spec fn is_match(prog: Seq<Instructions>, b: int, e: int) -> bool {
    &&& 0 <= b < e < prog.len()
    &&& prog[b] == Instructions::BeginLoop
    &&& prog[e] == Instructions::EndLoop
    &&& depth(prog, e + 1) == depth(prog, b)
    &&& forall|k: int| b < k <= e ==> #[trigger] depth(prog, k) > depth(prog, b)
}

/// Holds of the jump table that belongs to `prog`: defined exactly at loop
/// markers, mapping each one to its structural partner, symmetrically.
pub open spec fn jump_table_for(prog: Seq<Instructions>, jump: Seq<usize>) -> bool {
    &&& jump.len() == prog.len()
    &&& forall|b: int|
        0 <= b < prog.len() && prog[b] == Instructions::BeginLoop ==> is_match(
            prog,
            b,
            #[trigger] jump[b] as int,
        ) && jump[jump[b] as int] == b
    &&& forall|e: int|
        0 <= e < prog.len() && prog[e] == Instructions::EndLoop ==> is_match(
            prog,
            #[trigger] jump[e] as int,
            e,
        ) && jump[jump[e] as int] == e
    &&& forall|i: int|
        0 <= i < prog.len() && #[trigger] prog[i] != Instructions::BeginLoop && prog[i]
            != Instructions::EndLoop ==> jump[i] == 0
}

/// Two matched pairs never overlap without nesting: a pair that begins
/// inside another pair also ends inside it.
pub proof fn lemma_pairs_nested(prog: Seq<Instructions>, b1: int, e1: int, b2: int, e2: int)
    requires
        is_match(prog, b1, e1),
        is_match(prog, b2, e2),
        b1 < b2 < e1,
    ensures
        b1 < b2 < e2 < e1,
{
    if e2 > e1 {
        assert(depth(prog, e1 + 1) > depth(prog, b2));
        assert(depth(prog, b2) > depth(prog, b1));
        assert(depth(prog, e1 + 1) == depth(prog, b1));
    } else if e2 == e1 {
        assert(depth(prog, e1 + 1) == depth(prog, b1));
        assert(depth(prog, e2 + 1) == depth(prog, b2));
        assert(depth(prog, b2) > depth(prog, b1));
    }
}

/// A loop marker has at most one structural partner, so a program has at
/// most one jump table.
pub proof fn lemma_match_unique(prog: Seq<Instructions>, b: int, e1: int, e2: int)
    requires
        is_match(prog, b, e1),
        is_match(prog, b, e2),
    ensures
        e1 == e2,
{
    if e1 < e2 {
        assert(depth(prog, e1 + 1) > depth(prog, b));
    }
    if e2 < e1 {
        assert(depth(prog, e2 + 1) > depth(prog, b));
    }
}

/// Scans the program once, pairing loop markers through a stack of pending
/// `BeginLoop` positions. Succeeds exactly on well-bracketed programs and
/// returns the bidirectional jump table; otherwise reports the fault: the
/// first `EndLoop` that closes nothing, or, when every prefix balances, the
/// outermost `BeginLoop` left open.
pub fn build_jump_table(inst: &Vec<Instructions>) -> (r: Result<Vec<usize>, StructuralError>)
    ensures
        r matches Ok(jump) ==> jump_table_for(inst@, jump@),
        r is Ok <==> well_bracketed(inst@),
        r matches Err(StructuralError::UnmatchedEndLoop(p)) ==> 0 <= p < inst@.len() && depth(
            inst@,
            p + 1,
        ) == -1 && (forall|k: int| 0 <= k <= p ==> #[trigger] depth(inst@, k) >= 0),
        r matches Err(StructuralError::UnmatchedBeginLoop(p)) ==> 0 <= p < inst@.len() && inst@[p
            as int] == Instructions::BeginLoop && depth(inst@, p as int) == 0 && (forall|k: int|
            p < k <= inst@.len() ==> #[trigger] depth(inst@, k) > 0) && (forall|k: int|
            0 <= k <= inst@.len() ==> #[trigger] depth(inst@, k) >= 0),
{
    let n = inst.len();
    let mut stack: Vec<usize> = Vec::new();
    let mut jump: Vec<usize> = Vec::new();
    let mut i: usize = 0;
    while i < n
        invariant
            i <= n,
            jump@.len() == i,
            forall|p: int| 0 <= p < i ==> #[trigger] jump@[p] == 0,
        decreases n - i,
    {
        jump.push(0);
        i = i + 1;
    }
    i = 0;
    while i < n
        invariant
            n == inst@.len(),
            i <= n,
            jump@.len() == n,
            stack@.len() == depth(inst@, i as int),
            forall|k: int| 0 <= k <= i ==> #[trigger] depth(inst@, k) >= 0,
            forall|j: int|
                0 <= j < stack@.len() ==> #[trigger] stack@[j] < i && inst@[stack@[j] as int]
                    == Instructions::BeginLoop && depth(inst@, stack@[j] as int) == j
                    && jump@[stack@[j] as int] == 0,
            forall|j: int, k: int|
                #![trigger stack@[j], depth(inst@, k)]
                0 <= j < stack@.len() && stack@[j] < k <= i ==> depth(inst@, k) > j,
            forall|b: int|
                0 <= b < i && inst@[b] == Instructions::BeginLoop && !stack@.contains(b as usize)
                    ==> is_match(inst@, b, #[trigger] jump@[b] as int) && jump@[b] < i
                    && jump@[jump@[b] as int] == b,
            forall|e: int|
                0 <= e < i && inst@[e] == Instructions::EndLoop ==> is_match(
                    inst@,
                    #[trigger] jump@[e] as int,
                    e,
                ) && jump@[jump@[e] as int] == e,
            forall|p: int|
                0 <= p < inst@.len() && #[trigger] inst@[p] != Instructions::BeginLoop && inst@[p]
                    != Instructions::EndLoop ==> jump@[p] == 0,
            forall|p: int| i <= p < inst@.len() ==> #[trigger] jump@[p] == 0,
        decreases n - i,
    {
        let op = inst[i];
        match op {
            Instructions::BeginLoop => {
                let ghost old_stack = stack@;
                stack.push(i);
                proof {
                    assert(stack@[stack@.len() - 1] == i);
                    assert forall|b: int|
                        0 <= b < i + 1 && inst@[b] == Instructions::BeginLoop && !stack@.contains(
                            b as usize,
                        ) implies is_match(inst@, b, #[trigger] jump@[b] as int) && jump@[b] < i + 1
                        && jump@[jump@[b] as int] == b by {
                        assert(b != i as int);
                        assert(!old_stack.contains(b as usize)) by {
                            if old_stack.contains(b as usize) {
                                let j = choose|j: int|
                                    0 <= j < old_stack.len() && old_stack[j] == b as usize;
                                assert(stack@[j] == b as usize);
                            }
                        }
                    }
                }
            },
            Instructions::EndLoop => {
                if stack.len() == 0 {
                    proof {
                        assert(depth(inst@, i + 1) == -1);
                        assert(!well_bracketed(inst@));
                    }
                    return Err(StructuralError::UnmatchedEndLoop(i));
                }
                let ghost old_stack = stack@;
                let ghost old_jump = jump@;
                let b = stack.pop().unwrap();
                jump[i] = b;
                jump[b] = i;
                proof {
                    let bi = b as int;
                    let ii = i as int;
                    assert(old_stack[old_stack.len() - 1] == b);
                    assert(depth(inst@, bi) == old_stack.len() - 1);
                    assert(depth(inst@, ii + 1) == depth(inst@, bi));
                    assert(stack@ =~= old_stack.subrange(0, old_stack.len() - 1));
                    // positions other than i and b keep their old jump entry
                    assert(forall|x: int|
                        0 <= x < n && x != ii && x != bi ==> #[trigger] jump@[x] == old_jump[x]);
                    assert(jump@[ii] == b && jump@[bi] == i);
                    // the popped pair is a structural match
                    assert(is_match(inst@, bi, ii)) by {
                        assert(forall|k: int|
                            bi < k <= ii ==> #[trigger] depth(inst@, k) > old_stack.len() - 1);
                    }
                    // previously matched opening markers are untouched
                    assert forall|x: int|
                        0 <= x < i + 1 && inst@[x] == Instructions::BeginLoop && !stack@.contains(
                            x as usize,
                        ) implies is_match(inst@, x, #[trigger] jump@[x] as int) && jump@[x] < i + 1
                        && jump@[jump@[x] as int] == x by {
                        if x == bi {
                            assert(jump@[bi] == i);
                        } else {
                            assert(x < ii);
                            assert(!old_stack.contains(x as usize)) by {
                                if old_stack.contains(x as usize) {
                                    let j = choose|j: int|
                                        0 <= j < old_stack.len() && old_stack[j] == x as usize;
                                    assert(j < old_stack.len() - 1);
                                    assert(stack@[j] == x as usize);
                                }
                            }
                            assert(jump@[x] == old_jump[x]);
                            let e = old_jump[x] as int;
                            assert(is_match(inst@, x, e));
                            assert(e != ii && e != bi) by {
                                assert(inst@[e] == Instructions::EndLoop);
                                assert(inst@[bi] == Instructions::BeginLoop);
                            }
                            assert(jump@[e] == old_jump[e]);
                        }
                    }
                    // previously matched closing markers are untouched
                    assert forall|e: int|
                        0 <= e < i + 1 && inst@[e] == Instructions::EndLoop implies is_match(
                        inst@,
                        #[trigger] jump@[e] as int,
                        e,
                    ) && jump@[jump@[e] as int] == e by {
                        if e == ii {
                            assert(jump@[ii] == b && jump@[bi] == i);
                        } else {
                            assert(jump@[e] == old_jump[e]);
                            let x = old_jump[e] as int;
                            assert(is_match(inst@, x, e));
                            assert(x != ii) by {
                                assert(inst@[x] == Instructions::BeginLoop);
                            }
                            assert(x != bi) by {
                                if x == bi {
                                    assert(old_jump[bi] == e);
                                    assert(old_jump[bi] == 0);
                                    assert(e > bi >= 0);
                                }
                            }
                            assert(jump@[x] == old_jump[x]);
                        }
                    }
                }
            },
            _ => {},
        }
        i = i + 1;
    }
    if stack.len() > 0 {
        let p = stack[0];
        proof {
            assert(depth(inst@, n as int) == stack@.len() > 0);
            assert(!well_bracketed(inst@));
            assert(stack@[0] == p);
            assert(depth(inst@, p as int) == 0);
        }
        return Err(StructuralError::UnmatchedBeginLoop(p));
    }
    proof {
        assert(forall|b: int|
            0 <= b < n && inst@[b] == Instructions::BeginLoop ==> !stack@.contains(b as usize));
    }
    Ok(jump)
}

} // verus!
