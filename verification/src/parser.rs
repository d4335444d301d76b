//! Translation of source text into a program: lexing followed by an optional
//! peephole-optimization pass that collapses self-zeroing loops and merges
//! runs of identical commands into counted operations.

use vstd::prelude::*;
use vstd::string::StrSliceExecFns;

use crate::inst::{char_to_inst, is_unit, lemma_lex_units, lex, Instructions};

verus! {

/// Holds of the operations that run-length merging may combine: pointer
/// movement and cell arithmetic. Loop markers, I/O and `SetZero` never merge.
pub open spec fn mergeable(op: Instructions) -> bool {
    ||| op is IncrementPointer
    ||| op is DecrementPointer
    ||| op is IncrementValue
    ||| op is DecrementValue
}

/// Holds when two operations are of the same mergeable kind.
pub open spec fn same_kind(a: Instructions, b: Instructions) -> bool {
    ||| (a is IncrementPointer && b is IncrementPointer)
    ||| (a is DecrementPointer && b is DecrementPointer)
    ||| (a is IncrementValue && b is IncrementValue)
    ||| (a is DecrementValue && b is DecrementValue)
}

/// The operation of the same kind as `op` but carrying count `n`.
pub open spec fn with_count(op: Instructions, n: usize) -> Instructions {
    match op {
        Instructions::IncrementPointer(_) => Instructions::IncrementPointer(n),
        Instructions::DecrementPointer(_) => Instructions::DecrementPointer(n),
        Instructions::IncrementValue(_) => Instructions::IncrementValue(n),
        Instructions::DecrementValue(_) => Instructions::DecrementValue(n),
        _ => op,
    }
}

/// Holds when `s` opens with the self-zeroing idiom: a loop whose whole body
/// is a single unit decrement or unit increment.
pub open spec fn is_zero_idiom(s: Seq<Instructions>) -> bool {
    &&& s.len() >= 3
    &&& s[0] == Instructions::BeginLoop
    &&& (s[1] == Instructions::DecrementValue(1) || s[1] == Instructions::IncrementValue(1))
    &&& s[2] == Instructions::EndLoop
}

/// The length of the maximal prefix of `s` whose operations are all of the
/// same mergeable kind as `s[0]`.
pub open spec fn run_len(s: Seq<Instructions>) -> int
    decreases s.len(),
{
    if s.len() == 0 {
        0
    } else if s.len() >= 2 && same_kind(s[0], s[1]) {
        1 + run_len(s.skip(1))
    } else {
        1
    }
}

pub proof fn lemma_run_len_bounds(s: Seq<Instructions>)
    requires
        s.len() > 0,
    ensures
        1 <= run_len(s) <= s.len(),
        forall|k: int| 0 <= k < run_len(s) ==> same_kind(s[0], #[trigger] s[k]) || k == 0,
        run_len(s) < s.len() ==> !same_kind(s[0], s[run_len(s)]),
    decreases s.len(),
{
    if s.len() >= 2 && same_kind(s[0], s[1]) {
        lemma_run_len_bounds(s.skip(1));
        assert forall|k: int| 0 <= k < run_len(s) implies same_kind(s[0], #[trigger] s[k]) || k == 0 by {
            if k >= 1 {
                assert(s.skip(1)[k - 1] == s[k]);
                if k >= 2 {
                    assert(same_kind(s[1], s[k]));
                }
            }
        }
        if run_len(s) < s.len() {
            assert(s.skip(1)[run_len(s) - 1] == s[run_len(s)]);
        }
    }
}

/// The optimized form of a raw (all-unit) operation sequence: one greedy,
/// non-overlapping left-to-right pass. The self-zeroing idiom is recognized
/// first; then a run of same-kind mergeable operations collapses into a
/// single operation counting the run; everything else is kept as it stands.
pub open spec fn opt_units(s: Seq<Instructions>) -> Seq<Instructions>
    decreases s.len(),
    via opt_units_dec
{
    if s.len() == 0 {
        Seq::<Instructions>::empty()
    } else if is_zero_idiom(s) {
        seq![Instructions::SetZero] + opt_units(s.skip(3))
    } else if mergeable(s[0]) {
        seq![with_count(s[0], run_len(s) as usize)] + opt_units(s.skip(run_len(s)))
    } else {
        seq![s[0]] + opt_units(s.skip(1))
    }
}

#[via_fn]
proof fn opt_units_dec(s: Seq<Instructions>) {
    if s.len() > 0 && !is_zero_idiom(s) && mergeable(s[0]) {
        lemma_run_len_bounds(s);
    }
}

/// The program that `parse` produces from source text `s`: the lexed command
/// sequence, optimized when the flag is set.
pub open spec fn parse_spec(s: Seq<char>, optimize: bool) -> Seq<Instructions> {
    if optimize {
        opt_units(lex(s))
    } else {
        lex(s)
    }
}

fn op_mergeable(op: &Instructions) -> (b: bool)
    ensures
        b == mergeable(*op),
{
    match op {
        Instructions::IncrementPointer(_) => true,
        Instructions::DecrementPointer(_) => true,
        Instructions::IncrementValue(_) => true,
        Instructions::DecrementValue(_) => true,
        _ => false,
    }
}

fn ops_same_kind(a: &Instructions, b: &Instructions) -> (r: bool)
    ensures
        r == same_kind(*a, *b),
{
    match (a, b) {
        (Instructions::IncrementPointer(_), Instructions::IncrementPointer(_)) => true,
        (Instructions::DecrementPointer(_), Instructions::DecrementPointer(_)) => true,
        (Instructions::IncrementValue(_), Instructions::IncrementValue(_)) => true,
        (Instructions::DecrementValue(_), Instructions::DecrementValue(_)) => true,
        _ => false,
    }
}

fn op_with_count(op: &Instructions, n: usize) -> (r: Instructions)
    ensures
        r == with_count(*op, n),
{
    match op {
        Instructions::IncrementPointer(_) => Instructions::IncrementPointer(n),
        Instructions::DecrementPointer(_) => Instructions::DecrementPointer(n),
        Instructions::IncrementValue(_) => Instructions::IncrementValue(n),
        Instructions::DecrementValue(_) => Instructions::DecrementValue(n),
        _ => *op,
    }
}

/// Lexes source text into the raw unit-operation sequence.
fn lex_source(program: &str) -> (r: Vec<Instructions>)
    ensures
        r@ == lex(program@),
{
    let n = program.unicode_len();
    let mut out: Vec<Instructions> = Vec::new();
    let mut i: usize = 0;
    while i < n
        invariant
            n == program@.len(),
            i <= n,
            out@ == lex(program@.subrange(0, i as int)),
        decreases n - i,
    {
        let c = program.get_char(i);
        if c == '>' {
            out.push(Instructions::IncrementPointer(1));
        } else if c == '<' {
            out.push(Instructions::DecrementPointer(1));
        } else if c == '+' {
            out.push(Instructions::IncrementValue(1));
        } else if c == '-' {
            out.push(Instructions::DecrementValue(1));
        } else if c == '[' {
            out.push(Instructions::BeginLoop);
        } else if c == ']' {
            out.push(Instructions::EndLoop);
        } else if c == ',' {
            out.push(Instructions::ReadChar);
        } else if c == '.' {
            out.push(Instructions::PrintChar);
        }
        proof {
            let pre = program@.subrange(0, i as int);
            let cur = program@.subrange(0, i + 1);
            assert(cur.drop_last() =~= pre);
            assert(cur.last() == program@[i as int]);
        }
        i = i + 1;
    }
    proof {
        assert(program@.subrange(0, n as int) =~= program@);
    }
    out
}

/// When a maximal same-kind run has been scanned, `run_len` is its length.
proof fn lemma_run_len_exact(s: Seq<Instructions>, m: int)
    requires
        1 <= m <= s.len(),
        forall|k: int| 1 <= k < m ==> same_kind(s[0], #[trigger] s[k]),
        m < s.len() ==> !same_kind(s[0], s[m]),
        mergeable(s[0]),
    ensures
        run_len(s) == m,
    decreases s.len(),
{
    if m == 1 {
        if s.len() >= 2 {
            assert(!same_kind(s[0], s[1]));
        }
    } else {
        assert(same_kind(s[0], s[1]));
        let t = s.skip(1);
        assert forall|k: int| 1 <= k < m - 1 implies same_kind(t[0], #[trigger] t[k]) by {
            assert(t[k] == s[k + 1]);
            assert(same_kind(s[0], s[k + 1]));
        }
        assert(m - 1 < t.len() ==> !same_kind(t[0], t[m - 1]));
        lemma_run_len_exact(t, m - 1);
    }
}

/// The single optimization pass over a raw unit-operation sequence.
fn optimize_ops(raw: &Vec<Instructions>) -> (r: Vec<Instructions>)
    requires
        forall|k: int| 0 <= k < raw@.len() ==> is_unit(#[trigger] raw@[k]),
    ensures
        r@ == opt_units(raw@),
{
    let mut out: Vec<Instructions> = Vec::new();
    let mut i: usize = 0;
    proof {
        assert(raw@.skip(0) =~= raw@);
        assert(out@ + opt_units(raw@) =~= opt_units(raw@));
    }
    while i < raw.len()
        invariant
            i <= raw.len(),
            forall|k: int| 0 <= k < raw@.len() ==> is_unit(#[trigger] raw@[k]),
            out@ + opt_units(raw@.skip(i as int)) == opt_units(raw@),
        decreases raw.len() - i,
    {
        let ghost rest = raw@.skip(i as int);
        let a = raw[i];
        let rem = raw.len() - i;
        if rem >= 3 && a == Instructions::BeginLoop && (raw[i + 1]
            == Instructions::DecrementValue(1) || raw[i + 1] == Instructions::IncrementValue(1))
            && raw[i + 2] == Instructions::EndLoop {
            out.push(Instructions::SetZero);
            proof {
                assert(is_zero_idiom(rest));
                assert(rest.skip(3) =~= raw@.skip(i + 3));
                assert(out@ + opt_units(raw@.skip(i + 3)) =~= opt_units(raw@));
            }
            i = i + 3;
        } else if op_mergeable(&raw[i]) {
            let mut j = i + 1;
            while j < raw.len() && ops_same_kind(&a, &raw[j])
                invariant
                    i < j <= raw.len(),
                    a == raw@[i as int],
                    forall|k: int| i < k < j ==> same_kind(a, #[trigger] raw@[k]),
                decreases raw.len() - j,
            {
                j = j + 1;
            }
            let merged = op_with_count(&a, j - i);
            out.push(merged);
            proof {
                assert(!is_zero_idiom(rest));
                assert forall|k: int| 1 <= k < j - i implies same_kind(
                    rest[0],
                    #[trigger] rest[k],
                ) by {
                    assert(rest[k] == raw@[i + k]);
                }
                assert(j < raw.len() ==> rest[j - i] == raw@[j as int]);
                lemma_run_len_exact(rest, j - i);
                assert(is_unit(rest[0]));
                assert(rest.skip(j - i) =~= raw@.skip(j as int));
                assert(out@ + opt_units(raw@.skip(j as int)) =~= opt_units(raw@));
            }
            i = j;
        } else {
            out.push(a);
            proof {
                assert(!is_zero_idiom(rest));
                assert(!mergeable(rest[0]));
                assert(rest.skip(1) =~= raw@.skip(i + 1));
                assert(out@ + opt_units(raw@.skip(i + 1)) =~= opt_units(raw@));
            }
            i = i + 1;
        }
    }
    proof {
        assert(raw@.skip(raw@.len() as int) =~= Seq::<Instructions>::empty());
        assert(out@ =~= opt_units(raw@));
    }
    out
}

/// Translates source text into a program: every command character becomes one
/// unit operation in source order, every other character is dropped as a
/// comment, and, when `optimize` is set, the single peephole pass is applied.
/// Lexing never fails.
pub fn parse(program: &str, optimize: bool) -> (r: Vec<Instructions>)
    ensures
        r@ == parse_spec(program@, optimize),
{
    let raw = lex_source(program);
    if optimize {
        proof {
            lemma_lex_units(program@);
        }
        optimize_ops(&raw)
    } else {
        raw
    }
}

/// Inserting a comment character anywhere in source text changes neither the
/// raw nor the optimized program: the programs lexed from `before + after`
/// and from `before + c + after` coincide.
pub proof fn lemma_comment_transparent(
    before: Seq<char>,
    c: char,
    after: Seq<char>,
    optimize: bool,
)
    requires
        char_to_inst(c) is None,
    ensures
        parse_spec(before + seq![c] + after, optimize) == parse_spec(before + after, optimize),
{
    lemma_lex_insert(before, c, after);
}

/// Holds of the eight characters that denote an operation.
pub open spec fn is_command(c: char) -> bool {
    char_to_inst(c) is Some
}

/// The program depends on the command characters alone: source text and the
/// subsequence of its command characters lex, and therefore parse, to the
/// same program, whatever stands between the commands.
pub proof fn lemma_comments_irrelevant(s: Seq<char>, optimize: bool)
    ensures
        parse_spec(s, optimize) == parse_spec(s.filter(|c: char| is_command(c)), optimize),
{
    lemma_lex_filter(s);
}

proof fn lemma_lex_filter(s: Seq<char>)
    ensures
        lex(s.filter(|c: char| is_command(c))) == lex(s),
    decreases s.len(),
{
    reveal(Seq::filter);
    if s.len() > 0 {
        let pre = s.drop_last();
        lemma_lex_filter(pre);
        let fpre = pre.filter(|c: char| is_command(c));
        if is_command(s.last()) {
            assert(s.filter(|c: char| is_command(c)) == fpre.push(s.last()));
            assert(fpre.push(s.last()).drop_last() =~= fpre);
            assert(fpre.push(s.last()).last() == s.last());
        } else {
            assert(s.filter(|c: char| is_command(c)) == fpre);
            assert(lex(s) =~= lex(pre));
        }
    }
}

proof fn lemma_lex_insert(before: Seq<char>, c: char, after: Seq<char>)
    requires
        char_to_inst(c) is None,
    ensures
        lex(before + seq![c] + after) == lex(before + after),
    decreases after.len(),
{
    if after.len() == 0 {
        assert((before + seq![c] + after) =~= before + seq![c]);
        assert((before + seq![c]).drop_last() =~= before);
        assert((before + seq![c]).last() == c);
        assert(lex(before + seq![c]) == lex(before));
        assert((before + after) =~= before);
    } else {
        let whole = before + seq![c] + after;
        assert(whole.drop_last() =~= before + seq![c] + after.drop_last());
        assert(whole.last() == after.last());
        lemma_lex_insert(before, c, after.drop_last());
        let plain = before + after;
        assert(plain.drop_last() =~= before + after.drop_last());
        assert(plain.last() == after.last());
    }
}

} // verus!
