use bfvm::{build_jump_table, parse, run, Instructions};

fn run_source(
    source: &str,
    optimize: bool,
    tape: Vec<u8>,
    start: usize,
    input: Vec<u8>,
) -> (Vec<u8>, usize, usize, Vec<u8>) {
    let prog = parse(source, optimize);
    let jump = build_jump_table(&prog).unwrap();
    let mut memory = tape;
    let mut out = Vec::new();
    let (actions, ptr) = run(&prog, &jump, &mut memory, start, &input, &mut out, 1_000_000)
        .expect("program did not finish within the step budget");
    (memory, ptr, actions, out)
}

#[test]
fn zero_idiom_scenario() {
    let (tape, _, actions, _) = run_source("++++[-]", true, vec![0], 0, vec![]);
    assert_eq!(tape, vec![0]);
    assert_eq!(actions, 2);
}

#[test]
fn move_scenario() {
    let (tape, ptr, actions, _) = run_source(">+<-", true, vec![5, 0], 0, vec![]);
    assert_eq!(tape, vec![4, 1]);
    assert_eq!(ptr, 0);
    assert_eq!(actions, 4);
}

#[test]
fn read_on_exhausted_input_leaves_cell_unchanged() {
    let (tape, _, _, _) = run_source(",", true, vec![9], 0, vec![]);
    assert_eq!(tape, vec![9]);
}

#[test]
fn forward_from_last_cell_wraps_to_first() {
    let (_, ptr, _, _) = run_source(">", true, vec![0, 0, 0], 2, vec![]);
    assert_eq!(ptr, 0);
}

#[test]
fn backward_from_first_cell_wraps_to_last() {
    let (_, ptr, _, _) = run_source("<", true, vec![0, 0, 0], 0, vec![]);
    assert_eq!(ptr, 2);
}

#[test]
fn forward_by_tape_length_returns_to_start() {
    let (_, ptr, _, _) = run_source(">>>", true, vec![0, 0, 0], 1, vec![]);
    assert_eq!(ptr, 1);
}

#[test]
fn increment_at_255_wraps_to_zero() {
    let (tape, _, _, _) = run_source("+", true, vec![255], 0, vec![]);
    assert_eq!(tape, vec![0]);
}

#[test]
fn decrement_at_zero_wraps_to_255() {
    let (tape, _, _, _) = run_source("-", true, vec![0], 0, vec![]);
    assert_eq!(tape, vec![255]);
}

#[test]
fn merged_count_larger_than_tape_wraps_modularly() {
    let prog = vec![Instructions::IncrementPointer(7)];
    let jump = build_jump_table(&prog).unwrap();
    let mut memory = vec![0u8, 0, 0];
    let mut out = Vec::new();
    let (_, ptr) = run(&prog, &jump, &mut memory, 0, &Vec::new(), &mut out, 100).unwrap();
    assert_eq!(ptr, 1);

    let prog = vec![Instructions::DecrementPointer(7)];
    let jump = build_jump_table(&prog).unwrap();
    let (_, ptr) = run(&prog, &jump, &mut memory, 0, &Vec::new(), &mut out, 100).unwrap();
    assert_eq!(ptr, 2);
}

#[test]
fn merged_count_larger_than_255_wraps_modularly() {
    let prog = vec![Instructions::IncrementValue(300)];
    let jump = build_jump_table(&prog).unwrap();
    let mut memory = vec![5u8];
    let mut out = Vec::new();
    run(&prog, &jump, &mut memory, 0, &Vec::new(), &mut out, 100).unwrap();
    assert_eq!(memory, vec![49]);
}

#[test]
fn print_emits_current_cell() {
    let (_, _, _, out) = run_source(".", true, vec![65], 0, vec![]);
    assert_eq!(out, vec![65]);
}

#[test]
fn read_stores_input_bytes_in_order() {
    let (tape, _, _, _) = run_source(",>,", true, vec![0, 0], 0, vec![1, 2]);
    assert_eq!(tape, vec![1, 2]);
}

#[test]
fn read_then_print_round_trips_a_byte() {
    let (tape, _, _, out) = run_source(",.", true, vec![0], 0, vec![66]);
    assert_eq!(tape, vec![66]);
    assert_eq!(out, vec![66]);
}

#[test]
fn loop_moves_value_across_cells() {
    let (tape, ptr, _, _) = run_source("+++[->+<]", false, vec![0, 0], 0, vec![]);
    assert_eq!(tape, vec![0, 3]);
    assert_eq!(ptr, 0);
}

#[test]
fn optimization_is_transparent_on_a_loopy_program() {
    let source = "++++++++[>++++++++<-]>+.";
    let raw = run_source(source, false, vec![0, 0], 0, vec![]);
    let opt = run_source(source, true, vec![0, 0], 0, vec![]);
    // tape, pointer and output agree; only the action count may differ
    assert_eq!(raw.0, opt.0);
    assert_eq!(raw.1, opt.1);
    assert_eq!(raw.3, opt.3);
    assert_eq!(opt.3, vec![65]);
}

#[test]
fn skipped_loop_counts_one_action() {
    // cell is zero, so the whole loop is skipped in one dispatched operation
    let (tape, _, actions, _) = run_source("[-]", false, vec![0], 0, vec![]);
    assert_eq!(tape, vec![0]);
    assert_eq!(actions, 1);
}

#[test]
fn infinite_loop_exhausts_step_budget() {
    let prog = parse("+[]", false);
    let jump = build_jump_table(&prog).unwrap();
    let mut memory = vec![0u8];
    let mut out = Vec::new();
    let r = run(&prog, &jump, &mut memory, 0, &Vec::new(), &mut out, 10);
    assert_eq!(r, None);
    // the tape and output stand as they do after exactly ten steps
    assert_eq!(memory, vec![1]);
    assert_eq!(out, vec![]);
}

#[test]
fn empty_program_finishes_at_once() {
    let prog = parse("", true);
    let jump = build_jump_table(&prog).unwrap();
    let mut memory = vec![7u8];
    let mut out = Vec::new();
    let r = run(&prog, &jump, &mut memory, 0, &Vec::new(), &mut out, 0);
    assert_eq!(r, Some((0, 0)));
    assert_eq!(memory, vec![7]);
}
