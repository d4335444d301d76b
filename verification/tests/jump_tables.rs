use bfvm::{build_jump_table, parse, StructuralError};

#[test]
fn nested_pairs_are_symmetric() {
    let prog = parse("[[]]", false);
    let jump = build_jump_table(&prog).unwrap();
    assert_eq!(jump, vec![3, 2, 1, 0]);
}

#[test]
fn sequential_pairs_are_symmetric() {
    let prog = parse("[][]", false);
    let jump = build_jump_table(&prog).unwrap();
    assert_eq!(jump, vec![1, 0, 3, 2]);
}

#[test]
fn non_marker_positions_hold_zero() {
    let prog = parse("+[-]+", false);
    let jump = build_jump_table(&prog).unwrap();
    assert_eq!(jump, vec![0, 3, 0, 1, 0]);
}

#[test]
fn lone_open_marker_fails() {
    let prog = parse("[", false);
    assert_eq!(
        build_jump_table(&prog),
        Err(StructuralError::UnmatchedBeginLoop(0))
    );
}

#[test]
fn lone_close_marker_fails() {
    let prog = parse("]", false);
    assert_eq!(
        build_jump_table(&prog),
        Err(StructuralError::UnmatchedEndLoop(0))
    );
}

#[test]
fn first_stray_close_is_reported() {
    let prog = parse("[]]", false);
    assert_eq!(
        build_jump_table(&prog),
        Err(StructuralError::UnmatchedEndLoop(2))
    );
}

#[test]
fn outermost_open_is_reported() {
    let prog = parse("[[]", false);
    assert_eq!(
        build_jump_table(&prog),
        Err(StructuralError::UnmatchedBeginLoop(0))
    );
}

#[test]
fn last_unclosed_open_is_reported() {
    let prog = parse("[][", false);
    assert_eq!(
        build_jump_table(&prog),
        Err(StructuralError::UnmatchedBeginLoop(2))
    );
}

#[test]
fn optimization_does_not_change_whether_resolution_fails() {
    for source in ["[[-]", "[-]]", "[->+<]", "++[--", "]["] {
        let raw_ok = build_jump_table(&parse(source, false)).is_ok();
        let opt_ok = build_jump_table(&parse(source, true)).is_ok();
        assert_eq!(raw_ok, opt_ok);
    }
}

#[test]
fn empty_program_has_empty_table() {
    let prog = parse("", false);
    assert_eq!(build_jump_table(&prog), Ok(vec![]));
}

#[test]
fn optimized_program_table_matches_its_markers() {
    let prog = parse("+++[->+<]", true);
    let jump = build_jump_table(&prog).unwrap();
    // program: IncrementValue(3) [ DecrementValue(1) IncrementPointer(1)
    //          IncrementValue(1) DecrementPointer(1) ]
    assert_eq!(jump, vec![0, 6, 0, 0, 0, 0, 1]);
}
