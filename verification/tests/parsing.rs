use bfvm::{parse, Instructions};

#[test]
fn optimized_zero_idiom_program() {
    let prog = parse("++++[-]", true);
    assert_eq!(
        prog,
        vec![Instructions::IncrementValue(4), Instructions::SetZero]
    );
}

#[test]
fn optimized_move_program() {
    let prog = parse(">+<-", true);
    assert_eq!(
        prog,
        vec![
            Instructions::IncrementPointer(1),
            Instructions::IncrementValue(1),
            Instructions::DecrementPointer(1),
            Instructions::DecrementValue(1),
        ]
    );
}

#[test]
fn unoptimized_keeps_unit_operations() {
    let prog = parse("++++[-]", false);
    assert_eq!(
        prog,
        vec![
            Instructions::IncrementValue(1),
            Instructions::IncrementValue(1),
            Instructions::IncrementValue(1),
            Instructions::IncrementValue(1),
            Instructions::BeginLoop,
            Instructions::DecrementValue(1),
            Instructions::EndLoop,
        ]
    );
}

#[test]
fn comments_are_dropped() {
    let with_comments = parse("a+ b+ this is a comment!\n\t", false);
    assert_eq!(
        with_comments,
        vec![Instructions::IncrementValue(1), Instructions::IncrementValue(1)]
    );
}

#[test]
fn comment_insertion_changes_nothing() {
    assert_eq!(parse("+ + x+", true), parse("+++", true));
    assert_eq!(parse("+ + x+", false), parse("+++", false));
}

#[test]
fn zero_idiom_increment_variant() {
    assert_eq!(parse("[+]", true), vec![Instructions::SetZero]);
}

#[test]
fn zero_idiom_inside_outer_loop() {
    assert_eq!(
        parse("[[-]]", true),
        vec![
            Instructions::BeginLoop,
            Instructions::SetZero,
            Instructions::EndLoop,
        ]
    );
}

#[test]
fn longer_loop_body_is_not_an_idiom() {
    assert_eq!(
        parse("[--]", true),
        vec![
            Instructions::BeginLoop,
            Instructions::DecrementValue(2),
            Instructions::EndLoop,
        ]
    );
}

#[test]
fn runs_merge_per_kind() {
    assert_eq!(
        parse(">>><<<", true),
        vec![
            Instructions::IncrementPointer(3),
            Instructions::DecrementPointer(3),
        ]
    );
}

#[test]
fn different_kinds_do_not_merge() {
    assert_eq!(
        parse("+->", true),
        vec![
            Instructions::IncrementValue(1),
            Instructions::DecrementValue(1),
            Instructions::IncrementPointer(1),
        ]
    );
}

#[test]
fn io_operations_terminate_runs() {
    assert_eq!(
        parse("++.++,++", true),
        vec![
            Instructions::IncrementValue(2),
            Instructions::PrintChar,
            Instructions::IncrementValue(2),
            Instructions::ReadChar,
            Instructions::IncrementValue(2),
        ]
    );
}

#[test]
fn empty_source_gives_empty_program() {
    assert_eq!(parse("", true), vec![]);
    assert_eq!(parse("", false), vec![]);
    assert_eq!(parse("no commands at all", true), vec![]);
}
