use bf_jit::instruction::Instruction;
use bf_jit::parser::{optimize_loop, parse, ParseError};

#[test]
fn run_length_folding() {
    let prog = parse(b"+++>><--", false).unwrap();
    assert_eq!(
        prog,
        vec![
            Instruction::Increment(3),
            Instruction::Forward(2),
            Instruction::Back(1),
            Instruction::Decrement(2),
        ]
    );
}

#[test]
fn single_commands() {
    let prog = parse(b"+-<>.,", false).unwrap();
    assert_eq!(
        prog,
        vec![
            Instruction::Increment(1),
            Instruction::Decrement(1),
            Instruction::Back(1),
            Instruction::Forward(1),
            Instruction::Print,
            Instruction::Read,
        ]
    );
}

#[test]
fn comments_between_runs_are_invisible() {
    let with_comments = parse(b"abc+++xyz>> def,!\n.", false).unwrap();
    let bare = parse(b"+++>>,.", false).unwrap();
    assert_eq!(with_comments, bare);
}

#[test]
fn comment_only_source_is_empty() {
    assert_eq!(parse(b"hello world 123", false).unwrap(), vec![]);
    assert_eq!(parse(b"", false).unwrap(), vec![]);
}

#[test]
fn empty_loop_is_elided() {
    assert_eq!(
        parse(b"+[]+", false).unwrap(),
        vec![Instruction::Increment(1), Instruction::Increment(1)]
    );
    assert_eq!(parse(b"[]", false).unwrap(), vec![]);
}

#[test]
fn zero_cell_idiom() {
    assert_eq!(parse(b"[-]", false).unwrap(), vec![Instruction::SetToZero]);
    assert_eq!(
        parse(b"+[-]", false).unwrap(),
        vec![Instruction::Increment(1), Instruction::SetToZero]
    );
}

#[test]
fn multiply_add_shapes() {
    // - >k +x <k
    assert_eq!(parse(b"[->+<]", false).unwrap(), vec![Instruction::Add(1, 1)]);
    assert_eq!(parse(b"[->>>++<<<]", false).unwrap(), vec![Instruction::Add(3, 2)]);
    // >k +x <k -
    assert_eq!(parse(b"[>+<-]", false).unwrap(), vec![Instruction::Add(1, 1)]);
    // <k +x >k -
    assert_eq!(parse(b"[<<+>>-]", false).unwrap(), vec![Instruction::Add(-2, 1)]);
    // - >k -x <k
    assert_eq!(parse(b"[->-<]", false).unwrap(), vec![Instruction::Sub(1, 1)]);
    // >k -x <k -
    assert_eq!(parse(b"[>--<-]", false).unwrap(), vec![Instruction::Sub(1, 2)]);
    // - <k -x >k
    assert_eq!(parse(b"[-<->]", false).unwrap(), vec![Instruction::Sub(-1, 1)]);
    // <k -x >k -
    assert_eq!(parse(b"[<->-]", false).unwrap(), vec![Instruction::Sub(-1, 1)]);
}

#[test]
fn disabled_eighth_shape_stays_a_loop() {
    assert_eq!(
        parse(b"[-<+>]", false).unwrap(),
        vec![Instruction::Loop(vec![
            Instruction::Decrement(1),
            Instruction::Back(1),
            Instruction::Increment(1),
            Instruction::Forward(1),
        ])]
    );
}

#[test]
fn non_matching_length_four_bodies_stay_loops() {
    // The source-cell decrement is not one.
    assert_eq!(
        parse(b"[-->+<]", false).unwrap(),
        vec![Instruction::Loop(vec![
            Instruction::Decrement(2),
            Instruction::Forward(1),
            Instruction::Increment(1),
            Instruction::Back(1),
        ])]
    );
    // The two movements differ.
    assert_eq!(
        parse(b"[->+<<]", false).unwrap(),
        vec![Instruction::Loop(vec![
            Instruction::Decrement(1),
            Instruction::Forward(1),
            Instruction::Increment(1),
            Instruction::Back(2),
        ])]
    );
}

#[test]
fn unmatched_close_is_fatal() {
    assert_eq!(parse(b"]", false), Err(ParseError::UnmatchedClose));
    assert_eq!(parse(b"+]", false), Err(ParseError::UnmatchedClose));
    assert_eq!(parse(b"[]]", false), Err(ParseError::UnmatchedClose));
}

#[test]
fn unterminated_loop_is_fatal() {
    assert_eq!(parse(b"[", false), Err(ParseError::MissingClose));
    assert_eq!(parse(b"[[]", false), Err(ParseError::MissingClose));
    assert_eq!(parse(b"+[->+<", false), Err(ParseError::MissingClose));
}

#[test]
fn inside_loop_mode_stops_at_close() {
    assert_eq!(parse(b"+]++", true).unwrap(), vec![Instruction::Increment(1)]);
    assert_eq!(parse(b"+", true), Err(ParseError::MissingClose));
}

#[test]
fn nested_loops_keep_structure() {
    let prog = parse(b"+[>[-]<-]", false).unwrap();
    assert_eq!(
        prog,
        vec![
            Instruction::Increment(1),
            Instruction::Loop(vec![
                Instruction::Forward(1),
                Instruction::SetToZero,
                Instruction::Back(1),
                Instruction::Decrement(1),
            ]),
        ]
    );
}

#[test]
fn optimize_loop_rewrites_directly() {
    assert_eq!(
        optimize_loop(vec![Instruction::Decrement(1)]),
        Instruction::SetToZero
    );
    assert_eq!(
        optimize_loop(vec![
            Instruction::Decrement(1),
            Instruction::Forward(4),
            Instruction::Increment(3),
            Instruction::Back(4),
        ]),
        Instruction::Add(4, 3)
    );
    assert_eq!(
        optimize_loop(vec![Instruction::Print]),
        Instruction::Loop(vec![Instruction::Print])
    );
}

#[test]
fn predicates_and_counts() {
    assert!(Instruction::Increment(2).incp());
    assert!(!Instruction::Decrement(2).incp());
    assert!(Instruction::Decrement(2).decp());
    assert!(Instruction::Forward(7).forwardp());
    assert!(Instruction::Back(7).backp());
    assert_eq!(Instruction::Increment(9).add_count(), 9);
    assert_eq!(Instruction::Decrement(4).add_count(), 4);
    assert_eq!(Instruction::Forward(12).move_count(), 12);
    assert_eq!(Instruction::Back(5).move_count(), 5);
}

#[test]
fn scenario_sources_parse_to_expected_ir() {
    // Prints 'A': eight increments, a multiply loop, move, increment, print.
    assert_eq!(
        parse(b"++++++++[>++++++++<-]>+.", false).unwrap(),
        vec![
            Instruction::Increment(8),
            Instruction::Add(1, 8),
            Instruction::Forward(1),
            Instruction::Increment(1),
            Instruction::Print,
        ]
    );
    // Prints byte 0x19.
    assert_eq!(
        parse(b"+++++[>+++++<-]>.", false).unwrap(),
        vec![
            Instruction::Increment(5),
            Instruction::Add(1, 5),
            Instruction::Forward(1),
            Instruction::Print,
        ]
    );
    // Echo one byte.
    assert_eq!(
        parse(b",.", false).unwrap(),
        vec![Instruction::Read, Instruction::Print]
    );
    // Read two bytes, print both in order.
    assert_eq!(
        parse(b",>,<.>.", false).unwrap(),
        vec![
            Instruction::Read,
            Instruction::Forward(1),
            Instruction::Read,
            Instruction::Back(1),
            Instruction::Print,
            Instruction::Forward(1),
            Instruction::Print,
        ]
    );
}
