use bf_jit::compiler::{compile, count_labels};
use bf_jit::instruction::Instruction;
use bf_jit::parser::parse;

use iced_x86::code_asm::{byte_ptr, rdi, CodeAssembler};

#[test]
fn empty_program_compiles_to_a_bare_return() {
    let compiled = compile(&[]);
    let mut a = CodeAssembler::new(64).unwrap();
    a.ret().unwrap();
    let expected = a.assemble(0).unwrap();
    assert_eq!(compiled, expected);
}

#[test]
fn increment_lowers_to_a_byte_add() {
    let compiled = compile(&[Instruction::Increment(3)]);
    let mut a = CodeAssembler::new(64).unwrap();
    a.add(byte_ptr(rdi), 3i32).unwrap();
    a.ret().unwrap();
    let expected = a.assemble(0).unwrap();
    assert_eq!(compiled, expected);
}

#[test]
fn set_to_zero_lowers_to_a_byte_move() {
    let program = parse(b"+[-]", false).unwrap();
    let compiled = compile(&program);
    let mut a = CodeAssembler::new(64).unwrap();
    a.add(byte_ptr(rdi), 1i32).unwrap();
    a.mov(byte_ptr(rdi), 0i32).unwrap();
    a.ret().unwrap();
    let expected = a.assemble(0).unwrap();
    assert_eq!(compiled, expected);
}

#[test]
fn movement_lowers_to_pointer_arithmetic() {
    let compiled = compile(&[Instruction::Forward(300), Instruction::Back(7)]);
    let mut a = CodeAssembler::new(64).unwrap();
    a.add(rdi, 300i32).unwrap();
    a.sub(rdi, 7i32).unwrap();
    a.ret().unwrap();
    let expected = a.assemble(0).unwrap();
    assert_eq!(compiled, expected);
}

#[test]
fn compilation_is_deterministic() {
    let program = parse(b"++[>+<-]>.", false).unwrap();
    let once = compile(&program);
    let twice = compile(&program);
    assert_eq!(once, twice);
}

#[test]
fn loops_emit_code() {
    let program = parse(b"+[>[-]<-]", false).unwrap();
    let compiled = compile(&program);
    assert!(compiled.len() > 10);
}

#[test]
fn label_counting() {
    assert_eq!(count_labels(&[]), Some(0));
    assert_eq!(count_labels(&parse(b"+>.", false).unwrap()), Some(0));
    // The zero-cell and multiply-add idioms are fused, so they mint no labels.
    assert_eq!(count_labels(&parse(b"[-]", false).unwrap()), Some(0));
    // A surviving loop mints two, nesting included.
    assert_eq!(count_labels(&parse(b"+[.]", false).unwrap()), Some(2));
    assert_eq!(count_labels(&parse(b"+[.[,]]", false).unwrap()), Some(4));
    assert_eq!(count_labels(&parse(b"+[.][,]", false).unwrap()), Some(4));
}

#[test]
fn fused_multiply_add_uses_the_multiplier() {
    // With a multiplier of one, no mul is emitted; with more, it is.
    let one = compile(&parse(b"[->+<]", false).unwrap());
    let two = compile(&parse(b"[->++<]", false).unwrap());
    assert!(two.len() > one.len());
}
