//! The assembler collaborator, behind trusted declarations.
//!
//! The code generator drives `iced_x86`'s `CodeAssembler`: a mnemonic
//! builder that records instructions, resolves symbolic labels and, on
//! `assemble`, encodes everything into one byte vector.  Verified code
//! never reads the assembler's state directly; instead the mnemonic
//! stream recorded so far is modelled as a sequence of [`AsmOp`] values,
//! and every method the generator calls is wrapped in a function whose
//! contract says what it appends to that stream.

use vstd::prelude::*;

use iced_x86::code_asm::byte_ptr;
use iced_x86::code_asm::qword_ptr;
use iced_x86::code_asm::AsmRegister64;
use iced_x86::code_asm::AsmRegister8;
use iced_x86::code_asm::CodeAssembler;
use iced_x86::code_asm::CodeLabel;

verus! {

#[verifier::external_type_specification]
#[verifier::external_body]
pub struct ExCodeAssembler(CodeAssembler);

#[verifier::external_type_specification]
#[verifier::external_body]
pub struct ExCodeLabel(CodeLabel);

#[verifier::external_type_specification]
#[verifier::external_body]
pub struct ExAsmRegister64(AsmRegister64);

#[verifier::external_type_specification]
#[verifier::external_body]
pub struct ExAsmRegister8(AsmRegister8);

/// The 64-bit registers the code generator uses.
#[derive(Clone, Copy, Debug, PartialEq, Eq, Structural)]
pub enum Reg64 {
    Rdi,
    Rsi,
    Rdx,
    Rax,
    R9,
}

/// The 8-bit registers the code generator uses.
#[derive(Clone, Copy, Debug, PartialEq, Eq, Structural)]
pub enum Reg8 {
    Al,
    Dl,
}

/// One recorded mnemonic, the unit of the assembler model.  Labels are
/// identified by the number the assembler minted for them.
pub enum AsmOp {
    /// `add byte [r], imm`
    AddMemImm(Reg64, u8),
    /// `sub byte [r], imm`
    SubMemImm(Reg64, u8),
    /// `add r, imm32`
    AddRegImm(Reg64, u32),
    /// `sub r, imm32`
    SubRegImm(Reg64, u32),
    /// `push r`
    Push(Reg64),
    /// `pop r`
    Pop(Reg64),
    /// `mov r, imm`
    MovRegImm(Reg64, u32),
    /// `mov r, r2`
    MovRegReg(Reg64, Reg64),
    /// `mov byte [r], imm`
    MovMemImm(Reg64, u8),
    /// `mov r, qword [r2]`
    MovRegMem(Reg64, Reg64),
    /// `mov r8, byte [r]`
    MovR8Mem(Reg8, Reg64),
    /// `mov r8, imm`
    MovR8Imm(Reg8, u8),
    /// `add byte [r + disp], r8`
    AddMemR8(Reg64, i32, Reg8),
    /// `sub byte [r + disp], r8`
    SubMemR8(Reg64, i32, Reg8),
    /// `mul r8`
    Mul(Reg8),
    /// `and r, imm32`
    AndRegImm(Reg64, u32),
    /// `test r, r2`
    TestRegReg(Reg64, Reg64),
    /// `syscall`
    Syscall,
    /// A label bound to the position of the next instruction.
    Label(u64),
    /// `jz` to the label of that number.
    Jz(u64),
    /// `jnz` to the label of that number.
    Jnz(u64),
    /// `ret`
    Ret,
}

/// The mnemonic stream recorded by the assembler so far.
pub uninterp spec fn asm_ops(a: CodeAssembler) -> Seq<AsmOp>;

/// How many labels the assembler has minted so far; the next minted
/// label gets the next number.
pub uninterp spec fn asm_label_count(a: CodeAssembler) -> u64;

/// Whether a label was placed after the last recorded instruction and
/// still waits for the instruction it will be bound to.
pub uninterp spec fn asm_label_pending(a: CodeAssembler) -> bool;

/// The number the assembler minted for this label.
pub uninterp spec fn label_id(l: CodeLabel) -> u64;

/// Whether this label has already been bound to a position.
pub uninterp spec fn label_is_set(l: CodeLabel) -> bool;

/// The machine code that assembling a mnemonic stream yields.  The
/// assembler's encoding is a function of the recorded stream alone.
pub uninterp spec fn assembled(ops: Seq<AsmOp>) -> Seq<u8>;

/// Whether this operation is a conditional jump.
pub open spec fn is_jump(op: AsmOp) -> bool {
    op is Jz || op is Jnz
}

/// The label number a jump refers to.
pub open spec fn jump_target(op: AsmOp) -> u64 {
    match op {
        AsmOp::Jz(t) => t,
        AsmOp::Jnz(t) => t,
        _ => 0,
    }
}

/// Every jump in the stream has a label op with its number, so that
/// label resolution cannot fail.
pub open spec fn jumps_resolved(ops: Seq<AsmOp>) -> bool {
    forall|i: int|
        0 <= i < ops.len() && is_jump(#[trigger] ops[i]) ==> exists|j: int|
            0 <= j < ops.len() && (#[trigger] ops[j]) == AsmOp::Label(jump_target(ops[i]))
}

/// No two label ops in the stream carry the same number.
pub open spec fn unique_labels(ops: Seq<AsmOp>) -> bool {
    forall|i: int, j: int|
        0 <= i < j < ops.len() && (#[trigger] ops[i]) is Label && (#[trigger] ops[j]) is Label
            ==> ops[i] != ops[j]
}

/// Relies on the register constants of `iced_x86::code_asm`: picks the
/// assembler's value for one 64-bit register name.
#[verifier::external_body]
pub(crate) fn reg64(r: Reg64) -> AsmRegister64 {
    match r {
        Reg64::Rdi => iced_x86::code_asm::rdi,
        Reg64::Rsi => iced_x86::code_asm::rsi,
        Reg64::Rdx => iced_x86::code_asm::rdx,
        Reg64::Rax => iced_x86::code_asm::rax,
        Reg64::R9 => iced_x86::code_asm::r9,
    }
}

/// Relies on the register constants of `iced_x86::code_asm`: picks the
/// assembler's value for one 8-bit register name.
#[verifier::external_body]
pub(crate) fn reg8(r: Reg8) -> AsmRegister8 {
    match r {
        Reg8::Al => iced_x86::code_asm::al,
        Reg8::Dl => iced_x86::code_asm::dl,
    }
}

/// Relies on `CodeAssembler::new`: 64 is a valid bitness, and a fresh
/// assembler has recorded nothing and minted no label.
#[verifier::external_body]
pub(crate) fn asm_new() -> (a: CodeAssembler)
    ensures
        asm_ops(a) == Seq::<AsmOp>::empty(),
        asm_label_count(a) == 0,
        !asm_label_pending(a),
{
    CodeAssembler::new(64).unwrap()
}

/// Relies on `CodeAssembler::create_label`: it mints the next label
/// number, starting at one, and records nothing.
#[verifier::external_body]
pub(crate) fn asm_create_label(a: &mut CodeAssembler) -> (l: CodeLabel)
    requires
        asm_label_count(*old(a)) < u64::MAX,
    ensures
        asm_label_count(*final(a)) == asm_label_count(*old(a)) + 1,
        label_id(l) == asm_label_count(*final(a)),
        !label_is_set(l),
        asm_ops(*final(a)) == asm_ops(*old(a)),
        asm_label_pending(*final(a)) == asm_label_pending(*old(a)),
{
    a.create_label()
}

/// Relies on `CodeAssembler::set_label`: it binds a minted, not yet
/// bound label to the position of the next instruction; it fails only
/// for a foreign or re-used label or when another label is already
/// waiting there.
#[verifier::external_body]
pub(crate) fn asm_set_label(a: &mut CodeAssembler, l: &mut CodeLabel)
    requires
        !asm_label_pending(*old(a)),
        !label_is_set(*old(l)),
        label_id(*old(l)) >= 1,
    ensures
        asm_ops(*final(a)) == asm_ops(*old(a)).push(AsmOp::Label(label_id(*old(l)))),
        asm_label_count(*final(a)) == asm_label_count(*old(a)),
        asm_label_pending(*final(a)),
        label_id(*final(l)) == label_id(*old(l)),
        label_is_set(*final(l)),
{
    a.set_label(l).unwrap();
}

/// Relies on `CodeAssembler::jz`: records a conditional jump to the
/// given label.
#[verifier::external_body]
pub(crate) fn asm_jz(a: &mut CodeAssembler, l: &CodeLabel)
    ensures
        asm_ops(*final(a)) == asm_ops(*old(a)).push(AsmOp::Jz(label_id(*l))),
        asm_label_count(*final(a)) == asm_label_count(*old(a)),
        !asm_label_pending(*final(a)),
{
    a.jz(*l).unwrap();
}

/// Relies on `CodeAssembler::jnz`: records a conditional jump to the
/// given label.
#[verifier::external_body]
pub(crate) fn asm_jnz(a: &mut CodeAssembler, l: &CodeLabel)
    ensures
        asm_ops(*final(a)) == asm_ops(*old(a)).push(AsmOp::Jnz(label_id(*l))),
        asm_label_count(*final(a)) == asm_label_count(*old(a)),
        !asm_label_pending(*final(a)),
{
    a.jnz(*l).unwrap();
}

/// Relies on `CodeAssembler::add` for `add byte [r], imm8`.
#[verifier::external_body]
pub(crate) fn asm_add_mem_imm(a: &mut CodeAssembler, r: Reg64, n: u8)
    ensures
        asm_ops(*final(a)) == asm_ops(*old(a)).push(AsmOp::AddMemImm(r, n)),
        asm_label_count(*final(a)) == asm_label_count(*old(a)),
        !asm_label_pending(*final(a)),
{
    a.add(byte_ptr(reg64(r)), (n as i8) as i32).unwrap();
}

/// Relies on `CodeAssembler::sub` for `sub byte [r], imm8`.
#[verifier::external_body]
pub(crate) fn asm_sub_mem_imm(a: &mut CodeAssembler, r: Reg64, n: u8)
    ensures
        asm_ops(*final(a)) == asm_ops(*old(a)).push(AsmOp::SubMemImm(r, n)),
        asm_label_count(*final(a)) == asm_label_count(*old(a)),
        !asm_label_pending(*final(a)),
{
    a.sub(byte_ptr(reg64(r)), (n as i8) as i32).unwrap();
}

/// Relies on `CodeAssembler::add` for `add r64, imm32`; the processor
/// sign-extends the 32-bit immediate.
#[verifier::external_body]
pub(crate) fn asm_add_reg_imm(a: &mut CodeAssembler, r: Reg64, n: u32)
    ensures
        asm_ops(*final(a)) == asm_ops(*old(a)).push(AsmOp::AddRegImm(r, n)),
        asm_label_count(*final(a)) == asm_label_count(*old(a)),
        !asm_label_pending(*final(a)),
{
    a.add(reg64(r), n as i32).unwrap();
}

/// Relies on `CodeAssembler::sub` for `sub r64, imm32`; the processor
/// sign-extends the 32-bit immediate.
#[verifier::external_body]
pub(crate) fn asm_sub_reg_imm(a: &mut CodeAssembler, r: Reg64, n: u32)
    ensures
        asm_ops(*final(a)) == asm_ops(*old(a)).push(AsmOp::SubRegImm(r, n)),
        asm_label_count(*final(a)) == asm_label_count(*old(a)),
        !asm_label_pending(*final(a)),
{
    a.sub(reg64(r), n as i32).unwrap();
}

/// Relies on `CodeAssembler::push` for `push r64`.
#[verifier::external_body]
pub(crate) fn asm_push(a: &mut CodeAssembler, r: Reg64)
    ensures
        asm_ops(*final(a)) == asm_ops(*old(a)).push(AsmOp::Push(r)),
        asm_label_count(*final(a)) == asm_label_count(*old(a)),
        !asm_label_pending(*final(a)),
{
    a.push(reg64(r)).unwrap();
}

/// Relies on `CodeAssembler::pop` for `pop r64`.
#[verifier::external_body]
pub(crate) fn asm_pop(a: &mut CodeAssembler, r: Reg64)
    ensures
        asm_ops(*final(a)) == asm_ops(*old(a)).push(AsmOp::Pop(r)),
        asm_label_count(*final(a)) == asm_label_count(*old(a)),
        !asm_label_pending(*final(a)),
{
    a.pop(reg64(r)).unwrap();
}

/// Relies on `CodeAssembler::mov` for `mov r64, imm`.
#[verifier::external_body]
pub(crate) fn asm_mov_reg_imm(a: &mut CodeAssembler, r: Reg64, n: u32)
    ensures
        asm_ops(*final(a)) == asm_ops(*old(a)).push(AsmOp::MovRegImm(r, n)),
        asm_label_count(*final(a)) == asm_label_count(*old(a)),
        !asm_label_pending(*final(a)),
{
    a.mov(reg64(r), n as u64).unwrap();
}

/// Relies on `CodeAssembler::mov` for `mov r64, r64`.
#[verifier::external_body]
pub(crate) fn asm_mov_reg_reg(a: &mut CodeAssembler, dst: Reg64, src: Reg64)
    ensures
        asm_ops(*final(a)) == asm_ops(*old(a)).push(AsmOp::MovRegReg(dst, src)),
        asm_label_count(*final(a)) == asm_label_count(*old(a)),
        !asm_label_pending(*final(a)),
{
    a.mov(reg64(dst), reg64(src)).unwrap();
}

/// Relies on `CodeAssembler::mov` for `mov byte [r], imm8`.
#[verifier::external_body]
pub(crate) fn asm_mov_mem_imm(a: &mut CodeAssembler, r: Reg64, n: u8)
    ensures
        asm_ops(*final(a)) == asm_ops(*old(a)).push(AsmOp::MovMemImm(r, n)),
        asm_label_count(*final(a)) == asm_label_count(*old(a)),
        !asm_label_pending(*final(a)),
{
    a.mov(byte_ptr(reg64(r)), (n as i8) as i32).unwrap();
}

/// Relies on `CodeAssembler::mov` for `mov r64, qword [r64]`.
#[verifier::external_body]
pub(crate) fn asm_mov_reg_mem(a: &mut CodeAssembler, dst: Reg64, base: Reg64)
    ensures
        asm_ops(*final(a)) == asm_ops(*old(a)).push(AsmOp::MovRegMem(dst, base)),
        asm_label_count(*final(a)) == asm_label_count(*old(a)),
        !asm_label_pending(*final(a)),
{
    a.mov(reg64(dst), qword_ptr(reg64(base))).unwrap();
}

/// Relies on `CodeAssembler::mov` for `mov r8, byte [r64]`.
#[verifier::external_body]
pub(crate) fn asm_mov_r8_mem(a: &mut CodeAssembler, dst: Reg8, base: Reg64)
    ensures
        asm_ops(*final(a)) == asm_ops(*old(a)).push(AsmOp::MovR8Mem(dst, base)),
        asm_label_count(*final(a)) == asm_label_count(*old(a)),
        !asm_label_pending(*final(a)),
{
    a.mov(reg8(dst), byte_ptr(reg64(base))).unwrap();
}

/// Relies on `CodeAssembler::mov` for `mov r8, imm8`.
#[verifier::external_body]
pub(crate) fn asm_mov_r8_imm(a: &mut CodeAssembler, dst: Reg8, n: u8)
    ensures
        asm_ops(*final(a)) == asm_ops(*old(a)).push(AsmOp::MovR8Imm(dst, n)),
        asm_label_count(*final(a)) == asm_label_count(*old(a)),
        !asm_label_pending(*final(a)),
{
    a.mov(reg8(dst), n as u32).unwrap();
}

/// Relies on `CodeAssembler::add` for `add byte [r64 + disp], r8`.
#[verifier::external_body]
pub(crate) fn asm_add_mem_r8(a: &mut CodeAssembler, base: Reg64, disp: i32, src: Reg8)
    ensures
        asm_ops(*final(a)) == asm_ops(*old(a)).push(AsmOp::AddMemR8(base, disp, src)),
        asm_label_count(*final(a)) == asm_label_count(*old(a)),
        !asm_label_pending(*final(a)),
{
    a.add(byte_ptr(reg64(base) + disp), reg8(src)).unwrap();
}

/// Relies on `CodeAssembler::sub` for `sub byte [r64 + disp], r8`.
#[verifier::external_body]
pub(crate) fn asm_sub_mem_r8(a: &mut CodeAssembler, base: Reg64, disp: i32, src: Reg8)
    ensures
        asm_ops(*final(a)) == asm_ops(*old(a)).push(AsmOp::SubMemR8(base, disp, src)),
        asm_label_count(*final(a)) == asm_label_count(*old(a)),
        !asm_label_pending(*final(a)),
{
    a.sub(byte_ptr(reg64(base) + disp), reg8(src)).unwrap();
}

/// Relies on `CodeAssembler::mul` for `mul r8`.
#[verifier::external_body]
pub(crate) fn asm_mul(a: &mut CodeAssembler, r: Reg8)
    ensures
        asm_ops(*final(a)) == asm_ops(*old(a)).push(AsmOp::Mul(r)),
        asm_label_count(*final(a)) == asm_label_count(*old(a)),
        !asm_label_pending(*final(a)),
{
    a.mul(reg8(r)).unwrap();
}

/// Relies on `CodeAssembler::and` for `and r64, imm32`.
#[verifier::external_body]
pub(crate) fn asm_and_reg_imm(a: &mut CodeAssembler, r: Reg64, n: u32)
    ensures
        asm_ops(*final(a)) == asm_ops(*old(a)).push(AsmOp::AndRegImm(r, n)),
        asm_label_count(*final(a)) == asm_label_count(*old(a)),
        !asm_label_pending(*final(a)),
{
    a.and(reg64(r), n as i32).unwrap();
}

/// Relies on `CodeAssembler::test` for `test r64, r64`.
#[verifier::external_body]
pub(crate) fn asm_test(a: &mut CodeAssembler, r1: Reg64, r2: Reg64)
    ensures
        asm_ops(*final(a)) == asm_ops(*old(a)).push(AsmOp::TestRegReg(r1, r2)),
        asm_label_count(*final(a)) == asm_label_count(*old(a)),
        !asm_label_pending(*final(a)),
{
    a.test(reg64(r1), reg64(r2)).unwrap();
}

/// Relies on `CodeAssembler::syscall`.
#[verifier::external_body]
pub(crate) fn asm_syscall(a: &mut CodeAssembler)
    ensures
        asm_ops(*final(a)) == asm_ops(*old(a)).push(AsmOp::Syscall),
        asm_label_count(*final(a)) == asm_label_count(*old(a)),
        !asm_label_pending(*final(a)),
{
    a.syscall().unwrap();
}

/// Relies on `CodeAssembler::ret`.
#[verifier::external_body]
pub(crate) fn asm_ret(a: &mut CodeAssembler)
    ensures
        asm_ops(*final(a)) == asm_ops(*old(a)).push(AsmOp::Ret),
        asm_label_count(*final(a)) == asm_label_count(*old(a)),
        !asm_label_pending(*final(a)),
{
    a.ret().unwrap();
}

/// Relies on `CodeAssembler::assemble`: with every jump target bound to
/// exactly one position and no label left dangling past the last
/// instruction, encoding succeeds, and the bytes are a function of the
/// recorded stream alone.
#[verifier::external_body]
pub(crate) fn asm_assemble(a: &mut CodeAssembler) -> (r: Vec<u8>)
    requires
        !asm_label_pending(*old(a)),
        jumps_resolved(asm_ops(*old(a))),
        unique_labels(asm_ops(*old(a))),
    ensures
        r@ == assembled(asm_ops(*old(a))),
{
    a.assemble(0).unwrap()
}

} // verus!
