use vstd::prelude::*;

use iced_x86::code_asm::CodeAssembler;

use crate::assembler::{
    asm_add_mem_imm, asm_add_mem_r8, asm_add_reg_imm, asm_and_reg_imm, asm_assemble,
    asm_create_label, asm_jnz, asm_jz, asm_label_count, asm_mov_mem_imm,
    asm_mov_r8_imm, asm_mov_r8_mem, asm_mov_reg_imm, asm_mov_reg_mem, asm_mov_reg_reg, asm_mul,
    asm_new, asm_ops, asm_pop, asm_push, asm_ret, asm_set_label, asm_sub_mem_imm, asm_sub_mem_r8,
    asm_sub_reg_imm, asm_syscall, asm_test, assembled, is_jump, jump_target, jumps_resolved,
    unique_labels, AsmOp, Reg64, Reg8,
};
use crate::instruction::{lemma_view_seq, view_instr, view_seq, Instr, Instruction};

verus! {

/// Number of labels the code generator mints for one instruction: two
/// per loop, counted through the whole tree.
pub open spec fn labels_of_instr(v: Instr) -> nat
    decreases v,
{
    match v {
        Instr::Loop(body) => 2 + labels_of_seq(body),
        _ => 0,
    }
}

/// Number of labels the code generator mints for a program.
pub open spec fn labels_of_seq(s: Seq<Instr>) -> nat
    decreases s,
{
    if s.len() == 0 {
        0
    } else {
        labels_of_instr(s[0]) + labels_of_seq(s.subrange(1, s.len() as int))
    }
}

/// Taking one more instruction adds that instruction's label count.
proof fn lemma_labels_of_take_succ(s: Seq<Instr>, i: int)
    requires
        0 <= i < s.len(),
    ensures
        labels_of_seq(s.take(i + 1)) == labels_of_seq(s.take(i)) + labels_of_instr(s[i]),
    decreases i,
{
    if i == 0 {
        assert(s.take(0) =~= Seq::<Instr>::empty());
        assert(s.take(1).subrange(1, 1) =~= Seq::<Instr>::empty());
    } else {
        let t = s.subrange(1, s.len() as int);
        lemma_labels_of_take_succ(t, i - 1);
        assert(s.take(i + 1).subrange(1, i + 1) =~= t.take(i));
        assert(s.take(i).subrange(1, i) =~= t.take(i - 1));
        assert(t[i - 1] == s[i]);
    }
}

/// A prefix never needs more labels than the whole program.
proof fn lemma_labels_of_take_le(s: Seq<Instr>, i: int)
    requires
        0 <= i <= s.len(),
    ensures
        labels_of_seq(s.take(i)) <= labels_of_seq(s),
    decreases s.len() - i,
{
    if i == s.len() {
        assert(s.take(i) =~= s);
    } else {
        lemma_labels_of_take_succ(s, i);
        lemma_labels_of_take_le(s, i + 1);
    }
}

/// How many labels one instruction needs, or nothing when the count
/// overflows the counter's width.
fn count_labels_instr(inst: &Instruction) -> (r: Option<u64>)
    ensures
        r matches Some(n) ==> n == labels_of_instr(view_instr(*inst)),
        r is None ==> labels_of_instr(view_instr(*inst)) > u64::MAX,
    decreases inst,
{
    match inst {
        Instruction::Loop(body) => {
            match count_labels_seq(body) {
                Some(n) => {
                    if n <= u64::MAX - 2 {
                        Some(n + 2)
                    } else {
                        None
                    }
                }
                None => None,
            }
        }
        _ => Some(0),
    }
}

fn count_labels_seq(prog: &Vec<Instruction>) -> (r: Option<u64>)
    ensures
        r matches Some(n) ==> n == labels_of_seq(view_seq(prog@)),
        r is None ==> labels_of_seq(view_seq(prog@)) > u64::MAX,
    decreases prog,
{
    broadcast use lemma_view_seq;

    let ghost vs = view_seq(prog@);
    let mut total: u64 = 0;
    let mut i: usize = 0;
    while i < prog.len()
        invariant
            0 <= i <= prog.len(),
            vs == view_seq(prog@),
            total == labels_of_seq(vs.take(i as int)),
        decreases prog.len() - i,
    {
        let c = count_labels_instr(&prog[i]);
        proof {
            lemma_view_seq(prog@);
            lemma_labels_of_take_succ(vs, i as int);
        }
        match c {
            Some(n) => {
                if n <= u64::MAX - total {
                    total = total + n;
                } else {
                    proof {
                        lemma_labels_of_take_le(vs, i + 1);
                    }
                    return None;
                }
            }
            None => {
                proof {
                    lemma_labels_of_take_le(vs, i + 1);
                }
                return None;
            }
        }
        i = i + 1;
    }
    assert(vs.take(prog.len() as int) =~= vs);
    Some(total)
}

/// How many labels compiling this program mints: two per loop.  Nothing
/// is returned in the (practically unreachable) case that the count
/// does not fit the label counter; [`compile`] asks for a fitting count.
pub fn count_labels(program: &[Instruction]) -> (r: Option<u64>)
    ensures
        r matches Some(n) ==> n == labels_of_seq(view_seq(program@)),
        r is None ==> labels_of_seq(view_seq(program@)) > u64::MAX,
{
    broadcast use lemma_view_seq;

    let ghost vs = view_seq(program@);
    let mut total: u64 = 0;
    let mut i: usize = 0;
    while i < program.len()
        invariant
            0 <= i <= program@.len(),
            vs == view_seq(program@),
            total == labels_of_seq(vs.take(i as int)),
        decreases program@.len() - i,
    {
        let c = count_labels_instr(&program[i]);
        proof {
            lemma_view_seq(program@);
            lemma_labels_of_take_succ(vs, i as int);
        }
        match c {
            Some(n) => {
                if n <= u64::MAX - total {
                    total = total + n;
                } else {
                    proof {
                        lemma_labels_of_take_le(vs, i + 1);
                    }
                    return None;
                }
            }
            None => {
                proof {
                    lemma_labels_of_take_le(vs, i + 1);
                }
                return None;
            }
        }
        i = i + 1;
    }
    assert(vs.take(program@.len() as int) =~= vs);
    Some(total)
}

/// The pre-test of a loop whose head label is `l`: skip the loop when
/// the current cell is zero.
pub open spec fn loop_head_ops(l: int) -> Seq<AsmOp> {
    seq![
        AsmOp::MovRegMem(Reg64::R9, Reg64::Rdi),
        AsmOp::AndRegImm(Reg64::R9, 0xff),
        AsmOp::TestRegReg(Reg64::R9, Reg64::R9),
        AsmOp::Jz((l + 1) as u64),
        AsmOp::Label(l as u64),
    ]
}

/// The post-test of a loop whose head label is `l`: run the body again
/// while the current cell is non-zero.
pub open spec fn loop_tail_ops(l: int) -> Seq<AsmOp> {
    seq![
        AsmOp::MovRegMem(Reg64::R9, Reg64::Rdi),
        AsmOp::AndRegImm(Reg64::R9, 0xff),
        AsmOp::TestRegReg(Reg64::R9, Reg64::R9),
        AsmOp::Jnz(l as u64),
        AsmOp::Label((l + 1) as u64),
    ]
}

/// The fixed lowering of one instruction, with `l` the number the next
/// minted label will get.  The tape pointer lives in `rdi` throughout;
/// `print` and `read` preserve it across the syscall with a push/pop
/// pair; a fused `Add`/`Sub` moves the cell through `al`, multiplying
/// in `dl` when the multiplier exceeds one.
pub open spec fn ops_of_instr(v: Instr, l: int) -> Seq<AsmOp>
    decreases v,
{
    match v {
        Instr::Increment(n) => seq![AsmOp::AddMemImm(Reg64::Rdi, n)],
        Instr::Decrement(n) => seq![AsmOp::SubMemImm(Reg64::Rdi, n)],
        Instr::Forward(k) => seq![AsmOp::AddRegImm(Reg64::Rdi, k)],
        Instr::Back(k) => seq![AsmOp::SubRegImm(Reg64::Rdi, k)],
        Instr::Print => seq![
            AsmOp::Push(Reg64::Rdi),
            AsmOp::MovRegImm(Reg64::Rax, 1),
            AsmOp::MovRegReg(Reg64::Rsi, Reg64::Rdi),
            AsmOp::MovRegImm(Reg64::Rdi, 1),
            AsmOp::MovRegImm(Reg64::Rdx, 1),
            AsmOp::Syscall,
            AsmOp::Pop(Reg64::Rdi),
        ],
        Instr::Read => seq![
            AsmOp::Push(Reg64::Rdi),
            AsmOp::MovRegImm(Reg64::Rax, 0),
            AsmOp::MovRegReg(Reg64::Rsi, Reg64::Rdi),
            AsmOp::MovRegImm(Reg64::Rdi, 0),
            AsmOp::MovRegImm(Reg64::Rdx, 1),
            AsmOp::Syscall,
            AsmOp::Pop(Reg64::Rdi),
        ],
        Instr::SetToZero => seq![AsmOp::MovMemImm(Reg64::Rdi, 0)],
        Instr::Add(off, x) => seq![
            AsmOp::MovR8Mem(Reg8::Al, Reg64::Rdi),
            AsmOp::SubMemR8(Reg64::Rdi, 0, Reg8::Al),
        ] + (if x > 1 {
            seq![AsmOp::MovR8Imm(Reg8::Dl, x), AsmOp::Mul(Reg8::Dl)]
        } else {
            Seq::empty()
        }) + seq![AsmOp::AddMemR8(Reg64::Rdi, off, Reg8::Al)],
        Instr::Sub(off, x) => seq![
            AsmOp::MovR8Mem(Reg8::Al, Reg64::Rdi),
            AsmOp::SubMemR8(Reg64::Rdi, 0, Reg8::Al),
        ] + (if x > 1 {
            seq![AsmOp::MovR8Imm(Reg8::Dl, x), AsmOp::Mul(Reg8::Dl)]
        } else {
            Seq::empty()
        }) + seq![AsmOp::SubMemR8(Reg64::Rdi, off, Reg8::Al)],
        Instr::Loop(body) => loop_head_ops(l) + ops_of_seq(body, l + 2) + loop_tail_ops(l),
    }
}

/// The lowering of a whole program, threading the label numbers.
pub open spec fn ops_of_seq(s: Seq<Instr>, l: int) -> Seq<AsmOp>
    decreases s,
{
    if s.len() == 0 {
        Seq::empty()
    } else {
        ops_of_instr(s[0], l) + ops_of_seq(s.subrange(1, s.len() as int), l + labels_of_instr(s[0]))
    }
}

/// The whole emission of a compilation: the program's lowering, labels
/// numbered from one, and the final return.
pub open spec fn compiled_ops(p: Seq<Instr>) -> Seq<AsmOp> {
    ops_of_seq(p, 1).push(AsmOp::Ret)
}

/// Taking one more instruction appends that instruction's lowering.
proof fn lemma_ops_of_take_succ(s: Seq<Instr>, i: int, l: int)
    requires
        0 <= i < s.len(),
    ensures
        ops_of_seq(s.take(i + 1), l) =~= ops_of_seq(s.take(i), l) + ops_of_instr(
            s[i],
            l + labels_of_seq(s.take(i)),
        ),
    decreases i,
{
    if i == 0 {
        assert(s.take(0) =~= Seq::<Instr>::empty());
        assert(s.take(1).subrange(1, 1) =~= Seq::<Instr>::empty());
        assert(s.take(1)[0] == s[0]);
        assert(labels_of_seq(Seq::<Instr>::empty()) == 0);
        assert(ops_of_seq(Seq::<Instr>::empty(), l + labels_of_instr(s[0])) =~= Seq::<AsmOp>::empty());
        assert(ops_of_seq(s.take(1), l) =~= ops_of_instr(s[0], l) + Seq::<AsmOp>::empty());
        assert(ops_of_instr(s[0], l) + Seq::<AsmOp>::empty() =~= ops_of_instr(s[0], l));
        assert(Seq::<AsmOp>::empty() + ops_of_instr(s[0], l) =~= ops_of_instr(s[0], l));
    } else {
        let t = s.subrange(1, s.len() as int);
        let l2 = l + labels_of_instr(s[0]);
        lemma_ops_of_take_succ(t, i - 1, l2);
        assert(s.take(i + 1).subrange(1, i + 1) =~= t.take(i));
        assert(s.take(i).subrange(1, i) =~= t.take(i - 1));
        assert(t[i - 1] == s[i]);
        assert(s.take(i)[0] == s[0]);
        assert(s.take(i + 1)[0] == s[0]);
        assert(labels_of_seq(s.take(i)) == labels_of_instr(s[0]) + labels_of_seq(t.take(i - 1)));
        assert(ops_of_seq(s.take(i + 1), l) =~= ops_of_instr(s[0], l) + ops_of_seq(t.take(i), l2));
        assert(ops_of_seq(s.take(i), l) =~= ops_of_instr(s[0], l) + ops_of_seq(t.take(i - 1), l2));
        assert(ops_of_seq(t.take(i), l2) =~= ops_of_seq(t.take(i - 1), l2) + ops_of_instr(
            t[i - 1],
            l2 + labels_of_seq(t.take(i - 1)),
        ));
        assert(ops_of_instr(s[0], l) + (ops_of_seq(t.take(i - 1), l2) + ops_of_instr(
            s[i],
            l + labels_of_seq(s.take(i)),
        )) =~= (ops_of_instr(s[0], l) + ops_of_seq(t.take(i - 1), l2)) + ops_of_instr(
            s[i],
            l + labels_of_seq(s.take(i)),
        ));
    }
}

/// Emit one instruction.
fn emit_instr(inst: &Instruction, a: &mut CodeAssembler)
    requires
        asm_label_count(*old(a)) + labels_of_instr(view_instr(*inst)) <= u64::MAX,
    ensures
        asm_ops(*final(a)) == asm_ops(*old(a)) + ops_of_instr(
            view_instr(*inst),
            asm_label_count(*old(a)) + 1,
        ),
        asm_label_count(*final(a)) == asm_label_count(*old(a)) + labels_of_instr(
            view_instr(*inst),
        ),
    decreases inst,
{
    let ghost ops0 = asm_ops(*old(a));
    let ghost l = asm_label_count(*old(a)) + 1;
    match inst {
        Instruction::Increment(n) => {
            asm_add_mem_imm(a, Reg64::Rdi, *n);
            proof {
                assert(asm_ops(*a) =~= ops0 + ops_of_instr(view_instr(*inst), l));
            }
        }
        Instruction::Decrement(n) => {
            asm_sub_mem_imm(a, Reg64::Rdi, *n);
            proof {
                assert(asm_ops(*a) =~= ops0 + ops_of_instr(view_instr(*inst), l));
            }
        }
        Instruction::Forward(k) => {
            asm_add_reg_imm(a, Reg64::Rdi, *k);
            proof {
                assert(asm_ops(*a) =~= ops0 + ops_of_instr(view_instr(*inst), l));
            }
        }
        Instruction::Back(k) => {
            asm_sub_reg_imm(a, Reg64::Rdi, *k);
            proof {
                assert(asm_ops(*a) =~= ops0 + ops_of_instr(view_instr(*inst), l));
            }
        }
        Instruction::Print => {
            asm_push(a, Reg64::Rdi);
            asm_mov_reg_imm(a, Reg64::Rax, 1);
            asm_mov_reg_reg(a, Reg64::Rsi, Reg64::Rdi);
            asm_mov_reg_imm(a, Reg64::Rdi, 1);
            asm_mov_reg_imm(a, Reg64::Rdx, 1);
            asm_syscall(a);
            asm_pop(a, Reg64::Rdi);
            proof {
                assert(asm_ops(*a) =~= ops0 + ops_of_instr(view_instr(*inst), l));
            }
        }
        Instruction::Read => {
            asm_push(a, Reg64::Rdi);
            asm_mov_reg_imm(a, Reg64::Rax, 0);
            asm_mov_reg_reg(a, Reg64::Rsi, Reg64::Rdi);
            asm_mov_reg_imm(a, Reg64::Rdi, 0);
            asm_mov_reg_imm(a, Reg64::Rdx, 1);
            asm_syscall(a);
            asm_pop(a, Reg64::Rdi);
            proof {
                assert(asm_ops(*a) =~= ops0 + ops_of_instr(view_instr(*inst), l));
            }
        }
        Instruction::SetToZero => {
            asm_mov_mem_imm(a, Reg64::Rdi, 0);
            proof {
                assert(asm_ops(*a) =~= ops0 + ops_of_instr(view_instr(*inst), l));
            }
        }
        Instruction::Add(off, x) => {
            asm_mov_r8_mem(a, Reg8::Al, Reg64::Rdi);
            asm_sub_mem_r8(a, Reg64::Rdi, 0, Reg8::Al);
            if *x > 1 {
                asm_mov_r8_imm(a, Reg8::Dl, *x);
                asm_mul(a, Reg8::Dl);
            }
            asm_add_mem_r8(a, Reg64::Rdi, *off, Reg8::Al);
            proof {
                assert(asm_ops(*a) =~= ops0 + ops_of_instr(view_instr(*inst), l));
            }
        }
        Instruction::Sub(off, x) => {
            asm_mov_r8_mem(a, Reg8::Al, Reg64::Rdi);
            asm_sub_mem_r8(a, Reg64::Rdi, 0, Reg8::Al);
            if *x > 1 {
                asm_mov_r8_imm(a, Reg8::Dl, *x);
                asm_mul(a, Reg8::Dl);
            }
            asm_sub_mem_r8(a, Reg64::Rdi, *off, Reg8::Al);
            proof {
                assert(asm_ops(*a) =~= ops0 + ops_of_instr(view_instr(*inst), l));
            }
        }
        Instruction::Loop(body) => {
            let mut head = asm_create_label(a);
            let mut done = asm_create_label(a);
            asm_mov_reg_mem(a, Reg64::R9, Reg64::Rdi);
            asm_and_reg_imm(a, Reg64::R9, 0xff);
            asm_test(a, Reg64::R9, Reg64::R9);
            asm_jz(a, &done);
            asm_set_label(a, &mut head);
            emit_seq(body, a);
            asm_mov_reg_mem(a, Reg64::R9, Reg64::Rdi);
            asm_and_reg_imm(a, Reg64::R9, 0xff);
            asm_test(a, Reg64::R9, Reg64::R9);
            asm_jnz(a, &head);
            asm_set_label(a, &mut done);
            proof {
                assert(asm_ops(*a) =~= ops0 + ops_of_instr(view_instr(*inst), l));
            }
        }
    }
}

/// Emit a whole loop body, in order.
fn emit_seq(prog: &Vec<Instruction>, a: &mut CodeAssembler)
    requires
        asm_label_count(*old(a)) + labels_of_seq(view_seq(prog@)) <= u64::MAX,
    ensures
        asm_ops(*final(a)) == asm_ops(*old(a)) + ops_of_seq(
            view_seq(prog@),
            asm_label_count(*old(a)) + 1,
        ),
        asm_label_count(*final(a)) == asm_label_count(*old(a)) + labels_of_seq(view_seq(prog@)),
    decreases prog,
{
    broadcast use lemma_view_seq;

    let ghost vs = view_seq(prog@);
    let ghost ops0 = asm_ops(*old(a));
    let ghost c0 = asm_label_count(*old(a));
    let mut i: usize = 0;
    assert(ops0 + ops_of_seq(vs.take(0), c0 + 1) =~= ops0);
    while i < prog.len()
        invariant
            0 <= i <= prog.len(),
            vs == view_seq(prog@),
            c0 + labels_of_seq(vs) <= u64::MAX,
            asm_ops(*a) == ops0 + ops_of_seq(vs.take(i as int), c0 + 1),
            asm_label_count(*a) == c0 + labels_of_seq(vs.take(i as int)),
        decreases prog.len() - i,
    {
        proof {
            lemma_view_seq(prog@);
            lemma_labels_of_take_succ(vs, i as int);
            lemma_labels_of_take_le(vs, i + 1);
            lemma_ops_of_take_succ(vs, i as int, c0 + 1);
        }
        emit_instr(&prog[i], a);
        proof {
            assert(asm_ops(*a) =~= ops0 + ops_of_seq(vs.take(i + 1), c0 + 1));
        }
        i = i + 1;
    }
    proof {
        assert(vs.take(prog@.len() as int) =~= vs);
    }
}

/// Compile a program to x86-64 machine code.  The result is the
/// assembler's encoding of exactly the mnemonic stream that
/// [`compiled_ops`] gives for the program's model: the fixed lowering of
/// each instruction in order, followed by `ret`.
pub fn compile(program: &[Instruction]) -> (r: Vec<u8>)
    requires
        labels_of_seq(view_seq(program@)) <= u64::MAX,
    ensures
        r@ == assembled(compiled_ops(view_seq(program@))),
{
    broadcast use lemma_view_seq;

    let ghost vs = view_seq(program@);
    let mut a = asm_new();
    let mut i: usize = 0;
    assert(asm_ops(a) + ops_of_seq(vs.take(0), 1) =~= asm_ops(a));
    assert(ops_of_seq(vs.take(0), 1) =~= Seq::<AsmOp>::empty());
    while i < program.len()
        invariant
            0 <= i <= program@.len(),
            vs == view_seq(program@),
            labels_of_seq(vs) <= u64::MAX,
            asm_ops(a) == ops_of_seq(vs.take(i as int), 1),
            asm_label_count(a) == labels_of_seq(vs.take(i as int)),
        decreases program@.len() - i,
    {
        proof {
            lemma_view_seq(program@);
            lemma_labels_of_take_succ(vs, i as int);
            lemma_labels_of_take_le(vs, i + 1);
            lemma_ops_of_take_succ(vs, i as int, 1);
        }
        emit_instr(&program[i], &mut a);
        proof {
            assert(asm_ops(a) =~= ops_of_seq(vs.take(i + 1), 1));
        }
        i = i + 1;
    }
    proof {
        assert(vs.take(program@.len() as int) =~= vs);
    }
    asm_ret(&mut a);
    proof {
        assert(asm_ops(a) =~= compiled_ops(vs));
        lemma_compiled_ops_wf(vs);
    }
    asm_assemble(&mut a)
}

/// All label numbers of the emission of one instruction lie in
/// `[l, l + labels_of_instr)`, each occurs once, and every jump targets
/// a label of the same emission.
#[verifier::rlimit(60)]
proof fn lemma_instr_emission_wf(v: Instr, l: int)
    requires
        1 <= l,
        l + labels_of_instr(v) <= u64::MAX + 1,
    ensures
        unique_labels(ops_of_instr(v, l)),
        jumps_resolved(ops_of_instr(v, l)),
        forall|k: int|
            0 <= k < ops_of_instr(v, l).len() && (#[trigger] ops_of_instr(v, l)[k]) is Label
                ==> l <= ops_of_instr(v, l)[k]->Label_0 < l + labels_of_instr(v),
    decreases v,
{
    let ops = ops_of_instr(v, l);
    match v {
        Instr::Loop(body) => {
            lemma_seq_emission_wf(body, l + 2);
            let head = loop_head_ops(l);
            let mid = ops_of_seq(body, l + 2);
            let tail = loop_tail_ops(l);
            assert(ops =~= head + mid + tail);
            let n = mid.len() as int;
            // Where each label and jump of the frame sits.
            assert(ops[4] == AsmOp::Label(l as u64));
            assert(ops[5 + n + 4] == AsmOp::Label((l + 1) as u64));
            assert(ops[3] == AsmOp::Jz((l + 1) as u64));
            assert(ops[5 + n + 3] == AsmOp::Jnz(l as u64));
            assert forall|k: int| 0 <= k < ops.len() && (#[trigger] ops[k]) is Label implies l
                <= ops[k]->Label_0 < l + labels_of_instr(v) by {
                if 5 <= k < 5 + n {
                    assert(ops[k] == mid[k - 5]);
                }
            }
            assert forall|i: int, j: int|
                0 <= i < j < ops.len() && (#[trigger] ops[i]) is Label && (#[trigger] ops[j]) is Label implies ops[i]
                != ops[j] by {
                if 5 <= i < 5 + n && 5 <= j < 5 + n {
                    assert(ops[i] == mid[i - 5]);
                    assert(ops[j] == mid[j - 5]);
                } else if 5 <= i < 5 + n {
                    assert(ops[i] == mid[i - 5]);
                } else if 5 <= j < 5 + n {
                    assert(ops[j] == mid[j - 5]);
                }
            }
            assert forall|i: int| 0 <= i < ops.len() && is_jump(#[trigger] ops[i]) implies exists|j: int|
                0 <= j < ops.len() && (#[trigger] ops[j]) == AsmOp::Label(jump_target(ops[i])) by {
                if i == 3 {
                    assert(ops[5 + n + 4] == AsmOp::Label(jump_target(ops[3])));
                } else if i == 5 + n + 3 {
                    assert(ops[4] == AsmOp::Label(jump_target(ops[i])));
                } else if 5 <= i < 5 + n {
                    assert(ops[i] == mid[i - 5]);
                    let j = choose|j: int|
                        0 <= j < mid.len() && (#[trigger] mid[j]) == AsmOp::Label(jump_target(mid[i - 5]));
                    assert(ops[5 + j] == AsmOp::Label(jump_target(ops[i])));
                }
            }
        }
        _ => {
            assert forall|k: int| 0 <= k < ops.len() implies !((#[trigger] ops[k]) is Label)
                && !is_jump(ops[k]) by {}
        }
    }
}

/// The same well-formedness for the emission of a whole program.
#[verifier::rlimit(60)]
proof fn lemma_seq_emission_wf(s: Seq<Instr>, l: int)
    requires
        1 <= l,
        l + labels_of_seq(s) <= u64::MAX + 1,
    ensures
        unique_labels(ops_of_seq(s, l)),
        jumps_resolved(ops_of_seq(s, l)),
        forall|k: int|
            0 <= k < ops_of_seq(s, l).len() && (#[trigger] ops_of_seq(s, l)[k]) is Label ==> l
                <= ops_of_seq(s, l)[k]->Label_0 < l + labels_of_seq(s),
    decreases s,
{
    let ops = ops_of_seq(s, l);
    if s.len() > 0 {
        let t = s.subrange(1, s.len() as int);
        lemma_instr_emission_wf(s[0], l);
        lemma_seq_emission_wf(t, l + labels_of_instr(s[0]));
        let x = ops_of_instr(s[0], l);
        let y = ops_of_seq(t, l + labels_of_instr(s[0]));
        let n = x.len() as int;
        assert(ops =~= x + y);
        assert forall|k: int| 0 <= k < ops.len() && (#[trigger] ops[k]) is Label implies l
            <= ops[k]->Label_0 < l + labels_of_seq(s) by {
            if k < n {
                assert(ops[k] == x[k]);
            } else {
                assert(ops[k] == y[k - n]);
            }
        }
        assert forall|i: int, j: int|
            0 <= i < j < ops.len() && (#[trigger] ops[i]) is Label && (#[trigger] ops[j]) is Label implies ops[i]
            != ops[j] by {
            if i < n {
                assert(ops[i] == x[i]);
            } else {
                assert(ops[i] == y[i - n]);
            }
            if j < n {
                assert(ops[j] == x[j]);
            } else {
                assert(ops[j] == y[j - n]);
            }
        }
        assert forall|i: int| 0 <= i < ops.len() && is_jump(#[trigger] ops[i]) implies exists|j: int|
            0 <= j < ops.len() && (#[trigger] ops[j]) == AsmOp::Label(jump_target(ops[i])) by {
            if i < n {
                assert(ops[i] == x[i]);
                let j = choose|j: int|
                    0 <= j < x.len() && (#[trigger] x[j]) == AsmOp::Label(jump_target(x[i]));
                assert(ops[j] == AsmOp::Label(jump_target(ops[i])));
            } else {
                assert(ops[i] == y[i - n]);
                let j = choose|j: int|
                    0 <= j < y.len() && (#[trigger] y[j]) == AsmOp::Label(jump_target(y[i - n]));
                assert(ops[n + j] == AsmOp::Label(jump_target(ops[i])));
            }
        }
    }
}

/// The whole emission of a compilation is well formed: its labels are
/// pairwise distinct and every jump targets one of them.
pub proof fn lemma_compiled_ops_wf(p: Seq<Instr>)
    requires
        labels_of_seq(p) <= u64::MAX,
    ensures
        unique_labels(compiled_ops(p)),
        jumps_resolved(compiled_ops(p)),
{
    lemma_seq_emission_wf(p, 1);
    let ops = ops_of_seq(p, 1);
    let all = compiled_ops(p);
    assert forall|i: int, j: int|
        0 <= i < j < all.len() && (#[trigger] all[i]) is Label && (#[trigger] all[j]) is Label implies all[i]
        != all[j] by {
        assert(all[i] == ops[i]);
        assert(j < ops.len());
        assert(all[j] == ops[j]);
    }
    assert forall|i: int| 0 <= i < all.len() && is_jump(#[trigger] all[i]) implies exists|j: int|
        0 <= j < all.len() && (#[trigger] all[j]) == AsmOp::Label(jump_target(all[i])) by {
        assert(i < ops.len());
        assert(all[i] == ops[i]);
        let j = choose|j: int| 0 <= j < ops.len() && (#[trigger] ops[j]) == AsmOp::Label(jump_target(ops[i]));
        assert(all[j] == AsmOp::Label(jump_target(all[i])));
    }
}

/// Compiling the same program twice yields byte-equal machine code: the
/// emitted stream, and with it the assembler's encoding, is a function
/// of the program alone.
pub proof fn lemma_compile_deterministic(p: Seq<Instr>, r1: Seq<u8>, r2: Seq<u8>)
    requires
        r1 == assembled(compiled_ops(p)),
        r2 == assembled(compiled_ops(p)),
    ensures
        r1 == r2,
{
}

} // verus!
