//! A straightforward interpreter for the intermediate representation,
//! and the soundness of the peephole rewrites against it: the fused
//! instruction computes exactly the state the rewritten loop computes.

use vstd::prelude::*;

use crate::instruction::{instr_amount, instr_move, lemma_wf_seq, wf_instr, wf_seq, Instr};
use crate::parser::{fused_shape, spec_optimize};

verus! {

/// One state of the straightforward Brainfuck machine: an unbounded
/// tape of bytes, the data pointer, the input not yet read and the
/// output written so far.
#[verifier::ext_equal]
pub struct MachState {
    pub tape: Map<int, u8>,
    pub ptr: int,
    pub input: Seq<u8>,
    pub output: Seq<u8>,
}

/// The tape is total: every position holds a byte.
pub open spec fn wf_state(st: MachState) -> bool {
    forall|i: int| #[trigger] st.tape.dom().contains(i)
}

/// The byte under the data pointer.
pub open spec fn cell(st: MachState) -> u8 {
    st.tape[st.ptr]
}

/// Byte arithmetic: add a (possibly negative) amount, wrapping mod 256.
pub open spec fn wrap_add(a: u8, b: int) -> u8 {
    (((a as int) + b) % 256) as u8
}

/// Run one instruction.  Every instruction is total except `Loop`,
/// which returns nothing when the fuel runs out before the loop ends.
pub open spec fn eval_instr(v: Instr, st: MachState, fuel: nat) -> Option<MachState>
    decreases fuel, v,
{
    match v {
        Instr::Increment(n) => Some(
            MachState { tape: st.tape.insert(st.ptr, wrap_add(cell(st), n as int)), ..st },
        ),
        Instr::Decrement(n) => Some(
            MachState { tape: st.tape.insert(st.ptr, wrap_add(cell(st), -(n as int))), ..st },
        ),
        Instr::Forward(k) => Some(MachState { ptr: st.ptr + k, ..st }),
        Instr::Back(k) => Some(MachState { ptr: st.ptr - k, ..st }),
        Instr::Print => Some(MachState { output: st.output.push(cell(st)), ..st }),
        Instr::Read => if st.input.len() == 0 {
            // End of input: the cell keeps its prior value.
            Some(st)
        } else {
            Some(
                MachState {
                    tape: st.tape.insert(st.ptr, st.input[0]),
                    input: st.input.subrange(1, st.input.len() as int),
                    ..st
                },
            )
        },
        Instr::SetToZero => Some(MachState { tape: st.tape.insert(st.ptr, 0), ..st }),
        Instr::Add(off, m) => Some(fused_state(st, off as int, m, true)),
        Instr::Sub(off, m) => Some(fused_state(st, off as int, m, false)),
        Instr::Loop(body) => if cell(st) == 0 {
            Some(st)
        } else if fuel == 0 {
            None
        } else {
            match eval_seq(body, st, (fuel - 1) as nat) {
                Some(st2) => eval_instr(Instr::Loop(body), st2, (fuel - 1) as nat),
                None => None,
            }
        },
    }
}

/// Run a sequence of instructions in order.
pub open spec fn eval_seq(s: Seq<Instr>, st: MachState, fuel: nat) -> Option<MachState>
    decreases fuel, s,
{
    if s.len() == 0 {
        Some(st)
    } else {
        match eval_instr(s[0], st, fuel) {
            Some(st2) => eval_seq(s.subrange(1, s.len() as int), st2, fuel),
            None => None,
        }
    }
}

/// What a fused multiply-add (or -sub) computes: read the cell, zero
/// it, then add (or subtract) the read value times the multiplier to
/// the cell `d` away — in the order the generated machine code does it.
pub open spec fn fused_state(st: MachState, d: int, m: u8, add: bool) -> MachState {
    let v = cell(st);
    let t1 = st.tape.insert(st.ptr, 0);
    let amount = if add {
        (v as int) * (m as int)
    } else {
        -((v as int) * (m as int))
    };
    MachState { tape: t1.insert(st.ptr + d, wrap_add(t1[st.ptr + d], amount)), ..st }
}

/// On a zero cell the fused operation changes nothing.
proof fn lemma_fused_base(st: MachState, d: int, m: u8, add: bool)
    requires
        wf_state(st),
        cell(st) == 0,
    ensures
        fused_state(st, d, m, add) == st,
{
    assert(st.tape.insert(st.ptr, 0) =~= st.tape);
    assert(wrap_add(st.tape[st.ptr + d], 0) == st.tape[st.ptr + d]);
    assert(fused_state(st, d, m, add).tape =~= st.tape);
    assert(fused_state(st, d, m, add) =~= st);
}

// ---------------------------------------------------------------------
// Soundness of the zero-cell rewrite.
// ---------------------------------------------------------------------

/// The body of the zero-cell loop.
pub open spec fn zero_cell_body() -> Seq<Instr> {
    seq![Instr::Decrement(1)]
}

/// The state the zero-cell loop ends in.
spec fn zeroed(st: MachState) -> MachState {
    MachState { tape: st.tape.insert(st.ptr, 0), ..st }
}

/// With fuel for each pass, the zero-cell loop ends with the cell zero.
proof fn lemma_zero_cell_runs(st: MachState)
    requires
        wf_state(st),
    ensures
        eval_instr(Instr::Loop(zero_cell_body()), st, cell(st) as nat) == Some(zeroed(st)),
    decreases cell(st),
{
    let v = cell(st);
    if v == 0 {
        assert(st.tape.insert(st.ptr, 0) =~= st.tape);
        assert(zeroed(st) =~= st);
    } else {
        let f = (v - 1) as nat;
        let st1 = MachState { tape: st.tape.insert(st.ptr, wrap_add(v, -1)), ..st };
        assert(zero_cell_body()[0] == Instr::Decrement(1));
        assert(zero_cell_body().subrange(1, 1) =~= Seq::<Instr>::empty());
        assert(eval_instr(zero_cell_body()[0], st, f) == Some(st1));
        assert(eval_seq(Seq::<Instr>::empty(), st1, f) == Some(st1));
        assert(eval_seq(zero_cell_body(), st, f) == Some(st1));
        assert(wrap_add(v, -1) == (v - 1) as u8);
        assert(cell(st1) == v - 1);
        lemma_zero_cell_runs(st1);
        assert(cell(st1) as nat == f);
        assert(zeroed(st1).tape =~= zeroed(st).tape);
        assert(zeroed(st1) =~= zeroed(st));
    }
}

/// Whatever fuel a successful run of the zero-cell loop had, it ends in
/// the same state.
proof fn lemma_zero_cell_any_fuel(st: MachState, f: nat, r: MachState)
    requires
        wf_state(st),
        eval_instr(Instr::Loop(zero_cell_body()), st, f) == Some(r),
    ensures
        r == zeroed(st),
    decreases f,
{
    let v = cell(st);
    if v == 0 {
        assert(st.tape.insert(st.ptr, 0) =~= st.tape);
        assert(zeroed(st) =~= st);
    } else {
        let f1 = (f - 1) as nat;
        let st1 = MachState { tape: st.tape.insert(st.ptr, wrap_add(v, -1)), ..st };
        assert(zero_cell_body()[0] == Instr::Decrement(1));
        assert(zero_cell_body().subrange(1, 1) =~= Seq::<Instr>::empty());
        assert(eval_instr(zero_cell_body()[0], st, f1) == Some(st1));
        assert(eval_seq(Seq::<Instr>::empty(), st1, f1) == Some(st1));
        assert(eval_seq(zero_cell_body(), st, f1) == Some(st1));
        lemma_zero_cell_any_fuel(st1, f1, r);
        assert(zeroed(st1).tape =~= zeroed(st).tape);
        assert(zeroed(st1) =~= zeroed(st));
    }
}

/// Zero-cell soundness: the loop `[-]` and the `SetToZero` it is
/// rewritten to compute exactly the same states.
pub proof fn lemma_zero_cell_sound(st: MachState, st2: MachState)
    requires
        wf_state(st),
    ensures
        (exists|f: nat| eval_instr(Instr::Loop(zero_cell_body()), st, f) == Some(st2))
            <==> eval_instr(spec_optimize(zero_cell_body()), st, 0) == Some(st2),
{
    assert(spec_optimize(zero_cell_body()) == Instr::SetToZero);
    if eval_instr(Instr::SetToZero, st, 0) == Some::<MachState>(st2) {
        lemma_zero_cell_runs(st);
        let f = cell(st) as nat;
        assert(eval_instr(Instr::Loop(zero_cell_body()), st, f) == Some(st2));
    }
    if exists|f: nat| eval_instr(Instr::Loop(zero_cell_body()), st, f) == Some(st2) {
        let f = choose|f: nat| eval_instr(Instr::Loop(zero_cell_body()), st, f) == Some(st2);
        lemma_zero_cell_any_fuel(st, f, st2);
    }
}

// ---------------------------------------------------------------------
// Soundness of the multiply-add rewrite, for all seven enabled shapes.
// ---------------------------------------------------------------------

/// The state after one pass of any multiply-add loop body: the cell one
/// lower, the cell `d` away raised (or lowered) by `x`, the pointer
/// back where it was.
spec fn iter_state(st: MachState, d: int, x: u8, add: bool) -> MachState {
    MachState {
        tape: st.tape.insert(st.ptr, wrap_add(cell(st), -1)).insert(
            st.ptr + d,
            wrap_add(st.tape[st.ptr + d], if add {
                x as int
            } else {
                -(x as int)
            }),
        ),
        ..st
    }
}

/// Two wrapped additions collapse into one.
proof fn lemma_wrap_chain(t: u8, x: int, w: int)
    ensures
        wrap_add(wrap_add(t, x), w) == wrap_add(t, x + w),
{
    vstd::arithmetic::div_mod::lemma_add_mod_noop_right((t as int + x) % 256, w, 256);
    vstd::arithmetic::div_mod::lemma_add_mod_noop(t as int + x, w, 256);
    assert(0 <= (t as int + x) % 256 < 256) by {
        vstd::arithmetic::div_mod::lemma_mod_bound(t as int + x, 256);
    }
}

/// One pass keeps the tape total.
proof fn lemma_iter_wf(st: MachState, d: int, x: u8, add: bool)
    requires
        wf_state(st),
    ensures
        wf_state(iter_state(st, d, x, add)),
{
}

/// One pass feeds the fused result: running the fused operation after
/// one pass lands where running it before does.
#[verifier::rlimit(60)]
proof fn lemma_fused_step(st: MachState, d: int, x: u8, add: bool)
    requires
        wf_state(st),
        d != 0,
        cell(st) != 0,
    ensures
        fused_state(iter_state(st, d, x, add), d, x, add) == fused_state(st, d, x, add),
{
    let p = st.ptr;
    let v = cell(st) as int;
    let t = st.tape[p + d];
    let mid = iter_state(st, d, x, add);
    assert(cell(mid) == wrap_add(cell(st), -1));
    assert(cell(mid) as int == v - 1);
    let lhs = fused_state(mid, d, x, add);
    let rhs = fused_state(st, d, x, add);
    if add {
        assert(mid.tape.insert(p, 0)[p + d] == wrap_add(t, x as int));
        lemma_wrap_chain(t, x as int, (v - 1) * (x as int));
        assert(x as int + (v - 1) * (x as int) == v * (x as int)) by (nonlinear_arith);
        assert(wrap_add(wrap_add(t, x as int), (v - 1) * (x as int)) == wrap_add(
            t,
            v * (x as int),
        ));
    } else {
        assert(mid.tape.insert(p, 0)[p + d] == wrap_add(t, -(x as int)));
        lemma_wrap_chain(t, -(x as int), -((v - 1) * (x as int)));
        assert(-(x as int) + -((v - 1) * (x as int)) == -(v * (x as int))) by (nonlinear_arith);
        assert(wrap_add(wrap_add(t, -(x as int)), -((v - 1) * (x as int))) == wrap_add(
            t,
            -(v * (x as int)),
        ));
    }
    assert(lhs.tape =~= rhs.tape);
    assert(lhs =~= rhs);
}

/// With fuel for each pass, a loop whose body computes `iter_state`
/// ends in the fused result.
proof fn lemma_fused_runs(b: Seq<Instr>, d: int, x: u8, add: bool, st: MachState)
    requires
        wf_state(st),
        d != 0,
        forall|st2: MachState, f: nat|
            wf_state(st2) ==> #[trigger] eval_seq(b, st2, f) == Some(iter_state(st2, d, x, add)),
    ensures
        eval_instr(Instr::Loop(b), st, cell(st) as nat) == Some(fused_state(st, d, x, add)),
    decreases cell(st),
{
    if cell(st) == 0 {
        lemma_fused_base(st, d, x, add);
    } else {
        let f = (cell(st) - 1) as nat;
        assert(eval_seq(b, st, f) == Some(iter_state(st, d, x, add)));
        let mid = iter_state(st, d, x, add);
        lemma_iter_wf(st, d, x, add);
        assert(cell(mid) as nat == f);
        lemma_fused_runs(b, d, x, add, mid);
        lemma_fused_step(st, d, x, add);
    }
}

/// Whatever fuel a successful run of such a loop had, it ends in the
/// fused result.
proof fn lemma_fused_any_fuel(b: Seq<Instr>, d: int, x: u8, add: bool, st: MachState, f: nat, r: MachState)
    requires
        wf_state(st),
        d != 0,
        forall|st2: MachState, f2: nat|
            wf_state(st2) ==> #[trigger] eval_seq(b, st2, f2) == Some(iter_state(st2, d, x, add)),
        eval_instr(Instr::Loop(b), st, f) == Some(r),
    ensures
        r == fused_state(st, d, x, add),
    decreases f,
{
    if cell(st) == 0 {
        lemma_fused_base(st, d, x, add);
    } else {
        let f1 = (f - 1) as nat;
        assert(eval_seq(b, st, f1) == Some(iter_state(st, d, x, add)));
        let mid = iter_state(st, d, x, add);
        lemma_iter_wf(st, d, x, add);
        lemma_fused_any_fuel(b, d, x, add, mid, f1, r);
        lemma_fused_step(st, d, x, add);
    }
}

/// Both halves of the soundness claim, from the two lemmas above.
proof fn lemma_fused_loop_sound(b: Seq<Instr>, d: int, x: u8, add: bool, st: MachState, st2: MachState)
    requires
        wf_state(st),
        d != 0,
        forall|st3: MachState, f: nat|
            wf_state(st3) ==> #[trigger] eval_seq(b, st3, f) == Some(iter_state(st3, d, x, add)),
    ensures
        (exists|f: nat| eval_instr(Instr::Loop(b), st, f) == Some(st2)) <==> st2 == fused_state(
            st,
            d,
            x,
            add,
        ),
{
    if st2 == fused_state(st, d, x, add) {
        lemma_fused_runs(b, d, x, add, st);
        let f = cell(st) as nat;
        assert(eval_instr(Instr::Loop(b), st, f) == Some(st2));
    }
    if exists|f: nat| eval_instr(Instr::Loop(b), st, f) == Some(st2) {
        let f = choose|f: nat| eval_instr(Instr::Loop(b), st, f) == Some(st2);
        lemma_fused_any_fuel(b, d, x, add, st, f, st2);
    }
}

/// One pass of a four-instruction body `first, move there, change by
/// `x`, move back` computes `iter_state`, whatever the fuel.  The body
/// is given element by element; `d` is the signed movement of its
/// middle pair.
#[verifier::rlimit(100)]
proof fn lemma_iter_dec_first(st: MachState, k: u32, x: u8, d: int, add: bool, f: nat, b: Seq<Instr>)
    requires
        wf_state(st),
        1 <= k,
        d == (if d >= 0 { k as int } else { -(k as int) }),
        b =~= seq![
            Instr::Decrement(1),
            if d >= 0 { Instr::Forward(k) } else { Instr::Back(k) },
            if add { Instr::Increment(x) } else { Instr::Decrement(x) },
            if d >= 0 { Instr::Back(k) } else { Instr::Forward(k) },
        ],
    ensures
        eval_seq(b, st, f) == Some(iter_state(st, d, x, add)),
{
    let p = st.ptr;
    let st1 = MachState { tape: st.tape.insert(p, wrap_add(cell(st), -1)), ..st };
    let st2 = MachState { ptr: p + d, ..st1 };
    assert(cell(st2) == st.tape[p + d]);
    let st3 = MachState {
        tape: st2.tape.insert(p + d, wrap_add(st.tape[p + d], if add {
            x as int
        } else {
            -(x as int)
        })),
        ..st2
    };
    let st4 = MachState { ptr: p, ..st3 };
    let b1 = b.subrange(1, 4);
    let b2 = b1.subrange(1, 3);
    let b3 = b2.subrange(1, 2);
    let b4 = b3.subrange(1, 1);
    assert(b1 =~= seq![b[1], b[2], b[3]]);
    assert(b2 =~= seq![b[2], b[3]]);
    assert(b3 =~= seq![b[3]]);
    assert(b4 =~= Seq::<Instr>::empty());
    assert(eval_instr(b[0], st, f) == Some(st1));
    assert(eval_instr(b1[0], st1, f) == Some(st2));
    assert(eval_instr(b2[0], st2, f) == Some(st3));
    assert(eval_instr(b3[0], st3, f) == Some(st4));
    assert(eval_seq(b4, st4, f) == Some(st4));
    assert(eval_seq(b3, st3, f) == Some(st4));
    assert(eval_seq(b2, st2, f) == Some(st4));
    assert(eval_seq(b1, st1, f) == Some(st4));
    assert(eval_seq(b, st, f) == Some(st4));
    assert(st4 =~= iter_state(st, d, x, add));
}

/// The same for a body that decrements its source cell last: `move
/// there, change by `x`, move back, decrement`.
#[verifier::rlimit(100)]
proof fn lemma_iter_dec_last(st: MachState, k: u32, x: u8, d: int, add: bool, f: nat, b: Seq<Instr>)
    requires
        wf_state(st),
        1 <= k,
        d == (if d >= 0 { k as int } else { -(k as int) }),
        b =~= seq![
            if d >= 0 { Instr::Forward(k) } else { Instr::Back(k) },
            if add { Instr::Increment(x) } else { Instr::Decrement(x) },
            if d >= 0 { Instr::Back(k) } else { Instr::Forward(k) },
            Instr::Decrement(1),
        ],
    ensures
        eval_seq(b, st, f) == Some(iter_state(st, d, x, add)),
{
    let p = st.ptr;
    let st1 = MachState { ptr: p + d, ..st };
    assert(cell(st1) == st.tape[p + d]);
    let st2 = MachState {
        tape: st1.tape.insert(p + d, wrap_add(st.tape[p + d], if add {
            x as int
        } else {
            -(x as int)
        })),
        ..st1
    };
    let st3 = MachState { ptr: p, ..st2 };
    assert(d != 0);
    assert(cell(st3) == cell(st));
    let st4 = MachState { tape: st3.tape.insert(p, wrap_add(cell(st), -1)), ..st3 };
    let b1 = b.subrange(1, 4);
    let b2 = b1.subrange(1, 3);
    let b3 = b2.subrange(1, 2);
    let b4 = b3.subrange(1, 1);
    assert(b1 =~= seq![b[1], b[2], b[3]]);
    assert(b2 =~= seq![b[2], b[3]]);
    assert(b3 =~= seq![b[3]]);
    assert(b4 =~= Seq::<Instr>::empty());
    assert(eval_instr(b[0], st, f) == Some(st1));
    assert(eval_instr(b1[0], st1, f) == Some(st2));
    assert(eval_instr(b2[0], st2, f) == Some(st3));
    assert(eval_instr(b3[0], st3, f) == Some(st4));
    assert(eval_seq(b4, st4, f) == Some(st4));
    assert(eval_seq(b3, st3, f) == Some(st4));
    assert(eval_seq(b2, st2, f) == Some(st4));
    assert(eval_seq(b1, st1, f) == Some(st4));
    assert(eval_seq(b, st, f) == Some(st4));
    assert(st4.tape =~= iter_state(st, d, x, add).tape);
    assert(st4 =~= iter_state(st, d, x, add));
}

/// Multiply-add soundness: every loop body matching one of the seven
/// enabled shapes computes, as a loop, exactly what the fused `Add` or
/// `Sub` it is rewritten to computes — the same final states, over all
/// fuels.  The movement must fit a signed offset; a larger one flips
/// the offset's sign in the rewrite and is not equivalent.
#[verifier::rlimit(100)]
pub proof fn lemma_peephole_sound(b: Seq<Instr>, st: MachState, st2: MachState)
    requires
        wf_state(st),
        fused_shape(b),
        wf_seq(b),
        instr_move(b[0]) <= i32::MAX,
        instr_move(b[1]) <= i32::MAX,
    ensures
        (exists|f: nat| eval_instr(Instr::Loop(b), st, f) == Some(st2)) <==> eval_instr(
            spec_optimize(b),
            st,
            0,
        ) == Some(st2),
{
    lemma_wf_seq(b);
    if b[0] is Decrement {
        // Shapes that decrement first: - >k +x <k, - >k -x <k, - <k -x >k.
        let add = b[2] is Increment;
        let x = instr_amount(b[2]);
        let k = instr_move(b[1]);
        let d: int = if b[1] is Forward { k as int } else { -(k as int) };
        assert(wf_instr(b[1]));
        assert(k >= 1);
        assert(b =~= seq![
            Instr::Decrement(1),
            if d >= 0 { Instr::Forward(k) } else { Instr::Back(k) },
            if add { Instr::Increment(x) } else { Instr::Decrement(x) },
            if d >= 0 { Instr::Back(k) } else { Instr::Forward(k) },
        ]);
        assert forall|st3: MachState, f: nat| wf_state(st3) implies #[trigger] eval_seq(b, st3, f)
            == Some(iter_state(st3, d, x, add)) by {
            lemma_iter_dec_first(st3, k, x, d, add, f, b);
        }
        lemma_fused_loop_sound(b, d, x, add, st, st2);
        assert(eval_instr(spec_optimize(b), st, 0) == Some(fused_state(st, d, x, add)));
    } else {
        // Shapes that decrement last: >k +x <k -, <k +x >k -, >k -x <k -,
        // <k -x >k -.
        let add = b[1] is Increment;
        let x = instr_amount(b[1]);
        let k = instr_move(b[0]);
        let d: int = if b[0] is Forward { k as int } else { -(k as int) };
        assert(wf_instr(b[0]));
        assert(k >= 1);
        assert(b =~= seq![
            if d >= 0 { Instr::Forward(k) } else { Instr::Back(k) },
            if add { Instr::Increment(x) } else { Instr::Decrement(x) },
            if d >= 0 { Instr::Back(k) } else { Instr::Forward(k) },
            Instr::Decrement(1),
        ]);
        assert forall|st3: MachState, f: nat| wf_state(st3) implies #[trigger] eval_seq(b, st3, f)
            == Some(iter_state(st3, d, x, add)) by {
            lemma_iter_dec_last(st3, k, x, d, add, f, b);
        }
        lemma_fused_loop_sound(b, d, x, add, st, st2);
        assert(eval_instr(spec_optimize(b), st, 0) == Some(fused_state(st, d, x, add)));
    }
}

} // verus!
