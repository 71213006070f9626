use vstd::prelude::*;

verus! {

/// One operation of the intermediate representation.
///
/// Run-length variants carry the length of the source run; `Add`/`Sub`
/// carry the target-cell offset and the multiplier of the fused
/// multiply-add idiom; `Loop` owns its body exclusively.
#[derive(Debug, PartialEq, Eq)]
pub enum Instruction {
    Increment(u8),
    Decrement(u8),
    Forward(u32),
    Back(u32),
    Print,
    Read,
    Loop(Vec<Instruction>),
    SetToZero,
    Add(i32, u8),
    Sub(i32, u8),
}

/// The mathematical model of an [`Instruction`]: the same tree with a
/// `Seq` in place of the owning `Vec`.
pub enum Instr {
    Increment(u8),
    Decrement(u8),
    Forward(u32),
    Back(u32),
    Print,
    Read,
    Loop(Seq<Instr>),
    SetToZero,
    Add(i32, u8),
    Sub(i32, u8),
}

/// Model of one instruction.
pub open spec fn view_instr(inst: Instruction) -> Instr
    decreases inst,
    via view_instr_decreases
{
    match inst {
        Instruction::Increment(n) => Instr::Increment(n),
        Instruction::Decrement(n) => Instr::Decrement(n),
        Instruction::Forward(k) => Instr::Forward(k),
        Instruction::Back(k) => Instr::Back(k),
        Instruction::Print => Instr::Print,
        Instruction::Read => Instr::Read,
        Instruction::Loop(body) => Instr::Loop(view_seq(body@)),
        Instruction::SetToZero => Instr::SetToZero,
        Instruction::Add(off, mul) => Instr::Add(off, mul),
        Instruction::Sub(off, mul) => Instr::Sub(off, mul),
    }
}

#[via_fn]
proof fn view_instr_decreases(inst: Instruction) {
    match inst {
        Instruction::Loop(body) => {
            assert(decreases_to!(inst => body));
            assert(decreases_to!(body => body@));
        }
        _ => {}
    }
}

/// Model of a sequence of instructions, element by element.
pub open spec fn view_seq(s: Seq<Instruction>) -> Seq<Instr>
    decreases s,
{
    if s.len() == 0 {
        Seq::empty()
    } else {
        seq![view_instr(s[0])] + view_seq(s.subrange(1, s.len() as int))
    }
}

/// `view_seq` maps the model of each element, in order.
pub broadcast proof fn lemma_view_seq(s: Seq<Instruction>)
    ensures
        (#[trigger] view_seq(s)).len() == s.len(),
        forall|i: int| 0 <= i < s.len() ==> view_seq(s)[i] == view_instr(s[i]),
    decreases s.len(),
{
    if s.len() > 0 {
        lemma_view_seq(s.subrange(1, s.len() as int));
    }
}

/// Appending one instruction appends its model.
pub proof fn lemma_view_seq_push(s: Seq<Instruction>, inst: Instruction)
    ensures
        view_seq(s.push(inst)) == view_seq(s).push(view_instr(inst)),
{
    lemma_view_seq(s.push(inst));
    lemma_view_seq(s);
    assert(view_seq(s.push(inst)) =~= view_seq(s).push(view_instr(inst)));
}

/// The run length carried by `Increment`/`Decrement`, zero otherwise.
pub open spec fn instr_amount(v: Instr) -> u8 {
    match v {
        Instr::Increment(n) => n,
        Instr::Decrement(n) => n,
        _ => 0,
    }
}

/// The run length carried by `Forward`/`Back`, zero otherwise.
pub open spec fn instr_move(v: Instr) -> u32 {
    match v {
        Instr::Forward(k) => k,
        Instr::Back(k) => k,
        _ => 0,
    }
}

/// The structural invariants of well-formed intermediate code: run
/// lengths are positive, fused offsets are non-zero with a positive
/// multiplier, and loop bodies are non-empty and well formed in turn.
pub open spec fn wf_instr(v: Instr) -> bool
    decreases v,
{
    match v {
        Instr::Increment(n) => n >= 1,
        Instr::Decrement(n) => n >= 1,
        Instr::Forward(k) => k >= 1,
        Instr::Back(k) => k >= 1,
        Instr::Print => true,
        Instr::Read => true,
        Instr::Loop(body) => body.len() > 0 && wf_seq(body),
        Instr::SetToZero => true,
        Instr::Add(off, mul) => off != 0 && mul >= 1,
        Instr::Sub(off, mul) => off != 0 && mul >= 1,
    }
}

/// Every instruction of the sequence is well formed.
pub open spec fn wf_seq(s: Seq<Instr>) -> bool
    decreases s,
{
    s.len() == 0 || (wf_instr(s[0]) && wf_seq(s.subrange(1, s.len() as int)))
}

/// `wf_seq` holds exactly when it holds of every element.
pub proof fn lemma_wf_seq(s: Seq<Instr>)
    ensures
        wf_seq(s) <==> (forall|i: int| 0 <= i < s.len() ==> wf_instr(#[trigger] s[i])),
    decreases s.len(),
{
    if s.len() > 0 {
        lemma_wf_seq(s.subrange(1, s.len() as int));
        if wf_instr(s[0]) && forall|i: int|
            0 <= i < s.subrange(1, s.len() as int).len() ==> wf_instr(
                #[trigger] s.subrange(1, s.len() as int)[i],
            ) {
            assert forall|i: int| 0 <= i < s.len() implies wf_instr(#[trigger] s[i]) by {
                if i > 0 {
                    assert(s[i] == s.subrange(1, s.len() as int)[i - 1]);
                }
            }
        }
    }
}

impl Instruction {
    /// Whether this is an `Increment`.
    pub fn incp(&self) -> (r: bool)
        ensures
            r <==> (*self matches Instruction::Increment(_)),
    {
        match self {
            Instruction::Increment(_) => true,
            _ => false,
        }
    }

    /// Whether this is a `Decrement`.
    pub fn decp(&self) -> (r: bool)
        ensures
            r <==> (*self matches Instruction::Decrement(_)),
    {
        match self {
            Instruction::Decrement(_) => true,
            _ => false,
        }
    }

    /// Whether this is a `Forward`.
    pub fn forwardp(&self) -> (r: bool)
        ensures
            r <==> (*self matches Instruction::Forward(_)),
    {
        match self {
            Instruction::Forward(_) => true,
            _ => false,
        }
    }

    /// Whether this is a `Back`.
    pub fn backp(&self) -> (r: bool)
        ensures
            r <==> (*self matches Instruction::Back(_)),
    {
        match self {
            Instruction::Back(_) => true,
            _ => false,
        }
    }

    /// The run length of an `Increment` or `Decrement`.
    pub fn add_count(&self) -> (r: u8)
        requires
            *self matches Instruction::Increment(_) || *self matches Instruction::Decrement(_),
        ensures
            r == instr_amount(view_instr(*self)),
    {
        match self {
            Instruction::Increment(i) | Instruction::Decrement(i) => *i,
            _ => unreached(),
        }
    }

    /// The run length of a `Forward` or `Back`, as the signed value the
    /// fused rewrites work with.
    pub fn move_count(&self) -> (r: i32)
        requires
            *self matches Instruction::Forward(_) || *self matches Instruction::Back(_),
        ensures
            r == instr_move(view_instr(*self)) as i32,
    {
        match self {
            Instruction::Forward(i) | Instruction::Back(i) => *i as i32,
            _ => unreached(),
        }
    }
}

} // verus!
