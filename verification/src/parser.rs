use vstd::prelude::*;

use crate::instruction::{
    instr_amount, instr_move, lemma_view_seq, lemma_view_seq_push, view_instr, view_seq, wf_instr,
    wf_seq, Instr, Instruction,
};

verus! {

/// Why parsing fails.
#[derive(Debug, PartialEq, Eq, Clone, Copy)]
pub enum ParseError {
    /// A `]` appeared outside of any loop.
    UnmatchedClose,
    /// The input ended while a loop was still open.
    MissingClose,
}

/// Outcome of parsing from a position: the parsed instructions together
/// with the position just past the consumed input, or a fatal error.
pub enum Parsed {
    Done(Seq<Instr>, int),
    Fail(ParseError),
}

/// The first position at or after `i` that does not hold the byte `c`.
pub open spec fn run_stop(s: Seq<u8>, i: int, c: u8) -> int
    decreases s.len() - i,
{
    if i < s.len() && s[i] == c {
        run_stop(s, i + 1, c)
    } else {
        i
    }
}

/// `run_stop` marks the end of the run of `c` that starts at `i`.
pub proof fn lemma_run_stop(s: Seq<u8>, i: int, c: u8)
    requires
        0 <= i <= s.len(),
    ensures
        i <= run_stop(s, i, c) <= s.len(),
        forall|k: int| i <= k < run_stop(s, i, c) ==> s[k] == c,
        run_stop(s, i, c) == s.len() || s[run_stop(s, i, c)] != c,
    decreases s.len() - i,
{
    if i < s.len() && s[i] == c {
        lemma_run_stop(s, i + 1, c);
    }
}

/// A run count clipped to what an 8-bit field can hold.
pub open spec fn sat8(n: int) -> u8 {
    if n > 255 {
        255u8
    } else {
        n as u8
    }
}

/// A run count clipped to what a 32-bit field can hold.
pub open spec fn sat32(n: int) -> u32 {
    if n > u32::MAX {
        u32::MAX
    } else {
        n as u32
    }
}

/// The instruction for a run of `n` copies of the command `c`.
pub open spec fn run_instr(c: u8, n: int) -> Instr {
    if c == 43 {  // '+'
        Instr::Increment(sat8(n))
    } else if c == 45 {  // '-'
        Instr::Decrement(sat8(n))
    } else if c == 62 {  // '>'
        Instr::Forward(sat32(n))
    } else {  // '<'
        Instr::Back(sat32(n))
    }
}

/// Prefix one instruction onto the program of a successful outcome.
pub open spec fn prepend(v: Instr, p: Parsed) -> Parsed {
    match p {
        Parsed::Done(q, j) => Parsed::Done(seq![v] + q, j),
        Parsed::Fail(e) => Parsed::Fail(e),
    }
}

/// Negation that mirrors two's-complement wrapping at the minimum value.
pub open spec fn neg32(x: i32) -> i32 {
    if x == i32::MIN {
        x
    } else {
        (-x) as i32
    }
}

/// The peephole rewriter.  A loop body that is exactly one unit
/// decrement becomes `SetToZero`; a body of length four matching one of
/// the seven enabled multiply-add shapes becomes the fused `Add`/`Sub`;
/// anything else stays a `Loop`.
pub open spec fn spec_optimize(b: Seq<Instr>) -> Instr {
    if b.len() == 1 && b[0] == Instr::Decrement(1) {
        Instr::SetToZero
    } else if b.len() == 4 {
        if b[0] is Decrement && b[1] is Forward && b[2] is Increment && b[3] is Back
            && instr_amount(b[0]) == 1 && instr_move(b[1]) == instr_move(b[3]) {
            // - >k +x <k
            Instr::Add(instr_move(b[1]) as i32, instr_amount(b[2]))
        } else if b[0] is Forward && b[1] is Increment && b[2] is Back && b[3] is Decrement
            && instr_amount(b[3]) == 1 && instr_move(b[0]) == instr_move(b[2]) {
            // >k +x <k -
            Instr::Add(instr_move(b[0]) as i32, instr_amount(b[1]))
        } else if b[0] is Back && b[1] is Increment && b[2] is Forward && b[3] is Decrement
            && instr_amount(b[3]) == 1 && instr_move(b[0]) == instr_move(b[2]) {
            // <k +x >k -
            Instr::Add(neg32(instr_move(b[0]) as i32), instr_amount(b[1]))
        } else if b[0] is Decrement && b[1] is Forward && b[2] is Decrement && b[3] is Back
            && instr_amount(b[0]) == 1 && instr_move(b[1]) == instr_move(b[3]) {
            // - >k -x <k
            Instr::Sub(instr_move(b[1]) as i32, instr_amount(b[2]))
        } else if b[0] is Forward && b[1] is Decrement && b[2] is Back && b[3] is Decrement
            && instr_amount(b[3]) == 1 && instr_move(b[0]) == instr_move(b[2]) {
            // >k -x <k -
            Instr::Sub(instr_move(b[0]) as i32, instr_amount(b[1]))
        } else if b[0] is Decrement && b[1] is Back && b[2] is Decrement && b[3] is Forward
            && instr_amount(b[0]) == 1 && instr_move(b[1]) == instr_move(b[3]) {
            // - <k -x >k
            Instr::Sub(neg32(instr_move(b[1]) as i32), instr_amount(b[2]))
        } else if b[0] is Back && b[1] is Decrement && b[2] is Forward && b[3] is Decrement
            && instr_amount(b[3]) == 1 && instr_move(b[0]) == instr_move(b[2]) {
            // <k -x >k -
            Instr::Sub(neg32(instr_move(b[0]) as i32), instr_amount(b[1]))
        } else {
            // The eighth symmetric shape, - <k +x >k, is deliberately
            // not rewritten and stays a loop.
            Instr::Loop(b)
        }
    } else {
        Instr::Loop(b)
    }
}

/// The parser, from position `i`.  Runs of `+ - < >` fold into one
/// instruction each; `[` parses its body recursively and hands a
/// non-empty body to the peephole rewriter, while an empty body vanishes;
/// `]` closes the innermost loop, and is fatal at the top level; input
/// ending inside a loop is fatal; every other byte is a comment.
pub open spec fn spec_parse(s: Seq<u8>, i: int, in_loop: bool) -> Parsed
    decreases s.len() - i,
{
    if i < 0 || i >= s.len() {
        if in_loop {
            Parsed::Fail(ParseError::MissingClose)
        } else {
            Parsed::Done(Seq::empty(), i)
        }
    } else {
        let c = s[i];
        if c == 43 || c == 45 || c == 60 || c == 62 {  // one of + - < >
            let j = run_stop(s, i + 1, c);
            if i < j && j <= s.len() {
                prepend(run_instr(c, j - i), spec_parse(s, j, in_loop))
            } else {
                // Never reached: a run extends at least past its first byte.
                Parsed::Fail(ParseError::MissingClose)
            }
        } else if c == 46 {  // '.'
            prepend(Instr::Print, spec_parse(s, i + 1, in_loop))
        } else if c == 44 {  // ','
            prepend(Instr::Read, spec_parse(s, i + 1, in_loop))
        } else if c == 91 {  // '['
            match spec_parse(s, i + 1, true) {
                Parsed::Fail(e) => Parsed::Fail(e),
                Parsed::Done(body, j) => if i + 1 < j && j <= s.len() {
                    if body.len() == 0 {
                        spec_parse(s, j, in_loop)
                    } else {
                        prepend(spec_optimize(body), spec_parse(s, j, in_loop))
                    }
                } else {
                    // Never reached: a loop body ends past its opening bracket.
                    Parsed::Fail(ParseError::MissingClose)
                },
            }
        } else if c == 93 {  // ']'
            if in_loop {
                Parsed::Done(Seq::empty(), i + 1)
            } else {
                Parsed::Fail(ParseError::UnmatchedClose)
            }
        } else {
            spec_parse(s, i + 1, in_loop)
        }
    }
}

/// A successful parse consumes input forward, and a loop consumes at
/// least its closing bracket.
pub proof fn lemma_spec_parse_bounds(s: Seq<u8>, i: int, in_loop: bool)
    requires
        0 <= i <= s.len(),
    ensures
        spec_parse(s, i, in_loop) matches Parsed::Done(_, j) ==> {
            &&& i <= j <= s.len()
            &&& (in_loop ==> i < j)
        },
    decreases s.len() - i,
{
    if i < s.len() {
        let c = s[i];
        if c == 43 || c == 45 || c == 60 || c == 62 {
            lemma_run_stop(s, i + 1, c);
            let j = run_stop(s, i + 1, c);
            lemma_spec_parse_bounds(s, j, in_loop);
        } else if c == 46 || c == 44 {
            lemma_spec_parse_bounds(s, i + 1, in_loop);
        } else if c == 91 {
            lemma_spec_parse_bounds(s, i + 1, true);
            match spec_parse(s, i + 1, true) {
                Parsed::Done(body, j) => {
                    lemma_spec_parse_bounds(s, j, in_loop);
                }
                Parsed::Fail(_) => {}
            }
        } else if c == 93 {
        } else {
            lemma_spec_parse_bounds(s, i + 1, in_loop);
        }
    }
}

impl Instruction {
    /// Whether this instruction is exactly a unit decrement.
    fn is_unit_decrement(&self) -> (r: bool)
        ensures
            r <==> view_instr(*self) == Instr::Decrement(1),
    {
        match self {
            Instruction::Decrement(n) => *n == 1,
            _ => false,
        }
    }
}

/// Negation used when a fused idiom moves its target cell backwards;
/// wraps at the minimum value rather than overflow.
fn neg_i32(x: i32) -> (r: i32)
    ensures
        r == neg32(x),
{
    if x == i32::MIN {
        x
    } else {
        -x
    }
}

/// Equal 32-bit signed reinterpretations come from equal counts.
proof fn lemma_cast_u32_i32_injective(a: u32, b: u32)
    ensures
        a as i32 == b as i32 ==> a == b,
{
    assert(a as i32 == b as i32 ==> a == b) by (bit_vector);
}

/// Rewrite one non-empty loop body: `SetToZero` for a unit decrement,
/// a fused `Add`/`Sub` for the seven enabled four-instruction shapes,
/// and an unchanged `Loop` otherwise.
pub fn optimize_loop(c: Vec<Instruction>) -> (r: Instruction)
    ensures
        view_instr(r) == spec_optimize(view_seq(c@)),
{
    broadcast use lemma_view_seq;

    proof {
        let b = view_seq(c@);
        if b.len() == 4 {
            lemma_cast_u32_i32_injective(instr_move(b[0]), instr_move(b[2]));
            lemma_cast_u32_i32_injective(instr_move(b[1]), instr_move(b[3]));
        }
    }
    if c.len() == 1 && c[0].is_unit_decrement() {
        return Instruction::SetToZero;
    } else if c.len() == 4 {
        // - >k +x <k
        if c[0].decp() && c[1].forwardp() && c[2].incp() && c[3].backp() {
            if c[0].add_count() == 1 && c[1].move_count() == c[3].move_count() {
                return Instruction::Add(c[1].move_count(), c[2].add_count());
            }
        // >k +x <k -
        } else if c[0].forwardp() && c[1].incp() && c[2].backp() && c[3].decp() {
            if c[3].add_count() == 1 && c[0].move_count() == c[2].move_count() {
                return Instruction::Add(c[0].move_count(), c[1].add_count());
            }
        // <k +x >k -
        } else if c[0].backp() && c[1].incp() && c[2].forwardp() && c[3].decp() {
            if c[3].add_count() == 1 && c[0].move_count() == c[2].move_count() {
                return Instruction::Add(neg_i32(c[0].move_count()), c[1].add_count());
            }
        // - >k -x <k
        } else if c[0].decp() && c[1].forwardp() && c[2].decp() && c[3].backp() {
            if c[0].add_count() == 1 && c[1].move_count() == c[3].move_count() {
                return Instruction::Sub(c[1].move_count(), c[2].add_count());
            }
        // >k -x <k -
        } else if c[0].forwardp() && c[1].decp() && c[2].backp() && c[3].decp() {
            if c[3].add_count() == 1 && c[0].move_count() == c[2].move_count() {
                return Instruction::Sub(c[0].move_count(), c[1].add_count());
            }
        // - <k -x >k
        } else if c[0].decp() && c[1].backp() && c[2].decp() && c[3].forwardp() {
            if c[0].add_count() == 1 && c[1].move_count() == c[3].move_count() {
                return Instruction::Sub(neg_i32(c[1].move_count()), c[2].add_count());
            }
        // <k -x >k -
        } else if c[0].backp() && c[1].decp() && c[2].forwardp() && c[3].decp() {
            if c[3].add_count() == 1 && c[0].move_count() == c[2].move_count() {
                return Instruction::Sub(neg_i32(c[0].move_count()), c[1].add_count());
            }
        }
    }
    Instruction::Loop(c)
}

/// The end of the run of the byte at `i`: the first later position that
/// holds a different byte.
fn scan_run(code: &[u8], i: usize) -> (j: usize)
    requires
        i < code@.len(),
    ensures
        j == run_stop(code@, i + 1, code@[i as int]),
        i < j <= code@.len(),
{
    let c = code[i];
    let mut j = i + 1;
    while j < code.len() && code[j] == c
        invariant
            i < j <= code@.len(),
            c == code@[i as int],
            run_stop(code@, i + 1, c) == run_stop(code@, j as int, c),
        decreases code@.len() - j,
    {
        j = j + 1;
    }
    proof {
        lemma_run_stop(code@, j as int, c);
    }
    j
}

/// One composition step of the parser loop: consuming one item moves the
/// pending program from position `i` to position `j`.
proof fn lemma_parse_step(
    s: Seq<u8>,
    start: int,
    i: int,
    j: int,
    in_loop: bool,
    pre: Seq<Instr>,
    item: Instr,
)
    requires
        spec_parse(s, i, in_loop) == prepend(item, spec_parse(s, j, in_loop)),
        match spec_parse(s, i, in_loop) {
            Parsed::Done(p, k) => spec_parse(s, start, in_loop) == Parsed::Done(pre + p, k),
            Parsed::Fail(e) => spec_parse(s, start, in_loop) == Parsed::Fail(e),
        },
    ensures
        match spec_parse(s, j, in_loop) {
            Parsed::Done(p, k) => spec_parse(s, start, in_loop) == Parsed::Done(
                pre.push(item) + p,
                k,
            ),
            Parsed::Fail(e) => spec_parse(s, start, in_loop) == Parsed::Fail(e),
        },
{
    match spec_parse(s, j, in_loop) {
        Parsed::Done(p, k) => {
            assert(pre + (seq![item] + p) =~= pre.push(item) + p);
        }
        Parsed::Fail(_) => {}
    }
}

/// Parse the whole input from `start`.  The result agrees exactly with
/// [`spec_parse`].
fn parse_at(code: &[u8], start: usize, in_loop: bool) -> (r: Result<
    (Vec<Instruction>, usize),
    ParseError,
>)
    requires
        start <= code@.len(),
    ensures
        match r {
            Ok((prog, next)) => {
                &&& spec_parse(code@, start as int, in_loop) == Parsed::Done(
                    view_seq(prog@),
                    next as int,
                )
                &&& start <= next <= code@.len()
            },
            Err(e) => spec_parse(code@, start as int, in_loop) == Parsed::Fail(e),
        },
    decreases code@.len() - start,
{
    broadcast use lemma_view_seq;

    let ghost s = code@;
    let mut prog: Vec<Instruction> = Vec::new();
    let mut i: usize = start;
    assert(view_seq(prog@) + Seq::<Instr>::empty() =~= view_seq(prog@));
    while i < code.len()
        invariant
            start <= i <= code@.len(),
            s == code@,
            match spec_parse(s, i as int, in_loop) {
                Parsed::Done(p, k) => spec_parse(s, start as int, in_loop) == Parsed::Done(
                    view_seq(prog@) + p,
                    k,
                ),
                Parsed::Fail(e) => spec_parse(s, start as int, in_loop) == Parsed::Fail(e),
            },
        decreases code@.len() - i,
    {
        let c = code[i];
        if c == 43 || c == 45 || c == 60 || c == 62 {
            let j = scan_run(code, i);
            let n = j - i;
            let ghost item = run_instr(c, j - i);
            proof {
                lemma_parse_step(s, start as int, i as int, j as int, in_loop, view_seq(prog@), item);
                lemma_view_seq_push(prog@, Instruction::Increment(sat8(n as int)));
                lemma_view_seq_push(prog@, Instruction::Decrement(sat8(n as int)));
                lemma_view_seq_push(prog@, Instruction::Forward(sat32(n as int)));
                lemma_view_seq_push(prog@, Instruction::Back(sat32(n as int)));
            }
            if c == 43 {
                let count: u8 = if n > 255 { 255 } else { n as u8 };
                prog.push(Instruction::Increment(count));
            } else if c == 45 {
                let count: u8 = if n > 255 { 255 } else { n as u8 };
                prog.push(Instruction::Decrement(count));
            } else if c == 62 {
                let count: u32 = if n > u32::MAX as usize { u32::MAX } else { n as u32 };
                prog.push(Instruction::Forward(count));
            } else {
                let count: u32 = if n > u32::MAX as usize { u32::MAX } else { n as u32 };
                prog.push(Instruction::Back(count));
            }
            i = j;
        } else if c == 46 {
            proof {
                lemma_parse_step(
                    s,
                    start as int,
                    i as int,
                    i + 1,
                    in_loop,
                    view_seq(prog@),
                    Instr::Print,
                );
                lemma_view_seq_push(prog@, Instruction::Print);
            }
            prog.push(Instruction::Print);
            i = i + 1;
        } else if c == 44 {
            proof {
                lemma_parse_step(
                    s,
                    start as int,
                    i as int,
                    i + 1,
                    in_loop,
                    view_seq(prog@),
                    Instr::Read,
                );
                lemma_view_seq_push(prog@, Instruction::Read);
            }
            prog.push(Instruction::Read);
            i = i + 1;
        } else if c == 91 {
            proof {
                lemma_spec_parse_bounds(s, i + 1, true);
            }
            match parse_at(code, i + 1, true) {
                Err(e) => {
                    return Err(e);
                }
                Ok((body, j)) => {
                    if body.len() == 0 {
                        i = j;
                    } else {
                        let ghost item = spec_optimize(view_seq(body@));
                        proof {
                            lemma_parse_step(
                                s,
                                start as int,
                                i as int,
                                j as int,
                                in_loop,
                                view_seq(prog@),
                                item,
                            );
                        }
                        let fused = optimize_loop(body);
                        proof {
                            lemma_view_seq_push(prog@, fused);
                        }
                        prog.push(fused);
                        i = j;
                    }
                }
            }
        } else if c == 93 {
            if in_loop {
                assert(view_seq(prog@) + Seq::<Instr>::empty() =~= view_seq(prog@));
                return Ok((prog, i + 1));
            } else {
                return Err(ParseError::UnmatchedClose);
            }
        } else {
            i = i + 1;
        }
    }
    if in_loop {
        Err(ParseError::MissingClose)
    } else {
        assert(view_seq(prog@) + Seq::<Instr>::empty() =~= view_seq(prog@));
        Ok((prog, i))
    }
}

/// Parse a complete source text.  In top-level mode (`loopp` false) the
/// whole input is consumed; in inside-loop mode parsing stops at the
/// matching `]` and the rest of the input is ignored.  The program
/// returned is exactly the one [`spec_parse`] describes, and an error is
/// returned exactly when [`spec_parse`] fails.
pub fn parse(code: &[u8], loopp: bool) -> (r: Result<Vec<Instruction>, ParseError>)
    ensures
        match r {
            Ok(prog) => spec_parse(code@, 0, loopp) matches Parsed::Done(p, _) && p == view_seq(
                prog@,
            ),
            Err(e) => spec_parse(code@, 0, loopp) == Parsed::Fail(e),
        },
{
    match parse_at(code, 0, loopp) {
        Ok((prog, _)) => Ok(prog),
        Err(e) => Err(e),
    }
}

} // verus!

// ---------------------------------------------------------------------
// Laws of the parser and of the peephole rewriter.
// ---------------------------------------------------------------------

verus! {

/// Every byte of the text is one of the four run commands `+ - < >`.
pub open spec fn all_run_commands(s: Seq<u8>) -> bool {
    forall|i: int|
        0 <= i < s.len() ==> (#[trigger] s[i] == 43 || s[i] == 45 || s[i] == 60 || s[i] == 62)
}

/// One instruction per maximal run of equal commands, from position `i`:
/// the variant of the command with the run's length as its count,
/// clipped to the count field's width.
pub open spec fn runs_of(s: Seq<u8>, i: int) -> Seq<Instr>
    decreases s.len() - i,
{
    if 0 <= i < s.len() {
        let j = run_stop(s, i + 1, s[i]);
        if i < j && j <= s.len() {
            seq![run_instr(s[i], j - i)] + runs_of(s, j)
        } else {
            Seq::empty()
        }
    } else {
        Seq::empty()
    }
}

/// Run-length equivalence, generalized over the start position.
proof fn lemma_runs_from(s: Seq<u8>, i: int)
    requires
        all_run_commands(s),
        0 <= i <= s.len(),
    ensures
        spec_parse(s, i, false) == Parsed::Done(runs_of(s, i), s.len() as int),
    decreases s.len() - i,
{
    if i < s.len() {
        let c = s[i];
        lemma_run_stop(s, i + 1, c);
        let j = run_stop(s, i + 1, c);
        lemma_runs_from(s, j);
    }
}

/// Run-length equivalence: over the four run commands alone, parsing
/// folds the text into exactly one instruction per maximal run.
pub proof fn lemma_run_length_equivalence(s: Seq<u8>)
    requires
        all_run_commands(s),
    ensures
        spec_parse(s, 0, false) == Parsed::Done(runs_of(s, 0), s.len() as int),
{
    lemma_runs_from(s, 0);
}

/// The count of a folded run is the run's exact length whenever the
/// length fits the count field.
pub proof fn lemma_run_count_exact(c: u8, n: int)
    requires
        1 <= n,
        c == 43 || c == 45 ==> n <= 255,
        c == 60 || c == 62 ==> n <= u32::MAX,
    ensures
        c == 43 ==> run_instr(c, n) == Instr::Increment(n as u8),
        c == 45 ==> run_instr(c, n) == Instr::Decrement(n as u8),
        c == 62 ==> run_instr(c, n) == Instr::Forward(n as u32),
        c == 60 ==> run_instr(c, n) == Instr::Back(n as u32),
{
}

/// Empty-loop elision: a `[]` pair contributes nothing, wherever it
/// stands; parsing continues exactly as if it were not there.
pub proof fn lemma_empty_loop_elision(s: Seq<u8>, i: int, in_loop: bool)
    requires
        0 <= i,
        i + 1 < s.len(),
        s[i] == 91,
        s[i + 1] == 93,
    ensures
        spec_parse(s, i, in_loop) == spec_parse(s, i + 2, in_loop),
{
    assert(spec_parse(s, i + 1, true) == Parsed::Done(Seq::empty(), i + 2));
}

/// Zero-cell recognition: a loop body is rewritten to `SetToZero`
/// exactly when it is a single unit decrement.
pub proof fn lemma_zero_cell(b: Seq<Instr>)
    ensures
        spec_optimize(b) == Instr::SetToZero <==> (b.len() == 1 && b[0] == Instr::Decrement(1)),
{
}

/// Shape `- >k +x <k` fuses to `Add(+k, x)`: the offset is positive.
pub proof fn lemma_fuse_add_pre(k: u32, x: u8)
    requires
        1 <= k <= i32::MAX,
    ensures
        spec_optimize(
            seq![Instr::Decrement(1), Instr::Forward(k), Instr::Increment(x), Instr::Back(k)],
        ) == Instr::Add(k as i32, x),
        k as i32 > 0,
{
}

/// Shape `>k +x <k -` fuses to `Add(+k, x)`: the offset is positive.
pub proof fn lemma_fuse_add_post(k: u32, x: u8)
    requires
        1 <= k <= i32::MAX,
    ensures
        spec_optimize(
            seq![Instr::Forward(k), Instr::Increment(x), Instr::Back(k), Instr::Decrement(1)],
        ) == Instr::Add(k as i32, x),
        k as i32 > 0,
{
}

/// Shape `<k +x >k -` fuses to `Add(-k, x)`: the offset is negative.
pub proof fn lemma_fuse_add_neg(k: u32, x: u8)
    requires
        1 <= k <= i32::MAX,
    ensures
        spec_optimize(
            seq![Instr::Back(k), Instr::Increment(x), Instr::Forward(k), Instr::Decrement(1)],
        ) == Instr::Add(neg32(k as i32), x),
        neg32(k as i32) < 0,
{
}

/// Shape `- >k -x <k` fuses to `Sub(+k, x)`: the offset is positive.
pub proof fn lemma_fuse_sub_pre(k: u32, x: u8)
    requires
        1 <= k <= i32::MAX,
    ensures
        spec_optimize(
            seq![Instr::Decrement(1), Instr::Forward(k), Instr::Decrement(x), Instr::Back(k)],
        ) == Instr::Sub(k as i32, x),
        k as i32 > 0,
{
}

/// Shape `>k -x <k -` fuses to `Sub(+k, x)`: the offset is positive.
pub proof fn lemma_fuse_sub_post(k: u32, x: u8)
    requires
        1 <= k <= i32::MAX,
    ensures
        spec_optimize(
            seq![Instr::Forward(k), Instr::Decrement(x), Instr::Back(k), Instr::Decrement(1)],
        ) == Instr::Sub(k as i32, x),
        k as i32 > 0,
{
}

/// Shape `- <k -x >k` fuses to `Sub(-k, x)`: the offset is negative.
pub proof fn lemma_fuse_sub_neg_pre(k: u32, x: u8)
    requires
        1 <= k <= i32::MAX,
    ensures
        spec_optimize(
            seq![Instr::Decrement(1), Instr::Back(k), Instr::Decrement(x), Instr::Forward(k)],
        ) == Instr::Sub(neg32(k as i32), x),
        neg32(k as i32) < 0,
{
}

/// Shape `<k -x >k -` fuses to `Sub(-k, x)`: the offset is negative.
pub proof fn lemma_fuse_sub_neg_post(k: u32, x: u8)
    requires
        1 <= k <= i32::MAX,
    ensures
        spec_optimize(
            seq![Instr::Back(k), Instr::Decrement(x), Instr::Forward(k), Instr::Decrement(1)],
        ) == Instr::Sub(neg32(k as i32), x),
        neg32(k as i32) < 0,
{
}

/// The eighth symmetric shape, `- <k +x >k`, is deliberately not
/// rewritten: it stays a loop.
pub proof fn lemma_disabled_shape(k: u32, x: u8)
    ensures
        spec_optimize(
            seq![Instr::Decrement(1), Instr::Back(k), Instr::Increment(x), Instr::Forward(k)],
        ) == Instr::Loop(
            seq![Instr::Decrement(1), Instr::Back(k), Instr::Increment(x), Instr::Forward(k)],
        ),
{
}

/// Whether a body of length four matches one of the seven enabled
/// multiply-add shapes.
pub open spec fn fused_shape(b: Seq<Instr>) -> bool {
    b.len() == 4 && {
        ||| (b[0] is Decrement && b[1] is Forward && b[2] is Increment && b[3] is Back
            && instr_amount(b[0]) == 1 && instr_move(b[1]) == instr_move(b[3]))
        ||| (b[0] is Forward && b[1] is Increment && b[2] is Back && b[3] is Decrement
            && instr_amount(b[3]) == 1 && instr_move(b[0]) == instr_move(b[2]))
        ||| (b[0] is Back && b[1] is Increment && b[2] is Forward && b[3] is Decrement
            && instr_amount(b[3]) == 1 && instr_move(b[0]) == instr_move(b[2]))
        ||| (b[0] is Decrement && b[1] is Forward && b[2] is Decrement && b[3] is Back
            && instr_amount(b[0]) == 1 && instr_move(b[1]) == instr_move(b[3]))
        ||| (b[0] is Forward && b[1] is Decrement && b[2] is Back && b[3] is Decrement
            && instr_amount(b[3]) == 1 && instr_move(b[0]) == instr_move(b[2]))
        ||| (b[0] is Decrement && b[1] is Back && b[2] is Decrement && b[3] is Forward
            && instr_amount(b[0]) == 1 && instr_move(b[1]) == instr_move(b[3]))
        ||| (b[0] is Back && b[1] is Decrement && b[2] is Forward && b[3] is Decrement
            && instr_amount(b[3]) == 1 && instr_move(b[0]) == instr_move(b[2]))
    }
}

/// A body of length four that matches none of the seven enabled shapes
/// stays a loop.
pub proof fn lemma_unfused_loop(b: Seq<Instr>)
    requires
        b.len() == 4,
        !fused_shape(b),
    ensures
        spec_optimize(b) == Instr::Loop(b),
{
}

} // verus!

// ---------------------------------------------------------------------
// Loop balance: which sources parse, characterized by bracket depth.
// ---------------------------------------------------------------------

verus! {

/// How one byte changes the bracket nesting depth.
pub open spec fn depth_delta(c: u8) -> int {
    if c == 91 {
        1
    } else if c == 93 {
        -1
    } else {
        0
    }
}

/// The bracket depth after the first `i` bytes.
pub open spec fn depth(s: Seq<u8>, i: int) -> int
    decreases i,
{
    if i <= 0 {
        0
    } else {
        depth(s, i - 1) + depth_delta(s[i - 1])
    }
}

/// Balanced brackets: no prefix closes more than it opened, and at the
/// end everything opened is closed.
pub open spec fn balanced(s: Seq<u8>) -> bool {
    &&& forall|j: int| 0 <= j <= s.len() ==> #[trigger] depth(s, j) >= 0
    &&& depth(s, s.len() as int) == 0
}

/// Across bytes that are not brackets the depth does not change.
proof fn lemma_depth_const(s: Seq<u8>, a: int, b: int)
    requires
        0 <= a <= b <= s.len(),
        forall|m: int| a <= m < b ==> depth_delta(#[trigger] s[m]) == 0,
    ensures
        forall|j: int| a <= j <= b ==> #[trigger] depth(s, j) == depth(s, a),
    decreases b - a,
{
    if b > a {
        lemma_depth_const(s, a, b - 1);
        assert(depth(s, b) == depth(s, b - 1) + depth_delta(s[b - 1]));
    }
}

/// How the parser's outcome from position `i` reads on the depth curve:
/// in inside-loop mode it ends just past the first position where the
/// depth sinks below its start, and fails when there is none; at the
/// top level it ends at the end of a curve that never sinks, and fails
/// on a sinking curve (unmatched `]`) or one left high (unterminated).
proof fn lemma_depth_characterization(s: Seq<u8>, i: int, in_loop: bool)
    requires
        0 <= i <= s.len(),
    ensures
        in_loop ==> match spec_parse(s, i, true) {
            Parsed::Done(_, next) => i < next <= s.len() && depth(s, next) == depth(s, i) - 1
                && forall|j: int| i <= j < next ==> #[trigger] depth(s, j) >= depth(s, i),
            Parsed::Fail(e) => e == ParseError::MissingClose && forall|j: int|
                i <= j <= s.len() ==> #[trigger] depth(s, j) >= depth(s, i),
        },
        !in_loop ==> match spec_parse(s, i, false) {
            Parsed::Done(_, next) => next == s.len() && depth(s, s.len() as int) == depth(s, i)
                && forall|j: int| i <= j <= s.len() ==> #[trigger] depth(s, j) >= depth(s, i),
            Parsed::Fail(e) => if e == ParseError::UnmatchedClose {
                exists|j: int| i <= j <= s.len() && #[trigger] depth(s, j) < depth(s, i)
            } else {
                depth(s, s.len() as int) > depth(s, i) && forall|j: int|
                    i <= j <= s.len() ==> #[trigger] depth(s, j) >= depth(s, i)
            },
        },
    decreases s.len() - i,
{
    let d0 = depth(s, i);
    if i >= s.len() {
    } else {
        let c = s[i];
        if c == 43 || c == 45 || c == 60 || c == 62 {
            lemma_run_stop(s, i + 1, c);
            let j = run_stop(s, i + 1, c);
            lemma_depth_const(s, i, j);
            lemma_depth_characterization(s, j, in_loop);
        } else if c == 46 || c == 44 {
            assert(depth(s, i + 1) == d0);
            lemma_depth_characterization(s, i + 1, in_loop);
        } else if c == 91 {
            assert(depth(s, i + 1) == d0 + 1);
            lemma_depth_characterization(s, i + 1, true);
            match spec_parse(s, i + 1, true) {
                Parsed::Fail(_) => {
                    assert forall|j: int| i <= j <= s.len() implies #[trigger] depth(s, j)
                        >= d0 by {
                        if j > i {
                            assert(depth(s, j) >= d0 + 1);
                        }
                    }
                    assert(depth(s, s.len() as int) >= d0 + 1);
                }
                Parsed::Done(_, m) => {
                    assert(depth(s, m) == d0);
                    lemma_depth_characterization(s, m, in_loop);
                    assert forall|j: int| i <= j < m implies #[trigger] depth(s, j) >= d0 by {
                        if j > i {
                            assert(depth(s, j) >= d0 + 1);
                        }
                    }
                }
            }
        } else if c == 93 {
            assert(depth(s, i + 1) == d0 - 1);
        } else {
            assert(depth(s, i + 1) == d0);
            lemma_depth_characterization(s, i + 1, in_loop);
        }
    }
}

/// Loop balance: a top-level parse succeeds exactly on balanced input;
/// an unmatched `]` is fatal exactly when some prefix closes more than
/// it opened, and an unterminated `[` is fatal exactly when the input
/// never sinks but ends with loops still open.
pub proof fn lemma_loop_balance(s: Seq<u8>)
    ensures
        (spec_parse(s, 0, false) matches Parsed::Done(_, _)) <==> balanced(s),
        spec_parse(s, 0, false) == Parsed::Fail(ParseError::UnmatchedClose) <==> (exists|j: int|
            0 <= j <= s.len() && #[trigger] depth(s, j) < 0),
        spec_parse(s, 0, false) == Parsed::Fail(ParseError::MissingClose) <==> ((forall|j: int|
            0 <= j <= s.len() ==> #[trigger] depth(s, j) >= 0) && depth(s, s.len() as int) > 0),
{
    lemma_depth_characterization(s, 0, false);
    assert(depth(s, 0) == 0);
}

} // verus!

// ---------------------------------------------------------------------
// Comment invisibility: comments that do not split a run of equal
// commands leave the parsed program unchanged.
// ---------------------------------------------------------------------

verus! {

/// Whether a byte is one of the eight commands.
pub open spec fn is_command(c: u8) -> bool {
    c == 43 || c == 44 || c == 45 || c == 46 || c == 60 || c == 62 || c == 91 || c == 93
}

/// Whether a byte is one of the four commands that fold into runs.
pub open spec fn is_run_command(c: u8) -> bool {
    c == 43 || c == 45 || c == 60 || c == 62
}

/// How many command bytes the first `i` bytes hold.
pub open spec fn cpos(t: Seq<u8>, i: int) -> int
    decreases i,
{
    if i <= 0 {
        0
    } else {
        cpos(t, i - 1) + (if is_command(t[i - 1]) {
            1int
        } else {
            0int
        })
    }
}

/// The command bytes from position `i` on, in order.
pub open spec fn strip_from(t: Seq<u8>, i: int) -> Seq<u8>
    decreases t.len() - i,
{
    if i < 0 || i >= t.len() {
        Seq::empty()
    } else if is_command(t[i]) {
        seq![t[i]] + strip_from(t, i + 1)
    } else {
        strip_from(t, i + 1)
    }
}

/// No comment splits a run: two command bytes with only comments
/// strictly between them are never the same run command.
#[verifier::opaque]
pub open spec fn no_split_runs(t: Seq<u8>) -> bool {
    forall|a: int, b: int|
        0 <= a && a + 1 < b && b < t.len() && is_command(#[trigger] t[a]) && is_command(
            #[trigger] t[b],
        ) && (forall|m: int| a < m < b ==> !is_command(#[trigger] t[m])) ==> !(t[a] == t[b]
            && is_run_command(t[a]))
}

/// Counting commands never decreases and grows at most one per byte.
proof fn lemma_cpos_bounds(t: Seq<u8>, i: int, j: int)
    requires
        i <= j,
    ensures
        cpos(t, i) <= cpos(t, j) <= cpos(t, i) + (j - i),
    decreases j - i,
{
    if i < j {
        lemma_cpos_bounds(t, i, j - 1);
    }
}

/// The stripped suffix has one byte per command from `i` on.
proof fn lemma_strip_len(t: Seq<u8>, i: int)
    requires
        0 <= i <= t.len(),
    ensures
        strip_from(t, i).len() == cpos(t, t.len() as int) - cpos(t, i),
    decreases t.len() - i,
{
    if i < t.len() {
        lemma_strip_len(t, i + 1);
    } else {
        lemma_cpos_bounds(t, i, t.len() as int);
    }
}

/// The whole stripped text, past its first `cpos(t, i)` bytes, is the
/// stripped suffix from `i`.
proof fn lemma_strip_skip(t: Seq<u8>, i: int)
    requires
        0 <= i <= t.len(),
    ensures
        strip_from(t, 0).skip(cpos(t, i)) =~= strip_from(t, i),
    decreases i,
{
    if i > 0 {
        reveal_with_fuel(strip_from, 3);
        lemma_strip_skip(t, i - 1);
        lemma_strip_len(t, i - 1);
        lemma_strip_len(t, i);
        lemma_cpos_bounds(t, 0, i - 1);
        lemma_strip_len(t, 0);
        lemma_cpos_bounds(t, i - 1, i);
        lemma_cpos_bounds(t, i, t.len() as int);
        let s = strip_from(t, 0);
        assert(0 <= i - 1 < t.len());
        assert(s.len() == cpos(t, t.len() as int));
        if is_command(t[i - 1]) {
            assert(strip_from(t, i - 1) == seq![t[i - 1]] + strip_from(t, i));
            assert(cpos(t, i) == cpos(t, i - 1) + 1);
            assert forall|n: int| 0 <= n < s.len() - cpos(t, i) implies s.skip(cpos(t, i))[n]
                == strip_from(t, i)[n] by {
                assert(s.skip(cpos(t, i - 1))[n + 1] == strip_from(t, i - 1)[n + 1]);
                assert(s.skip(cpos(t, i - 1))[n + 1] == s[cpos(t, i - 1) + 1 + n]);
                assert(strip_from(t, i - 1)[n + 1] == strip_from(t, i)[n]);
            }
            assert(s.skip(cpos(t, i)) =~= strip_from(t, i));
        } else {
            assert(strip_from(t, i - 1) == strip_from(t, i));
            assert(cpos(t, i) == cpos(t, i - 1));
        }
    }
}

/// A command byte stands in the stripped text at its command count.
proof fn lemma_strip_head(t: Seq<u8>, i: int)
    requires
        0 <= i < t.len(),
        is_command(t[i]),
    ensures
        0 <= cpos(t, i) < strip_from(t, 0).len(),
        strip_from(t, 0)[cpos(t, i)] == t[i],
        strip_from(t, 0).len() == cpos(t, t.len() as int),
    decreases i,
{
    lemma_strip_skip(t, i);
    lemma_strip_len(t, i);
    lemma_strip_len(t, 0);
    lemma_cpos_bounds(t, 0, i);
    lemma_cpos_bounds(t, i, i + 1);
    lemma_cpos_bounds(t, i + 1, t.len() as int);
    let s = strip_from(t, 0);
    assert(strip_from(t, i)[0] == t[i]);
    assert(s.skip(cpos(t, i))[0] == s[cpos(t, i)]);
}

/// Past position `i` with commands still to come, there is a next
/// command byte, with only comments before it.
proof fn lemma_next_cmd(t: Seq<u8>, i: int) -> (m: int)
    requires
        0 <= i <= t.len(),
        cpos(t, i) < cpos(t, t.len() as int),
    ensures
        i <= m < t.len(),
        is_command(t[m]),
        cpos(t, m) == cpos(t, i),
        forall|r: int| i <= r < m ==> !is_command(#[trigger] t[r]),
    decreases t.len() - i,
{
    lemma_cpos_bounds(t, i, t.len() as int);
    if is_command(t[i]) {
        i
    } else {
        let m = lemma_next_cmd(t, i + 1);
        m
    }
}

/// A run ends exactly where its bytes stop matching.
proof fn lemma_run_stop_exact(s: Seq<u8>, a: int, q: int, c: u8)
    requires
        0 <= a <= q <= s.len(),
        forall|m: int| a <= m < q ==> s[m] == c,
        q == s.len() || s[q] != c,
    ensures
        run_stop(s, a, c) == q,
    decreases q - a,
{
    if a < q {
        lemma_run_stop_exact(s, a + 1, q, c);
    }
}

/// A successful inside-loop parse ends just past a closing bracket.
proof fn lemma_close_ends(t: Seq<u8>, i: int)
    requires
        0 <= i <= t.len(),
    ensures
        spec_parse(t, i, true) matches Parsed::Done(_, m) ==> 1 <= m <= t.len() && t[m - 1]
            == 93,
    decreases t.len() - i,
{
    if i < t.len() {
        let c = t[i];
        if c == 43 || c == 45 || c == 60 || c == 62 {
            lemma_run_stop(t, i + 1, c);
            lemma_close_ends(t, run_stop(t, i + 1, c));
        } else if c == 46 || c == 44 {
            lemma_close_ends(t, i + 1);
        } else if c == 91 {
            lemma_spec_parse_bounds(t, i + 1, true);
            lemma_close_ends(t, i + 1);
            match spec_parse(t, i + 1, true) {
                Parsed::Done(_, m) => {
                    lemma_close_ends(t, m);
                }
                Parsed::Fail(_) => {}
            }
        } else if c == 93 {
        } else {
            lemma_close_ends(t, i + 1);
        }
    }
}

} // verus!

verus! {

/// Inside a block of command bytes every position counts one.
proof fn lemma_cpos_run(t: Seq<u8>, i: int, j: int)
    requires
        0 <= i <= j <= t.len(),
        forall|m: int| i <= m < j ==> is_command(#[trigger] t[m]),
    ensures
        forall|m: int| i <= m <= j ==> #[trigger] cpos(t, m) == cpos(t, i) + (m - i),
    decreases j - i,
{
    if i < j {
        lemma_cpos_run(t, i + 1, j);
        assert forall|m: int| i <= m <= j implies #[trigger] cpos(t, m) == cpos(t, i) + (m
            - i) by {
            if m > i {
                assert(cpos(t, m) == cpos(t, i + 1) + (m - i - 1));
            }
        }
    }
}

/// Under `no_split_runs`, a maximal run in the text maps to a maximal
/// run of the same length in the stripped text.
proof fn lemma_run_correspond(t: Seq<u8>, i: int)
    requires
        0 <= i < t.len(),
        is_run_command(t[i]),
        no_split_runs(t),
    ensures
        ({
            let c = t[i];
            let jt = run_stop(t, i + 1, c);
            &&& run_stop(strip_from(t, 0), cpos(t, i) + 1, c) == cpos(t, i) + (jt - i)
            &&& cpos(t, jt) == cpos(t, i) + (jt - i)
        }),
{
    reveal(no_split_runs);
    let s = strip_from(t, 0);
    let c = t[i];
    let p = cpos(t, i);
    lemma_cpos_bounds(t, 0, i);
    lemma_run_stop(t, i + 1, c);
    let jt = run_stop(t, i + 1, c);
    assert(forall|m: int| i <= m < jt ==> #[trigger] t[m] == c);
    assert(forall|m: int| i <= m < jt ==> is_command(#[trigger] t[m]));
    lemma_cpos_run(t, i, jt);
    lemma_strip_len(t, 0);
    lemma_cpos_bounds(t, jt, t.len() as int);
    let q = p + (jt - i);
    assert(cpos(t, jt) == q);
    assert forall|m: int| p <= m < q implies s[m] == c by {
        let w = i + (m - p);
        assert(cpos(t, w) == m);
        lemma_strip_head(t, w);
    }
    assert(q <= s.len());
    if q < s.len() {
        let m2 = lemma_next_cmd(t, jt);
        lemma_strip_head(t, m2);
        assert(s[q] == t[m2]);
        if m2 == jt {
            assert(t[jt] != c);
        } else {
            assert(jt >= i + 1);
            assert(t[jt - 1] == c);
            assert(is_command(t[jt - 1]));
            assert(forall|r: int| jt - 1 < r < m2 ==> !is_command(#[trigger] t[r]));
            assert(!(t[jt - 1] == t[m2] && is_run_command(t[jt - 1])));
            assert(t[m2] != c);
        }
        assert(s[q] != c);
    }
    lemma_run_stop_exact(s, p + 1, q, c);
}

/// Parsing the text and parsing its command bytes alone agree,
/// position for position: the same program, the same error.
#[verifier::rlimit(100)]
proof fn lemma_strip_parse(t: Seq<u8>, i: int, in_loop: bool)
    requires
        0 <= i <= t.len(),
        no_split_runs(t),
    ensures
        spec_parse(strip_from(t, 0), cpos(t, i), in_loop) == (match spec_parse(t, i, in_loop) {
            Parsed::Done(prog, n) => Parsed::Done(prog, cpos(t, n)),
            Parsed::Fail(e) => Parsed::Fail(e),
        }),
    decreases t.len() - i,
{
    let s = strip_from(t, 0);
    let p = cpos(t, i);
    lemma_strip_len(t, 0);
    lemma_cpos_bounds(t, i, t.len() as int);
    if i == t.len() {
        assert(p == s.len());
    } else {
        let c = t[i];
        if !is_command(c) {
            assert(cpos(t, i + 1) == p);
            lemma_strip_parse(t, i + 1, in_loop);
        } else {
            lemma_strip_head(t, i);
            assert(s[p] == c);
            if c == 43 || c == 45 || c == 60 || c == 62 {
                lemma_run_stop(t, i + 1, c);
                let jt = run_stop(t, i + 1, c);
                lemma_run_correspond(t, i);
                let q = p + (jt - i);
                lemma_cpos_bounds(t, jt, t.len() as int);
                lemma_strip_parse(t, jt, in_loop);
                assert(run_instr(s[p], q - p) == run_instr(c, jt - i));
                assert(i < jt <= t.len());
                assert(p < q <= s.len());
                assert(spec_parse(t, i, in_loop) == prepend(run_instr(c, jt - i), spec_parse(t, jt, in_loop)));
                assert(spec_parse(s, p, in_loop) == prepend(run_instr(c, q - p), spec_parse(s, q, in_loop)));
            } else if c == 46 || c == 44 {
                assert(cpos(t, i + 1) == p + 1);
                lemma_strip_parse(t, i + 1, in_loop);
            } else if c == 91 {
                assert(cpos(t, i + 1) == p + 1);
                lemma_spec_parse_bounds(t, i + 1, true);
                lemma_close_ends(t, i + 1);
                lemma_strip_parse(t, i + 1, true);
                match spec_parse(t, i + 1, true) {
                    Parsed::Fail(_) => {}
                    Parsed::Done(body, m) => {
                        assert(i + 1 < m <= t.len());
                        assert(t[m - 1] == 93);
                        lemma_cpos_bounds(t, i + 1, m - 1);
                        assert(cpos(t, m) == cpos(t, m - 1) + 1);
                        lemma_cpos_bounds(t, m, t.len() as int);
                        assert(p + 1 < cpos(t, m) <= s.len());
                        lemma_strip_parse(t, m, in_loop);
                    }
                }
            } else {
                assert(cpos(t, i + 1) == p + 1);
            }
        }
    }
}

/// Comment invisibility: bytes outside the command alphabet never
/// change the parsed program nor the error, as long as no comment
/// interrupts a run of equal run commands.
pub proof fn lemma_comment_invisibility(t: Seq<u8>)
    requires
        no_split_runs(t),
    ensures
        spec_parse(strip_from(t, 0), 0, false) == (match spec_parse(t, 0, false) {
            Parsed::Done(prog, n) => Parsed::Done(prog, cpos(t, n)),
            Parsed::Fail(e) => Parsed::Fail(e),
        }),
{
    lemma_strip_parse(t, 0, false);
}

} // verus!

verus! {

/// A non-zero count stays non-zero when reinterpreted as signed.
proof fn lemma_nonzero_cast(k: u32)
    requires
        k != 0,
    ensures
        k as i32 != 0,
{
    assert(k != 0 ==> k as i32 != 0) by (bit_vector);
}

/// The instruction for a non-empty run is well formed.
proof fn lemma_run_instr_wf(c: u8, n: int)
    requires
        1 <= n,
    ensures
        wf_instr(run_instr(c, n)),
{
}

/// Adding a well-formed instruction in front keeps a program well
/// formed.
proof fn lemma_wf_prepend(v: Instr, p: Seq<Instr>)
    requires
        wf_instr(v),
        wf_seq(p),
    ensures
        wf_seq(seq![v] + p),
{
    assert((seq![v] + p).subrange(1, (seq![v] + p).len() as int) =~= p);
}

/// The peephole rewriter keeps a well-formed, non-empty body well
/// formed: fused offsets are non-zero and multipliers positive.
pub proof fn lemma_optimize_wf(b: Seq<Instr>)
    requires
        wf_seq(b),
        b.len() > 0,
    ensures
        wf_instr(spec_optimize(b)),
{
    crate::instruction::lemma_wf_seq(b);
    if b.len() == 4 {
        if instr_move(b[0]) != 0 {
            lemma_nonzero_cast(instr_move(b[0]));
        }
        if instr_move(b[1]) != 0 {
            lemma_nonzero_cast(instr_move(b[1]));
        }
    }
}

/// Everything the parser yields is well formed, from any position.
proof fn lemma_parse_wf_from(s: Seq<u8>, i: int, in_loop: bool)
    requires
        0 <= i <= s.len(),
    ensures
        spec_parse(s, i, in_loop) matches Parsed::Done(p, _) ==> wf_seq(p),
    decreases s.len() - i,
{
    if i < s.len() {
        let c = s[i];
        if c == 43 || c == 45 || c == 60 || c == 62 {
            lemma_run_stop(s, i + 1, c);
            let j = run_stop(s, i + 1, c);
            lemma_parse_wf_from(s, j, in_loop);
            match spec_parse(s, j, in_loop) {
                Parsed::Done(p, _) => {
                    lemma_run_instr_wf(c, j - i);
                    lemma_wf_prepend(run_instr(c, j - i), p);
                }
                Parsed::Fail(_) => {}
            }
        } else if c == 46 || c == 44 {
            lemma_parse_wf_from(s, i + 1, in_loop);
            match spec_parse(s, i + 1, in_loop) {
                Parsed::Done(p, _) => {
                    lemma_wf_prepend(if c == 46 {
                        Instr::Print
                    } else {
                        Instr::Read
                    }, p);
                }
                Parsed::Fail(_) => {}
            }
        } else if c == 91 {
            lemma_spec_parse_bounds(s, i + 1, true);
            lemma_parse_wf_from(s, i + 1, true);
            match spec_parse(s, i + 1, true) {
                Parsed::Done(body, m) => {
                    lemma_parse_wf_from(s, m, in_loop);
                    if body.len() > 0 {
                        lemma_optimize_wf(body);
                        match spec_parse(s, m, in_loop) {
                            Parsed::Done(p, _) => {
                                lemma_wf_prepend(spec_optimize(body), p);
                            }
                            Parsed::Fail(_) => {}
                        }
                    }
                }
                Parsed::Fail(_) => {}
            }
        } else if c == 93 {
        } else {
            lemma_parse_wf_from(s, i + 1, in_loop);
        }
    }
}

/// The structural invariants of the data model hold of every parsed
/// program: run counts are positive, fused offsets non-zero with a
/// positive multiplier, loop bodies non-empty and well formed in turn.
pub proof fn lemma_parse_well_formed(s: Seq<u8>, loopp: bool)
    ensures
        spec_parse(s, 0, loopp) matches Parsed::Done(p, _) ==> wf_seq(p),
{
    lemma_parse_wf_from(s, 0, loopp);
}

} // verus!
