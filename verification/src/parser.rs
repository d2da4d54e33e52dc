//! Translating source text into instructions.
//!
//! A single left-to-right pass maps each recognized character to one
//! instruction and skips every other character. Matched bracket pairs are
//! resolved into absolute indices into the produced instruction sequence:
//! the opening instruction stores the index of its matching closing
//! instruction and vice versa. Unmatched brackets are rejected.

use vstd::prelude::*;

verus! {

/// One compiled instruction.
///
/// The payload of the two jump variants is the absolute index, within the
/// instruction sequence, of the matching bracket instruction.
#[derive(Clone, Copy, Debug, PartialEq, Eq, Structural)]
pub enum Instr {
    Increment,
    Decrement,
    MoveRight,
    MoveLeft,
    Output,
    Input,
    JumpIfZero(usize),
    JumpIfNonZero(usize),
    DumpTape,
}

/// Why a source text was rejected.
#[derive(Clone, Copy, Debug, PartialEq, Eq, Structural)]
pub enum ParseError {
    /// A closing bracket appeared with no opening bracket pending.
    UnmatchedClosingBracket,
    /// At least one opening bracket was never closed.
    UnmatchedOpeningBracket,
}

/// The instruction a non-bracket character stands for, if any.
pub open spec fn simple_instr(c: char) -> Option<Instr> {
    if c == '+' {
        Some(Instr::Increment)
    } else if c == '-' {
        Some(Instr::Decrement)
    } else if c == '>' {
        Some(Instr::MoveRight)
    } else if c == '<' {
        Some(Instr::MoveLeft)
    } else if c == '.' {
        Some(Instr::Output)
    } else if c == ',' {
        Some(Instr::Input)
    } else if c == '#' {
        Some(Instr::DumpTape)
    } else {
        None
    }
}

/// Whether a character contributes an instruction at all.
pub open spec fn is_instr_char(c: char) -> bool {
    c == '[' || c == ']' || simple_instr(c) is Some
}

/// One parsing state: `out` is the instruction sequence built so far, and
/// `stack` holds the indices into `out` of the opening brackets that are
/// still waiting for their match, in the order they were pushed. A pending
/// opening bracket sits in `out` as `JumpIfZero(0)` until it is resolved.
///
/// The remaining characters `s` are folded into that state one at a time.
pub open spec fn parse_rec(s: Seq<char>, out: Seq<Instr>, stack: Seq<usize>) -> Result<
    Seq<Instr>,
    ParseError,
>
    decreases s.len(),
{
    if s.len() == 0 {
        if stack.len() == 0 {
            Ok(out)
        } else {
            Err(ParseError::UnmatchedOpeningBracket)
        }
    } else {
        let c = s[0];
        let rest = s.drop_first();
        if c == '[' {
            parse_rec(rest, out.push(Instr::JumpIfZero(0)), stack.push(out.len() as usize))
        } else if c == ']' {
            if stack.len() == 0 {
                Err(ParseError::UnmatchedClosingBracket)
            } else {
                let open = stack.last();
                parse_rec(
                    rest,
                    out.update(open as int, Instr::JumpIfZero(out.len() as usize)).push(
                        Instr::JumpIfNonZero(open),
                    ),
                    stack.drop_last(),
                )
            }
        } else {
            match simple_instr(c) {
                Some(ins) => parse_rec(rest, out.push(ins), stack),
                None => parse_rec(rest, out, stack),
            }
        }
    }
}

/// What parsing a whole source text yields: the instruction sequence with
/// every jump target resolved, or the error for the first unmatched bracket.
pub open spec fn parse_spec(s: Seq<char>) -> Result<Seq<Instr>, ParseError> {
    parse_rec(s, Seq::empty(), Seq::empty())
}

/// Whether position `i` of `p` has its jump target resolved symmetrically:
/// an opening jump points forward at a closing jump that points back at it,
/// and the other way round.
pub open spec fn wf_at(p: Seq<Instr>, i: int) -> bool {
    match p[i] {
        Instr::JumpIfZero(t) => i < t < p.len() && p[t as int] == Instr::JumpIfNonZero(i as usize),
        Instr::JumpIfNonZero(t) => t < i && p[t as int] == Instr::JumpIfZero(i as usize),
        _ => true,
    }
}

/// A program fit for execution: every jump target is an in-range index and
/// the two instructions of each bracket pair point at each other.
pub open spec fn wf_program(p: Seq<Instr>) -> bool {
    forall|i: int| 0 <= i < p.len() ==> #[trigger] wf_at(p, i)
}

/// Whether position `i` of a partially built sequence is in order: a jump is
/// either still pending (its index is on the stack) or already resolved
/// symmetrically against an instruction that is not pending itself.
pub open spec fn partial_at(out: Seq<Instr>, stack: Seq<usize>, i: int) -> bool {
    match out[i] {
        Instr::JumpIfZero(t) => stack.contains(i as usize) || (i < t < out.len() && out[t as int]
            == Instr::JumpIfNonZero(i as usize)),
        Instr::JumpIfNonZero(t) => t < i && out[t as int] == Instr::JumpIfZero(i as usize)
            && !stack.contains(t),
        _ => true,
    }
}

/// The invariant of the parsing pass: stack entries are strictly increasing
/// indices of pending opening jumps in `out`, and every other position is
/// already resolved.
pub open spec fn parse_inv(out: Seq<Instr>, stack: Seq<usize>) -> bool {
    &&& forall|k: int| 0 <= k < stack.len() ==> (#[trigger] stack[k]) < out.len()
    &&& forall|k1: int, k2: int|
        0 <= k1 < k2 < stack.len() ==> #[trigger] stack[k1] < #[trigger] stack[k2]
    &&& forall|k: int| 0 <= k < stack.len() ==> out[#[trigger] stack[k] as int] is JumpIfZero
    &&& forall|i: int| 0 <= i < out.len() ==> #[trigger] partial_at(out, stack, i)
}

proof fn lemma_inv_push_simple(out: Seq<Instr>, stack: Seq<usize>, ins: Instr)
    requires
        parse_inv(out, stack),
        !(ins is JumpIfZero),
        !(ins is JumpIfNonZero),
    ensures
        parse_inv(out.push(ins), stack),
{
    let out2 = out.push(ins);
    assert forall|i: int| 0 <= i < out2.len() implies #[trigger] partial_at(out2, stack, i) by {
        if i < out.len() {
            assert(partial_at(out, stack, i));
        }
    }
}

proof fn lemma_inv_open(out: Seq<Instr>, stack: Seq<usize>)
    requires
        parse_inv(out, stack),
        out.len() < usize::MAX,
    ensures
        parse_inv(out.push(Instr::JumpIfZero(0)), stack.push(out.len() as usize)),
{
    let out2 = out.push(Instr::JumpIfZero(0));
    let stack2 = stack.push(out.len() as usize);
    assert(stack2[stack.len() as int] == out.len() as usize);
    assert forall|i: int| 0 <= i < out2.len() implies #[trigger] partial_at(out2, stack2, i) by {
        if i < out.len() {
            assert(partial_at(out, stack, i));
            match out[i] {
                Instr::JumpIfZero(t) => {
                    if stack.contains(i as usize) {
                        let k = choose|k: int| 0 <= k < stack.len() && stack[k] == i as usize;
                        assert(stack2[k] == i as usize);
                    }
                },
                Instr::JumpIfNonZero(t) => {
                    assert(t < out.len());
                    assert forall|k: int| 0 <= k < stack2.len() implies stack2[k] != t by {
                        if k < stack.len() {
                            assert(!stack.contains(t));
                        }
                    }
                },
                _ => {},
            }
        } else {
            assert(stack2.contains(out.len() as usize));
        }
    }
}

proof fn lemma_inv_close(out: Seq<Instr>, stack: Seq<usize>)
    requires
        parse_inv(out, stack),
        stack.len() > 0,
        out.len() < usize::MAX,
    ensures
        parse_inv(
            out.update(stack.last() as int, Instr::JumpIfZero(out.len() as usize)).push(
                Instr::JumpIfNonZero(stack.last()),
            ),
            stack.drop_last(),
        ),
{
    let open = stack.last();
    let ket: int = out.len() as int;
    let out2 = out.update(open as int, Instr::JumpIfZero(out.len() as usize)).push(
        Instr::JumpIfNonZero(open),
    );
    let stack2 = stack.drop_last();
    assert(stack[stack.len() - 1] == open);
    assert(open < out.len());
    // the popped entry is the largest, so it appears nowhere in the rest
    assert forall|k: int| 0 <= k < stack2.len() implies #[trigger] stack2[k] != open by {
        assert(stack[k] < stack[stack.len() - 1]);
    }
    assert(!stack2.contains(open)) by {
        if stack2.contains(open) {
            let k = choose|k: int| 0 <= k < stack2.len() && stack2[k] == open;
            assert(stack2[k] != open);
        }
    }
    assert forall|k: int| 0 <= k < stack2.len() implies out2[#[trigger] stack2[k] as int]
        is JumpIfZero by {
        assert(stack[k] == stack2[k]);
        assert(out[stack[k] as int] is JumpIfZero);
    }
    assert forall|i: int| 0 <= i < out2.len() implies #[trigger] partial_at(out2, stack2, i) by {
        if i == open as int {
            assert(out2[i] == Instr::JumpIfZero(out.len() as usize));
            assert(out2[ket] == Instr::JumpIfNonZero(open));
        } else if i == ket {
            assert(out2[i] == Instr::JumpIfNonZero(open));
            assert(out2[open as int] == Instr::JumpIfZero(out.len() as usize));
        } else if 0 <= i < out.len() {
            assert(partial_at(out, stack, i));
            match out[i] {
                Instr::JumpIfZero(t) => {
                    assert(out2[i] == out[i]);
                    if stack.contains(i as usize) {
                        let k = choose|k: int| 0 <= k < stack.len() && stack[k] == i as usize;
                        assert(k < stack.len() - 1);
                        assert(stack2[k] == i as usize);
                    } else {
                        // resolved: its partner is a closing jump, which the
                        // update cannot touch, since position `open` holds an
                        // opening jump
                        assert(out[open as int] is JumpIfZero);
                        assert(t != open);
                        assert(out2[t as int] == out[t as int]);
                    }
                },
                Instr::JumpIfNonZero(t) => {
                    assert(out2[i] == out[i]);
                    assert(!stack.contains(t));
                    assert(t != open) by {
                        if t == open {
                            assert(stack[stack.len() - 1] == t);
                            assert(stack.contains(t));
                        }
                    }
                    assert(out2[t as int] == out[t as int]);
                    assert(!stack2.contains(t)) by {
                        if stack2.contains(t) {
                            let k = choose|k: int| 0 <= k < stack2.len() && stack2[k] == t;
                            assert(stack[k] == t);
                            assert(stack.contains(t));
                        }
                    }
                },
                _ => {},
            }
        }
    }
}

proof fn lemma_inv_stack_empty_wf(out: Seq<Instr>, stack: Seq<usize>)
    requires
        parse_inv(out, stack),
        stack.len() == 0,
    ensures
        wf_program(out),
{
    assert forall|i: int| 0 <= i < out.len() implies #[trigger] wf_at(out, i) by {
        assert(partial_at(out, stack, i));
        assert(!stack.contains(i as usize)) by {
            if stack.contains(i as usize) {
                let k = choose|k: int| 0 <= k < stack.len() && stack[k] == i as usize;
            }
        }
    }
}

proof fn lemma_parse_rec_wf(s: Seq<char>, out: Seq<Instr>, stack: Seq<usize>)
    requires
        parse_inv(out, stack),
        out.len() + s.len() <= usize::MAX,
    ensures
        parse_rec(s, out, stack) matches Ok(p) ==> wf_program(p),
    decreases s.len(),
{
    if s.len() == 0 {
        if stack.len() == 0 {
            lemma_inv_stack_empty_wf(out, stack);
        }
    } else {
        let c = s[0];
        let rest = s.drop_first();
        if c == '[' {
            lemma_inv_open(out, stack);
            lemma_parse_rec_wf(rest, out.push(Instr::JumpIfZero(0)), stack.push(out.len() as usize));
        } else if c == ']' {
            if stack.len() > 0 {
                lemma_inv_close(out, stack);
                lemma_parse_rec_wf(
                    rest,
                    out.update(stack.last() as int, Instr::JumpIfZero(out.len() as usize)).push(
                        Instr::JumpIfNonZero(stack.last()),
                    ),
                    stack.drop_last(),
                );
            }
        } else {
            match simple_instr(c) {
                Some(ins) => {
                    lemma_inv_push_simple(out, stack, ins);
                    lemma_parse_rec_wf(rest, out.push(ins), stack);
                },
                None => {
                    lemma_parse_rec_wf(rest, out, stack);
                },
            }
        }
    }
}

/// Bracket pairs in a successfully parsed program are symmetric: the target
/// of every opening jump is the index of its matching closing jump, the
/// target of that closing jump is the index of the opening one, and both
/// are in range.
pub proof fn lemma_parse_ok_well_formed(s: Seq<char>)
    requires
        s.len() <= usize::MAX,
    ensures
        parse_spec(s) matches Ok(p) ==> wf_program(p),
{
    lemma_parse_rec_wf(s, Seq::empty(), Seq::empty());
}

proof fn lemma_parse_rec_skip(
    s1: Seq<char>,
    c: char,
    s2: Seq<char>,
    out: Seq<Instr>,
    stack: Seq<usize>,
)
    requires
        !is_instr_char(c),
    ensures
        parse_rec(s1 + seq![c] + s2, out, stack) == parse_rec(s1 + s2, out, stack),
    decreases s1.len(),
{
    if s1.len() == 0 {
        let w = seq![c] + s2;
        assert(s1 + seq![c] + s2 =~= w);
        assert(w[0] == c);
        assert(w.drop_first() =~= s2);
        assert(s1 + s2 =~= s2);
    } else {
        let h = s1[0];
        let a = s1 + seq![c] + s2;
        let b = s1 + s2;
        assert(a[0] == h);
        assert(b[0] == h);
        assert(a.drop_first() =~= s1.drop_first() + seq![c] + s2);
        assert(b.drop_first() =~= s1.drop_first() + s2);
        if h == '[' {
            lemma_parse_rec_skip(
                s1.drop_first(),
                c,
                s2,
                out.push(Instr::JumpIfZero(0)),
                stack.push(out.len() as usize),
            );
        } else if h == ']' {
            if stack.len() > 0 {
                lemma_parse_rec_skip(
                    s1.drop_first(),
                    c,
                    s2,
                    out.update(stack.last() as int, Instr::JumpIfZero(out.len() as usize)).push(
                        Instr::JumpIfNonZero(stack.last()),
                    ),
                    stack.drop_last(),
                );
            }
        } else {
            match simple_instr(h) {
                Some(ins) => {
                    lemma_parse_rec_skip(s1.drop_first(), c, s2, out.push(ins), stack);
                },
                None => {
                    lemma_parse_rec_skip(s1.drop_first(), c, s2, out, stack);
                },
            }
        }
    }
}

/// A character that stands for no instruction is inert: removing it from a
/// source changes neither the instructions produced, nor the indices used
/// for bracket resolution, nor whether parsing fails.
pub proof fn lemma_skipped_char_no_effect(s1: Seq<char>, c: char, s2: Seq<char>)
    requires
        !is_instr_char(c),
    ensures
        parse_spec(s1 + seq![c] + s2) == parse_spec(s1 + s2),
{
    lemma_parse_rec_skip(s1, c, s2, Seq::empty(), Seq::empty());
}

/// A source with no instruction character at all parses to the empty
/// program.
pub proof fn lemma_all_skipped_source(s: Seq<char>)
    requires
        forall|i: int| 0 <= i < s.len() ==> !is_instr_char(#[trigger] s[i]),
    ensures
        parse_spec(s) == Result::<Seq<Instr>, ParseError>::Ok(Seq::<Instr>::empty()),
{
    lemma_parse_rec_all_skipped(s, Seq::empty(), Seq::empty());
}

proof fn lemma_parse_rec_all_skipped(s: Seq<char>, out: Seq<Instr>, stack: Seq<usize>)
    requires
        forall|i: int| 0 <= i < s.len() ==> !is_instr_char(#[trigger] s[i]),
        stack.len() == 0,
    ensures
        parse_rec(s, out, stack) == Result::<Seq<Instr>, ParseError>::Ok(out),
    decreases s.len(),
{
    if s.len() > 0 {
        assert(!is_instr_char(s[0]));
        lemma_parse_rec_all_skipped(s.drop_first(), out, stack);
    }
}

/// The instruction a non-bracket character stands for, as [`simple_instr`]
/// says.
fn lookup_simple_instr(c: char) -> (r: Option<Instr>)
    ensures
        r == simple_instr(c),
{
    match c {
        '+' => Some(Instr::Increment),
        '-' => Some(Instr::Decrement),
        '>' => Some(Instr::MoveRight),
        '<' => Some(Instr::MoveLeft),
        '.' => Some(Instr::Output),
        ',' => Some(Instr::Input),
        '#' => Some(Instr::DumpTape),
        _ => None,
    }
}

/// Translates source characters into instructions, resolving each matched
/// bracket pair into mutual absolute jump targets and rejecting unmatched
/// brackets. Characters that stand for no instruction are skipped and do
/// not shift the indices used for bracket resolution.
pub fn parse(instructions: Vec<char>) -> (r: Result<Vec<Instr>, ParseError>)
    ensures
        match r {
            Ok(p) => parse_spec(instructions@) == Result::<Seq<Instr>, ParseError>::Ok(p@)
                && wf_program(p@),
            Err(e) => parse_spec(instructions@) == Result::<Seq<Instr>, ParseError>::Err(e),
        },
{
    let ghost src = instructions@;
    let n = instructions.len();
    let mut out: Vec<Instr> = Vec::new();
    let mut stack: Vec<usize> = Vec::new();
    let mut idx: usize = 0;
    proof {
        assert(src.subrange(0, n as int) =~= src);
    }
    while idx < n
        invariant
            n == src.len(),
            instructions@ == src,
            idx <= n,
            out@.len() <= idx,
            parse_inv(out@, stack@),
            parse_rec(src.subrange(idx as int, n as int), out@, stack@) == parse_spec(src),
        decreases n - idx,
    {
        let c = instructions[idx];
        proof {
            let rem = src.subrange(idx as int, n as int);
            assert(rem[0] == c);
            assert(rem.drop_first() =~= src.subrange(idx as int + 1, n as int));
        }
        if c == '[' {
            proof {
                lemma_inv_open(out@, stack@);
            }
            let l = out.len();
            stack.push(l);
            out.push(Instr::JumpIfZero(0));
        } else if c == ']' {
            let ghost stack0 = stack@;
            match stack.pop() {
                None => {
                    return Err(ParseError::UnmatchedClosingBracket);
                },
                Some(open) => {
                    proof {
                        assert(stack0 =~= stack@.push(open));
                        lemma_inv_close(out@, stack0);
                        assert(stack0.drop_last() =~= stack@);
                        assert(stack0.last() == open);
                        assert(open < out@.len());
                    }
                    let l = out.len();
                    out.set(open, Instr::JumpIfZero(l));
                    out.push(Instr::JumpIfNonZero(open));
                },
            }
        } else {
            match lookup_simple_instr(c) {
                Some(ins) => {
                    proof {
                        lemma_inv_push_simple(out@, stack@, ins);
                    }
                    out.push(ins);
                },
                None => {},
            }
        }
        idx += 1;
    }
    proof {
        assert(src.subrange(n as int, n as int) =~= Seq::<char>::empty());
    }
    if stack.len() == 0 {
        proof {
            lemma_inv_stack_empty_wf(out@, stack@);
        }
        Ok(out)
    } else {
        Err(ParseError::UnmatchedOpeningBracket)
    }
}

} // verus!
