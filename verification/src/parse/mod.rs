//! Turning EXA script text into instructions.

use vstd::prelude::*;

pub mod parts;
pub mod preprocess;

use crate::text::{string_eq_str, copy_string};
use crate::vm::instruction::{instructions_view, Instruction, SpecInstruction, SpecTarget, Target};
use parts::{lemma_line_end, line_at, line_content_exec, line_end, line_end_exec, parse_line_chars};
use preprocess::{preprocess_chars, preprocess_spec, preprocessable};

verus! {

/// The instructions of the lines from `p` on, up to the first line that has no
/// line ending or does not follow the grammar.
pub open spec fn parse_lines(t: Seq<char>, p: int) -> Seq<SpecInstruction>
    decreases t.len() - p,
{
    if p < 0 || p >= t.len() {
        Seq::empty()
    } else {
        match line_at(t, p) {
            Some(i) => {
                proof {
                    lemma_line_end(t, p);
                }
                seq![i] + parse_lines(t, line_end(t, p) + 1)
            },
            None => Seq::empty(),
        }
    }
}

pub open spec fn parse_error_message() -> Seq<char> {
    "Parsing Error: the first line is not an instruction"@
}

pub open spec fn literal_range_message() -> Seq<char> {
    "literal out of range"@
}

pub open spec fn m_limit_message() -> Seq<char> {
    "cannot reference M register more than once in one instruction"@
}

/// Reading the preprocessed text: an error when there is text but its first line
/// cannot be read; otherwise every line that can be read before the first that
/// cannot.
pub open spec fn parse_program(t: Seq<char>) -> Result<Seq<SpecInstruction>, Seq<char>> {
    if t.len() > 0 && line_at(t, 0) is None {
        Err(parse_error_message())
    } else {
        Ok(parse_lines(t, 0))
    }
}

/// The operands of an instruction that are checked before it runs.
pub open spec fn checked_targets(i: SpecInstruction) -> Seq<SpecTarget> {
    match i {
        SpecInstruction::Copy(a, b) => seq![a, b],
        SpecInstruction::Addi(a, b, c) => seq![a, b, c],
        SpecInstruction::Subi(a, b, c) => seq![a, b, c],
        SpecInstruction::Muli(a, b, c) => seq![a, b, c],
        SpecInstruction::Divi(a, b, c) => seq![a, b, c],
        SpecInstruction::Modi(a, b, c) => seq![a, b, c],
        SpecInstruction::Swiz(a, b, c) => seq![a, b, c],
        SpecInstruction::Test(a, _c, b) => seq![a, b],
        SpecInstruction::Link(a) => seq![a],
        SpecInstruction::Host(a) => seq![a],
        SpecInstruction::Grab(a) => seq![a],
        SpecInstruction::File(a) => seq![a],
        SpecInstruction::Seek(a) => seq![a],
        SpecInstruction::Rand(a, b, c) => seq![a, b, c],
        _ => Seq::empty(),
    }
}

pub open spec fn literal_out_of_range(t: SpecTarget) -> bool {
    match t {
        SpecTarget::Literal(v) => v < -9999 || v > 9999,
        SpecTarget::Register(_) => false,
    }
}

pub open spec fn is_m(t: SpecTarget) -> bool {
    match t {
        SpecTarget::Literal(_) => false,
        SpecTarget::Register(r) => r == seq!['m'],
    }
}

pub open spec fn count_m(ts: Seq<SpecTarget>) -> nat
    decreases ts.len(),
{
    if ts.len() == 0 {
        0
    } else {
        count_m(ts.drop_last()) + if is_m(ts.last()) {
            1nat
        } else {
            0nat
        }
    }
}

/// Literals must lie in -9999..=9999, and M may be named at most once.
pub open spec fn targets_check(ts: Seq<SpecTarget>) -> Result<(), Seq<char>> {
    if exists|k: int| 0 <= k < ts.len() && literal_out_of_range(#[trigger] ts[k]) {
        Err(literal_range_message())
    } else if count_m(ts) > 1 {
        Err(m_limit_message())
    } else {
        Ok(())
    }
}

/// The first instruction whose operands fail the check decides the error.
pub open spec fn validate_spec(insts: Seq<SpecInstruction>) -> Result<(), Seq<char>>
    decreases insts.len(),
{
    if insts.len() == 0 {
        Ok(())
    } else {
        match targets_check(checked_targets(insts[0])) {
            Err(e) => Err(e),
            Ok(_) => validate_spec(insts.drop_first()),
        }
    }
}

/// What `parse_text` returns for a script.
pub open spec fn parse_text_spec(i: Seq<char>) -> Result<Seq<SpecInstruction>, Seq<char>> {
    match parse_program(preprocess_spec(i)) {
        Err(e) => Err(e),
        Ok(insts) => match validate_spec(insts) {
            Err(e) => Err(e),
            Ok(_) => Ok(insts),
        },
    }
}

pub open spec fn parse_result_view(r: Result<Vec<Instruction>, String>) -> Result<
    Seq<SpecInstruction>,
    Seq<char>,
> {
    match r {
        Ok(v) => Ok(instructions_view(v@)),
        Err(e) => Err(e@),
    }
}

pub fn parse_text(i: &str) -> (r: Result<Vec<Instruction>, String>)
    requires
        preprocessable(i@),
    ensures
        parse_result_view(r) == parse_text_spec(i@),
{
    let t = preprocess_chars(i);
    let insts = match parse_program_chars(&t) {
        Ok(v) => v,
        Err(e) => {
            return Err(e);
        },
    };
    match validate_instructions(&insts) {
        Ok(_) => Ok(insts),
        Err(e) => Err(e),
    }
}

fn parse_program_chars(t: &Vec<char>) -> (r: Result<Vec<Instruction>, String>)
    ensures
        parse_result_view(r) == parse_program(t@),
{
    let mut insts: Vec<Instruction> = Vec::new();
    let mut p: usize = 0;
    while p < t.len()
        invariant
            p <= t.len(),
            instructions_view(insts@) + parse_lines(t@, p as int) == parse_lines(t@, 0),
            p == 0 ==> insts.len() == 0,
            p > 0 ==> line_at(t@, 0) is Some,
        decreases t.len() - p,
    {
        let ghost before = instructions_view(insts@);
        let e = line_end_exec(t, p);
        let parsed = if e < t.len() {
            let l = line_content_exec(t, p, e);
            parse_line_chars(&l)
        } else {
            None
        };
        match parsed {
            Some(inst) => {
                insts.push(inst);
                assert(instructions_view(insts@) =~= before.push(insts@.last()@));
                assert(before + parse_lines(t@, p as int) =~= instructions_view(insts@)
                    + parse_lines(t@, e + 1));
                p = e + 1;
            },
            None => {
                if p == 0 {
                    return Err(String::from_str("Parsing Error: the first line is not an instruction"));
                }
                assert(parse_lines(t@, p as int) =~= Seq::empty());
                assert(before =~= before + parse_lines(t@, p as int));
                return Ok(insts);
            },
        }
    }
    assert(instructions_view(insts@) =~= instructions_view(insts@) + parse_lines(t@, p as int));
    Ok(insts)
}

fn targets_of(i: &Instruction) -> (r: Vec<Target>)
    ensures
        r@.map_values(|t: Target| t@) == checked_targets(i@),
{
    let r = match i {
        Instruction::Copy(a, b) => vec![a.duplicate(), b.duplicate()],
        Instruction::Addi(a, b, c) => vec![a.duplicate(), b.duplicate(), c.duplicate()],
        Instruction::Subi(a, b, c) => vec![a.duplicate(), b.duplicate(), c.duplicate()],
        Instruction::Muli(a, b, c) => vec![a.duplicate(), b.duplicate(), c.duplicate()],
        Instruction::Divi(a, b, c) => vec![a.duplicate(), b.duplicate(), c.duplicate()],
        Instruction::Modi(a, b, c) => vec![a.duplicate(), b.duplicate(), c.duplicate()],
        Instruction::Swiz(a, b, c) => vec![a.duplicate(), b.duplicate(), c.duplicate()],
        Instruction::Test(a, _comp, b) => vec![a.duplicate(), b.duplicate()],
        Instruction::Link(a) => vec![a.duplicate()],
        Instruction::Host(a) => vec![a.duplicate()],
        Instruction::Grab(a) => vec![a.duplicate()],
        Instruction::File(a) => vec![a.duplicate()],
        Instruction::Seek(a) => vec![a.duplicate()],
        Instruction::Rand(a, b, c) => vec![a.duplicate(), b.duplicate(), c.duplicate()],
        _ => Vec::new(),
    };
    assert(r@.map_values(|t: Target| t@) =~= checked_targets(i@));
    r
}

pub open spec fn check_view(r: Result<(), String>) -> Result<(), Seq<char>> {
    match r {
        Ok(_) => Ok(()),
        Err(e) => Err(e@),
    }
}

pub fn validate_instructions(insts: &Vec<Instruction>) -> (r: Result<(), String>)
    ensures
        check_view(r) == validate_spec(instructions_view(insts@)),
{
    let ghost all = instructions_view(insts@);
    assert(all.subrange(0, all.len() as int) =~= all);
    let mut k: usize = 0;
    while k < insts.len()
        invariant
            k <= insts.len(),
            all == instructions_view(insts@),
            validate_spec(all) == validate_spec(all.subrange(k as int, all.len() as int)),
        decreases insts.len() - k,
    {
        let ghost rest = all.subrange(k as int, all.len() as int);
        assert(rest[0] == insts@[k as int]@);
        assert(rest.drop_first() =~= all.subrange(k + 1, all.len() as int));
        let ts = targets_of(&insts[k]);
        match validate_targets(&ts) {
            Err(e) => {
                return Err(e);
            },
            Ok(_) => {},
        }
        k = k + 1;
    }
    assert(all.subrange(k as int, all.len() as int) =~= Seq::<SpecInstruction>::empty());
    Ok(())
}

pub fn validate_targets(ts: &Vec<Target>) -> (r: Result<(), String>)
    ensures
        check_view(r) == targets_check(ts@.map_values(|t: Target| t@)),
{
    let ghost tv = ts@.map_values(|t: Target| t@);
    let mut found_ms: usize = 0;
    let mut k: usize = 0;
    while k < ts.len()
        invariant
            k <= ts.len(),
            tv == ts@.map_values(|t: Target| t@),
            forall|j: int| 0 <= j < k ==> !literal_out_of_range(#[trigger] tv[j]),
            found_ms == count_m(tv.subrange(0, k as int)),
            found_ms <= k,
        decreases ts.len() - k,
    {
        assert(tv.subrange(0, k + 1).drop_last() =~= tv.subrange(0, k as int));
        assert(tv[k as int] == ts@[k as int]@);
        match &ts[k] {
            Target::Literal(value) => {
                if *value < -9999 || *value > 9999 {
                    assert(literal_out_of_range(tv[k as int]));
                    return Err(String::from_str("literal out of range"));
                }
            },
            Target::Register(specifier) => {
                proof {
                    reveal_strlit("m");
                    assert("m"@ =~= seq!['m']);
                }
                if string_eq_str(specifier, "m") {
                    found_ms = found_ms + 1;
                } else {
                    assert(!is_m(tv[k as int]));
                }
            },
        }
        k = k + 1;
    }
    assert(tv.subrange(0, k as int) =~= tv);
    if found_ms > 1 {
        return Err(String::from_str("cannot reference M register more than once in one instruction"));
    }
    Ok(())
}

} // verus!
