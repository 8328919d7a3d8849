//! The grammar of one line of an EXA script.

use vstd::prelude::*;

use super::preprocess::{blank_run_end, starts_with_nocase, chars_start_with_nocase};
use crate::text::{
    all_digits, digits_value,
    char_is_alpha, char_is_blank, char_is_digit, chars_eq, chars_to_lower, is_ascii_alpha,
    is_ascii_digit, is_blank, lower_chars, parse_i32, parse_i32_range, str_chars,
    string_from_chars,
};
use crate::vm::instruction::{Comparator, Instruction, SpecInstruction, SpecTarget, Target};

verus! {

/// A line, or a piece of one, that does not follow the grammar.
#[derive(Debug, Clone, Copy, PartialEq, Eq)]
pub struct ParseFailure;

#[derive(Debug, Clone, Copy, PartialEq, Eq)]
pub enum Opcode {
    Copy,
    Addi,
    Subi,
    Muli,
    Divi,
    Modi,
    Swiz,
    Mark,
    Jump,
    Tjmp,
    Fjmp,
    Test,
    Repl,
    Halt,
    Kill,
    Link,
    Host,
    Mode,
    VoidM,
    TestMrd,
    Make,
    Grab,
    File,
    Seek,
    VoidF,
    Drop,
    Wipe,
    TestEof,
    Noop,
    Rand,
    Wait,
    Data,
}

pub open spec fn opcode_name(op: Opcode) -> Seq<char> {
    match op {
        Opcode::Copy => seq!['c', 'o', 'p', 'y'],
        Opcode::Addi => seq!['a', 'd', 'd', 'i'],
        Opcode::Subi => seq!['s', 'u', 'b', 'i'],
        Opcode::Muli => seq!['m', 'u', 'l', 'i'],
        Opcode::Divi => seq!['d', 'i', 'v', 'i'],
        Opcode::Modi => seq!['m', 'o', 'd', 'i'],
        Opcode::Swiz => seq!['s', 'w', 'i', 'z'],
        Opcode::Mark => seq!['m', 'a', 'r', 'k'],
        Opcode::Jump => seq!['j', 'u', 'm', 'p'],
        Opcode::Tjmp => seq!['t', 'j', 'm', 'p'],
        Opcode::Fjmp => seq!['f', 'j', 'm', 'p'],
        Opcode::Test => seq!['t', 'e', 's', 't'],
        Opcode::Repl => seq!['r', 'e', 'p', 'l'],
        Opcode::Halt => seq!['h', 'a', 'l', 't'],
        Opcode::Kill => seq!['k', 'i', 'l', 'l'],
        Opcode::Link => seq!['l', 'i', 'n', 'k'],
        Opcode::Host => seq!['h', 'o', 's', 't'],
        Opcode::Mode => seq!['m', 'o', 'd', 'e'],
        Opcode::VoidM => seq!['v', 'o', 'i', 'd', ' ', 'm'],
        Opcode::TestMrd => seq!['t', 'e', 's', 't', ' ', 'm', 'r', 'd'],
        Opcode::Make => seq!['m', 'a', 'k', 'e'],
        Opcode::Grab => seq!['g', 'r', 'a', 'b'],
        Opcode::File => seq!['f', 'i', 'l', 'e'],
        Opcode::Seek => seq!['s', 'e', 'e', 'k'],
        Opcode::VoidF => seq!['v', 'o', 'i', 'd', ' ', 'f'],
        Opcode::Drop => seq!['d', 'r', 'o', 'p'],
        Opcode::Wipe => seq!['w', 'i', 'p', 'e'],
        Opcode::TestEof => seq!['t', 'e', 's', 't', ' ', 'e', 'o', 'f'],
        Opcode::Noop => seq!['n', 'o', 'o', 'p'],
        Opcode::Rand => seq!['r', 'a', 'n', 'd'],
        Opcode::Wait => seq!['w', 'a', 'i', 't'],
        Opcode::Data => seq!['d', 'a', 't', 'a'],
    }
}

/// The instruction a (lowercased) name stands for.
pub open spec fn opcode_of(name: Seq<char>) -> Option<Opcode> {
    if name == seq!['c', 'o', 'p', 'y'] {
        Some(Opcode::Copy)
    } else if name == seq!['a', 'd', 'd', 'i'] {
        Some(Opcode::Addi)
    } else if name == seq!['s', 'u', 'b', 'i'] {
        Some(Opcode::Subi)
    } else if name == seq!['m', 'u', 'l', 'i'] {
        Some(Opcode::Muli)
    } else if name == seq!['d', 'i', 'v', 'i'] {
        Some(Opcode::Divi)
    } else if name == seq!['m', 'o', 'd', 'i'] {
        Some(Opcode::Modi)
    } else if name == seq!['s', 'w', 'i', 'z'] {
        Some(Opcode::Swiz)
    } else if name == seq!['m', 'a', 'r', 'k'] {
        Some(Opcode::Mark)
    } else if name == seq!['j', 'u', 'm', 'p'] {
        Some(Opcode::Jump)
    } else if name == seq!['t', 'j', 'm', 'p'] {
        Some(Opcode::Tjmp)
    } else if name == seq!['f', 'j', 'm', 'p'] {
        Some(Opcode::Fjmp)
    } else if name == seq!['t', 'e', 's', 't'] {
        Some(Opcode::Test)
    } else if name == seq!['r', 'e', 'p', 'l'] {
        Some(Opcode::Repl)
    } else if name == seq!['h', 'a', 'l', 't'] {
        Some(Opcode::Halt)
    } else if name == seq!['k', 'i', 'l', 'l'] {
        Some(Opcode::Kill)
    } else if name == seq!['l', 'i', 'n', 'k'] {
        Some(Opcode::Link)
    } else if name == seq!['h', 'o', 's', 't'] {
        Some(Opcode::Host)
    } else if name == seq!['m', 'o', 'd', 'e'] {
        Some(Opcode::Mode)
    } else if name == seq!['v', 'o', 'i', 'd', ' ', 'm'] {
        Some(Opcode::VoidM)
    } else if name == seq!['t', 'e', 's', 't', ' ', 'm', 'r', 'd'] {
        Some(Opcode::TestMrd)
    } else if name == seq!['m', 'a', 'k', 'e'] {
        Some(Opcode::Make)
    } else if name == seq!['g', 'r', 'a', 'b'] {
        Some(Opcode::Grab)
    } else if name == seq!['f', 'i', 'l', 'e'] {
        Some(Opcode::File)
    } else if name == seq!['s', 'e', 'e', 'k'] {
        Some(Opcode::Seek)
    } else if name == seq!['v', 'o', 'i', 'd', ' ', 'f'] {
        Some(Opcode::VoidF)
    } else if name == seq!['d', 'r', 'o', 'p'] {
        Some(Opcode::Drop)
    } else if name == seq!['w', 'i', 'p', 'e'] {
        Some(Opcode::Wipe)
    } else if name == seq!['t', 'e', 's', 't', ' ', 'e', 'o', 'f'] {
        Some(Opcode::TestEof)
    } else if name == seq!['n', 'o', 'o', 'p'] {
        Some(Opcode::Noop)
    } else if name == seq!['r', 'a', 'n', 'd'] {
        Some(Opcode::Rand)
    } else if name == seq!['w', 'a', 'i', 't'] {
        Some(Opcode::Wait)
    } else if name == seq!['d', 'a', 't', 'a'] {
        Some(Opcode::Data)
    } else {
        None
    }
}

pub open spec fn digit_or_sign(c: char) -> bool {
    is_ascii_digit(c) || c == '+' || c == '-'
}

pub open spec fn alpha_or_hash(c: char) -> bool {
    is_ascii_alpha(c) || c == '#'
}

pub fn is_digit_or_sign(c: char) -> (r: bool)
    ensures
        r == digit_or_sign(c),
{
    char_is_digit(c) || c == '+' || c == '-'
}

pub fn is_alpha_or_hash(c: char) -> (r: bool)
    ensures
        r == alpha_or_hash(c),
{
    char_is_alpha(c) || c == '#'
}

pub open spec fn sign_digit_run_end(l: Seq<char>, p: int) -> int
    decreases l.len() - p,
{
    if 0 <= p < l.len() && digit_or_sign(l[p]) {
        sign_digit_run_end(l, p + 1)
    } else {
        p
    }
}

pub open spec fn alpha_hash_run_end(l: Seq<char>, p: int) -> int
    decreases l.len() - p,
{
    if 0 <= p < l.len() && alpha_or_hash(l[p]) {
        alpha_hash_run_end(l, p + 1)
    } else {
        p
    }
}

pub open spec fn alpha_run_end(l: Seq<char>, p: int) -> int
    decreases l.len() - p,
{
    if 0 <= p < l.len() && is_ascii_alpha(l[p]) {
        alpha_run_end(l, p + 1)
    } else {
        p
    }
}

pub open spec fn nonblank_run_end(l: Seq<char>, p: int) -> int
    decreases l.len() - p,
{
    if 0 <= p < l.len() && !is_blank(l[p]) {
        nonblank_run_end(l, p + 1)
    } else {
        p
    }
}

/// A literal: the longest run of digits and signs, read as an `i32`.
pub open spec fn literal_at(l: Seq<char>, p: int) -> Option<(i32, int)> {
    let q = sign_digit_run_end(l, p);
    match parse_i32(l.subrange(p, q)) {
        Some(v) => Some((v, q)),
        None => None,
    }
}

/// A register name: the longest run of letters and `#`, lowercased (possibly empty).
pub open spec fn register_at(l: Seq<char>, p: int) -> (Seq<char>, int) {
    let q = alpha_hash_run_end(l, p);
    (lower_chars(l.subrange(p, q)), q)
}

/// An operand: a literal if one can be read here, a register name otherwise.
pub open spec fn target_at(l: Seq<char>, p: int) -> (SpecTarget, int) {
    match literal_at(l, p) {
        Some((v, q)) => (SpecTarget::Literal(v), q),
        None => (SpecTarget::Register(register_at(l, p).0), register_at(l, p).1),
    }
}

/// The instruction name at `p`: one of the two-word names, or a run of letters;
/// lowercased.
pub open spec fn name_at(l: Seq<char>, p: int) -> Option<(Seq<char>, int)> {
    if starts_with_nocase(l, p, seq!['v', 'o', 'i', 'd', ' ', 'm']) {
        Some((seq!['v', 'o', 'i', 'd', ' ', 'm'], p + 6))
    } else if starts_with_nocase(l, p, seq!['v', 'o', 'i', 'd', ' ', 'f']) {
        Some((seq!['v', 'o', 'i', 'd', ' ', 'f'], p + 6))
    } else if starts_with_nocase(l, p, seq!['t', 'e', 's', 't', ' ', 'm', 'r', 'd']) {
        Some((seq!['t', 'e', 's', 't', ' ', 'm', 'r', 'd'], p + 8))
    } else if starts_with_nocase(l, p, seq!['t', 'e', 's', 't', ' ', 'e', 'o', 'f']) {
        Some((seq!['t', 'e', 's', 't', ' ', 'e', 'o', 'f'], p + 8))
    } else {
        let q = alpha_run_end(l, p);
        if q == p {
            None
        } else {
            Some((lower_chars(l.subrange(p, q)), q))
        }
    }
}

/// One or more blanks at `p`, and where they end.
pub open spec fn spaced(l: Seq<char>, p: int) -> Option<int> {
    let q = blank_run_end(l, p);
    if q == p {
        None
    } else {
        Some(q)
    }
}

/// Only blanks remain from `p`.
pub open spec fn ends_at(l: Seq<char>, p: int) -> bool {
    blank_run_end(l, p) == l.len()
}

pub open spec fn comparator_at(l: Seq<char>, p: int) -> Option<Comparator> {
    if 0 <= p < l.len() && l[p] == '=' {
        Some(Comparator::Equal)
    } else if 0 <= p < l.len() && l[p] == '>' {
        Some(Comparator::GreaterThan)
    } else if 0 <= p < l.len() && l[p] == '<' {
        Some(Comparator::LessThan)
    } else {
        None
    }
}

pub proof fn lemma_sign_digit_run(l: Seq<char>, p: int)
    requires
        0 <= p <= l.len(),
    ensures
        p <= sign_digit_run_end(l, p) <= l.len(),
    decreases l.len() - p,
{
    if p < l.len() && digit_or_sign(l[p]) {
        lemma_sign_digit_run(l, p + 1);
    }
}

pub proof fn lemma_literal_advances(l: Seq<char>, p: int)
    requires
        0 <= p <= l.len(),
    ensures
        literal_at(l, p) matches Some((v, q)) ==> p < q <= l.len(),
{
    lemma_sign_digit_run(l, p);
}

pub proof fn lemma_blank_run_bounds(l: Seq<char>, p: int)
    requires
        0 <= p <= l.len(),
    ensures
        p <= blank_run_end(l, p) <= l.len(),
    decreases l.len() - p,
{
    if p < l.len() && is_blank(l[p]) {
        lemma_blank_run_bounds(l, p + 1);
    }
}

/// `data` operands: one or more literals, each after blanks.
pub open spec fn data_from(l: Seq<char>, p: int) -> Option<Seq<i32>>
    decreases l.len() - p,
{
    if p < 0 || p > l.len() {
        None
    } else {
        match spaced(l, p) {
            None => None,
            Some(a) => {
                proof {
                    lemma_blank_run_bounds(l, p);
                }
                match literal_at(l, a) {
                    None => None,
                    Some((v, q)) => {
                        proof {
                            lemma_literal_advances(l, a);
                        }
                        if ends_at(l, q) {
                            Some(seq![v])
                        } else {
                            match data_from(l, q) {
                                Some(rest) => Some(seq![v] + rest),
                                None => None,
                            }
                        }
                    },
                }
            },
        }
    }
}

/// The operands an instruction takes, read from `p` (just after its name).
pub open spec fn parse_operands(op: Opcode, l: Seq<char>, p: int) -> Option<SpecInstruction> {
    match op {
        Opcode::Halt => if ends_at(l, p) { Some(SpecInstruction::Halt) } else { None },
        Opcode::Kill => if ends_at(l, p) { Some(SpecInstruction::Kill) } else { None },
        Opcode::Mode => if ends_at(l, p) { Some(SpecInstruction::Mode) } else { None },
        Opcode::VoidM => if ends_at(l, p) { Some(SpecInstruction::VoidM) } else { None },
        Opcode::TestMrd => if ends_at(l, p) { Some(SpecInstruction::TestMrd) } else { None },
        Opcode::Make => if ends_at(l, p) { Some(SpecInstruction::Make) } else { None },
        Opcode::VoidF => if ends_at(l, p) { Some(SpecInstruction::VoidF) } else { None },
        Opcode::Drop => if ends_at(l, p) { Some(SpecInstruction::Drop) } else { None },
        Opcode::Wipe => if ends_at(l, p) { Some(SpecInstruction::Wipe) } else { None },
        Opcode::TestEof => if ends_at(l, p) { Some(SpecInstruction::TestEof) } else { None },
        Opcode::Noop => if ends_at(l, p) { Some(SpecInstruction::Noop) } else { None },
        Opcode::Wait => if ends_at(l, p) { Some(SpecInstruction::Wait) } else { None },
        Opcode::Link | Opcode::Host | Opcode::Grab | Opcode::File | Opcode::Seek => match spaced(l, p) {
            None => None,
            Some(a) => {
                let (t, q) = target_at(l, a);
                if !ends_at(l, q) {
                    None
                } else {
                    Some(
                        match op {
                            Opcode::Link => SpecInstruction::Link(t),
                            Opcode::Host => SpecInstruction::Host(t),
                            Opcode::Grab => SpecInstruction::Grab(t),
                            Opcode::File => SpecInstruction::File(t),
                            _ => SpecInstruction::Seek(t),
                        },
                    )
                }
            },
        },
        Opcode::Copy => match spaced(l, p) {
            None => None,
            Some(a1) => {
                let (t1, q1) = target_at(l, a1);
                match spaced(l, q1) {
                    None => None,
                    Some(a2) => {
                        let (t2, q2) = target_at(l, a2);
                        if ends_at(l, q2) {
                            Some(SpecInstruction::Copy(t1, t2))
                        } else {
                            None
                        }
                    },
                }
            },
        },
        Opcode::Addi | Opcode::Subi | Opcode::Muli | Opcode::Divi | Opcode::Modi | Opcode::Swiz
        | Opcode::Rand => match spaced(l, p) {
            None => None,
            Some(a1) => {
                let (t1, q1) = target_at(l, a1);
                match spaced(l, q1) {
                    None => None,
                    Some(a2) => {
                        let (t2, q2) = target_at(l, a2);
                        match spaced(l, q2) {
                            None => None,
                            Some(a3) => {
                                let (r, q3) = register_at(l, a3);
                                let t3 = SpecTarget::Register(r);
                                if !ends_at(l, q3) {
                                    None
                                } else {
                                    Some(
                                        match op {
                                            Opcode::Addi => SpecInstruction::Addi(t1, t2, t3),
                                            Opcode::Subi => SpecInstruction::Subi(t1, t2, t3),
                                            Opcode::Muli => SpecInstruction::Muli(t1, t2, t3),
                                            Opcode::Divi => SpecInstruction::Divi(t1, t2, t3),
                                            Opcode::Modi => SpecInstruction::Modi(t1, t2, t3),
                                            Opcode::Swiz => SpecInstruction::Swiz(t1, t2, t3),
                                            _ => SpecInstruction::Rand(t1, t2, t3),
                                        },
                                    )
                                }
                            },
                        }
                    },
                }
            },
        },
        Opcode::Test => match spaced(l, p) {
            None => None,
            Some(a1) => {
                let (t1, q1) = target_at(l, a1);
                match spaced(l, q1) {
                    None => None,
                    Some(a2) => match comparator_at(l, a2) {
                        None => None,
                        Some(c) => match spaced(l, a2 + 1) {
                            None => None,
                            Some(a3) => {
                                let (t2, q2) = target_at(l, a3);
                                if ends_at(l, q2) {
                                    Some(SpecInstruction::Test(t1, c, t2))
                                } else {
                                    None
                                }
                            },
                        },
                    },
                }
            },
        },
        Opcode::Mark | Opcode::Jump | Opcode::Tjmp | Opcode::Fjmp | Opcode::Repl => match spaced(
            l,
            p,
        ) {
            None => None,
            Some(a) => {
                let q = nonblank_run_end(l, a);
                let label = l.subrange(a, q);
                if q == a || !ends_at(l, q) {
                    None
                } else {
                    Some(
                        match op {
                            Opcode::Mark => SpecInstruction::Mark(label),
                            Opcode::Jump => SpecInstruction::Jump(label),
                            Opcode::Tjmp => SpecInstruction::Tjmp(label),
                            Opcode::Fjmp => SpecInstruction::Fjmp(label),
                            _ => SpecInstruction::Repl(label),
                        },
                    )
                }
            },
        },
        Opcode::Data => match data_from(l, p) {
            Some(d) => Some(SpecInstruction::Data(d)),
            None => None,
        },
    }
}

/// One line (without its line ending) read as an instruction.
#[verifier::opaque]
pub open spec fn parse_line_spec(l: Seq<char>) -> Option<SpecInstruction> {
    match name_at(l, 0) {
        None => None,
        Some((name, q)) => match opcode_of(name) {
            None => None,
            Some(op) => parse_operands(op, l, q),
        },
    }
}

pub open spec fn instruction_option_view(r: Option<Instruction>) -> Option<SpecInstruction> {
    match r {
        Some(i) => Some(i@),
        None => None,
    }
}

// ---------------------------------------------------------------------------
// Executable counterparts
// ---------------------------------------------------------------------------

fn sign_digit_run_end_exec(l: &Vec<char>, p: usize) -> (r: usize)
    requires
        p <= l.len(),
    ensures
        r == sign_digit_run_end(l@, p as int),
        p <= r <= l.len(),
{
    let mut q = p;
    while q < l.len() && is_digit_or_sign(l[q])
        invariant
            p <= q <= l.len(),
            sign_digit_run_end(l@, p as int) == sign_digit_run_end(l@, q as int),
        decreases l.len() - q,
    {
        q = q + 1;
    }
    q
}

fn alpha_hash_run_end_exec(l: &Vec<char>, p: usize) -> (r: usize)
    requires
        p <= l.len(),
    ensures
        r == alpha_hash_run_end(l@, p as int),
        p <= r <= l.len(),
{
    let mut q = p;
    while q < l.len() && is_alpha_or_hash(l[q])
        invariant
            p <= q <= l.len(),
            alpha_hash_run_end(l@, p as int) == alpha_hash_run_end(l@, q as int),
        decreases l.len() - q,
    {
        q = q + 1;
    }
    q
}

fn alpha_run_end_exec(l: &Vec<char>, p: usize) -> (r: usize)
    requires
        p <= l.len(),
    ensures
        r == alpha_run_end(l@, p as int),
        p <= r <= l.len(),
{
    let mut q = p;
    while q < l.len() && char_is_alpha(l[q])
        invariant
            p <= q <= l.len(),
            alpha_run_end(l@, p as int) == alpha_run_end(l@, q as int),
        decreases l.len() - q,
    {
        q = q + 1;
    }
    q
}

fn nonblank_run_end_exec(l: &Vec<char>, p: usize) -> (r: usize)
    requires
        p <= l.len(),
    ensures
        r == nonblank_run_end(l@, p as int),
        p <= r <= l.len(),
{
    let mut q = p;
    while q < l.len() && !char_is_blank(l[q])
        invariant
            p <= q <= l.len(),
            nonblank_run_end(l@, p as int) == nonblank_run_end(l@, q as int),
        decreases l.len() - q,
    {
        q = q + 1;
    }
    q
}

fn blank_run_end_exec(l: &Vec<char>, p: usize) -> (r: usize)
    requires
        p <= l.len(),
    ensures
        r == blank_run_end(l@, p as int),
        p <= r <= l.len(),
{
    let mut q = p;
    while q < l.len() && char_is_blank(l[q])
        invariant
            p <= q <= l.len(),
            blank_run_end(l@, p as int) == blank_run_end(l@, q as int),
        decreases l.len() - q,
    {
        q = q + 1;
    }
    q
}

fn sub_chars(s: &Vec<char>, a: usize, b: usize) -> (r: Vec<char>)
    requires
        a <= b <= s.len(),
    ensures
        r@ == s@.subrange(a as int, b as int),
{
    let mut r: Vec<char> = Vec::new();
    let mut i = a;
    while i < b
        invariant
            a <= i <= b <= s.len(),
            r@ == s@.subrange(a as int, i as int),
        decreases b - i,
    {
        r.push(s[i]);
        assert(s@.subrange(a as int, i + 1) =~= s@.subrange(a as int, i as int).push(s@[i as int]));
        i = i + 1;
    }
    r
}

fn literal_at_exec(l: &Vec<char>, p: usize) -> (r: Option<(i32, usize)>)
    requires
        p <= l.len(),
    ensures
        match r {
            Some((v, q)) => literal_at(l@, p as int) == Some((v, q as int)) && p < q <= l.len(),
            None => literal_at(l@, p as int) is None,
        },
{
    let q = sign_digit_run_end_exec(l, p);
    proof {
        lemma_literal_advances(l@, p as int);
    }
    match parse_i32_range(l, p, q) {
        Some(v) => Some((v, q)),
        None => None,
    }
}

fn register_at_exec(l: &Vec<char>, p: usize) -> (r: (Vec<char>, usize))
    requires
        p <= l.len(),
    ensures
        (r.0@, r.1 as int) == register_at(l@, p as int),
        p <= r.1 <= l.len(),
{
    let q = alpha_hash_run_end_exec(l, p);
    let name = sub_chars(l, p, q);
    (chars_to_lower(&name), q)
}

fn target_at_exec(l: &Vec<char>, p: usize) -> (r: (Target, usize))
    requires
        p <= l.len(),
    ensures
        (r.0@, r.1 as int) == target_at(l@, p as int),
        p <= r.1 <= l.len(),
{
    match literal_at_exec(l, p) {
        Some((v, q)) => (Target::Literal(v), q),
        None => {
            let (name, q) = register_at_exec(l, p);
            (Target::Register(string_from_chars(&name)), q)
        },
    }
}

fn name_at_exec(l: &Vec<char>, p: usize) -> (r: Option<(Vec<char>, usize)>)
    requires
        p <= l.len(),
    ensures
        match r {
            Some((n, q)) => name_at(l@, p as int) == Some((n@, q as int)) && p < q <= l.len(),
            None => name_at(l@, p as int) is None,
        },
{
    let void_m: Vec<char> = vec!['v', 'o', 'i', 'd', ' ', 'm'];
    let void_f: Vec<char> = vec!['v', 'o', 'i', 'd', ' ', 'f'];
    let test_mrd: Vec<char> = vec!['t', 'e', 's', 't', ' ', 'm', 'r', 'd'];
    let test_eof: Vec<char> = vec!['t', 'e', 's', 't', ' ', 'e', 'o', 'f'];
    if chars_start_with_nocase(l, p, &void_m) {
        Some((void_m, p + 6))
    } else if chars_start_with_nocase(l, p, &void_f) {
        Some((void_f, p + 6))
    } else if chars_start_with_nocase(l, p, &test_mrd) {
        Some((test_mrd, p + 8))
    } else if chars_start_with_nocase(l, p, &test_eof) {
        Some((test_eof, p + 8))
    } else {
        let q = alpha_run_end_exec(l, p);
        if q == p {
            None
        } else {
            let name = sub_chars(l, p, q);
            Some((chars_to_lower(&name), q))
        }
    }
}

fn spaced_exec(l: &Vec<char>, p: usize) -> (r: Option<usize>)
    requires
        p <= l.len(),
    ensures
        match r {
            Some(q) => spaced(l@, p as int) == Some(q as int) && p < q <= l.len(),
            None => spaced(l@, p as int) is None,
        },
{
    let q = blank_run_end_exec(l, p);
    if q == p {
        None
    } else {
        Some(q)
    }
}

fn ends_at_exec(l: &Vec<char>, p: usize) -> (r: bool)
    requires
        p <= l.len(),
    ensures
        r == ends_at(l@, p as int),
{
    blank_run_end_exec(l, p) == l.len()
}

fn comparator_at_exec(l: &Vec<char>, p: usize) -> (r: Option<Comparator>)
    ensures
        r == comparator_at(l@, p as int),
{
    if p < l.len() && l[p] == '=' {
        Some(Comparator::Equal)
    } else if p < l.len() && l[p] == '>' {
        Some(Comparator::GreaterThan)
    } else if p < l.len() && l[p] == '<' {
        Some(Comparator::LessThan)
    } else {
        None
    }
}

fn opcode_of_chars(name: &Vec<char>) -> (r: Option<Opcode>)
    ensures
        r == opcode_of(name@),
{
    if chars_eq(name, &vec!['c', 'o', 'p', 'y']) {
        return Some(Opcode::Copy);
    }
    if chars_eq(name, &vec!['a', 'd', 'd', 'i']) {
        return Some(Opcode::Addi);
    }
    if chars_eq(name, &vec!['s', 'u', 'b', 'i']) {
        return Some(Opcode::Subi);
    }
    if chars_eq(name, &vec!['m', 'u', 'l', 'i']) {
        return Some(Opcode::Muli);
    }
    if chars_eq(name, &vec!['d', 'i', 'v', 'i']) {
        return Some(Opcode::Divi);
    }
    if chars_eq(name, &vec!['m', 'o', 'd', 'i']) {
        return Some(Opcode::Modi);
    }
    if chars_eq(name, &vec!['s', 'w', 'i', 'z']) {
        return Some(Opcode::Swiz);
    }
    if chars_eq(name, &vec!['m', 'a', 'r', 'k']) {
        return Some(Opcode::Mark);
    }
    if chars_eq(name, &vec!['j', 'u', 'm', 'p']) {
        return Some(Opcode::Jump);
    }
    if chars_eq(name, &vec!['t', 'j', 'm', 'p']) {
        return Some(Opcode::Tjmp);
    }
    if chars_eq(name, &vec!['f', 'j', 'm', 'p']) {
        return Some(Opcode::Fjmp);
    }
    if chars_eq(name, &vec!['t', 'e', 's', 't']) {
        return Some(Opcode::Test);
    }
    if chars_eq(name, &vec!['r', 'e', 'p', 'l']) {
        return Some(Opcode::Repl);
    }
    if chars_eq(name, &vec!['h', 'a', 'l', 't']) {
        return Some(Opcode::Halt);
    }
    if chars_eq(name, &vec!['k', 'i', 'l', 'l']) {
        return Some(Opcode::Kill);
    }
    if chars_eq(name, &vec!['l', 'i', 'n', 'k']) {
        return Some(Opcode::Link);
    }
    if chars_eq(name, &vec!['h', 'o', 's', 't']) {
        return Some(Opcode::Host);
    }
    if chars_eq(name, &vec!['m', 'o', 'd', 'e']) {
        return Some(Opcode::Mode);
    }
    if chars_eq(name, &vec!['v', 'o', 'i', 'd', ' ', 'm']) {
        return Some(Opcode::VoidM);
    }
    if chars_eq(name, &vec!['t', 'e', 's', 't', ' ', 'm', 'r', 'd']) {
        return Some(Opcode::TestMrd);
    }
    if chars_eq(name, &vec!['m', 'a', 'k', 'e']) {
        return Some(Opcode::Make);
    }
    if chars_eq(name, &vec!['g', 'r', 'a', 'b']) {
        return Some(Opcode::Grab);
    }
    if chars_eq(name, &vec!['f', 'i', 'l', 'e']) {
        return Some(Opcode::File);
    }
    if chars_eq(name, &vec!['s', 'e', 'e', 'k']) {
        return Some(Opcode::Seek);
    }
    if chars_eq(name, &vec!['v', 'o', 'i', 'd', ' ', 'f']) {
        return Some(Opcode::VoidF);
    }
    if chars_eq(name, &vec!['d', 'r', 'o', 'p']) {
        return Some(Opcode::Drop);
    }
    if chars_eq(name, &vec!['w', 'i', 'p', 'e']) {
        return Some(Opcode::Wipe);
    }
    if chars_eq(name, &vec!['t', 'e', 's', 't', ' ', 'e', 'o', 'f']) {
        return Some(Opcode::TestEof);
    }
    if chars_eq(name, &vec!['n', 'o', 'o', 'p']) {
        return Some(Opcode::Noop);
    }
    if chars_eq(name, &vec!['r', 'a', 'n', 'd']) {
        return Some(Opcode::Rand);
    }
    if chars_eq(name, &vec!['w', 'a', 'i', 't']) {
        return Some(Opcode::Wait);
    }
    if chars_eq(name, &vec!['d', 'a', 't', 'a']) {
        return Some(Opcode::Data);
    }
    None
}


fn data_exec(l: &Vec<char>, p: usize) -> (r: Option<Vec<i32>>)
    requires
        p <= l.len(),
    ensures
        match r {
            Some(d) => data_from(l@, p as int) == Some(d@),
            None => data_from(l@, p as int) is None,
        },
{
    let mut values: Vec<i32> = Vec::new();
    let mut q = p;
    loop
        invariant
            p <= q <= l.len(),
            forall|rest: Seq<i32>|
                data_from(l@, q as int) == Some(rest) ==> data_from(l@, p as int) == Some(
                    values@ + rest,
                ),
            data_from(l@, q as int) is None ==> data_from(l@, p as int) is None,
        decreases l.len() - q,
    {
        let a = match spaced_exec(l, q) {
            None => {
                return None;
            },
            Some(a) => a,
        };
        let (v, e) = match literal_at_exec(l, a) {
            None => {
                return None;
            },
            Some(x) => x,
        };
        let ghost before = values@;
        values.push(v);
        if ends_at_exec(l, e) {
            assert(data_from(l@, q as int) == Some(seq![v]));
            assert(before + seq![v] =~= values@);
            return Some(values);
        }
        proof {
            assert forall|rest: Seq<i32>| data_from(l@, e as int) == Some(rest) implies data_from(
                l@,
                p as int,
            ) == Some(values@ + rest) by {
                assert(data_from(l@, q as int) == Some(seq![v] + rest));
                assert(before + (seq![v] + rest) =~= values@ + rest);
            }
        }
        q = e;
    }
}

fn parse_operands_exec(op: Opcode, l: &Vec<char>, p: usize) -> (r: Option<Instruction>)
    requires
        p <= l.len(),
    ensures
        instruction_option_view(r) == parse_operands(op, l@, p as int),
{
    match op {
        Opcode::Halt => if ends_at_exec(l, p) { Some(Instruction::Halt) } else { None },
        Opcode::Kill => if ends_at_exec(l, p) { Some(Instruction::Kill) } else { None },
        Opcode::Mode => if ends_at_exec(l, p) { Some(Instruction::Mode) } else { None },
        Opcode::VoidM => if ends_at_exec(l, p) { Some(Instruction::VoidM) } else { None },
        Opcode::TestMrd => if ends_at_exec(l, p) { Some(Instruction::TestMrd) } else { None },
        Opcode::Make => if ends_at_exec(l, p) { Some(Instruction::Make) } else { None },
        Opcode::VoidF => if ends_at_exec(l, p) { Some(Instruction::VoidF) } else { None },
        Opcode::Drop => if ends_at_exec(l, p) { Some(Instruction::Drop) } else { None },
        Opcode::Wipe => if ends_at_exec(l, p) { Some(Instruction::Wipe) } else { None },
        Opcode::TestEof => if ends_at_exec(l, p) { Some(Instruction::TestEof) } else { None },
        Opcode::Noop => if ends_at_exec(l, p) { Some(Instruction::Noop) } else { None },
        Opcode::Wait => if ends_at_exec(l, p) { Some(Instruction::Wait) } else { None },
        Opcode::Link | Opcode::Host | Opcode::Grab | Opcode::File | Opcode::Seek => {
            let a = match spaced_exec(l, p) {
                None => {
                    return None;
                },
                Some(a) => a,
            };
            let (t, q) = target_at_exec(l, a);
            if !ends_at_exec(l, q) {
                None
            } else {
                Some(
                    match op {
                        Opcode::Link => Instruction::Link(t),
                        Opcode::Host => Instruction::Host(t),
                        Opcode::Grab => Instruction::Grab(t),
                        Opcode::File => Instruction::File(t),
                        _ => Instruction::Seek(t),
                    },
                )
            }
        },
        Opcode::Copy => {
            let a1 = match spaced_exec(l, p) {
                None => {
                    return None;
                },
                Some(a) => a,
            };
            let (t1, q1) = target_at_exec(l, a1);
            let a2 = match spaced_exec(l, q1) {
                None => {
                    return None;
                },
                Some(a) => a,
            };
            let (t2, q2) = target_at_exec(l, a2);
            if ends_at_exec(l, q2) {
                Some(Instruction::Copy(t1, t2))
            } else {
                None
            }
        },
        Opcode::Addi | Opcode::Subi | Opcode::Muli | Opcode::Divi | Opcode::Modi | Opcode::Swiz
        | Opcode::Rand => {
            let a1 = match spaced_exec(l, p) {
                None => {
                    return None;
                },
                Some(a) => a,
            };
            let (t1, q1) = target_at_exec(l, a1);
            let a2 = match spaced_exec(l, q1) {
                None => {
                    return None;
                },
                Some(a) => a,
            };
            let (t2, q2) = target_at_exec(l, a2);
            let a3 = match spaced_exec(l, q2) {
                None => {
                    return None;
                },
                Some(a) => a,
            };
            let (name, q3) = register_at_exec(l, a3);
            let t3 = Target::Register(string_from_chars(&name));
            if !ends_at_exec(l, q3) {
                None
            } else {
                Some(
                    match op {
                        Opcode::Addi => Instruction::Addi(t1, t2, t3),
                        Opcode::Subi => Instruction::Subi(t1, t2, t3),
                        Opcode::Muli => Instruction::Muli(t1, t2, t3),
                        Opcode::Divi => Instruction::Divi(t1, t2, t3),
                        Opcode::Modi => Instruction::Modi(t1, t2, t3),
                        Opcode::Swiz => Instruction::Swiz(t1, t2, t3),
                        _ => Instruction::Rand(t1, t2, t3),
                    },
                )
            }
        },
        Opcode::Test => {
            let a1 = match spaced_exec(l, p) {
                None => {
                    return None;
                },
                Some(a) => a,
            };
            let (t1, q1) = target_at_exec(l, a1);
            let a2 = match spaced_exec(l, q1) {
                None => {
                    return None;
                },
                Some(a) => a,
            };
            let c = match comparator_at_exec(l, a2) {
                None => {
                    return None;
                },
                Some(c) => c,
            };
            let a3 = match spaced_exec(l, a2 + 1) {
                None => {
                    return None;
                },
                Some(a) => a,
            };
            let (t2, q2) = target_at_exec(l, a3);
            if ends_at_exec(l, q2) {
                Some(Instruction::Test(t1, c, t2))
            } else {
                None
            }
        },
        Opcode::Mark | Opcode::Jump | Opcode::Tjmp | Opcode::Fjmp | Opcode::Repl => {
            let a = match spaced_exec(l, p) {
                None => {
                    return None;
                },
                Some(a) => a,
            };
            let q = nonblank_run_end_exec(l, a);
            if q == a || !ends_at_exec(l, q) {
                return None;
            }
            let label = string_from_chars(&sub_chars(l, a, q));
            Some(
                match op {
                    Opcode::Mark => Instruction::Mark(label),
                    Opcode::Jump => Instruction::Jump(label),
                    Opcode::Tjmp => Instruction::Tjmp(label),
                    Opcode::Fjmp => Instruction::Fjmp(label),
                    _ => Instruction::Repl(label),
                },
            )
        },
        Opcode::Data => match data_exec(l, p) {
            Some(d) => Some(Instruction::Data(d)),
            None => None,
        },
    }
}

/// One line, without its line ending, read as an instruction.
pub fn parse_line_chars(l: &Vec<char>) -> (r: Option<Instruction>)
    ensures
        instruction_option_view(r) == parse_line_spec(l@),
{
    reveal(parse_line_spec);
    match name_at_exec(l, 0) {
        None => None,
        Some((name, q)) => match opcode_of_chars(&name) {
            None => None,
            Some(op) => parse_operands_exec(op, l, q),
        },
    }
}


// ---------------------------------------------------------------------------
// Lines
// ---------------------------------------------------------------------------

/// Index of the first newline at or after `p`, or the length of the text.
pub open spec fn line_end(t: Seq<char>, p: int) -> int
    decreases t.len() - p,
{
    if p < 0 || p >= t.len() {
        t.len() as int
    } else if t[p] == '\n' {
        p
    } else {
        line_end(t, p + 1)
    }
}

pub proof fn lemma_line_end(t: Seq<char>, p: int)
    requires
        0 <= p <= t.len(),
    ensures
        p <= line_end(t, p) <= t.len(),
        line_end(t, p) < t.len() ==> t[line_end(t, p)] == '\n',
        forall|j: int| p <= j < line_end(t, p) ==> t[j] != '\n',
    decreases t.len() - p,
{
    if p < t.len() && t[p] != '\n' {
        lemma_line_end(t, p + 1);
    }
}

/// The line starting at `p`, without its line ending (`\n` or `\r\n`).
pub open spec fn line_content(t: Seq<char>, p: int) -> Seq<char> {
    let l = t.subrange(p, line_end(t, p));
    if l.len() > 0 && l.last() == '\r' {
        l.drop_last()
    } else {
        l
    }
}

/// The line at `p` ends with a line ending and follows the grammar.
pub open spec fn line_at(t: Seq<char>, p: int) -> Option<SpecInstruction> {
    if line_end(t, p) < t.len() {
        parse_line_spec(line_content(t, p))
    } else {
        None
    }
}

pub fn line_end_exec(t: &Vec<char>, p: usize) -> (r: usize)
    requires
        p <= t.len(),
    ensures
        r == line_end(t@, p as int),
        p <= r <= t.len(),
{
    proof {
        lemma_line_end(t@, p as int);
    }
    let mut q = p;
    while q < t.len() && t[q] != '\n'
        invariant
            p <= q <= t.len(),
            line_end(t@, p as int) == line_end(t@, q as int),
        decreases t.len() - q,
    {
        q = q + 1;
    }
    q
}

pub fn line_content_exec(t: &Vec<char>, p: usize, e: usize) -> (r: Vec<char>)
    requires
        p <= t.len(),
        e == line_end(t@, p as int),
    ensures
        r@ == line_content(t@, p as int),
{
    proof {
        lemma_line_end(t@, p as int);
    }
    let l = sub_chars(t, p, e);
    if l.len() > 0 && l[l.len() - 1] == '\r' {
        sub_chars(&l, 0, l.len() - 1)
    } else {
        l
    }
}

// ---------------------------------------------------------------------------
// The pieces of the grammar, on string slices
// ---------------------------------------------------------------------------

pub open spec fn rest_start(i: &str, rest: &str) -> int {
    i@.len() - rest@.len()
}

fn rest_of<'a>(i: &'a str, q: usize) -> (r: &'a str)
    requires
        q <= i@.len(),
    ensures
        r@ == i@.subrange(q as int, i@.len() as int),
{
    i.substring_char(q, i.unicode_len())
}

/// A literal at the start of `i`, and what follows it.
pub fn parse_literal<'a>(i: &'a str) -> (r: Result<(&'a str, i32), ParseFailure>)
    ensures
        match r {
            Ok((rest, v)) => literal_at(i@, 0) == Some((v, rest_start(i, rest))) && rest@
                == i@.subrange(rest_start(i, rest), i@.len() as int),
            Err(_) => literal_at(i@, 0) is None,
        },
{
    let l = str_chars(i);
    match literal_at_exec(&l, 0) {
        Some((v, q)) => Ok((rest_of(i, q), v)),
        None => Err(ParseFailure),
    }
}

/// A register name at the start of `i` (possibly empty), lowercased, and what
/// follows it.
pub fn parse_register<'a>(i: &'a str) -> (r: Result<(&'a str, String), ParseFailure>)
    ensures
        match r {
            Ok((rest, name)) => register_at(i@, 0) == (name@, rest_start(i, rest)) && rest@
                == i@.subrange(rest_start(i, rest), i@.len() as int),
            Err(_) => false,
        },
{
    let l = str_chars(i);
    let (name, q) = register_at_exec(&l, 0);
    Ok((rest_of(i, q), string_from_chars(&name)))
}

/// An operand at the start of `i`, and what follows it.
pub fn parse_target<'a>(i: &'a str) -> (r: Result<(&'a str, Target), ParseFailure>)
    ensures
        match r {
            Ok((rest, t)) => target_at(i@, 0) == (t@, rest_start(i, rest)) && rest@ == i@.subrange(
                rest_start(i, rest),
                i@.len() as int,
            ),
            Err(_) => false,
        },
{
    let l = str_chars(i);
    let (t, q) = target_at_exec(&l, 0);
    Ok((rest_of(i, q), t))
}

/// The instruction name at the start of `i`, lowercased, and what follows it
/// once blanks are skipped.
pub fn parse_instruction<'a>(i: &'a str) -> (r: Result<(&'a str, String), ParseFailure>)
    ensures
        match r {
            Ok((rest, name)) => name_at(i@, 0) matches Some((n, q)) && n == name@ && rest_start(
                i,
                rest,
            ) == blank_run_end(i@, q) && rest@ == i@.subrange(
                rest_start(i, rest),
                i@.len() as int,
            ),
            Err(_) => name_at(i@, 0) is None,
        },
{
    let l = str_chars(i);
    match name_at_exec(&l, 0) {
        None => Err(ParseFailure),
        Some((name, q)) => {
            let e = blank_run_end_exec(&l, q);
            Ok((rest_of(i, e), string_from_chars(&name)))
        },
    }
}

/// The instruction on the first line of `i`, which must end with a line ending,
/// and the text after that line ending.
pub fn parse_line<'a>(i: &'a str) -> (r: Result<(&'a str, Instruction), ParseFailure>)
    ensures
        match r {
            Ok((rest, inst)) => line_at(i@, 0) == Some(inst@) && rest_start(i, rest) == line_end(
                i@,
                0,
            ) + 1 && rest@ == i@.subrange(rest_start(i, rest), i@.len() as int),
            Err(_) => line_at(i@, 0) is None,
        },
{
    let t = str_chars(i);
    let e = line_end_exec(&t, 0);
    if e >= t.len() {
        return Err(ParseFailure);
    }
    let l = line_content_exec(&t, 0, e);
    match parse_line_chars(&l) {
        Some(inst) => Ok((rest_of(i, e + 1), inst)),
        None => Err(ParseFailure),
    }
}

// ---------------------------------------------------------------------------
// What a line names is what it parses to
// ---------------------------------------------------------------------------

/// How an instruction without operands is written, in lower case.
pub open spec fn bare_text(i: SpecInstruction) -> Option<Seq<char>> {
    match i {
        SpecInstruction::Halt => Some(seq!['h', 'a', 'l', 't']),
        SpecInstruction::Kill => Some(seq!['k', 'i', 'l', 'l']),
        SpecInstruction::Mode => Some(seq!['m', 'o', 'd', 'e']),
        SpecInstruction::VoidM => Some(seq!['v', 'o', 'i', 'd', ' ', 'm']),
        SpecInstruction::TestMrd => Some(seq!['t', 'e', 's', 't', ' ', 'm', 'r', 'd']),
        SpecInstruction::Make => Some(seq!['m', 'a', 'k', 'e']),
        SpecInstruction::VoidF => Some(seq!['v', 'o', 'i', 'd', ' ', 'f']),
        SpecInstruction::Drop => Some(seq!['d', 'r', 'o', 'p']),
        SpecInstruction::Wipe => Some(seq!['w', 'i', 'p', 'e']),
        SpecInstruction::TestEof => Some(seq!['t', 'e', 's', 't', ' ', 'e', 'o', 'f']),
        SpecInstruction::Noop => Some(seq!['n', 'o', 'o', 'p']),
        SpecInstruction::Wait => Some(seq!['w', 'a', 'i', 't']),
        _ => None,
    }
}

/// Every instruction without operands, written out, parses back to itself:
/// the line "void f" is VOID F, "void m" is VOID M, and so on.
#[verifier::spinoff_prover]
#[verifier::rlimit(60)]
pub proof fn law_bare_lines_parse_to_their_instruction(i: SpecInstruction)
    requires
        bare_text(i) is Some,
    ensures
        parse_line_spec(bare_text(i)->Some_0) == Some(i),
{
    reveal(parse_line_spec);
    reveal_with_fuel(alpha_run_end, 5);
    match i {
        SpecInstruction::Halt => {
            let l = seq!['h', 'a', 'l', 't'];
            assert(alpha_run_end(l, 0) == 4);
            assert(lower_chars(l.subrange(0, 4)) =~= l);
            assert(blank_run_end(l, 4) == 4);
        },
        SpecInstruction::Kill => {
            let l = seq!['k', 'i', 'l', 'l'];
            assert(alpha_run_end(l, 0) == 4);
            assert(lower_chars(l.subrange(0, 4)) =~= l);
            assert(blank_run_end(l, 4) == 4);
        },
        SpecInstruction::Mode => {
            let l = seq!['m', 'o', 'd', 'e'];
            assert(alpha_run_end(l, 0) == 4);
            assert(lower_chars(l.subrange(0, 4)) =~= l);
            assert(blank_run_end(l, 4) == 4);
        },
        SpecInstruction::Make => {
            let l = seq!['m', 'a', 'k', 'e'];
            assert(alpha_run_end(l, 0) == 4);
            assert(lower_chars(l.subrange(0, 4)) =~= l);
            assert(blank_run_end(l, 4) == 4);
        },
        SpecInstruction::Drop => {
            let l = seq!['d', 'r', 'o', 'p'];
            assert(alpha_run_end(l, 0) == 4);
            assert(lower_chars(l.subrange(0, 4)) =~= l);
            assert(blank_run_end(l, 4) == 4);
        },
        SpecInstruction::Wipe => {
            let l = seq!['w', 'i', 'p', 'e'];
            assert(alpha_run_end(l, 0) == 4);
            assert(lower_chars(l.subrange(0, 4)) =~= l);
            assert(blank_run_end(l, 4) == 4);
        },
        SpecInstruction::Noop => {
            let l = seq!['n', 'o', 'o', 'p'];
            assert(alpha_run_end(l, 0) == 4);
            assert(lower_chars(l.subrange(0, 4)) =~= l);
            assert(blank_run_end(l, 4) == 4);
        },
        SpecInstruction::Wait => {
            let l = seq!['w', 'a', 'i', 't'];
            assert(alpha_run_end(l, 0) == 4);
            assert(lower_chars(l.subrange(0, 4)) =~= l);
            assert(blank_run_end(l, 4) == 4);
        },
        SpecInstruction::VoidM => {
            let l = seq!['v', 'o', 'i', 'd', ' ', 'm'];
            assert(lower_chars(l.subrange(0, 6)) =~= l);
            assert(!starts_with_nocase(l, 0, seq!['v', 'o', 'i', 'd', ' ', 'f'])) by {
                assert(lower_chars(l.subrange(0, 6))[5] == 'm');
            }
            assert(blank_run_end(l, 6) == 6);
        },
        SpecInstruction::VoidF => {
            let l = seq!['v', 'o', 'i', 'd', ' ', 'f'];
            assert(lower_chars(l.subrange(0, 6)) =~= l);
            assert(!starts_with_nocase(l, 0, seq!['v', 'o', 'i', 'd', ' ', 'm'])) by {
                assert(lower_chars(l.subrange(0, 6))[5] == 'f');
            }
            assert(blank_run_end(l, 6) == 6);
        },
        SpecInstruction::TestMrd => {
            let l = seq!['t', 'e', 's', 't', ' ', 'm', 'r', 'd'];
            assert(lower_chars(l.subrange(0, 8)) =~= l);
            assert(!starts_with_nocase(l, 0, seq!['t', 'e', 's', 't', ' ', 'e', 'o', 'f'])) by {
                assert(lower_chars(l.subrange(0, 8))[5] == 'm');
            }
            assert(blank_run_end(l, 8) == 8);
        },
        SpecInstruction::TestEof => {
            let l = seq!['t', 'e', 's', 't', ' ', 'e', 'o', 'f'];
            assert(lower_chars(l.subrange(0, 8)) =~= l);
            assert(!starts_with_nocase(l, 0, seq!['t', 'e', 's', 't', ' ', 'm', 'r', 'd'])) by {
                assert(lower_chars(l.subrange(0, 8))[5] == 'e');
            }
            assert(blank_run_end(l, 8) == 8);
        },
        _ => {},
    }
}

/// A register name written in plain lower-case letters.
pub open spec fn plain_register_name(r: Seq<char>) -> bool {
    r.len() > 0 && forall|k: int| 0 <= k < r.len() ==> 'a' <= #[trigger] r[k] <= 'z'
}

/// A label: one or more characters, none of them a blank.
pub open spec fn plain_label(lab: Seq<char>) -> bool {
    lab.len() > 0 && forall|k: int| 0 <= k < lab.len() ==> !is_blank(#[trigger] lab[k])
}

/// How an instruction with a single register or label operand is written:
/// its name in lower case, one space, then the operand.
pub open spec fn one_operand_text(i: SpecInstruction) -> Option<Seq<char>> {
    match i {
        SpecInstruction::Link(SpecTarget::Register(r)) => Some(seq!['l', 'i', 'n', 'k', ' '] + r),
        SpecInstruction::Host(SpecTarget::Register(r)) => Some(seq!['h', 'o', 's', 't', ' '] + r),
        SpecInstruction::Grab(SpecTarget::Register(r)) => Some(seq!['g', 'r', 'a', 'b', ' '] + r),
        SpecInstruction::File(SpecTarget::Register(r)) => Some(seq!['f', 'i', 'l', 'e', ' '] + r),
        SpecInstruction::Seek(SpecTarget::Register(r)) => Some(seq!['s', 'e', 'e', 'k', ' '] + r),
        SpecInstruction::Mark(lab) => Some(seq!['m', 'a', 'r', 'k', ' '] + lab),
        SpecInstruction::Jump(lab) => Some(seq!['j', 'u', 'm', 'p', ' '] + lab),
        SpecInstruction::Tjmp(lab) => Some(seq!['t', 'j', 'm', 'p', ' '] + lab),
        SpecInstruction::Fjmp(lab) => Some(seq!['f', 'j', 'm', 'p', ' '] + lab),
        SpecInstruction::Repl(lab) => Some(seq!['r', 'e', 'p', 'l', ' '] + lab),
        _ => None,
    }
}

/// Whether the operand of such an instruction can be written as above and
/// read back: a register of plain letters, or a label without blanks.
pub open spec fn one_operand_writable(i: SpecInstruction) -> bool {
    match i {
        SpecInstruction::Link(SpecTarget::Register(r)) => plain_register_name(r),
        SpecInstruction::Host(SpecTarget::Register(r)) => plain_register_name(r),
        SpecInstruction::Grab(SpecTarget::Register(r)) => plain_register_name(r),
        SpecInstruction::File(SpecTarget::Register(r)) => plain_register_name(r),
        SpecInstruction::Seek(SpecTarget::Register(r)) => plain_register_name(r),
        SpecInstruction::Mark(lab) => plain_label(lab),
        SpecInstruction::Jump(lab) => plain_label(lab),
        SpecInstruction::Tjmp(lab) => plain_label(lab),
        SpecInstruction::Fjmp(lab) => plain_label(lab),
        SpecInstruction::Repl(lab) => plain_label(lab),
        _ => false,
    }
}

proof fn lemma_nonblank_run_to_end(l: Seq<char>, p: int)
    requires
        0 <= p <= l.len(),
        forall|k: int| p <= k < l.len() ==> !is_blank(#[trigger] l[k]),
    ensures
        nonblank_run_end(l, p) == l.len(),
    decreases l.len() - p,
{
    if p < l.len() {
        lemma_nonblank_run_to_end(l, p + 1);
    }
}

proof fn lemma_alpha_hash_run_until(l: Seq<char>, p: int, e: int)
    requires
        0 <= p <= e <= l.len(),
        forall|k: int| p <= k < e ==> 'a' <= #[trigger] l[k] <= 'z',
        e == l.len() || is_blank(l[e]),
    ensures
        alpha_hash_run_end(l, p) == e,
    decreases e - p,
{
    if p < e {
        assert('a' <= l[p] <= 'z');
        lemma_alpha_hash_run_until(l, p + 1, e);
    }
}

/// A four-letter name that is not the start of a two-word name, a space,
/// then something that does not start with a blank: the name is read, and
/// the operand starts after the one space.
proof fn lemma_name_then_operand(w: Seq<char>, rest: Seq<char>)
    requires
        w.len() == 4,
        forall|k: int| 0 <= k < 4 ==> 'a' <= #[trigger] w[k] <= 'z',
        w[0] != 'v',
        w[0] != 't' || w[1] != 'e',
        rest.len() > 0,
        !is_blank(rest[0]),
    ensures
        name_at(w + seq![' '] + rest, 0) == Some((w, 4int)),
        spaced(w + seq![' '] + rest, 4) == Some(5int),
{
    let l = w + seq![' '] + rest;
    assert(l[4] == ' ');
    assert(l[5] == rest[0]);
    assert forall|k: int| 0 <= k < 4 implies l[k] == w[k] && is_ascii_alpha(#[trigger] l[k]) by {
        assert('a' <= w[k] <= 'z');
    }
    assert(lower_chars(l.subrange(0, 4)) =~= w);
    assert(!starts_with_nocase(l, 0, seq!['v', 'o', 'i', 'd', ' ', 'm'])) by {
        if l.len() >= 6 {
            assert(lower_chars(l.subrange(0, 6))[0] == l[0]);
            assert(lower_chars(l.subrange(0, 6))[1] == l[1]);
        }
    }
    assert(!starts_with_nocase(l, 0, seq!['v', 'o', 'i', 'd', ' ', 'f'])) by {
        if l.len() >= 6 {
            assert(lower_chars(l.subrange(0, 6))[0] == l[0]);
        }
    }
    assert(!starts_with_nocase(l, 0, seq!['t', 'e', 's', 't', ' ', 'm', 'r', 'd'])) by {
        if l.len() >= 8 {
            assert(lower_chars(l.subrange(0, 8))[0] == l[0]);
            assert(lower_chars(l.subrange(0, 8))[1] == l[1]);
        }
    }
    assert(!starts_with_nocase(l, 0, seq!['t', 'e', 's', 't', ' ', 'e', 'o', 'f'])) by {
        if l.len() >= 8 {
            assert(lower_chars(l.subrange(0, 8))[0] == l[0]);
            assert(lower_chars(l.subrange(0, 8))[1] == l[1]);
        }
    }
    reveal_with_fuel(alpha_run_end, 5);
    assert(alpha_run_end(l, 0) == 4);
    assert(blank_run_end(l, 5) == 5);
    assert(blank_run_end(l, 4) == 5);
}

/// After `p`, a label without blanks runs to the end of the line.
proof fn lemma_label_operand(l: Seq<char>, p: int)
    requires
        0 <= p < l.len(),
        plain_label(l.subrange(p, l.len() as int)),
    ensures
        nonblank_run_end(l, p) == l.len(),
        ends_at(l, l.len() as int),
{
    let lab = l.subrange(p, l.len() as int);
    assert forall|k: int| p <= k < l.len() implies !is_blank(#[trigger] l[k]) by {
        assert(lab[k - p] == l[k]);
    }
    lemma_nonblank_run_to_end(l, p);
}

/// After `p`, a register name of plain letters runs to the end of the line.
proof fn lemma_register_operand(l: Seq<char>, p: int)
    requires
        0 <= p < l.len(),
        plain_register_name(l.subrange(p, l.len() as int)),
    ensures
        target_at(l, p) == (SpecTarget::Register(l.subrange(p, l.len() as int)), l.len() as int),
        ends_at(l, l.len() as int),
{
    let r = l.subrange(p, l.len() as int);
    lemma_register_at(l, p, r);
    assert(blank_run_end(l, l.len() as int) == l.len());
}

/// The pieces of a line made of a four-letter name, a space and a register
/// name of plain letters.
proof fn lemma_register_line(w: Seq<char>, r: Seq<char>)
    requires
        w.len() == 4,
        forall|k: int| 0 <= k < 4 ==> 'a' <= #[trigger] w[k] <= 'z',
        w[0] != 'v',
        w[0] != 't' || w[1] != 'e',
        plain_register_name(r),
    ensures
        ({
            let l = w + seq![' '] + r;
            &&& name_at(l, 0) == Some((w, 4int))
            &&& spaced(l, 4) == Some(5int)
            &&& target_at(l, 5) == (SpecTarget::Register(r), l.len() as int)
            &&& ends_at(l, l.len() as int)
        }),
{
    let l = w + seq![' '] + r;
    assert('a' <= r[0] <= 'z');
    lemma_name_then_operand(w, r);
    assert(l.subrange(5, l.len() as int) =~= r);
    lemma_register_operand(l, 5);
}

/// The pieces of a line made of a four-letter name, a space and a label.
proof fn lemma_label_line(w: Seq<char>, lab: Seq<char>)
    requires
        w.len() == 4,
        forall|k: int| 0 <= k < 4 ==> 'a' <= #[trigger] w[k] <= 'z',
        w[0] != 'v',
        w[0] != 't' || w[1] != 'e',
        plain_label(lab),
    ensures
        ({
            let l = w + seq![' '] + lab;
            &&& name_at(l, 0) == Some((w, 4int))
            &&& spaced(l, 4) == Some(5int)
            &&& nonblank_run_end(l, 5) == l.len()
            &&& l.subrange(5, l.len() as int) == lab
            &&& ends_at(l, l.len() as int)
        }),
{
    let l = w + seq![' '] + lab;
    assert(!is_blank(lab[0]));
    lemma_name_then_operand(w, lab);
    assert(l.subrange(5, l.len() as int) =~= lab);
    lemma_label_operand(l, 5);
}

#[verifier::spinoff_prover]
#[verifier::rlimit(60)]
proof fn lemma_link_line(r: Seq<char>)
    requires
        plain_register_name(r),
    ensures
        parse_line_spec(seq!['l', 'i', 'n', 'k'] + seq![' '] + r) == Some(SpecInstruction::Link(SpecTarget::Register(r))),
{
    reveal(parse_line_spec);
    lemma_register_line(seq!['l', 'i', 'n', 'k'], r);
}

#[verifier::spinoff_prover]
#[verifier::rlimit(60)]
proof fn lemma_host_line(r: Seq<char>)
    requires
        plain_register_name(r),
    ensures
        parse_line_spec(seq!['h', 'o', 's', 't'] + seq![' '] + r) == Some(SpecInstruction::Host(SpecTarget::Register(r))),
{
    reveal(parse_line_spec);
    lemma_register_line(seq!['h', 'o', 's', 't'], r);
}

#[verifier::spinoff_prover]
#[verifier::rlimit(60)]
proof fn lemma_grab_line(r: Seq<char>)
    requires
        plain_register_name(r),
    ensures
        parse_line_spec(seq!['g', 'r', 'a', 'b'] + seq![' '] + r) == Some(SpecInstruction::Grab(SpecTarget::Register(r))),
{
    reveal(parse_line_spec);
    lemma_register_line(seq!['g', 'r', 'a', 'b'], r);
}

#[verifier::spinoff_prover]
#[verifier::rlimit(60)]
proof fn lemma_file_line(r: Seq<char>)
    requires
        plain_register_name(r),
    ensures
        parse_line_spec(seq!['f', 'i', 'l', 'e'] + seq![' '] + r) == Some(SpecInstruction::File(SpecTarget::Register(r))),
{
    reveal(parse_line_spec);
    lemma_register_line(seq!['f', 'i', 'l', 'e'], r);
}

#[verifier::spinoff_prover]
#[verifier::rlimit(60)]
proof fn lemma_seek_line(r: Seq<char>)
    requires
        plain_register_name(r),
    ensures
        parse_line_spec(seq!['s', 'e', 'e', 'k'] + seq![' '] + r) == Some(SpecInstruction::Seek(SpecTarget::Register(r))),
{
    reveal(parse_line_spec);
    lemma_register_line(seq!['s', 'e', 'e', 'k'], r);
}

#[verifier::spinoff_prover]
#[verifier::rlimit(60)]
proof fn lemma_mark_line(lab: Seq<char>)
    requires
        plain_label(lab),
    ensures
        parse_line_spec(seq!['m', 'a', 'r', 'k'] + seq![' '] + lab) == Some(SpecInstruction::Mark(lab)),
{
    reveal(parse_line_spec);
    lemma_label_line(seq!['m', 'a', 'r', 'k'], lab);
}

#[verifier::spinoff_prover]
#[verifier::rlimit(60)]
proof fn lemma_jump_line(lab: Seq<char>)
    requires
        plain_label(lab),
    ensures
        parse_line_spec(seq!['j', 'u', 'm', 'p'] + seq![' '] + lab) == Some(SpecInstruction::Jump(lab)),
{
    reveal(parse_line_spec);
    lemma_label_line(seq!['j', 'u', 'm', 'p'], lab);
}

#[verifier::spinoff_prover]
#[verifier::rlimit(60)]
proof fn lemma_tjmp_line(lab: Seq<char>)
    requires
        plain_label(lab),
    ensures
        parse_line_spec(seq!['t', 'j', 'm', 'p'] + seq![' '] + lab) == Some(SpecInstruction::Tjmp(lab)),
{
    reveal(parse_line_spec);
    lemma_label_line(seq!['t', 'j', 'm', 'p'], lab);
}

#[verifier::spinoff_prover]
#[verifier::rlimit(60)]
proof fn lemma_fjmp_line(lab: Seq<char>)
    requires
        plain_label(lab),
    ensures
        parse_line_spec(seq!['f', 'j', 'm', 'p'] + seq![' '] + lab) == Some(SpecInstruction::Fjmp(lab)),
{
    reveal(parse_line_spec);
    lemma_label_line(seq!['f', 'j', 'm', 'p'], lab);
}

#[verifier::spinoff_prover]
#[verifier::rlimit(60)]
proof fn lemma_repl_line(lab: Seq<char>)
    requires
        plain_label(lab),
    ensures
        parse_line_spec(seq!['r', 'e', 'p', 'l'] + seq![' '] + lab) == Some(SpecInstruction::Repl(lab)),
{
    reveal(parse_line_spec);
    lemma_label_line(seq!['r', 'e', 'p', 'l'], lab);
}

/// Every instruction with one register operand (LINK, HOST, GRAB, FILE,
/// SEEK) or one label (MARK, JUMP, TJMP, FJMP, REPL), written out as its
/// name, a space and the operand, parses back to itself: "link x" is LINK
/// with register X, "jump end" is JUMP to label "end", and so on.
pub proof fn law_one_operand_lines_parse_to_their_instruction(i: SpecInstruction)
    requires
        one_operand_writable(i),
    ensures
        one_operand_text(i) is Some,
        parse_line_spec(one_operand_text(i)->Some_0) == Some(i),
{
    let l = one_operand_text(i)->Some_0;
    match i {
        SpecInstruction::Link(SpecTarget::Register(r)) => {
            assert(parse_line_spec(l) == Some(i)) by {
                lemma_link_line(r);
                assert(l == seq!['l', 'i', 'n', 'k'] + seq![' '] + r);
            }
        },
        SpecInstruction::Host(SpecTarget::Register(r)) => {
            assert(parse_line_spec(l) == Some(i)) by {
                lemma_host_line(r);
                assert(l == seq!['h', 'o', 's', 't'] + seq![' '] + r);
            }
        },
        SpecInstruction::Grab(SpecTarget::Register(r)) => {
            assert(parse_line_spec(l) == Some(i)) by {
                lemma_grab_line(r);
                assert(l == seq!['g', 'r', 'a', 'b'] + seq![' '] + r);
            }
        },
        SpecInstruction::File(SpecTarget::Register(r)) => {
            assert(parse_line_spec(l) == Some(i)) by {
                lemma_file_line(r);
                assert(l == seq!['f', 'i', 'l', 'e'] + seq![' '] + r);
            }
        },
        SpecInstruction::Seek(SpecTarget::Register(r)) => {
            assert(parse_line_spec(l) == Some(i)) by {
                lemma_seek_line(r);
                assert(l == seq!['s', 'e', 'e', 'k'] + seq![' '] + r);
            }
        },
        SpecInstruction::Mark(lab) => {
            assert(parse_line_spec(l) == Some(i)) by {
                lemma_mark_line(lab);
                assert(l == seq!['m', 'a', 'r', 'k'] + seq![' '] + lab);
            }
        },
        SpecInstruction::Jump(lab) => {
            assert(parse_line_spec(l) == Some(i)) by {
                lemma_jump_line(lab);
                assert(l == seq!['j', 'u', 'm', 'p'] + seq![' '] + lab);
            }
        },
        SpecInstruction::Tjmp(lab) => {
            assert(parse_line_spec(l) == Some(i)) by {
                lemma_tjmp_line(lab);
                assert(l == seq!['t', 'j', 'm', 'p'] + seq![' '] + lab);
            }
        },
        SpecInstruction::Fjmp(lab) => {
            assert(parse_line_spec(l) == Some(i)) by {
                lemma_fjmp_line(lab);
                assert(l == seq!['f', 'j', 'm', 'p'] + seq![' '] + lab);
            }
        },
        SpecInstruction::Repl(lab) => {
            assert(parse_line_spec(l) == Some(i)) by {
                lemma_repl_line(lab);
                assert(l == seq!['r', 'e', 'p', 'l'] + seq![' '] + lab);
            }
        },
        _ => {
            assert(!one_operand_writable(i));
        },
    }
}

/// The comparator's character.
pub open spec fn comparator_char(c: Comparator) -> char {
    match c {
        Comparator::Equal => '=',
        Comparator::GreaterThan => '>',
        Comparator::LessThan => '<',
    }
}

/// A first operand of TEST that the two-word names TEST MRD and TEST EOF
/// would swallow.
pub open spec fn clashes_with_test_word(a: Seq<char>) -> bool {
    a.len() >= 3 && (a.subrange(0, 3) == seq!['m', 'r', 'd'] || a.subrange(0, 3) == seq!['e', 'o', 'f'])
}

/// How an instruction whose operands are all registers is written: its name
/// in lower case, then each operand after one space (for TEST, the
/// comparator between its two operands).
pub open spec fn register_operands_text(i: SpecInstruction) -> Option<Seq<char>> {
    match i {
        SpecInstruction::Copy(SpecTarget::Register(a), SpecTarget::Register(b)) => Some(
            seq!['c', 'o', 'p', 'y', ' '] + a + seq![' '] + b,
        ),
        SpecInstruction::Addi(SpecTarget::Register(a), SpecTarget::Register(b), SpecTarget::Register(c)) => Some(
            seq!['a', 'd', 'd', 'i', ' '] + a + seq![' '] + b + seq![' '] + c,
        ),
        SpecInstruction::Subi(SpecTarget::Register(a), SpecTarget::Register(b), SpecTarget::Register(c)) => Some(
            seq!['s', 'u', 'b', 'i', ' '] + a + seq![' '] + b + seq![' '] + c,
        ),
        SpecInstruction::Muli(SpecTarget::Register(a), SpecTarget::Register(b), SpecTarget::Register(c)) => Some(
            seq!['m', 'u', 'l', 'i', ' '] + a + seq![' '] + b + seq![' '] + c,
        ),
        SpecInstruction::Divi(SpecTarget::Register(a), SpecTarget::Register(b), SpecTarget::Register(c)) => Some(
            seq!['d', 'i', 'v', 'i', ' '] + a + seq![' '] + b + seq![' '] + c,
        ),
        SpecInstruction::Modi(SpecTarget::Register(a), SpecTarget::Register(b), SpecTarget::Register(c)) => Some(
            seq!['m', 'o', 'd', 'i', ' '] + a + seq![' '] + b + seq![' '] + c,
        ),
        SpecInstruction::Swiz(SpecTarget::Register(a), SpecTarget::Register(b), SpecTarget::Register(c)) => Some(
            seq!['s', 'w', 'i', 'z', ' '] + a + seq![' '] + b + seq![' '] + c,
        ),
        SpecInstruction::Rand(SpecTarget::Register(a), SpecTarget::Register(b), SpecTarget::Register(c)) => Some(
            seq!['r', 'a', 'n', 'd', ' '] + a + seq![' '] + b + seq![' '] + c,
        ),
        SpecInstruction::Test(SpecTarget::Register(a), comp, SpecTarget::Register(b)) => Some(
            seq!['t', 'e', 's', 't', ' '] + a + seq![' ', comparator_char(comp), ' '] + b,
        ),
        _ => None,
    }
}

/// Whether such an instruction can be written as above and read back: each
/// register is named in plain letters, and the first operand of TEST does not
/// begin with "mrd" or "eof".
pub open spec fn register_operands_writable(i: SpecInstruction) -> bool {
    match i {
        SpecInstruction::Copy(SpecTarget::Register(a), SpecTarget::Register(b)) => plain_register_name(a)
            && plain_register_name(b),
        SpecInstruction::Addi(SpecTarget::Register(a), SpecTarget::Register(b), SpecTarget::Register(c)) =>
            plain_register_name(a) && plain_register_name(b) && plain_register_name(c),
        SpecInstruction::Subi(SpecTarget::Register(a), SpecTarget::Register(b), SpecTarget::Register(c)) =>
            plain_register_name(a) && plain_register_name(b) && plain_register_name(c),
        SpecInstruction::Muli(SpecTarget::Register(a), SpecTarget::Register(b), SpecTarget::Register(c)) =>
            plain_register_name(a) && plain_register_name(b) && plain_register_name(c),
        SpecInstruction::Divi(SpecTarget::Register(a), SpecTarget::Register(b), SpecTarget::Register(c)) =>
            plain_register_name(a) && plain_register_name(b) && plain_register_name(c),
        SpecInstruction::Modi(SpecTarget::Register(a), SpecTarget::Register(b), SpecTarget::Register(c)) =>
            plain_register_name(a) && plain_register_name(b) && plain_register_name(c),
        SpecInstruction::Swiz(SpecTarget::Register(a), SpecTarget::Register(b), SpecTarget::Register(c)) =>
            plain_register_name(a) && plain_register_name(b) && plain_register_name(c),
        SpecInstruction::Rand(SpecTarget::Register(a), SpecTarget::Register(b), SpecTarget::Register(c)) =>
            plain_register_name(a) && plain_register_name(b) && plain_register_name(c),
        SpecInstruction::Test(SpecTarget::Register(a), comp, SpecTarget::Register(b)) => plain_register_name(a)
            && plain_register_name(b) && !clashes_with_test_word(a),
        _ => false,
    }
}

/// A register name of plain letters at `p`, followed by a blank or the end of
/// the line, is read as that register.
proof fn lemma_register_at(l: Seq<char>, p: int, r: Seq<char>)
    requires
        plain_register_name(r),
        0 <= p,
        p + r.len() <= l.len(),
        l.subrange(p, p + r.len()) == r,
        p + r.len() == l.len() || is_blank(l[p + r.len()]),
    ensures
        register_at(l, p) == (r, p + r.len()),
        target_at(l, p) == (SpecTarget::Register(r), p + r.len()),
{
    let e: int = p + r.len();
    assert forall|k: int| p <= k < e implies 'a' <= #[trigger] l[k] <= 'z' by {
        assert(r[k - p] == l[k]);
    }
    assert('a' <= l[p] <= 'z');
    assert(sign_digit_run_end(l, p) == p);
    assert(l.subrange(p, p) =~= Seq::<char>::empty());
    assert(literal_at(l, p) is None);
    lemma_alpha_hash_run_until(l, p, e);
    assert forall|k: int| 0 <= k < r.len() implies #[trigger] lower_chars(r)[k] == r[k] by {
        assert('a' <= r[k] <= 'z');
    }
    assert(lower_chars(r) =~= r);
}

/// One space at `p` and a non-blank after it.
proof fn lemma_one_space(l: Seq<char>, p: int)
    requires
        0 <= p,
        p + 1 < l.len(),
        l[p] == ' ',
        !is_blank(l[p + 1]),
    ensures
        spaced(l, p) == Some(p + 1),
{
    assert(blank_run_end(l, p + 1) == p + 1);
    assert(blank_run_end(l, p) == p + 1);
}

/// The pieces of a line made of a four-letter name and three register names.
proof fn lemma_three_register_line(w: Seq<char>, a: Seq<char>, b: Seq<char>, c: Seq<char>)
    requires
        w.len() == 4,
        forall|k: int| 0 <= k < 4 ==> 'a' <= #[trigger] w[k] <= 'z',
        w[0] != 'v',
        w[0] != 't' || w[1] != 'e',
        plain_register_name(a),
        plain_register_name(b),
        plain_register_name(c),
    ensures
        ({
            let l = w + seq![' '] + a + seq![' '] + b + seq![' '] + c;
            let e1: int = 5int + a.len();
            let e2: int = e1 + 1 + b.len();
            &&& name_at(l, 0) == Some((w, 4int))
            &&& spaced(l, 4) == Some(5int)
            &&& target_at(l, 5) == (SpecTarget::Register(a), e1)
            &&& spaced(l, e1) == Some(e1 + 1)
            &&& target_at(l, e1 + 1) == (SpecTarget::Register(b), e2)
            &&& spaced(l, e2) == Some(e2 + 1)
            &&& register_at(l, e2 + 1) == (c, l.len() as int)
            &&& ends_at(l, l.len() as int)
        }),
{
    let l = w + seq![' '] + a + seq![' '] + b + seq![' '] + c;
    let rest = a + seq![' '] + b + seq![' '] + c;
    let e1: int = 5int + a.len();
    let e2: int = e1 + 1 + b.len();
    assert(l =~= w + seq![' '] + rest);
    assert('a' <= a[0] <= 'z' && 'a' <= b[0] <= 'z' && 'a' <= c[0] <= 'z');
    assert(rest[0] == a[0]);
    lemma_name_then_operand(w, rest);
    assert(l.subrange(5, e1) =~= a);
    assert(l[e1] == ' ');
    lemma_register_at(l, 5, a);
    assert(l[e1 + 1] == b[0]);
    lemma_one_space(l, e1);
    assert(l.subrange(e1 + 1, e2) =~= b);
    assert(l[e2] == ' ');
    lemma_register_at(l, e1 + 1, b);
    assert(l[e2 + 1] == c[0]);
    lemma_one_space(l, e2);
    assert(l.subrange(e2 + 1, l.len() as int) =~= c);
    lemma_register_at(l, e2 + 1, c);
    assert(blank_run_end(l, l.len() as int) == l.len());
}

#[verifier::spinoff_prover]
#[verifier::rlimit(60)]
proof fn lemma_addi_line(a: Seq<char>, b: Seq<char>, c: Seq<char>)
    requires
        plain_register_name(a),
        plain_register_name(b),
        plain_register_name(c),
    ensures
        parse_line_spec(seq!['a', 'd', 'd', 'i'] + seq![' '] + a + seq![' '] + b + seq![' '] + c) == Some(
            SpecInstruction::Addi(SpecTarget::Register(a), SpecTarget::Register(b), SpecTarget::Register(c)),
        ),
{
    reveal(parse_line_spec);
    lemma_three_register_line(seq!['a', 'd', 'd', 'i'], a, b, c);
}

#[verifier::spinoff_prover]
#[verifier::rlimit(60)]
proof fn lemma_subi_line(a: Seq<char>, b: Seq<char>, c: Seq<char>)
    requires
        plain_register_name(a),
        plain_register_name(b),
        plain_register_name(c),
    ensures
        parse_line_spec(seq!['s', 'u', 'b', 'i'] + seq![' '] + a + seq![' '] + b + seq![' '] + c) == Some(
            SpecInstruction::Subi(SpecTarget::Register(a), SpecTarget::Register(b), SpecTarget::Register(c)),
        ),
{
    reveal(parse_line_spec);
    lemma_three_register_line(seq!['s', 'u', 'b', 'i'], a, b, c);
}

#[verifier::spinoff_prover]
#[verifier::rlimit(60)]
proof fn lemma_muli_line(a: Seq<char>, b: Seq<char>, c: Seq<char>)
    requires
        plain_register_name(a),
        plain_register_name(b),
        plain_register_name(c),
    ensures
        parse_line_spec(seq!['m', 'u', 'l', 'i'] + seq![' '] + a + seq![' '] + b + seq![' '] + c) == Some(
            SpecInstruction::Muli(SpecTarget::Register(a), SpecTarget::Register(b), SpecTarget::Register(c)),
        ),
{
    reveal(parse_line_spec);
    lemma_three_register_line(seq!['m', 'u', 'l', 'i'], a, b, c);
}

#[verifier::spinoff_prover]
#[verifier::rlimit(60)]
proof fn lemma_divi_line(a: Seq<char>, b: Seq<char>, c: Seq<char>)
    requires
        plain_register_name(a),
        plain_register_name(b),
        plain_register_name(c),
    ensures
        parse_line_spec(seq!['d', 'i', 'v', 'i'] + seq![' '] + a + seq![' '] + b + seq![' '] + c) == Some(
            SpecInstruction::Divi(SpecTarget::Register(a), SpecTarget::Register(b), SpecTarget::Register(c)),
        ),
{
    reveal(parse_line_spec);
    lemma_three_register_line(seq!['d', 'i', 'v', 'i'], a, b, c);
}

#[verifier::spinoff_prover]
#[verifier::rlimit(60)]
proof fn lemma_modi_line(a: Seq<char>, b: Seq<char>, c: Seq<char>)
    requires
        plain_register_name(a),
        plain_register_name(b),
        plain_register_name(c),
    ensures
        parse_line_spec(seq!['m', 'o', 'd', 'i'] + seq![' '] + a + seq![' '] + b + seq![' '] + c) == Some(
            SpecInstruction::Modi(SpecTarget::Register(a), SpecTarget::Register(b), SpecTarget::Register(c)),
        ),
{
    reveal(parse_line_spec);
    lemma_three_register_line(seq!['m', 'o', 'd', 'i'], a, b, c);
}

#[verifier::spinoff_prover]
#[verifier::rlimit(60)]
proof fn lemma_swiz_line(a: Seq<char>, b: Seq<char>, c: Seq<char>)
    requires
        plain_register_name(a),
        plain_register_name(b),
        plain_register_name(c),
    ensures
        parse_line_spec(seq!['s', 'w', 'i', 'z'] + seq![' '] + a + seq![' '] + b + seq![' '] + c) == Some(
            SpecInstruction::Swiz(SpecTarget::Register(a), SpecTarget::Register(b), SpecTarget::Register(c)),
        ),
{
    reveal(parse_line_spec);
    lemma_three_register_line(seq!['s', 'w', 'i', 'z'], a, b, c);
}

#[verifier::spinoff_prover]
#[verifier::rlimit(60)]
proof fn lemma_rand_line(a: Seq<char>, b: Seq<char>, c: Seq<char>)
    requires
        plain_register_name(a),
        plain_register_name(b),
        plain_register_name(c),
    ensures
        parse_line_spec(seq!['r', 'a', 'n', 'd'] + seq![' '] + a + seq![' '] + b + seq![' '] + c) == Some(
            SpecInstruction::Rand(SpecTarget::Register(a), SpecTarget::Register(b), SpecTarget::Register(c)),
        ),
{
    reveal(parse_line_spec);
    lemma_three_register_line(seq!['r', 'a', 'n', 'd'], a, b, c);
}

#[verifier::spinoff_prover]
#[verifier::rlimit(60)]
proof fn lemma_copy_line(a: Seq<char>, b: Seq<char>)
    requires
        plain_register_name(a),
        plain_register_name(b),
    ensures
        parse_line_spec(seq!['c', 'o', 'p', 'y', ' '] + a + seq![' '] + b) == Some(
            SpecInstruction::Copy(SpecTarget::Register(a), SpecTarget::Register(b)),
        ),
{
    reveal(parse_line_spec);
    let w = seq!['c', 'o', 'p', 'y'];
    let l = seq!['c', 'o', 'p', 'y', ' '] + a + seq![' '] + b;
    let rest = a + seq![' '] + b;
    let e1: int = 5int + a.len();
    assert(l =~= w + seq![' '] + rest);
    assert('a' <= a[0] <= 'z' && 'a' <= b[0] <= 'z');
    assert(rest[0] == a[0]);
    lemma_name_then_operand(w, rest);
    assert(l.subrange(5, e1) =~= a);
    assert(l[e1] == ' ');
    lemma_register_at(l, 5, a);
    assert(l[e1 + 1] == b[0]);
    lemma_one_space(l, e1);
    assert(l.subrange(e1 + 1, l.len() as int) =~= b);
    lemma_register_at(l, e1 + 1, b);
    assert(blank_run_end(l, l.len() as int) == l.len());
}

/// The pieces of a TEST line with two register operands.
#[verifier::spinoff_prover]
#[verifier::rlimit(60)]
proof fn lemma_test_pieces(a: Seq<char>, comp: Comparator, b: Seq<char>)
    requires
        plain_register_name(a),
        plain_register_name(b),
        !clashes_with_test_word(a),
    ensures
        ({
            let l = seq!['t', 'e', 's', 't', ' '] + a + seq![' ', comparator_char(comp), ' '] + b;
            let e1: int = 5int + a.len();
            &&& name_at(l, 0) == Some((seq!['t', 'e', 's', 't'], 4int))
            &&& spaced(l, 4) == Some(5int)
            &&& target_at(l, 5) == (SpecTarget::Register(a), e1)
            &&& spaced(l, e1) == Some(e1 + 1)
            &&& comparator_at(l, e1 + 1) == Some(comp)
            &&& spaced(l, e1 + 2) == Some(e1 + 3)
            &&& target_at(l, e1 + 3) == (SpecTarget::Register(b), l.len() as int)
            &&& ends_at(l, l.len() as int)
        }),
{
    let w = seq!['t', 'e', 's', 't'];
    let l = seq!['t', 'e', 's', 't', ' '] + a + seq![' ', comparator_char(comp), ' '] + b;
    let e1: int = 5int + a.len();
    assert('a' <= a[0] <= 'z' && 'a' <= b[0] <= 'z');
    assert forall|k: int| 0 <= k < 4 implies l[k] == w[k] && is_ascii_alpha(#[trigger] l[k]) by {}
    assert(l[4] == ' ');
    assert(lower_chars(l.subrange(0, 4)) =~= w);
    assert(!starts_with_nocase(l, 0, seq!['v', 'o', 'i', 'd', ' ', 'm'])) by {
        if l.len() >= 6 {
            assert(lower_chars(l.subrange(0, 6))[0] == l[0]);
        }
    }
    assert(!starts_with_nocase(l, 0, seq!['v', 'o', 'i', 'd', ' ', 'f'])) by {
        if l.len() >= 6 {
            assert(lower_chars(l.subrange(0, 6))[0] == l[0]);
        }
    }
    assert(l.len() >= 8);
    let win = lower_chars(l.subrange(0, 8));
    if a.len() >= 3 {
        assert forall|k: int| 0 <= k < 3 implies #[trigger] win[5 + k] == a[k] by {
            assert(l[5 + k] == a[k]);
            assert('a' <= a[k] <= 'z');
        }
        if win == seq!['t', 'e', 's', 't', ' ', 'm', 'r', 'd'] {
            assert(win[5] == 'm' && win[6] == 'r' && win[7] == 'd');
            assert(a.subrange(0, 3) =~= seq!['m', 'r', 'd']);
        }
        if win == seq!['t', 'e', 's', 't', ' ', 'e', 'o', 'f'] {
            assert(win[5] == 'e' && win[6] == 'o' && win[7] == 'f');
            assert(a.subrange(0, 3) =~= seq!['e', 'o', 'f']);
        }
    } else {
        assert(l[e1] == ' ');
        assert(win[e1] == ' ');
    }
    assert(!starts_with_nocase(l, 0, seq!['t', 'e', 's', 't', ' ', 'm', 'r', 'd']));
    assert(!starts_with_nocase(l, 0, seq!['t', 'e', 's', 't', ' ', 'e', 'o', 'f']));
    reveal_with_fuel(alpha_run_end, 5);
    assert(alpha_run_end(l, 0) == 4);
    assert(name_at(l, 0) == Some((w, 4int)));
    assert(l[5] == a[0]);
    lemma_one_space(l, 4);
    lemma_one_space(l, e1);
    assert(l.subrange(5, e1) =~= a);
    assert(l[e1] == ' ');
    lemma_register_at(l, 5, a);
    assert(l[e1 + 1] == comparator_char(comp));
    assert(comparator_at(l, e1 + 1) == Some(comp));
    assert(l[e1 + 2] == ' ');
    assert(l[e1 + 3] == b[0]);
    lemma_one_space(l, e1 + 2);
    assert(l.subrange(e1 + 3, l.len() as int) =~= b);
    lemma_register_at(l, e1 + 3, b);
    assert(blank_run_end(l, l.len() as int) == l.len());
}

#[verifier::spinoff_prover]
#[verifier::rlimit(60)]
proof fn lemma_test_line(a: Seq<char>, comp: Comparator, b: Seq<char>)
    requires
        plain_register_name(a),
        plain_register_name(b),
        !clashes_with_test_word(a),
    ensures
        parse_line_spec(seq!['t', 'e', 's', 't', ' '] + a + seq![' ', comparator_char(comp), ' '] + b) == Some(
            SpecInstruction::Test(SpecTarget::Register(a), comp, SpecTarget::Register(b)),
        ),
{
    reveal(parse_line_spec);
    lemma_test_pieces(a, comp, b);
}

/// Every instruction whose operands are all registers named in plain letters
/// (COPY, ADDI, SUBI, MULI, DIVI, MODI, SWIZ, RAND, TEST), written out as its
/// name and its operands in order, one space apart, parses back to itself:
/// "copy x t" is COPY from X to T, "subi x t x" is SUBI with X, T and X, and
/// "test x > t" is TEST with X, the comparator ">" and T.
pub proof fn law_register_operand_lines_parse_to_their_instruction(i: SpecInstruction)
    requires
        register_operands_writable(i),
    ensures
        register_operands_text(i) is Some,
        parse_line_spec(register_operands_text(i)->Some_0) == Some(i),
{
    let l = register_operands_text(i)->Some_0;
    match i {
        SpecInstruction::Copy(SpecTarget::Register(a), SpecTarget::Register(b)) => {
            lemma_copy_line(a, b);
        },
        SpecInstruction::Addi(SpecTarget::Register(a), SpecTarget::Register(b), SpecTarget::Register(c)) => {
            lemma_addi_line(a, b, c);
            assert(l =~= seq!['a', 'd', 'd', 'i'] + seq![' '] + a + seq![' '] + b + seq![' '] + c);
        },
        SpecInstruction::Subi(SpecTarget::Register(a), SpecTarget::Register(b), SpecTarget::Register(c)) => {
            lemma_subi_line(a, b, c);
            assert(l =~= seq!['s', 'u', 'b', 'i'] + seq![' '] + a + seq![' '] + b + seq![' '] + c);
        },
        SpecInstruction::Muli(SpecTarget::Register(a), SpecTarget::Register(b), SpecTarget::Register(c)) => {
            lemma_muli_line(a, b, c);
            assert(l =~= seq!['m', 'u', 'l', 'i'] + seq![' '] + a + seq![' '] + b + seq![' '] + c);
        },
        SpecInstruction::Divi(SpecTarget::Register(a), SpecTarget::Register(b), SpecTarget::Register(c)) => {
            lemma_divi_line(a, b, c);
            assert(l =~= seq!['d', 'i', 'v', 'i'] + seq![' '] + a + seq![' '] + b + seq![' '] + c);
        },
        SpecInstruction::Modi(SpecTarget::Register(a), SpecTarget::Register(b), SpecTarget::Register(c)) => {
            lemma_modi_line(a, b, c);
            assert(l =~= seq!['m', 'o', 'd', 'i'] + seq![' '] + a + seq![' '] + b + seq![' '] + c);
        },
        SpecInstruction::Swiz(SpecTarget::Register(a), SpecTarget::Register(b), SpecTarget::Register(c)) => {
            lemma_swiz_line(a, b, c);
            assert(l =~= seq!['s', 'w', 'i', 'z'] + seq![' '] + a + seq![' '] + b + seq![' '] + c);
        },
        SpecInstruction::Rand(SpecTarget::Register(a), SpecTarget::Register(b), SpecTarget::Register(c)) => {
            lemma_rand_line(a, b, c);
            assert(l =~= seq!['r', 'a', 'n', 'd'] + seq![' '] + a + seq![' '] + b + seq![' '] + c);
        },
        SpecInstruction::Test(SpecTarget::Register(a), comp, SpecTarget::Register(b)) => {
            lemma_test_line(a, comp, b);
        },
        _ => {},
    }
}

/// How an instruction with one literal operand is written when the literal
/// is given by its decimal digits `ds`: its name in lower case, one space,
/// then the digits.
pub open spec fn literal_operand_text(i: SpecInstruction, ds: Seq<char>) -> Option<Seq<char>> {
    match i {
        SpecInstruction::Link(SpecTarget::Literal(_)) => Some(seq!['l', 'i', 'n', 'k', ' '] + ds),
        SpecInstruction::Host(SpecTarget::Literal(_)) => Some(seq!['h', 'o', 's', 't', ' '] + ds),
        SpecInstruction::Grab(SpecTarget::Literal(_)) => Some(seq!['g', 'r', 'a', 'b', ' '] + ds),
        SpecInstruction::File(SpecTarget::Literal(_)) => Some(seq!['f', 'i', 'l', 'e', ' '] + ds),
        SpecInstruction::Seek(SpecTarget::Literal(_)) => Some(seq!['s', 'e', 'e', 'k', ' '] + ds),
        _ => None,
    }
}

/// The literal operand of such an instruction.
pub open spec fn literal_operand(i: SpecInstruction) -> Option<i32> {
    match i {
        SpecInstruction::Link(SpecTarget::Literal(v)) => Some(v),
        SpecInstruction::Host(SpecTarget::Literal(v)) => Some(v),
        SpecInstruction::Grab(SpecTarget::Literal(v)) => Some(v),
        SpecInstruction::File(SpecTarget::Literal(v)) => Some(v),
        SpecInstruction::Seek(SpecTarget::Literal(v)) => Some(v),
        _ => None,
    }
}

proof fn lemma_sign_digit_run_to_end(l: Seq<char>, p: int)
    requires
        0 <= p <= l.len(),
        forall|k: int| p <= k < l.len() ==> is_ascii_digit(#[trigger] l[k]),
    ensures
        sign_digit_run_end(l, p) == l.len(),
    decreases l.len() - p,
{
    if p < l.len() {
        lemma_sign_digit_run_to_end(l, p + 1);
    }
}

/// The pieces of a line made of a four-letter name, a space and decimal
/// digits.
proof fn lemma_literal_line(w: Seq<char>, ds: Seq<char>)
    requires
        w.len() == 4,
        forall|k: int| 0 <= k < 4 ==> 'a' <= #[trigger] w[k] <= 'z',
        w[0] != 'v',
        w[0] != 't' || w[1] != 'e',
        ds.len() > 0,
        all_digits(ds),
        digits_value(ds) <= i32::MAX,
    ensures
        ({
            let l = w + seq![' '] + ds;
            &&& name_at(l, 0) == Some((w, 4int))
            &&& spaced(l, 4) == Some(5int)
            &&& target_at(l, 5) == (SpecTarget::Literal(digits_value(ds) as i32), l.len() as int)
            &&& ends_at(l, l.len() as int)
        }),
{
    let l = w + seq![' '] + ds;
    assert(is_ascii_digit(ds[0]));
    lemma_name_then_operand(w, ds);
    assert forall|k: int| 5 <= k < l.len() implies is_ascii_digit(#[trigger] l[k]) by {
        assert(l[k] == ds[k - 5]);
    }
    lemma_sign_digit_run_to_end(l, 5);
    assert(l.subrange(5, l.len() as int) =~= ds);
    assert(parse_i32(ds) == Some(digits_value(ds) as i32));
    assert(blank_run_end(l, l.len() as int) == l.len());
}

#[verifier::spinoff_prover]
#[verifier::rlimit(60)]
proof fn lemma_link_literal_line(ds: Seq<char>)
    requires
        ds.len() > 0,
        all_digits(ds),
        digits_value(ds) <= i32::MAX,
    ensures
        parse_line_spec(seq!['l', 'i', 'n', 'k'] + seq![' '] + ds) == Some(
            SpecInstruction::Link(SpecTarget::Literal(digits_value(ds) as i32)),
        ),
{
    reveal(parse_line_spec);
    lemma_literal_line(seq!['l', 'i', 'n', 'k'], ds);
}

#[verifier::spinoff_prover]
#[verifier::rlimit(60)]
proof fn lemma_host_literal_line(ds: Seq<char>)
    requires
        ds.len() > 0,
        all_digits(ds),
        digits_value(ds) <= i32::MAX,
    ensures
        parse_line_spec(seq!['h', 'o', 's', 't'] + seq![' '] + ds) == Some(
            SpecInstruction::Host(SpecTarget::Literal(digits_value(ds) as i32)),
        ),
{
    reveal(parse_line_spec);
    lemma_literal_line(seq!['h', 'o', 's', 't'], ds);
}

#[verifier::spinoff_prover]
#[verifier::rlimit(60)]
proof fn lemma_grab_literal_line(ds: Seq<char>)
    requires
        ds.len() > 0,
        all_digits(ds),
        digits_value(ds) <= i32::MAX,
    ensures
        parse_line_spec(seq!['g', 'r', 'a', 'b'] + seq![' '] + ds) == Some(
            SpecInstruction::Grab(SpecTarget::Literal(digits_value(ds) as i32)),
        ),
{
    reveal(parse_line_spec);
    lemma_literal_line(seq!['g', 'r', 'a', 'b'], ds);
}

#[verifier::spinoff_prover]
#[verifier::rlimit(60)]
proof fn lemma_file_literal_line(ds: Seq<char>)
    requires
        ds.len() > 0,
        all_digits(ds),
        digits_value(ds) <= i32::MAX,
    ensures
        parse_line_spec(seq!['f', 'i', 'l', 'e'] + seq![' '] + ds) == Some(
            SpecInstruction::File(SpecTarget::Literal(digits_value(ds) as i32)),
        ),
{
    reveal(parse_line_spec);
    lemma_literal_line(seq!['f', 'i', 'l', 'e'], ds);
}

#[verifier::spinoff_prover]
#[verifier::rlimit(60)]
proof fn lemma_seek_literal_line(ds: Seq<char>)
    requires
        ds.len() > 0,
        all_digits(ds),
        digits_value(ds) <= i32::MAX,
    ensures
        parse_line_spec(seq!['s', 'e', 'e', 'k'] + seq![' '] + ds) == Some(
            SpecInstruction::Seek(SpecTarget::Literal(digits_value(ds) as i32)),
        ),
{
    reveal(parse_line_spec);
    lemma_literal_line(seq!['s', 'e', 'e', 'k'], ds);
}

/// Every instruction with one literal operand (LINK, HOST, GRAB, FILE, SEEK),
/// written as its name, a space and the decimal digits of the literal, parses
/// back to itself: "link 800" is LINK to 800, "seek 9999" is SEEK by 9999.
pub proof fn law_literal_operand_lines_parse_to_their_instruction(i: SpecInstruction, ds: Seq<char>)
    requires
        literal_operand(i) is Some,
        ds.len() > 0,
        all_digits(ds),
        digits_value(ds) == literal_operand(i)->Some_0,
    ensures
        literal_operand_text(i, ds) is Some,
        parse_line_spec(literal_operand_text(i, ds)->Some_0) == Some(i),
{
    match i {
        SpecInstruction::Link(SpecTarget::Literal(v)) => {
            lemma_link_literal_line(ds);
            assert(literal_operand_text(i, ds)->Some_0 == seq!['l', 'i', 'n', 'k'] + seq![' '] + ds);
        },
        SpecInstruction::Host(SpecTarget::Literal(v)) => {
            lemma_host_literal_line(ds);
            assert(literal_operand_text(i, ds)->Some_0 == seq!['h', 'o', 's', 't'] + seq![' '] + ds);
        },
        SpecInstruction::Grab(SpecTarget::Literal(v)) => {
            lemma_grab_literal_line(ds);
            assert(literal_operand_text(i, ds)->Some_0 == seq!['g', 'r', 'a', 'b'] + seq![' '] + ds);
        },
        SpecInstruction::File(SpecTarget::Literal(v)) => {
            lemma_file_literal_line(ds);
            assert(literal_operand_text(i, ds)->Some_0 == seq!['f', 'i', 'l', 'e'] + seq![' '] + ds);
        },
        SpecInstruction::Seek(SpecTarget::Literal(v)) => {
            lemma_seek_literal_line(ds);
            assert(literal_operand_text(i, ds)->Some_0 == seq!['s', 'e', 'e', 'k'] + seq![' '] + ds);
        },
        _ => {},
    }
}

} // verus!
