//! The EXA instruction set, as produced by the parser and run by the VM.

use vstd::prelude::*;

use crate::text::copy_string;

verus! {

#[derive(Clone, Debug, PartialEq, Eq)]
pub enum Instruction {
    Copy(Target, Target),
    Addi(Target, Target, Target),
    Subi(Target, Target, Target),
    Muli(Target, Target, Target),
    Divi(Target, Target, Target),
    Modi(Target, Target, Target),
    Swiz(Target, Target, Target),
    Mark(Label),
    Jump(Label),
    Tjmp(Label),
    Fjmp(Label),
    Test(Target, Comparator, Target),
    Repl(Label),
    Halt,
    Kill,
    Link(Target),
    Host(Target),
    Mode,
    VoidM,
    TestMrd,
    Make,
    Grab(Target),
    File(Target),
    Seek(Target),
    VoidF,
    Drop,
    Wipe,
    TestEof,
    Noop,
    Rand(Target, Target, Target),
    Wait,
    Data(Vec<i32>),
}

/// An operand: a number written in the script, or the name of a register.
#[derive(Clone, Debug, PartialEq, Eq)]
pub enum Target {
    Literal(i32),
    Register(String),
}

pub type Label = String;

#[derive(Clone, Copy, Debug, PartialEq, Eq)]
pub enum Comparator {
    Equal,
    GreaterThan,
    LessThan,
}

/// The mathematical model of a [`Target`].
pub enum SpecTarget {
    Literal(i32),
    Register(Seq<char>),
}

/// The mathematical model of an [`Instruction`]: strings become sequences of
/// characters, vectors become sequences.
pub enum SpecInstruction {
    Copy(SpecTarget, SpecTarget),
    Addi(SpecTarget, SpecTarget, SpecTarget),
    Subi(SpecTarget, SpecTarget, SpecTarget),
    Muli(SpecTarget, SpecTarget, SpecTarget),
    Divi(SpecTarget, SpecTarget, SpecTarget),
    Modi(SpecTarget, SpecTarget, SpecTarget),
    Swiz(SpecTarget, SpecTarget, SpecTarget),
    Mark(Seq<char>),
    Jump(Seq<char>),
    Tjmp(Seq<char>),
    Fjmp(Seq<char>),
    Test(SpecTarget, Comparator, SpecTarget),
    Repl(Seq<char>),
    Halt,
    Kill,
    Link(SpecTarget),
    Host(SpecTarget),
    Mode,
    VoidM,
    TestMrd,
    Make,
    Grab(SpecTarget),
    File(SpecTarget),
    Seek(SpecTarget),
    VoidF,
    Drop,
    Wipe,
    TestEof,
    Noop,
    Rand(SpecTarget, SpecTarget, SpecTarget),
    Wait,
    Data(Seq<i32>),
}

impl View for Target {
    type V = SpecTarget;

    open spec fn view(&self) -> SpecTarget {
        match self {
            Target::Literal(v) => SpecTarget::Literal(*v),
            Target::Register(r) => SpecTarget::Register(r@),
        }
    }
}

impl View for Instruction {
    type V = SpecInstruction;

    open spec fn view(&self) -> SpecInstruction {
        match self {
            Instruction::Copy(a, b) => SpecInstruction::Copy(a@, b@),
            Instruction::Addi(a, b, c) => SpecInstruction::Addi(a@, b@, c@),
            Instruction::Subi(a, b, c) => SpecInstruction::Subi(a@, b@, c@),
            Instruction::Muli(a, b, c) => SpecInstruction::Muli(a@, b@, c@),
            Instruction::Divi(a, b, c) => SpecInstruction::Divi(a@, b@, c@),
            Instruction::Modi(a, b, c) => SpecInstruction::Modi(a@, b@, c@),
            Instruction::Swiz(a, b, c) => SpecInstruction::Swiz(a@, b@, c@),
            Instruction::Mark(l) => SpecInstruction::Mark(l@),
            Instruction::Jump(l) => SpecInstruction::Jump(l@),
            Instruction::Tjmp(l) => SpecInstruction::Tjmp(l@),
            Instruction::Fjmp(l) => SpecInstruction::Fjmp(l@),
            Instruction::Test(a, c, b) => SpecInstruction::Test(a@, *c, b@),
            Instruction::Repl(l) => SpecInstruction::Repl(l@),
            Instruction::Halt => SpecInstruction::Halt,
            Instruction::Kill => SpecInstruction::Kill,
            Instruction::Link(a) => SpecInstruction::Link(a@),
            Instruction::Host(a) => SpecInstruction::Host(a@),
            Instruction::Mode => SpecInstruction::Mode,
            Instruction::VoidM => SpecInstruction::VoidM,
            Instruction::TestMrd => SpecInstruction::TestMrd,
            Instruction::Make => SpecInstruction::Make,
            Instruction::Grab(a) => SpecInstruction::Grab(a@),
            Instruction::File(a) => SpecInstruction::File(a@),
            Instruction::Seek(a) => SpecInstruction::Seek(a@),
            Instruction::VoidF => SpecInstruction::VoidF,
            Instruction::Drop => SpecInstruction::Drop,
            Instruction::Wipe => SpecInstruction::Wipe,
            Instruction::TestEof => SpecInstruction::TestEof,
            Instruction::Noop => SpecInstruction::Noop,
            Instruction::Rand(a, b, c) => SpecInstruction::Rand(a@, b@, c@),
            Instruction::Wait => SpecInstruction::Wait,
            Instruction::Data(d) => SpecInstruction::Data(d@),
        }
    }
}

pub open spec fn instructions_view(v: Seq<Instruction>) -> Seq<SpecInstruction> {
    v.map_values(|i: Instruction| i@)
}

pub fn copy_values(v: &Vec<i32>) -> (r: Vec<i32>)
    ensures
        r@ == v@,
{
    let mut r: Vec<i32> = Vec::new();
    let mut i: usize = 0;
    while i < v.len()
        invariant
            i <= v.len(),
            r@ == v@.subrange(0, i as int),
        decreases v.len() - i,
    {
        r.push(v[i]);
        assert(v@.subrange(0, i + 1) =~= v@.subrange(0, i as int).push(v@[i as int]));
        i = i + 1;
    }
    assert(v@.subrange(0, v.len() as int) =~= v@);
    r
}

impl Target {
    pub fn duplicate(&self) -> (r: Target)
        ensures
            r@ == self@,
    {
        match self {
            Target::Literal(v) => Target::Literal(*v),
            Target::Register(s) => Target::Register(copy_string(s)),
        }
    }
}

impl Instruction {
    pub fn duplicate(&self) -> (r: Instruction)
        ensures
            r@ == self@,
    {
        match self {
            Instruction::Copy(a, b) => Instruction::Copy(a.duplicate(), b.duplicate()),
            Instruction::Addi(a, b, c) => Instruction::Addi(
                a.duplicate(),
                b.duplicate(),
                c.duplicate(),
            ),
            Instruction::Subi(a, b, c) => Instruction::Subi(
                a.duplicate(),
                b.duplicate(),
                c.duplicate(),
            ),
            Instruction::Muli(a, b, c) => Instruction::Muli(
                a.duplicate(),
                b.duplicate(),
                c.duplicate(),
            ),
            Instruction::Divi(a, b, c) => Instruction::Divi(
                a.duplicate(),
                b.duplicate(),
                c.duplicate(),
            ),
            Instruction::Modi(a, b, c) => Instruction::Modi(
                a.duplicate(),
                b.duplicate(),
                c.duplicate(),
            ),
            Instruction::Swiz(a, b, c) => Instruction::Swiz(
                a.duplicate(),
                b.duplicate(),
                c.duplicate(),
            ),
            Instruction::Mark(l) => Instruction::Mark(copy_string(l)),
            Instruction::Jump(l) => Instruction::Jump(copy_string(l)),
            Instruction::Tjmp(l) => Instruction::Tjmp(copy_string(l)),
            Instruction::Fjmp(l) => Instruction::Fjmp(copy_string(l)),
            Instruction::Test(a, c, b) => Instruction::Test(a.duplicate(), *c, b.duplicate()),
            Instruction::Repl(l) => Instruction::Repl(copy_string(l)),
            Instruction::Halt => Instruction::Halt,
            Instruction::Kill => Instruction::Kill,
            Instruction::Link(a) => Instruction::Link(a.duplicate()),
            Instruction::Host(a) => Instruction::Host(a.duplicate()),
            Instruction::Mode => Instruction::Mode,
            Instruction::VoidM => Instruction::VoidM,
            Instruction::TestMrd => Instruction::TestMrd,
            Instruction::Make => Instruction::Make,
            Instruction::Grab(a) => Instruction::Grab(a.duplicate()),
            Instruction::File(a) => Instruction::File(a.duplicate()),
            Instruction::Seek(a) => Instruction::Seek(a.duplicate()),
            Instruction::VoidF => Instruction::VoidF,
            Instruction::Drop => Instruction::Drop,
            Instruction::Wipe => Instruction::Wipe,
            Instruction::TestEof => Instruction::TestEof,
            Instruction::Noop => Instruction::Noop,
            Instruction::Rand(a, b, c) => Instruction::Rand(
                a.duplicate(),
                b.duplicate(),
                c.duplicate(),
            ),
            Instruction::Wait => Instruction::Wait,
            Instruction::Data(d) => Instruction::Data(copy_values(d)),
        }
    }
}

/// A copy of a program, instruction by instruction.
pub fn copy_instructions(v: &Vec<Instruction>) -> (r: Vec<Instruction>)
    ensures
        instructions_view(r@) == instructions_view(v@),
{
    let mut r: Vec<Instruction> = Vec::new();
    let mut i: usize = 0;
    while i < v.len()
        invariant
            i <= v.len(),
            instructions_view(r@) == instructions_view(v@.subrange(0, i as int)),
        decreases v.len() - i,
    {
        r.push(v[i].duplicate());
        assert(instructions_view(v@.subrange(0, i + 1)) =~= instructions_view(
            v@.subrange(0, i as int),
        ).push(v@[i as int]@));
        assert(instructions_view(r@) =~= instructions_view(v@.subrange(0, i + 1)));
        i = i + 1;
    }
    assert(v@.subrange(0, v.len() as int) =~= v@);
    r
}

} // verus!
