//! EXAs: the agents that run scripts, move between hosts and carry files.

use vstd::prelude::*;
use vstd::std_specs::cmp::PartialEqSpecImpl;

pub mod cycle;
pub mod invariants;
pub mod ops;
pub mod semantics;
pub mod sprite;

use super::error::ExaError;
use super::file::{File, SpecFile};
use super::instruction::{instructions_view, Instruction, SpecInstruction};
use super::register::Register;
use super::Permissions;
use super::{find_key, insert_key, lemma_find_key, SpecHost, SpecNetwork, SpecVM, VM};
use crate::parse::parse_text;
use crate::parse::parse_text_spec;
use crate::parse::preprocess::preprocessable;
use crate::text::{chars_eq, copy_string, str_chars, string_from_chars};
use sprite::Sprite;

verus! {

#[derive(Debug, Clone, Copy, PartialEq, Eq)]
pub struct Registers {
    pub x: Register,
    pub t: Register,
    pub gx: Register,
    pub gy: Register,
    pub gz: Register,
    pub gp: Register,
    pub ci: Register,
    pub co: Register,
}

pub open spec fn reg(permissions: Permissions, value: i32) -> Register {
    Register { permissions, value }
}

impl Registers {
    pub open spec fn initial() -> Registers {
        Registers {
            x: reg(Permissions::ReadWrite, 0),
            t: reg(Permissions::ReadWrite, 0),
            gx: reg(Permissions::Denied, 0),
            gy: reg(Permissions::Denied, 0),
            gz: reg(Permissions::Denied, 0),
            gp: reg(Permissions::Denied, 0),
            ci: reg(Permissions::Denied, 0),
            co: reg(Permissions::Denied, 0),
        }
    }

    pub open spec fn initial_redshift() -> Registers {
        Registers {
            x: reg(Permissions::ReadWrite, 0),
            t: reg(Permissions::ReadWrite, 0),
            gx: reg(Permissions::ReadWrite, 0),
            gy: reg(Permissions::ReadWrite, 0),
            gz: reg(Permissions::ReadWrite, 0),
            gp: reg(Permissions::WriteOnly, 0),
            ci: reg(Permissions::ReadOnly, -9999i32),
            co: reg(Permissions::ReadWrite, 0),
        }
    }

    /// A replica keeps every register but GP, which starts at 0, and CI, which
    /// starts at -9999.
    pub open spec fn for_replica(self) -> Registers {
        Registers {
            gp: reg(self.gp.permissions, 0),
            ci: reg(self.ci.permissions, -9999i32),
            ..self
        }
    }

    pub fn new() -> (r: Registers)
        ensures
            r == Registers::initial(),
    {
        Registers {
            x: Register::new(Permissions::ReadWrite, 0),
            t: Register::new(Permissions::ReadWrite, 0),
            gx: Register::new(Permissions::Denied, 0),
            gy: Register::new(Permissions::Denied, 0),
            gz: Register::new(Permissions::Denied, 0),
            gp: Register::new(Permissions::Denied, 0),
            ci: Register::new(Permissions::Denied, 0),
            co: Register::new(Permissions::Denied, 0),
        }
    }

    pub fn new_redshift() -> (r: Registers)
        ensures
            r == Registers::initial_redshift(),
    {
        Registers {
            x: Register::new(Permissions::ReadWrite, 0),
            t: Register::new(Permissions::ReadWrite, 0),
            gx: Register::new(Permissions::ReadWrite, 0),
            gy: Register::new(Permissions::ReadWrite, 0),
            gz: Register::new(Permissions::ReadWrite, 0),
            gp: Register::new(Permissions::WriteOnly, 0),
            ci: Register::new(Permissions::ReadOnly, -9999),
            co: Register::new(Permissions::ReadWrite, 0),
        }
    }

    /// Fresh registers for a replica (REPL).
    pub fn clone_for_repl(&self) -> (r: Registers)
        ensures
            r == self.for_replica(),
    {
        Registers {
            x: Register::new(self.x.permissions, self.x.value),
            t: Register::new(self.t.permissions, self.t.value),
            gx: Register::new(self.gx.permissions, self.gx.value),
            gy: Register::new(self.gy.permissions, self.gy.value),
            gz: Register::new(self.gz.permissions, self.gz.value),
            gp: Register::new(self.gp.permissions, 0),
            ci: Register::new(self.ci.permissions, -9999),
            co: Register::new(self.co.permissions, self.co.value),
        }
    }
}

#[derive(Clone, Copy, Debug, PartialEq, Eq)]
pub enum Mode {
    Local,
    Global,
}

/// Label name to the index of the instruction it marks.
#[derive(Debug)]
pub struct Labels {
    pub entries: Vec<(String, usize)>,
}

impl View for Labels {
    type V = Seq<(Seq<char>, nat)>;

    open spec fn view(&self) -> Seq<(Seq<char>, nat)> {
        self.entries@.map_values(|e: (String, usize)| (e.0@, e.1 as nat))
    }
}

pub open spec fn label_position(labels: Seq<(Seq<char>, nat)>, name: Seq<char>) -> Option<nat> {
    match find_key(labels, name) {
        Some(i) => Some(labels[i].1),
        None => None,
    }
}

impl Labels {
    pub fn new() -> (l: Labels)
        ensures
            l@ == Seq::<(Seq<char>, nat)>::empty(),
    {
        let l = Labels { entries: Vec::new() };
        assert(l@ =~= Seq::<(Seq<char>, nat)>::empty());
        l
    }

    fn find(&self, name: &Vec<char>) -> (r: Option<usize>)
        ensures
            match r {
                Some(i) => find_key(self@, name@) == Some(i as int),
                None => find_key(self@, name@) is None,
            },
    {
        proof {
            lemma_find_key(self@, name@);
        }
        let mut i: usize = 0;
        while i < self.entries.len()
            invariant
                i <= self.entries.len(),
                forall|j: int| 0 <= j < i ==> self@[j].0 != name@,
            decreases self.entries.len() - i,
        {
            assert(self@[i as int].0 == self.entries@[i as int].0@);
            if chars_eq(&str_chars(self.entries[i].0.as_str()), name) {
                proof {
                    lemma_find_key(self@, name@);
                    assert(self@[i as int].0 == name@);
                }
                return Some(i);
            }
            i = i + 1;
        }
        None
    }

    /// Sets the position of a label, as a map insertion.
    pub fn insert(&mut self, name: &String, pos: usize)
        ensures
            final(self)@ == insert_key(old(self)@, name@, pos as nat),
    {
        let key = str_chars(name.as_str());
        let ghost before = self@;
        match self.find(&key) {
            Some(i) => {
                proof {
                    lemma_find_key(before, name@);
                }
                self.entries.set(i, (copy_string(name), pos));
                assert(self@ =~= before.update(i as int, (name@, pos as nat)));
            },
            None => {
                self.entries.push((copy_string(name), pos));
                assert(self@ =~= before.push((name@, pos as nat)));
            },
        }
    }

    pub fn get(&self, name: &str) -> (r: Option<usize>)
        ensures
            match r {
                Some(p) => label_position(self@, name@) == Some(p as nat),
                None => label_position(self@, name@) is None,
            },
    {
        let key = str_chars(name);
        match self.find(&key) {
            Some(i) => {
                proof {
                    lemma_find_key(self@, name@);
                }
                Some(self.entries[i].1)
            },
            None => None,
        }
    }

    /// The position of a label given as a `String`.
    pub fn position(&self, name: &String) -> (r: Option<usize>)
        ensures
            match r {
                Some(p) => label_position(self@, name@) == Some(p as nat),
                None => label_position(self@, name@) is None,
            },
    {
        self.get(name.as_str())
    }

    pub fn duplicate(&self) -> (r: Labels)
        ensures
            r@ == self@,
    {
        let mut entries: Vec<(String, usize)> = Vec::new();
        let mut i: usize = 0;
        while i < self.entries.len()
            invariant
                i <= self.entries.len(),
                entries@.map_values(|e: (String, usize)| (e.0@, e.1 as nat)) == self@.subrange(
                    0,
                    i as int,
                ),
            decreases self.entries.len() - i,
        {
            let ghost before = entries@.map_values(|e: (String, usize)| (e.0@, e.1 as nat));
            let name = copy_string(&self.entries[i].0);
            let pos = self.entries[i].1;
            assert(self@[i as int] == (name@, pos as nat));
            entries.push((name, pos));
            assert(entries@.map_values(|e: (String, usize)| (e.0@, e.1 as nat)) =~= before.push(
                (name@, pos as nat),
            ));
            assert(entries@.map_values(|e: (String, usize)| (e.0@, e.1 as nat)) =~= self@.subrange(
                0,
                i + 1,
            ));
            i = i + 1;
        }
        assert(self@.subrange(0, i as int) =~= self@);
        Labels { entries }
    }
}

/// Used to report any information from an EXA's cycle run
/// back up the chain to the VM.
#[derive(Debug, PartialEq, Eq)]
pub struct CycleResult {
    /// The EXA whose message this EXA read, which may now continue.
    pub unfreeze_exa: Option<String>,
}

impl CycleResult {
    pub fn new() -> (r: CycleResult)
        ensures
            r.unfreeze_exa is None,
    {
        CycleResult { unfreeze_exa: None }
    }
}

#[derive(Debug)]
pub struct Exa {
    pub base_name: String,
    pub spawn_id: u64,
    pub name: String,
    pub registers: Registers,
    pub result: CycleResult,
    /// Index of this EXA's family counter in the network's spawn counters.
    pub lineage: usize,
    pub pc: usize,
    pub instructions: Vec<Instruction>,
    // Map of label name to index in self.instructions
    pub labels: Labels,
    pub mode: Mode,
    /// Index of the host the EXA is in.
    pub host: usize,
    pub error: Option<ExaError>,
    pub file_pointer: usize,
    pub file: Option<File>,
    pub sprite: Sprite,
    pub ran_test_mrd_this_cycle: bool,
    pub waiting: bool,
}

#[verifier::ext_equal]
pub struct SpecExa {
    pub base_name: Seq<char>,
    pub spawn_id: u64,
    pub name: Seq<char>,
    pub registers: Registers,
    pub unfreeze_exa: Option<Seq<char>>,
    pub lineage: nat,
    pub pc: nat,
    pub instructions: Seq<SpecInstruction>,
    pub labels: Seq<(Seq<char>, nat)>,
    pub mode: Mode,
    pub host: nat,
    pub error: Option<ExaError>,
    pub file_pointer: nat,
    pub file: Option<SpecFile>,
    pub sprite: Seq<bool>,
    pub ran_test_mrd_this_cycle: bool,
    pub waiting: bool,
}

pub open spec fn string_option_view(o: Option<String>) -> Option<Seq<char>> {
    match o {
        Some(s) => Some(s@),
        None => None,
    }
}

pub open spec fn file_option_view(o: Option<File>) -> Option<SpecFile> {
    match o {
        Some(f) => Some(f@),
        None => None,
    }
}

impl View for Exa {
    type V = SpecExa;

    open spec fn view(&self) -> SpecExa {
        SpecExa {
            base_name: self.base_name@,
            spawn_id: self.spawn_id,
            name: self.name@,
            registers: self.registers,
            unfreeze_exa: string_option_view(self.result.unfreeze_exa),
            lineage: self.lineage as nat,
            pc: self.pc as nat,
            instructions: instructions_view(self.instructions@),
            labels: self.labels@,
            mode: self.mode,
            host: self.host as nat,
            error: self.error,
            file_pointer: self.file_pointer as nat,
            file: file_option_view(self.file),
            sprite: self.sprite.pixels@,
            ran_test_mrd_this_cycle: self.ran_test_mrd_this_cycle,
            waiting: self.waiting,
        }
    }
}

pub open spec fn is_mark(i: SpecInstruction) -> bool {
    i is Mark
}

pub open spec fn is_data(i: SpecInstruction) -> bool {
    i is Data
}

impl SpecExa {
    pub open spec fn is_fatal(self) -> bool {
        self.error matches Some(ExaError::Fatal(_))
    }

    pub open spec fn is_frozen(self) -> bool {
        self.error matches Some(ExaError::Freezing(_))
    }

    /// Labels and data have been taken out of the program; labels point into it
    /// (or just past its end); the file pointer lies within the held file; T and
    /// X can always be read and written; a frozen EXA stopped on an instruction.
    pub open spec fn wf(self) -> bool {
        &&& forall|k: int|
            0 <= k < self.instructions.len() ==> !is_mark(#[trigger] self.instructions[k])
                && !is_data(self.instructions[k])
        &&& forall|k: int|
            0 <= k < self.labels.len() ==> #[trigger] self.labels[k].1 <= self.instructions.len()
        &&& self.pc <= self.instructions.len()
        &&& match self.file {
            Some(f) => self.file_pointer <= f.contents.len(),
            None => self.file_pointer == 0,
        }
        &&& self.registers.t.permissions == Permissions::ReadWrite
        &&& self.registers.x.permissions == Permissions::ReadWrite
        &&& self.is_frozen() ==> self.pc < self.instructions.len()
    }

    /// Whether the instruction at the program counter is the given kind.
    pub open spec fn at_kill(self) -> bool {
        self.pc < self.instructions.len() && self.instructions[self.pc as int] is Kill
    }

    pub open spec fn at_test_mrd(self) -> bool {
        self.pc < self.instructions.len() && self.instructions[self.pc as int] is TestMrd
    }
}

/// Labels taken out of a program: the instructions that remain, and the
/// position of each label among them (a later label of the same name wins).
pub open spec fn extract_marks(insts: Seq<SpecInstruction>) -> (
    Seq<SpecInstruction>,
    Seq<(Seq<char>, nat)>,
)
    decreases insts.len(),
{
    if insts.len() == 0 {
        (Seq::empty(), Seq::empty())
    } else {
        let (kept, labels) = extract_marks(insts.drop_last());
        match insts.last() {
            SpecInstruction::Mark(l) => (kept, insert_key(labels, l, kept.len())),
            other => (kept.push(other), labels),
        }
    }
}

/// Data taken out of a program: the instructions that remain, and the values of
/// all `DATA` instructions, in order.
pub open spec fn extract_values(insts: Seq<SpecInstruction>) -> (Seq<SpecInstruction>, Seq<i32>)
    decreases insts.len(),
{
    if insts.len() == 0 {
        (Seq::empty(), Seq::empty())
    } else {
        let (kept, values) = extract_values(insts.drop_last());
        match insts.last() {
            SpecInstruction::Data(d) => (kept, values + d),
            other => (kept.push(other), values),
        }
    }
}

/// EXAs are told apart by name.
impl PartialEq for Exa {
    fn eq(&self, other: &Self) -> (r: bool) {
        crate::text::string_eq_str(&self.name, other.name.as_str())
    }
}

impl PartialEqSpecImpl for Exa {
    open spec fn obeys_eq_spec() -> bool {
        true
    }

    open spec fn eq_spec(&self, other: &Self) -> bool {
        self.name@ == other.name@
    }
}

impl Eq for Exa {}

impl Exa {
    pub fn extract_labels(instructions: &mut Vec<Instruction>) -> (m: Labels)
        ensures
            (instructions_view(final(instructions)@), m@) == extract_marks(
                instructions_view(old(instructions)@),
            ),
    {
        let ghost orig = instructions_view(instructions@);
        let mut m = Labels::new();
        let mut idx: usize = 0;
        let ghost mut j: int = 0;
        assert(orig.subrange(0, 0) =~= Seq::<SpecInstruction>::empty());
        assert(instructions_view(instructions@) =~= Seq::<SpecInstruction>::empty() + orig.subrange(0, orig.len() as int));
        while idx < instructions.len()
            invariant
                0 <= j <= orig.len(),
                idx == extract_marks(orig.subrange(0, j)).0.len(),
                m@ == extract_marks(orig.subrange(0, j)).1,
                instructions_view(instructions@) == extract_marks(orig.subrange(0, j)).0
                    + orig.subrange(j, orig.len() as int),
            decreases instructions.len() - idx,
        {
            let ghost kept = extract_marks(orig.subrange(0, j)).0;
            assert(orig.subrange(0, j + 1).drop_last() =~= orig.subrange(0, j));
            assert(instructions_view(instructions@)[idx as int] == orig[j]);
            assert(instructions@[idx as int]@ == orig[j]);
            let is_label = match &instructions[idx] {
                Instruction::Mark(label) => {
                    m.insert(label, idx);
                    true
                },
                _ => false,
            };
            if is_label {
                let ghost before = instructions_view(instructions@);
                instructions.remove(idx);
                assert(instructions_view(instructions@) =~= before.remove(idx as int));
                assert(instructions_view(instructions@) =~= kept + orig.subrange(
                    j + 1,
                    orig.len() as int,
                ));
            } else {
                assert(extract_marks(orig.subrange(0, j + 1)).0 =~= kept.push(orig[j]));
                assert(instructions_view(instructions@) =~= kept.push(orig[j]) + orig.subrange(
                    j + 1,
                    orig.len() as int,
                ));
                idx = idx + 1;
            }
            proof {
                j = j + 1;
            }
        }
        assert(j == orig.len()) by {
            assert(instructions_view(instructions@).len() == idx + (orig.len() - j));
        }
        assert(orig.subrange(0, j) =~= orig);
        assert(instructions_view(instructions@) =~= extract_marks(orig).0);
        m
    }

    pub fn extract_data(instructions: &mut Vec<Instruction>, file_counter: &mut i32) -> (r: Option<File>)
        ensures
            instructions_view(final(instructions)@) == extract_values(instructions_view(old(instructions)@)).0,
            ({
                let values = extract_values(instructions_view(old(instructions)@)).1;
                if values.len() == 0 {
                    r is None && *final(file_counter) == *old(file_counter)
                } else {
                    file_option_view(r) == Some(SpecFile { id: *old(file_counter), contents: values })
                        && *final(file_counter) == super::next_file_id(*old(file_counter))
                }
            }),
    {
        let ghost orig = instructions_view(instructions@);
        let mut contents: Vec<i32> = Vec::new();
        let mut idx: usize = 0;
        let ghost mut j: int = 0;
        assert(orig.subrange(0, 0) =~= Seq::<SpecInstruction>::empty());
        assert(instructions_view(instructions@) =~= Seq::<SpecInstruction>::empty() + orig.subrange(0, orig.len() as int));
        while idx < instructions.len()
            invariant
                0 <= j <= orig.len(),
                idx == extract_values(orig.subrange(0, j)).0.len(),
                contents@ == extract_values(orig.subrange(0, j)).1,
                instructions_view(instructions@) == extract_values(orig.subrange(0, j)).0
                    + orig.subrange(j, orig.len() as int),
            decreases instructions.len() - idx,
        {
            let ghost kept = extract_values(orig.subrange(0, j)).0;
            assert(orig.subrange(0, j + 1).drop_last() =~= orig.subrange(0, j));
            assert(instructions_view(instructions@)[idx as int] == orig[j]);
            assert(instructions@[idx as int]@ == orig[j]);
            let is_data = match &instructions[idx] {
                Instruction::Data(data) => {
                    let mut k: usize = 0;
                    let ghost start = contents@;
                    while k < data.len()
                        invariant
                            k <= data.len(),
                            contents@ == start + data@.subrange(0, k as int),
                        decreases data.len() - k,
                    {
                        contents.push(data[k]);
                        assert(start + data@.subrange(0, k + 1) =~= (start + data@.subrange(0, k as int)).push(data@[k as int]));
                        k = k + 1;
                    }
                    assert(data@.subrange(0, data.len() as int) =~= data@);
                    true
                },
                _ => false,
            };
            if is_data {
                let ghost before = instructions_view(instructions@);
                instructions.remove(idx);
                assert(instructions_view(instructions@) =~= before.remove(idx as int));
                assert(instructions_view(instructions@) =~= kept + orig.subrange(
                    j + 1,
                    orig.len() as int,
                ));
            } else {
                assert(extract_values(orig.subrange(0, j + 1)).0 =~= kept.push(orig[j]));
                assert(instructions_view(instructions@) =~= kept.push(orig[j]) + orig.subrange(
                    j + 1,
                    orig.len() as int,
                ));
                idx = idx + 1;
            }
            proof {
                j = j + 1;
            }
        }
        assert(j == orig.len()) by {
            assert(instructions_view(instructions@).len() == idx + (orig.len() - j));
        }
        assert(orig.subrange(0, j) =~= orig);
        assert(instructions_view(instructions@) =~= extract_values(orig).0);
        if contents.len() == 0 {
            return None;
        }
        let file_id = *file_counter;
        *file_counter = if file_id == i32::MAX { i32::MIN } else { file_id + 1 };
        Some(File::new(file_id, contents))
    }

    pub fn is_fatal(&self) -> (r: bool)
        ensures
            r == self@.is_fatal(),
    {
        match &self.error {
            Some(ExaError::Fatal(_)) => true,
            _ => false,
        }
    }

    pub fn is_frozen(&self) -> (r: bool)
        ensures
            r == self@.is_frozen(),
    {
        match &self.error {
            Some(ExaError::Freezing(_)) => true,
            _ => false,
        }
    }

    pub fn will_kill_this_cycle(&self) -> (r: bool)
        ensures
            r == self@.at_kill(),
    {
        if self.pc >= self.instructions.len() {
            return false;
        }
        assert(instructions_view(self.instructions@)[self.pc as int] == self.instructions@[self.pc as int]@);
        match &self.instructions[self.pc] {
            Instruction::Kill => true,
            _ => false,
        }
    }

    pub fn will_test_mrd_this_cycle(&self) -> (r: bool)
        ensures
            r == self@.at_test_mrd(),
    {
        if self.pc >= self.instructions.len() {
            return false;
        }
        assert(instructions_view(self.instructions@)[self.pc as int] == self.instructions@[self.pc as int]@);
        match &self.instructions[self.pc] {
            Instruction::TestMrd => true,
            _ => false,
        }
    }

    pub fn descendant_of(&self, other: &Exa) -> (r: bool)
        ensures
            r == (self@.base_name == other@.base_name && self.spawn_id > other.spawn_id),
    {
        chars_eq(&str_chars(self.base_name.as_str()), &str_chars(other.base_name.as_str()))
            && self.spawn_id > other.spawn_id
    }

    pub fn ancestor_of(&self, other: &Exa) -> (r: bool)
        ensures
            r == (self@.base_name == other@.base_name && self.spawn_id < other.spawn_id),
    {
        chars_eq(&str_chars(self.base_name.as_str()), &str_chars(other.base_name.as_str()))
            && self.spawn_id < other.spawn_id
    }
}

/// Taking data out leaves no `DATA` instruction, and adds none of anything.
pub proof fn lemma_extract_values(insts: Seq<SpecInstruction>)
    ensures
        forall|k: int| 0 <= k < extract_values(insts).0.len() ==> !is_data(#[trigger] extract_values(insts).0[k]),
        (forall|k: int| 0 <= k < insts.len() ==> !is_mark(#[trigger] insts[k])) ==> forall|k: int|
            0 <= k < extract_values(insts).0.len() ==> !is_mark(#[trigger] extract_values(insts).0[k]),
    decreases insts.len(),
{
    if insts.len() > 0 {
        let init = insts.drop_last();
        lemma_extract_values(init);
        let (kept, values) = extract_values(init);
        let out = extract_values(insts).0;
        let no_marks = forall|k: int| 0 <= k < insts.len() ==> !is_mark(#[trigger] insts[k]);
        if no_marks {
            assert forall|k: int| 0 <= k < init.len() implies !is_mark(#[trigger] init[k]) by {
                assert(init[k] == insts[k]);
            }
            assert(!is_mark(insts[insts.len() - 1]));
        }
        match insts.last() {
            SpecInstruction::Data(_) => {},
            other => {
                assert(out == kept.push(other));
                assert forall|k: int| 0 <= k < out.len() implies !is_data(#[trigger] out[k]) && (no_marks ==> !is_mark(out[k])) by {
                    if k < kept.len() {
                        assert(out[k] == kept[k]);
                    }
                }
            },
        }
    }
}

/// Every value of an updated map is an old value or the new one.
proof fn lemma_insert_key_bound(entries: Seq<(Seq<char>, nat)>, key: Seq<char>, value: nat, b: nat)
    requires
        forall|k: int| 0 <= k < entries.len() ==> #[trigger] entries[k].1 <= b,
        value <= b,
    ensures
        forall|k: int| 0 <= k < insert_key(entries, key, value).len() ==> #[trigger] insert_key(entries, key, value)[k].1 <= b,
{
    lemma_find_key(entries, key);
}

/// Taking labels out leaves no `MARK` instruction and adds no `DATA`; every
/// label points into what is left, or just past its end.
pub proof fn lemma_extract_marks(insts: Seq<SpecInstruction>)
    ensures
        forall|k: int| 0 <= k < extract_marks(insts).0.len() ==> !is_mark(#[trigger] extract_marks(insts).0[k]),
        (forall|k: int| 0 <= k < insts.len() ==> !is_data(#[trigger] insts[k])) ==> forall|k: int|
            0 <= k < extract_marks(insts).0.len() ==> !is_data(#[trigger] extract_marks(insts).0[k]),
        forall|k: int| 0 <= k < extract_marks(insts).1.len() ==> #[trigger] extract_marks(insts).1[k].1
            <= extract_marks(insts).0.len(),
    decreases insts.len(),
{
    if insts.len() > 0 {
        let init = insts.drop_last();
        lemma_extract_marks(init);
        let (kept, labels) = extract_marks(init);
        if forall|k: int| 0 <= k < insts.len() ==> !is_data(#[trigger] insts[k]) {
            assert forall|k: int| 0 <= k < init.len() implies !is_data(#[trigger] init[k]) by {
                assert(init[k] == insts[k]);
            }
            assert(!is_data(insts[insts.len() - 1]));
        }
        match insts.last() {
            SpecInstruction::Mark(l) => {
                lemma_insert_key_bound(labels, l, kept.len(), kept.len());
            },
            _ => {},
        }
    }
}

/// The EXA that `spawn` creates: it runs the program without its data and
/// labels from the start, in global mode, holding the data as a file if
/// there is any.
pub open spec fn spawned_exa(
    name: Seq<char>,
    redshift: bool,
    program: Seq<SpecInstruction>,
    file_id: i32,
    host: nat,
    lineage: nat,
) -> SpecExa {
    let (no_data, values) = extract_values(program);
    let (insts, labels) = extract_marks(no_data);
    SpecExa {
        base_name: name,
        spawn_id: 0,
        name,
        registers: if redshift {
            Registers::initial_redshift()
        } else {
            Registers::initial()
        },
        unfreeze_exa: None,
        lineage,
        pc: 0,
        instructions: insts,
        labels,
        mode: Mode::Global,
        host,
        error: None,
        file_pointer: 0,
        file: if values.len() == 0 {
            None
        } else {
            Some(SpecFile { id: file_id, contents: values })
        },
        sprite: sprite::blank_pixels(),
        ran_test_mrd_this_cycle: false,
        waiting: false,
    }
}

impl Exa {
    /// Spawn an Exa in the specified Host, if there is available space. Its
    /// family of replicas gets a new counter, which starts at 1.
    pub fn spawn(vm: &mut VM, host: usize, name: String, redshift: bool, script: &str) -> (r: Result<usize, ExaError>)
        requires
            old(vm)@.wf(),
            host < old(vm)@.net.hosts.len(),
            old(vm)@.net.hosts[host as int].capacity > old(vm)@.net.hosts[host as int].occupied ==> preprocessable(
                script@,
            ) && parse_text_spec(script@) is Ok,
        ensures
            old(vm)@.net.hosts[host as int].capacity <= old(vm)@.net.hosts[host as int].occupied ==> r
                == Err::<usize, ExaError>(super::host_full()) && final(vm)@ == old(vm)@,
            old(vm)@.net.hosts[host as int].capacity > old(vm)@.net.hosts[host as int].occupied ==> ({
                let program = parse_text_spec(script@)->Ok_0;
                let values = extract_values(program).1;
                let h = old(vm)@.net.hosts[host as int];
                &&& r == Ok::<usize, ExaError>(old(vm)@.exas.len() as usize)
                &&& final(vm)@ == (SpecVM {
                    net: SpecNetwork {
                        hosts: old(vm)@.net.hosts.update(host as int, SpecHost { occupied: h.occupied + 1, ..h }),
                        file_counter: if values.len() == 0 {
                            old(vm)@.net.file_counter
                        } else {
                            super::next_file_id(old(vm)@.net.file_counter)
                        },
                        spawn_counters: old(vm)@.net.spawn_counters.push(1),
                        ..old(vm)@.net
                    },
                    exas: old(vm)@.exas.push(
                        spawned_exa(
                            name@,
                            redshift,
                            program,
                            old(vm)@.net.file_counter,
                            host as nat,
                            old(vm)@.net.spawn_counters.len(),
                        ),
                    ),
                    ..old(vm)@
                })
            }),
            final(vm)@.wf(),
            final(vm).redshift == old(vm).redshift,
    {
        let ghost v0 = vm@;
        match vm.network.hosts[host].reserve_slot() {
            Err(e) => {
                assert(vm@.net.hosts =~= v0.net.hosts);
                assert(vm@ =~~= v0);
                return Err(e);
            },
            Ok(()) => {},
        }
        let ghost hosts1 = vm@.net.hosts;
        assert(hosts1 =~= v0.net.hosts.update(host as int, SpecHost { occupied: v0.net.hosts[host as int].occupied + 1, ..v0.net.hosts[host as int] }));
        let mut insts = match parse_text(script) {
            Ok(v) => v,
            Err(_) => {
                proof {
                    assert(false);
                }
                Vec::new()
            },
        };
        let ghost program = instructions_view(insts@);
        let data_file = Exa::extract_data(&mut insts, &mut vm.network.file_counter);
        let labels = Exa::extract_labels(&mut insts);
        proof {
            lemma_extract_values(program);
            lemma_extract_marks(extract_values(program).0);
        }
        let lineage = vm.network.spawn_counters.len();
        vm.network.spawn_counters.push(1);
        let e = Exa {
            base_name: crate::text::copy_string(&name),
            spawn_id: 0,
            name,
            registers: if redshift { Registers::new_redshift() } else { Registers::new() },
            result: CycleResult::new(),
            lineage,
            pc: 0,
            instructions: insts,
            labels,
            mode: Mode::Global,
            host,
            error: None,
            file_pointer: 0,
            file: data_file,
            sprite: Sprite::empty(),
            ran_test_mrd_this_cycle: false,
            waiting: false,
        };
        let ghost ex = spawned_exa(e@.name, redshift, program, v0.net.file_counter, host as nat, lineage as nat);
        assert(e@ =~~= ex);
        let ghost net = vm@.net;
        assert(net.hosts == hosts1);
        assert(net.spawned == v0.net.spawned);
        assert(net.spawned.len() == 0);
        assert forall|h: int| 0 <= h < net.hosts.len() implies #[trigger] net.hosts[h].wf() by {
            assert(v0.net.hosts[h].wf());
        }
        assert forall|h: int, k: int| 0 <= h < net.hosts.len() && 0 <= k < net.hosts[h].links.len() implies #[trigger] net.hosts[h].links[k].1.to_host
            < net.hosts.len() by {
            assert(v0.net.hosts[h].links[k].1.to_host < v0.net.hosts.len());
        }
        let ghost exas2 = v0.exas.push(ex);
        assert forall|i: int| 0 <= i < exas2.len() implies invariants::exa_ok(#[trigger] exas2[i], net) by {
            if i < v0.exas.len() {
                assert(invariants::exa_ok(v0.exas[i], v0.net));
            }
        }
        assert forall|h: int| 0 <= h < net.hosts.len() implies #[trigger] net.hosts[h].occupied == net.hosts[h].files.len()
            + invariants::count_in(exas2, h) by {
            invariants::lemma_count_push(v0.exas, ex, h);
            assert(v0.net.hosts[h].occupied == v0.net.hosts[h].files.len() + invariants::count_in(v0.exas, h));
        }
        let idx = vm.exas.len();
        vm.register_exa(e);
        Ok(idx)
    }
}

} // verus!
