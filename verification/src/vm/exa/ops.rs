//! The executable side of an EXA's instructions: reading and writing registers,
//! the message bus and the held file, each proved to do what `semantics` says.

use vstd::prelude::*;

use super::semantics::{
    abs, clamp, digits_of, exa_slot, fits_loose, pow10, here, is_f_name, is_gp_name, is_m_name, limited,
    padded_digits, read_bus, read_file, read_register, read_target, resolve, slot_get, slot_set,
    state, store, write_bus, write_file, write_limits, write_register, write_sprite, Slot,
    test_eof, ExaState, seek_file, void_file, test_mrd, current_bus,
};
use super::sprite::{builtin_pixels, Sprite};
use super::{Exa, Mode, SpecExa};
use crate::vm::file::SpecFile;
use crate::vm::instruction::{SpecTarget, Target};
use crate::text::{chars_to_lower, str_chars, lower_chars};
use crate::vm::error::ExaError;
use crate::vm::register::Register;
use crate::vm::{lemma_find_key, Network, Permissions};

verus! {

/// Where a register name leads, as a value the VM can hold.
pub enum RegisterSlot {
    X,
    T,
    Gx,
    Gy,
    Gz,
    Gp,
    Ci,
    Co,
    Hardware(usize),
}

impl View for RegisterSlot {
    type V = Slot;

    open spec fn view(&self) -> Slot {
        match self {
            RegisterSlot::X => Slot::X,
            RegisterSlot::T => Slot::T,
            RegisterSlot::Gx => Slot::Gx,
            RegisterSlot::Gy => Slot::Gy,
            RegisterSlot::Gz => Slot::Gz,
            RegisterSlot::Gp => Slot::Gp,
            RegisterSlot::Ci => Slot::Ci,
            RegisterSlot::Co => Slot::Co,
            RegisterSlot::Hardware(i) => Slot::Hardware(*i as int),
        }
    }
}

pub open spec fn slot_result_view(r: Result<RegisterSlot, ExaError>) -> Result<Slot, ExaError> {
    match r {
        Ok(s) => Ok(s@),
        Err(e) => Err(e),
    }
}

/// Whether the characters are exactly the two given ones.
fn spells2(v: &Vec<char>, a: char, b: char) -> (r: bool)
    ensures
        r == (v@ == seq![a, b]),
{
    if v.len() == 2 {
        assert(v@ =~= seq![v@[0], v@[1]]);
        v[0] == a && v[1] == b
    } else {
        false
    }
}

/// Whether the characters are exactly the given one.
fn spells1(v: &Vec<char>, a: char) -> (r: bool)
    ensures
        r == (v@ == seq![a]),
{
    if v.len() == 1 {
        assert(v@ =~= seq![v@[0]]);
        v[0] == a
    } else {
        false
    }
}

/// The EXA register a lowercased name designates.
fn own_slot(name: &Vec<char>) -> (r: Option<RegisterSlot>)
    ensures
        match r {
            Some(s) => exa_slot(name@) == Some(s@),
            None => exa_slot(name@) is None,
        },
{
    if spells1(name, 'x') {
        Some(RegisterSlot::X)
    } else if spells1(name, 't') {
        Some(RegisterSlot::T)
    } else if spells2(name, 'g', 'x') {
        Some(RegisterSlot::Gx)
    } else if spells2(name, 'g', 'y') {
        Some(RegisterSlot::Gy)
    } else if spells2(name, 'g', 'z') {
        Some(RegisterSlot::Gz)
    } else if spells2(name, 'g', 'p') {
        Some(RegisterSlot::Gp)
    } else if spells2(name, 'c', 'i') {
        Some(RegisterSlot::Ci)
    } else if spells2(name, 'c', 'o') {
        Some(RegisterSlot::Co)
    } else {
        None
    }
}

/// Whether a register name is exactly the given one-character name.
fn is_name1(r: &str, c: char) -> (b: bool)
    ensures
        b == (r@ == seq![c]),
{
    spells1(&str_chars(r), c)
}

impl Exa {
    /// The register a name designates: `#`-names are hardware registers of the
    /// current host, others the EXA's own; case does not matter.
    pub fn resolve_register(&self, net: &Network, r: &str) -> (res: Result<RegisterSlot, ExaError>)
        requires
            self.host < net.hosts.len(),
        ensures
            slot_result_view(res) == resolve(state(self@, net@), r@),
            res matches Ok(RegisterSlot::Hardware(i)) ==> i < net.hosts@[self.host as int].registers.len(),
    {
        let chars = str_chars(r);
        let lower = chars_to_lower(&chars);
        if chars.len() > 0 && chars[0] == '#' {
            assert(here(state(self@, net@)) == net.hosts@[self.host as int]@);
            match net.hosts[self.host].find_register(&lower) {
                Some(i) => {
                    proof {
                        lemma_find_key(net.hosts@[self.host as int]@.registers, lower@);
                    }
                    Ok(RegisterSlot::Hardware(i))
                },
                None => Err(ExaError::Fatal("attempt to access unknown hardware register")),
            }
        } else {
            match own_slot(&lower) {
                Some(s) => Ok(s),
                None => Err(ExaError::Fatal("attempted to access unknown exa register")),
            }
        }
    }

    /// The register in a slot.
    pub fn slot_register(&self, net: &Network, s: &RegisterSlot) -> (g: Register)
        requires
            self.host < net.hosts.len(),
            s matches RegisterSlot::Hardware(i) ==> i < net.hosts@[self.host as int].registers.len(),
        ensures
            g == slot_get(state(self@, net@), s@),
    {
        match s {
            RegisterSlot::X => self.registers.x,
            RegisterSlot::T => self.registers.t,
            RegisterSlot::Gx => self.registers.gx,
            RegisterSlot::Gy => self.registers.gy,
            RegisterSlot::Gz => self.registers.gz,
            RegisterSlot::Gp => self.registers.gp,
            RegisterSlot::Ci => self.registers.ci,
            RegisterSlot::Co => self.registers.co,
            RegisterSlot::Hardware(i) => net.hosts[self.host].registers[*i].1,
        }
    }

    /// Reads the oldest readable message from the bus in use; the sender is
    /// noted so that the VM can release it.
    pub fn read_from_bus(&mut self, net: &mut Network) -> (res: Result<i32, ExaError>)
        requires
            fits_loose(state(old(self)@, old(net)@)),
        ensures
            (state(final(self)@, final(net)@), res) == read_bus(state(old(self)@, old(net)@)),
    {
        let ghost st = state(self@, net@);
        let h = self.host;
        let read = match self.mode {
            Mode::Global => net.bus.read(),
            Mode::Local => {
                assert(net@.hosts[h as int].wf());
                let ghost hosts0 = net.hosts@;
                let r = net.hosts[h].bus.read();
                assert(net@.hosts =~= old(net)@.hosts.update(h as int, net.hosts@[h as int]@));
                r
            },
        };
        match read {
            Ok(m) => {
                self.result.unfreeze_exa = Some(m.sender);
                assert(state(self@, net@) =~~= read_bus(st).0);
                Ok(m.value)
            },
            Err(e) => {
                assert(state(self@, net@) =~~= read_bus(st).0);
                Err(e)
            },
        }
    }
}


/// A value held between two bounds.
pub fn clamp_i64(v: i64, lo: i64, hi: i64) -> (r: i64)
    ensures
        r == clamp(v as int, lo as int, hi as int),
{
    if v > hi {
        hi
    } else if v < lo {
        lo
    } else {
        v
    }
}

/// Every decimal digit is below ten, and there is at least one.
pub proof fn lemma_digits_of(n: nat)
    ensures
        digits_of(n).len() >= 1,
        forall|i: int| 0 <= i < digits_of(n).len() ==> #[trigger] digits_of(n)[i] < 10,
    decreases n,
{
    if n >= 10 {
        lemma_digits_of(n / 10);
    }
}

pub proof fn lemma_padded_digits(v: int)
    ensures
        padded_digits(v).len() >= 4,
        forall|i: int| 0 <= i < padded_digits(v).len() ==> #[trigger] padded_digits(v)[i] < 10,
{
    let a = if v < 0 { -v } else { v };
    lemma_digits_of(a as nat);
    let d = digits_of(a as nat);
    if d.len() < 4 {
        let z = Seq::new((4 - d.len()) as nat, |i: int| 0u32);
        assert forall|i: int| 0 <= i < padded_digits(v).len() implies #[trigger] padded_digits(v)[i] < 10 by {
            if i >= z.len() {
                assert(padded_digits(v)[i] == d[i - z.len()]);
            }
        }
    }
}

/// The number a run of decimal digits spells, most significant first.
pub open spec fn digits_value(d: Seq<u32>) -> int
    decreases d.len(),
{
    if d.len() == 0 {
        0
    } else {
        digits_value(d.drop_last()) * 10 + d.last()
    }
}

proof fn lemma_digits_of_spell(n: nat, k: nat)
    requires
        k >= 1,
        n < pow10(k),
    ensures
        digits_value(digits_of(n)) == n,
        digits_of(n).len() <= k,
    decreases n,
{
    if n >= 10 {
        assert(k >= 2) by {
            if k == 1 {
                reveal_with_fuel(pow10, 2);
            }
        }
        assert(n / 10 < pow10((k - 1) as nat)) by {
            assert(pow10(k) == 10 * pow10((k - 1) as nat));
        }
        lemma_digits_of_spell(n / 10, (k - 1) as nat);
        assert(digits_of(n).drop_last() =~= digits_of(n / 10));
        assert(digits_of(n).last() == (n % 10) as u32);
        assert(digits_value(digits_of(n)) == digits_value(digits_of(n / 10)) * 10 + (n % 10));
        assert((n / 10) * 10 + n % 10 == n);
    } else {
        assert(digits_of(n).drop_last() =~= Seq::<u32>::empty());
        assert(digits_value(digits_of(n)) == digits_value(Seq::<u32>::empty()) * 10 + n);
    }
}

proof fn lemma_zeros_spell_nothing(m: nat, d: Seq<u32>)
    ensures
        digits_value(Seq::new(m, |i: int| 0u32) + d) == digits_value(d),
    decreases d.len(), m,
{
    let z = Seq::new(m, |i: int| 0u32);
    if d.len() == 0 {
        assert(z + d =~= z);
        if m > 0 {
            assert(z.drop_last() =~= Seq::new((m - 1) as nat, |i: int| 0u32));
            lemma_zeros_spell_nothing((m - 1) as nat, d);
            assert(Seq::new((m - 1) as nat, |i: int| 0u32) + d =~= Seq::new((m - 1) as nat, |i: int| 0u32));
        }
    } else {
        assert((z + d).drop_last() =~= z + d.drop_last());
        lemma_zeros_spell_nothing(m, d.drop_last());
    }
}

/// The digits of a value of at most four digits are exactly four, and they
/// spell the value without its sign.
pub proof fn law_four_digits_spell_magnitude(v: int)
    requires
        -9999 <= v <= 9999,
    ensures
        padded_digits(v).len() == 4,
        digits_value(padded_digits(v)) == abs(v),
{
    let a = abs(v) as nat;
    reveal_with_fuel(pow10, 5);
    lemma_digits_of_spell(a, 4);
    lemma_digits_of(a);
    let d = digits_of(a);
    if d.len() < 4 {
        lemma_zeros_spell_nothing((4 - d.len()) as nat, d);
    }
}

/// The decimal digits of `n`, most significant first.
fn magnitude_digits(n: u64) -> (r: Vec<u32>)
    ensures
        r@ == digits_of(n as nat),
    decreases n,
{
    if n < 10 {
        vec![n as u32]
    } else {
        let mut r = magnitude_digits(n / 10);
        r.push((n % 10) as u32);
        r
    }
}

/// The digits of the magnitude of `value`, padded with zeros to at least four.
pub(crate) fn padded_digits_of(value: i64) -> (r: Vec<u32>)
    requires
        value > i64::MIN,
    ensures
        r@ == padded_digits(value as int),
{
    let magnitude: u64 = if value < 0 { (-value) as u64 } else { value as u64 };
    let d = magnitude_digits(magnitude);
    if d.len() < 4 {
        let mut r: Vec<u32> = Vec::new();
        let pad = 4 - d.len();
        let mut i: usize = 0;
        while i < pad
            invariant
                i <= pad,
                pad == 4 - d.len(),
                r@ == Seq::new(i as nat, |k: int| 0u32),
            decreases pad - i,
        {
            r.push(0);
            assert(r@ =~= Seq::new((i + 1) as nat, |k: int| 0u32));
            i = i + 1;
        }
        let mut j: usize = 0;
        let ghost zeros = r@;
        while j < d.len()
            invariant
                j <= d.len(),
                r@ == zeros + d@.subrange(0, j as int),
            decreases d.len() - j,
        {
            r.push(d[j]);
            assert(zeros + d@.subrange(0, j + 1) =~= (zeros + d@.subrange(0, j as int)).push(d@[j as int]));
            j = j + 1;
        }
        assert(d@.subrange(0, d.len() as int) =~= d@);
        r
    } else {
        d
    }
}

/// Splits a value into a vec of its digits. Throws away the sign, and
/// pads so that there are always exactly 4 digits.
pub fn int_to_digits(value: i32) -> (r: Vec<u32>)
    requires
        value > i32::MIN,
    ensures
        r@ == padded_digits(value as int),
{
    padded_digits_of(value as i64)
}

/// Whether the characters are exactly the five given ones.
fn spells5(v: &Vec<char>, a: char, b: char, c: char, d: char, e: char) -> (r: bool)
    ensures
        r == (v@ == seq![a, b, c, d, e]),
{
    if v.len() == 5 {
        assert(v@ =~= seq![v@[0], v@[1], v@[2], v@[3], v@[4]]);
        v[0] == a && v[1] == b && v[2] == c && v[3] == d && v[4] == e
    } else {
        false
    }
}

/// A value written to the named register, clamped to that register's range.
fn limit_value(r: &str, v: i32) -> (w: i32)
    ensures
        w == limited(r@, v),
{
    let name = str_chars(r);
    if spells2(&name, 'g', 'x') {
        clamp_i64(v as i64, -10, 120) as i32
    } else if spells2(&name, 'g', 'y') {
        clamp_i64(v as i64, -10, 100) as i32
    } else if spells2(&name, 'g', 'z') {
        clamp_i64(v as i64, -9, 9) as i32
    } else if spells5(&name, '#', 's', 'q', 'r', '0') || spells5(&name, '#', 's', 'q', 'r', '1')
        || spells5(&name, '#', 't', 'r', 'i', '0') || spells5(&name, '#', 'n', 's', 'e', '0') {
        clamp_i64(v as i64, 0, 99) as i32
    } else {
        v
    }
}

impl Exa {
    /// Reads the value at the file pointer, which then moves on.
    pub fn read_from_file(&mut self, net: &Network) -> (res: Result<i32, ExaError>)
        requires
            fits_loose(state(old(self)@, net@)),
        ensures
            (state(final(self)@, net@), res) == read_file(state(old(self)@, net@)),
    {
        let ghost st = state(self@, net@);
        match &self.file {
            None => Err(ExaError::Fatal("no file is held")),
            Some(f) => {
                if self.file_pointer >= f.contents.len() {
                    Err(ExaError::Fatal("cannot read from file at append position"))
                } else {
                    let value = f.contents[self.file_pointer];
                    self.file_pointer = self.file_pointer + 1;
                    assert(state(self@, net@) =~~= read_file(st).0);
                    Ok(value)
                }
            },
        }
    }

    /// Overwrites the value at the file pointer, or appends at the end; the
    /// pointer moves on.
    pub fn write_to_file(&mut self, net: &Network, value: i32) -> (res: Result<(), ExaError>)
        requires
            fits_loose(state(old(self)@, net@)),
        ensures
            (state(final(self)@, net@), res) == write_file(state(old(self)@, net@), value),
    {
        let ghost st = state(self@, net@);
        match self.file.take() {
            None => Err(ExaError::Fatal("no file is held")),
            Some(mut f) => {
                let p = self.file_pointer;
                if p == f.contents.len() {
                    f.contents.push(value);
                } else {
                    f.contents.set(p, value);
                }
                let n = f.contents.len();
                assert(p < n);
                self.file = Some(f);
                self.file_pointer = p + 1;
                assert(state(self@, net@) =~~= write_file(st, value).0);
                Ok(())
            },
        }
    }

    /// Writes to the bus in use; the writer freezes until the message is read.
    pub fn write_to_bus(&mut self, net: &mut Network, value: i32) -> (res: Result<(), ExaError>)
        requires
            fits_loose(state(old(self)@, old(net)@)),
        ensures
            (state(final(self)@, final(net)@), res) == write_bus(state(old(self)@, old(net)@), value),
    {
        let ghost st = state(self@, net@);
        let h = self.host;
        let r = match self.mode {
            Mode::Global => net.bus.write(&self.name, value),
            Mode::Local => {
                assert(net@.hosts[h as int].wf());
                let r = net.hosts[h].bus.write(&self.name, value);
                assert(net@.hosts =~= old(net)@.hosts.update(h as int, net.hosts@[h as int]@));
                r
            },
        };
        assert(state(self@, net@) =~~= write_bus(st, value).0);
        r
    }

    /// Writing GP draws on the sprite: for `XABC`, `A` 0, 1 or 2 clears, sets
    /// or toggles the pixel at column `B`, row `C`, and 3 loads built-in sprite
    /// `BC`; negative values do nothing.
    pub fn write_sprite(&mut self, net: &Network, value: i32) -> (res: Result<(), ExaError>)
        ensures
            (state(final(self)@, net@), res) == write_sprite(state(old(self)@, net@), value),
    {
        let ghost st = state(self@, net@);
        if value < 0 {
            return Ok(());
        }
        let digits = padded_digits_of(value as i64);
        proof {
            lemma_padded_digits(value as int);
        }
        let op = digits[1];
        let x = digits[2];
        let y = digits[3];
        if op == 0 {
            self.sprite.disable(x, y);
        } else if op == 1 {
            self.sprite.enable(x, y);
        } else if op == 2 {
            self.sprite.toggle(x, y);
        } else if op == 3 {
            self.sprite = Sprite::from_builtin(x * 10 + y);
        }
        assert(state(self@, net@) =~~= write_sprite(st, value).0);
        Ok(())
    }

    /// Puts a value into the register in a slot, whatever its permissions.
    fn set_slot(&mut self, net: &mut Network, s: &RegisterSlot, v: i32)
        requires
            old(self).host < old(net).hosts.len(),
            s matches RegisterSlot::Hardware(i) ==> i < old(net).hosts@[old(self).host as int].registers.len(),
        ensures
            state(final(self)@, final(net)@) == slot_set(state(old(self)@, old(net)@), s@, v),
    {
        let ghost st = state(self@, net@);
        match s {
            RegisterSlot::X => self.registers.x.value = v,
            RegisterSlot::T => self.registers.t.value = v,
            RegisterSlot::Gx => self.registers.gx.value = v,
            RegisterSlot::Gy => self.registers.gy.value = v,
            RegisterSlot::Gz => self.registers.gz.value = v,
            RegisterSlot::Gp => self.registers.gp.value = v,
            RegisterSlot::Ci => self.registers.ci.value = v,
            RegisterSlot::Co => self.registers.co.value = v,
            RegisterSlot::Hardware(i) => {
                let h = self.host;
                let ghost host0 = net.hosts@[h as int];
                net.hosts[h].registers[*i].1.value = v;
                assert(net.hosts@[h as int]@.registers =~= host0@.registers.update(
                    *i as int,
                    (host0@.registers[*i as int].0, Register { value: v, ..host0@.registers[*i as int].1 }),
                ));
                assert(net@.hosts =~= old(net)@.hosts.update(h as int, net.hosts@[h as int]@));
            },
        }
        assert(state(self@, net@) =~~= slot_set(st, s@, v));
    }

    pub fn read_register(&mut self, net: &mut Network, r: &str) -> (res: Result<i32, ExaError>)
        requires
            fits_loose(state(old(self)@, old(net)@)),
        ensures
            (state(final(self)@, final(net)@), res) == read_register(state(old(self)@, old(net)@), r@),
    {
        proof {
            reveal(read_register);
        }
        if is_name1(r, 'm') {
            return self.read_from_bus(net);
        }
        if is_name1(r, 'f') {
            return self.read_from_file(net);
        }
        match self.resolve_register(net, r) {
            Err(e) => Err(e),
            Ok(s) => {
                let g = self.slot_register(net, &s);
                match g.permissions {
                    Permissions::Denied => Err(ExaError::Fatal("attempt to read from deactivated register")),
                    Permissions::WriteOnly => Err(ExaError::Fatal("attempt to read from write-only register")),
                    _ => Ok(g.value),
                }
            },
        }
    }

    pub fn write_register(&mut self, net: &mut Network, r: &str, value: i32) -> (res: Result<(), ExaError>)
        requires
            fits_loose(state(old(self)@, old(net)@)),
        ensures
            (state(final(self)@, final(net)@), res) == write_register(state(old(self)@, old(net)@), r@, value),
    {
        proof {
            reveal(write_register);
        }
        if is_name1(r, 'm') {
            return self.write_to_bus(net, value);
        }
        if is_name1(r, 'f') {
            return self.write_to_file(net, value);
        }
        if spells2(&str_chars(r), 'g', 'p') {
            return self.write_sprite(net, value);
        }
        match self.resolve_register(net, r) {
            Err(e) => Err(e),
            Ok(s) => {
                let g = self.slot_register(net, &s);
                match g.permissions {
                    Permissions::Denied => Err(ExaError::Fatal("attempt to write to deactivated register")),
                    Permissions::ReadOnly => Err(ExaError::Fatal("attempt to write to read-only register")),
                    _ => {
                        let w = limit_value(r, value);
                        self.set_slot(net, &s, w);
                        Ok(())
                    },
                }
            },
        }
    }

    pub fn read_target(&mut self, net: &mut Network, t: &Target) -> (res: Result<i32, ExaError>)
        requires
            fits_loose(state(old(self)@, old(net)@)),
        ensures
            (state(final(self)@, final(net)@), res) == read_target(state(old(self)@, old(net)@), t@),
    {
        match t {
            Target::Literal(l) => Ok(*l),
            Target::Register(r) => self.read_register(net, r.as_str()),
        }
    }

    /// Stores a result in the destination operand, which must be a register.
    pub fn store(&mut self, net: &mut Network, dest: &Target, value: i32) -> (res: Result<(), ExaError>)
        requires
            fits_loose(state(old(self)@, old(net)@)),
        ensures
            (state(final(self)@, final(net)@), res) == store(state(old(self)@, old(net)@), dest@, value),
    {
        match dest {
            Target::Literal(_) => Err(ExaError::Fatal("cannot write to literal")),
            Target::Register(r) => self.write_register(net, r.as_str(), value),
        }
    }
}

// ---------------------------------------------------------------------------
// TEST EOF and GP, stated by what they do
// ---------------------------------------------------------------------------

/// Writing T stores the value there and changes nothing else of the EXA.
proof fn lemma_write_t(st: ExaState, v: i32)
    requires
        fits_loose(st),
    ensures
        write_register(st, seq!['t'], v).1 is Ok,
        write_register(st, seq!['t'], v).0.exa.registers.t.value == v,
        write_register(st, seq!['t'], v).0.exa.file == st.exa.file,
        write_register(st, seq!['t'], v).0.exa.file_pointer == st.exa.file_pointer,
        write_register(st, seq!['t'], v).0.exa.pc == st.exa.pc,
        write_register(st, seq!['t'], v).0.exa.sprite == st.exa.sprite,
{
    reveal(write_register);
    assert(seq!['t'][0] != seq!['m'][0]);
    assert(seq!['t'][0] != seq!['f'][0]);
    assert(seq!['t'].len() != seq!['g', 'p'].len());
    assert(lower_chars(seq!['t']) =~= seq!['t']);
    assert(seq!['t'][0] != seq!['x'][0]);
    assert(seq!['t'].len() != seq!['g', 'x'].len());
    assert(seq!['t'].len() != seq!['#', 's', 'q', 'r', '0'].len());
    assert(seq!['t'].len() != seq!['#', 's', 'q', 'r', '1'].len());
    assert(seq!['t'].len() != seq!['#', 't', 'r', 'i', '0'].len());
    assert(seq!['t'].len() != seq!['#', 'n', 's', 'e', '0'].len());
    assert(limited(seq!['t'], v) == v);
}

/// TEST EOF on a held file makes T 1 when the file pointer is at the end of
/// the file and 0 when it is not, leaving the file and the pointer as they
/// were; without a file it fails.
pub proof fn law_test_eof_reports_end(st: ExaState)
    requires
        fits_loose(st),
    ensures
        st.exa.file is None ==> test_eof(st).1 is Err,
        st.exa.file matches Some(f) ==> {
            let after = test_eof(st).0.exa;
            &&& test_eof(st).1 is Ok
            &&& (after.registers.t.value == 1 <==> st.exa.file_pointer == f.contents.len())
            &&& (after.registers.t.value == 0 <==> st.exa.file_pointer != f.contents.len())
            &&& after.file == st.exa.file
            &&& after.file_pointer == st.exa.file_pointer
        },
{
    reveal(test_eof);
    if let Some(f) = st.exa.file {
        let v: i32 = if st.exa.file_pointer == f.contents.len() { 1 } else { 0 };
        lemma_write_t(st, v);
    }
}

/// TEST MRD makes T 1 when a message waits on the EXA's bus (the global one,
/// or its host's in local mode) and 0 when none does, leaving the EXA's file, pointer, program counter and
/// sprite as they were.
pub proof fn law_test_mrd_reports_waiting_message(st: ExaState)
    requires
        fits_loose(st),
    ensures
        (test_mrd(st).exa.registers.t.value == 1) == (current_bus(st).messages.len() > 0),
        (test_mrd(st).exa.registers.t.value == 0) == (current_bus(st).messages.len() == 0),
        test_mrd(st).exa.file == st.exa.file,
        test_mrd(st).exa.file_pointer == st.exa.file_pointer,
        test_mrd(st).exa.pc == st.exa.pc,
        test_mrd(st).exa.sprite == st.exa.sprite,
{
    let v: i32 = if current_bus(st).messages.len() > 0 { 1 } else { 0 };
    lemma_write_t(st, v);
}

/// The digits of a value of at most four digits, by place.
proof fn lemma_four_digits(v: int)
    requires
        0 <= v <= 9999,
    ensures
        padded_digits(v).len() == 4,
        padded_digits(v)[0] == v / 1000,
        padded_digits(v)[1] == (v / 100) % 10,
        padded_digits(v)[2] == (v / 10) % 10,
        padded_digits(v)[3] == v % 10,
{
    reveal_with_fuel(digits_of, 5);
    let d = digits_of(v as nat);
    if v < 10 {
        assert(d =~= seq![v as u32]);
    } else if v < 100 {
        assert(digits_of((v / 10) as nat) =~= seq![(v / 10) as u32]);
        assert(d =~= seq![(v / 10) as u32, (v % 10) as u32]);
    } else if v < 1000 {
        assert(digits_of((v / 100) as nat) =~= seq![(v / 100) as u32]);
        assert(digits_of((v / 10) as nat) =~= seq![(v / 100) as u32, ((v / 10) % 10) as u32]);
        assert(d =~= seq![(v / 100) as u32, ((v / 10) % 10) as u32, (v % 10) as u32]);
    } else {
        assert(digits_of((v / 1000) as nat) =~= seq![(v / 1000) as u32]);
        assert(digits_of((v / 100) as nat) =~= seq![(v / 1000) as u32, ((v / 100) % 10) as u32]);
        assert(digits_of((v / 10) as nat) =~= seq![
            (v / 1000) as u32,
            ((v / 100) % 10) as u32,
            ((v / 10) % 10) as u32,
        ]);
        assert(d =~= seq![
            (v / 1000) as u32,
            ((v / 100) % 10) as u32,
            ((v / 10) % 10) as u32,
            (v % 10) as u32,
        ]);
    }
}

/// Writing GP a value of at most four digits whose hundreds digit is 0, 1
/// or 2 clears, sets or toggles exactly one pixel of the sprite: the one in
/// column `v / 10 % 10` (the tens digit) and row `v % 10` (the units digit),
/// at index column + 10 * row.
pub proof fn law_gp_draws_one_pixel(st: ExaState, v: i32)
    requires
        0 <= v <= 9999,
        (v / 100) % 10 <= 2,
        st.exa.sprite.len() == 100,
    ensures
        ({
            let s = st.exa.sprite;
            let s2 = write_sprite(st, v).0.exa.sprite;
            let op = (v / 100) % 10;
            let idx = (v / 10) % 10 + 10 * (v % 10);
            &&& write_sprite(st, v).1 is Ok
            &&& s2.len() == 100
            &&& forall|k: int| 0 <= k < 100 && k != idx ==> #[trigger] s2[k] == s[k]
            &&& op == 0 ==> !s2[idx]
            &&& op == 1 ==> s2[idx]
            &&& op == 2 ==> s2[idx] == !s[idx]
        }),
{
    lemma_four_digits(v as int);
}

/// Writing GP a value of at most four digits whose hundreds digit is 3 loads
/// the built-in sprite numbered by the last two digits; a hundreds digit above
/// 3, or a negative value, leaves everything as it was.
pub proof fn law_gp_loads_builtin_sprite(st: ExaState, v: i32)
    requires
        -9999 <= v <= 9999,
    ensures
        write_sprite(st, v).1 is Ok,
        v < 0 ==> write_sprite(st, v).0 == st,
        0 <= v && (v / 100) % 10 == 3 ==> write_sprite(st, v).0 == (ExaState {
            exa: (SpecExa { sprite: builtin_pixels((v % 100) as u32), ..st.exa }),
            ..st
        }),
        0 <= v && (v / 100) % 10 > 3 ==> write_sprite(st, v).0 == st,
{
    if v >= 0 {
        let w = v as int;
        lemma_four_digits(w);
        let d = padded_digits(w);
        assert(d[2] * 10 + d[3] == w % 100) by {
            assert((w / 10) % 10 * 10 + w % 10 == w % 100) by (nonlinear_arith)
                requires 0 <= w <= 9999;
        }
        if d[1] == 3 {
            assert(builtin_pixels((d[2] * 10 + d[3]) as u32) == builtin_pixels((v % 100) as u32));
        }
        if d[1] > 3 {
            assert(st.exa == SpecExa { sprite: st.exa.sprite, ..st.exa });
        }
    }
}

// ---------------------------------------------------------------------------
// The held file, stated by what each operation does to it
// ---------------------------------------------------------------------------

/// Reading F gives the value at the file pointer and moves the pointer on by
/// one, leaving the file as it was; at the end of the file, or without a
/// file, it fails.
pub proof fn law_read_file_takes_value_at_pointer(st: ExaState)
    requires
        fits_loose(st),
    ensures
        st.exa.file is None ==> read_file(st).1 is Err,
        st.exa.file matches Some(f) ==> {
            let p = st.exa.file_pointer;
            let after = read_file(st).0.exa;
            &&& (p == f.contents.len() ==> read_file(st).1 is Err)
            &&& (p < f.contents.len() ==> {
                &&& read_file(st).1 == Ok::<i32, ExaError>(f.contents[p as int])
                &&& after.file == st.exa.file
                &&& after.file_pointer == p + 1
            })
        },
{
}

/// Writing F puts the value at the file pointer, overwriting the value there
/// or, at the end of the file, adding it; every other value stays where it
/// was, and the pointer moves on by one. Without a file it fails.
pub proof fn law_write_file_puts_value_at_pointer(st: ExaState, v: i32)
    requires
        fits_loose(st),
    ensures
        st.exa.file is None ==> write_file(st, v).1 is Err,
        st.exa.file matches Some(f) ==> {
            let p = st.exa.file_pointer;
            let after = write_file(st, v).0.exa;
            &&& write_file(st, v).1 is Ok
            &&& after.file is Some
            &&& after.file->Some_0.id == f.id
            &&& after.file->Some_0.contents.len() == (if p == f.contents.len() {
                f.contents.len() + 1int
            } else {
                f.contents.len() as int
            })
            &&& after.file->Some_0.contents[p as int] == v
            &&& forall|k: int|
                0 <= k < f.contents.len() && k != p ==> #[trigger] after.file->Some_0.contents[k]
                    == f.contents[k]
            &&& after.file_pointer == p + 1
        },
{
}

/// SEEK moves the file pointer by the amount, stopping at the start or the
/// end of the file, and leaves the file as it was.
pub proof fn law_seek_moves_pointer_within_file(st: ExaState, n: i32)
    requires
        fits_loose(st),
        st.exa.file is Some,
    ensures
        ({
            let f = st.exa.file->Some_0;
            let target = st.exa.file_pointer + n;
            let after = seek_file(st, SpecTarget::Literal(n)).0.exa;
            &&& seek_file(st, SpecTarget::Literal(n)).1 is Ok
            &&& after.file == st.exa.file
            &&& (target < 0 ==> after.file_pointer == 0)
            &&& (target > f.contents.len() ==> after.file_pointer == f.contents.len())
            &&& (0 <= target <= f.contents.len() ==> after.file_pointer == target)
        }),
{
    reveal(seek_file);
}

/// VOID F removes the value at the file pointer: the values before it stay,
/// those after it move down by one, and the pointer stays. At the end of the
/// file, or without a file, it fails.
pub proof fn law_void_file_removes_value_at_pointer(st: ExaState)
    requires
        fits_loose(st),
    ensures
        st.exa.file is None ==> void_file(st).1 is Err,
        st.exa.file matches Some(f) ==> {
            let p = st.exa.file_pointer;
            let after = void_file(st).0.exa;
            &&& (p == f.contents.len() ==> void_file(st).1 is Err)
            &&& (p < f.contents.len() ==> {
                let g = after.file->Some_0;
                &&& void_file(st).1 is Ok
                &&& after.file is Some
                &&& g.id == f.id
                &&& g.contents.len() == f.contents.len() - 1
                &&& forall|k: int| 0 <= k < p ==> #[trigger] g.contents[k] == f.contents[k]
                &&& forall|k: int| p <= k < g.contents.len() ==> #[trigger] g.contents[k] == f.contents[k + 1]
                &&& after.file_pointer == p
            })
        },
{
    reveal(void_file);
}

/// What is written to F is read back: after writing a value, SEEK -1 and a
/// read of F give that value.
pub proof fn law_write_seek_back_read_gives_value(st: ExaState, v: i32)
    requires
        fits_loose(st),
        st.exa.file is Some,
    ensures
        ({
            let s1 = write_file(st, v).0;
            let s2 = seek_file(s1, SpecTarget::Literal(-1i32)).0;
            &&& write_file(st, v).1 is Ok
            &&& seek_file(s1, SpecTarget::Literal(-1i32)).1 is Ok
            &&& read_file(s2).1 == Ok::<i32, ExaError>(v)
        }),
{
    reveal(seek_file);
    let s1 = write_file(st, v).0;
    law_write_file_puts_value_at_pointer(st, v);
    assert(s1.exa.file_pointer == st.exa.file_pointer + 1);
    let s2 = seek_file(s1, SpecTarget::Literal(-1i32)).0;
    assert(s2.exa.file_pointer == st.exa.file_pointer);
    assert(s2.exa.file == s1.exa.file);
}

} // verus!
