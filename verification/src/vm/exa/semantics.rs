//! What each EXA instruction does, stated over the models of an EXA and of the
//! network around it.

use vstd::prelude::*;

use super::sprite::builtin_pixels;
use super::{label_position, Mode, Registers, SpecExa};
use crate::text::lower_chars;
use crate::vm::bus::{write_freeze, SpecBus};
use crate::vm::error::ExaError;
use crate::vm::file::SpecFile;
use crate::vm::instruction::{Comparator, SpecInstruction, SpecTarget};
use crate::vm::register::Register;
use crate::vm::{find_key, host_full, next_file_id, next_spawn_id, Permissions, SpecHost, SpecNetwork};
use crate::text::nat_decimal;

verus! {

/// An EXA together with the network it acts on.
#[verifier::ext_equal]
pub struct ExaState {
    pub exa: SpecExa,
    pub net: SpecNetwork,
}

pub open spec fn state(exa: SpecExa, net: SpecNetwork) -> ExaState {
    ExaState { exa, net }
}

/// The host the EXA is in.
pub open spec fn here(st: ExaState) -> SpecHost {
    st.net.hosts[st.exa.host as int]
}

pub open spec fn with_here(st: ExaState, h: SpecHost) -> ExaState {
    ExaState { net: st.net.with_host(st.exa.host as int, h), ..st }
}

pub open spec fn with_exa(st: ExaState, exa: SpecExa) -> ExaState {
    ExaState { exa, ..st }
}

/// Everything an instruction needs to run safely: a well-formed network and
/// EXA, and in every host at least as many occupied squares as files there,
/// plus one for this EXA in its own host.
pub open spec fn fits_loose(st: ExaState) -> bool {
    &&& st.net.wf()
    &&& st.exa.host < st.net.hosts.len()
    &&& st.exa.lineage < st.net.spawn_counters.len()
    &&& forall|k: int|
        0 <= k < st.exa.instructions.len() ==> !(#[trigger] st.exa.instructions[k] is Mark)
            && !(st.exa.instructions[k] is Data)
    &&& forall|k: int|
        0 <= k < st.exa.labels.len() ==> #[trigger] st.exa.labels[k].1 <= st.exa.instructions.len()
    &&& match st.exa.file {
        Some(f) => st.exa.file_pointer <= f.contents.len(),
        None => st.exa.file_pointer == 0,
    }
    &&& st.exa.registers.t.permissions == Permissions::ReadWrite
    &&& st.exa.registers.x.permissions == Permissions::ReadWrite
    &&& forall|h: int|
        0 <= h < st.net.hosts.len() ==> #[trigger] st.net.hosts[h].occupied >= st.net.hosts[h].files.len()
            + (if h == st.exa.host {
            1int
        } else {
            0int
        })
}

pub open spec fn fits(st: ExaState) -> bool {
    &&& fits_loose(st)
    &&& st.exa.wf()
}

// ---------------------------------------------------------------------------
// Errors
// ---------------------------------------------------------------------------

pub open spec fn fatal(msg: &'static str) -> ExaError {
    ExaError::Fatal(msg)
}

// ---------------------------------------------------------------------------
// Numbers
// ---------------------------------------------------------------------------

pub open spec fn clamp(v: int, lo: int, hi: int) -> int {
    if v > hi {
        hi
    } else if v < lo {
        lo
    } else {
        v
    }
}

/// Division rounding towards zero, as Rust's `/` does.
pub open spec fn div_toward_zero(x: int, y: int) -> int {
    let q = abs(x) / abs(y);
    if (x < 0) != (y < 0) {
        -q
    } else {
        q
    }
}

/// Remainder with the sign of the dividend, as Rust's `%` does.
pub open spec fn rem_toward_zero(x: int, y: int) -> int {
    let r = abs(x) % abs(y);
    if x < 0 {
        -r
    } else {
        r
    }
}

pub open spec fn abs(x: int) -> int {
    if x < 0 {
        -x
    } else {
        x
    }
}

/// MODI: the remainder, moved into the divisor's direction when it is negative.
pub open spec fn modi_value(x: int, y: int) -> int {
    let r = rem_toward_zero(x, y);
    if r < 0 {
        r + y
    } else {
        r
    }
}

/// The decimal digits of `n`, most significant first.
pub open spec fn digits_of(n: nat) -> Seq<u32>
    decreases n,
{
    if n < 10 {
        seq![n as u32]
    } else {
        digits_of(n / 10).push((n % 10) as u32)
    }
}

/// The digits of `|v|`, padded with leading zeros to at least four.
pub open spec fn padded_digits(v: int) -> Seq<u32> {
    let d = digits_of(abs(v) as nat);
    if d.len() < 4 {
        Seq::new((4 - d.len()) as nat, |i: int| 0u32) + d
    } else {
        d
    }
}

pub open spec fn pow10(n: nat) -> nat
    decreases n,
{
    if n == 0 {
        1
    } else {
        10 * pow10((n - 1) as nat)
    }
}

/// The part of a SWIZ result that mask digit `idx` contributes: digit `m` (1 to
/// 4) of the mask picks the `m`th digit of the input, counted from the ones.
pub open spec fn swiz_term(in_rev: Seq<u32>, mask: Seq<u32>, idx: int) -> int {
    let m = mask[idx];
    if 1 <= m <= 4 {
        pow10(abs(idx - 3) as nat) * in_rev[m - 1]
    } else {
        0
    }
}

pub open spec fn swiz_sum(in_rev: Seq<u32>, mask: Seq<u32>, n: int) -> int
    decreases n,
{
    if n <= 0 {
        0
    } else {
        swiz_sum(in_rev, mask, n - 1) + swiz_term(in_rev, mask, n - 1)
    }
}

/// SWIZ: digits of the input rearranged by the mask; negative when exactly one
/// of input and mask is.
pub open spec fn swiz_value(input: int, mask: int) -> int {
    let md = padded_digits(mask);
    let total = swiz_sum(padded_digits(input).reverse(), md, md.len() as int);
    if (input < 0) != (mask < 0) {
        -total
    } else {
        total
    }
}

// ---------------------------------------------------------------------------
// Registers
// ---------------------------------------------------------------------------

/// Where a register name leads: one of the EXA's own registers, or a hardware
/// register of the current host (by its position there).
pub enum Slot {
    X,
    T,
    Gx,
    Gy,
    Gz,
    Gp,
    Ci,
    Co,
    Hardware(int),
}

pub open spec fn exa_slot(name: Seq<char>) -> Option<Slot> {
    if name == seq!['x'] {
        Some(Slot::X)
    } else if name == seq!['t'] {
        Some(Slot::T)
    } else if name == seq!['g', 'x'] {
        Some(Slot::Gx)
    } else if name == seq!['g', 'y'] {
        Some(Slot::Gy)
    } else if name == seq!['g', 'z'] {
        Some(Slot::Gz)
    } else if name == seq!['g', 'p'] {
        Some(Slot::Gp)
    } else if name == seq!['c', 'i'] {
        Some(Slot::Ci)
    } else if name == seq!['c', 'o'] {
        Some(Slot::Co)
    } else {
        None
    }
}

/// Names starting with `#` are hardware registers of the current host; others
/// are the EXA's own; both are matched without case.
pub open spec fn resolve(st: ExaState, r: Seq<char>) -> Result<Slot, ExaError> {
    if r.len() > 0 && r[0] == '#' {
        match find_key(here(st).registers, lower_chars(r)) {
            Some(i) => Ok(Slot::Hardware(i)),
            None => Err(fatal("attempt to access unknown hardware register")),
        }
    } else {
        match exa_slot(lower_chars(r)) {
            Some(s) => Ok(s),
            None => Err(fatal("attempted to access unknown exa register")),
        }
    }
}

pub open spec fn slot_get(st: ExaState, s: Slot) -> Register {
    let r = st.exa.registers;
    match s {
        Slot::X => r.x,
        Slot::T => r.t,
        Slot::Gx => r.gx,
        Slot::Gy => r.gy,
        Slot::Gz => r.gz,
        Slot::Gp => r.gp,
        Slot::Ci => r.ci,
        Slot::Co => r.co,
        Slot::Hardware(i) => here(st).registers[i].1,
    }
}

pub open spec fn set_value(r: Register, v: i32) -> Register {
    Register { value: v, ..r }
}

pub open spec fn with_registers(st: ExaState, regs: Registers) -> ExaState {
    with_exa(st, SpecExa { registers: regs, ..st.exa })
}

pub open spec fn slot_set(st: ExaState, s: Slot, v: i32) -> ExaState {
    let r = st.exa.registers;
    match s {
        Slot::X => with_registers(st, Registers { x: set_value(r.x, v), ..r }),
        Slot::T => with_registers(st, Registers { t: set_value(r.t, v), ..r }),
        Slot::Gx => with_registers(st, Registers { gx: set_value(r.gx, v), ..r }),
        Slot::Gy => with_registers(st, Registers { gy: set_value(r.gy, v), ..r }),
        Slot::Gz => with_registers(st, Registers { gz: set_value(r.gz, v), ..r }),
        Slot::Gp => with_registers(st, Registers { gp: set_value(r.gp, v), ..r }),
        Slot::Ci => with_registers(st, Registers { ci: set_value(r.ci, v), ..r }),
        Slot::Co => with_registers(st, Registers { co: set_value(r.co, v), ..r }),
        Slot::Hardware(i) => {
            let h = here(st);
            let e = h.registers[i];
            with_here(st, SpecHost { registers: h.registers.update(i, (e.0, set_value(e.1, v))), ..h })
        },
    }
}

/// The range a write to the named register is clamped to, if any.
pub open spec fn write_limits(r: Seq<char>) -> Option<(int, int)> {
    if r == seq!['g', 'x'] {
        Some((-10, 120))
    } else if r == seq!['g', 'y'] {
        Some((-10, 100))
    } else if r == seq!['g', 'z'] {
        Some((-9, 9))
    } else if r == seq!['#', 's', 'q', 'r', '0'] || r == seq!['#', 's', 'q', 'r', '1'] || r
        == seq!['#', 't', 'r', 'i', '0'] || r == seq!['#', 'n', 's', 'e', '0'] {
        Some((0, 99))
    } else {
        None
    }
}

pub open spec fn limited(r: Seq<char>, v: i32) -> i32 {
    match write_limits(r) {
        Some((lo, hi)) => clamp(v as int, lo, hi) as i32,
        None => v,
    }
}

pub open spec fn is_m_name(r: Seq<char>) -> bool {
    r == seq!['m']
}

pub open spec fn is_f_name(r: Seq<char>) -> bool {
    r == seq!['f']
}

pub open spec fn is_gp_name(r: Seq<char>) -> bool {
    r == seq!['g', 'p']
}

// ---------------------------------------------------------------------------
// Message bus
// ---------------------------------------------------------------------------

/// The bus the EXA uses: the global one, or its host's in local mode.
pub open spec fn current_bus(st: ExaState) -> SpecBus {
    match st.exa.mode {
        Mode::Global => st.net.bus,
        Mode::Local => here(st).bus,
    }
}

pub open spec fn with_current_bus(st: ExaState, b: SpecBus) -> ExaState {
    match st.exa.mode {
        Mode::Global => ExaState { net: SpecNetwork { bus: b, ..st.net }, ..st },
        Mode::Local => with_here(st, SpecHost { bus: b, ..here(st) }),
    }
}

/// Reading M: the oldest readable message; the EXA notes its sender, who may
/// then continue.
pub open spec fn read_bus(st: ExaState) -> (ExaState, Result<i32, ExaError>) {
    let (b, r) = current_bus(st).read_outcome();
    let st1 = with_current_bus(st, b);
    match r {
        Ok((sender, v)) => (with_exa(st1, SpecExa { unfreeze_exa: Some(sender), ..st1.exa }), Ok(v)),
        Err(e) => (st1, Err(e)),
    }
}

/// Writing M: the message is queued and the writer freezes.
pub open spec fn write_bus(st: ExaState, v: i32) -> (ExaState, Result<(), ExaError>) {
    (with_current_bus(st, current_bus(st).after_write(st.exa.name, v)), Err(write_freeze()))
}

// ---------------------------------------------------------------------------
// Files
// ---------------------------------------------------------------------------

pub open spec fn no_file() -> ExaError {
    fatal("no file is held")
}

pub open spec fn with_file(st: ExaState, f: Option<SpecFile>, p: nat) -> ExaState {
    with_exa(st, SpecExa { file: f, file_pointer: p, ..st.exa })
}

/// Reading F: the value at the file pointer, which then moves on.
pub open spec fn read_file(st: ExaState) -> (ExaState, Result<i32, ExaError>) {
    match st.exa.file {
        None => (st, Err(no_file())),
        Some(f) => if st.exa.file_pointer >= f.contents.len() {
            (st, Err(fatal("cannot read from file at append position")))
        } else {
            (
                with_file(st, Some(f), st.exa.file_pointer + 1),
                Ok(f.contents[st.exa.file_pointer as int]),
            )
        },
    }
}

/// Writing F: overwrites the value at the pointer, or appends at the end; the
/// pointer moves on.
pub open spec fn write_file(st: ExaState, v: i32) -> (ExaState, Result<(), ExaError>) {
    match st.exa.file {
        None => (st, Err(no_file())),
        Some(f) => {
            let p = st.exa.file_pointer;
            let contents = if p == f.contents.len() {
                f.contents.push(v)
            } else {
                f.contents.update(p as int, v)
            };
            (with_file(st, Some(SpecFile { contents, ..f }), p + 1), Ok(()))
        },
    }
}

// ---------------------------------------------------------------------------
// Sprite
// ---------------------------------------------------------------------------

/// Writing GP: for `XABC` with `X` >= 0, `A` picks the operation (0 clear,
/// 1 set, 2 toggle the pixel at column `B`, row `C`; 3 loads built-in sprite
/// `BC`); negative values do nothing.
pub open spec fn write_sprite(st: ExaState, v: i32) -> (ExaState, Result<(), ExaError>) {
    if v < 0 {
        (st, Ok(()))
    } else {
        let d = padded_digits(v as int);
        let s = st.exa.sprite;
        let idx = d[2] + d[3] * 10;
        let sprite = if d[1] == 0 {
            s.update(idx, false)
        } else if d[1] == 1 {
            s.update(idx, true)
        } else if d[1] == 2 {
            s.update(idx, !s[idx])
        } else if d[1] == 3 {
            builtin_pixels((d[2] * 10 + d[3]) as u32)
        } else {
            s
        };
        (with_exa(st, SpecExa { sprite, ..st.exa }), Ok(()))
    }
}

// ---------------------------------------------------------------------------
// Reading and writing registers
// ---------------------------------------------------------------------------

#[verifier::opaque]
pub open spec fn read_register(st: ExaState, r: Seq<char>) -> (ExaState, Result<i32, ExaError>) {
    if is_m_name(r) {
        read_bus(st)
    } else if is_f_name(r) {
        read_file(st)
    } else {
        match resolve(st, r) {
            Err(e) => (st, Err(e)),
            Ok(s) => {
                let g = slot_get(st, s);
                match g.permissions {
                    Permissions::Denied => (
                        st,
                        Err(fatal("attempt to read from deactivated register")),
                    ),
                    Permissions::WriteOnly => (
                        st,
                        Err(fatal("attempt to read from write-only register")),
                    ),
                    _ => (st, Ok(g.value)),
                }
            },
        }
    }
}

#[verifier::opaque]
pub open spec fn write_register(st: ExaState, r: Seq<char>, v: i32) -> (
    ExaState,
    Result<(), ExaError>,
) {
    if is_m_name(r) {
        write_bus(st, v)
    } else if is_f_name(r) {
        write_file(st, v)
    } else if is_gp_name(r) {
        write_sprite(st, v)
    } else {
        match resolve(st, r) {
            Err(e) => (st, Err(e)),
            Ok(s) => {
                let g = slot_get(st, s);
                match g.permissions {
                    Permissions::Denied => (st, Err(fatal("attempt to write to deactivated register"))),
                    Permissions::ReadOnly => (st, Err(fatal("attempt to write to read-only register"))),
                    _ => (slot_set(st, s, limited(r, v)), Ok(())),
                }
            },
        }
    }
}

pub open spec fn read_target(st: ExaState, t: SpecTarget) -> (ExaState, Result<i32, ExaError>) {
    match t {
        SpecTarget::Literal(v) => (st, Ok(v)),
        SpecTarget::Register(r) => read_register(st, r),
    }
}

/// Storing a result: registers take it, literals cannot.
pub open spec fn store(st: ExaState, dest: SpecTarget, v: i32) -> (ExaState, Result<(), ExaError>) {
    match dest {
        SpecTarget::Literal(_) => (st, Err(fatal("cannot write to literal"))),
        SpecTarget::Register(r) => write_register(st, r, v),
    }
}

// ---------------------------------------------------------------------------
// Instructions
// ---------------------------------------------------------------------------

pub enum ArithOp {
    Add,
    Sub,
    Mul,
}

pub open spec fn arith_value(op: ArithOp, x: int, y: int) -> int {
    match op {
        ArithOp::Add => x + y,
        ArithOp::Sub => x - y,
        ArithOp::Mul => x * y,
    }
}

/// ADDI, SUBI, MULI: left is read, then right; the result, clamped to
/// -9999..=9999, is stored.
#[verifier::opaque]
pub open spec fn arith(st: ExaState, op: ArithOp, a: SpecTarget, b: SpecTarget, d: SpecTarget) -> (
    ExaState,
    Result<(), ExaError>,
) {
    let (s1, ra) = read_target(st, a);
    match ra {
        Err(e) => (s1, Err(e)),
        Ok(x) => {
            let (s2, rb) = read_target(s1, b);
            match rb {
                Err(e) => (s2, Err(e)),
                Ok(y) => store(s2, d, clamp(arith_value(op, x as int, y as int), -9999, 9999) as i32),
            }
        },
    }
}

/// DIVI, MODI: the divisor is read first and must not be zero.
#[verifier::opaque]
pub open spec fn divide(st: ExaState, modulo: bool, a: SpecTarget, b: SpecTarget, d: SpecTarget) -> (
    ExaState,
    Result<(), ExaError>,
) {
    let (s1, rb) = read_target(st, b);
    match rb {
        Err(e) => (s1, Err(e)),
        Ok(y) => if y == 0 {
            (s1, Err(fatal("divide by zero")))
        } else {
            let (s2, ra) = read_target(s1, a);
            match ra {
                Err(e) => (s2, Err(e)),
                Ok(x) => {
                    let v = if modulo {
                        modi_value(x as int, y as int)
                    } else {
                        div_toward_zero(x as int, y as int)
                    };
                    store(s2, d, clamp(v, -9999, 9999) as i32)
                },
            }
        },
    }
}

#[verifier::opaque]
pub open spec fn swiz(st: ExaState, a: SpecTarget, m: SpecTarget, d: SpecTarget) -> (
    ExaState,
    Result<(), ExaError>,
) {
    let (s1, ra) = read_target(st, a);
    match ra {
        Err(e) => (s1, Err(e)),
        Ok(x) => {
            let (s2, rm) = read_target(s1, m);
            match rm {
                Err(e) => (s2, Err(e)),
                Ok(y) => store(s2, d, swiz_value(x as int, y as int) as i32),
            }
        },
    }
}

/// The program counter set so that the increment that follows lands on `pos`
/// (wrapping as `usize` arithmetic does).
pub open spec fn before(pos: nat) -> nat {
    if pos == 0 {
        usize::MAX as nat
    } else {
        (pos - 1) as nat
    }
}

#[verifier::opaque]
pub open spec fn jump(st: ExaState, label: Seq<char>) -> (ExaState, Result<(), ExaError>) {
    match label_position(st.exa.labels, label) {
        Some(pos) => (with_exa(st, SpecExa { pc: before(pos), ..st.exa }), Ok(())),
        None => (st, Err(fatal("unknown label"))),
    }
}

/// TJMP jumps when T is not zero; FJMP when it is.
#[verifier::opaque]
pub open spec fn cond_jump(st: ExaState, label: Seq<char>, when_true: bool) -> (
    ExaState,
    Result<(), ExaError>,
) {
    let (s1, r) = read_register(st, seq!['t']);
    match r {
        Err(e) => (s1, Err(e)),
        Ok(t) => if (t != 0) == when_true {
            jump(s1, label)
        } else {
            (s1, Ok(()))
        },
    }
}

pub open spec fn compare(c: Comparator, l: i32, r: i32) -> bool {
    match c {
        Comparator::Equal => l == r,
        Comparator::GreaterThan => l > r,
        Comparator::LessThan => l < r,
    }
}

#[verifier::opaque]
pub open spec fn test_op(st: ExaState, a: SpecTarget, c: Comparator, b: SpecTarget) -> (
    ExaState,
    Result<(), ExaError>,
) {
    let (s1, ra) = read_target(st, a);
    match ra {
        Err(e) => (s1, Err(e)),
        Ok(l) => {
            let (s2, rb) = read_target(s1, b);
            match rb {
                Err(e) => (s2, Err(e)),
                Ok(r) => write_register(s2, seq!['t'], if compare(c, l, r) { 1 } else { 0 }),
            }
        },
    }
}

/// The replica REPL creates: same program, registers (but GP and CI), mode,
/// host and sprite; it starts at `pc`, holds no file, and is named after its
/// family with the family counter's number.
pub open spec fn replica(e: SpecExa, num: u64, pc: nat) -> SpecExa {
    SpecExa {
        base_name: e.base_name,
        spawn_id: num,
        name: e.base_name + seq![':'] + nat_decimal(num as nat),
        registers: e.registers.for_replica(),
        unfreeze_exa: None,
        lineage: e.lineage,
        pc,
        instructions: e.instructions,
        labels: e.labels,
        mode: e.mode,
        host: e.host,
        error: None,
        file_pointer: 0,
        file: None,
        sprite: e.sprite,
        ran_test_mrd_this_cycle: false,
        waiting: false,
    }
}

#[verifier::opaque]
pub open spec fn repl_at(st: ExaState, pc: nat) -> (ExaState, Result<(), ExaError>) {
    let (h, r) = here(st).reserve();
    if r is Err {
        (st, r)
    } else {
        let num = st.net.spawn_counters[st.exa.lineage as int];
        let st1 = with_here(st, h);
        (
            ExaState {
                net: SpecNetwork {
                    spawn_counters: st1.net.spawn_counters.update(
                        st.exa.lineage as int,
                        next_spawn_id(num),
                    ),
                    spawned: st1.net.spawned.push(replica(st.exa, num, pc)),
                    ..st1.net
                },
                ..st1
            },
            Ok(()),
        )
    }
}

#[verifier::opaque]
pub open spec fn repl(st: ExaState, label: Seq<char>) -> (ExaState, Result<(), ExaError>) {
    match label_position(st.exa.labels, label) {
        Some(pos) => repl_at(st, pos),
        None => (st, Err(fatal("unknown label"))),
    }
}

/// Every link of a host that leads to host `to`, marked as traversed.
pub open spec fn mark_links_to(links: Seq<(i32, crate::vm::HostLink)>, to: nat) -> Seq<(i32, crate::vm::HostLink)> {
    Seq::new(
        links.len(),
        |k: int|
            if links[k].1.to_host == to {
                (links[k].0, crate::vm::HostLink { traversed_this_cycle: true, ..links[k].1 })
            } else {
                links[k]
            },
    )
}

/// LINK: through the link with that id, if it exists, was not used this cycle
/// and the far host has room; the link and the ones back are used up for the cycle.
#[verifier::opaque]
pub open spec fn link(st: ExaState, t: SpecTarget) -> (ExaState, Result<(), ExaError>) {
    let (s1, r) = read_target(st, t);
    match r {
        Err(e) => (s1, Err(e)),
        Ok(id) => {
            let from = s1.exa.host;
            let src = s1.net.hosts[from as int];
            match find_key(src.links, id) {
                None => (s1, Err(fatal("invalid link id"))),
                Some(k) => {
                    let l = src.links[k].1;
                    if l.traversed_this_cycle {
                        (s1, Err(ExaError::Blocking("link bandwidth exceeded")))
                    } else {
                        let to = l.to_host;
                        let dst = s1.net.hosts[to as int];
                        if dst.capacity <= dst.occupied {
                            (s1, Err(ExaError::Blocking("destination host is full")))
                        } else {
                            let dst1 = SpecHost {
                                occupied: dst.occupied + 1,
                                links: mark_links_to(dst.links, from),
                                ..dst
                            };
                            let hosts1 = s1.net.hosts.update(to as int, dst1);
                            let src1 = hosts1[from as int];
                            let src2 = SpecHost {
                                links: src1.links.update(
                                    k,
                                    (id, crate::vm::HostLink { traversed_this_cycle: true, ..l }),
                                ),
                                occupied: (src1.occupied - 1) as nat,
                                ..src1
                            };
                            (
                                ExaState {
                                    exa: SpecExa { host: to as nat, ..s1.exa },
                                    net: SpecNetwork { hosts: hosts1.update(from as int, src2), ..s1.net },
                                },
                                Ok(()),
                            )
                        }
                    }
                },
            }
        },
    }
}

#[verifier::opaque]
pub open spec fn make_file(st: ExaState) -> (ExaState, Result<(), ExaError>) {
    if st.exa.file is Some {
        (st, Err(fatal("cannot grab a second file")))
    } else {
        let id = st.net.file_counter;
        (
            ExaState {
                exa: SpecExa { file: Some(SpecFile { id, contents: Seq::empty() }), ..st.exa },
                net: SpecNetwork { file_counter: next_file_id(id), ..st.net },
            },
            Ok(()),
        )
    }
}

#[verifier::opaque]
pub open spec fn drop_file(st: ExaState) -> (ExaState, Result<(), ExaError>) {
    match st.exa.file {
        None => (st, Err(no_file())),
        Some(f) => {
            let (h, r) = here(st).reserve();
            if r is Err {
                (st, r)
            } else {
                (
                    with_file(with_here(st, SpecHost { files: h.files.push(f), ..h }), None, 0),
                    Ok(()),
                )
            }
        },
    }
}

#[verifier::opaque]
pub open spec fn wipe_file(st: ExaState) -> (ExaState, Result<(), ExaError>) {
    match st.exa.file {
        None => (st, Err(no_file())),
        Some(_) => (with_file(st, None, 0), Ok(())),
    }
}

/// Index of the first file with the given id.
pub open spec fn find_file(files: Seq<SpecFile>, id: i32) -> Option<int>
    decreases files.len(),
{
    if files.len() == 0 {
        None
    } else {
        match find_file(files.drop_last(), id) {
            Some(i) => Some(i),
            None => if files.last().id == id {
                Some(files.len() - 1)
            } else {
                None
            },
        }
    }
}

#[verifier::opaque]
pub open spec fn grab_file(st: ExaState, t: SpecTarget) -> (ExaState, Result<(), ExaError>) {
    let (s1, r) = read_target(st, t);
    match r {
        Err(e) => (s1, Err(e)),
        Ok(id) => if s1.exa.file is Some {
            (s1, Err(fatal("cannot grab a second file")))
        } else {
            let h = here(s1);
            match find_file(h.files, id) {
                None => (s1, Err(fatal("file id not found"))),
                Some(k) => (
                    with_exa(
                        with_here(
                            s1,
                            SpecHost {
                                files: h.files.remove(k),
                                occupied: (h.occupied - 1) as nat,
                                ..h
                            },
                        ),
                        SpecExa { file: Some(h.files[k]), ..s1.exa },
                    ),
                    Ok(()),
                ),
            }
        },
    }
}

/// SEEK: the pointer moves by the amount, staying between the start and the
/// end of the file.
#[verifier::opaque]
pub open spec fn seek_file(st: ExaState, t: SpecTarget) -> (ExaState, Result<(), ExaError>) {
    if st.exa.file is None {
        (st, Err(no_file()))
    } else {
        let (s1, r) = read_target(st, t);
        match r {
            Err(e) => (s1, Err(e)),
            Ok(amount) => {
                let f = s1.exa.file.unwrap();
                let p = clamp(s1.exa.file_pointer + amount, 0, f.contents.len() as int);
                (with_file(s1, Some(f), p as nat), Ok(()))
            },
        }
    }
}

#[verifier::opaque]
pub open spec fn void_file(st: ExaState) -> (ExaState, Result<(), ExaError>) {
    match st.exa.file {
        None => (st, Err(no_file())),
        Some(f) => if st.exa.file_pointer >= f.contents.len() {
            (st, Err(fatal("cannot void from file at append position")))
        } else {
            (
                with_file(
                    st,
                    Some(SpecFile { contents: f.contents.remove(st.exa.file_pointer as int), ..f }),
                    st.exa.file_pointer,
                ),
                Ok(()),
            )
        },
    }
}

#[verifier::opaque]
pub open spec fn file_command(st: ExaState, t: SpecTarget) -> (ExaState, Result<(), ExaError>) {
    match st.exa.file {
        None => (st, Err(no_file())),
        Some(f) => store(st, t, f.id),
    }
}

#[verifier::opaque]
pub open spec fn test_eof(st: ExaState) -> (ExaState, Result<(), ExaError>) {
    match st.exa.file {
        None => (st, Err(no_file())),
        Some(f) => write_register(
            st,
            seq!['t'],
            if st.exa.file_pointer == f.contents.len() {
                1
            } else {
                0
            },
        ),
    }
}

/// RAND: some value between the bounds, inclusive; `draw` says which.
#[verifier::opaque]
pub open spec fn rand(st: ExaState, lo: SpecTarget, hi: SpecTarget, d: SpecTarget, draw: nat) -> (
    ExaState,
    Result<(), ExaError>,
) {
    let (s1, rl) = read_target(st, lo);
    match rl {
        Err(e) => (s1, Err(e)),
        Ok(l) => {
            let (s2, rh) = read_target(s1, hi);
            match rh {
                Err(e) => (s2, Err(e)),
                Ok(h) => if l > h {
                    (s2, Err(fatal("invalid rand range")))
                } else {
                    store(s2, d, (l + (draw % ((h - l + 1) as nat))) as i32)
                },
            }
        },
    }
}

/// One instruction, run on the EXA and its network.
pub open spec fn execute(st: ExaState, i: SpecInstruction, draw: nat) -> (
    ExaState,
    Result<(), ExaError>,
) {
    match i {
        SpecInstruction::Link(t) => link(st, t),
        SpecInstruction::Copy(s, d) => {
            let (s1, r) = read_target(st, s);
            match r {
                Err(e) => (s1, Err(e)),
                Ok(v) => store(s1, d, v),
            }
        },
        SpecInstruction::Addi(a, b, d) => arith(st, ArithOp::Add, a, b, d),
        SpecInstruction::Subi(a, b, d) => arith(st, ArithOp::Sub, a, b, d),
        SpecInstruction::Muli(a, b, d) => arith(st, ArithOp::Mul, a, b, d),
        SpecInstruction::Divi(a, b, d) => divide(st, false, a, b, d),
        SpecInstruction::Modi(a, b, d) => divide(st, true, a, b, d),
        SpecInstruction::Swiz(a, m, d) => swiz(st, a, m, d),
        SpecInstruction::Jump(l) => jump(st, l),
        SpecInstruction::Tjmp(l) => cond_jump(st, l, true),
        SpecInstruction::Fjmp(l) => cond_jump(st, l, false),
        SpecInstruction::Test(a, c, b) => test_op(st, a, c, b),
        SpecInstruction::Repl(l) => repl(st, l),
        SpecInstruction::Mode => (
            with_exa(
                st,
                SpecExa {
                    mode: match st.exa.mode {
                        Mode::Local => Mode::Global,
                        Mode::Global => Mode::Local,
                    },
                    ..st.exa
                },
            ),
            Ok(()),
        ),
        SpecInstruction::VoidM => {
            let (s1, r) = read_register(st, seq!['m']);
            match r {
                Err(e) => (s1, Err(e)),
                Ok(_) => (s1, Ok(())),
            }
        },
        SpecInstruction::Make => make_file(st),
        SpecInstruction::Drop => drop_file(st),
        SpecInstruction::Wipe => wipe_file(st),
        SpecInstruction::Grab(t) => grab_file(st, t),
        SpecInstruction::Halt => (st, Err(fatal("explicit halt"))),
        SpecInstruction::Seek(t) => seek_file(st, t),
        SpecInstruction::VoidF => void_file(st),
        SpecInstruction::File(t) => file_command(st, t),
        SpecInstruction::TestEof => test_eof(st),
        SpecInstruction::Rand(lo, hi, d) => rand(st, lo, hi, d, draw),
        SpecInstruction::Wait => (
            with_exa(st, SpecExa { waiting: true, ..st.exa }),
            Err(ExaError::Freezing("waiting")),
        ),
        // NOOP; HOST (keywords are unsupported); KILL and TEST MRD, which the
        // VM runs itself; MARK and DATA, which spawning takes out of programs.
        _ => (st, Ok(())),
    }
}

pub open spec fn out_of_instructions() -> ExaError {
    fatal("out of instructions")
}

/// One cycle of an EXA: the instruction at the program counter runs; on
/// success the counter moves on (and running past the end is fatal); on
/// failure the error is recorded and the counter stays.
pub open spec fn cycle(st: ExaState, draw: nat) -> ExaState {
    let st0 = with_exa(st, SpecExa { unfreeze_exa: None, ..st.exa });
    if st0.exa.pc >= st0.exa.instructions.len() {
        with_exa(st0, SpecExa { error: Some(out_of_instructions()), ..st0.exa })
    } else {
        let (s1, r) = execute(st0, st0.exa.instructions[st0.exa.pc as int], draw);
        match r {
            Err(e) => with_exa(s1, SpecExa { error: Some(e), ..s1.exa }),
            Ok(_) => {
                let pc = if s1.exa.pc == usize::MAX {
                    0nat
                } else {
                    s1.exa.pc + 1
                };
                let error = if pc >= s1.exa.instructions.len() {
                    Some(out_of_instructions())
                } else {
                    None
                };
                with_exa(s1, SpecExa { pc, error, ..s1.exa })
            },
        }
    }
}

/// Releasing a frozen EXA: its error clears and it moves past the instruction
/// that froze it.
pub open spec fn unfrozen(e: SpecExa) -> SpecExa {
    let pc = e.pc + 1;
    SpecExa {
        pc,
        error: if pc >= e.instructions.len() {
            Some(out_of_instructions())
        } else {
            None
        },
        ..e
    }
}

/// TEST MRD, run by the VM after all other EXAs: T becomes 1 when a message
/// is waiting on the bus in use, else 0.
pub open spec fn test_mrd(st: ExaState) -> ExaState {
    write_register(st, seq!['t'], if current_bus(st).messages.len() > 0 { 1 } else { 0 }).0
}

} // verus!
