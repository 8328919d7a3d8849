//! What every step of an instruction keeps: the conditions under which the
//! next step can run safely.

use vstd::prelude::*;

use super::semantics::{
    current_bus, fits_loose, here, is_f_name, is_gp_name, is_m_name, limited, read_bus,
    read_register, read_target, resolve, slot_set, store, with_current_bus, write_bus,
    write_register, ExaState, Slot, arith, divide, swiz, jump, cond_jump, test_op, repl, repl_at,
    replica, make_file, drop_file, wipe_file, grab_file, seek_file, void_file, file_command,
    test_eof, rand, link, execute, mark_links_to, find_file,
};
use super::{label_position, Mode, SpecExa};
use super::semantics::{before, cycle, out_of_instructions, with_exa};
use crate::vm::instruction::SpecInstruction;
use crate::vm::SpecNetwork;
use crate::text::lower_chars;
use crate::vm::bus::SpecBus;
use crate::vm::instruction::SpecTarget;
use crate::vm::lemma_find_key;

verus! {

/// No bus that had used up its read for this cycle gets it back.
pub open spec fn no_reopen(a: SpecNetwork, b: SpecNetwork) -> bool {
    &&& (b.bus.read_available ==> a.bus.read_available)
    &&& forall|h: int| 0 <= h < a.hosts.len() ==> (#[trigger] b.hosts[h].bus.read_available ==> a.hosts[h].bus.read_available)
}

/// Some bus used up its read for this cycle.
pub open spec fn flipped(a: SpecNetwork, b: SpecNetwork) -> bool {
    ||| (a.bus.read_available && !b.bus.read_available)
    ||| exists|h: int| 0 <= h < a.hosts.len() && #[trigger] a.hosts[h].bus.read_available && !b.hosts[h].bus.read_available
}

/// Reads only ever use up buses, and an EXA notes a sender only by reading.
pub open spec fn bus_trace(a: ExaState, b: ExaState) -> bool {
    &&& no_reopen(a.net, b.net)
    &&& (b.exa.unfreeze_exa is Some ==> a.exa.unfreeze_exa is Some || flipped(a.net, b.net))
}

pub proof fn lemma_bus_trace_trans(a: ExaState, b: ExaState, c: ExaState)
    requires
        bus_trace(a, b),
        bus_trace(b, c),
        a.net.hosts.len() == b.net.hosts.len(),
    ensures
        bus_trace(a, c),
{
    if flipped(a.net, b.net) && !(a.net.bus.read_available && !b.net.bus.read_available) {
        let h = choose|h: int| 0 <= h < a.net.hosts.len() && #[trigger] a.net.hosts[h].bus.read_available && !b.net.hosts[h].bus.read_available;
        assert(!c.net.hosts[h].bus.read_available);
    }
    if flipped(b.net, c.net) && !(b.net.bus.read_available && !c.net.bus.read_available) {
        let h = choose|h: int| 0 <= h < b.net.hosts.len() && #[trigger] b.net.hosts[h].bus.read_available && !c.net.hosts[h].bus.read_available;
        assert(a.net.hosts[h].bus.read_available);
    }
}

/// The parts of an EXA that reading and writing registers never change, and the
/// safety conditions, hold after the step as before it.
pub open spec fn keeps(a: ExaState, b: ExaState) -> bool {
    &&& bus_trace(a, b)
    &&& fits_loose(b)
    &&& b.exa.instructions == a.exa.instructions
    &&& b.exa.labels == a.exa.labels
    &&& b.exa.pc == a.exa.pc
    &&& b.exa.host == a.exa.host
    &&& b.exa.lineage == a.exa.lineage
    &&& b.exa.mode == a.exa.mode
    &&& b.exa.name == a.exa.name
    &&& b.exa.base_name == a.exa.base_name
    &&& b.exa.spawn_id == a.exa.spawn_id
    &&& b.exa.error == a.exa.error
    &&& b.exa.waiting == a.exa.waiting
    &&& b.exa.ran_test_mrd_this_cycle == a.exa.ran_test_mrd_this_cycle
    &&& b.net.hosts.len() == a.net.hosts.len()
    &&& b.net.spawn_counters == a.net.spawn_counters
    &&& b.net.spawned == a.net.spawned
    &&& b.net.file_counter == a.net.file_counter
    &&& (b.exa.file is Some <==> a.exa.file is Some)
    &&& forall|h: int| 0 <= h < a.net.hosts.len() ==> (#[trigger] b.net.hosts[h]).files == a.net.hosts[h].files
        && b.net.hosts[h].occupied == a.net.hosts[h].occupied
        && b.net.hosts[h].capacity == a.net.hosts[h].capacity
        && b.net.hosts[h].links == a.net.hosts[h].links
}

pub proof fn lemma_keeps_trans(a: ExaState, b: ExaState, c: ExaState)
    requires
        keeps(a, b),
        keeps(b, c),
    ensures
        keeps(a, c),
{
    lemma_bus_trace_trans(a, b, c);
    assert forall|h: int| 0 <= h < a.net.hosts.len() implies (#[trigger] c.net.hosts[h]).files
        == a.net.hosts[h].files && c.net.hosts[h].occupied == a.net.hosts[h].occupied
        && c.net.hosts[h].capacity == a.net.hosts[h].capacity && c.net.hosts[h].links
        == a.net.hosts[h].links by {
        assert(b.net.hosts[h].files == a.net.hosts[h].files);
    }
}

/// Replacing the current host's bus by a well-formed one keeps everything else.
pub proof fn lemma_with_bus_keeps(st: ExaState, b: SpecBus)
    requires
        fits_loose(st),
        b.wf(),
        b.read_available ==> current_bus(st).read_available,
    ensures
        keeps(st, with_current_bus(st, b)),
        !b.read_available && current_bus(st).read_available ==> flipped(st.net, with_current_bus(st, b).net),
{
    let s1 = with_current_bus(st, b);
    match st.exa.mode {
        Mode::Global => {},
        Mode::Local => {
            let h = st.exa.host as int;
            assert forall|k: int| 0 <= k < s1.net.hosts.len() implies #[trigger] s1.net.hosts[k].wf() by {
                assert(st.net.hosts[k].wf());
            }
            assert forall|k: int, j: int|
                0 <= k < s1.net.hosts.len() && 0 <= j < s1.net.hosts[k].links.len() implies #[trigger] s1.net.hosts[k].links[j].1.to_host
                < s1.net.hosts.len() by {
                assert(s1.net.hosts[k].links == st.net.hosts[k].links);
            }
            assert forall|k: int| 0 <= k < s1.net.hosts.len() implies #[trigger] s1.net.hosts[k].occupied
                >= s1.net.hosts[k].files.len() + (if k == s1.exa.host { 1int } else { 0int }) by {
                assert(s1.net.hosts[k].occupied == st.net.hosts[k].occupied);
            }
            if !b.read_available && current_bus(st).read_available {
                assert(st.net.hosts[h].bus.read_available && !s1.net.hosts[h].bus.read_available);
            }
        },
    }
}

pub proof fn lemma_read_bus_keeps(st: ExaState)
    requires
        fits_loose(st),
    ensures
        keeps(st, read_bus(st).0),
{
    let (b, r) = current_bus(st).read_outcome();
    assert(current_bus(st).wf()) by {
        if st.exa.mode == Mode::Local {
            assert(st.net.hosts[st.exa.host as int].wf());
        }
    }
    lemma_with_bus_keeps(st, b);
}

pub proof fn lemma_write_bus_keeps(st: ExaState, v: i32)
    requires
        fits_loose(st),
    ensures
        keeps(st, write_bus(st, v).0),
{
    assert(current_bus(st).wf()) by {
        if st.exa.mode == Mode::Local {
            assert(st.net.hosts[st.exa.host as int].wf());
        }
    }
    lemma_with_bus_keeps(st, current_bus(st).after_write(st.exa.name, v));
}

/// Changing one hardware register of the current host keeps everything else.
pub proof fn lemma_slot_set_keeps(st: ExaState, s: Slot, v: i32)
    requires
        fits_loose(st),
        s matches Slot::Hardware(i) ==> 0 <= i < here(st).registers.len(),
    ensures
        keeps(st, slot_set(st, s, v)),
{
    let s1 = slot_set(st, s, v);
    if let Slot::Hardware(i) = s {
        let h = st.exa.host as int;
        assert forall|k: int| 0 <= k < s1.net.hosts.len() implies #[trigger] s1.net.hosts[k].wf() by {
            assert(st.net.hosts[k].wf());
        }
        assert forall|k: int, j: int|
            0 <= k < s1.net.hosts.len() && 0 <= j < s1.net.hosts[k].links.len() implies #[trigger] s1.net.hosts[k].links[j].1.to_host
            < s1.net.hosts.len() by {
            assert(s1.net.hosts[k].links == st.net.hosts[k].links);
        }
        assert forall|k: int| 0 <= k < s1.net.hosts.len() implies #[trigger] s1.net.hosts[k].occupied
            >= s1.net.hosts[k].files.len() + (if k == s1.exa.host { 1int } else { 0int }) by {
            assert(s1.net.hosts[k].occupied == st.net.hosts[k].occupied);
        }
    }
}

pub proof fn lemma_resolve_in_bounds(st: ExaState, r: Seq<char>)
    requires
        fits_loose(st),
    ensures
        resolve(st, r) matches Ok(Slot::Hardware(i)) ==> 0 <= i < here(st).registers.len(),
{
    lemma_find_key(here(st).registers, lower_chars(r));
}

pub proof fn lemma_read_register_keeps(st: ExaState, r: Seq<char>)
    requires
        fits_loose(st),
    ensures
        keeps(st, read_register(st, r).0),
{
    reveal(read_register);
    if is_m_name(r) {
        lemma_read_bus_keeps(st);
    }
}

pub proof fn lemma_write_register_keeps(st: ExaState, r: Seq<char>, v: i32)
    requires
        fits_loose(st),
    ensures
        keeps(st, write_register(st, r, v).0),
{
    reveal(write_register);
    if is_m_name(r) {
        lemma_write_bus_keeps(st, v);
    } else if is_f_name(r) {
    } else if is_gp_name(r) {
    } else {
        lemma_resolve_in_bounds(st, r);
        if let Ok(s) = resolve(st, r) {
            lemma_slot_set_keeps(st, s, limited(r, v));
        }
    }
}

pub proof fn lemma_read_target_keeps(st: ExaState, t: SpecTarget)
    requires
        fits_loose(st),
    ensures
        keeps(st, read_target(st, t).0),
{
    match t {
        SpecTarget::Literal(_) => {},
        SpecTarget::Register(r) => lemma_read_register_keeps(st, r),
    }
}

pub proof fn lemma_store_keeps(st: ExaState, t: SpecTarget, v: i32)
    requires
        fits_loose(st),
    ensures
        keeps(st, store(st, t, v).0),
{
    match t {
        SpecTarget::Literal(_) => {},
        SpecTarget::Register(r) => lemma_write_register_keeps(st, r, v),
    }
}

/// An EXA that can live in the network: well formed, in a host that exists,
/// with a family counter that exists.
pub open spec fn exa_ok(e: SpecExa, net: SpecNetwork) -> bool {
    &&& e.wf()
    &&& e.host < net.hosts.len()
    &&& e.lineage < net.spawn_counters.len()
}

/// How many of the EXAs are in host `h`.
pub open spec fn count_in(exas: Seq<SpecExa>, h: int) -> nat
    decreases exas.len(),
{
    if exas.len() == 0 {
        0
    } else {
        count_in(exas.drop_last(), h) + if exas.last().host == h {
            1nat
        } else {
            0nat
        }
    }
}

/// The squares of host `h` taken by neither its files, nor this EXA, nor the
/// replicas waiting to join the VM: what no instruction changes.
pub open spec fn balance(st: ExaState, h: int) -> int {
    st.net.hosts[h].occupied - st.net.hosts[h].files.len() - (if st.exa.host == h {
        1int
    } else {
        0int
    }) - count_in(st.net.spawned, h)
}

/// What one instruction keeps: the safety conditions, the program, the
/// EXA's identity and error, the balance of every host, and the replicas
/// already waiting; new replicas can live in the network. A failed
/// instruction leaves the program counter; a successful one leaves it on an
/// instruction or just before the first.
pub open spec fn step_ok(a: ExaState, b: ExaState, ok: bool) -> bool {
    &&& bus_trace(a, b)
    &&& fits_loose(b)
    &&& b.net.hosts.len() == a.net.hosts.len()
    &&& b.net.spawn_counters.len() == a.net.spawn_counters.len()
    &&& b.exa.instructions == a.exa.instructions
    &&& b.exa.labels == a.exa.labels
    &&& b.exa.lineage == a.exa.lineage
    &&& b.exa.name == a.exa.name
    &&& b.exa.base_name == a.exa.base_name
    &&& b.exa.spawn_id == a.exa.spawn_id
    &&& b.exa.error == a.exa.error
    &&& (ok ==> b.exa.pc < b.exa.instructions.len() || b.exa.pc == usize::MAX)
    &&& (!ok ==> b.exa.pc == a.exa.pc)
    &&& forall|h: int| 0 <= h < a.net.hosts.len() ==> #[trigger] balance(b, h) == balance(a, h)
    &&& a.net.spawned.len() <= b.net.spawned.len()
    &&& forall|k: int| 0 <= k < a.net.spawned.len() ==> #[trigger] b.net.spawned[k] == a.net.spawned[k]
    &&& forall|k: int|
        a.net.spawned.len() <= k < b.net.spawned.len() ==> exa_ok(#[trigger] b.net.spawned[k], b.net)
            && b.net.spawned[k].error is None
}

pub proof fn lemma_keeps_step(a: ExaState, b: ExaState, ok: bool)
    requires
        keeps(a, b),
        a.exa.pc < a.exa.instructions.len(),
    ensures
        step_ok(a, b, ok),
{
    assert forall|h: int| 0 <= h < a.net.hosts.len() implies #[trigger] balance(b, h) == balance(a, h) by {
        assert(b.net.hosts[h].files == a.net.hosts[h].files);
    }
}

/// A step that keeps everything `keeps` speaks of is a safe step.
proof fn lemma_chain_step(st: ExaState, b: ExaState, ok: bool)
    requires
        keeps(st, b),
        fits_loose(st),
        st.exa.pc < st.exa.instructions.len(),
    ensures
        step_ok(st, b, ok),
{
    lemma_keeps_step(st, b, ok);
}

proof fn lemma_arith_step(st: ExaState, op: super::semantics::ArithOp, a: SpecTarget, b: SpecTarget, d: SpecTarget)
    requires
        fits_loose(st),
        st.exa.pc < st.exa.instructions.len(),
    ensures
        step_ok(st, arith(st, op, a, b, d).0, arith(st, op, a, b, d).1 is Ok),
        arith(st, op, a, b, d).0.exa.pc == st.exa.pc,
{
    reveal(arith);
    lemma_read_target_keeps(st, a);
    let (s1, ra) = read_target(st, a);
    if let Ok(x) = ra {
        lemma_read_target_keeps(s1, b);
        let (s2, rb) = read_target(s1, b);
        lemma_keeps_trans(st, s1, s2);
        if let Ok(y) = rb {
            let v = super::semantics::clamp(super::semantics::arith_value(op, x as int, y as int), -9999, 9999) as i32;
            lemma_store_keeps(s2, d, v);
            lemma_keeps_trans(st, s2, store(s2, d, v).0);
        }
    }
    lemma_chain_step(st, arith(st, op, a, b, d).0, arith(st, op, a, b, d).1 is Ok);
}

proof fn lemma_divide_step(st: ExaState, m: bool, a: SpecTarget, b: SpecTarget, d: SpecTarget)
    requires
        fits_loose(st),
        st.exa.pc < st.exa.instructions.len(),
    ensures
        step_ok(st, divide(st, m, a, b, d).0, divide(st, m, a, b, d).1 is Ok),
        divide(st, m, a, b, d).0.exa.pc == st.exa.pc,
{
    reveal(divide);
    lemma_read_target_keeps(st, b);
    let (s1, rb) = read_target(st, b);
    if let Ok(y) = rb {
        if y != 0 {
            lemma_read_target_keeps(s1, a);
            let (s2, ra) = read_target(s1, a);
            lemma_keeps_trans(st, s1, s2);
            if let Ok(x) = ra {
                let v = if m {
                    super::semantics::modi_value(x as int, y as int)
                } else {
                    super::semantics::div_toward_zero(x as int, y as int)
                };
                let c = super::semantics::clamp(v, -9999, 9999) as i32;
                lemma_store_keeps(s2, d, c);
                lemma_keeps_trans(st, s2, store(s2, d, c).0);
            }
        }
    }
    lemma_chain_step(st, divide(st, m, a, b, d).0, divide(st, m, a, b, d).1 is Ok);
}

proof fn lemma_swiz_step(st: ExaState, a: SpecTarget, m: SpecTarget, d: SpecTarget)
    requires
        fits_loose(st),
        st.exa.pc < st.exa.instructions.len(),
    ensures
        step_ok(st, swiz(st, a, m, d).0, swiz(st, a, m, d).1 is Ok),
        swiz(st, a, m, d).0.exa.pc == st.exa.pc,
{
    reveal(swiz);
    lemma_read_target_keeps(st, a);
    let (s1, ra) = read_target(st, a);
    if let Ok(x) = ra {
        lemma_read_target_keeps(s1, m);
        let (s2, rm) = read_target(s1, m);
        lemma_keeps_trans(st, s1, s2);
        if let Ok(y) = rm {
            let v = super::semantics::swiz_value(x as int, y as int) as i32;
            lemma_store_keeps(s2, d, v);
            lemma_keeps_trans(st, s2, store(s2, d, v).0);
        }
    }
    lemma_chain_step(st, swiz(st, a, m, d).0, swiz(st, a, m, d).1 is Ok);
}

proof fn lemma_copy_step(st: ExaState, s: SpecTarget, d: SpecTarget)
    requires
        fits_loose(st),
        st.exa.pc < st.exa.instructions.len(),
    ensures
        ({
            let (s1, r) = read_target(st, s);
            let out = match r {
                Err(e) => (s1, Err(e)),
                Ok(v) => store(s1, d, v),
            };
            step_ok(st, out.0, out.1 is Ok) && out.0.exa.pc == st.exa.pc
        }),
{
    lemma_read_target_keeps(st, s);
    let (s1, r) = read_target(st, s);
    if let Ok(v) = r {
        lemma_store_keeps(s1, d, v);
        lemma_keeps_trans(st, s1, store(s1, d, v).0);
        lemma_chain_step(st, store(s1, d, v).0, store(s1, d, v).1 is Ok);
    } else {
        lemma_chain_step(st, s1, false);
    }
}

proof fn lemma_test_step(st: ExaState, a: SpecTarget, c: crate::vm::instruction::Comparator, b: SpecTarget)
    requires
        fits_loose(st),
        st.exa.pc < st.exa.instructions.len(),
    ensures
        step_ok(st, test_op(st, a, c, b).0, test_op(st, a, c, b).1 is Ok),
        test_op(st, a, c, b).0.exa.pc == st.exa.pc,
{
    reveal(test_op);
    lemma_read_target_keeps(st, a);
    let (s1, ra) = read_target(st, a);
    if let Ok(l) = ra {
        lemma_read_target_keeps(s1, b);
        let (s2, rb) = read_target(s1, b);
        lemma_keeps_trans(st, s1, s2);
        if let Ok(r) = rb {
            let v: i32 = if super::semantics::compare(c, l, r) { 1 } else { 0 };
            lemma_write_register_keeps(s2, seq!['t'], v);
            lemma_keeps_trans(st, s2, write_register(s2, seq!['t'], v).0);
        }
    }
    lemma_chain_step(st, test_op(st, a, c, b).0, test_op(st, a, c, b).1 is Ok);
}

proof fn lemma_rand_step(st: ExaState, lo: SpecTarget, hi: SpecTarget, d: SpecTarget, draw: nat)
    requires
        fits_loose(st),
        st.exa.pc < st.exa.instructions.len(),
    ensures
        step_ok(st, rand(st, lo, hi, d, draw).0, rand(st, lo, hi, d, draw).1 is Ok),
        rand(st, lo, hi, d, draw).0.exa.pc == st.exa.pc,
{
    reveal(rand);
    lemma_read_target_keeps(st, lo);
    let (s1, rl) = read_target(st, lo);
    if let Ok(l) = rl {
        lemma_read_target_keeps(s1, hi);
        let (s2, rh) = read_target(s1, hi);
        lemma_keeps_trans(st, s1, s2);
        if let Ok(h) = rh {
            if l <= h {
                let v = (l + (draw % ((h - l + 1) as nat))) as i32;
                lemma_store_keeps(s2, d, v);
                lemma_keeps_trans(st, s2, store(s2, d, v).0);
            }
        }
    }
    lemma_chain_step(st, rand(st, lo, hi, d, draw).0, rand(st, lo, hi, d, draw).1 is Ok);
}

proof fn lemma_file_command_step(st: ExaState, t: SpecTarget)
    requires
        fits_loose(st),
        st.exa.pc < st.exa.instructions.len(),
    ensures
        step_ok(st, file_command(st, t).0, file_command(st, t).1 is Ok),
        file_command(st, t).0.exa.pc == st.exa.pc,
{
    reveal(file_command);
    if let Some(f) = st.exa.file {
        lemma_store_keeps(st, t, f.id);
        lemma_chain_step(st, store(st, t, f.id).0, store(st, t, f.id).1 is Ok);
    } else {
        lemma_chain_step(st, st, false);
    }
}

proof fn lemma_test_eof_step(st: ExaState)
    requires
        fits_loose(st),
        st.exa.pc < st.exa.instructions.len(),
    ensures
        step_ok(st, test_eof(st).0, test_eof(st).1 is Ok),
        test_eof(st).0.exa.pc == st.exa.pc,
{
    reveal(test_eof);
    if let Some(f) = st.exa.file {
        let v: i32 = if st.exa.file_pointer == f.contents.len() { 1 } else { 0 };
        lemma_write_register_keeps(st, seq!['t'], v);
        lemma_chain_step(st, write_register(st, seq!['t'], v).0, write_register(st, seq!['t'], v).1 is Ok);
    } else {
        lemma_chain_step(st, st, false);
    }
}

/// A label's position lies within the program or just past its end.
proof fn lemma_label_in_range(st: ExaState, label: Seq<char>)
    requires
        fits_loose(st),
    ensures
        label_position(st.exa.labels, label) matches Some(p) ==> p <= st.exa.instructions.len(),
{
    crate::vm::lemma_find_key(st.exa.labels, label);
    if let Some(i) = crate::vm::find_key(st.exa.labels, label) {
        assert(st.exa.labels[i].1 <= st.exa.instructions.len());
    }
}

proof fn lemma_jump_step(st: ExaState, label: Seq<char>)
    requires
        fits_loose(st),
        st.exa.pc < st.exa.instructions.len(),
    ensures
        step_ok(st, jump(st, label).0, jump(st, label).1 is Ok),
{
    reveal(jump);
    lemma_label_in_range(st, label);
    let b = jump(st, label).0;
    assert forall|h: int| 0 <= h < st.net.hosts.len() implies #[trigger] balance(b, h) == balance(st, h) by {}
}

proof fn lemma_cond_jump_step(st: ExaState, label: Seq<char>, when_true: bool)
    requires
        fits_loose(st),
        st.exa.pc < st.exa.instructions.len(),
    ensures
        step_ok(st, cond_jump(st, label, when_true).0, cond_jump(st, label, when_true).1 is Ok),
{
    reveal(cond_jump);
    reveal(jump);
    lemma_read_register_keeps(st, seq!['t']);
    let (s1, r) = read_register(st, seq!['t']);
    lemma_label_in_range(s1, label);
    lemma_keeps_step(st, s1, cond_jump(st, label, when_true).1 is Ok);
    let b = cond_jump(st, label, when_true).0;
    assert forall|h: int| 0 <= h < st.net.hosts.len() implies #[trigger] balance(b, h) == balance(st, h) by {
        assert(balance(s1, h) == balance(st, h));
    }
}

proof fn lemma_make_step(st: ExaState)
    requires
        fits_loose(st),
        st.exa.pc < st.exa.instructions.len(),
    ensures
        step_ok(st, make_file(st).0, make_file(st).1 is Ok),
        make_file(st).0.exa.pc == st.exa.pc,
{
    reveal(make_file);
    let b = make_file(st).0;
    assert forall|h: int| 0 <= h < st.net.hosts.len() implies #[trigger] balance(b, h) == balance(st, h) by {}
}

proof fn lemma_wipe_step(st: ExaState)
    requires
        fits_loose(st),
        st.exa.pc < st.exa.instructions.len(),
    ensures
        step_ok(st, wipe_file(st).0, wipe_file(st).1 is Ok),
        wipe_file(st).0.exa.pc == st.exa.pc,
{
    reveal(wipe_file);
    let b = wipe_file(st).0;
    assert forall|h: int| 0 <= h < st.net.hosts.len() implies #[trigger] balance(b, h) == balance(st, h) by {}
}

proof fn lemma_seek_step(st: ExaState, t: SpecTarget)
    requires
        fits_loose(st),
        st.exa.pc < st.exa.instructions.len(),
    ensures
        step_ok(st, seek_file(st, t).0, seek_file(st, t).1 is Ok),
        seek_file(st, t).0.exa.pc == st.exa.pc,
{
    reveal(seek_file);
    if st.exa.file is Some {
        lemma_read_target_keeps(st, t);
        let (s1, r) = read_target(st, t);
        lemma_keeps_step(st, s1, false);
        let b = seek_file(st, t).0;
        assert forall|h: int| 0 <= h < st.net.hosts.len() implies #[trigger] balance(b, h) == balance(st, h) by {
            assert(balance(s1, h) == balance(st, h));
        }
    } else {
        lemma_keeps_step(st, st, false);
    }
}

proof fn lemma_void_step(st: ExaState)
    requires
        fits_loose(st),
        st.exa.pc < st.exa.instructions.len(),
    ensures
        step_ok(st, void_file(st).0, void_file(st).1 is Ok),
        void_file(st).0.exa.pc == st.exa.pc,
{
    reveal(void_file);
    let b = void_file(st).0;
    assert forall|h: int| 0 <= h < st.net.hosts.len() implies #[trigger] balance(b, h) == balance(st, h) by {}
}

proof fn lemma_drop_step(st: ExaState)
    requires
        fits_loose(st),
        st.exa.pc < st.exa.instructions.len(),
    ensures
        step_ok(st, drop_file(st).0, drop_file(st).1 is Ok),
        drop_file(st).0.exa.pc == st.exa.pc,
{
    reveal(drop_file);
    let b = drop_file(st).0;
    let me = st.exa.host as int;
    assert(st.net.hosts[me].wf());
    assert forall|h: int| 0 <= h < b.net.hosts.len() implies #[trigger] b.net.hosts[h].wf() by {
        assert(st.net.hosts[h].wf());
    }
    assert forall|h: int, k: int|
        0 <= h < b.net.hosts.len() && 0 <= k < b.net.hosts[h].links.len() implies #[trigger] b.net.hosts[h].links[k].1.to_host
        < b.net.hosts.len() by {
        assert(b.net.hosts[h].links == st.net.hosts[h].links);
    }
    assert forall|h: int| 0 <= h < b.net.hosts.len() implies #[trigger] b.net.hosts[h].occupied
        >= b.net.hosts[h].files.len() + (if h == b.exa.host { 1int } else { 0int }) by {
        assert(st.net.hosts[h].occupied >= st.net.hosts[h].files.len() + (if h == st.exa.host { 1int } else { 0int }));
    }
    assert forall|h: int| 0 <= h < st.net.hosts.len() implies #[trigger] balance(b, h) == balance(st, h) by {}
}

proof fn lemma_grab_step(st: ExaState, t: SpecTarget)
    requires
        fits_loose(st),
        st.exa.pc < st.exa.instructions.len(),
    ensures
        step_ok(st, grab_file(st, t).0, grab_file(st, t).1 is Ok),
        grab_file(st, t).0.exa.pc == st.exa.pc,
{
    reveal(grab_file);
    lemma_read_target_keeps(st, t);
    let (s1, r) = read_target(st, t);
    lemma_keeps_step(st, s1, false);
    if let Ok(id) = r {
        if s1.exa.file is None {
            let me = s1.exa.host as int;
            let hh = here(s1);
            super::cycle::lemma_find_file(hh.files, id);
            if let Some(k) = find_file(hh.files, id) {
                let b = grab_file(st, t).0;
                assert(s1.net.hosts[me].wf());
                assert(s1.net.hosts[me].occupied >= s1.net.hosts[me].files.len() + 1);
                assert forall|h: int| 0 <= h < b.net.hosts.len() implies #[trigger] b.net.hosts[h].wf() by {
                    assert(s1.net.hosts[h].wf());
                }
                assert forall|h: int, j: int|
                    0 <= h < b.net.hosts.len() && 0 <= j < b.net.hosts[h].links.len() implies #[trigger] b.net.hosts[h].links[j].1.to_host
                    < b.net.hosts.len() by {
                    assert(b.net.hosts[h].links == s1.net.hosts[h].links);
                }
                assert forall|h: int| 0 <= h < b.net.hosts.len() implies #[trigger] b.net.hosts[h].occupied
                    >= b.net.hosts[h].files.len() + (if h == b.exa.host { 1int } else { 0int }) by {
                    assert(s1.net.hosts[h].occupied >= s1.net.hosts[h].files.len() + (if h == s1.exa.host { 1int } else { 0int }));
                }
                assert forall|h: int| 0 <= h < st.net.hosts.len() implies #[trigger] balance(b, h) == balance(st, h) by {
                    assert(balance(s1, h) == balance(st, h));
                }
            }
        }
    }
}

/// A new replica joins the waiting list: the count in its host goes up by one.
pub proof fn lemma_count_push(exas: Seq<SpecExa>, e: SpecExa, h: int)
    ensures
        count_in(exas.push(e), h) == count_in(exas, h) + if e.host == h { 1int } else { 0int },
{
    assert(exas.push(e).drop_last() =~= exas);
}

proof fn lemma_repl_at_step(st: ExaState, pc: nat)
    requires
        fits_loose(st),
        st.exa.pc < st.exa.instructions.len(),
        pc <= st.exa.instructions.len(),
    ensures
        step_ok(st, repl_at(st, pc).0, repl_at(st, pc).1 is Ok),
        repl_at(st, pc).0.exa.pc == st.exa.pc,
{
    reveal(repl_at);
    let b = repl_at(st, pc).0;
    let me = st.exa.host as int;
    assert(st.net.hosts[me].wf());
    if repl_at(st, pc).1 is Ok {
        let num = st.net.spawn_counters[st.exa.lineage as int];
        let r = replica(st.exa, num, pc);
        assert(b.net.spawned == st.net.spawned.push(r));
        assert forall|h: int| 0 <= h < b.net.hosts.len() implies #[trigger] b.net.hosts[h].wf() by {
            assert(st.net.hosts[h].wf());
        }
        assert forall|h: int, k: int|
            0 <= h < b.net.hosts.len() && 0 <= k < b.net.hosts[h].links.len() implies #[trigger] b.net.hosts[h].links[k].1.to_host
            < b.net.hosts.len() by {
            assert(b.net.hosts[h].links == st.net.hosts[h].links);
        }
        assert forall|h: int| 0 <= h < b.net.hosts.len() implies #[trigger] b.net.hosts[h].occupied
            >= b.net.hosts[h].files.len() + (if h == b.exa.host { 1int } else { 0int }) by {
            assert(st.net.hosts[h].occupied >= st.net.hosts[h].files.len() + (if h == st.exa.host { 1int } else { 0int }));
        }
        assert forall|h: int| 0 <= h < st.net.hosts.len() implies #[trigger] balance(b, h) == balance(st, h) by {
            lemma_count_push(st.net.spawned, r, h);
        }
        assert(exa_ok(r, b.net));
    }
}

proof fn lemma_repl_step(st: ExaState, label: Seq<char>)
    requires
        fits_loose(st),
        st.exa.pc < st.exa.instructions.len(),
    ensures
        step_ok(st, repl(st, label).0, repl(st, label).1 is Ok),
        repl(st, label).0.exa.pc == st.exa.pc,
{
    reveal(repl);
    lemma_label_in_range(st, label);
    if let Some(pos) = label_position(st.exa.labels, label) {
        lemma_repl_at_step(st, pos);
    } else {
        lemma_keeps_step(st, st, false);
    }
}

proof fn lemma_link_step(st: ExaState, t: SpecTarget)
    requires
        fits_loose(st),
        st.exa.pc < st.exa.instructions.len(),
    ensures
        step_ok(st, link(st, t).0, link(st, t).1 is Ok),
        link(st, t).0.exa.pc == st.exa.pc,
{
    reveal(link);
    lemma_read_target_keeps(st, t);
    let (s1, r) = read_target(st, t);
    lemma_keeps_step(st, s1, false);
    if let Ok(id) = r {
        let from = s1.exa.host as int;
        let src = s1.net.hosts[from];
        crate::vm::lemma_find_key(src.links, id);
        if let Some(k) = crate::vm::find_key(src.links, id) {
            let l = src.links[k].1;
            if !l.traversed_this_cycle {
                let to = l.to_host as int;
                assert(to < s1.net.hosts.len());
                let dst = s1.net.hosts[to];
                if dst.capacity > dst.occupied {
                    let b = link(st, t).0;
                    assert(s1.net.hosts[from].wf());
                    assert(s1.net.hosts[to].wf());
                    assert(s1.net.hosts[from].occupied >= s1.net.hosts[from].files.len() + 1);
                    assert forall|h: int| 0 <= h < b.net.hosts.len() implies #[trigger] b.net.hosts[h].wf() by {
                        assert(s1.net.hosts[h].wf());
                    }
                    assert forall|h: int, j: int|
                        0 <= h < b.net.hosts.len() && 0 <= j < b.net.hosts[h].links.len() implies #[trigger] b.net.hosts[h].links[j].1.to_host
                        < b.net.hosts.len() by {
                        if h == to || h == from {
                            assert(s1.net.hosts[h].links[j].1.to_host < s1.net.hosts.len());
                        } else {
                            assert(b.net.hosts[h].links == s1.net.hosts[h].links);
                        }
                    }
                    assert forall|h: int| 0 <= h < b.net.hosts.len() implies #[trigger] b.net.hosts[h].occupied
                        >= b.net.hosts[h].files.len() + (if h == b.exa.host { 1int } else { 0int }) by {
                        assert(s1.net.hosts[h].occupied >= s1.net.hosts[h].files.len() + (if h == s1.exa.host { 1int } else { 0int }));
                    }
                    assert forall|h: int| 0 <= h < st.net.hosts.len() implies #[trigger] balance(b, h) == balance(st, h) by {
                        assert(balance(s1, h) == balance(st, h));
                    }
                }
            }
        }
    }
}

proof fn lemma_execute_step(st: ExaState, i: SpecInstruction, draw: nat)
    requires
        fits_loose(st),
        st.exa.pc < st.exa.instructions.len(),
    ensures
        step_ok(st, execute(st, i, draw).0, execute(st, i, draw).1 is Ok),
        !(i is Jump || i is Tjmp || i is Fjmp) ==> execute(st, i, draw).0.exa.pc == st.exa.pc,
{
    match i {
        SpecInstruction::Link(t) => lemma_link_step(st, t),
        SpecInstruction::Copy(s, d) => lemma_copy_step(st, s, d),
        SpecInstruction::Addi(a, b, d) => lemma_arith_step(st, super::semantics::ArithOp::Add, a, b, d),
        SpecInstruction::Subi(a, b, d) => lemma_arith_step(st, super::semantics::ArithOp::Sub, a, b, d),
        SpecInstruction::Muli(a, b, d) => lemma_arith_step(st, super::semantics::ArithOp::Mul, a, b, d),
        SpecInstruction::Divi(a, b, d) => lemma_divide_step(st, false, a, b, d),
        SpecInstruction::Modi(a, b, d) => lemma_divide_step(st, true, a, b, d),
        SpecInstruction::Swiz(a, m, d) => lemma_swiz_step(st, a, m, d),
        SpecInstruction::Jump(l) => lemma_jump_step(st, l),
        SpecInstruction::Tjmp(l) => lemma_cond_jump_step(st, l, true),
        SpecInstruction::Fjmp(l) => lemma_cond_jump_step(st, l, false),
        SpecInstruction::Test(a, c, b) => lemma_test_step(st, a, c, b),
        SpecInstruction::Repl(l) => lemma_repl_step(st, l),
        SpecInstruction::VoidM => {
            lemma_read_register_keeps(st, seq!['m']);
            lemma_keeps_step(st, read_register(st, seq!['m']).0, execute(st, i, draw).1 is Ok);
        },
        SpecInstruction::Make => lemma_make_step(st),
        SpecInstruction::Drop => lemma_drop_step(st),
        SpecInstruction::Wipe => lemma_wipe_step(st),
        SpecInstruction::Grab(t) => lemma_grab_step(st, t),
        SpecInstruction::Seek(t) => lemma_seek_step(st, t),
        SpecInstruction::VoidF => lemma_void_step(st),
        SpecInstruction::File(t) => lemma_file_command_step(st, t),
        SpecInstruction::TestEof => lemma_test_eof_step(st),
        SpecInstruction::Rand(lo, hi, d) => lemma_rand_step(st, lo, hi, d, draw),
        _ => {
            let b = execute(st, i, draw).0;
            assert forall|h: int| 0 <= h < st.net.hosts.len() implies #[trigger] balance(b, h) == balance(st, h) by {}
        },
    }
}

/// What one cycle of an EXA keeps: the safety conditions and well-formedness,
/// the program and the EXA's identity, the balance of every host, and the
/// replicas already waiting; new replicas can live in the network.
pub open spec fn cycle_ok(a: ExaState, c: ExaState) -> bool {
    &&& no_reopen(a.net, c.net)
    &&& (c.exa.unfreeze_exa is Some ==> flipped(a.net, c.net))
    &&& fits_loose(c)
    &&& c.exa.wf()
    &&& c.net.hosts.len() == a.net.hosts.len()
    &&& c.net.spawn_counters.len() == a.net.spawn_counters.len()
    &&& c.exa.instructions == a.exa.instructions
    &&& c.exa.labels == a.exa.labels
    &&& c.exa.lineage == a.exa.lineage
    &&& c.exa.name == a.exa.name
    &&& c.exa.base_name == a.exa.base_name
    &&& c.exa.spawn_id == a.exa.spawn_id
    &&& forall|h: int| 0 <= h < a.net.hosts.len() ==> #[trigger] balance(c, h) == balance(a, h)
    &&& a.net.spawned.len() <= c.net.spawned.len()
    &&& forall|k: int| 0 <= k < a.net.spawned.len() ==> #[trigger] c.net.spawned[k] == a.net.spawned[k]
    &&& forall|k: int|
        a.net.spawned.len() <= k < c.net.spawned.len() ==> exa_ok(#[trigger] c.net.spawned[k], c.net)
            && c.net.spawned[k].error is None
}

pub proof fn lemma_cycle_ok(st: ExaState, draw: nat)
    requires
        fits_loose(st),
        st.exa.wf(),
    ensures
        cycle_ok(st, super::semantics::cycle(st, draw)),
{
    let st0 = super::semantics::with_exa(st, SpecExa { unfreeze_exa: None, ..st.exa });
    let c = super::semantics::cycle(st, draw);
    if st0.exa.pc >= st0.exa.instructions.len() {
        assert forall|h: int| 0 <= h < st.net.hosts.len() implies #[trigger] balance(c, h) == balance(st, h) by {}
    } else {
        let i = st0.exa.instructions[st0.exa.pc as int];
        lemma_execute_step(st0, i, draw);
        let (s1, r) = execute(st0, i, draw);
        assert forall|h: int| 0 <= h < st.net.hosts.len() implies #[trigger] balance(c, h) == balance(st, h) by {
            assert(balance(s1, h) == balance(st0, h));
        }
        assert forall|k: int| 0 <= k < c.exa.instructions.len() implies !super::is_mark(#[trigger] c.exa.instructions[k])
            && !super::is_data(c.exa.instructions[k]) by {
            assert(st.exa.instructions[k] == c.exa.instructions[k]);
        }
        assert forall|k: int| 0 <= k < c.exa.labels.len() implies #[trigger] c.exa.labels[k].1 <= c.exa.instructions.len() by {
            assert(st.exa.labels[k] == c.exa.labels[k]);
        }
    }
}


/// Where a label sends a jump: its position, or the next instruction when
/// there is no such label.
pub open spec fn label_target(e: SpecExa, l: Seq<char>) -> nat {
    match label_position(e.labels, l) {
        Some(p) => p,
        None => e.pc + 1,
    }
}

/// Where an instruction that succeeds leaves the program counter: on its
/// label for a JUMP, a TJMP while T is not zero or an FJMP while T is zero;
/// on the next instruction otherwise.
pub open spec fn landing(e: SpecExa, i: SpecInstruction) -> nat {
    match i {
        SpecInstruction::Jump(l) => label_target(e, l),
        SpecInstruction::Tjmp(l) => if e.registers.t.value != 0 {
            label_target(e, l)
        } else {
            e.pc + 1
        },
        SpecInstruction::Fjmp(l) => if e.registers.t.value == 0 {
            label_target(e, l)
        } else {
            e.pc + 1
        },
        _ => e.pc + 1,
    }
}

/// T can always be read, and reading it changes nothing.
proof fn lemma_read_t(st: ExaState)
    requires
        fits_loose(st),
    ensures
        read_register(st, seq!['t']) == (st, Ok::<i32, crate::vm::error::ExaError>(st.exa.registers.t.value)),
{
    reveal(read_register);
    assert(lower_chars(seq!['t']) =~= seq!['t']);
    assert(seq!['t'][0] != seq!['m'][0]);
    assert(seq!['t'][0] != seq!['f'][0]);
    assert(seq!['t'][0] != seq!['x'][0]);
}

/// How one cycle moves the program counter: a failed instruction keeps it,
/// and its error; a successful one leaves it where the instruction lands,
/// and landing past the last instruction is fatal; an EXA already past its
/// last instruction stays there, out of instructions.
pub proof fn law_counter_moves(st: ExaState, draw: nat)
    requires
        fits_loose(st),
        st.exa.wf(),
        st.exa.instructions.len() <= usize::MAX,
    ensures
        ({
            let c = cycle(st, draw);
            let e = st.exa;
            if e.pc >= e.instructions.len() {
                c.exa.pc == e.pc && c.exa.error == Some(out_of_instructions())
            } else {
                let i = e.instructions[e.pc as int];
                let r = execute(with_exa(st, SpecExa { unfreeze_exa: None, ..e }), i, draw).1;
                &&& r matches Err(err) ==> c.exa.pc == e.pc && c.exa.error == Some(err)
                &&& r is Ok ==> c.exa.pc == landing(e, i) && c.exa.error == (if landing(e, i)
                    >= e.instructions.len() {
                    Some(out_of_instructions())
                } else {
                    None
                })
            }
        }),
{
    let e = st.exa;
    let st0 = with_exa(st, SpecExa { unfreeze_exa: None, ..e });
    if e.pc < e.instructions.len() {
        let i = e.instructions[e.pc as int];
        lemma_execute_step(st0, i, draw);
        let (s1, r) = execute(st0, i, draw);
        match i {
            SpecInstruction::Jump(l) => {
                reveal(jump);
                lemma_label_in_range(st0, l);
            },
            SpecInstruction::Tjmp(l) => {
                reveal(cond_jump);
                reveal(jump);
                lemma_read_t(st0);
                lemma_label_in_range(st0, l);
            },
            SpecInstruction::Fjmp(l) => {
                reveal(cond_jump);
                reveal(jump);
                lemma_read_t(st0);
                lemma_label_in_range(st0, l);
            },
            _ => {},
        }
    }
}

} // verus!
