//! The Redshift handheld: its hosts, hardware registers and buttons.

use vstd::prelude::*;

use super::bus::{MessageBus, SpecBus};
use super::register::Register;
use super::{
    exas_view, find_key, lemma_find_key, Host, HostLink, Network, Permissions, SpecHost, SpecNetwork,
    SpecVM, VM, SCREEN_PIXELS,
};
use super::exa::invariants::exa_ok;
use crate::text::string_from_chars;

verus! {

/// What a Redshift VM knows besides its network: the name of the game loaded,
/// and where its input and sound hardware is.
#[derive(Debug)]
pub struct RedshiftEnvironment {
    pub game_name: String,
    /// Index of the host holding #PADX, #PADY, #PADB and #EN3D.
    pub input_host: usize,
    /// Index of the host holding #SQR0, #SQR1, #TRI0 and #NSE0.
    pub sound_host: usize,
}

#[derive(Debug, Clone, Copy, PartialEq, Eq)]
pub enum RedshiftButton {
    Up,
    Down,
    Left,
    Right,
    Start,
    X,
    Y,
    Z,
}

pub open spec fn link_to(id: i32, to: usize) -> (i32, HostLink) {
    (id, HostLink { to_host: to, traversed_this_cycle: false })
}

pub open spec fn hardware(name: Seq<char>, permissions: Permissions) -> (Seq<char>, Register) {
    (name, Register { permissions, value: 0 })
}

pub open spec fn padx_name() -> Seq<char> { seq!['#', 'p', 'a', 'd', 'x'] }
pub open spec fn pady_name() -> Seq<char> { seq!['#', 'p', 'a', 'd', 'y'] }
pub open spec fn padb_name() -> Seq<char> { seq!['#', 'p', 'a', 'd', 'b'] }
pub open spec fn en3d_name() -> Seq<char> { seq!['#', 'e', 'n', '3', 'd'] }
pub open spec fn sqr0_name() -> Seq<char> { seq!['#', 's', 'q', 'r', '0'] }
pub open spec fn sqr1_name() -> Seq<char> { seq!['#', 's', 'q', 'r', '1'] }
pub open spec fn tri0_name() -> Seq<char> { seq!['#', 't', 'r', 'i', '0'] }
pub open spec fn nse0_name() -> Seq<char> { seq!['#', 'n', 's', 'e', '0'] }

pub open spec fn empty_host(
    name: Seq<char>,
    capacity: nat,
    links: Seq<(i32, HostLink)>,
    registers: Seq<(Seq<char>, Register)>,
) -> SpecHost {
    SpecHost {
        name,
        capacity,
        occupied: 0,
        links,
        registers,
        bus: SpecBus::empty(),
        files: Seq::empty(),
    }
}

/// The Redshift's hosts: core (18 squares) links to input (24), sound (24),
/// aux1 (3) and aux2 (3) by 800 to 803, and each links back by -1. Input
/// holds the read-only pad registers, sound the read-write sound registers.
pub open spec fn redshift_hosts() -> Seq<SpecHost> {
    seq![
        empty_host(
            seq!['c', 'o', 'r', 'e'],
            18,
            seq![link_to(800, 1), link_to(801, 2), link_to(802, 3), link_to(803, 4)],
            Seq::empty(),
        ),
        empty_host(
            seq!['i', 'n', 'p', 'u', 't'],
            24,
            seq![link_to(-1i32, 0)],
            seq![
                hardware(padx_name(), Permissions::ReadOnly),
                hardware(pady_name(), Permissions::ReadOnly),
                hardware(padb_name(), Permissions::ReadOnly),
                hardware(en3d_name(), Permissions::ReadOnly),
            ],
        ),
        empty_host(
            seq!['s', 'o', 'u', 'n', 'd'],
            24,
            seq![link_to(-1i32, 0)],
            seq![
                hardware(sqr0_name(), Permissions::ReadWrite),
                hardware(sqr1_name(), Permissions::ReadWrite),
                hardware(tri0_name(), Permissions::ReadWrite),
                hardware(nse0_name(), Permissions::ReadWrite),
            ],
        ),
        empty_host(seq!['a', 'u', 'x', '1'], 3, seq![link_to(-1i32, 0)], Seq::empty()),
        empty_host(seq!['a', 'u', 'x', '2'], 3, seq![link_to(-1i32, 0)], Seq::empty()),
    ]
}

fn word(c: Vec<char>) -> (s: String)
    ensures
        s@ == c@,
{
    string_from_chars(&c)
}

fn bare_host(name: Vec<char>, capacity: usize) -> (h: Host)
    ensures
        h@ == empty_host(name@, capacity as nat, Seq::empty(), Seq::empty()),
{
    let h = Host {
        name: word(name),
        capacity,
        occupied: 0,
        links: Vec::new(),
        registers: Vec::new(),
        bus: MessageBus::new(),
        files: Vec::new(),
    };
    assert(h@ =~~= empty_host(name@, capacity as nat, Seq::empty(), Seq::empty()));
    h
}

fn hw(name: Vec<char>, permissions: Permissions) -> (r: (String, Register))
    ensures
        (r.0@, r.1) == hardware(name@, permissions),
{
    (word(name), Register::new(permissions, 0))
}

impl VM {
    /// Instantiate a VM matching the Redshift spec
    pub fn new_redshift() -> (vm: VM)
        ensures
            vm@.cycle == 0,
            vm@.net.hosts == redshift_hosts(),
            vm@.net.bus == SpecBus::empty(),
            vm@.net.file_counter == 400,
            vm@.net.spawn_counters.len() == 0,
            vm@.exas.len() == 0,
            vm@.framebuffer == Seq::new(SCREEN_PIXELS as nat, |i: int| false),
            vm@.redshift,
            vm.redshift matches Some(r) && r.game_name@ == Seq::<char>::empty() && r.input_host == 1
                && r.sound_host == 2,
            vm@.wf(),
    {
        let mut vm = VM::new();
        let mut core = bare_host(vec!['c', 'o', 'r', 'e'], 18);
        let mut input = bare_host(vec!['i', 'n', 'p', 'u', 't'], 24);
        let mut sound = bare_host(vec!['s', 'o', 'u', 'n', 'd'], 24);
        let mut aux1 = bare_host(vec!['a', 'u', 'x', '1'], 3);
        let mut aux2 = bare_host(vec!['a', 'u', 'x', '2'], 3);
        let r0 = hw(vec!['#', 'p', 'a', 'd', 'x'], Permissions::ReadOnly);
        let r1 = hw(vec!['#', 'p', 'a', 'd', 'y'], Permissions::ReadOnly);
        let r2 = hw(vec!['#', 'p', 'a', 'd', 'b'], Permissions::ReadOnly);
        let r3 = hw(vec!['#', 'e', 'n', '3', 'd'], Permissions::ReadOnly);
        input.registers = vec![r0, r1, r2, r3];
        let s0 = hw(vec!['#', 's', 'q', 'r', '0'], Permissions::ReadWrite);
        let s1 = hw(vec!['#', 's', 'q', 'r', '1'], Permissions::ReadWrite);
        let s2 = hw(vec!['#', 't', 'r', 'i', '0'], Permissions::ReadWrite);
        let s3 = hw(vec!['#', 'n', 's', 'e', '0'], Permissions::ReadWrite);
        sound.registers = vec![s0, s1, s2, s3];
        assert(input@.registers =~= seq![
            hardware(padx_name(), Permissions::ReadOnly),
            hardware(pady_name(), Permissions::ReadOnly),
            hardware(padb_name(), Permissions::ReadOnly),
            hardware(en3d_name(), Permissions::ReadOnly),
        ]);
        assert(sound@.registers =~= seq![
            hardware(sqr0_name(), Permissions::ReadWrite),
            hardware(sqr1_name(), Permissions::ReadWrite),
            hardware(tri0_name(), Permissions::ReadWrite),
            hardware(nse0_name(), Permissions::ReadWrite),
        ]);
        core.links.push((800, HostLink { to_host: 1, traversed_this_cycle: false }));
        input.links.push((-1, HostLink { to_host: 0, traversed_this_cycle: false }));
        core.links.push((801, HostLink { to_host: 2, traversed_this_cycle: false }));
        sound.links.push((-1, HostLink { to_host: 0, traversed_this_cycle: false }));
        core.links.push((802, HostLink { to_host: 3, traversed_this_cycle: false }));
        aux1.links.push((-1, HostLink { to_host: 0, traversed_this_cycle: false }));
        core.links.push((803, HostLink { to_host: 4, traversed_this_cycle: false }));
        aux2.links.push((-1, HostLink { to_host: 0, traversed_this_cycle: false }));
        vm.network.hosts.push(core);
        vm.network.hosts.push(input);
        vm.network.hosts.push(sound);
        vm.network.hosts.push(aux1);
        vm.network.hosts.push(aux2);
        vm.redshift = Some(RedshiftEnvironment { game_name: String::new(), input_host: 1, sound_host: 2 });
        assert(vm@.net.hosts[0] =~~= redshift_hosts()[0]);
        assert(vm@.net.hosts[1] =~~= redshift_hosts()[1]);
        assert(vm@.net.hosts[2] =~~= redshift_hosts()[2]);
        assert(vm@.net.hosts[3] =~~= redshift_hosts()[3]);
        assert(vm@.net.hosts[4] =~~= redshift_hosts()[4]);
        assert(vm@.net.hosts =~= redshift_hosts());
        let ghost hosts = vm@.net.hosts;
        assert forall|h: int, k: int| 0 <= h < hosts.len() && 0 <= k < hosts[h].links.len() implies #[trigger] hosts[h].links[k].1.to_host
            < hosts.len() by {
            assert(hosts[h] == redshift_hosts()[h]);
        }
        assert forall|h: int| 0 <= h < hosts.len() implies #[trigger] hosts[h].occupied == hosts[h].files.len()
            + super::exa::invariants::count_in(vm@.exas, h) by {
            assert(hosts[h] == redshift_hosts()[h]);
        }
        assert forall|h: int| 0 <= h < hosts.len() implies #[trigger] hosts[h].wf() by {
            assert(hosts[h] == redshift_hosts()[h]);
        }
        vm
    }
}

/// The host with the named hardware register set to `v`, if it has one.
pub open spec fn set_hardware(h: SpecHost, name: Seq<char>, v: i32) -> SpecHost {
    match find_key(h.registers, name) {
        Some(i) => SpecHost {
            registers: h.registers.update(i, (name, Register { value: v, ..h.registers[i].1 })),
            ..h
        },
        None => h,
    }
}

/// The value of the named hardware register, if the host has one.
pub open spec fn hardware_value(h: SpecHost, name: Seq<char>) -> Option<i32> {
    match find_key(h.registers, name) {
        Some(i) => Some(h.registers[i].1.value),
        None => None,
    }
}

/// What pressing a button does to the input host: a direction sets #PADX or
/// #PADY to -1 or 1; START, Z, Y and X add 1000, 100, 10 and 1 to #PADB.
pub open spec fn pressed(h: SpecHost, b: RedshiftButton) -> SpecHost {
    match b {
        RedshiftButton::Up => set_hardware(h, pady_name(), -1i32),
        RedshiftButton::Down => set_hardware(h, pady_name(), 1),
        RedshiftButton::Left => set_hardware(h, padx_name(), -1i32),
        RedshiftButton::Right => set_hardware(h, padx_name(), 1),
        _ => match hardware_value(h, padb_name()) {
            Some(v) => set_hardware(h, padb_name(), (v + button_weight(b)) as i32),
            None => h,
        },
    }
}

/// How much a button adds to #PADB.
pub open spec fn button_weight(b: RedshiftButton) -> int {
    match b {
        RedshiftButton::Start => 1000,
        RedshiftButton::Z => 100,
        RedshiftButton::Y => 10,
        RedshiftButton::X => 1,
        _ => 0,
    }
}

/// Changing the hardware registers of a host keeps the VM's invariant.
pub proof fn lemma_wf_registers_only(v: SpecVM, h: int, nh: SpecHost)
    requires
        v.wf(),
        0 <= h < v.net.hosts.len(),
        nh == (SpecHost { registers: nh.registers, ..v.net.hosts[h] }),
    ensures
        (SpecVM { net: v.net.with_host(h, nh), ..v }).wf(),
{
    let n2 = v.net.with_host(h, nh);
    assert forall|k: int| 0 <= k < n2.hosts.len() implies #[trigger] n2.hosts[k].wf() by {
        assert(v.net.hosts[k].wf());
    }
    assert forall|k: int, j: int| 0 <= k < n2.hosts.len() && 0 <= j < n2.hosts[k].links.len() implies #[trigger] n2.hosts[k].links[j].1.to_host
        < n2.hosts.len() by {
        assert(v.net.hosts[k].links[j].1.to_host < v.net.hosts.len());
    }
    assert forall|i: int| 0 <= i < v.exas.len() implies exa_ok(#[trigger] v.exas[i], n2) by {
        assert(exa_ok(v.exas[i], v.net));
    }
    assert forall|k: int| 0 <= k < n2.hosts.len() implies #[trigger] n2.hosts[k].occupied == n2.hosts[k].files.len()
        + super::exa::invariants::count_in(v.exas, k) by {
        assert(v.net.hosts[k].occupied == v.net.hosts[k].files.len() + super::exa::invariants::count_in(v.exas, k));
    }
}

impl Host {
    /// Sets the value of the named hardware register, if there is one.
    pub fn set_hardware_value(&mut self, name: &Vec<char>, v: i32)
        ensures
            final(self)@ == set_hardware(old(self)@, name@, v),
    {
        let ghost before = self@;
        proof {
            lemma_find_key(before.registers, name@);
        }
        match self.find_register(name) {
            Some(i) => {
                self.registers[i].1.value = v;
                assert(self@.registers =~= before.registers.update(
                    i as int,
                    (name@, Register { value: v, ..before.registers[i as int].1 }),
                ));
                assert(self@ =~~= set_hardware(before, name@, v));
            },
            None => {},
        }
    }

    /// The value of the named hardware register, if there is one.
    pub fn hardware_value(&self, name: &Vec<char>) -> (r: Option<i32>)
        ensures
            r == hardware_value(self@, name@),
    {
        proof {
            lemma_find_key(self@.registers, name@);
        }
        match self.find_register(name) {
            Some(i) => Some(self.registers[i].1.value),
            None => None,
        }
    }
}

impl VM {
    /// Releases the pad: #PADX, #PADY and #PADB go back to 0.
    pub fn reset_inputs(&mut self)
        requires
            old(self)@.wf(),
            old(self).redshift matches Some(r) && r.input_host < old(self)@.net.hosts.len(),
        ensures
            final(self).redshift == old(self).redshift,
            final(self)@ == (SpecVM {
                net: old(self)@.net.with_host(
                    old(self).redshift->Some_0.input_host as int,
                    set_hardware(
                        set_hardware(
                            set_hardware(
                                old(self)@.net.hosts[old(self).redshift->Some_0.input_host as int],
                                padx_name(),
                                0,
                            ),
                            pady_name(),
                            0,
                        ),
                        padb_name(),
                        0,
                    ),
                ),
                ..old(self)@
            }),
            final(self)@.wf(),
    {
        let h = match &self.redshift {
            Some(r) => r.input_host,
            None => 0,
        };
        let ghost v0 = self@;
        self.network.hosts[h].set_hardware_value(&vec!['#', 'p', 'a', 'd', 'x'], 0);
        self.network.hosts[h].set_hardware_value(&vec!['#', 'p', 'a', 'd', 'y'], 0);
        self.network.hosts[h].set_hardware_value(&vec!['#', 'p', 'a', 'd', 'b'], 0);
        let ghost nh = self@.net.hosts[h as int];
        assert(self@.net.hosts =~= v0.net.hosts.update(h as int, nh));
        proof {
            lemma_find_key(v0.net.hosts[h as int].registers, padx_name());
            lemma_find_key(v0.net.hosts[h as int].registers, pady_name());
            lemma_find_key(v0.net.hosts[h as int].registers, padb_name());
            lemma_wf_registers_only(v0, h as int, nh);
        }
        assert(self@ =~~= (SpecVM { net: v0.net.with_host(h as int, nh), ..v0 }));
    }

    /// A button of the pad is held during this frame.
    pub fn input_pressed(&mut self, for_input: RedshiftButton)
        requires
            old(self)@.wf(),
            old(self).redshift matches Some(r) && r.input_host < old(self)@.net.hosts.len(),
            hardware_value(old(self)@.net.hosts[old(self).redshift->Some_0.input_host as int], padb_name())
                matches Some(v) ==> v + button_weight(for_input) <= i32::MAX,
        ensures
            final(self).redshift == old(self).redshift,
            final(self)@ == (SpecVM {
                net: old(self)@.net.with_host(
                    old(self).redshift->Some_0.input_host as int,
                    pressed(old(self)@.net.hosts[old(self).redshift->Some_0.input_host as int], for_input),
                ),
                ..old(self)@
            }),
            final(self)@.wf(),
    {
        let h = match &self.redshift {
            Some(r) => r.input_host,
            None => 0,
        };
        let ghost v0 = self@;
        let padx = vec!['#', 'p', 'a', 'd', 'x'];
        let pady = vec!['#', 'p', 'a', 'd', 'y'];
        let padb = vec!['#', 'p', 'a', 'd', 'b'];
        match for_input {
            RedshiftButton::Up => self.network.hosts[h].set_hardware_value(&pady, -1),
            RedshiftButton::Down => self.network.hosts[h].set_hardware_value(&pady, 1),
            RedshiftButton::Left => self.network.hosts[h].set_hardware_value(&padx, -1),
            RedshiftButton::Right => self.network.hosts[h].set_hardware_value(&padx, 1),
            _ => {
                let weight: i32 = match for_input {
                    RedshiftButton::Start => 1000,
                    RedshiftButton::Z => 100,
                    RedshiftButton::Y => 10,
                    _ => 1,
                };
                match self.network.hosts[h].hardware_value(&padb) {
                    Some(v) => self.network.hosts[h].set_hardware_value(&padb, v + weight),
                    None => {},
                }
            },
        }
        let ghost nh = self@.net.hosts[h as int];
        assert(self@.net.hosts =~= v0.net.hosts.update(h as int, nh));
        proof {
            lemma_find_key(v0.net.hosts[h as int].registers, padx_name());
            lemma_find_key(v0.net.hosts[h as int].registers, pady_name());
            lemma_find_key(v0.net.hosts[h as int].registers, padb_name());
            lemma_wf_registers_only(v0, h as int, nh);
        }
        assert(self@ =~~= (SpecVM { net: v0.net.with_host(h as int, nh), ..v0 }));
    }
}

// ---------------------------------------------------------------------------
// The frame loop's decisions
// ---------------------------------------------------------------------------

/// The buttons of the joypad the emulator reads.
#[derive(Debug, Clone, Copy, PartialEq, Eq)]
pub enum JoypadButton {
    Up,
    Down,
    Left,
    Right,
    Start,
    Select,
    A,
    B,
    X,
    Y,
}

/// The Redshift button a joypad button presses: Y, B and A are the
/// Redshift's X, Y and Z; SELECT and X are the emulator's own.
pub open spec fn button_for(b: JoypadButton) -> Option<RedshiftButton> {
    match b {
        JoypadButton::Y => Some(RedshiftButton::X),
        JoypadButton::B => Some(RedshiftButton::Y),
        JoypadButton::A => Some(RedshiftButton::Z),
        JoypadButton::Start => Some(RedshiftButton::Start),
        JoypadButton::Up => Some(RedshiftButton::Up),
        JoypadButton::Down => Some(RedshiftButton::Down),
        JoypadButton::Left => Some(RedshiftButton::Left),
        JoypadButton::Right => Some(RedshiftButton::Right),
        JoypadButton::Select => None,
        JoypadButton::X => None,
    }
}

/// The Redshift button a joypad button presses, if any.
pub fn redshift_button(b: JoypadButton) -> (r: Option<RedshiftButton>)
    ensures
        r == button_for(b),
{
    match b {
        JoypadButton::Y => Some(RedshiftButton::X),
        JoypadButton::B => Some(RedshiftButton::Y),
        JoypadButton::A => Some(RedshiftButton::Z),
        JoypadButton::Start => Some(RedshiftButton::Start),
        JoypadButton::Up => Some(RedshiftButton::Up),
        JoypadButton::Down => Some(RedshiftButton::Down),
        JoypadButton::Left => Some(RedshiftButton::Left),
        JoypadButton::Right => Some(RedshiftButton::Right),
        JoypadButton::Select => None,
        JoypadButton::X => None,
    }
}

/// What one frame does before the VM runs: inputs are cleared and waiting
/// EXAs released every second frame, these Redshift buttons are pressed in
/// this order, the VM is shown, and one cycle is run and shown.
pub struct FramePlan {
    pub release: bool,
    pub presses: Vec<RedshiftButton>,
    pub show: bool,
    pub step: bool,
}

/// The order in which the joypad's buttons are looked at.
pub open spec fn joypad_order() -> Seq<JoypadButton> {
    seq![
        JoypadButton::Y,
        JoypadButton::B,
        JoypadButton::A,
        JoypadButton::Start,
        JoypadButton::Up,
        JoypadButton::Down,
        JoypadButton::Left,
        JoypadButton::Right,
    ]
}

/// The Redshift buttons pressed for the held joypad buttons among the first
/// `k` of the order.
pub open spec fn presses_upto(held: Seq<JoypadButton>, k: int) -> Seq<RedshiftButton>
    decreases k,
{
    if k <= 0 {
        Seq::empty()
    } else {
        presses_upto(held, k - 1) + if held.contains(joypad_order()[k - 1]) {
            seq![button_for(joypad_order()[k - 1])->Some_0]
        } else {
            Seq::empty()
        }
    }
}

fn same_button(a: JoypadButton, b: JoypadButton) -> (r: bool)
    ensures
        r == (a == b),
{
    match (a, b) {
        (JoypadButton::Up, JoypadButton::Up) => true,
        (JoypadButton::Down, JoypadButton::Down) => true,
        (JoypadButton::Left, JoypadButton::Left) => true,
        (JoypadButton::Right, JoypadButton::Right) => true,
        (JoypadButton::Start, JoypadButton::Start) => true,
        (JoypadButton::Select, JoypadButton::Select) => true,
        (JoypadButton::A, JoypadButton::A) => true,
        (JoypadButton::B, JoypadButton::B) => true,
        (JoypadButton::X, JoypadButton::X) => true,
        (JoypadButton::Y, JoypadButton::Y) => true,
        _ => false,
    }
}

/// Whether the button is among those held.
fn is_held(held: &Vec<JoypadButton>, b: JoypadButton) -> (r: bool)
    ensures
        r == held@.contains(b),
{
    let mut i: usize = 0;
    while i < held.len()
        invariant
            i <= held.len(),
            forall|k: int| 0 <= k < i ==> held@[k] != b,
        decreases held.len() - i,
    {
        if same_button(held[i], b) {
            assert(held@[i as int] == b);
            return true;
        }
        i = i + 1;
    }
    false
}

/// The plan of a frame, given its number (counted from 1) and the joypad
/// buttons held.
pub fn frame_plan(frame_counter: u64, held: &Vec<JoypadButton>) -> (p: FramePlan)
    ensures
        p.release == (frame_counter % 2 == 0),
        p.presses@ == presses_upto(held@, 8),
        p.show == held@.contains(JoypadButton::Select),
        p.step == held@.contains(JoypadButton::X),
{
    let order = [
        JoypadButton::Y,
        JoypadButton::B,
        JoypadButton::A,
        JoypadButton::Start,
        JoypadButton::Up,
        JoypadButton::Down,
        JoypadButton::Left,
        JoypadButton::Right,
    ];
    assert(order@ == joypad_order());
    let mut presses: Vec<RedshiftButton> = Vec::new();
    let mut k: usize = 0;
    while k < 8
        invariant
            k <= 8,
            order@ == joypad_order(),
            presses@ == presses_upto(held@, k as int),
        decreases 8 - k,
    {
        let j = order[k];
        if is_held(held, j) {
            match redshift_button(j) {
                Some(b) => presses.push(b),
                None => {},
            }
        }
        k = k + 1;
    }
    FramePlan {
        release: frame_counter % 2 == 0,
        presses,
        show: is_held(held, JoypadButton::Select),
        step: is_held(held, JoypadButton::X),
    }
}

} // verus!
