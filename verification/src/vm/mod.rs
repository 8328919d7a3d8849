//! The EXA virtual machine: hosts, links, registers, files and message buses.

use vstd::prelude::*;
use vstd::std_specs::cmp::PartialEqSpecImpl;

pub mod audio;
pub mod bus;
pub mod cycle;
pub mod error;
pub mod exa;
pub mod file;
pub mod instruction;
pub mod redshift;
pub mod register;
pub mod runtime;

use bus::{MessageBus, SpecBus};
use error::ExaError;
use file::{files_view, File, SpecFile};
use register::Register;
use exa::{Exa, SpecExa};
use exa::invariants::{count_in, exa_ok};
use redshift::RedshiftEnvironment;
use crate::text::{chars_eq, chars_to_lower, lower_chars, str_chars, string_from_chars};

verus! {

#[derive(Debug, Clone, Copy, PartialEq, Eq)]
pub enum Permissions {
    Denied,
    ReadOnly,
    WriteOnly,
    ReadWrite,
}

#[derive(Debug, Clone, Copy, PartialEq, Eq)]
pub struct HostLink {
    /// Index of the destination in the network's hosts.
    pub to_host: usize,
    // links can only support one traversal per cycle
    pub traversed_this_cycle: bool,
}

#[derive(Debug)]
pub struct Host {
    pub name: String,
    // capacity is total squares that can be occupied by EXAs or files.
    // Do NOT include squares that are occupied by registers,
    // level art, or anything else.
    pub capacity: usize,
    // occupied is how much of the capacity is currently filled
    pub occupied: usize,
    // key is the number of the link that needs to be passed to the LINK op
    pub links: Vec<(i32, HostLink)>,
    /// Hardware registers, keyed by their lowercased names.
    pub registers: Vec<(String, Register)>,
    pub bus: MessageBus,
    pub files: Vec<File>,
}

#[verifier::ext_equal]
pub struct SpecHost {
    pub name: Seq<char>,
    pub capacity: nat,
    pub occupied: nat,
    pub links: Seq<(i32, HostLink)>,
    pub registers: Seq<(Seq<char>, Register)>,
    pub bus: SpecBus,
    pub files: Seq<SpecFile>,
}

impl View for Host {
    type V = SpecHost;

    open spec fn view(&self) -> SpecHost {
        SpecHost {
            name: self.name@,
            capacity: self.capacity as nat,
            occupied: self.occupied as nat,
            links: self.links@,
            registers: self.registers@.map_values(|e: (String, Register)| (e.0@, e.1)),
            bus: self.bus@,
            files: files_view(self.files@),
        }
    }
}

/// Index of the first entry with the given key.
pub open spec fn find_key<K, V>(entries: Seq<(K, V)>, key: K) -> Option<int>
    decreases entries.len(),
{
    if entries.len() == 0 {
        None
    } else {
        match find_key(entries.drop_last(), key) {
            Some(i) => Some(i),
            None => if entries.last().0 == key {
                Some(entries.len() - 1)
            } else {
                None
            },
        }
    }
}

pub proof fn lemma_find_key<K, V>(entries: Seq<(K, V)>, key: K)
    ensures
        find_key(entries, key) matches Some(i) ==> 0 <= i < entries.len() && entries[i].0 == key
            && forall|j: int| 0 <= j < i ==> entries[j].0 != key,
        find_key(entries, key) is None ==> forall|j: int|
            0 <= j < entries.len() ==> entries[j].0 != key,
    decreases entries.len(),
{
    if entries.len() > 0 {
        let init = entries.drop_last();
        lemma_find_key(init, key);
        assert forall|j: int| 0 <= j < init.len() implies init[j] == entries[j] by {}
    }
}

/// Map insertion: the entry with that key takes the new value, or a new entry is
/// added at the end.
pub open spec fn insert_key<K, V>(entries: Seq<(K, V)>, key: K, value: V) -> Seq<(K, V)> {
    match find_key(entries, key) {
        Some(i) => entries.update(i, (key, value)),
        None => entries.push((key, value)),
    }
}

impl SpecHost {
    pub open spec fn wf(self) -> bool {
        &&& self.occupied <= self.capacity
        &&& self.bus.wf()
    }

    pub open spec fn link(self, id: i32) -> Option<HostLink> {
        match find_key(self.links, id) {
            Some(i) => Some(self.links[i].1),
            None => None,
        }
    }

    pub open spec fn register(self, name: Seq<char>) -> Option<Register> {
        match find_key(self.registers, name) {
            Some(i) => Some(self.registers[i].1),
            None => None,
        }
    }

    /// What `reserve_slot` does: one more square taken, if one is free.
    pub open spec fn reserve(self) -> (SpecHost, Result<(), ExaError>) {
        if self.capacity <= self.occupied {
            (self, Err(host_full()))
        } else {
            (SpecHost { occupied: self.occupied + 1, ..self }, Ok(()))
        }
    }

    /// What `free_slot` does: one square less taken.
    pub open spec fn freed(self) -> SpecHost {
        SpecHost { occupied: (self.occupied - 1) as nat, ..self }
    }
}

/// A reservation fails exactly when the host is full, and then changes
/// nothing; freeing the square a reservation took gives the host back as it was.
pub proof fn law_free_undoes_reserve(h: SpecHost)
    ensures
        h.reserve().1 is Err <==> h.capacity <= h.occupied,
        h.reserve().1 is Err ==> h.reserve().0 == h,
        h.reserve().1 is Ok ==> h.reserve().0.freed() == h,
{
}

pub open spec fn host_full() -> ExaError {
    ExaError::Blocking("host has no remaining capacity")
}

/// Hosts are told apart by name.
impl PartialEq for Host {
    fn eq(&self, other: &Self) -> (r: bool) {
        crate::text::string_eq_str(&self.name, other.name.as_str())
    }
}

impl PartialEqSpecImpl for Host {
    open spec fn obeys_eq_spec() -> bool {
        true
    }

    open spec fn eq_spec(&self, other: &Self) -> bool {
        self.name@ == other.name@
    }
}

impl Eq for Host {}

impl Host {
    pub fn new(name: String, capacity: usize) -> (h: Host)
        ensures
            h@.name == name@,
            h@.capacity == capacity,
            h@.occupied == 0,
            h@.links.len() == 0,
            h@.registers.len() == 0,
            h@.bus == SpecBus::empty(),
            h@.files.len() == 0,
            h@.wf(),
    {
        Host {
            name,
            capacity,
            occupied: 0,
            links: Vec::new(),
            registers: Vec::new(),
            bus: MessageBus::new(),
            files: Vec::new(),
        }
    }

    /// Increments occupied by 1, if there is remaining capacity. Successful
    /// calls mean you need to free_slot later when you leave the Host.
    pub fn reserve_slot(&mut self) -> (r: Result<(), ExaError>)
        ensures
            (final(self)@, r) == old(self)@.reserve(),
    {
        if self.capacity <= self.occupied {
            return Err(ExaError::Blocking("host has no remaining capacity"));
        }
        self.occupied = self.occupied + 1;
        Ok(())
    }

    /// Decrements occupied by 1. Call this when you move out of a Host.
    pub fn free_slot(&mut self)
        requires
            old(self).occupied > 0,
        ensures
            final(self)@ == old(self)@.freed(),
    {
        self.occupied = self.occupied - 1;
    }

    /// Adds a hardware register under its lowercased name, replacing one of the
    /// same name.
    pub fn add_register(&mut self, name: String, register: Register)
        ensures
            final(self)@ == (SpecHost {
                registers: insert_key(old(self)@.registers, lower_chars(name@), register),
                ..old(self)@
            }),
    {
        let key = chars_to_lower(&str_chars(name.as_str()));
        let ghost entries = self@.registers;
        match self.find_register(&key) {
            Some(i) => {
                proof {
                    lemma_find_key(entries, key@);
                }
                self.registers.set(i, (string_from_chars(&key), register));
                assert(self@.registers =~= entries.update(i as int, (key@, register)));
            },
            None => {
                self.registers.push((string_from_chars(&key), register));
                assert(self@.registers =~= entries.push((key@, register)));
            },
        }
    }

    /// Position of the link with the given id.
    pub fn find_link(&self, id: i32) -> (r: Option<usize>)
        ensures
            match r {
                Some(i) => find_key(self@.links, id) == Some(i as int),
                None => find_key(self@.links, id) is None,
            },
    {
        proof {
            lemma_find_key(self@.links, id);
        }
        let mut i: usize = 0;
        while i < self.links.len()
            invariant
                i <= self.links.len(),
                forall|j: int| 0 <= j < i ==> self@.links[j].0 != id,
            decreases self.links.len() - i,
        {
            if self.links[i].0 == id {
                proof {
                    lemma_find_key(self@.links, id);
                    if let Some(k) = find_key(self@.links, id) {
                        if k != i {
                            assert(self@.links[k].0 == id);
                        }
                    }
                }
                return Some(i);
            }
            i = i + 1;
        }
        proof {
            if let Some(k) = find_key(self@.links, id) {
                assert(self@.links[k].0 == id);
            }
        }
        None
    }

    /// Position of the hardware register with the given (lowercased) name.
    pub fn find_register(&self, name: &Vec<char>) -> (r: Option<usize>)
        ensures
            match r {
                Some(i) => find_key(self@.registers, name@) == Some(i as int),
                None => find_key(self@.registers, name@) is None,
            },
    {
        proof {
            lemma_find_key(self@.registers, name@);
        }
        let mut i: usize = 0;
        while i < self.registers.len()
            invariant
                i <= self.registers.len(),
                forall|j: int| 0 <= j < i ==> self@.registers[j].0 != name@,
            decreases self.registers.len() - i,
        {
            assert(self@.registers[i as int].0 == self.registers@[i as int].0@);
            if chars_eq(&str_chars(self.registers[i].0.as_str()), name) {
                proof {
                    lemma_find_key(self@.registers, name@);
                    assert(self@.registers[i as int].0 == name@);
                }
                return Some(i);
            }
            i = i + 1;
        }
        proof {
            if let Some(k) = find_key(self@.registers, name@) {
                assert(self@.registers[k].0 == name@);
            }
        }
        None
    }
}


/// Everything an EXA's instructions can reach besides the EXA itself: the hosts,
/// the global message bus, the counters that number files and replicated EXAs,
/// and the EXAs that REPL has created and the VM has not yet taken in.
#[derive(Debug)]
pub struct Network {
    pub hosts: Vec<Host>,
    pub bus: MessageBus,
    /// The id the next new file gets.
    pub file_counter: i32,
    /// For each family of EXAs (one spawned EXA and its replicas), the number
    /// the next replica gets.
    pub spawn_counters: Vec<u64>,
    pub spawned: Vec<Exa>,
}

#[verifier::ext_equal]
pub struct SpecNetwork {
    pub hosts: Seq<SpecHost>,
    pub bus: SpecBus,
    pub file_counter: i32,
    pub spawn_counters: Seq<u64>,
    pub spawned: Seq<SpecExa>,
}

impl View for Network {
    type V = SpecNetwork;

    open spec fn view(&self) -> SpecNetwork {
        SpecNetwork {
            hosts: self.hosts@.map_values(|h: Host| h@),
            bus: self.bus@,
            file_counter: self.file_counter,
            spawn_counters: self.spawn_counters@,
            spawned: self.spawned@.map_values(|e: Exa| e@),
        }
    }
}

impl SpecNetwork {
    /// Hosts are well formed and links lead to hosts that exist.
    pub open spec fn wf(self) -> bool {
        &&& self.bus.wf()
        &&& forall|h: int| 0 <= h < self.hosts.len() ==> #[trigger] self.hosts[h].wf()
        &&& forall|h: int, k: int|
            0 <= h < self.hosts.len() && 0 <= k < self.hosts[h].links.len() ==> #[trigger] self.hosts[h].links[k].1.to_host
                < self.hosts.len()
    }

    pub open spec fn with_host(self, h: int, host: SpecHost) -> SpecNetwork {
        SpecNetwork { hosts: self.hosts.update(h, host), ..self }
    }
}

/// The next value of a counter that wraps around, as atomic counters do.
pub open spec fn next_file_id(c: i32) -> i32 {
    if c == i32::MAX {
        i32::MIN
    } else {
        (c + 1) as i32
    }
}

pub open spec fn next_spawn_id(c: u64) -> u64 {
    if c == u64::MAX {
        0
    } else {
        (c + 1) as u64
    }
}

/// The Redshift screen: 120 columns by 100 rows.
pub const SCREEN_PIXELS: usize = 12000;

#[derive(Debug)]
pub struct VM {
    pub cycle: u64,
    /// Hosts, global bus, file numbering and replica counters.
    pub network: Network,
    pub exas: Vec<Exa>,
    pub framebuffer: [bool; 12000],
    pub redshift: Option<RedshiftEnvironment>,
}

pub struct SpecVM {
    pub cycle: u64,
    pub net: SpecNetwork,
    pub exas: Seq<SpecExa>,
    pub framebuffer: Seq<bool>,
    pub redshift: bool,
}

pub open spec fn exas_view(v: Seq<Exa>) -> Seq<SpecExa> {
    v.map_values(|e: Exa| e@)
}

impl View for VM {
    type V = SpecVM;

    open spec fn view(&self) -> SpecVM {
        SpecVM {
            cycle: self.cycle,
            net: self.network@,
            exas: exas_view(self.exas@),
            framebuffer: self.framebuffer@,
            redshift: self.redshift is Some,
        }
    }
}

/// The VM's invariant: the network is well formed and holds no replica in
/// waiting, every EXA can live in it, and every host has exactly as many
/// squares taken as it holds files and EXAs.
pub open spec fn vm_wf(net: SpecNetwork, exas: Seq<SpecExa>) -> bool {
    &&& net.wf()
    &&& net.spawned.len() == 0
    &&& forall|i: int| 0 <= i < exas.len() ==> exa_ok(#[trigger] exas[i], net)
    &&& forall|h: int|
        0 <= h < net.hosts.len() ==> #[trigger] net.hosts[h].occupied == net.hosts[h].files.len()
            + count_in(exas, h)
}

impl SpecVM {
    pub open spec fn wf(self) -> bool {
        &&& vm_wf(self.net, self.exas)
        &&& self.framebuffer.len() == SCREEN_PIXELS
    }
}

/// Index of the first host with the given name.
pub open spec fn host_named(hosts: Seq<SpecHost>, name: Seq<char>) -> Option<int>
    decreases hosts.len(),
{
    if hosts.len() == 0 {
        None
    } else {
        match host_named(hosts.drop_last(), name) {
            Some(i) => Some(i),
            None => if hosts.last().name == name {
                Some(hosts.len() - 1)
            } else {
                None
            },
        }
    }
}

pub proof fn lemma_host_named(hosts: Seq<SpecHost>, name: Seq<char>)
    ensures
        host_named(hosts, name) matches Some(i) ==> 0 <= i < hosts.len() && hosts[i].name == name
            && forall|j: int| 0 <= j < i ==> hosts[j].name != name,
        host_named(hosts, name) is None ==> forall|j: int|
            0 <= j < hosts.len() ==> hosts[j].name != name,
    decreases hosts.len(),
{
    if hosts.len() > 0 {
        let init = hosts.drop_last();
        lemma_host_named(init, name);
        assert forall|j: int| 0 <= j < init.len() implies init[j] == hosts[j] by {}
    }
}

/// Index of the first EXA with the given name.
pub open spec fn exa_named(exas: Seq<SpecExa>, name: Seq<char>) -> Option<int>
    decreases exas.len(),
{
    if exas.len() == 0 {
        None
    } else {
        match exa_named(exas.drop_last(), name) {
            Some(i) => Some(i),
            None => if exas.last().name == name {
                Some(exas.len() - 1)
            } else {
                None
            },
        }
    }
}

pub proof fn lemma_exa_named(exas: Seq<SpecExa>, name: Seq<char>)
    ensures
        exa_named(exas, name) matches Some(i) ==> 0 <= i < exas.len() && exas[i].name == name
            && forall|j: int| 0 <= j < i ==> exas[j].name != name,
        exa_named(exas, name) is None ==> forall|j: int|
            0 <= j < exas.len() ==> exas[j].name != name,
    decreases exas.len(),
{
    if exas.len() > 0 {
        let init = exas.drop_last();
        lemma_exa_named(init, name);
        assert forall|j: int| 0 <= j < init.len() implies init[j] == exas[j] by {}
    }
}

/// The hosts after `add_host`: a host of the same name is replaced, else the
/// new one is added at the end.
pub open spec fn hosts_with(hosts: Seq<SpecHost>, h: SpecHost) -> Seq<SpecHost> {
    match host_named(hosts, h.name) {
        Some(i) => hosts.update(i, h),
        None => hosts.push(h),
    }
}

pub proof fn lemma_count_in_zero(exas: Seq<SpecExa>, h: int)
    requires
        forall|i: int| 0 <= i < exas.len() ==> exas[i].host != h,
    ensures
        count_in(exas, h) == 0,
    decreases exas.len(),
{
    if exas.len() > 0 {
        lemma_count_in_zero(exas.drop_last(), h);
    }
}

impl VM {
    pub fn new() -> (vm: VM)
        ensures
            vm@.cycle == 0,
            vm@.net.hosts.len() == 0,
            vm@.net.bus == SpecBus::empty(),
            vm@.net.file_counter == 400,
            vm@.net.spawn_counters.len() == 0,
            vm@.exas.len() == 0,
            vm@.framebuffer == Seq::new(SCREEN_PIXELS as nat, |i: int| false),
            !vm@.redshift,
            vm@.wf(),
    {
        let vm = VM {
            cycle: 0,
            network: Network {
                hosts: Vec::new(),
                bus: MessageBus::new(),
                file_counter: 400,
                spawn_counters: Vec::new(),
                spawned: Vec::new(),
            },
            exas: Vec::new(),
            framebuffer: [false; 12000],
            redshift: None,
        };
        assert(vm@.net.hosts =~= Seq::empty());
        assert(vm@.net.spawned =~= Seq::empty());
        assert(vm@.exas =~= Seq::empty());
        assert(vm@.framebuffer =~= Seq::new(SCREEN_PIXELS as nat, |i: int| false));
        vm
    }

    /// Position of the host with the given name.
    pub fn host_index(&self, name: &str) -> (r: Option<usize>)
        ensures
            match r {
                Some(i) => host_named(self@.net.hosts, name@) == Some(i as int),
                None => host_named(self@.net.hosts, name@) is None,
            },
    {
        let ghost hosts = self@.net.hosts;
        proof {
            lemma_host_named(hosts, name@);
        }
        let key = str_chars(name);
        let mut i: usize = 0;
        while i < self.network.hosts.len()
            invariant
                i <= self.network.hosts.len(),
                hosts == self@.net.hosts,
                key@ == name@,
                forall|j: int| 0 <= j < i ==> hosts[j].name != name@,
            decreases self.network.hosts.len() - i,
        {
            let hn = str_chars(self.network.hosts[i].name.as_str());
            assert(hn@ == hosts[i as int].name);
            if chars_eq(&hn, &key) {
                proof {
                    lemma_host_named(hosts, name@);
                    if let Some(k) = host_named(hosts, name@) {
                        if k < i {
                            assert(hosts[k].name != name@);
                        }
                    }
                }
                return Some(i);
            }
            i = i + 1;
        }
        proof {
            if let Some(k) = host_named(hosts, name@) {
                assert(hosts[k].name == name@);
            }
        }
        None
    }

    /// Adds a host, replacing the host of the same name if there is one. The
    /// new host starts with no EXAs, and squares taken by its files only; the
    /// host it replaces must hold no EXA.
    pub fn add_host(&mut self, host: Host)
        requires
            old(self)@.wf(),
            host@.wf(),
            host@.occupied == host@.files.len(),
            forall|k: int| 0 <= k < host@.links.len() ==> #[trigger] host@.links[k].1.to_host < old(self)@.net.hosts.len(),
            forall|i: int| 0 <= i < old(self)@.exas.len() ==> #[trigger] old(self)@.exas[i].host != host_named(
                old(self)@.net.hosts,
                host@.name,
            ).unwrap_or(-1),
        ensures
            final(self)@ == (SpecVM {
                net: SpecNetwork { hosts: hosts_with(old(self)@.net.hosts, host@), ..old(self)@.net },
                ..old(self)@
            }),
            final(self)@.wf(),
    {
        let ghost old_hosts = self@.net.hosts;
        let ghost exas = self@.exas;
        proof {
            lemma_host_named(old_hosts, host@.name);
        }
        match self.host_index(host.name.as_str()) {
            Some(i) => {
                self.network.hosts.set(i, host);
                assert(self@.net.hosts =~= old_hosts.update(i as int, host@));
                proof {
                    lemma_count_in_zero(exas, i as int);
                }
            },
            None => {
                let n = self.network.hosts.len();
                self.network.hosts.push(host);
                assert(self@.net.hosts =~= old_hosts.push(host@));
                proof {
                    lemma_count_in_zero(exas, n as int);
                }
            },
        }
        let ghost hosts = self@.net.hosts;
        assert forall|h: int| 0 <= h < hosts.len() implies #[trigger] hosts[h].wf() by {
            if h < old_hosts.len() && hosts[h] == old_hosts[h] {
                assert(old_hosts[h].wf());
            }
        }
        assert forall|h: int, k: int| 0 <= h < hosts.len() && 0 <= k < hosts[h].links.len() implies #[trigger] hosts[h].links[k].1.to_host
            < hosts.len() by {
            if h < old_hosts.len() && hosts[h] == old_hosts[h] {
                assert(old_hosts[h].links[k].1.to_host < old_hosts.len());
            }
        }
        assert forall|i: int| 0 <= i < exas.len() implies exa_ok(#[trigger] exas[i], self@.net) by {
            assert(exa_ok(exas[i], old(self)@.net));
        }
        assert forall|h: int| 0 <= h < hosts.len() implies #[trigger] hosts[h].occupied == hosts[h].files.len()
            + count_in(exas, h) by {
            if h < old_hosts.len() && hosts[h] == old_hosts[h] {
                assert(old_hosts[h].occupied == old_hosts[h].files.len() + count_in(exas, h));
            }
        }
    }

    /// Adds (or replaces) the link with the given id from one host to another.
    pub fn add_link(&mut self, link_id: i32, from_host: usize, to_host: usize)
        requires
            old(self)@.wf(),
            from_host < old(self)@.net.hosts.len(),
            to_host < old(self)@.net.hosts.len(),
        ensures
            final(self)@ == (SpecVM {
                net: old(self)@.net.with_host(
                    from_host as int,
                    SpecHost {
                        links: insert_key(
                            old(self)@.net.hosts[from_host as int].links,
                            link_id,
                            HostLink { to_host, traversed_this_cycle: false },
                        ),
                        ..old(self)@.net.hosts[from_host as int]
                    },
                ),
                ..old(self)@
            }),
            final(self)@.wf(),
    {
        let ghost old_net = self@.net;
        let ghost exas = self@.exas;
        let link = HostLink { to_host, traversed_this_cycle: false };
        let ghost links = old_net.hosts[from_host as int].links;
        proof {
            lemma_find_key(links, link_id);
        }
        match self.network.hosts[from_host].find_link(link_id) {
            Some(k) => {
                self.network.hosts[from_host].links.set(k, (link_id, link));
            },
            None => {
                self.network.hosts[from_host].links.push((link_id, link));
            },
        }
        assert(self@.net.hosts[from_host as int].links =~= insert_key(links, link_id, link));
        assert(self@.net.hosts =~= old_net.hosts.update(from_host as int, self@.net.hosts[from_host as int]));
        let ghost hosts = self@.net.hosts;
        assert forall|h: int| 0 <= h < hosts.len() implies #[trigger] hosts[h].wf() by {
            assert(old_net.hosts[h].wf());
        }
        assert forall|h: int, k: int| 0 <= h < hosts.len() && 0 <= k < hosts[h].links.len() implies #[trigger] hosts[h].links[k].1.to_host
            < hosts.len() by {
            if h != from_host {
                assert(old_net.hosts[h].links[k].1.to_host < old_net.hosts.len());
            } else {
                if hosts[h].links[k].0 != link_id {
                    assert(links.contains(hosts[h].links[k]));
                    let j = choose|j: int| 0 <= j < links.len() && links[j] == hosts[h].links[k];
                    assert(old_net.hosts[h].links[j].1.to_host < old_net.hosts.len());
                }
            }
        }
        assert forall|i: int| 0 <= i < exas.len() implies exa_ok(#[trigger] exas[i], self@.net) by {
            assert(exa_ok(exas[i], old_net));
        }
        assert forall|h: int| 0 <= h < hosts.len() implies #[trigger] hosts[h].occupied == hosts[h].files.len()
            + count_in(exas, h) by {
            assert(old_net.hosts[h].occupied == old_net.hosts[h].files.len() + count_in(exas, h));
        }
    }

    /// Takes an EXA into the VM; its square in its host must already be taken.
    pub fn register_exa(&mut self, exa: Exa)
        requires
            vm_wf(old(self)@.net, old(self)@.exas.push(exa@)),
            old(self)@.framebuffer.len() == SCREEN_PIXELS,
        ensures
            final(self)@ == (SpecVM { exas: old(self)@.exas.push(exa@), ..old(self)@ }),
            final(self)@.wf(),
            final(self).redshift == old(self).redshift,
    {
        self.exas.push(exa);
        assert(self@.exas =~= old(self)@.exas.push(exa@));
    }

    /// Position of the first EXA with the given name, which must exist.
    pub fn get_exa(&self, name: &str) -> (r: usize)
        requires
            exa_named(self@.exas, name@) is Some,
        ensures
            exa_named(self@.exas, name@) == Some(r as int),
    {
        match self.find_exa(name) {
            Some(i) => i,
            None => {
                proof {
                    lemma_exa_named(self@.exas, name@);
                }
                0
            },
        }
    }

    /// Position of the first EXA with the given name, if any.
    pub fn find_exa(&self, name: &str) -> (r: Option<usize>)
        ensures
            match r {
                Some(i) => exa_named(self@.exas, name@) == Some(i as int),
                None => exa_named(self@.exas, name@) is None,
            },
    {
        let ghost exas = self@.exas;
        proof {
            lemma_exa_named(exas, name@);
        }
        let key = str_chars(name);
        let mut i: usize = 0;
        while i < self.exas.len()
            invariant
                i <= self.exas.len(),
                exas == self@.exas,
                key@ == name@,
                forall|j: int| 0 <= j < i ==> exas[j].name != name@,
            decreases self.exas.len() - i,
        {
            let en = str_chars(self.exas[i].name.as_str());
            assert(en@ == exas[i as int].name);
            if chars_eq(&en, &key) {
                proof {
                    lemma_exa_named(exas, name@);
                    if let Some(k) = exa_named(exas, name@) {
                        if k < i {
                            assert(exas[k].name != name@);
                        }
                    }
                }
                return Some(i);
            }
            i = i + 1;
        }
        proof {
            if let Some(k) = exa_named(exas, name@) {
                assert(exas[k].name == name@);
            }
        }
        None
    }
}

} // verus!
