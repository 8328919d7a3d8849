//! The VM run cycle by cycle: EXAs spawned into a small network, their
//! registers, files, positions and errors checked after each cycle.

use std::collections::HashMap;

use exa::vm::error::ExaError;
use exa::vm::exa::{Exa, Mode, Registers};
use exa::vm::register::Register;
use exa::vm::{Host, Permissions, VM};

/// What an EXA looked like when last seen alive: an EXA removed from the VM
/// never changes again, so checks on it go by this.
#[derive(Clone, Copy)]
struct LastSeen {
    error: Option<ExaError>,
    registers: Registers,
}

struct TestBench {
    vm: VM,
    spawned: usize,
    redshift: bool,
    last_seen: HashMap<String, LastSeen>,
}

impl TestBench {
    /// basic_vm provides a VM with two hosts, each with capacity 4.
    /// Host "start" is linked to host "end" via a 800<->-1 link. A
    /// ReadWrite register #REG exists in "start" and is initialized to 100.
    fn basic_vm() -> TestBench {
        let mut h1 = Host::new(String::from("start"), 4);
        h1.add_register(String::from("#REG"), Register::new(Permissions::ReadWrite, 100));
        let h2 = Host::new(String::from("end"), 4);

        let mut vm = VM::new();
        vm.add_host(h1);
        vm.add_host(h2);
        vm.add_link(800, 0, 1);
        vm.add_link(-1, 1, 0);

        TestBench { vm, spawned: 0, redshift: false, last_seen: HashMap::new() }
    }

    fn redshift_vm() -> TestBench {
        TestBench { vm: VM::new_redshift(), spawned: 0, redshift: true, last_seen: HashMap::new() }
    }

    /// Spawn an Exa in the first host; returns its name.
    fn exa(&mut self, script: &str) -> String {
        let host = if self.redshift { "core" } else { "start" };
        self.exa_custom(script, host, Mode::Global)
    }

    /// Spawn an Exa, with all available options.
    fn exa_custom(&mut self, script: &str, host: &str, mode: Mode) -> String {
        let h = self.vm.host_index(host).expect("unknown host");
        let name = format!("x{}", self.spawned);
        self.spawned += 1;
        let idx = Exa::spawn(&mut self.vm, h, name.clone(), self.redshift, script).expect("cannot spawn");
        self.vm.exas[idx].mode = mode;
        name
    }

    fn index(&self, name: &str) -> usize {
        self.vm.find_exa(name).expect("exa is not alive")
    }

    fn run_cycle(&mut self) {
        for e in self.vm.exas.iter() {
            self.last_seen.insert(e.name.clone(), LastSeen { error: e.error, registers: e.registers });
        }
        self.vm.run_cycle();
    }

    fn last_seen(&self, name: &str) -> LastSeen {
        *self.last_seen.get(name).expect("exa never seen")
    }

    fn assert_position(&self, name: &str, hostname: &str) {
        let e = &self.vm.exas[self.index(name)];
        assert_eq!(self.vm.network.hosts[e.host].name, hostname);
    }

    fn assert_exa_register(&mut self, name: &str, specifier: &str, value: i32) {
        let v = match self.vm.find_exa(name) {
            Some(i) => self.vm.exas[i].read_register(&mut self.vm.network, specifier).unwrap(),
            None => {
                let r = self.last_seen(name).registers;
                match specifier {
                    "x" => r.x.value,
                    "t" => r.t.value,
                    _ => panic!("register {} of a removed exa", specifier),
                }
            }
        };
        assert_eq!(v, value, "wanted {} got {}", value, v);
    }

    fn assert_exa_no_file(&self, name: &str) {
        assert!(self.vm.exas[self.index(name)].file.is_none());
    }

    fn assert_exa_file(&self, name: &str, file_id: i32) {
        let e = &self.vm.exas[self.index(name)];
        assert_eq!(e.file.as_ref().expect("no file held").id, file_id);
    }

    fn assert_exa_file_contents(&self, name: &str, contents: Vec<i32>) {
        let e = &self.vm.exas[self.index(name)];
        assert_eq!(e.file.as_ref().expect("no file held").contents, contents);
    }

    fn assert_host_file(&self, hostname: &str, file_id: i32) {
        let h = self.vm.host_index(hostname).expect("unknown host");
        assert!(self.vm.network.hosts[h].files.iter().any(|f| f.id == file_id), "file not found");
    }

    fn assert_host_no_file(&self, hostname: &str, file_id: i32) {
        let h = self.vm.host_index(hostname).expect("unknown host");
        assert!(!self.vm.network.hosts[h].files.iter().any(|f| f.id == file_id), "file found");
    }

    fn error(&self, name: &str) -> Option<ExaError> {
        match self.vm.find_exa(name) {
            Some(i) => self.vm.exas[i].error,
            None => self.last_seen(name).error,
        }
    }

    fn assert_fatal_error(&self, name: &str) {
        match self.error(name) {
            Some(ExaError::Fatal(_)) => (),
            other => panic!("expected fatal error, got {:?}", other),
        }
    }

    fn assert_blocking_error(&self, name: &str) {
        match self.error(name) {
            Some(ExaError::Blocking(_)) => (),
            other => panic!("expected blocking error, got {:?}", other),
        }
    }

    fn assert_freezing_error(&self, name: &str) {
        match self.error(name) {
            Some(ExaError::Freezing(_)) => (),
            other => panic!("expected freezing error, got {:?}", other),
        }
    }

    fn assert_no_error(&self, name: &str) {
        let e = self.error(name);
        assert!(e.is_none(), "expected no error, got {:?}", e);
    }

    fn assert_alive(&self, name: &str) {
        assert!(self.vm.find_exa(name).is_some(), "exa is not alive");
    }

    fn assert_dead(&self, name: &str) {
        assert!(self.vm.find_exa(name).is_none(), "exa is alive");
    }
}

// basic

#[test]
fn test_halt_kills_exa() {
    let mut bench = TestBench::basic_vm();
    let e = bench.exa("halt\n");

    bench.assert_alive(&e);
    bench.run_cycle();
    bench.assert_alive(&e);
    bench.assert_fatal_error(&e);
    bench.run_cycle();
    bench.assert_dead(&e);
}

#[test]
fn test_out_of_instructions() {
    let mut bench = TestBench::basic_vm();
    let e = bench.exa("noop\n");

    bench.assert_alive(&e);
    bench.run_cycle();
    bench.assert_alive(&e);
    bench.assert_fatal_error(&e);
    bench.run_cycle();
    bench.assert_dead(&e);
}

#[test]
fn test_empty_exa() {
    let mut bench = TestBench::basic_vm();
    let e = bench.exa("\n");

    bench.run_cycle();
    bench.assert_fatal_error(&e);
}

// collision

#[test]
fn test_no_collision() {
    let mut bench = TestBench::redshift_vm();
    let e1 = bench.exa("copy 100 gp\n noop\n");
    let e2 = bench.exa("copy 111 gp\n noop\n");

    bench.assert_exa_register(&e1, "ci", -9999);
    bench.assert_exa_register(&e2, "ci", -9999);
    bench.run_cycle();
    bench.assert_exa_register(&e1, "ci", -9999);
    bench.assert_exa_register(&e2, "ci", -9999);
}

#[test]
fn test_collision_and_reset() {
    let mut bench = TestBench::redshift_vm();
    let e1 = bench.exa("copy 1 co\n copy 100 gp\n copy 0 gp\n noop\n");
    let e2 = bench.exa("copy 2 co\n copy 100 gp\n noop\n noop\n");

    bench.run_cycle();
    bench.assert_exa_register(&e1, "ci", -9999);
    bench.assert_exa_register(&e2, "ci", -9999);
    bench.run_cycle();
    // collision detection happens before exa cycles
    bench.assert_exa_register(&e1, "ci", -9999);
    bench.assert_exa_register(&e2, "ci", -9999);
    bench.run_cycle();
    // now they collided
    bench.assert_exa_register(&e1, "ci", 2);
    bench.assert_exa_register(&e2, "ci", 1);
    bench.run_cycle();
    // reset after first sprite is zeroed out
    bench.assert_exa_register(&e1, "ci", -9999);
    bench.assert_exa_register(&e2, "ci", -9999);
}

#[test]
fn test_out_of_bounds_collision() {
    let mut bench = TestBench::redshift_vm();
    let e1 = bench.exa("copy -5 gx\n copy 1 co\n copy 100 gp\n copy 0 gp\n noop\n");
    let e2 = bench.exa("copy -5 gx\n copy 2 co\n copy 100 gp\n noop\n noop\n");

    bench.run_cycle();
    bench.run_cycle();
    bench.assert_exa_register(&e1, "ci", -9999);
    bench.assert_exa_register(&e2, "ci", -9999);
    bench.run_cycle();
    // collision detection happens before exa cycles
    bench.assert_exa_register(&e1, "ci", -9999);
    bench.assert_exa_register(&e2, "ci", -9999);
    bench.run_cycle();
    // now they collided
    bench.assert_exa_register(&e1, "ci", 2);
    bench.assert_exa_register(&e2, "ci", 1);
    bench.run_cycle();
    // reset after first sprite is zeroed out
    bench.assert_exa_register(&e1, "ci", -9999);
    bench.assert_exa_register(&e2, "ci", -9999);
}

// data

#[test]
fn test_single_data() {
    let mut bench = TestBench::basic_vm();
    let e1 = bench.exa("data 1 2 3\n file x\n noop\n");

    bench.run_cycle();
    bench.assert_exa_register(&e1, "x", 400);
    bench.assert_exa_file_contents(&e1, vec![1, 2, 3]);
}

#[test]
fn test_multiple_data() {
    let mut bench = TestBench::basic_vm();
    let e1 = bench.exa("data 1 2 3\n file x\n data 4 5 6\n noop\n");

    bench.run_cycle();
    bench.assert_exa_register(&e1, "x", 400);
    bench.assert_exa_file_contents(&e1, vec![1, 2, 3, 4, 5, 6]);
}

// file

#[test]
fn file_handling() {
    let mut bench = TestBench::basic_vm();
    let e1 = bench.exa("make\n drop\n grab 400\n wipe\n noop");

    bench.assert_exa_no_file(&e1);
    bench.run_cycle();
    bench.assert_exa_file(&e1, 400);
    bench.run_cycle();
    bench.assert_exa_no_file(&e1);
    bench.assert_host_file("start", 400);
    bench.run_cycle();
    bench.assert_exa_file(&e1, 400);
    bench.assert_host_no_file("start", 400);
    bench.run_cycle();
    bench.assert_exa_no_file(&e1);
    bench.assert_host_no_file("start", 400);
}

#[test]
fn file_io() {
    let mut bench = TestBench::basic_vm();
    let e1 = bench.exa("make\n copy 1 f\n copy 2 f\n seek -2\n copy f x\n copy f x\n noop\n");

    bench.run_cycle();
    bench.run_cycle();
    bench.run_cycle();
    bench.assert_exa_file_contents(&e1, vec![1, 2]);
    bench.run_cycle();
    bench.run_cycle();
    bench.assert_exa_register(&e1, "x", 1);
    bench.run_cycle();
    bench.assert_exa_register(&e1, "x", 2);
}

#[test]
fn file_seek_bounds() {
    let mut bench = TestBench::basic_vm();
    let e1 = bench.exa(
        "make\n copy 1 f\n copy 2 f\n seek -9999\n copy f x\n seek -9999\n seek 9999\n copy 3 f\n noop\n",
    );

    bench.run_cycle();
    bench.run_cycle();
    bench.run_cycle();
    bench.run_cycle();
    bench.run_cycle();
    bench.assert_exa_register(&e1, "x", 1);
    bench.run_cycle();
    bench.run_cycle();
    bench.run_cycle();
    bench.assert_exa_file_contents(&e1, vec![1, 2, 3]);
}

#[test]
fn make_error() {
    let mut bench = TestBench::basic_vm();
    let e1 = bench.exa("make\n make\n noop\n");

    bench.run_cycle();
    bench.assert_no_error(&e1);
    bench.run_cycle();
    bench.assert_fatal_error(&e1);
}

#[test]
fn wipe_error() {
    let mut bench = TestBench::basic_vm();
    let e1 = bench.exa("wipe\n noop\n");

    bench.run_cycle();
    bench.assert_fatal_error(&e1);
}

#[test]
fn drop_error() {
    let mut bench = TestBench::basic_vm();
    let e1 = bench.exa("drop\n noop\n");

    bench.run_cycle();
    bench.assert_fatal_error(&e1);
}

#[test]
fn grab_error() {
    let mut bench = TestBench::basic_vm();
    let e1 = bench.exa("grab 10\n noop\n");

    bench.run_cycle();
    bench.assert_fatal_error(&e1);
}

// jump

#[test]
fn test_jump() {
    let mut bench = TestBench::basic_vm();
    let e = bench.exa("jump l\n halt\n mark l\n copy 1 x\n");

    bench.run_cycle();
    bench.assert_no_error(&e);
    bench.run_cycle();
    bench.assert_exa_register(&e, "x", 1);
    bench.run_cycle();
    bench.assert_dead(&e);
}

#[test]
fn test_tjmp() {
    let mut bench = TestBench::basic_vm();
    let e = bench.exa("tjmp l\n halt\n mark l\n copy 1 x\n");

    bench.run_cycle();
    bench.assert_no_error(&e);
    bench.run_cycle();
    bench.assert_fatal_error(&e);
    bench.run_cycle();
    bench.assert_dead(&e);
}

#[test]
fn test_tjmp_succeeds() {
    let mut bench = TestBench::basic_vm();
    let e = bench.exa("copy 1 t\n tjmp l\n halt\n mark l\n copy 1 x\n");

    bench.run_cycle();
    bench.run_cycle();
    bench.assert_no_error(&e);
    bench.run_cycle();
    bench.assert_exa_register(&e, "x", 1);
    bench.run_cycle();
    bench.assert_dead(&e);
}

#[test]
fn test_fjmp() {
    let mut bench = TestBench::basic_vm();
    let e = bench.exa("fjmp l\n halt\n mark l\n copy 1 x\n");

    bench.run_cycle();
    bench.assert_no_error(&e);
    bench.run_cycle();
    bench.assert_exa_register(&e, "x", 1);
    bench.run_cycle();
    bench.assert_dead(&e);
}

// kill

#[test]
fn kill_noop() {
    let mut bench = TestBench::basic_vm();
    let e1 = bench.exa("kill\n copy 1 x\n");

    bench.run_cycle();
    bench.assert_no_error(&e1);
    bench.assert_alive(&e1);
    bench.run_cycle();
    bench.assert_exa_register(&e1, "x", 1);
}

#[test]
fn kill_killers() {
    let mut bench = TestBench::basic_vm();
    let e3 = bench.exa("noop\n noop\n");
    let e1 = bench.exa("kill\n noop\n");
    let e2 = bench.exa("kill\n noop\n");

    bench.run_cycle();
    bench.assert_fatal_error(&e1);
    bench.assert_fatal_error(&e2);
    bench.assert_no_error(&e3);
    bench.run_cycle();
    bench.assert_dead(&e1);
    bench.assert_dead(&e2);
    bench.assert_alive(&e3);
}

#[test]
fn kill_prioritize_descendants() {
    let mut bench = TestBench::basic_vm();
    let _e1 = bench.exa("repl end\n kill\n mark end\n noop\n noop\n");
    let e2 = bench.exa("noop\n noop\n noop\n");

    bench.run_cycle();
    let e3 = String::from("x0:1");
    bench.assert_alive(&e3);
    bench.run_cycle();
    bench.assert_fatal_error(&e3);
    bench.assert_no_error(&e2);
}

#[test]
fn kill_prioritize_ancestors() {
    let mut bench = TestBench::basic_vm();
    let e1 = bench.exa("repl end\n noop\n noop\n mark end\n kill\n noop\n");
    let e2 = bench.exa("noop\n noop\n noop\n");

    bench.run_cycle();
    bench.assert_alive("x0:1");
    bench.run_cycle();
    bench.assert_fatal_error(&e1);
    bench.assert_no_error(&e2);
}

// link

#[test]
fn basic_link() {
    let mut bench = TestBench::basic_vm();
    let e = bench.exa("link 800\nlink -1\n");

    bench.assert_position(&e, "start");
    bench.run_cycle();
    bench.assert_position(&e, "end");
    bench.run_cycle();
    bench.assert_position(&e, "start");
}

#[test]
fn invalid_link_errors() {
    let mut bench = TestBench::basic_vm();
    let e = bench.exa("link -999\n");

    bench.assert_position(&e, "start");
    bench.run_cycle();
    bench.assert_position(&e, "start");
    bench.assert_fatal_error(&e);
}

#[test]
fn link_from_exa_register() {
    let mut bench = TestBench::basic_vm();
    let e = bench.exa("copy 800 x\ncopy -1 t\nlink x\nlink t\n");

    bench.assert_position(&e, "start");
    bench.run_cycle();
    bench.run_cycle();
    bench.run_cycle();
    bench.assert_position(&e, "end");
    bench.run_cycle();
    bench.assert_position(&e, "start");
}

#[test]
fn link_from_hardware_register() {
    let mut bench = TestBench::basic_vm();
    let e = bench.exa("copy 800 #REG\nlink #REG\n");

    bench.assert_position(&e, "start");
    bench.run_cycle();
    bench.run_cycle();
    bench.assert_position(&e, "end");
}

#[test]
fn one_directional_blocking_bandwidth() {
    let mut bench = TestBench::basic_vm();
    let e1 = bench.exa("link 800\n");
    let e2 = bench.exa("link 800\n");

    bench.run_cycle();
    bench.assert_position(&e1, "end");
    bench.assert_position(&e2, "start");
    bench.assert_blocking_error(&e2);
    bench.run_cycle();
    bench.assert_position(&e2, "end");
}

#[test]
fn two_directional_blocking_bandwidth() {
    let mut bench = TestBench::basic_vm();
    let e1 = bench.exa("noop\nlink 800\n");
    let e2 = bench.exa("link 800\nlink -1\n");

    bench.run_cycle();
    bench.assert_position(&e1, "start");
    bench.assert_position(&e2, "end");
    bench.run_cycle();
    bench.assert_position(&e1, "end");
    bench.assert_position(&e2, "end");
    bench.assert_blocking_error(&e2);
    bench.run_cycle();
    bench.assert_position(&e2, "start");
}

#[test]
fn test_redshift_links() {
    let mut bench = TestBench::redshift_vm();
    let e1 = bench.exa("link 800\n link -1\n link 801\n link -1 \n link 802 \n link -1\n link 803 \n");

    for _ in 0..=5 {
        bench.run_cycle();
        bench.assert_no_error(&e1);
    }
}

// m

#[test]
fn simple_m_passing() {
    let mut bench = TestBench::basic_vm();
    let e1 = bench.exa("copy 1 m\n");
    let e2 = bench.exa("copy m x\n");

    bench.run_cycle();
    bench.assert_freezing_error(&e1);
    bench.assert_blocking_error(&e2);
    bench.run_cycle();
    bench.assert_fatal_error(&e1);
    bench.assert_fatal_error(&e2);
    bench.assert_exa_register(&e2, "x", 1);
    bench.run_cycle();
    bench.assert_dead(&e1);
    bench.assert_dead(&e2);
}

/// Regression test for message bus unfreezing causing crash
/// based on order that relevant EXAs were created in
#[test]
fn simple_m_passing_order() {
    let mut bench = TestBench::basic_vm();
    let e2 = bench.exa("copy m x\n");
    let e1 = bench.exa("copy 1 m\n");

    bench.run_cycle();
    bench.assert_freezing_error(&e1);
    bench.assert_blocking_error(&e2);
    bench.run_cycle();
    bench.assert_fatal_error(&e1);
    bench.assert_fatal_error(&e2);
    bench.assert_exa_register(&e2, "x", 1);
    bench.run_cycle();
    bench.assert_dead(&e1);
    bench.assert_dead(&e2);
}

#[test]
fn multi_mode_m_passing() {
    let mut bench = TestBench::basic_vm();
    let e1 = bench.exa("copy 1 m\n");
    let e2 = bench.exa("copy m x\n");
    let e3 = bench.exa_custom("copy 2 m\n", "start", Mode::Local);
    let e4 = bench.exa_custom("copy m t\n", "start", Mode::Local);

    bench.run_cycle();
    bench.assert_freezing_error(&e1);
    bench.assert_blocking_error(&e2);
    bench.assert_freezing_error(&e3);
    bench.assert_blocking_error(&e4);

    bench.run_cycle();
    bench.assert_fatal_error(&e1);
    bench.assert_fatal_error(&e2);
    bench.assert_fatal_error(&e3);
    bench.assert_fatal_error(&e4);
    bench.assert_exa_register(&e2, "x", 1);
    bench.assert_exa_register(&e4, "t", 2);

    bench.run_cycle();
    bench.assert_dead(&e1);
    bench.assert_dead(&e2);
    bench.assert_dead(&e3);
    bench.assert_dead(&e4);
}

#[test]
fn exceeds_bandwidth_message_bus_global() {
    let mut bench = TestBench::basic_vm();
    let e1 = bench.exa("copy 1 m\n");
    let e2 = bench.exa("copy m x\n");
    let e3 = bench.exa("copy 2 m\n");
    let e4 = bench.exa("copy m x\n");

    bench.run_cycle();
    bench.assert_freezing_error(&e1);
    bench.assert_blocking_error(&e2);
    bench.assert_freezing_error(&e3);
    bench.assert_blocking_error(&e4);
    bench.run_cycle();
    bench.assert_fatal_error(&e1);
    bench.assert_fatal_error(&e2);
    bench.assert_freezing_error(&e3);
    bench.assert_blocking_error(&e4);
    bench.assert_exa_register(&e2, "x", 1);

    bench.run_cycle();
    bench.assert_fatal_error(&e3);
    bench.assert_fatal_error(&e4);
    bench.assert_exa_register(&e4, "x", 2);
}

#[test]
fn multiple_locals() {
    let mut bench = TestBench::basic_vm();
    let e1 = bench.exa_custom("copy 1 m\n", "end", Mode::Local);
    let e2 = bench.exa_custom("copy m x\n", "end", Mode::Local);
    let e3 = bench.exa_custom("copy 2 m\n", "start", Mode::Local);
    let e4 = bench.exa_custom("copy m x\n", "start", Mode::Local);

    bench.run_cycle();
    bench.assert_freezing_error(&e1);
    bench.assert_blocking_error(&e2);
    bench.assert_freezing_error(&e3);
    bench.assert_blocking_error(&e4);
    bench.run_cycle();
    bench.assert_fatal_error(&e1);
    bench.assert_fatal_error(&e2);
    bench.assert_fatal_error(&e3);
    bench.assert_fatal_error(&e4);
    bench.assert_exa_register(&e2, "x", 1);
    bench.assert_exa_register(&e4, "x", 2);
}

#[test]
fn mode() {
    let mut bench = TestBench::basic_vm();
    let e1 = bench.exa("noop\n copy 1 m\n");
    let e2 = bench.exa_custom("mode\n copy m x\n", "start", Mode::Local);

    bench.run_cycle();
    bench.run_cycle();
    bench.assert_freezing_error(&e1);
    bench.assert_blocking_error(&e2);
    bench.run_cycle();
    bench.assert_fatal_error(&e1);
    bench.assert_fatal_error(&e2);
    bench.assert_exa_register(&e2, "x", 1);
    bench.run_cycle();
    bench.assert_dead(&e1);
    bench.assert_dead(&e2);
}

#[test]
fn void_m() {
    let mut bench = TestBench::basic_vm();
    let e1 = bench.exa("copy 1 m\n");
    let e2 = bench.exa("void m\n");

    bench.run_cycle();
    bench.assert_freezing_error(&e1);
    bench.assert_blocking_error(&e2);
    bench.run_cycle();
    bench.assert_fatal_error(&e1);
    bench.assert_fatal_error(&e2);
    bench.assert_exa_register(&e2, "x", 0);
    bench.run_cycle();
    bench.assert_dead(&e1);
    bench.assert_dead(&e2);
}

#[test]
fn test_mrd_immediately_available() {
    let mut bench = TestBench::basic_vm();
    let e1 = bench.exa("copy 1 m\n noop\n");
    let e2 = bench.exa("test mrd\n noop\n");

    bench.run_cycle();
    bench.assert_freezing_error(&e1);
    bench.assert_no_error(&e2);
    bench.assert_exa_register(&e2, "t", 1);
}

#[test]
fn test_mrd_not_ready() {
    let mut bench = TestBench::basic_vm();
    let e1 = bench.exa("copy -1 t\n test mrd\n noop\n");

    bench.run_cycle();
    bench.run_cycle();
    bench.assert_no_error(&e1);
    bench.assert_exa_register(&e1, "t", 0);
}

#[test]
fn test_mrd_after_read() {
    let mut bench = TestBench::basic_vm();
    let _e1 = bench.exa("copy 1 m\n noop\n");
    let _e2 = bench.exa("copy 1 m\n noop\n");
    let e3 = bench.exa("noop\n copy m x\n noop\n");
    let e4 = bench.exa("test mrd\n test mrd\n test mrd\n noop\n");

    bench.run_cycle();
    bench.assert_exa_register(&e4, "t", 1);
    bench.run_cycle();
    bench.assert_exa_register(&e3, "x", 1);
    bench.assert_exa_register(&e4, "t", 1);
    bench.run_cycle();
    bench.assert_exa_register(&e4, "t", 1);
}

// Regression test for a bug where, if you ever ran TEST MRD in your program,
// T was set to the TEST MRD result every cycle for the rest of eternity.
#[test]
fn test_mrd_stops_affecting_t_register() {
    let mut bench = TestBench::basic_vm();
    let e1 = bench.exa("test mrd\n copy 5 t\n");

    bench.run_cycle();
    bench.run_cycle();
    bench.assert_exa_register(&e1, "t", 5);
}

// math

#[test]
fn addi() {
    let mut bench = TestBench::basic_vm();
    let e1 = bench.exa("addi 4 -10 x\n");
    let e2 = bench.exa("addi 5000 5000 x\n");
    let e3 = bench.exa("addi -9999 -9999 x\n");

    bench.run_cycle();
    bench.assert_exa_register(&e1, "x", -6);
    bench.assert_exa_register(&e2, "x", 9999);
    bench.assert_exa_register(&e3, "x", -9999);
}

#[test]
fn subi() {
    let mut bench = TestBench::basic_vm();
    let e1 = bench.exa("subi 4 -10 x\n");
    let e2 = bench.exa("subi 5000 -5000 x\n");
    let e3 = bench.exa("subi -9999 -9999 x\n");
    let e4 = bench.exa("subi -5000 5000 x\n");

    bench.run_cycle();
    bench.assert_exa_register(&e1, "x", 14);
    bench.assert_exa_register(&e2, "x", 9999);
    bench.assert_exa_register(&e3, "x", 0);
    bench.assert_exa_register(&e4, "x", -9999);
}

#[test]
fn muli() {
    let mut bench = TestBench::basic_vm();
    let e1 = bench.exa("muli 4 -10 x\n");
    let e2 = bench.exa("muli 5000 -5000 x\n");
    let e3 = bench.exa("muli -9999 0 x\n");
    let e4 = bench.exa("muli -5000 5000 x\n");

    bench.run_cycle();
    bench.assert_exa_register(&e1, "x", -40);
    bench.assert_exa_register(&e2, "x", -9999);
    bench.assert_exa_register(&e3, "x", 0);
    bench.assert_exa_register(&e4, "x", -9999);
}

#[test]
fn divi() {
    let mut bench = TestBench::basic_vm();
    let e1 = bench.exa("divi 40 4 x\n");
    let e2 = bench.exa("divi 40 -4 x\n");
    let e3 = bench.exa("divi -9999 0 x\n");
    let e4 = bench.exa("divi -9999 -3 x\n");

    bench.run_cycle();
    bench.assert_exa_register(&e1, "x", 10);
    bench.assert_exa_register(&e2, "x", -10);
    bench.assert_fatal_error(&e3);
    bench.assert_exa_register(&e4, "x", 3333);
}

#[test]
fn divi_rounds_towards_zero() {
    let mut bench = TestBench::basic_vm();
    let e1 = bench.exa("divi 41 4 x\n");
    let e2 = bench.exa("divi 39 4 x\n");
    let e3 = bench.exa("divi -41 4 x\n");
    let e4 = bench.exa("divi -39 4 x\n");

    bench.run_cycle();
    bench.assert_exa_register(&e1, "x", 10);
    bench.assert_exa_register(&e2, "x", 9);
    bench.assert_exa_register(&e3, "x", -10);
    bench.assert_exa_register(&e4, "x", -9);
}

#[test]
fn modi() {
    let mut bench = TestBench::basic_vm();
    let e1 = bench.exa("modi 4 4 x\n");
    let e2 = bench.exa("modi 5 4 x\n");
    let e3 = bench.exa("modi -4 4 x\n");
    let e4 = bench.exa("modi -5 4 x\n");

    bench.run_cycle();
    bench.assert_exa_register(&e1, "x", 0);
    bench.assert_exa_register(&e2, "x", 1);
    bench.assert_exa_register(&e3, "x", 0);
    bench.assert_exa_register(&e4, "x", 3);
}

#[test]
fn swiz() {
    let mut bench = TestBench::basic_vm();
    let e1 = bench.exa("swiz -1579 0032 x\n");
    let e2 = bench.exa("swiz 1234 1234 x\n");

    bench.run_cycle();
    bench.assert_exa_register(&e1, "x", -57);
    bench.assert_exa_register(&e2, "x", 4321);
}

#[test]
fn swiz_sign() {
    let mut bench = TestBench::basic_vm();
    let e3 = bench.exa("swiz 12 1234 x\n");
    let e4 = bench.exa("swiz -12 1234 x\n");
    let e5 = bench.exa("swiz 12 -1234 x\n");
    let e6 = bench.exa("swiz -12 -1234 x\n");

    bench.run_cycle();
    bench.assert_exa_register(&e3, "x", 2100);
    bench.assert_exa_register(&e4, "x", -2100);
    bench.assert_exa_register(&e5, "x", -2100);
    bench.assert_exa_register(&e6, "x", 2100);
}

#[test]
fn modi_neg() {
    let mut bench = TestBench::basic_vm();
    let e1 = bench.exa("copy 80 t\n modi -1 t t\n modi -1 t t\n");

    bench.run_cycle();
    bench.assert_exa_register(&e1, "t", 80);
    bench.run_cycle();
    bench.assert_exa_register(&e1, "t", 79);
    bench.run_cycle();
    bench.assert_exa_register(&e1, "t", 78);
}

// rand

#[test]
fn rand_equal() {
    let mut bench = TestBench::basic_vm();
    let e1 = bench.exa("rand 3 3 x\n noop\n");

    bench.run_cycle();
    bench.assert_exa_register(&e1, "x", 3);
}

#[test]
fn rand_range() {
    let mut bench = TestBench::basic_vm();
    let e1 = bench.exa("rand 1 3 x\n test x > 0\n test x < 4\n noop");

    bench.run_cycle();
    bench.run_cycle();
    bench.assert_exa_register(&e1, "t", 1);
    bench.run_cycle();
    bench.assert_exa_register(&e1, "t", 1);
}

#[test]
fn rand_invalid() {
    let mut bench = TestBench::basic_vm();
    let e1 = bench.exa("rand 0 -1 x\n noop\n");

    bench.run_cycle();
    bench.assert_fatal_error(&e1);
}

// repl

#[test]
fn test_repl() {
    let mut bench = TestBench::basic_vm();
    let e1 = bench.exa("mark start\n copy 1 x \n copy 2 t\n repl start\n");

    bench.run_cycle();
    bench.run_cycle();
    bench.run_cycle();
    bench.run_cycle();
    let e2 = String::from("x0:1");
    bench.assert_exa_register(&e2, "x", 1);
    bench.assert_exa_register(&e2, "t", 2);
    bench.assert_fatal_error(&e1);
    bench.assert_no_error(&e2);
}

#[test]
fn test_chain_repl() {
    let mut bench = TestBench::basic_vm();
    let e1 = bench.exa("mark start\n noop \n repl start\n");

    bench.run_cycle();
    bench.run_cycle();
    bench.run_cycle();
    bench.run_cycle();
    bench.assert_dead(&e1);
    bench.assert_no_error("x0:2");
}

/// The host holds four: three fillers and the EXA that tries to REPL, so the
/// replica finds no square.
#[test]
fn test_repl_blocks_when_full() {
    let mut bench = TestBench::basic_vm();
    let _ = bench.exa("noop \n noop\n");
    let _ = bench.exa("noop \n noop\n");
    let _ = bench.exa("noop \n noop\n");
    let e5 = bench.exa("mark start\n repl start\n");

    bench.run_cycle();
    bench.assert_blocking_error(&e5);
}

/// Regression test for EXAs passing references, rather than fresh clones,
/// of their registers to their descendants upon REPL
#[test]
fn test_repl_independent_registers() {
    let mut bench = TestBench::basic_vm();
    let e1 = bench.exa("mark start\n copy 1 x \n repl start \n copy 2 x\n noop\n");

    bench.run_cycle();
    bench.run_cycle();
    bench.run_cycle();
    let e2 = String::from("x0:1");
    bench.assert_exa_register(&e1, "x", 2);
    bench.assert_exa_register(&e2, "x", 1);
}

// sprite

#[test]
fn pos_x() {
    let mut bench = TestBench::redshift_vm();
    let e1 = bench.exa("copy 1 gx\n copy gx t\n");

    bench.run_cycle();
    bench.assert_exa_register(&e1, "gx", 1);
    bench.run_cycle();
    bench.assert_exa_register(&e1, "t", 1);
}

// test

#[test]
fn test_equal() {
    let mut bench = TestBench::basic_vm();
    let e1 = bench.exa("test 5 = 5\n");
    let e2 = bench.exa("test 4 = 5\n");
    let e3 = bench.exa("copy 1 x\n test x = 1\n");

    bench.run_cycle();
    bench.assert_exa_register(&e1, "t", 1);
    bench.assert_exa_register(&e2, "t", 0);
    bench.run_cycle();
    bench.assert_exa_register(&e3, "t", 1);
}

#[test]
fn test_greater() {
    let mut bench = TestBench::basic_vm();
    let e1 = bench.exa("test 5 > 5\n");
    let e2 = bench.exa("test 5 > 4\n");
    let e3 = bench.exa("copy 1 x\n test x > 0\n");

    bench.run_cycle();
    bench.assert_exa_register(&e1, "t", 0);
    bench.assert_exa_register(&e2, "t", 1);
    bench.run_cycle();
    bench.assert_exa_register(&e3, "t", 1);
}

#[test]
fn test_lesser() {
    let mut bench = TestBench::basic_vm();
    let e1 = bench.exa("test 5 < 5\n");
    let e2 = bench.exa("test 4 < 5\n");
    let e3 = bench.exa("copy 1 x\n test x < 0\n");

    bench.run_cycle();
    bench.assert_exa_register(&e1, "t", 0);
    bench.assert_exa_register(&e2, "t", 1);
    bench.run_cycle();
    bench.assert_exa_register(&e3, "t", 0);
}
