//! The Redshift's hardware and the VM's outside edges: buttons, sound,
//! video frames, the runner's turns, buses, hosts and sprites.

use exa::vm::audio::{Noise, FRAME_SAMPLES};
use exa::vm::bus::MessageBus;
use exa::vm::error::ExaError;
use exa::vm::exa::sprite::Sprite;
use exa::vm::exa::Exa;
use exa::vm::redshift::{frame_plan, redshift_button, JoypadButton, RedshiftButton};
use exa::vm::runtime::{update_video_frame, RuntimeStep, VMMessage};
use exa::vm::{Host, VM};

fn input_value(vm: &VM, name: &str) -> i32 {
    let h = vm.redshift.as_ref().unwrap().input_host;
    vm.network.hosts[h].hardware_value(&name.chars().collect()).unwrap()
}

fn spawn(vm: &mut VM, name: &str, script: &str) -> usize {
    let core = vm.host_index("core").unwrap();
    Exa::spawn(vm, core, name.to_string(), true, script).unwrap()
}

#[test]
fn buttons_set_and_reset_pad_registers() {
    let mut vm = VM::new_redshift();
    vm.input_pressed(RedshiftButton::Up);
    vm.input_pressed(RedshiftButton::Right);
    vm.input_pressed(RedshiftButton::Start);
    vm.input_pressed(RedshiftButton::Y);
    vm.input_pressed(RedshiftButton::X);
    assert_eq!(input_value(&vm, "#pady"), -1);
    assert_eq!(input_value(&vm, "#padx"), 1);
    assert_eq!(input_value(&vm, "#padb"), 1011);
    vm.reset_inputs();
    assert_eq!(input_value(&vm, "#pady"), 0);
    assert_eq!(input_value(&vm, "#padx"), 0);
    assert_eq!(input_value(&vm, "#padb"), 0);
}

#[test]
fn exa_reads_a_pressed_button() {
    let mut vm = VM::new_redshift();
    spawn(&mut vm, "pad", "link 800\n copy #padx x\n noop\n");
    vm.run_cycle();
    vm.input_pressed(RedshiftButton::Left);
    vm.run_cycle();
    let i = vm.get_exa("pad");
    let x = vm.exas[i].read_register(&mut vm.network, "x").unwrap();
    assert_eq!(x, -1);
}

#[test]
fn noise_table_and_frequency() {
    let mut n = Noise::default();
    assert_eq!(n.samples.len(), 4000);
    assert!(n.samples.iter().all(|v| (-20000..=-15000).contains(v) || (15000..=20000).contains(v)));
    assert_eq!(n.pos, 0);
    n.set_frequency(60);
    assert_eq!(n.undersample, 39);
}

#[test]
fn noise_holds_each_sample() {
    let mut n = Noise::default();
    n.set_frequency(98); // each table entry lasts two output samples
    let table = n.samples.clone();
    let out = n.sample().to_vec();
    assert_eq!(out.len(), FRAME_SAMPLES);
    for k in 0..FRAME_SAMPLES {
        assert_eq!(out[k], table[k / 2]);
    }
    // 735 samples at two per entry go through 368 entries
    assert_eq!(n.pos, 368);
    let out2 = n.sample().to_vec();
    assert_eq!(out2[0], table[368]);
}

#[test]
fn noise_wraps_round_its_table() {
    let mut n = Noise::default();
    n.set_frequency(99);
    n.pos = 3999;
    let table = n.samples.clone();
    let out = n.sample().to_vec();
    assert_eq!(out[0], table[3999]);
    assert_eq!(out[1], table[0]);
    assert_eq!(n.pos, 734);
}

#[test]
fn sound_registers_and_playing_voices() {
    let mut vm = VM::new_redshift();
    let h = vm.redshift.as_ref().unwrap().sound_host;
    vm.network.hosts[h].set_hardware_value(&"#sqr1".chars().collect(), 60);
    vm.network.hosts[h].set_hardware_value(&"#nse0".chars().collect(), 99);
    assert_eq!(vm.sound_registers(), [0, 60, 0, 99]);
    assert_eq!(vm.playing_voices(), [false, true, false, true]);
}

#[test]
fn register_names_stop_at_digits() {
    // A register name is letters and '#': the line with "#sqr1" ends the
    // program, and only the LINK before it is kept.
    let mut vm = VM::new_redshift();
    spawn(&mut vm, "snd", "link 801\n copy 60 #sqr1\n noop\n");
    let i = vm.get_exa("snd");
    assert_eq!(vm.exas[i].instructions.len(), 1);
}

fn set_voices(vm: &mut VM, values: [i32; 4]) {
    let h = vm.redshift.as_ref().unwrap().sound_host;
    let names = ["#sqr0", "#sqr1", "#tri0", "#nse0"];
    for (n, v) in names.iter().zip(values.iter()) {
        vm.network.hosts[h].set_hardware_value(&n.chars().collect(), *v);
    }
}

#[test]
fn audio_frame_mixes_voices() {
    let mut vm = VM::new_redshift();
    set_voices(&mut vm, [60, 0, 0, 99]);
    let a = vec![9i16; FRAME_SAMPLES];
    let b = vec![-7i16; FRAME_SAMPLES];
    let frame = vm.audio_frame(&[Some(a), None, None, Some(b)]);
    // 9 / 2 + -7 / 2, toward zero: 4 - 3
    assert!(frame.iter().all(|v| *v == 1));

    set_voices(&mut vm, [1, 1, 1, 0]);
    let loud = vec![i16::MAX; FRAME_SAMPLES];
    let frame = vm.audio_frame(&[Some(loud.clone()), Some(loud.clone()), Some(loud.clone()), None]);
    assert_eq!(frame[0], 3 * (i16::MAX / 3));

    set_voices(&mut vm, [0, 0, 5, 0]);
    let mut ramp = vec![0i16; FRAME_SAMPLES];
    for (k, v) in ramp.iter_mut().enumerate() {
        *v = k as i16;
    }
    let frame = vm.audio_frame(&[None, None, Some(ramp), None]);
    assert_eq!(frame[2 * 100], 100);
    assert_eq!(frame[2 * 100 + 1], 100);
    assert_eq!(frame[2 * 734 + 1], 734);
}

#[test]
fn audio_frame_is_silent_without_voices_or_redshift() {
    let vm = VM::new_redshift();
    assert!(vm.audio_frame(&[None, None, None, None]).iter().all(|v| *v == 0));
    let plain = VM::new();
    let frame = plain.audio_frame(&[Some(vec![500i16; FRAME_SAMPLES]), None, None, None]);
    assert!(frame.iter().all(|v| *v == 0));
}

#[test]
fn video_frame_doubles_each_pixel() {
    let mut fb = [false; 12000];
    fb[0] = true;
    fb[11999] = true;
    let mut frame = [7u8; 24000];
    update_video_frame(&mut frame, &fb);
    assert_eq!(&frame[0..4], &[255, 255, 0, 0]);
    assert_eq!(&frame[23996..24000], &[0, 0, 255, 255]);
}

#[test]
fn render_draws_a_lit_sprite() {
    let mut vm = VM::new_redshift();
    spawn(&mut vm, "dot", "copy 100 gp\n copy 5 gx\n copy 7 gy\n noop\n");
    vm.run_cycle();
    vm.run_cycle();
    vm.run_cycle();
    let screen = vm.render();
    // the first pixel of the sprite, at (5, 7)
    assert!(screen[7 * 120 + 5]);
    assert!(!screen[0]);
}

#[test]
fn runtime_quits_sends_frames_and_counts_cycles() {
    let mut vm = VM::new_redshift();
    spawn(&mut vm, "loop", "mark a\n jump a\n");
    match vm.runtime_step(None, 0) {
        RuntimeStep::Continue { frame, cycles_since_frame } => {
            assert!(frame.is_none());
            assert_eq!(cycles_since_frame, 50);
        }
        RuntimeStep::Quit => panic!("quit without being asked"),
    }
    assert_eq!(vm.cycle, 50);
    match vm.runtime_step(Some(VMMessage::SendFrame), 50) {
        RuntimeStep::Continue { frame, cycles_since_frame } => {
            assert!(frame.is_some());
            assert_eq!(cycles_since_frame, 50);
        }
        RuntimeStep::Quit => panic!("quit without being asked"),
    }
    assert!(matches!(vm.runtime_step(Some(VMMessage::Quit), 50), RuntimeStep::Quit));
    assert_eq!(vm.cycle, 100);
}

#[test]
fn frames_run_cycles_by_population() {
    let mut vm = VM::new_redshift();
    vm.run_for_frame();
    assert_eq!(vm.cycle, 0);
    spawn(&mut vm, "spin", "mark a\n jump a\n");
    vm.run_for_frame();
    assert_eq!(vm.cycle, 10000);
    vm.run_cycles(7);
    assert_eq!(vm.cycle, 10007);
}

#[test]
fn bus_write_is_read_only_next_cycle() {
    let mut bus = MessageBus::new();
    assert_eq!(bus.write(&"a".to_string(), 5), Err(ExaError::Freezing("bus write successful, freezing until it is read")));
    assert!(bus.read().is_err());
    bus.run_cycle();
    let m = bus.read().expect("message not visible");
    assert_eq!(m.value, 5);
    assert_eq!(m.sender, "a");
    assert!(!bus.has_messages());
}

#[test]
fn bus_reads_one_message_per_cycle_oldest_first() {
    let mut bus = MessageBus::new();
    let _ = bus.write(&"a".to_string(), 1);
    let _ = bus.write(&"b".to_string(), 2);
    bus.run_cycle();
    assert_eq!(bus.read().unwrap().value, 1);
    assert!(bus.read().is_err());
    bus.run_cycle();
    assert_eq!(bus.read().unwrap().value, 2);
}

#[test]
fn host_reserve_and_free() {
    let mut h = Host::new("h".to_string(), 1);
    assert!(h.reserve_slot().is_ok());
    assert_eq!(h.occupied, 1);
    assert_eq!(h.reserve_slot(), Err(ExaError::Blocking("host has no remaining capacity")));
    assert_eq!(h.occupied, 1);
    h.free_slot();
    assert_eq!(h.occupied, 0);
}

#[test]
fn sprite_toggle_twice_restores() {
    let mut s = Sprite::from_builtin(1);
    let before = s.pixels;
    s.toggle(3, 4);
    assert_ne!(s.pixels, before);
    s.toggle(3, 4);
    assert_eq!(s.pixels, before);
    s.enable(0, 0);
    assert!(s.pixels[0]);
    s.disable(0, 0);
    assert!(!s.pixels[0]);
}

#[test]
fn sprite_shorthand_runs() {
    let s = Sprite::from_shorthand(vec![2, 3]);
    assert_eq!(&s.pixels[0..6], &[false, false, true, true, true, false]);
    assert!(Sprite::empty().is_empty());
}

#[test]
fn kill_hits_a_neighbour_only() {
    let mut vm = VM::new_redshift();
    let _ = spawn(&mut vm, "killer", "kill\n noop\n");
    let _ = spawn(&mut vm, "victim", "noop\n noop\n");
    let aux = vm.host_index("aux1").unwrap();
    Exa::spawn(&mut vm, aux, "far".to_string(), true, "noop\n noop\n").unwrap();
    vm.run_cycle();
    let v = vm.get_exa("victim");
    assert!(matches!(vm.exas[v].error, Some(ExaError::Fatal(_))));
    let k = vm.get_exa("killer");
    assert!(vm.exas[k].error.is_none());
    let f = vm.get_exa("far");
    assert!(vm.exas[f].error.is_none());
    vm.run_cycle();
    assert!(vm.find_exa("victim").is_none());
}

#[test]
fn hosts_and_exas_are_equal_by_name() {
    let a = Host::new("same".to_string(), 1);
    let b = Host::new("same".to_string(), 9);
    let c = Host::new("other".to_string(), 1);
    assert!(a == b);
    assert!(a != c);

    let mut vm = VM::new_redshift();
    let i = spawn(&mut vm, "twin", "noop\n noop\n");
    let j = spawn(&mut vm, "twin", "halt\n");
    let k = spawn(&mut vm, "other", "noop\n");
    assert!(vm.exas[i] == vm.exas[j]);
    assert!(vm.exas[i] != vm.exas[k]);
}

#[test]
fn spawn_into_a_full_host_blocks_for_any_script() {
    let mut vm = VM::new_redshift();
    let aux = vm.host_index("aux1").unwrap();
    for k in 0..3 {
        Exa::spawn(&mut vm, aux, format!("fill{}", k), true, "noop\n").unwrap();
    }
    let before = vm.exas.len();
    let r = Exa::spawn(&mut vm, aux, "late".to_string(), true, "copy 10000 x\n");
    assert_eq!(r, Err(ExaError::Blocking("host has no remaining capacity")));
    assert_eq!(vm.exas.len(), before);
    assert_eq!(vm.network.hosts[aux].occupied, 3);
}

#[test]
fn frame_plan_follows_the_joypad() {
    let held = vec![JoypadButton::Right, JoypadButton::Select, JoypadButton::A, JoypadButton::Left, JoypadButton::Y];
    let plan = frame_plan(3, &held);
    assert!(!plan.release);
    assert!(plan.show);
    assert!(!plan.step);
    // in the joypad's order: Y, B, A, START, UP, DOWN, LEFT, RIGHT
    assert_eq!(plan.presses, vec![RedshiftButton::X, RedshiftButton::Z, RedshiftButton::Left, RedshiftButton::Right]);

    let plan = frame_plan(4, &vec![JoypadButton::X]);
    assert!(plan.release);
    assert!(plan.step);
    assert!(plan.presses.is_empty());
    assert_eq!(redshift_button(JoypadButton::B), Some(RedshiftButton::Y));
    assert_eq!(redshift_button(JoypadButton::Select), None);
}

#[test]
fn a_cycle_removes_the_dead_and_keeps_the_living_in_order() {
    let mut vm = VM::new_redshift();
    spawn(&mut vm, "a", "halt\n");
    spawn(&mut vm, "b", "make\n noop\n noop\n halt\n");
    spawn(&mut vm, "c", "repl e\n noop\n noop\n noop\n mark e\n noop\n noop\n noop\n noop\n");
    vm.run_cycle(); // a dies; b makes a file; c replicates
    let names: Vec<String> = vm.exas.iter().map(|e| e.name.clone()).collect();
    assert_eq!(names, vec!["a", "b", "c", "c:1"]);
    vm.run_cycle(); // a leaves; b and c run on
    let names: Vec<String> = vm.exas.iter().map(|e| e.name.clone()).collect();
    assert_eq!(names, vec!["b", "c", "c:1"]);
    vm.run_cycle();
    vm.run_cycle(); // b halts
    vm.run_cycle(); // b leaves, dropping its file in core
    assert!(vm.find_exa("b").is_none());
    let core = vm.host_index("core").unwrap();
    assert_eq!(vm.network.hosts[core].files.len(), 1);
}
