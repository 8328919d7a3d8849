//! Running EXA instructions: each one proved to do what `semantics` says.

use vstd::prelude::*;

use super::invariants::{keeps, lemma_keeps_trans, lemma_read_register_keeps, lemma_read_target_keeps};
use super::ops::{clamp_i64, lemma_padded_digits};
use super::semantics::{
    abs, arith, arith_value, before, clamp, cond_jump, div_toward_zero, divide, fits_loose, jump,
    modi_value, padded_digits, pow10, read_register, read_target, rem_toward_zero, state, store,
    swiz, swiz_sum, swiz_term, swiz_value, test_op, compare, ArithOp, ExaState, find_file,
    make_file, drop_file, wipe_file, grab_file, seek_file, void_file, file_command, test_eof,
    rand, link, mark_links_to, repl, repl_at, replica, execute, cycle, here, write_register,
    test_mrd, current_bus, unfrozen, out_of_instructions,
};
use super::{label_position, CycleResult, Exa, Labels, Mode, Registers};
use super::sprite::Sprite;
use crate::random::random_i32_inclusive;
use crate::text::{str_chars, string_from_chars, u64_decimal};
use crate::vm::error::ExaError;
use crate::vm::file::{files_view, File, SpecFile};
use crate::vm::instruction::{copy_instructions, Comparator, Instruction, SpecTarget, Target};
use crate::vm::{HostLink, Network, lemma_find_key};

verus! {

/// Powers of ten small enough for a `u64`.
fn pow10_exec(n: u32) -> (r: u64)
    requires
        n <= 9,
    ensures
        r == pow10(n as nat),
{
    let mut r: u64 = 1;
    let mut i: u32 = 0;
    while i < n
        invariant
            i <= n <= 9,
            r == pow10(i as nat),
        decreases n - i,
    {
        proof {
            lemma_pow10_small(i as nat);
        }
        r = r * 10;
        i = i + 1;
    }
    r
}

proof fn lemma_pow10_small(i: nat)
    requires
        i <= 9,
    ensures
        i < 9 ==> pow10(i) <= 100_000_000,
        pow10(i) <= 1_000_000_000,
        i <= 6 ==> pow10(i) <= 1_000_000,
        pow10(i + 1) == pow10(i) * 10,
{
    reveal_with_fuel(pow10, 11);
}

/// Division rounding towards zero, on magnitudes so nothing overflows.
fn div_toward_zero_exec(x: i64, y: i64) -> (q: i64)
    requires
        y != 0,
        -0x8000_0000 <= x <= 0x8000_0000,
        -0x8000_0000 <= y <= 0x8000_0000,
    ensures
        q == div_toward_zero(x as int, y as int),
{
    let ax: u64 = if x < 0 { (-x) as u64 } else { x as u64 };
    let ay: u64 = if y < 0 { (-y) as u64 } else { y as u64 };
    let q = (ax / ay) as i64;
    if (x < 0) != (y < 0) {
        -q
    } else {
        q
    }
}

/// MODI's remainder: the sign of the dividend, moved into the divisor's
/// direction when negative.
fn modi_exec(x: i64, y: i64) -> (m: i64)
    requires
        y != 0,
        -0x8000_0000 <= x <= 0x8000_0000,
        -0x8000_0000 <= y <= 0x8000_0000,
    ensures
        m == modi_value(x as int, y as int),
{
    let ax: u64 = if x < 0 { (-x) as u64 } else { x as u64 };
    let ay: u64 = if y < 0 { (-y) as u64 } else { y as u64 };
    let r0 = (ax % ay) as i64;
    let r = if x < 0 { -r0 } else { r0 };
    assert(r == rem_toward_zero(x as int, y as int));
    if r < 0 {
        r + y
    } else {
        r
    }
}

proof fn lemma_digits_len(n: nat, k: nat)
    requires
        k >= 1,
        n < pow10(k),
    ensures
        super::semantics::digits_of(n).len() <= k,
    decreases k,
{
    if n >= 10 {
        assert(k >= 2) by {
            if k == 1 {
                reveal_with_fuel(pow10, 2);
            }
        }
        assert(n / 10 < pow10((k - 1) as nat)) by {
            assert(pow10(k) == 10 * pow10((k - 1) as nat));
        }
        lemma_digits_len(n / 10, (k - 1) as nat);
    }
}

/// A SWIZ result stays well inside the `i32` range.
proof fn lemma_swiz_term_bound(in_rev: Seq<u32>, mask: Seq<u32>, idx: int)
    requires
        0 <= idx < 10,
        idx < mask.len(),
        in_rev.len() >= 4,
        forall|i: int| 0 <= i < in_rev.len() ==> #[trigger] in_rev[i] < 10,
    ensures
        0 <= swiz_term(in_rev, mask, idx) <= 9_000_000,
{
    let m = mask[idx];
    if 1 <= m <= 4 {
        let p = abs(idx - 3) as nat;
        lemma_pow10_small(p);
        let d = in_rev[m - 1];
        assert(d < 10);
        let pw = pow10(p);
        assert(pw * d <= 1_000_000 * 9) by (nonlinear_arith)
            requires
                pw <= 1_000_000,
                0 <= d <= 9,
        ;
    }
}

/// The SWIZ sum over the mask digits seen so far.
fn swiz_exec(input: i32, mask: i32) -> (v: i32)
    ensures
        v == swiz_value(input as int, mask as int),
{
    let in_digits = padded_digits_of_value(input);
    let md = padded_digits_of_value(mask);
    proof {
        lemma_padded_digits(input as int);
        lemma_padded_digits(mask as int);
        reveal_with_fuel(pow10, 11);
        let am: int = abs(mask as int);
        assert(am < pow10(10));
        if super::semantics::digits_of(am as nat).len() >= 4 {
            lemma_digits_len(am as nat, 10);
        }
    }
    let mut in_rev: Vec<u32> = Vec::new();
    let mut k: usize = in_digits.len();
    while k > 0
        invariant
            k <= in_digits.len(),
            in_rev@ == in_digits@.subrange(k as int, in_digits.len() as int).reverse(),
        decreases k,
    {
        k = k - 1;
        in_rev.push(in_digits[k]);
        assert(in_digits@.subrange(k as int, in_digits.len() as int).reverse() =~= in_digits@.subrange(
            k + 1,
            in_digits.len() as int,
        ).reverse().push(in_digits@[k as int]));
    }
    assert(in_digits@.subrange(0, in_digits.len() as int) =~= in_digits@);
    assert(in_rev@.len() >= 4);
    assert forall|i: int| 0 <= i < in_rev@.len() implies #[trigger] in_rev@[i] < 10 by {
        assert(in_rev@[i] == in_digits@[in_digits@.len() - 1 - i]);
    }
    let mut total: i64 = 0;
    let mut idx: usize = 0;
    while idx < md.len()
        invariant
            idx <= md.len() <= 10,
            in_rev@ == padded_digits(input as int).reverse(),
            md@ == padded_digits(mask as int),
            in_rev@.len() >= 4,
            forall|i: int| 0 <= i < in_rev@.len() ==> #[trigger] in_rev@[i] < 10,
            total == swiz_sum(in_rev@, md@, idx as int),
            0 <= total <= idx * 9_000_000,
        decreases md.len() - idx,
    {
        proof {
            lemma_swiz_term_bound(in_rev@, md@, idx as int);
        }
        let m = md[idx];
        if 1 <= m && m <= 4 {
            let p: u32 = if idx >= 3 { (idx - 3) as u32 } else { (3 - idx) as u32 };
            let pw = pow10_exec(p);
            let d = in_rev[(m - 1) as usize] as u64;
            assert(pw * d == swiz_term(in_rev@, md@, idx as int));
            total = total + (pw * d) as i64;
        }
        idx = idx + 1;
    }
    if (input < 0) != (mask < 0) {
        total = -total;
    }
    total as i32
}

/// The digits of a value's magnitude, padded to four, for any `i32`.
fn padded_digits_of_value(v: i32) -> (r: Vec<u32>)
    ensures
        r@ == padded_digits(v as int),
{
    super::ops::padded_digits_of(v as i64)
}

impl Exa {
    /// ADDI, SUBI and MULI: left then right is read, and the result, clamped to
    /// -9999..=9999, is stored.
    fn arith_op(&mut self, net: &mut Network, op: ArithOp, a: &Target, b: &Target, d: &Target) -> (res: Result<(), ExaError>)
        requires
            fits_loose(state(old(self)@, old(net)@)),
        ensures
            (state(final(self)@, final(net)@), res) == arith(state(old(self)@, old(net)@), op, a@, b@, d@),
    {
        proof {
            reveal(arith);
        }
        let ghost st0 = state(self@, net@);
        proof {
            lemma_read_target_keeps(st0, a@);
        }
        let x = match self.read_target(net, a) {
            Ok(v) => v,
            Err(e) => return Err(e),
        };
        let ghost st1 = state(self@, net@);
        proof {
            lemma_read_target_keeps(st1, b@);
        }
        let y = match self.read_target(net, b) {
            Ok(v) => v,
            Err(e) => return Err(e),
        };
        let v: i64 = match op {
            ArithOp::Add => x as i64 + y as i64,
            ArithOp::Sub => x as i64 - y as i64,
            ArithOp::Mul => {
                assert(-0x4000_0000_0000_0000 <= (x as int) * (y as int) <= 0x4000_0000_0000_0000) by (nonlinear_arith)
                    requires
                        -0x8000_0000 <= x <= 0x8000_0000,
                        -0x8000_0000 <= y <= 0x8000_0000,
                ;
                x as i64 * y as i64
            },
        };
        assert(v == arith_value(op, x as int, y as int));
        let c = clamp_i64(v, -9999, 9999) as i32;
        self.store(net, d, c)
    }

    pub fn addi(&mut self, net: &mut Network, a: &Target, b: &Target, d: &Target) -> (res: Result<(), ExaError>)
        requires
            fits_loose(state(old(self)@, old(net)@)),
        ensures
            (state(final(self)@, final(net)@), res) == arith(state(old(self)@, old(net)@), ArithOp::Add, a@, b@, d@),
    {
        self.arith_op(net, ArithOp::Add, a, b, d)
    }

    pub fn subi(&mut self, net: &mut Network, a: &Target, b: &Target, d: &Target) -> (res: Result<(), ExaError>)
        requires
            fits_loose(state(old(self)@, old(net)@)),
        ensures
            (state(final(self)@, final(net)@), res) == arith(state(old(self)@, old(net)@), ArithOp::Sub, a@, b@, d@),
    {
        self.arith_op(net, ArithOp::Sub, a, b, d)
    }

    pub fn muli(&mut self, net: &mut Network, a: &Target, b: &Target, d: &Target) -> (res: Result<(), ExaError>)
        requires
            fits_loose(state(old(self)@, old(net)@)),
        ensures
            (state(final(self)@, final(net)@), res) == arith(state(old(self)@, old(net)@), ArithOp::Mul, a@, b@, d@),
    {
        self.arith_op(net, ArithOp::Mul, a, b, d)
    }

    /// DIVI (`modulo` false) and MODI: the divisor is read first and must not
    /// be zero.
    fn divide_op(&mut self, net: &mut Network, modulo: bool, a: &Target, b: &Target, d: &Target) -> (res: Result<(), ExaError>)
        requires
            fits_loose(state(old(self)@, old(net)@)),
        ensures
            (state(final(self)@, final(net)@), res) == divide(state(old(self)@, old(net)@), modulo, a@, b@, d@),
    {
        proof {
            reveal(divide);
        }
        let ghost st0 = state(self@, net@);
        proof {
            lemma_read_target_keeps(st0, b@);
        }
        let y = match self.read_target(net, b) {
            Ok(v) => v,
            Err(e) => return Err(e),
        };
        if y == 0 {
            return Err(ExaError::Fatal("divide by zero"));
        }
        let ghost st1 = state(self@, net@);
        proof {
            lemma_read_target_keeps(st1, a@);
        }
        let x = match self.read_target(net, a) {
            Ok(v) => v,
            Err(e) => return Err(e),
        };
        let v = if modulo {
            modi_exec(x as i64, y as i64)
        } else {
            div_toward_zero_exec(x as i64, y as i64)
        };
        let c = clamp_i64(v, -9999, 9999) as i32;
        self.store(net, d, c)
    }

    pub fn divi(&mut self, net: &mut Network, a: &Target, b: &Target, d: &Target) -> (res: Result<(), ExaError>)
        requires
            fits_loose(state(old(self)@, old(net)@)),
        ensures
            (state(final(self)@, final(net)@), res) == divide(state(old(self)@, old(net)@), false, a@, b@, d@),
    {
        self.divide_op(net, false, a, b, d)
    }

    pub fn modi(&mut self, net: &mut Network, a: &Target, b: &Target, d: &Target) -> (res: Result<(), ExaError>)
        requires
            fits_loose(state(old(self)@, old(net)@)),
        ensures
            (state(final(self)@, final(net)@), res) == divide(state(old(self)@, old(net)@), true, a@, b@, d@),
    {
        self.divide_op(net, true, a, b, d)
    }

    /// SWIZ: the input's digits rearranged by the mask's.
    pub fn swiz(&mut self, net: &mut Network, a: &Target, m: &Target, d: &Target) -> (res: Result<(), ExaError>)
        requires
            fits_loose(state(old(self)@, old(net)@)),
        ensures
            (state(final(self)@, final(net)@), res) == swiz(state(old(self)@, old(net)@), a@, m@, d@),
    {
        proof {
            reveal(swiz);
        }
        let ghost st0 = state(self@, net@);
        proof {
            lemma_read_target_keeps(st0, a@);
        }
        let x = match self.read_target(net, a) {
            Ok(v) => v,
            Err(e) => return Err(e),
        };
        let ghost st1 = state(self@, net@);
        proof {
            lemma_read_target_keeps(st1, m@);
        }
        let y = match self.read_target(net, m) {
            Ok(v) => v,
            Err(e) => return Err(e),
        };
        let v = swiz_exec(x, y);
        self.store(net, d, v)
    }

    /// COPY: the source is read and stored in the destination.
    pub fn copy(&mut self, net: &mut Network, src: &Target, dest: &Target) -> (res: Result<(), ExaError>)
        requires
            fits_loose(state(old(self)@, old(net)@)),
        ensures
            (state(final(self)@, final(net)@), res) == ({
                let (s1, r) = read_target(state(old(self)@, old(net)@), src@);
                match r {
                    Err(e) => (s1, Err(e)),
                    Ok(v) => store(s1, dest@, v),
                }
            }),
    {
        let ghost st0 = state(self@, net@);
        proof {
            lemma_read_target_keeps(st0, src@);
        }
        let v = match self.read_target(net, src) {
            Ok(v) => v,
            Err(e) => return Err(e),
        };
        self.store(net, dest, v)
    }

    /// JUMP: the program counter is set so that the next instruction run is
    /// the one the label marks.
    pub fn jump(&mut self, net: &Network, label: &String) -> (res: Result<(), ExaError>)
        ensures
            (state(final(self)@, net@), res) == jump(state(old(self)@, net@), label@),
    {
        proof {
            reveal(jump);
        }
        let ghost st = state(self@, net@);
        match self.labels.position(label) {
            Some(pos) => {
                self.pc = if pos == 0 { usize::MAX } else { pos - 1 };
                assert(state(self@, net@) =~~= jump(st, label@).0);
                Ok(())
            },
            None => Err(ExaError::Fatal("unknown label")),
        }
    }

    /// TJMP (`when_true`) and FJMP: a jump depending on T.
    fn cond_jump(&mut self, net: &mut Network, label: &String, when_true: bool) -> (res: Result<(), ExaError>)
        requires
            fits_loose(state(old(self)@, old(net)@)),
        ensures
            (state(final(self)@, final(net)@), res) == cond_jump(state(old(self)@, old(net)@), label@, when_true),
    {
        proof {
            reveal(cond_jump);
        }
        proof {
            reveal_strlit("t");
            assert("t"@ =~= seq!['t']);
        }
        let t = match self.read_register(net, "t") {
            Ok(v) => v,
            Err(e) => return Err(e),
        };
        if (t != 0) == when_true {
            self.jump(net, label)
        } else {
            Ok(())
        }
    }

    pub fn tjmp(&mut self, net: &mut Network, label: &String) -> (res: Result<(), ExaError>)
        requires
            fits_loose(state(old(self)@, old(net)@)),
        ensures
            (state(final(self)@, final(net)@), res) == cond_jump(state(old(self)@, old(net)@), label@, true),
    {
        self.cond_jump(net, label, true)
    }

    pub fn fjmp(&mut self, net: &mut Network, label: &String) -> (res: Result<(), ExaError>)
        requires
            fits_loose(state(old(self)@, old(net)@)),
        ensures
            (state(final(self)@, final(net)@), res) == cond_jump(state(old(self)@, old(net)@), label@, false),
    {
        self.cond_jump(net, label, false)
    }

    /// TEST: T becomes 1 when the comparison holds, else 0.
    pub fn test(&mut self, net: &mut Network, a: &Target, c: &Comparator, b: &Target) -> (res: Result<(), ExaError>)
        requires
            fits_loose(state(old(self)@, old(net)@)),
        ensures
            (state(final(self)@, final(net)@), res) == test_op(state(old(self)@, old(net)@), a@, *c, b@),
    {
        proof {
            reveal(test_op);
        }
        let ghost st0 = state(self@, net@);
        proof {
            lemma_read_target_keeps(st0, a@);
        }
        let l = match self.read_target(net, a) {
            Ok(v) => v,
            Err(e) => return Err(e),
        };
        let ghost st1 = state(self@, net@);
        proof {
            lemma_read_target_keeps(st1, b@);
        }
        let r = match self.read_target(net, b) {
            Ok(v) => v,
            Err(e) => return Err(e),
        };
        let holds = match c {
            Comparator::Equal => l == r,
            Comparator::GreaterThan => l > r,
            Comparator::LessThan => l < r,
        };
        assert(holds == compare(*c, l, r));
        proof {
            reveal_strlit("t");
            assert("t"@ =~= seq!['t']);
        }
        self.write_register(net, "t", if holds { 1 } else { 0 })
    }
}

pub proof fn lemma_find_file(files: Seq<SpecFile>, id: i32)
    ensures
        find_file(files, id) matches Some(i) ==> 0 <= i < files.len() && files[i].id == id
            && forall|j: int| 0 <= j < i ==> files[j].id != id,
        find_file(files, id) is None ==> forall|j: int| 0 <= j < files.len() ==> files[j].id != id,
    decreases files.len(),
{
    if files.len() > 0 {
        let init = files.drop_last();
        lemma_find_file(init, id);
        assert forall|j: int| 0 <= j < init.len() implies init[j] == files[j] by {}
    }
}

/// No file in the list has the id: the search finds nothing.
proof fn lemma_find_file_absent(files: Seq<SpecFile>, id: i32)
    requires
        forall|j: int| 0 <= j < files.len() ==> files[j].id != id,
    ensures
        find_file(files, id) is None,
    decreases files.len(),
{
    if files.len() > 0 {
        let init = files.drop_last();
        assert forall|j: int| 0 <= j < init.len() implies init[j].id != id by {
            assert(init[j] == files[j]);
        }
        lemma_find_file_absent(init, id);
    }
}

/// MAKE gives an EXA that holds no file a new, empty file whose id is the
/// network's file counter, with the pointer at its start, and moves the
/// counter on; an EXA that already holds a file fails and nothing changes.
pub proof fn law_make_gives_new_empty_file(st: ExaState)
    requires
        fits_loose(st),
    ensures
        st.exa.file is Some ==> make_file(st).1 is Err && make_file(st).0 == st,
        st.exa.file is None ==> {
            let after = make_file(st).0;
            &&& make_file(st).1 is Ok
            &&& after.exa.file == Some(SpecFile { id: st.net.file_counter, contents: Seq::empty() })
            &&& after.exa.file_pointer == 0
            &&& after.net.file_counter != st.net.file_counter
            &&& after.net.hosts == st.net.hosts
        },
{
    reveal(make_file);
}

/// WIPE destroys the held file: afterwards the EXA holds none and the hosts
/// are as they were. Without a file it fails.
pub proof fn law_wipe_discards_file(st: ExaState)
    requires
        fits_loose(st),
    ensures
        st.exa.file is None ==> wipe_file(st).1 is Err,
        st.exa.file is Some ==> {
            &&& wipe_file(st).1 is Ok
            &&& wipe_file(st).0.exa.file is None
            &&& wipe_file(st).0.exa.file_pointer == 0
            &&& wipe_file(st).0.net == st.net
        },
{
    reveal(wipe_file);
}

/// GRAB of the id of the file just dropped gives the EXA that same file back,
/// with the pointer at its start, and leaves the network as it was before the
/// DROP, when no other file in the host has that id.
pub proof fn law_grab_undoes_drop(st: ExaState)
    requires
        fits_loose(st),
        st.exa.file is Some,
        here(st).occupied < here(st).capacity,
        forall|j: int|
            0 <= j < here(st).files.len() ==> #[trigger] here(st).files[j].id != st.exa.file->Some_0.id,
    ensures
        ({
            let f = st.exa.file->Some_0;
            let s1 = drop_file(st).0;
            let s2 = grab_file(s1, SpecTarget::Literal(f.id)).0;
            &&& drop_file(st).1 is Ok
            &&& s1.exa.file is None
            &&& grab_file(s1, SpecTarget::Literal(f.id)).1 is Ok
            &&& s2.exa.file == st.exa.file
            &&& s2.exa.file_pointer == 0
            &&& s2.net == st.net
        }),
{
    reveal(drop_file);
    reveal(grab_file);
    let f = st.exa.file->Some_0;
    let h = here(st);
    let s1 = drop_file(st).0;
    let h1 = here(s1);
    assert(h1.files == h.files.push(f));
    lemma_find_file_absent(h.files, f.id);
    assert(h.files.push(f).drop_last() =~= h.files);
    assert(find_file(h1.files, f.id) == Some(h.files.len() as int));
    assert(h1.files.remove(h.files.len() as int) =~= h.files);
    let s2 = grab_file(s1, SpecTarget::Literal(f.id)).0;
    assert(here(s2) == h);
    assert(s2.net.hosts =~= st.net.hosts);
}

/// Position of the first file with the given id.
fn position_of_file(files: &Vec<File>, id: i32) -> (r: Option<usize>)
    ensures
        match r {
            Some(i) => find_file(files_view(files@), id) == Some(i as int),
            None => find_file(files_view(files@), id) is None,
        },
{
    let ghost view = files_view(files@);
    proof {
        lemma_find_file(view, id);
    }
    let mut i: usize = 0;
    while i < files.len()
        invariant
            i <= files.len(),
            view == files_view(files@),
            forall|j: int| 0 <= j < i ==> view[j].id != id,
        decreases files.len() - i,
    {
        assert(view[i as int] == files@[i as int]@);
        if files[i].id == id {
            proof {
                lemma_find_file(view, id);
                if let Some(k) = find_file(view, id) {
                    if k < i {
                        assert(view[k].id != id);
                    }
                }
            }
            return Some(i);
        }
        i = i + 1;
    }
    proof {
        if let Some(k) = find_file(view, id) {
            assert(view[k].id == id);
        }
    }
    None
}

/// Marks every link that leads to host `to` as traversed this cycle.
fn mark_links_to_exec(links: &mut Vec<(i32, HostLink)>, to: usize)
    ensures
        final(links)@ == mark_links_to(old(links)@, to as nat),
{
    let ghost orig = links@;
    let mut j: usize = 0;
    while j < links.len()
        invariant
            j <= links.len(),
            links@.len() == orig.len(),
            forall|k: int| 0 <= k < j ==> #[trigger] links@[k] == mark_links_to(orig, to as nat)[k],
            forall|k: int| j <= k < links@.len() ==> #[trigger] links@[k] == orig[k],
        decreases links.len() - j,
    {
        if links[j].1.to_host == to {
            links[j].1.traversed_this_cycle = true;
        }
        j = j + 1;
    }
    assert(links@ =~= mark_links_to(orig, to as nat));
}

impl Exa {
    /// MAKE: a new, empty file with the next id.
    pub fn make_file(&mut self, net: &mut Network) -> (res: Result<(), ExaError>)
        ensures
            (state(final(self)@, final(net)@), res) == make_file(state(old(self)@, old(net)@)),
    {
        proof {
            reveal(make_file);
        }
        let ghost st = state(self@, net@);
        if self.file.is_some() {
            return Err(ExaError::Fatal("cannot grab a second file"));
        }
        let id = net.file_counter;
        net.file_counter = if id == i32::MAX { i32::MIN } else { id + 1 };
        self.file = Some(File::new(id, Vec::new()));
        assert(state(self@, net@) =~~= make_file(st).0);
        Ok(())
    }

    /// DROP: the held file is left in the current host, if it has room.
    pub fn drop_file(&mut self, net: &mut Network) -> (res: Result<(), ExaError>)
        requires
            old(self).host < old(net).hosts.len(),
        ensures
            (state(final(self)@, final(net)@), res) == drop_file(state(old(self)@, old(net)@)),
    {
        proof {
            reveal(drop_file);
        }
        let ghost st = state(self@, net@);
        if self.file.is_none() {
            return Err(ExaError::Fatal("no file is held"));
        }
        let h = self.host;
        match net.hosts[h].reserve_slot() {
            Err(e) => {
                assert(net@.hosts =~= old(net)@.hosts);
                return Err(e);
            },
            Ok(()) => {},
        }
        match self.file.take() {
            Some(f) => {
                net.hosts[h].files.push(f);
            },
            None => {},
        }
        self.file_pointer = 0;
        assert(net@.hosts =~= old(net)@.hosts.update(h as int, net.hosts@[h as int]@));
        assert(net.hosts@[h as int]@.files =~= old(net)@.hosts[h as int].files.push(st.exa.file.unwrap()));
        assert(state(self@, net@) =~~= drop_file(st).0);
        Ok(())
    }

    /// WIPE: the held file is destroyed.
    pub fn wipe_file(&mut self, net: &Network) -> (res: Result<(), ExaError>)
        ensures
            (state(final(self)@, net@), res) == wipe_file(state(old(self)@, net@)),
    {
        proof {
            reveal(wipe_file);
        }
        let ghost st = state(self@, net@);
        if self.file.is_none() {
            return Err(ExaError::Fatal("no file is held"));
        }
        self.file = None;
        self.file_pointer = 0;
        assert(state(self@, net@) =~~= wipe_file(st).0);
        Ok(())
    }

    /// GRAB: the file with the given id is taken from the current host.
    pub fn grab_file(&mut self, net: &mut Network, file_target: &Target) -> (res: Result<(), ExaError>)
        requires
            fits_loose(state(old(self)@, old(net)@)),
        ensures
            (state(final(self)@, final(net)@), res) == grab_file(state(old(self)@, old(net)@), file_target@),
    {
        proof {
            reveal(grab_file);
        }
        let ghost st0 = state(self@, net@);
        proof {
            lemma_read_target_keeps(st0, file_target@);
        }
        let file_id = match self.read_target(net, file_target) {
            Ok(v) => v,
            Err(e) => return Err(e),
        };
        let ghost st1 = state(self@, net@);
        if self.file.is_some() {
            return Err(ExaError::Fatal("cannot grab a second file"));
        }
        let h = self.host;
        let ghost files = net@.hosts[h as int].files;
        let i = match position_of_file(&net.hosts[h].files, file_id) {
            None => return Err(ExaError::Fatal("file id not found")),
            Some(i) => i,
        };
        proof {
            lemma_find_file(files, file_id);
        }
        assert(st1.net.hosts[h as int].occupied >= 1);
        let f = net.hosts[h].files.remove(i);
        net.hosts[h].free_slot();
        self.file = Some(f);
        assert(net.hosts@[h as int]@.files =~= files.remove(i as int));
        assert(net@.hosts =~= st1.net.hosts.update(h as int, net.hosts@[h as int]@));
        assert(state(self@, net@) =~~= grab_file(st0, file_target@).0);
        Ok(())
    }

    /// SEEK: the file pointer moves by the amount, staying within the file.
    pub fn seek_file(&mut self, net: &mut Network, target: &Target) -> (res: Result<(), ExaError>)
        requires
            fits_loose(state(old(self)@, old(net)@)),
        ensures
            (state(final(self)@, final(net)@), res) == seek_file(state(old(self)@, old(net)@), target@),
    {
        proof {
            reveal(seek_file);
        }
        let ghost st0 = state(self@, net@);
        if self.file.is_none() {
            return Err(ExaError::Fatal("no file is held"));
        }
        proof {
            lemma_read_target_keeps(st0, target@);
        }
        let amount = match self.read_target(net, target) {
            Ok(v) => v,
            Err(e) => return Err(e),
        };
        let ghost st1 = state(self@, net@);
        let len = match &self.file {
            Some(f) => f.contents.len(),
            None => 0,
        };
        let p = self.file_pointer;
        let np: usize = if amount >= 0 {
            let a = amount as usize;
            if a >= len - p { len } else { p + a }
        } else {
            let a = (0i64 - amount as i64) as usize;
            if a >= p { 0 } else { p - a }
        };
        assert(np == clamp(p + amount, 0, len as int));
        self.file_pointer = np;
        assert(state(self@, net@) =~~= seek_file(st0, target@).0);
        Ok(())
    }

    /// VOID F: the value at the file pointer is removed.
    pub fn void_file(&mut self, net: &Network) -> (res: Result<(), ExaError>)
        ensures
            (state(final(self)@, net@), res) == void_file(state(old(self)@, net@)),
    {
        proof {
            reveal(void_file);
        }
        let ghost st = state(self@, net@);
        match self.file.take() {
            None => Err(ExaError::Fatal("no file is held")),
            Some(mut f) => {
                if self.file_pointer >= f.contents.len() {
                    self.file = Some(f);
                    assert(state(self@, net@) =~~= st);
                    return Err(ExaError::Fatal("cannot void from file at append position"));
                }
                f.contents.remove(self.file_pointer);
                self.file = Some(f);
                assert(state(self@, net@) =~~= void_file(st).0);
                Ok(())
            },
        }
    }

    /// FILE: the id of the held file is stored in the destination.
    pub fn file_command(&mut self, net: &mut Network, target: &Target) -> (res: Result<(), ExaError>)
        requires
            fits_loose(state(old(self)@, old(net)@)),
        ensures
            (state(final(self)@, final(net)@), res) == file_command(state(old(self)@, old(net)@), target@),
    {
        proof {
            reveal(file_command);
        }
        let id = match &self.file {
            None => return Err(ExaError::Fatal("no file is held")),
            Some(f) => f.id,
        };
        self.store(net, target, id)
    }

    /// TEST EOF: T becomes 1 when the file pointer is at the end of the file.
    pub fn test_eof(&mut self, net: &mut Network) -> (res: Result<(), ExaError>)
        requires
            fits_loose(state(old(self)@, old(net)@)),
        ensures
            (state(final(self)@, final(net)@), res) == test_eof(state(old(self)@, old(net)@)),
    {
        proof {
            reveal(test_eof);
        }
        let at_end = match &self.file {
            None => return Err(ExaError::Fatal("no file is held")),
            Some(f) => self.file_pointer == f.contents.len(),
        };
        proof {
            reveal_strlit("t");
            assert("t"@ =~= seq!['t']);
        }
        self.write_register(net, "t", if at_end { 1 } else { 0 })
    }

    /// RAND: a value between the bounds, inclusive, chosen by chance.
    pub fn rand(&mut self, net: &mut Network, lo: &Target, hi: &Target, dest: &Target) -> (res: Result<(), ExaError>)
        requires
            fits_loose(state(old(self)@, old(net)@)),
        ensures
            exists|draw: nat| (state(final(self)@, final(net)@), res) == #[trigger] rand(
                state(old(self)@, old(net)@),
                lo@,
                hi@,
                dest@,
                draw,
            ),
    {
        proof {
            reveal(rand);
        }
        let ghost st0 = state(self@, net@);
        proof {
            lemma_read_target_keeps(st0, lo@);
        }
        let l = match self.read_target(net, lo) {
            Ok(v) => v,
            Err(e) => {
                assert((state(self@, net@), Err::<(), ExaError>(e)) == rand(st0, lo@, hi@, dest@, 0));
                return Err(e);
            },
        };
        let ghost st1 = state(self@, net@);
        proof {
            lemma_read_target_keeps(st1, hi@);
        }
        let h = match self.read_target(net, hi) {
            Ok(v) => v,
            Err(e) => {
                assert((state(self@, net@), Err::<(), ExaError>(e)) == rand(st0, lo@, hi@, dest@, 0));
                return Err(e);
            },
        };
        if l > h {
            let r = Err(ExaError::Fatal("invalid rand range"));
            assert((state(self@, net@), r) == rand(st0, lo@, hi@, dest@, 0));
            return r;
        }
        let value = random_i32_inclusive(l, h);
        let ghost draw: nat = (value - l) as nat;
        proof {
            vstd::arithmetic::div_mod::lemma_small_mod(draw, (h - l + 1) as nat);
        }
        let r = self.store(net, dest, value);
        assert((state(self@, net@), r) == rand(st0, lo@, hi@, dest@, draw));
        r
    }

    /// LINK: moves the EXA through the link with the given id, if it exists,
    /// has not been used this cycle, and the far host has room. The link and
    /// the links back are then used up for the cycle.
    pub fn link(&mut self, net: &mut Network, dest: &Target) -> (res: Result<(), ExaError>)
        requires
            fits_loose(state(old(self)@, old(net)@)),
        ensures
            (state(final(self)@, final(net)@), res) == link(state(old(self)@, old(net)@), dest@),
    {
        proof {
            reveal(link);
        }
        let ghost st0 = state(self@, net@);
        proof {
            lemma_read_target_keeps(st0, dest@);
        }
        let link_id = match self.read_target(net, dest) {
            Ok(v) => v,
            Err(e) => return Err(e),
        };
        let ghost st1 = state(self@, net@);
        let from = self.host;
        let k = match net.hosts[from].find_link(link_id) {
            None => return Err(ExaError::Fatal("invalid link id")),
            Some(k) => k,
        };
        proof {
            lemma_find_key(net@.hosts[from as int].links, link_id);
        }
        let l = net.hosts[from].links[k].1;
        if l.traversed_this_cycle {
            return Err(ExaError::Blocking("link bandwidth exceeded"));
        }
        let to = l.to_host;
        assert(to < net.hosts.len()) by {
            assert(net@.hosts[from as int].links[k as int].1.to_host < net@.hosts.len());
        }
        match net.hosts[to].reserve_slot() {
            Err(_) => {
                assert(net@.hosts =~= st1.net.hosts);
                return Err(ExaError::Blocking("destination host is full"));
            },
            Ok(()) => {},
        }
        mark_links_to_exec(&mut net.hosts[to].links, from);
        let ghost dst1 = net.hosts@[to as int]@;
        let ghost hosts1 = st1.net.hosts.update(to as int, dst1);
        assert(net@.hosts =~= hosts1);
        net.hosts[from].links[k].1.traversed_this_cycle = true;
        assert(net.hosts@[from as int].occupied > 0) by {
            if from != to {
                assert(st1.net.hosts[from as int].occupied >= st1.net.hosts[from as int].files.len() + 1);
            }
        }
        net.hosts[from].free_slot();
        self.host = to;
        let ghost src1 = hosts1[from as int];
        assert(net.hosts@[from as int]@.links =~= src1.links.update(
            k as int,
            (link_id, HostLink { traversed_this_cycle: true, ..l }),
        ));
        assert(net@.hosts =~= hosts1.update(from as int, net.hosts@[from as int]@));
        assert(state(self@, net@) =~~= link(st0, dest@).0);
        Ok(())
    }

    /// The name and family number of the next replica; the family counter moves on.
    fn name_and_id_for_repl(&self, net: &mut Network) -> (r: (String, u64))
        requires
            self.lineage < old(net).spawn_counters.len(),
        ensures
            r.1 == old(net).spawn_counters@[self.lineage as int],
            r.0@ == self@.base_name + seq![':'] + crate::text::nat_decimal(r.1 as nat),
            final(net)@ == (crate::vm::SpecNetwork {
                spawn_counters: old(net)@.spawn_counters.update(
                    self.lineage as int,
                    crate::vm::next_spawn_id(r.1),
                ),
                ..old(net)@
            }),
    {
        let num = net.spawn_counters[self.lineage];
        net.spawn_counters.set(self.lineage, if num == u64::MAX { 0 } else { num + 1 });
        let mut chars = str_chars(self.base_name.as_str());
        chars.push(':');
        let mut digits = u64_decimal(num);
        chars.append(&mut digits);
        assert(net@ =~~= (crate::vm::SpecNetwork {
            spawn_counters: old(net)@.spawn_counters.update(self.lineage as int, crate::vm::next_spawn_id(num)),
            ..old(net)@
        }));
        (string_from_chars(&chars), num)
    }

    /// Creates a replica of this EXA that starts at `pc`, in the same host if it
    /// has room; the VM takes it in from the network.
    pub fn inner_repl(&self, net: &mut Network, pc: usize) -> (res: Result<(), ExaError>)
        requires
            fits_loose(state(self@, old(net)@)),
        ensures
            (state(self@, final(net)@), res) == repl_at(state(self@, old(net)@), pc as nat),
    {
        proof {
            reveal(repl_at);
        }
        let ghost st = state(self@, net@);
        let h = self.host;
        match net.hosts[h].reserve_slot() {
            Err(e) => {
                assert(net@.hosts =~= old(net)@.hosts);
                return Err(e);
            },
            Ok(()) => {},
        }
        let ghost net1 = net@;
        assert(net1.hosts =~= st.net.hosts.update(h as int, here(st).reserve().0));
        let (name, num) = self.name_and_id_for_repl(net);
        let e = Exa {
            base_name: crate::text::copy_string(&self.base_name),
            spawn_id: num,
            name,
            registers: self.registers.clone_for_repl(),
            result: CycleResult::new(),
            lineage: self.lineage,
            pc,
            instructions: copy_instructions(&self.instructions),
            labels: self.labels.duplicate(),
            mode: self.mode,
            host: self.host,
            error: None,
            file_pointer: 0,
            file: None,
            sprite: self.sprite.duplicate(),
            ran_test_mrd_this_cycle: false,
            waiting: false,
        };
        assert(e@ =~~= replica(self@, num, pc as nat));
        net.spawned.push(e);
        assert(net@.spawned =~= net1.spawned.push(replica(self@, num, pc as nat)));
        assert(state(self@, net@) =~~= repl_at(st, pc as nat).0);
        Ok(())
    }

    /// REPL: a replica starts at the label.
    pub fn repl(&mut self, net: &mut Network, label: &String) -> (res: Result<(), ExaError>)
        requires
            fits_loose(state(old(self)@, old(net)@)),
        ensures
            (state(final(self)@, final(net)@), res) == repl(state(old(self)@, old(net)@), label@),
    {
        proof {
            reveal(repl);
        }
        match self.labels.position(label) {
            None => Err(ExaError::Fatal("unknown label")),
            Some(pos) => self.inner_repl(net, pos),
        }
    }

    /// Runs one instruction.
    #[verifier::spinoff_prover]
    fn execute(&mut self, net: &mut Network, inst: &Instruction) -> (res: Result<(), ExaError>)
        requires
            fits_loose(state(old(self)@, old(net)@)),
        ensures
            exists|draw: nat| (state(final(self)@, final(net)@), res) == #[trigger] execute(
                state(old(self)@, old(net)@),
                inst@,
                draw,
            ),
    {
        let ghost st = state(self@, net@);
        let ghost mut draw: nat = 0;
        let r = match inst {
            Instruction::Link(d) => self.link(net, d),
            Instruction::Copy(s, d) => self.copy(net, s, d),
            Instruction::Addi(a, b, d) => self.addi(net, a, b, d),
            Instruction::Subi(a, b, d) => self.subi(net, a, b, d),
            Instruction::Muli(a, b, d) => self.muli(net, a, b, d),
            Instruction::Divi(a, b, d) => self.divi(net, a, b, d),
            Instruction::Modi(a, b, d) => self.modi(net, a, b, d),
            Instruction::Swiz(a, m, d) => self.swiz(net, a, m, d),
            Instruction::Jump(l) => self.jump(net, l),
            Instruction::Tjmp(l) => self.tjmp(net, l),
            Instruction::Fjmp(l) => self.fjmp(net, l),
            Instruction::Test(a, c, b) => self.test(net, a, c, b),
            Instruction::Repl(l) => self.repl(net, l),
            Instruction::Mode => {
                self.mode = match self.mode {
                    Mode::Local => Mode::Global,
                    Mode::Global => Mode::Local,
                };
                Ok(())
            },
            Instruction::VoidM => {
                proof {
                    reveal_strlit("m");
                    assert("m"@ =~= seq!['m']);
                }
                match self.read_register(net, "m") {
                    Ok(_) => Ok(()),
                    Err(e) => Err(e),
                }
            },
            Instruction::Make => self.make_file(net),
            Instruction::Drop => self.drop_file(net),
            Instruction::Wipe => self.wipe_file(net),
            Instruction::Grab(t) => self.grab_file(net, t),
            Instruction::Halt => Err(ExaError::Fatal("explicit halt")),
            Instruction::Seek(t) => self.seek_file(net, t),
            Instruction::VoidF => self.void_file(net),
            Instruction::File(t) => self.file_command(net, t),
            Instruction::TestEof => self.test_eof(net),
            Instruction::Rand(lo, hi, d) => {
                let r = self.rand(net, lo, hi, d);
                proof {
                    draw = choose|dr: nat| (state(self@, net@), r) == #[trigger] rand(st, lo@, hi@, d@, dr);
                }
                r
            },
            Instruction::Wait => {
                // waits freeze until the draw routine unfreezes
                self.waiting = true;
                Err(ExaError::Freezing("waiting"))
            },
            // NOOP; HOST (keywords are unsupported); KILL and TEST MRD, which
            // the VM runs itself; MARK and DATA, which spawning takes out.
            _ => Ok(()),
        };
        assert((state(self@, net@), r) =~~= execute(st, inst@, draw));
        r
    }

    /// Runs the instruction at the program counter. On success the counter
    /// moves on, and running past the last instruction is fatal; on failure
    /// the error is kept and the counter stays.
    pub fn run_cycle(&mut self, net: &mut Network) -> (r: &CycleResult)
        requires
            fits_loose(state(old(self)@, old(net)@)),
        ensures
            exists|draw: nat| state(final(self)@, final(net)@) == #[trigger] cycle(state(old(self)@, old(net)@), draw),
            r.unfreeze_exa == final(self).result.unfreeze_exa,
    {
        let ghost st_in = state(self@, net@);
        self.result = CycleResult::new();
        let ghost st0 = state(self@, net@);
        if self.pc >= self.instructions.len() {
            self.error = Some(ExaError::Fatal("out of instructions"));
            assert(state(self@, net@) =~~= cycle(st_in, 0));
            return &self.result;
        }
        assert(self.instructions@[self.pc as int]@ == st0.exa.instructions[self.pc as int]);
        let inst = self.instructions[self.pc].duplicate();
        let r = self.execute(net, &inst);
        let ghost draw = choose|d: nat| (state(self@, net@), r) == #[trigger] execute(st0, inst@, d);
        match r {
            Err(e) => {
                self.error = Some(e);
            },
            Ok(()) => {
                self.pc = if self.pc == usize::MAX { 0 } else { self.pc + 1 };
                self.error = if self.pc >= self.instructions.len() {
                    Some(ExaError::Fatal("out of instructions"))
                } else {
                    None
                };
            },
        }
        assert(state(self@, net@) =~~= cycle(st_in, draw));
        &self.result
    }

    /// Releases a frozen EXA: it moves past the instruction that froze it.
    pub fn unfreeze(&mut self)
        requires
            old(self)@.is_frozen(),
            old(self)@.pc < old(self)@.instructions.len(),
        ensures
            final(self)@ == unfrozen(old(self)@),
    {
        let n = self.instructions.len();
        self.error = None;
        self.pc = self.pc + 1;
        if self.pc >= self.instructions.len() {
            self.error = Some(ExaError::Fatal("out of instructions"));
        }
        assert(self@ =~~= unfrozen(old(self)@));
    }

    /// TEST MRD is run by the VM after all other processing: T tells whether a
    /// message is waiting on the bus in use. It never fails.
    pub fn test_mrd(&mut self, net: &mut Network)
        requires
            fits_loose(state(old(self)@, old(net)@)),
        ensures
            state(final(self)@, final(net)@) == test_mrd(state(old(self)@, old(net)@)),
    {
        let ready = match self.mode {
            Mode::Global => net.bus.has_messages(),
            Mode::Local => net.hosts[self.host].bus.has_messages(),
        };
        proof {
            reveal_strlit("t");
            assert("t"@ =~= seq!['t']);
        }
        let _ = self.write_register(net, "t", if ready { 1 } else { 0 });
    }

    /// The EXA's position on the screen, (GX, GY).
    pub fn coords(&self) -> (r: (i32, i32))
        ensures
            r == (self.registers.gx.value, self.registers.gy.value),
    {
        (self.registers.gx.value, self.registers.gy.value)
    }

    /// CI goes back to -9999 before collisions are checked.
    pub fn reset_collision(&mut self)
        ensures
            final(self)@ == crate::vm::cycle::with_ci(old(self)@, -9999i32),
    {
        self.registers.ci.value = -9999;
        assert(self@ =~~= crate::vm::cycle::with_ci(old(self)@, -9999i32));
    }

    /// Whether the sprites of the two EXAs overlap on the screen.
    pub fn collides(&self, other: &Exa) -> (r: bool)
        ensures
            r == crate::vm::cycle::overlaps(self@, other@),
    {
        let x_diff: i64 = self.registers.gx.value as i64 - other.registers.gx.value as i64;
        let y_diff: i64 = self.registers.gy.value as i64 - other.registers.gy.value as i64;
        // Quick bounds check and bail
        if x_diff >= 10 || x_diff <= -10 || y_diff >= 10 || y_diff <= -10 {
            return false;
        }
        let mut idx: usize = 0;
        while idx < 100
            invariant
                idx <= 100,
                -10 < x_diff < 10,
                -10 < y_diff < 10,
                x_diff == self@.registers.gx.value - other@.registers.gx.value,
                y_diff == self@.registers.gy.value - other@.registers.gy.value,
                self@.sprite.len() == 100,
                other@.sprite.len() == 100,
                forall|k: int| 0 <= k < idx ==> !#[trigger] crate::vm::cycle::pixel_hits(self@, other@, k),
            decreases 100 - idx,
        {
            if self.sprite.pixels[idx] {
                let row = (idx / 10) as i64;
                let col = (idx % 10) as i64;
                let other_row = row + y_diff;
                let other_col = col + x_diff;
                if 0 <= other_row && other_row <= 9 && 0 <= other_col && other_col <= 9 {
                    let other_idx = (other_row * 10 + other_col) as usize;
                    if other.sprite.pixels[other_idx] {
                        assert(crate::vm::cycle::pixel_hits(self@, other@, idx as int));
                        return true;
                    }
                }
            }
            idx = idx + 1;
        }
        false
    }

    /// When the sprites overlap, each EXA's CI takes the other's CO if that
    /// is greater.
    pub fn update_collision(&mut self, other: &mut Exa)
        ensures
            (final(self)@, final(other)@) == crate::vm::cycle::collided(old(self)@, old(other)@),
    {
        if !self.collides(other) {
            return;
        }
        let self_co = self.registers.co.value;
        let other_co = other.registers.co.value;
        if self_co > other.registers.ci.value {
            other.registers.ci.value = self_co;
        }
        if other_co > self.registers.ci.value {
            self.registers.ci.value = other_co;
        }
        assert(self@ =~~= crate::vm::cycle::collided(old(self)@, old(other)@).0);
        assert(other@ =~~= crate::vm::cycle::collided(old(self)@, old(other)@).1);
    }

    /// Returns the (x, y) screen positions of the currently lit pixels of the
    /// sprite, in row-major order.
    pub fn pixels(&self) -> (r: Vec<(usize, usize)>)
        ensures
            crate::vm::cycle::pairs_view(r@) == crate::vm::cycle::visible_pixels(self@, 100),
            forall|m: int| 0 <= m < r@.len() ==> r@[m].0 <= 119 && r@[m].1 <= 99,
    {
        let x = self.registers.gx.value as i64;
        let y = self.registers.gy.value as i64;
        let mut v: Vec<(usize, usize)> = Vec::new();
        let mut idx: usize = 0;
        while idx < 100
            invariant
                idx <= 100,
                x == self@.registers.gx.value,
                y == self@.registers.gy.value,
                self@.sprite.len() == 100,
                crate::vm::cycle::pairs_view(v@) == crate::vm::cycle::visible_pixels(self@, idx as int),
                forall|m: int| 0 <= m < v@.len() ==> v@[m].0 <= 119 && v@[m].1 <= 99,
            decreases 100 - idx,
        {
            let ghost before = v@;
            if self.sprite.pixels[idx] {
                let this_x = (idx % 10) as i64 + x;
                let this_y = (idx / 10) as i64 + y;
                if 0 <= this_x && 119 >= this_x && 0 <= this_y && 99 >= this_y {
                    v.push((this_x as usize, this_y as usize));
                    assert(crate::vm::cycle::pairs_view(v@) =~= crate::vm::cycle::pairs_view(before).push(
                        (this_x as int, this_y as int),
                    ));
                }
            }
            idx = idx + 1;
        }
        v
    }
}

} // verus!
