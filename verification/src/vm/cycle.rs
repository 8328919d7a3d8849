//! Running the whole VM: one cycle of every EXA, and frames of cycles.

use vstd::prelude::*;

use super::exa::invariants::{
    balance, count_in, cycle_ok, exa_ok, flipped, lemma_count_push, lemma_cycle_ok, no_reopen,
};
use super::exa::semantics::{cycle, fits_loose, state, test_mrd, unfrozen, ExaState};
use super::exa::SpecExa;
use super::{exa_named, lemma_exa_named};
use super::{HostLink, SpecHost, SpecNetwork, SpecVM, VM, vm_wf, SCREEN_PIXELS};
use super::error::ExaError;
use crate::random::random_below;
use crate::text::{chars_eq, str_chars};

verus! {

// ---------------------------------------------------------------------------
// Links
// ---------------------------------------------------------------------------

/// Every link free again for the new cycle.
pub open spec fn links_reset(links: Seq<(i32, HostLink)>) -> Seq<(i32, HostLink)> {
    Seq::new(links.len(), |k: int| (links[k].0, HostLink { traversed_this_cycle: false, ..links[k].1 }))
}

pub open spec fn hosts_links_reset(hosts: Seq<SpecHost>) -> Seq<SpecHost> {
    Seq::new(hosts.len(), |h: int| SpecHost { links: links_reset(hosts[h].links), ..hosts[h] })
}

fn reset_link_list(links: &mut Vec<(i32, HostLink)>)
    ensures
        final(links)@ == links_reset(old(links)@),
{
    let ghost orig = links@;
    let mut k: usize = 0;
    while k < links.len()
        invariant
            k <= links.len(),
            links@.len() == orig.len(),
            forall|j: int| 0 <= j < k ==> #[trigger] links@[j] == links_reset(orig)[j],
            forall|j: int| k <= j < links@.len() ==> #[trigger] links@[j] == orig[j],
        decreases links.len() - k,
    {
        links[k].1.traversed_this_cycle = false;
        k = k + 1;
    }
    assert(links@ =~= links_reset(orig));
}

impl VM {
    /// Links can only support one EXA per cycle: at the start of a cycle all
    /// of them are free again.
    fn reset_links(&mut self)
        requires
            old(self)@.wf(),
        ensures
            final(self)@ == links_freed(old(self)@),
            final(self)@.wf(),
            final(self).redshift == old(self).redshift,
    {
        proof {
            reveal(links_freed);
        }
        let ghost v0 = self@;
        let mut h: usize = 0;
        while h < self.network.hosts.len()
            invariant
                self.redshift == old(self).redshift,
                h <= self.network.hosts.len(),
                self@.net.hosts.len() == v0.net.hosts.len(),
                self@ == (SpecVM { net: SpecNetwork { hosts: self@.net.hosts, ..v0.net }, ..v0 }),
                forall|j: int| 0 <= j < h ==> #[trigger] self@.net.hosts[j] == hosts_links_reset(v0.net.hosts)[j],
                forall|j: int| h <= j < self@.net.hosts.len() ==> #[trigger] self@.net.hosts[j] == v0.net.hosts[j],
            decreases self.network.hosts.len() - h,
        {
            let ghost before = self@.net.hosts;
            assert(before[h as int] == v0.net.hosts[h as int]);
            let ghost old_links = self.network.hosts@[h as int].links@;
            reset_link_list(&mut self.network.hosts[h].links);
            assert(self.network.hosts@[h as int].links@ == links_reset(old_links));
            assert(old_links == v0.net.hosts[h as int].links);
            assert(self@.net.hosts[h as int].links == hosts_links_reset(v0.net.hosts)[h as int].links);
            assert(self@.net.hosts[h as int] =~~= hosts_links_reset(v0.net.hosts)[h as int]);
            assert(self@.net.hosts =~= before.update(h as int, hosts_links_reset(v0.net.hosts)[h as int]));
            h = h + 1;
        }
        assert(self@.net.hosts =~= hosts_links_reset(v0.net.hosts));
        let ghost net = self@.net;
        assert forall|k: int| 0 <= k < net.hosts.len() implies #[trigger] net.hosts[k].wf() by {
            assert(v0.net.hosts[k].wf());
        }
        assert forall|k: int, j: int| 0 <= k < net.hosts.len() && 0 <= j < net.hosts[k].links.len() implies #[trigger] net.hosts[k].links[j].1.to_host
            < net.hosts.len() by {
            assert(v0.net.hosts[k].links[j].1.to_host < v0.net.hosts.len());
        }
        assert forall|i: int| 0 <= i < v0.exas.len() implies exa_ok(#[trigger] v0.exas[i], net) by {
            assert(exa_ok(v0.exas[i], v0.net));
        }
        assert forall|k: int| 0 <= k < net.hosts.len() implies #[trigger] net.hosts[k].occupied == net.hosts[k].files.len()
            + count_in(v0.exas, k) by {
            assert(v0.net.hosts[k].occupied == v0.net.hosts[k].files.len() + count_in(v0.exas, k));
        }
    }
}

// ---------------------------------------------------------------------------
// Counting EXAs
// ---------------------------------------------------------------------------

pub proof fn lemma_count_remove(s: Seq<SpecExa>, i: int, h: int)
    requires
        0 <= i < s.len(),
    ensures
        count_in(s.remove(i), h) + (if s[i].host == h { 1int } else { 0int }) == count_in(s, h),
    decreases s.len(),
{
    if i == s.len() - 1 {
        assert(s.remove(i) =~= s.drop_last());
    } else {
        lemma_count_remove(s.drop_last(), i, h);
        assert(s.remove(i).drop_last() =~= s.drop_last().remove(i));
        assert(s.remove(i).last() == s.last());
    }
}

pub proof fn lemma_count_pos(s: Seq<SpecExa>, i: int)
    requires
        0 <= i < s.len(),
    ensures
        count_in(s, s[i].host as int) >= 1,
    decreases s.len(),
{
    if i < s.len() - 1 {
        lemma_count_pos(s.drop_last(), i);
        assert(s.drop_last()[i] == s[i]);
    }
}

/// Changing EXAs without moving them between hosts leaves the counts alone.
pub proof fn lemma_count_same_hosts(s: Seq<SpecExa>, t: Seq<SpecExa>, h: int)
    requires
        s.len() == t.len(),
        forall|k: int| 0 <= k < s.len() ==> #[trigger] s[k].host == t[k].host,
    ensures
        count_in(s, h) == count_in(t, h),
    decreases s.len(),
{
    if s.len() > 0 {
        lemma_count_same_hosts(s.drop_last(), t.drop_last(), h);
    }
}

pub proof fn lemma_count_append(s: Seq<SpecExa>, t: Seq<SpecExa>, h: int)
    ensures
        count_in(s + t, h) == count_in(s, h) + count_in(t, h),
    decreases t.len(),
{
    if t.len() == 0 {
        assert(s + t =~= s);
    } else {
        lemma_count_append(s, t.drop_last(), h);
        assert((s + t).drop_last() =~= s + t.drop_last());
    }
}

// ---------------------------------------------------------------------------
// Dead EXAs
// ---------------------------------------------------------------------------

/// EXAs that died last cycle leave: a held file is dropped where the EXA
/// stood, taking over its square; otherwise the square is freed.
pub open spec fn cleanup(exas: Seq<SpecExa>, hosts: Seq<SpecHost>) -> (Seq<SpecExa>, Seq<SpecHost>)
    decreases exas.len(),
{
    if exas.len() == 0 {
        (exas, hosts)
    } else {
        let (kept, hs) = cleanup(exas.drop_last(), hosts);
        let e = exas.last();
        if e.is_fatal() {
            let h = hs[e.host as int];
            let h2 = match e.file {
                Some(f) => SpecHost { files: h.files.push(f), ..h },
                None => SpecHost { occupied: (h.occupied - 1) as nat, ..h },
            };
            (kept, hs.update(e.host as int, h2))
        } else {
            (kept.push(e), hs)
        }
    }
}

/// The files that the dead EXAs of host `h` held, in order.
pub open spec fn dropped_files(exas: Seq<SpecExa>, h: int) -> Seq<super::file::SpecFile>
    decreases exas.len(),
{
    if exas.len() == 0 {
        Seq::empty()
    } else {
        dropped_files(exas.drop_last(), h) + match exas.last().file {
            Some(f) => if exas.last().is_fatal() && exas.last().host == h {
                seq![f]
            } else {
                Seq::empty()
            },
            None => Seq::empty(),
        }
    }
}

/// EXAs that died last cycle leave, and only they: the EXAs that stay are
/// the live ones, in their order, and each host gets the files its dead EXAs
/// held, in their order, after its own.
pub proof fn law_cleanup_keeps_the_living(exas: Seq<SpecExa>, hosts: Seq<SpecHost>)
    ensures
        cleanup(exas, hosts).0 == exas.filter(|e: SpecExa| !e.is_fatal()),
        (forall|k: int| 0 <= k < exas.len() ==> #[trigger] exas[k].host < hosts.len()) ==> {
            &&& cleanup(exas, hosts).1.len() == hosts.len()
            &&& forall|h: int|
                0 <= h < hosts.len() ==> #[trigger] cleanup(exas, hosts).1[h].files == hosts[h].files
                    + dropped_files(exas, h)
        },
    decreases exas.len(),
{
    reveal(Seq::filter);
    if exas.len() > 0 {
        law_cleanup_keeps_the_living(exas.drop_last(), hosts);
        if forall|k: int| 0 <= k < exas.len() ==> #[trigger] exas[k].host < hosts.len() {
            let init = exas.drop_last();
            assert forall|k: int| 0 <= k < init.len() implies #[trigger] init[k].host < hosts.len() by {
                assert(init[k] == exas[k]);
            }
            let hs = cleanup(init, hosts).1;
            let e = exas.last();
            assert(e.host < hosts.len());
            assert forall|h: int| 0 <= h < hosts.len() implies #[trigger] cleanup(exas, hosts).1[h].files
                == hosts[h].files + dropped_files(exas, h) by {
                assert(hs[h].files == hosts[h].files + dropped_files(init, h));
                if e.is_fatal() && e.host == h && e.file is Some {
                    assert(hosts[h].files + dropped_files(exas, h) =~= hosts[h].files + dropped_files(init, h)
                        + seq![e.file->Some_0]);
                } else {
                    assert(hosts[h].files + dropped_files(exas, h) =~= hosts[h].files + dropped_files(init, h));
                }
            }
        }
    }
}

impl VM {
    fn cleanup_fatal(&mut self)
        requires
            old(self)@.wf(),
        ensures
            final(self)@ == dead_removed(old(self)@),
            final(self)@.wf(),
            final(self).redshift == old(self).redshift,
    {
        proof {
            reveal(dead_removed);
        }
        let ghost v0 = self@;
        let ghost orig = v0.exas;
        let ghost hosts0 = v0.net.hosts;
        let mut i: usize = 0;
        let ghost mut j: int = 0;
        assert(orig.subrange(0, 0) =~= Seq::<SpecExa>::empty());
        assert(self@.exas =~= Seq::<SpecExa>::empty() + orig.subrange(0, orig.len() as int));
        while i < self.exas.len()
            invariant
                self.redshift == old(self).redshift,
                0 <= j <= orig.len(),
                i == cleanup(orig.subrange(0, j), hosts0).0.len(),
                self@.exas == cleanup(orig.subrange(0, j), hosts0).0 + orig.subrange(j, orig.len() as int),
                self@.net.hosts == cleanup(orig.subrange(0, j), hosts0).1,
                self@ == (SpecVM { exas: self@.exas, net: SpecNetwork { hosts: self@.net.hosts, ..v0.net }, ..v0 }),
                self@.wf(),
            decreases self.exas.len() - i,
        {
            let ghost prefix = orig.subrange(0, j);
            let ghost next = orig.subrange(0, j + 1);
            let ghost kept = cleanup(prefix, hosts0).0;
            let ghost cur = self@;
            assert(next.drop_last() =~= prefix);
            assert(cur.exas[i as int] == orig[j]);
            assert(self.exas@[i as int]@ == orig[j]);
            if self.exas[i].is_fatal() {
                let e = self.exas.remove(i);
                let h = e.host;
                proof {
                    assert(exa_ok(cur.exas[i as int], cur.net));
                    lemma_count_remove(cur.exas, i as int, h as int);
                    lemma_count_pos(cur.exas, i as int);
                    assert(cur.net.hosts[h as int].occupied == cur.net.hosts[h as int].files.len() + count_in(cur.exas, h as int));
                    assert(cur.net.hosts[h as int].wf());
                }
                let ghost ef = e@.file;
                match e.file {
                    Some(f) => {
                        self.network.hosts[h].files.push(f);
                    },
                    None => {
                        self.network.hosts[h].free_slot();
                    },
                }
                let ghost nh = self@.net.hosts[h as int];
                assert(self@.net.hosts =~= cur.net.hosts.update(h as int, nh));
                assert(self@.exas =~= cur.exas.remove(i as int));
                assert(self@.exas =~= kept + orig.subrange(j + 1, orig.len() as int));
                assert(nh =~~= match ef {
                    Some(f) => SpecHost { files: cur.net.hosts[h as int].files.push(f), ..cur.net.hosts[h as int] },
                    None => SpecHost { occupied: (cur.net.hosts[h as int].occupied - 1) as nat, ..cur.net.hosts[h as int] },
                });
                proof {
                    let net = self@.net;
                    let exas = self@.exas;
                    assert forall|k: int| 0 <= k < net.hosts.len() implies #[trigger] net.hosts[k].wf() by {
                        assert(cur.net.hosts[k].wf());
                    }
                    assert forall|k: int, l: int| 0 <= k < net.hosts.len() && 0 <= l < net.hosts[k].links.len() implies #[trigger] net.hosts[k].links[l].1.to_host
                        < net.hosts.len() by {
                        assert(cur.net.hosts[k].links[l].1.to_host < cur.net.hosts.len());
                    }
                    assert forall|k: int| 0 <= k < exas.len() implies exa_ok(#[trigger] exas[k], net) by {
                        if k < i {
                            assert(exas[k] == cur.exas[k]);
                            assert(exa_ok(cur.exas[k], cur.net));
                        } else {
                            assert(exas[k] == cur.exas[k + 1]);
                            assert(exa_ok(cur.exas[k + 1], cur.net));
                        }
                    }
                    assert forall|k: int| 0 <= k < net.hosts.len() implies #[trigger] net.hosts[k].occupied == net.hosts[k].files.len()
                        + count_in(exas, k) by {
                        lemma_count_remove(cur.exas, i as int, k);
                        assert(cur.net.hosts[k].occupied == cur.net.hosts[k].files.len() + count_in(cur.exas, k));
                    }
                }
            } else {
                assert(cleanup(next, hosts0).0 =~= kept.push(orig[j]));
                assert(self@.exas =~= kept.push(orig[j]) + orig.subrange(j + 1, orig.len() as int));
                i = i + 1;
            }
            proof {
                j = j + 1;
            }
        }
        assert(j == orig.len()) by {
            assert(self@.exas.len() == i + (orig.len() - j));
        }
        assert(orig.subrange(0, j) =~= orig);
        assert(self@.exas =~= cleanup(orig, hosts0).0);
    }
}

// ---------------------------------------------------------------------------
// Collisions
// ---------------------------------------------------------------------------

/// Whether any pixel of the sprite is lit.
pub open spec fn has_pixels(e: SpecExa) -> bool {
    exists|k: int| 0 <= k < 100 && #[trigger] e.sprite[k]
}

/// The EXAs whose sprites have a lit pixel, in order.
pub open spec fn collision_list(exas: Seq<SpecExa>) -> Seq<int>
    decreases exas.len(),
{
    if exas.len() == 0 {
        Seq::empty()
    } else {
        collision_list(exas.drop_last()) + if has_pixels(exas.last()) {
            seq![exas.len() - 1]
        } else {
            Seq::empty()
        }
    }
}

pub proof fn lemma_collision_list(exas: Seq<SpecExa>)
    ensures
        forall|k: int| 0 <= k < collision_list(exas).len() ==> 0 <= #[trigger] collision_list(exas)[k] < exas.len(),
        forall|k: int, l: int| 0 <= k < l < collision_list(exas).len() ==> #[trigger] collision_list(exas)[k] < #[trigger] collision_list(exas)[l],
    decreases exas.len(),
{
    if exas.len() > 0 {
        let init = exas.drop_last();
        lemma_collision_list(init);
        let l0 = collision_list(init);
        let l = collision_list(exas);
        assert forall|k: int| 0 <= k < l.len() implies 0 <= #[trigger] l[k] < exas.len() by {
            if k < l0.len() {
                assert(l[k] == l0[k]);
            }
        }
        assert forall|k: int, m: int| 0 <= k < m < l.len() implies #[trigger] l[k] < #[trigger] l[m] by {
            assert(l[k] == l0[k]);
            if m < l0.len() {
                assert(l[m] == l0[m]);
            }
        }
    }
}

/// Whether pixel `k` of `a`'s sprite, placed at `a`'s coordinates, lands on a
/// lit pixel of `b`'s sprite at `b`'s.
pub open spec fn pixel_hits(a: SpecExa, b: SpecExa, k: int) -> bool {
    let dx = a.registers.gx.value - b.registers.gx.value;
    let dy = a.registers.gy.value - b.registers.gy.value;
    let r = k / 10 + dy;
    let c = k % 10 + dx;
    &&& a.sprite[k]
    &&& 0 <= r <= 9
    &&& 0 <= c <= 9
    &&& b.sprite[r * 10 + c]
}

pub open spec fn overlaps(a: SpecExa, b: SpecExa) -> bool {
    let dx = a.registers.gx.value - b.registers.gx.value;
    let dy = a.registers.gy.value - b.registers.gy.value;
    &&& -10 < dx < 10
    &&& -10 < dy < 10
    &&& exists|k: int| 0 <= k < 100 && #[trigger] pixel_hits(a, b, k)
}

/// Some lit pixel of `a`'s sprite, drawn at (gx + column, gy + row) on the
/// screen, stands where a lit pixel of `b`'s sprite is drawn.
#[verifier::opaque]
pub open spec fn lit_pixels_meet(a: SpecExa, b: SpecExa) -> bool {
    exists|k1: int, k2: int|
        #![trigger a.sprite[k1], b.sprite[k2]]
        0 <= k1 < 100 && 0 <= k2 < 100 && a.sprite[k1] && b.sprite[k2]
            && a.registers.gx.value + k1 % 10 == b.registers.gx.value + k2 % 10
            && a.registers.gy.value + k1 / 10 == b.registers.gy.value + k2 / 10
}

/// Two EXAs' sprites overlap exactly when some lit pixel of the first, drawn
/// at (gx + column, gy + row) on the screen, stands where a lit pixel of the
/// second is drawn.
pub proof fn law_overlap_is_a_shared_screen_pixel(a: SpecExa, b: SpecExa)
    requires
        a.sprite.len() == 100,
        b.sprite.len() == 100,
    ensures
        overlaps(a, b) <==> lit_pixels_meet(a, b),
{
    reveal(lit_pixels_meet);
    let ax = a.registers.gx.value as int;
    let ay = a.registers.gy.value as int;
    let bx = b.registers.gx.value as int;
    let by_ = b.registers.gy.value as int;
    if overlaps(a, b) {
        let k = choose|k: int| 0 <= k < 100 && #[trigger] pixel_hits(a, b, k);
        let r = k / 10 + (ay - by_);
        let c = k % 10 + (ax - bx);
        let k2 = r * 10 + c;
        assert(0 <= k2 < 100) by (nonlinear_arith)
            requires 0 <= r <= 9, 0 <= c <= 9, k2 == r * 10 + c;
        assert(k2 % 10 == c && k2 / 10 == r) by (nonlinear_arith)
            requires 0 <= r <= 9, 0 <= c <= 9, k2 == r * 10 + c;
        assert(a.sprite[k] && b.sprite[k2]);
    }
    if exists|k1: int, k2: int|
        #![trigger a.sprite[k1], b.sprite[k2]]
        0 <= k1 < 100 && 0 <= k2 < 100 && a.sprite[k1] && b.sprite[k2]
            && a.registers.gx.value + k1 % 10 == b.registers.gx.value + k2 % 10
            && a.registers.gy.value + k1 / 10 == b.registers.gy.value + k2 / 10
    {
        let (k1, k2) = choose|k1: int, k2: int|
            #![trigger a.sprite[k1], b.sprite[k2]]
            0 <= k1 < 100 && 0 <= k2 < 100 && a.sprite[k1] && b.sprite[k2]
                && a.registers.gx.value + k1 % 10 == b.registers.gx.value + k2 % 10
                && a.registers.gy.value + k1 / 10 == b.registers.gy.value + k2 / 10;
        let r = k2 / 10;
        let c = k2 % 10;
        assert(r * 10 + c == k2);
        assert(0 <= k1 / 10 <= 9 && 0 <= r <= 9);
        assert(pixel_hits(a, b, k1));
        assert(overlaps(a, b));
    }
}

pub open spec fn with_ci(e: SpecExa, v: i32) -> SpecExa {
    SpecExa {
        registers: super::exa::Registers {
            ci: super::register::Register { value: v, ..e.registers.ci },
            ..e.registers
        },
        ..e
    }
}

/// When the sprites of two EXAs overlap, each one's CI takes the other's CO
/// if that is greater.
pub open spec fn collided(a: SpecExa, b: SpecExa) -> (SpecExa, SpecExa) {
    if overlaps(a, b) {
        let a_co = a.registers.co.value;
        let b_co = b.registers.co.value;
        (
            if b_co > a.registers.ci.value { with_ci(a, b_co) } else { a },
            if a_co > b.registers.ci.value { with_ci(b, a_co) } else { b },
        )
    } else {
        (a, b)
    }
}

pub open spec fn collide_at(exas: Seq<SpecExa>, i: int, j: int) -> Seq<SpecExa> {
    let (a, b) = collided(exas[i], exas[j]);
    exas.update(j, b).update(i, a)
}

/// The EXA at `list[a]` against those after it in the list, up to `n`.
pub open spec fn collide_row(exas: Seq<SpecExa>, list: Seq<int>, a: int, n: int) -> Seq<SpecExa>
    decreases n - a,
{
    if n <= a + 1 {
        exas
    } else {
        collide_at(collide_row(exas, list, a, n - 1), list[a], list[n - 1])
    }
}

/// Every pair of the list with its first member among the first `m`.
pub open spec fn collide_all(exas: Seq<SpecExa>, list: Seq<int>, m: int) -> Seq<SpecExa>
    decreases m,
{
    if m <= 0 {
        exas
    } else {
        collide_row(collide_all(exas, list, m - 1), list, m - 1, list.len() as int)
    }
}

pub open spec fn ci_reset(exas: Seq<SpecExa>) -> Seq<SpecExa> {
    Seq::new(exas.len(), |i: int| with_ci(exas[i], -9999i32))
}

/// Collision detection on the Redshift: every CI is reset, then every pair of
/// EXAs with lit sprites is checked, in order.
pub open spec fn collisions(exas: Seq<SpecExa>) -> Seq<SpecExa> {
    let reset = ci_reset(exas);
    collide_all(reset, collision_list(reset), collision_list(reset).len() as int)
}

/// Changing EXAs in place, without moving them, keeps the VM's invariant.
pub proof fn lemma_wf_same_places(net: SpecNetwork, s: Seq<SpecExa>, t: Seq<SpecExa>)
    requires
        vm_wf(net, s),
        s.len() == t.len(),
        forall|k: int| 0 <= k < t.len() ==> (#[trigger] t[k]).host == s[k].host && exa_ok(t[k], net),
    ensures
        vm_wf(net, t),
{
    assert forall|h: int| 0 <= h < net.hosts.len() implies #[trigger] net.hosts[h].occupied == net.hosts[h].files.len()
        + count_in(t, h) by {
        lemma_count_same_hosts(s, t, h);
    }
}

impl VM {
    /// Runs the collision check of one pair of EXAs.
    fn collide_pair(&mut self, i: usize, j: usize)
        requires
            old(self)@.wf(),
            i < old(self).exas.len(),
            j < old(self).exas.len(),
            i != j,
        ensures
            final(self)@ == (SpecVM { exas: collide_at(old(self)@.exas, i as int, j as int), ..old(self)@ }),
            final(self)@.wf(),
            final(self).redshift == old(self).redshift,
    {
        let ghost v0 = self@;
        let hit = self.exas[i].collides(&self.exas[j]);
        if hit {
            let a_co = self.exas[i].registers.co.value;
            let b_co = self.exas[j].registers.co.value;
            if a_co > self.exas[j].registers.ci.value {
                self.exas[j].registers.ci.value = a_co;
            }
            if b_co > self.exas[i].registers.ci.value {
                self.exas[i].registers.ci.value = b_co;
            }
        }
        let ghost (a, b) = collided(v0.exas[i as int], v0.exas[j as int]);
        assert(self@.exas[i as int] =~~= a);
        assert(self@.exas[j as int] =~~= b);
        assert(self@.exas =~= collide_at(v0.exas, i as int, j as int));
        proof {
            assert(exa_ok(v0.exas[i as int], v0.net));
            assert(exa_ok(v0.exas[j as int], v0.net));
            lemma_wf_same_places(v0.net, v0.exas, self@.exas);
        }
    }

    /// On the Redshift, collision detection: every CI is reset, then every pair
    /// of EXAs with lit sprites is checked.
    fn check_collisions(&mut self)
        requires
            old(self)@.wf(),
        ensures
            final(self)@ == collided_vm(old(self)@),
            final(self)@.wf(),
            final(self).redshift == old(self).redshift,
    {
        proof {
            reveal(collided_vm);
        }
        if self.redshift.is_some() {
            self.detect_collisions();
        }
    }

    fn detect_collisions(&mut self)
        requires
            old(self)@.wf(),
        ensures
            final(self)@ == (SpecVM { exas: collisions(old(self)@.exas), ..old(self)@ }),
            final(self)@.wf(),
            final(self).redshift == old(self).redshift,
    {
        let ghost v0 = self@;
        let mut i: usize = 0;
        while i < self.exas.len()
            invariant
                self.redshift == old(self).redshift,
                i <= self.exas.len(),
                self@.exas.len() == v0.exas.len(),
                self@ == (SpecVM { exas: self@.exas, ..v0 }),
                forall|k: int| 0 <= k < i ==> #[trigger] self@.exas[k] == ci_reset(v0.exas)[k],
                forall|k: int| i <= k < self@.exas.len() ==> #[trigger] self@.exas[k] == v0.exas[k],
            decreases self.exas.len() - i,
        {
            let ghost before = self@.exas;
            self.exas[i].reset_collision();
            assert(ci_reset(v0.exas)[i as int] == with_ci(v0.exas[i as int], -9999i32));
            assert(self@.exas[i as int] == with_ci(before[i as int], -9999i32));
            assert(self@.exas =~= before.update(i as int, ci_reset(v0.exas)[i as int]));
            i = i + 1;
        }
        let ghost reset = ci_reset(v0.exas);
        assert(self@.exas =~= reset);
        proof {
            assert forall|k: int| 0 <= k < reset.len() implies (#[trigger] reset[k]).host == v0.exas[k].host && exa_ok(reset[k], v0.net) by {
                assert(exa_ok(v0.exas[k], v0.net));
            }
            lemma_wf_same_places(v0.net, v0.exas, reset);
        }
        let mut list: Vec<usize> = Vec::new();
        let mut k: usize = 0;
        while k < self.exas.len()
            invariant
                self.redshift == old(self).redshift,
                k <= self.exas.len(),
                self@.exas == reset,
                list@.len() == collision_list(reset.subrange(0, k as int)).len(),
                forall|m: int| 0 <= m < list@.len() ==> list@[m] as int == #[trigger] collision_list(reset.subrange(0, k as int))[m],
            decreases self.exas.len() - k,
        {
            let ghost prefix = reset.subrange(0, k as int);
            let ghost next = reset.subrange(0, k + 1);
            assert(next.drop_last() =~= prefix);
            let ghost before = list@;
            if !self.exas[k].sprite.is_empty() {
                assert(self@.exas[k as int].sprite == self.exas@[k as int].sprite.pixels@);
                assert(has_pixels(next.last()));
                list.push(k);
            } else {
                assert(!has_pixels(next.last())) by {
                    assert(next.last() == self@.exas[k as int]);
                }
            }
            assert forall|m: int| 0 <= m < list@.len() implies list@[m] as int == #[trigger] collision_list(next)[m] by {
                if m < before.len() {
                    assert(collision_list(next)[m] == collision_list(prefix)[m]);
                }
            }
            k = k + 1;
        }
        assert(reset.subrange(0, reset.len() as int) =~= reset);
        let ghost l = collision_list(reset);
        proof {
            lemma_collision_list(reset);
        }
        let mut a: usize = 0;
        while a < list.len()
            invariant
                self.redshift == old(self).redshift,
                a <= list.len(),
                list@.len() == l.len(),
                forall|m: int| 0 <= m < list@.len() ==> list@[m] as int == #[trigger] l[m],
                forall|m: int| 0 <= m < l.len() ==> 0 <= #[trigger] l[m] < reset.len(),
                forall|m: int, n: int| 0 <= m < n < l.len() ==> #[trigger] l[m] < #[trigger] l[n],
                self@ == (SpecVM { exas: collide_all(reset, l, a as int), ..v0 }),
                self@.exas.len() == reset.len(),
                self@.wf(),
            decreases list.len() - a,
        {
            let mut b: usize = a + 1;
            while b < list.len()
                invariant
                    self.redshift == old(self).redshift,
                    a < b <= list.len(),
                    a < list.len(),
                    list@.len() == l.len(),
                    forall|m: int| 0 <= m < list@.len() ==> list@[m] as int == #[trigger] l[m],
                    forall|m: int| 0 <= m < l.len() ==> 0 <= #[trigger] l[m] < reset.len(),
                    forall|m: int, n: int| 0 <= m < n < l.len() ==> #[trigger] l[m] < #[trigger] l[n],
                    self@ == (SpecVM { exas: collide_row(collide_all(reset, l, a as int), l, a as int, b as int), ..v0 }),
                    self@.exas.len() == reset.len(),
                    self@.wf(),
                decreases list.len() - b,
            {
                assert(l[a as int] < l[b as int]);
                self.collide_pair(list[a], list[b]);
                b = b + 1;
            }
            a = a + 1;
        }
    }
}

// ---------------------------------------------------------------------------
// Buses
// ---------------------------------------------------------------------------

/// Every bus starts a new cycle: all queued messages become readable, and one
/// read is allowed.
pub open spec fn buses_cycled(net: SpecNetwork) -> SpecNetwork {
    SpecNetwork {
        bus: net.bus.after_cycle(),
        hosts: Seq::new(net.hosts.len(), |h: int| SpecHost { bus: net.hosts[h].bus.after_cycle(), ..net.hosts[h] }),
        ..net
    }
}

impl VM {
    fn cycle_buses(&mut self)
        requires
            old(self)@.wf(),
        ensures
            final(self)@ == buses_started(old(self)@),
            final(self)@.wf(),
            final(self).redshift == old(self).redshift,
    {
        proof {
            reveal(buses_started);
        }
        let ghost v0 = self@;
        self.network.bus.run_cycle();
        let mut h: usize = 0;
        while h < self.network.hosts.len()
            invariant
                self.redshift == old(self).redshift,
                h <= self.network.hosts.len(),
                self@.net.hosts.len() == v0.net.hosts.len(),
                self@ == (SpecVM {
                    net: SpecNetwork { hosts: self@.net.hosts, ..buses_cycled(v0.net) },
                    ..v0
                }),
                forall|j: int| 0 <= j < h ==> #[trigger] self@.net.hosts[j] == buses_cycled(v0.net).hosts[j],
                forall|j: int| h <= j < self@.net.hosts.len() ==> #[trigger] self@.net.hosts[j] == v0.net.hosts[j],
            decreases self.network.hosts.len() - h,
        {
            let ghost before = self@.net.hosts;
            assert(before[h as int] == v0.net.hosts[h as int]);
            let ghost old_bus = self.network.hosts@[h as int].bus@;
            self.network.hosts[h].bus.run_cycle();
            assert(self.network.hosts@[h as int].bus@ == old_bus.after_cycle());
            assert(old_bus == v0.net.hosts[h as int].bus);
            assert(self@.net.hosts[h as int].bus == buses_cycled(v0.net).hosts[h as int].bus);
            assert(self@.net.hosts[h as int] =~~= buses_cycled(v0.net).hosts[h as int]);
            assert(self@.net.hosts =~= before.update(h as int, buses_cycled(v0.net).hosts[h as int]));
            h = h + 1;
        }
        assert(self@.net.hosts =~= buses_cycled(v0.net).hosts);
        assert(self@.net =~~= buses_cycled(v0.net));
        let ghost net = self@.net;
        assert forall|k: int| 0 <= k < net.hosts.len() implies #[trigger] net.hosts[k].wf() by {
            assert(v0.net.hosts[k].wf());
        }
        assert forall|k: int, j: int| 0 <= k < net.hosts.len() && 0 <= j < net.hosts[k].links.len() implies #[trigger] net.hosts[k].links[j].1.to_host
            < net.hosts.len() by {
            assert(v0.net.hosts[k].links[j].1.to_host < v0.net.hosts.len());
        }
        assert forall|i: int| 0 <= i < v0.exas.len() implies exa_ok(#[trigger] v0.exas[i], net) by {
            assert(exa_ok(v0.exas[i], v0.net));
        }
        assert forall|k: int| 0 <= k < net.hosts.len() implies #[trigger] net.hosts[k].occupied == net.hosts[k].files.len()
            + count_in(v0.exas, k) by {
            assert(v0.net.hosts[k].occupied == v0.net.hosts[k].files.len() + count_in(v0.exas, k));
        }
    }
}

// ---------------------------------------------------------------------------
// Kills
// ---------------------------------------------------------------------------

/// Whether EXA `j` is in priority tier `tier` for a KILL by EXA `k`: it must
/// be another EXA (by name) in the same host that is not dead yet; tier 0
/// holds those also killing this cycle, tier 1 those newer in `k`'s family,
/// tier 2 those older, tier 3 everyone.
pub open spec fn in_tier(exas: Seq<SpecExa>, k: int, j: int, tier: nat) -> bool {
    let killer = exas[k];
    let e = exas[j];
    &&& e.name != killer.name
    &&& e.host == killer.host
    &&& !e.is_fatal()
    &&& if tier == 0 {
        e.at_kill()
    } else if tier == 1 {
        e.base_name == killer.base_name && e.spawn_id > killer.spawn_id
    } else if tier == 2 {
        e.base_name == killer.base_name && e.spawn_id < killer.spawn_id
    } else {
        true
    }
}

/// The indices below `n` in a tier, in order.
pub open spec fn tier_list(exas: Seq<SpecExa>, k: int, tier: nat, n: int) -> Seq<int>
    decreases n,
{
    if n <= 0 {
        Seq::empty()
    } else {
        tier_list(exas, k, tier, n - 1) + if in_tier(exas, k, n - 1, tier) {
            seq![n - 1]
        } else {
            Seq::empty()
        }
    }
}

/// Kill targets are prioritized: the first tier with any member is the
/// group a target is drawn from.
pub open spec fn kill_group(exas: Seq<SpecExa>, k: int) -> Seq<int> {
    let n = exas.len() as int;
    if tier_list(exas, k, 0, n).len() > 0 {
        tier_list(exas, k, 0, n)
    } else if tier_list(exas, k, 1, n).len() > 0 {
        tier_list(exas, k, 1, n)
    } else if tier_list(exas, k, 2, n).len() > 0 {
        tier_list(exas, k, 2, n)
    } else {
        tier_list(exas, k, 3, n)
    }
}

pub open spec fn killed() -> super::error::ExaError {
    super::error::ExaError::Fatal("killed")
}

/// The KILL of EXA `k`: member `choice` (modulo the group's size) of its
/// group dies.
pub open spec fn kill_one(exas: Seq<SpecExa>, k: int, choice: nat) -> Seq<SpecExa> {
    let g = kill_group(exas, k);
    if g.len() == 0 {
        exas
    } else {
        let t = g[(choice % g.len()) as int];
        exas.update(t, SpecExa { error: Some(killed()), ..exas[t] })
    }
}

/// The EXAs below `n` about to run a KILL, in order.
pub open spec fn killer_list(exas: Seq<SpecExa>, n: int) -> Seq<int>
    decreases n,
{
    if n <= 0 {
        Seq::empty()
    } else {
        killer_list(exas, n - 1) + if exas[n - 1].at_kill() {
            seq![n - 1]
        } else {
            Seq::empty()
        }
    }
}

/// The first `m` KILLs, with the given draws.
pub open spec fn kill_all(exas: Seq<SpecExa>, killers: Seq<int>, choices: Seq<nat>, m: int) -> Seq<SpecExa>
    decreases m,
{
    if m <= 0 {
        exas
    } else {
        kill_one(kill_all(exas, killers, choices, m - 1), killers[m - 1], choices[m - 1])
    }
}

/// Only the draws of the KILLs made so far matter.
pub proof fn lemma_kill_all_prefix(exas: Seq<SpecExa>, killers: Seq<int>, c1: Seq<nat>, c2: Seq<nat>, m: int)
    requires
        forall|q: int| 0 <= q < m ==> #[trigger] c1[q] == c2[q],
    ensures
        kill_all(exas, killers, c1, m) == kill_all(exas, killers, c2, m),
    decreases m,
{
    if m > 0 {
        lemma_kill_all_prefix(exas, killers, c1, c2, m - 1);
    }
}

pub proof fn lemma_tier_list(exas: Seq<SpecExa>, k: int, tier: nat, n: int)
    requires
        n <= exas.len(),
    ensures
        forall|m: int| 0 <= m < tier_list(exas, k, tier, n).len() ==> 0 <= #[trigger] tier_list(exas, k, tier, n)[m] < n
            && in_tier(exas, k, tier_list(exas, k, tier, n)[m], tier),
    decreases n,
{
    if n > 0 {
        lemma_tier_list(exas, k, tier, n - 1);
        let l0 = tier_list(exas, k, tier, n - 1);
        let l = tier_list(exas, k, tier, n);
        assert forall|m: int| 0 <= m < l.len() implies 0 <= #[trigger] l[m] < n && in_tier(exas, k, l[m], tier) by {
            if m < l0.len() {
                assert(l[m] == l0[m]);
            }
        }
    }
}

pub proof fn lemma_killer_list(exas: Seq<SpecExa>, n: int)
    requires
        n <= exas.len(),
    ensures
        forall|m: int| 0 <= m < killer_list(exas, n).len() ==> 0 <= #[trigger] killer_list(exas, n)[m] < n,
    decreases n,
{
    if n > 0 {
        lemma_killer_list(exas, n - 1);
        let l0 = killer_list(exas, n - 1);
        let l = killer_list(exas, n);
        assert forall|m: int| 0 <= m < l.len() implies 0 <= #[trigger] l[m] < n by {
            if m < l0.len() {
                assert(l[m] == l0[m]);
            }
        }
    }
}

/// A member of a tier makes its list non-empty.
proof fn lemma_tier_member(exas: Seq<SpecExa>, k: int, tier: nat, n: int, j: int)
    requires
        0 <= j < n,
        in_tier(exas, k, j, tier),
    ensures
        tier_list(exas, k, tier, n).len() > 0,
    decreases n,
{
    if j < n - 1 {
        lemma_tier_member(exas, k, tier, n - 1, j);
    }
}

/// Whether another live EXA shares the killer's host: someone a KILL can hit.
pub open spec fn has_target(exas: Seq<SpecExa>, k: int) -> bool {
    exists|j: int| 0 <= j < exas.len() && #[trigger] in_tier(exas, k, j, 3)
}

/// A KILL hits exactly one other live EXA of the killer's host when there is
/// one, and nothing otherwise; an EXA that is itself running a KILL this
/// cycle is hit before any other.
pub proof fn law_kill_hits_one_neighbour(exas: Seq<SpecExa>, k: int, choice: nat)
    requires
        0 <= k < exas.len(),
    ensures
        !has_target(exas, k) ==> kill_one(exas, k, choice) == exas,
        has_target(exas, k) ==> exists|t: int|
            0 <= t < exas.len() && t != k && #[trigger] in_tier(exas, k, t, 3) && kill_one(exas, k, choice)
                == exas.update(t, SpecExa { error: Some(killed()), ..exas[t] }) && ((exists|j: int|
                0 <= j < exas.len() && #[trigger] in_tier(exas, k, j, 0)) ==> exas[t].at_kill()),
{
    let n = exas.len() as int;
    let g = kill_group(exas, k);
    lemma_tier_list(exas, k, 0, n);
    lemma_tier_list(exas, k, 1, n);
    lemma_tier_list(exas, k, 2, n);
    lemma_tier_list(exas, k, 3, n);
    if has_target(exas, k) {
        let j = choose|j: int| 0 <= j < exas.len() && #[trigger] in_tier(exas, k, j, 3);
        lemma_tier_member(exas, k, 3, n, j);
        assert(g.len() > 0);
        let t = g[(choice % g.len()) as int];
        assert(in_tier(exas, k, t, 3));
        assert(t != k);
        if exists|j: int| 0 <= j < exas.len() && #[trigger] in_tier(exas, k, j, 0) {
            let j0 = choose|j: int| 0 <= j < exas.len() && #[trigger] in_tier(exas, k, j, 0);
            lemma_tier_member(exas, k, 0, n, j0);
            assert(exas[t].at_kill());
        }
    } else {
        if g.len() > 0 {
            let t = g[0];
            assert(in_tier(exas, k, t, 3));
        }
    }
}

impl VM {
    /// Whether EXA `j` is in priority tier `tier` for a KILL by EXA `k`.
    fn in_tier(&self, k: usize, j: usize, tier: u8) -> (r: bool)
        requires
            k < self.exas.len(),
            j < self.exas.len(),
        ensures
            r == in_tier(self@.exas, k as int, j as int, tier as nat),
    {
        let killer = &self.exas[k];
        let e = &self.exas[j];
        assert(self@.exas[k as int] == killer@);
        assert(self@.exas[j as int] == e@);
        let same_name = chars_eq(&str_chars(e.name.as_str()), &str_chars(killer.name.as_str()));
        if same_name || e.host != killer.host || e.is_fatal() {
            return false;
        }
        if tier == 0 {
            e.will_kill_this_cycle()
        } else if tier == 1 {
            e.descendant_of(killer)
        } else if tier == 2 {
            e.ancestor_of(killer)
        } else {
            true
        }
    }

    /// The members of a tier, in order.
    fn tier_members(&self, k: usize, tier: u8) -> (r: Vec<usize>)
        requires
            k < self.exas.len(),
        ensures
            r@.len() == tier_list(self@.exas, k as int, tier as nat, self@.exas.len() as int).len(),
            forall|m: int| 0 <= m < r@.len() ==> r@[m] as int == #[trigger] tier_list(self@.exas, k as int, tier as nat, self@.exas.len() as int)[m],
    {
        let mut r: Vec<usize> = Vec::new();
        let mut j: usize = 0;
        while j < self.exas.len()
            invariant
                k < self.exas.len(),
                j <= self.exas.len(),
                r@.len() == tier_list(self@.exas, k as int, tier as nat, j as int).len(),
                forall|m: int| 0 <= m < r@.len() ==> r@[m] as int == #[trigger] tier_list(self@.exas, k as int, tier as nat, j as int)[m],
            decreases self.exas.len() - j,
        {
            let ghost before = r@;
            let ghost l0 = tier_list(self@.exas, k as int, tier as nat, j as int);
            if self.in_tier(k, j, tier) {
                r.push(j);
            }
            let ghost l1 = tier_list(self@.exas, k as int, tier as nat, j + 1);
            assert forall|m: int| 0 <= m < r@.len() implies r@[m] as int == #[trigger] l1[m] by {
                if m < before.len() {
                    assert(l1[m] == l0[m]);
                }
            }
            j = j + 1;
        }
        r
    }

    /// Kill targeting seems pretty complex, and hasn't been fully reverse
    /// engineered. Kill targets are prioritized based on:
    /// - whether they are also performing a KILL this turn
    /// - whether they are in our EXA chain, and newer than us
    /// - whether they are in our EXA chain, and older than us
    /// - everyone else
    /// We take the first group that has any members, and pick a random
    /// as-of-yet unkilled member from it.
    fn kill_target(&self, killer: usize) -> (r: Option<usize>)
        requires
            killer < self.exas.len(),
        ensures
            r is None <==> kill_group(self@.exas, killer as int).len() == 0,
            r matches Some(t) ==> exists|c: nat| c < kill_group(self@.exas, killer as int).len()
                && #[trigger] kill_group(self@.exas, killer as int)[c as int] == t,
    {
        let mut group = self.tier_members(killer, 0);
        if group.len() == 0 {
            group = self.tier_members(killer, 1);
            if group.len() == 0 {
                group = self.tier_members(killer, 2);
                if group.len() == 0 {
                    group = self.tier_members(killer, 3);
                }
            }
        }
        let ghost g = kill_group(self@.exas, killer as int);
        assert(group@.len() == g.len());
        if group.len() == 0 {
            return None;
        }
        let c = random_below(group.len());
        assert(group@[c as int] as int == g[c as int]);
        Some(group[c])
    }

    /// Runs the KILLs of this cycle, before anything else: each EXA about to
    /// KILL kills a member of its target group, drawn at random.
    fn run_kills(&mut self)
        requires
            old(self)@.wf(),
        ensures
            exists|choices: Seq<nat>| final(self)@ == #[trigger] kills_done(old(self)@, choices),
            final(self)@.wf(),
            final(self).redshift == old(self).redshift,
    {
        proof {
            reveal(kills_done);
        }
        let ghost v0 = self@;
        let ghost ks = killer_list(v0.exas, v0.exas.len() as int);
        let mut killers: Vec<usize> = Vec::new();
        let mut i: usize = 0;
        while i < self.exas.len()
            invariant
                self.redshift == old(self).redshift,
                self@ == v0,
                i <= self.exas.len(),
                killers@.len() == killer_list(v0.exas, i as int).len(),
                forall|m: int| 0 <= m < killers@.len() ==> killers@[m] as int == #[trigger] killer_list(v0.exas, i as int)[m],
            decreases self.exas.len() - i,
        {
            let ghost before = killers@;
            let ghost l0 = killer_list(v0.exas, i as int);
            assert(self.exas@[i as int]@ == v0.exas[i as int]);
            if self.exas[i].will_kill_this_cycle() {
                killers.push(i);
            }
            let ghost l1 = killer_list(v0.exas, i + 1);
            assert forall|m: int| 0 <= m < killers@.len() implies killers@[m] as int == #[trigger] l1[m] by {
                if m < before.len() {
                    assert(l1[m] == l0[m]);
                }
            }
            i = i + 1;
        }
        proof {
            lemma_killer_list(v0.exas, v0.exas.len() as int);
        }
        let ghost mut choices: Seq<nat> = Seq::empty();
        let mut m: usize = 0;
        while m < killers.len()
            invariant
                self.redshift == old(self).redshift,
                m <= killers.len(),
                killers@.len() == ks.len(),
                forall|q: int| 0 <= q < killers@.len() ==> killers@[q] as int == #[trigger] ks[q],
                forall|q: int| 0 <= q < ks.len() ==> 0 <= #[trigger] ks[q] < v0.exas.len(),
                choices.len() == m,
                self@.exas == kill_all(v0.exas, ks, choices, m as int),
                self@ == (SpecVM { exas: self@.exas, ..v0 }),
                self@.exas.len() == v0.exas.len(),
                self@.wf(),
            decreases killers.len() - m,
        {
            let k = killers[m];
            assert(k as int == ks[m as int]);
            let ghost cur = self@;
            let ghost old_choices = choices;
            let ghost g = kill_group(cur.exas, k as int);
            match self.kill_target(k) {
                Some(t) => {
                    let ghost c = choose|c: nat| c < g.len() && #[trigger] g[c as int] == t;
                    proof {
                        vstd::arithmetic::div_mod::lemma_small_mod(c, g.len());
                        lemma_tier_list(cur.exas, k as int, 0, cur.exas.len() as int);
                        lemma_tier_list(cur.exas, k as int, 1, cur.exas.len() as int);
                        lemma_tier_list(cur.exas, k as int, 2, cur.exas.len() as int);
                        lemma_tier_list(cur.exas, k as int, 3, cur.exas.len() as int);
                    }
                    self.exas[t].error = Some(ExaError::Fatal("killed"));
                    proof {
                        choices = choices.push(c);
                    }
                    assert(self@.exas =~= kill_one(cur.exas, k as int, c));
                    proof {
                        assert(exa_ok(cur.exas[t as int], cur.net));
                        assert forall|q: int| 0 <= q < self@.exas.len() implies (#[trigger] self@.exas[q]).host == cur.exas[q].host
                            && exa_ok(self@.exas[q], cur.net) by {
                            assert(exa_ok(cur.exas[q], cur.net));
                        }
                        lemma_wf_same_places(cur.net, cur.exas, self@.exas);
                    }
                },
                None => {
                    proof {
                        choices = choices.push(0);
                    }
                    assert(self@.exas =~= kill_one(cur.exas, k as int, 0));
                },
            }
            assert(choices.subrange(0, m as int) =~= old_choices);
            proof {
                lemma_kill_all_prefix(v0.exas, ks, choices, old_choices, m as int);
            }
            assert(kill_all(v0.exas, ks, choices, m + 1) == kill_one(kill_all(v0.exas, ks, choices, m as int), ks[m as int], choices[m as int]));
            m = m + 1;
        }
        assert(self@ =~~= kills_done(v0, choices));
    }
}

// ---------------------------------------------------------------------------
// TEST MRD flags
// ---------------------------------------------------------------------------

/// Which EXAs are about to run TEST MRD, noted before anything runs.
pub open spec fn mrd_flags(exas: Seq<SpecExa>) -> Seq<SpecExa> {
    Seq::new(exas.len(), |i: int| SpecExa { ran_test_mrd_this_cycle: exas[i].at_test_mrd(), ..exas[i] })
}

// ---------------------------------------------------------------------------
// Open buses
// ---------------------------------------------------------------------------

/// How many hosts' buses still allow a read this cycle.
pub open spec fn open_hosts(hosts: Seq<SpecHost>) -> nat
    decreases hosts.len(),
{
    if hosts.len() == 0 {
        0
    } else {
        open_hosts(hosts.drop_last()) + if hosts.last().bus.read_available {
            1nat
        } else {
            0nat
        }
    }
}

/// How many buses, the global one included, still allow a read this cycle.
pub open spec fn open_buses(net: SpecNetwork) -> nat {
    open_hosts(net.hosts) + if net.bus.read_available {
        1nat
    } else {
        0nat
    }
}

proof fn lemma_open_hosts(x: Seq<SpecHost>, y: Seq<SpecHost>)
    requires
        x.len() == y.len(),
        forall|h: int| 0 <= h < x.len() ==> (#[trigger] y[h].bus.read_available ==> x[h].bus.read_available),
    ensures
        open_hosts(y) <= open_hosts(x),
        (exists|h: int| 0 <= h < x.len() && #[trigger] x[h].bus.read_available && !y[h].bus.read_available)
            ==> open_hosts(y) < open_hosts(x),
    decreases x.len(),
{
    if x.len() > 0 {
        lemma_open_hosts(x.drop_last(), y.drop_last());
        if exists|h: int| 0 <= h < x.len() && #[trigger] x[h].bus.read_available && !y[h].bus.read_available {
            let h = choose|h: int| 0 <= h < x.len() && #[trigger] x[h].bus.read_available && !y[h].bus.read_available;
            if h < x.len() - 1 {
                assert(x.drop_last()[h].bus.read_available && !y.drop_last()[h].bus.read_available);
            }
        }
    }
}

pub proof fn lemma_open_buses(a: SpecNetwork, b: SpecNetwork)
    requires
        a.hosts.len() == b.hosts.len(),
        no_reopen(a, b),
    ensures
        open_buses(b) <= open_buses(a),
        flipped(a, b) ==> open_buses(b) < open_buses(a),
{
    lemma_open_hosts(a.hosts, b.hosts);
}

pub proof fn lemma_count_update(s: Seq<SpecExa>, i: int, e: SpecExa, h: int)
    requires
        0 <= i < s.len(),
    ensures
        count_in(s.update(i, e), h) + (if s[i].host == h { 1int } else { 0int }) == count_in(s, h) + (
        if e.host == h {
            1int
        } else {
            0int
        }),
    decreases s.len(),
{
    if i == s.len() - 1 {
        assert(s.update(i, e).drop_last() =~= s.drop_last());
    } else {
        lemma_count_update(s.drop_last(), i, e, h);
        assert(s.update(i, e).drop_last() =~= s.drop_last().update(i, e));
    }
}

// ---------------------------------------------------------------------------
// Running the EXAs
// ---------------------------------------------------------------------------

/// The state of the VM while its EXAs run: the stack of EXAs still to run.
pub struct Round {
    pub net: SpecNetwork,
    pub exas: Seq<SpecExa>,
    pub stack: Seq<int>,
}

/// The EXAs below `n` that can run this cycle: neither frozen nor dead.
pub open spec fn runnable(exas: Seq<SpecExa>, n: int) -> Seq<int>
    decreases n,
{
    if n <= 0 {
        Seq::empty()
    } else {
        runnable(exas, n - 1) + if !exas[n - 1].is_frozen() && !exas[n - 1].is_fatal() {
            seq![n - 1]
        } else {
            Seq::empty()
        }
    }
}

/// One step of the run: the EXA on top of the stack runs a cycle; replicas it
/// made join the VM (they run from the next cycle on); if it read a message,
/// the frozen sender is released, and runs again this cycle unless that
/// killed it.
pub open spec fn round_step(r: Round, draw: nat) -> Round {
    let i = r.stack[0];
    let c = cycle(state(r.exas[i], r.net), draw);
    let exas1 = r.exas.update(i, c.exa) + c.net.spawned;
    let net1 = SpecNetwork { spawned: Seq::empty(), ..c.net };
    let rest = r.stack.drop_first();
    match c.exa.unfreeze_exa {
        Some(name) => match exa_named(exas1, name) {
            Some(j) => if exas1[j].is_frozen() {
                let u = unfrozen(exas1[j]);
                Round {
                    net: net1,
                    exas: exas1.update(j, u),
                    stack: if u.is_fatal() {
                        rest
                    } else {
                        rest.push(j)
                    },
                }
            } else {
                Round { net: net1, exas: exas1, stack: rest }
            },
            None => Round { net: net1, exas: exas1, stack: rest },
        },
        None => Round { net: net1, exas: exas1, stack: rest },
    }
}

pub open spec fn round_wf(r: Round) -> bool {
    &&& vm_wf(r.net, r.exas)
    &&& forall|k: int| 0 <= k < r.stack.len() ==> 0 <= #[trigger] r.stack[k] < r.exas.len()
}

/// An EXA of a well-formed VM can run.
pub proof fn lemma_exa_fits(net: SpecNetwork, exas: Seq<SpecExa>, i: int)
    requires
        vm_wf(net, exas),
        0 <= i < exas.len(),
    ensures
        fits_loose(state(exas[i], net)),
        exas[i].wf(),
{
    let e = exas[i];
    assert(exa_ok(e, net));
    lemma_count_pos(exas, i);
    assert forall|h: int| 0 <= h < net.hosts.len() implies #[trigger] net.hosts[h].occupied >= net.hosts[h].files.len()
        + (if h == e.host { 1int } else { 0int }) by {
        assert(net.hosts[h].occupied == net.hosts[h].files.len() + count_in(exas, h));
    }
}

/// A step of the run keeps the VM's invariant; it uses up a bus, or shortens
/// the stack without reopening any.
pub proof fn lemma_round_step(r: Round, draw: nat)
    requires
        round_wf(r),
        r.stack.len() > 0,
    ensures
        round_wf(round_step(r, draw)),
        ({
            let i = r.stack[0];
            let c = cycle(state(r.exas[i], r.net), draw);
            vm_wf(SpecNetwork { spawned: Seq::empty(), ..c.net }, r.exas.update(i, c.exa) + c.net.spawned)
        }),
        open_buses(round_step(r, draw).net) < open_buses(r.net) || (open_buses(round_step(r, draw).net)
            == open_buses(r.net) && round_step(r, draw).stack.len() < r.stack.len()),
{
    let i = r.stack[0];
    let st = state(r.exas[i], r.net);
    lemma_exa_fits(r.net, r.exas, i);
    lemma_cycle_ok(st, draw);
    let c = cycle(st, draw);
    let spawned = c.net.spawned;
    let exas1 = r.exas.update(i, c.exa) + spawned;
    let net1 = SpecNetwork { spawned: Seq::empty(), ..c.net };
    assert(net1.wf());
    assert forall|k: int| 0 <= k < exas1.len() implies exa_ok(#[trigger] exas1[k], net1) by {
        if k < r.exas.len() {
            if k != i {
                assert(exa_ok(r.exas[k], r.net));
            }
        } else {
            assert(exas1[k] == spawned[k - r.exas.len()]);
        }
    }
    assert forall|h: int| 0 <= h < net1.hosts.len() implies #[trigger] net1.hosts[h].occupied == net1.hosts[h].files.len()
        + count_in(exas1, h) by {
        assert(balance(c, h) == balance(st, h));
        lemma_count_update(r.exas, i, c.exa, h);
        lemma_count_append(r.exas.update(i, c.exa), spawned, h);
        assert(r.net.hosts[h].occupied == r.net.hosts[h].files.len() + count_in(r.exas, h));
        assert(count_in(r.net.spawned, h) == 0);
    }
    assert(vm_wf(net1, exas1));
    lemma_open_buses(r.net, c.net);
    let next = round_step(r, draw);
    if let Some(name) = c.exa.unfreeze_exa {
        lemma_exa_named(exas1, name);
        if let Some(j) = exa_named(exas1, name) {
            if exas1[j].is_frozen() {
                let u = unfrozen(exas1[j]);
                assert(exa_ok(exas1[j], net1));
                assert forall|k: int| 0 <= k < next.exas.len() implies (#[trigger] next.exas[k]).host == exas1[k].host
                    && exa_ok(next.exas[k], net1) by {
                    assert(exa_ok(exas1[k], net1));
                }
                lemma_wf_same_places(net1, exas1, next.exas);
            }
        }
    }
}

/// A run of steps, one draw each, over a stack that was never empty before
/// the last state.
pub open spec fn runs(trace: Seq<Round>, draws: Seq<nat>) -> bool {
    &&& trace.len() == draws.len() + 1
    &&& forall|k: int| 0 <= k < draws.len() ==> (#[trigger] trace[k]).stack.len() > 0 && trace[k + 1] == round_step(trace[k], draws[k])
}

pub open spec fn as_ints(s: Seq<usize>) -> Seq<int> {
    s.map_values(|x: usize| x as int)
}

// ---------------------------------------------------------------------------
// TEST MRD
// ---------------------------------------------------------------------------

/// TEST MRD runs for the first `n` EXAs that were about to run it, in order.
pub open spec fn mrd_all(exas: Seq<SpecExa>, net: SpecNetwork, n: int) -> (Seq<SpecExa>, SpecNetwork)
    decreases n,
{
    if n <= 0 {
        (exas, net)
    } else {
        let (e, nt) = mrd_all(exas, net, n - 1);
        if e[n - 1].ran_test_mrd_this_cycle {
            let s = test_mrd(state(e[n - 1], nt));
            (e.update(n - 1, s.exa), s.net)
        } else {
            (e, nt)
        }
    }
}

pub proof fn lemma_test_mrd_wf(net: SpecNetwork, exas: Seq<SpecExa>, i: int)
    requires
        vm_wf(net, exas),
        0 <= i < exas.len(),
    ensures
        vm_wf(test_mrd(state(exas[i], net)).net, exas.update(i, test_mrd(state(exas[i], net)).exa)),
        test_mrd(state(exas[i], net)).exa.host == exas[i].host,
        test_mrd(state(exas[i], net)).net.hosts.len() == net.hosts.len(),
{
    let st = state(exas[i], net);
    lemma_exa_fits(net, exas, i);
    let v: i32 = if super::exa::semantics::current_bus(st).messages.len() > 0 { 1 } else { 0 };
    super::exa::invariants::lemma_write_register_keeps(st, seq!['t'], v);
    let s = test_mrd(st);
    let exas1 = exas.update(i, s.exa);
    assert forall|k: int| 0 <= k < exas1.len() implies exa_ok(#[trigger] exas1[k], s.net) by {
        if k != i {
            assert(exa_ok(exas[k], net));
        }
    }
    assert forall|h: int| 0 <= h < s.net.hosts.len() implies #[trigger] s.net.hosts[h].occupied == s.net.hosts[h].files.len()
        + count_in(exas1, h) by {
        lemma_count_update(exas, i, s.exa, h);
        assert(net.hosts[h].occupied == net.hosts[h].files.len() + count_in(exas, h));
    }
}

impl VM {
    /// Notes which EXAs are about to run TEST MRD.
    fn note_test_mrds(&mut self)
        requires
            old(self)@.wf(),
        ensures
            final(self)@ == mrds_noted(old(self)@),
            final(self)@.wf(),
            final(self).redshift == old(self).redshift,
    {
        proof {
            reveal(mrds_noted);
        }
        let ghost v0 = self@;
        let mut i: usize = 0;
        while i < self.exas.len()
            invariant
                self.redshift == old(self).redshift,
                i <= self.exas.len(),
                self@.exas.len() == v0.exas.len(),
                self@ == (SpecVM { exas: self@.exas, ..v0 }),
                forall|k: int| 0 <= k < i ==> #[trigger] self@.exas[k] == mrd_flags(v0.exas)[k],
                forall|k: int| i <= k < self@.exas.len() ==> #[trigger] self@.exas[k] == v0.exas[k],
            decreases self.exas.len() - i,
        {
            let ghost before = self@.exas;
            assert(before[i as int] == v0.exas[i as int]);
            let flag = self.exas[i].will_test_mrd_this_cycle();
            self.exas[i].ran_test_mrd_this_cycle = flag;
            assert(self@.exas[i as int] =~~= mrd_flags(v0.exas)[i as int]);
            assert(self@.exas =~= before.update(i as int, mrd_flags(v0.exas)[i as int]));
            i = i + 1;
        }
        assert(self@.exas =~= mrd_flags(v0.exas));
        proof {
            assert forall|k: int| 0 <= k < self@.exas.len() implies (#[trigger] self@.exas[k]).host == v0.exas[k].host
                && exa_ok(self@.exas[k], v0.net) by {
                assert(exa_ok(v0.exas[k], v0.net));
            }
            lemma_wf_same_places(v0.net, v0.exas, self@.exas);
        }
    }

    /// Runs the TEST MRDs noted before the EXAs ran.
    fn run_test_mrds(&mut self)
        requires
            old(self)@.wf(),
        ensures
            final(self)@ == mrds_run(old(self)@),
            final(self)@.wf(),
            final(self).redshift == old(self).redshift,
    {
        proof {
            reveal(mrds_run);
        }
        let ghost v0 = self@;
        let mut i: usize = 0;
        while i < self.exas.len()
            invariant
                self.redshift == old(self).redshift,
                i <= self.exas.len(),
                self@.exas.len() == v0.exas.len(),
                (self@.exas, self@.net) == mrd_all(v0.exas, v0.net, i as int),
                self@ == (SpecVM { exas: self@.exas, net: self@.net, ..v0 }),
                self@.wf(),
            decreases self.exas.len() - i,
        {
            let ghost cur = self@;
            if self.exas[i].ran_test_mrd_this_cycle {
                proof {
                    lemma_exa_fits(cur.net, cur.exas, i as int);
                    lemma_test_mrd_wf(cur.net, cur.exas, i as int);
                }
                self.exas[i].test_mrd(&mut self.network);
                assert(self@.exas =~= cur.exas.update(i as int, test_mrd(state(cur.exas[i as int], cur.net)).exa));
            }
            i = i + 1;
        }
    }

    /// Runs every EXA that can run this cycle, in order, and those released
    /// along the way.
    fn run_stack(&mut self)
        requires
            old(self)@.wf(),
        ensures
            exists|trace: Seq<Round>, draws: Seq<nat>| #[trigger] stack_run(old(self)@, trace, draws)
                && final(self)@ == stack_end(old(self)@, trace),
            final(self)@.wf(),
            final(self).redshift == old(self).redshift,
    {
        proof {
            reveal(stack_run);
        }
        let ghost v0 = self@;
        let mut stack: Vec<usize> = Vec::new();
        let mut k: usize = 0;
        while k < self.exas.len()
            invariant
                self.redshift == old(self).redshift,
                self@ == v0,
                k <= self.exas.len(),
                as_ints(stack@) == runnable(v0.exas, k as int),
            decreases self.exas.len() - k,
        {
            let ghost before = stack@;
            assert(self.exas@[k as int]@ == v0.exas[k as int]);
            if !self.exas[k].is_frozen() && !self.exas[k].is_fatal() {
                stack.push(k);
                assert(as_ints(stack@) =~= as_ints(before).push(k as int));
            }
            assert(as_ints(stack@) =~= runnable(v0.exas, k + 1));
            k = k + 1;
        }
        let ghost init = Round { net: v0.net, exas: v0.exas, stack: as_ints(stack@) };
        let ghost mut trace: Seq<Round> = seq![init];
        let ghost mut draws: Seq<nat> = Seq::empty();
        proof {
            lemma_runnable(v0.exas, v0.exas.len() as int);
            assert(trace.last() == init);
            assert(self@ == v0);
            assert forall|q: int| 0 <= q < init.stack.len() implies 0 <= #[trigger] init.stack[q] < init.exas.len() by {
                assert(init.stack[q] == runnable(v0.exas, v0.exas.len() as int)[q]);
            }
        }
        while stack.len() > 0
            invariant
                self.redshift == old(self).redshift,
                runs(trace, draws),
                trace[0] == init,
                trace.last() == (Round { net: self@.net, exas: self@.exas, stack: as_ints(stack@) }),
                round_wf(trace.last()),
                self@ == (SpecVM { exas: self@.exas, net: self@.net, ..v0 }),
            decreases open_buses(self@.net), stack@.len(),
        {
            let ghost r = trace.last();
            let ghost stack0 = stack@;
            assert(r.stack[0] == stack0[0] as int);
            let i = stack.remove(0);
            assert(i as int == r.stack[0]);
            assert(0 <= r.stack[0] < r.exas.len());
            assert(as_ints(stack@) =~= r.stack.drop_first());
            proof {
                lemma_exa_fits(r.net, r.exas, i as int);
                assert(r.exas[i as int] == self.exas@[i as int]@);
            }
            let ghost exas0 = self@.exas;
            let _ = self.exas[i].run_cycle(&mut self.network);
            let ghost draw = choose|d: nat| state(self.exas@[i as int]@, self@.net) == #[trigger] cycle(
                state(exas0[i as int], r.net),
                d,
            );
            let ghost c = cycle(state(exas0[i as int], r.net), draw);
            assert(self@.exas =~= exas0.update(i as int, c.exa));
            let name: Option<String> = match &self.exas[i].result.unfreeze_exa {
                Some(s) => Some(crate::text::copy_string(s)),
                None => None,
            };
            self.exas.append(&mut self.network.spawned);
            let ghost exas1 = exas0.update(i as int, c.exa) + c.net.spawned;
            assert(self@.exas =~= exas1);
            assert(self@.net =~~= SpecNetwork { spawned: Seq::empty(), ..c.net });
            match name {
                Some(n) => {
                    match self.find_exa(n.as_str()) {
                        Some(j) => {
                            proof {
                                lemma_round_step(r, draw);
                                lemma_exa_named(exas1, n@);
                            }
                            if self.exas[j].is_frozen() {
                                proof {
                                    lemma_exa_fits(self@.net, exas1, j as int);
                                }
                                self.exas[j].unfreeze();
                                assert(self@.exas =~= exas1.update(j as int, unfrozen(exas1[j as int])));
                                if !self.exas[j].is_fatal() {
                                    stack.push(j);
                                }
                            }
                        },
                        None => {},
                    }
                },
                None => {},
            }
            let ghost next = round_step(r, draw);
            assert(self@.exas =~= next.exas);
            assert(as_ints(stack@) =~= next.stack);
            proof {
                lemma_round_step(r, draw);
                trace = trace.push(next);
                draws = draws.push(draw);
                assert forall|q: int| 0 <= q < draws.len() implies (#[trigger] trace[q]).stack.len() > 0 && trace[q + 1] == round_step(trace[q], draws[q]) by {
                    if q < draws.len() - 1 {
                        assert(trace[q] == trace.drop_last()[q]);
                    }
                }
            }
        }
        assert(trace[0] == (Round { net: v0.net, exas: v0.exas, stack: runnable(v0.exas, v0.exas.len() as int) }));
        assert(stack_run(v0, trace, draws));
        assert(self@ =~~= stack_end(v0, trace));
    }
}

pub proof fn lemma_runnable(exas: Seq<SpecExa>, n: int)
    requires
        n <= exas.len(),
    ensures
        forall|m: int| 0 <= m < runnable(exas, n).len() ==> 0 <= #[trigger] runnable(exas, n)[m] < n,
    decreases n,
{
    if n > 0 {
        lemma_runnable(exas, n - 1);
        let l0 = runnable(exas, n - 1);
        let l = runnable(exas, n);
        assert forall|m: int| 0 <= m < l.len() implies 0 <= #[trigger] l[m] < n by {
            if m < l0.len() {
                assert(l[m] == l0[m]);
            }
        }
    }
}

/// Frozen and dead EXAs skip the cycle: the EXAs that start the run are
/// exactly the others, in their order.
pub proof fn law_frozen_and_dead_do_not_run(exas: Seq<SpecExa>, n: int)
    requires
        0 <= n <= exas.len(),
    ensures
        runnable(exas, n) == Seq::new(n as nat, |i: int| i).filter(
            |i: int| !exas[i].is_frozen() && !exas[i].is_fatal(),
        ),
    decreases n,
{
    reveal(Seq::filter);
    if n > 0 {
        law_frozen_and_dead_do_not_run(exas, n - 1);
        assert(Seq::new(n as nat, |i: int| i).drop_last() =~= Seq::new((n - 1) as nat, |i: int| i));
    }
}

// ---------------------------------------------------------------------------
// A whole cycle
// ---------------------------------------------------------------------------

#[verifier::opaque]
pub open spec fn links_freed(v: SpecVM) -> SpecVM {
    SpecVM { net: SpecNetwork { hosts: hosts_links_reset(v.net.hosts), ..v.net }, ..v }
}

#[verifier::opaque]
pub open spec fn dead_removed(v: SpecVM) -> SpecVM {
    SpecVM {
        exas: cleanup(v.exas, v.net.hosts).0,
        net: SpecNetwork { hosts: cleanup(v.exas, v.net.hosts).1, ..v.net },
        ..v
    }
}

/// When a lit pixel of one EXA's sprite meets a lit pixel of the other's on
/// the screen, each EXA's CI becomes the other's CO if that is greater;
/// otherwise both CIs stay, and nothing else of either EXA changes.
pub proof fn law_collision_raises_ci_to_other_co(a: SpecExa, b: SpecExa)
    requires
        a.sprite.len() == 100,
        b.sprite.len() == 100,
    ensures
        ({
            let (a2, b2) = collided(a, b);
            let meet = lit_pixels_meet(a, b);
            let a_ci = if meet && b.registers.co.value > a.registers.ci.value {
                b.registers.co.value
            } else {
                a.registers.ci.value
            };
            let b_ci = if meet && a.registers.co.value > b.registers.ci.value {
                a.registers.co.value
            } else {
                b.registers.ci.value
            };
            &&& a2 == SpecExa {
                registers: super::exa::Registers {
                    ci: super::register::Register { value: a_ci, ..a.registers.ci },
                    ..a.registers
                },
                ..a
            }
            &&& b2 == SpecExa {
                registers: super::exa::Registers {
                    ci: super::register::Register { value: b_ci, ..b.registers.ci },
                    ..b.registers
                },
                ..b
            }
        }),
{
    law_overlap_is_a_shared_screen_pixel(a, b);
    let (a2, b2) = collided(a, b);
    if !overlaps(a, b) || !(b.registers.co.value > a.registers.ci.value) {
        assert(a.registers.ci == super::register::Register { value: a.registers.ci.value, ..a.registers.ci });
        assert(a.registers == super::exa::Registers { ci: a.registers.ci, ..a.registers });
    }
    if !overlaps(a, b) || !(a.registers.co.value > b.registers.ci.value) {
        assert(b.registers.ci == super::register::Register { value: b.registers.ci.value, ..b.registers.ci });
        assert(b.registers == super::exa::Registers { ci: b.registers.ci, ..b.registers });
    }
}

/// Which pairs of list positions a pass of collision detection has checked:
/// every pair whose first position is before `m`, and the pairs of `m` with
/// the positions before `n`.
spec fn pair_checked(m: int, n: int, p: int, q: int) -> bool {
    ||| (p < q && (p < m || (p == m && q < n)))
    ||| (q < p && (q < m || (q == m && p < n)))
}

/// What holds after the pairs `pair_checked(m, n, ..)` of `list` have been
/// checked: each EXA differs from the start only in CI; an EXA outside the
/// list keeps CI -9999; and the CI of each EXA in the list is the greatest of
/// -9999 and the COs of the checked partners whose sprites meet its own.
spec fn ci_so_far(exas: Seq<SpecExa>, list: Seq<int>, cur: Seq<SpecExa>, m: int, n: int) -> bool {
    &&& ci_kept(exas, list, cur)
    &&& ci_above(exas, list, cur, m, n)
    &&& ci_reached(exas, list, cur, m, n)
}

spec fn ci_kept(exas: Seq<SpecExa>, list: Seq<int>, cur: Seq<SpecExa>) -> bool {
    &&& cur.len() == exas.len()
    &&& forall|x: int| 0 <= x < exas.len() ==> #[trigger] cur[x] == with_ci(exas[x], cur[x].registers.ci.value)
    &&& forall|x: int| 0 <= x < exas.len() && !list.contains(x) ==> #[trigger] cur[x].registers.ci.value == -9999
    &&& forall|p: int| 0 <= p < list.len() ==> #[trigger] cur[list[p]].registers.ci.value >= -9999
}

spec fn ci_above(exas: Seq<SpecExa>, list: Seq<int>, cur: Seq<SpecExa>, m: int, n: int) -> bool {
    forall|p: int, q: int|
        0 <= p < list.len() && 0 <= q < list.len() && #[trigger] pair_checked(m, n, p, q)
            && lit_pixels_meet(exas[list[p]], exas[list[q]]) ==> cur[list[p]].registers.ci.value
            >= exas[list[q]].registers.co.value
}

spec fn ci_reached(exas: Seq<SpecExa>, list: Seq<int>, cur: Seq<SpecExa>, m: int, n: int) -> bool {
    forall|p: int|
        0 <= p < list.len() ==> #[trigger] cur[list[p]].registers.ci.value == -9999 || exists|q: int|
            0 <= q < list.len() && #[trigger] pair_checked(m, n, p, q) && lit_pixels_meet(
                exas[list[p]],
                exas[list[q]],
            ) && cur[list[p]].registers.ci.value == exas[list[q]].registers.co.value
}

spec fn list_ok(exas: Seq<SpecExa>, list: Seq<int>) -> bool {
    &&& forall|k: int| 0 <= k < list.len() ==> 0 <= #[trigger] list[k] < exas.len()
    &&& forall|k: int, l: int| 0 <= k < l < list.len() ==> #[trigger] list[k] < #[trigger] list[l]
    &&& forall|x: int| 0 <= x < exas.len() ==> (list.contains(x) <==> has_pixels(#[trigger] exas[x]))
    &&& forall|x: int| 0 <= x < exas.len() ==> (#[trigger] exas[x]).sprite.len() == 100
}

proof fn lemma_meet_symmetric(a: SpecExa, b: SpecExa)
    ensures
        lit_pixels_meet(a, b) == lit_pixels_meet(b, a),
{
    reveal(lit_pixels_meet);
    if lit_pixels_meet(a, b) {
        let (k1, k2) = choose|k1: int, k2: int|
            #![trigger a.sprite[k1], b.sprite[k2]]
            0 <= k1 < 100 && 0 <= k2 < 100 && a.sprite[k1] && b.sprite[k2]
                && a.registers.gx.value + k1 % 10 == b.registers.gx.value + k2 % 10
                && a.registers.gy.value + k1 / 10 == b.registers.gy.value + k2 / 10;
        assert(b.sprite[k2] && a.sprite[k1]);
    }
    if lit_pixels_meet(b, a) {
        let (k1, k2) = choose|k1: int, k2: int|
            #![trigger b.sprite[k1], a.sprite[k2]]
            0 <= k1 < 100 && 0 <= k2 < 100 && b.sprite[k1] && a.sprite[k2]
                && b.registers.gx.value + k1 % 10 == a.registers.gx.value + k2 % 10
                && b.registers.gy.value + k1 / 10 == a.registers.gy.value + k2 / 10;
        assert(a.sprite[k2] && b.sprite[k1]);
    }
}

proof fn lemma_meet_ignores_ci(a: SpecExa, b: SpecExa, c: i32, d: i32)
    ensures
        lit_pixels_meet(with_ci(a, c), with_ci(b, d)) == lit_pixels_meet(a, b),
{
    reveal(lit_pixels_meet);
    assert(with_ci(a, c).sprite == a.sprite);
    assert(with_ci(b, d).sprite == b.sprite);
    assert(with_ci(a, c).registers.gx == a.registers.gx);
    assert(with_ci(b, d).registers.gx == b.registers.gx);
    assert(with_ci(a, c).registers.gy == a.registers.gy);
    assert(with_ci(b, d).registers.gy == b.registers.gy);
}

/// What checking the pair of EXAs `a` and `b`, which differ from the start
/// only in CI, does to them.
proof fn lemma_collided_pair(ea: SpecExa, eb: SpecExa, ca: i32, cb: i32)
    requires
        ea.sprite.len() == 100,
        eb.sprite.len() == 100,
    ensures
        ({
            let meet = lit_pixels_meet(ea, eb);
            let na: i32 = if meet && eb.registers.co.value > ca { eb.registers.co.value } else { ca };
            let nb: i32 = if meet && ea.registers.co.value > cb { ea.registers.co.value } else { cb };
            collided(with_ci(ea, ca), with_ci(eb, cb)) == (with_ci(ea, na), with_ci(eb, nb))
        }),
{
    lemma_meet_ignores_ci(ea, eb, ca, cb);
    law_overlap_is_a_shared_screen_pixel(with_ci(ea, ca), with_ci(eb, cb));
    assert(with_ci(with_ci(ea, ca), eb.registers.co.value) == with_ci(ea, eb.registers.co.value));
    assert(with_ci(with_ci(eb, cb), ea.registers.co.value) == with_ci(eb, ea.registers.co.value));
}

/// The pair positions `m` and `n` changed, in the way collision detection
/// changes them, keeps `ci_so_far` with that pair added.
#[verifier::spinoff_prover]
proof fn lemma_ci_step_kept(
    exas: Seq<SpecExa>,
    list: Seq<int>,
    cur: Seq<SpecExa>,
    next: Seq<SpecExa>,
    m: int,
    n: int,
    na: i32,
    nb: i32,
)
    requires
        list_ok(exas, list),
        ci_kept(exas, list, cur),
        0 <= m < n < list.len(),
        next.len() == cur.len(),
        next[list[m]] == with_ci(exas[list[m]], na),
        next[list[n]] == with_ci(exas[list[n]], nb),
        forall|x: int| 0 <= x < next.len() && x != list[m] && x != list[n] ==> #[trigger] next[x] == cur[x],
        na >= cur[list[m]].registers.ci.value,
        nb >= cur[list[n]].registers.ci.value,
    ensures
        ci_kept(exas, list, next),
{
    assert forall|x: int| 0 <= x < exas.len() && !list.contains(x) implies #[trigger] next[x].registers.ci.value == -9999 by {
        if x == list[m] || x == list[n] {
            assert(list.contains(x));
        }
    }
    assert forall|p: int| 0 <= p < list.len() implies #[trigger] next[list[p]].registers.ci.value >= -9999 by {
        if list[p] != list[m] && list[p] != list[n] {
            assert(next[list[p]] == cur[list[p]]);
        }
    }
}

#[verifier::spinoff_prover]
proof fn lemma_ci_step_above(
    exas: Seq<SpecExa>,
    list: Seq<int>,
    cur: Seq<SpecExa>,
    next: Seq<SpecExa>,
    m: int,
    n: int,
)
    requires
        list_ok(exas, list),
        ci_kept(exas, list, cur),
        ci_above(exas, list, cur, m, n),
        0 <= m < n < list.len(),
        next.len() == cur.len(),
        forall|x: int| 0 <= x < next.len() && x != list[m] && x != list[n] ==> #[trigger] next[x] == cur[x],
        next[list[m]].registers.ci.value >= cur[list[m]].registers.ci.value,
        next[list[n]].registers.ci.value >= cur[list[n]].registers.ci.value,
        lit_pixels_meet(exas[list[m]], exas[list[n]]) ==> next[list[m]].registers.ci.value
            >= exas[list[n]].registers.co.value,
        lit_pixels_meet(exas[list[n]], exas[list[m]]) ==> next[list[n]].registers.ci.value
            >= exas[list[m]].registers.co.value,
    ensures
        ci_above(exas, list, next, m, n + 1),
{
    assert forall|p: int, q: int|
        0 <= p < list.len() && 0 <= q < list.len() && #[trigger] pair_checked(m, n + 1, p, q)
            && lit_pixels_meet(exas[list[p]], exas[list[q]]) implies next[list[p]].registers.ci.value
            >= exas[list[q]].registers.co.value by {
        if p == m {
            if q != n {
                assert(pair_checked(m, n, p, q));
            }
        } else if p == n {
            if q != m {
                assert(pair_checked(m, n, p, q));
            }
        } else {
            if p < m {
                assert(list[p] < list[m]);
            } else {
                assert(list[m] < list[p]);
            }
            if p < n {
                assert(list[p] < list[n]);
            } else {
                assert(list[n] < list[p]);
            }
            assert(next[list[p]] == cur[list[p]]);
            assert(pair_checked(m, n, p, q));
        }
    }
}

#[verifier::spinoff_prover]
proof fn lemma_ci_step_reached(
    exas: Seq<SpecExa>,
    list: Seq<int>,
    cur: Seq<SpecExa>,
    next: Seq<SpecExa>,
    m: int,
    n: int,
)
    requires
        list_ok(exas, list),
        ci_kept(exas, list, cur),
        ci_reached(exas, list, cur, m, n),
        0 <= m < n < list.len(),
        next.len() == cur.len(),
        forall|x: int| 0 <= x < next.len() && x != list[m] && x != list[n] ==> #[trigger] next[x] == cur[x],
        next[list[m]].registers.ci.value == cur[list[m]].registers.ci.value || (lit_pixels_meet(
            exas[list[m]],
            exas[list[n]],
        ) && next[list[m]].registers.ci.value == exas[list[n]].registers.co.value),
        next[list[n]].registers.ci.value == cur[list[n]].registers.ci.value || (lit_pixels_meet(
            exas[list[n]],
            exas[list[m]],
        ) && next[list[n]].registers.ci.value == exas[list[m]].registers.co.value),
    ensures
        ci_reached(exas, list, next, m, n + 1),
{
    assert forall|p: int| 0 <= p < list.len() implies #[trigger] next[list[p]].registers.ci.value == -9999 || exists|q: int|
            0 <= q < list.len() && #[trigger] pair_checked(m, n + 1, p, q) && lit_pixels_meet(
                exas[list[p]],
                exas[list[q]],
            ) && next[list[p]].registers.ci.value == exas[list[q]].registers.co.value by {
        let c = next[list[p]].registers.ci.value;
        let old_c = cur[list[p]].registers.ci.value;
        if p == m && c != old_c {
            assert(pair_checked(m, n + 1, m, n));
        } else if p == n && c != old_c {
            assert(pair_checked(m, n + 1, n, m));
        } else {
            if p != m && p != n {
                if p < m {
                    assert(list[p] < list[m]);
                } else {
                    assert(list[m] < list[p]);
                }
                if p < n {
                    assert(list[p] < list[n]);
                } else {
                    assert(list[n] < list[p]);
                }
                assert(next[list[p]] == cur[list[p]]);
            }
            assert(c == old_c);
            if c != -9999 {
                let q = choose|q: int|
                    0 <= q < list.len() && #[trigger] pair_checked(m, n, p, q) && lit_pixels_meet(
                        exas[list[p]],
                        exas[list[q]],
                    ) && cur[list[p]].registers.ci.value == exas[list[q]].registers.co.value;
                assert(pair_checked(m, n + 1, p, q));
            }
        }
    }
}

/// One more pair checked keeps `ci_so_far`.
proof fn lemma_ci_step(exas: Seq<SpecExa>, list: Seq<int>, cur: Seq<SpecExa>, m: int, n: int)
    requires
        list_ok(exas, list),
        ci_so_far(exas, list, cur, m, n),
        0 <= m < n < list.len(),
    ensures
        ci_so_far(exas, list, collide_at(cur, list[m], list[n]), m, n + 1),
{
    let a = list[m];
    let b = list[n];
    assert(a < b);
    let ea = exas[a];
    let eb = exas[b];
    let ca = cur[a].registers.ci.value;
    let cb = cur[b].registers.ci.value;
    assert(cur[a] == with_ci(ea, ca));
    assert(cur[b] == with_ci(eb, cb));
    lemma_collided_pair(ea, eb, ca, cb);
    lemma_meet_symmetric(ea, eb);
    let meet = lit_pixels_meet(ea, eb);
    let na: i32 = if meet && eb.registers.co.value > ca { eb.registers.co.value } else { ca };
    let nb: i32 = if meet && ea.registers.co.value > cb { ea.registers.co.value } else { cb };
    let next = collide_at(cur, a, b);
    assert(next[a] == with_ci(ea, na));
    assert(next[b] == with_ci(eb, nb));
    lemma_ci_step_kept(exas, list, cur, next, m, n, na, nb);
    lemma_ci_step_above(exas, list, cur, next, m, n);
    lemma_ci_step_reached(exas, list, cur, next, m, n);
}

proof fn lemma_ci_row(exas: Seq<SpecExa>, list: Seq<int>, cur: Seq<SpecExa>, m: int, n: int)
    requires
        list_ok(exas, list),
        ci_so_far(exas, list, cur, m, m + 1),
        0 <= m < list.len(),
        m + 1 <= n <= list.len(),
    ensures
        ci_so_far(exas, list, collide_row(cur, list, m, n), m, n),
    decreases n,
{
    if n > m + 1 {
        lemma_ci_row(exas, list, cur, m, n - 1);
        lemma_ci_step(exas, list, collide_row(cur, list, m, n - 1), m, n - 1);
    }
}

/// `ci_so_far` depends only on which pairs have been checked.
proof fn lemma_ci_same_pairs(
    exas: Seq<SpecExa>,
    list: Seq<int>,
    cur: Seq<SpecExa>,
    m1: int,
    n1: int,
    m2: int,
    n2: int,
)
    requires
        ci_so_far(exas, list, cur, m1, n1),
        forall|p: int, q: int|
            0 <= p < list.len() && 0 <= q < list.len() ==> pair_checked(m1, n1, p, q) == pair_checked(m2, n2, p, q),
    ensures
        ci_so_far(exas, list, cur, m2, n2),
{
    assert forall|p: int, q: int|
        0 <= p < list.len() && 0 <= q < list.len() && #[trigger] pair_checked(m2, n2, p, q)
            && lit_pixels_meet(exas[list[p]], exas[list[q]]) implies cur[list[p]].registers.ci.value
            >= exas[list[q]].registers.co.value by {
        assert(pair_checked(m1, n1, p, q));
    }
    assert forall|p: int| 0 <= p < list.len() implies #[trigger] cur[list[p]].registers.ci.value == -9999 || exists|q: int|
            0 <= q < list.len() && #[trigger] pair_checked(m2, n2, p, q) && lit_pixels_meet(
                exas[list[p]],
                exas[list[q]],
            ) && cur[list[p]].registers.ci.value == exas[list[q]].registers.co.value by {
        if cur[list[p]].registers.ci.value != -9999 {
            let q = choose|q: int|
                0 <= q < list.len() && #[trigger] pair_checked(m1, n1, p, q) && lit_pixels_meet(
                    exas[list[p]],
                    exas[list[q]],
                ) && cur[list[p]].registers.ci.value == exas[list[q]].registers.co.value;
            assert(pair_checked(m2, n2, p, q));
        }
    }
}

proof fn lemma_ci_all(exas: Seq<SpecExa>, list: Seq<int>, m: int)
    requires
        list_ok(exas, list),
        0 <= m <= list.len(),
    ensures
        ci_so_far(exas, list, collide_all(ci_reset(exas), list, m), m, m + 1),
    decreases m,
{
    let reset = ci_reset(exas);
    if m == 0 {
        assert forall|x: int| 0 <= x < exas.len() implies #[trigger] reset[x] == with_ci(exas[x], reset[x].registers.ci.value) by {
            assert(reset[x] == with_ci(exas[x], -9999i32));
            assert(with_ci(exas[x], -9999i32).registers.ci.value == -9999);
        }
        assert forall|p: int| 0 <= p < list.len() implies #[trigger] reset[list[p]].registers.ci.value >= -9999 by {
            assert(reset[list[p]] == with_ci(exas[list[p]], -9999i32));
        }
        assert forall|p: int| 0 <= p < list.len() implies #[trigger] reset[list[p]].registers.ci.value == -9999 || exists|q: int|
                0 <= q < list.len() && #[trigger] pair_checked(0, 1, p, q) && lit_pixels_meet(
                    exas[list[p]],
                    exas[list[q]],
                ) && reset[list[p]].registers.ci.value == exas[list[q]].registers.co.value by {
            assert(reset[list[p]] == with_ci(exas[list[p]], -9999i32));
        }
    } else {
        lemma_ci_all(exas, list, m - 1);
        let prev = collide_all(reset, list, m - 1);
        lemma_ci_row(exas, list, prev, m - 1, list.len() as int);
        lemma_ci_same_pairs(
            exas,
            list,
            collide_all(reset, list, m),
            m - 1,
            list.len() as int,
            m,
            m + 1,
        );
    }
}

proof fn lemma_collision_list_members(exas: Seq<SpecExa>)
    ensures
        forall|x: int| 0 <= x < exas.len() ==> (collision_list(exas).contains(x) <==> has_pixels(#[trigger] exas[x])),
    decreases exas.len(),
{
    if exas.len() > 0 {
        let init = exas.drop_last();
        lemma_collision_list_members(init);
        lemma_collision_list(init);
        let l0 = collision_list(init);
        let l = collision_list(exas);
        assert forall|x: int| 0 <= x < exas.len() implies (l.contains(x) <==> has_pixels(#[trigger] exas[x])) by {
            if x < init.len() {
                assert(init[x] == exas[x]);
                if l0.contains(x) {
                    let k = choose|k: int| 0 <= k < l0.len() && l0[k] == x;
                    assert(l[k] == x);
                }
                if l.contains(x) {
                    let k = choose|k: int| 0 <= k < l.len() && l[k] == x;
                    if k >= l0.len() {
                        assert(l[k] == exas.len() - 1);
                    } else {
                        assert(l0[k] == x);
                    }
                }
            } else {
                if has_pixels(exas.last()) {
                    assert(l[l0.len() as int] == x);
                }
                if l.contains(x) {
                    let k = choose|k: int| 0 <= k < l.len() && l[k] == x;
                    if k < l0.len() {
                        assert(l0[k] == l[k]);
                        assert(l0[k] < init.len());
                    }
                }
            }
        }
    }
}

proof fn lemma_meet_needs_pixels(a: SpecExa, b: SpecExa)
    ensures
        lit_pixels_meet(a, b) ==> has_pixels(a) && has_pixels(b),
{
    reveal(lit_pixels_meet);
    if lit_pixels_meet(a, b) {
        let (k1, k2) = choose|k1: int, k2: int|
            #![trigger a.sprite[k1], b.sprite[k2]]
            0 <= k1 < 100 && 0 <= k2 < 100 && a.sprite[k1] && b.sprite[k2]
                && a.registers.gx.value + k1 % 10 == b.registers.gx.value + k2 % 10
                && a.registers.gy.value + k1 / 10 == b.registers.gy.value + k2 / 10;
        assert(a.sprite[k1]);
        assert(b.sprite[k2]);
    }
}

/// After collision detection on the Redshift, each EXA differs from before
/// only in CI, and its CI is the greatest of -9999 and the COs of the other
/// EXAs whose sprites meet its sprite on the screen: at least each such CO,
/// and either -9999 or one of them.
pub proof fn law_collisions_set_ci_to_greatest_meeting_co(exas: Seq<SpecExa>, i: int)
    requires
        forall|k: int| 0 <= k < exas.len() ==> (#[trigger] exas[k]).sprite.len() == 100,
        0 <= i < exas.len(),
    ensures
        ({
            let after = collisions(exas);
            let c = after[i].registers.ci.value;
            &&& after.len() == exas.len()
            &&& after[i] == with_ci(exas[i], c)
            &&& c >= -9999
            &&& forall|j: int|
                0 <= j < exas.len() && j != i && #[trigger] lit_pixels_meet(exas[i], exas[j])
                    ==> c >= exas[j].registers.co.value
            &&& (c == -9999 || exists|j: int|
                0 <= j < exas.len() && j != i && #[trigger] lit_pixels_meet(exas[i], exas[j])
                    && c == exas[j].registers.co.value)
        }),
{
    let reset = ci_reset(exas);
    let list = collision_list(reset);
    lemma_collision_list(reset);
    lemma_collision_list_members(reset);
    assert forall|x: int| 0 <= x < exas.len() implies (list.contains(x) <==> has_pixels(#[trigger] exas[x])) by {
        assert(reset[x].sprite == exas[x].sprite);
        assert(has_pixels(reset[x]) == has_pixels(exas[x]));
    }
    assert(list_ok(exas, list));
    lemma_ci_all(exas, list, list.len() as int);
    let after = collisions(exas);
    assert(after == collide_all(reset, list, list.len() as int));
    let c = after[i].registers.ci.value;
    assert forall|j: int|
        0 <= j < exas.len() && j != i && #[trigger] lit_pixels_meet(exas[i], exas[j])
            implies c >= exas[j].registers.co.value by {
        lemma_meet_needs_pixels(exas[i], exas[j]);
        assert(list.contains(i) && list.contains(j));
        let p = choose|p: int| 0 <= p < list.len() && list[p] == i;
        let q = choose|q: int| 0 <= q < list.len() && list[q] == j;
        assert(pair_checked(list.len() as int, list.len() + 1int, p, q));
    }
    if list.contains(i) {
        let p = choose|p: int| 0 <= p < list.len() && list[p] == i;
        assert(after[list[p]].registers.ci.value >= -9999);
        if c != -9999 {
            let q = choose|q: int|
                0 <= q < list.len() && #[trigger] pair_checked(list.len() as int, list.len() + 1int, p, q)
                    && lit_pixels_meet(exas[list[p]], exas[list[q]])
                    && after[list[p]].registers.ci.value == exas[list[q]].registers.co.value;
            if p < q {
                assert(list[p] < list[q]);
            } else {
                assert(list[q] < list[p]);
            }
            assert(lit_pixels_meet(exas[i], exas[list[q]]));
        }
    }
}

#[verifier::opaque]
pub open spec fn collided_vm(v: SpecVM) -> SpecVM {
    if v.redshift {
        SpecVM { exas: collisions(v.exas), ..v }
    } else {
        v
    }
}

#[verifier::opaque]
pub open spec fn buses_started(v: SpecVM) -> SpecVM {
    SpecVM { net: buses_cycled(v.net), ..v }
}

#[verifier::opaque]
pub open spec fn kills_done(v: SpecVM, choices: Seq<nat>) -> SpecVM {
    let killers = killer_list(v.exas, v.exas.len() as int);
    SpecVM { exas: kill_all(v.exas, killers, choices, killers.len() as int), ..v }
}

#[verifier::opaque]
pub open spec fn mrds_noted(v: SpecVM) -> SpecVM {
    SpecVM { exas: mrd_flags(v.exas), ..v }
}

#[verifier::opaque]
pub open spec fn mrds_run(v: SpecVM) -> SpecVM {
    let (exas, net) = mrd_all(v.exas, v.net, v.exas.len() as int);
    SpecVM { exas, net, ..v }
}

/// A complete run of the EXAs from `v`: it starts with the runnable EXAs on
/// the stack and ends when the stack is empty.
#[verifier::opaque]
pub open spec fn stack_run(v: SpecVM, trace: Seq<Round>, draws: Seq<nat>) -> bool {
    &&& runs(trace, draws)
    &&& trace[0] == (Round { net: v.net, exas: v.exas, stack: runnable(v.exas, v.exas.len() as int) })
    &&& trace.last().stack.len() == 0
}

pub open spec fn stack_end(v: SpecVM, trace: Seq<Round>) -> SpecVM {
    SpecVM { exas: trace.last().exas, net: trace.last().net, ..v }
}

/// Everything a cycle does before the EXAs run, with the given KILL draws:
/// links are freed, dead EXAs leave, collisions are checked on the Redshift,
/// buses start their cycle, KILLs run and TEST MRDs are noted.
pub open spec fn prepared(v: SpecVM, kills: Seq<nat>) -> SpecVM {
    mrds_noted(kills_done(buses_started(collided_vm(dead_removed(links_freed(v)))), kills))
}

// ---------------------------------------------------------------------------
// Who is still there after a cycle
// ---------------------------------------------------------------------------

/// Two views of the same EXA: its name, family and place in it.
pub open spec fn same_exa(a: SpecExa, b: SpecExa) -> bool {
    &&& a.name == b.name
    &&& a.base_name == b.base_name
    &&& a.spawn_id == b.spawn_id
    &&& a.lineage == b.lineage
}

/// The EXAs of `s` are still the first ones of `t`, in their order.
pub open spec fn ids_kept(s: Seq<SpecExa>, t: Seq<SpecExa>) -> bool {
    &&& s.len() <= t.len()
    &&& forall|k: int| 0 <= k < s.len() ==> same_exa(#[trigger] t[k], s[k])
}

proof fn lemma_ids_trans(a: Seq<SpecExa>, b: Seq<SpecExa>, c: Seq<SpecExa>)
    requires
        ids_kept(a, b),
        ids_kept(b, c),
    ensures
        ids_kept(a, c),
{
    assert forall|k: int| 0 <= k < a.len() implies same_exa(#[trigger] c[k], a[k]) by {
        assert(same_exa(c[k], b[k]));
        assert(same_exa(b[k], a[k]));
    }
}

proof fn lemma_ids_refl(a: Seq<SpecExa>)
    ensures
        ids_kept(a, a),
{
}

proof fn lemma_collide_row_ids(exas: Seq<SpecExa>, list: Seq<int>, a: int, n: int)
    requires
        0 <= a,
        n <= list.len(),
        forall|k: int| 0 <= k < list.len() ==> 0 <= #[trigger] list[k] < exas.len(),
    ensures
        collide_row(exas, list, a, n).len() == exas.len(),
        ids_kept(exas, collide_row(exas, list, a, n)),
    decreases n - a,
{
    if n > a + 1 {
        lemma_collide_row_ids(exas, list, a, n - 1);
        let prev = collide_row(exas, list, a, n - 1);
        let i = list[a];
        let j = list[n - 1];
        let res = collide_at(prev, i, j);
        assert forall|k: int| 0 <= k < exas.len() implies same_exa(#[trigger] res[k], exas[k]) by {
            assert(same_exa(prev[k], exas[k]));
        }
    }
}

proof fn lemma_collide_all_ids(exas: Seq<SpecExa>, list: Seq<int>, m: int)
    requires
        m <= list.len(),
        forall|k: int| 0 <= k < list.len() ==> 0 <= #[trigger] list[k] < exas.len(),
    ensures
        collide_all(exas, list, m).len() == exas.len(),
        ids_kept(exas, collide_all(exas, list, m)),
    decreases m,
{
    if m > 0 {
        lemma_collide_all_ids(exas, list, m - 1);
        let prev = collide_all(exas, list, m - 1);
        lemma_collide_row_ids(prev, list, m - 1, list.len() as int);
        lemma_ids_trans(exas, prev, collide_all(exas, list, m));
    }
}

/// Collision detection keeps every EXA where it is.
proof fn lemma_collisions_ids(exas: Seq<SpecExa>)
    ensures
        ids_kept(exas, collisions(exas)),
        collisions(exas).len() == exas.len(),
{
    let reset = ci_reset(exas);
    lemma_collision_list(reset);
    lemma_collide_all_ids(reset, collision_list(reset), collision_list(reset).len() as int);
    lemma_ids_trans(exas, reset, collisions(exas));
}

proof fn lemma_kill_all_ids(exas: Seq<SpecExa>, killers: Seq<int>, choices: Seq<nat>, m: int)
    ensures
        kill_all(exas, killers, choices, m).len() == exas.len(),
        ids_kept(exas, kill_all(exas, killers, choices, m)),
    decreases m,
{
    if m > 0 {
        lemma_kill_all_ids(exas, killers, choices, m - 1);
        let prev = kill_all(exas, killers, choices, m - 1);
        let n = prev.len() as int;
        let k = killers[m - 1];
        lemma_tier_list(prev, k, 0, n);
        lemma_tier_list(prev, k, 1, n);
        lemma_tier_list(prev, k, 2, n);
        lemma_tier_list(prev, k, 3, n);
        let next = kill_one(prev, k, choices[m - 1]);
        let g = kill_group(prev, k);
        if g.len() > 0 {
            let t = g[(choices[m - 1] % g.len()) as int];
            assert(0 <= t < n);
        }
        assert(ids_kept(prev, next));
        lemma_ids_trans(exas, prev, next);
    }
}

/// Writing T changes nothing of who the EXA is.
proof fn lemma_write_t_ids(st: ExaState, v: i32)
    ensures
        same_exa(super::exa::semantics::write_register(st, seq!['t'], v).0.exa, st.exa),
        super::exa::semantics::write_register(st, seq!['t'], v).0.exa.error == st.exa.error,
{
    reveal(super::exa::semantics::write_register);
    assert(seq!['t'][0] != seq!['m'][0]);
    assert(seq!['t'][0] != seq!['f'][0]);
    assert(seq!['t'].len() != seq!['g', 'p'].len());
    assert(crate::text::lower_chars(seq!['t']) =~= seq!['t']);
    assert(seq!['t'][0] != seq!['x'][0]);
}

proof fn lemma_mrd_all_ids(exas: Seq<SpecExa>, net: SpecNetwork, n: int)
    requires
        n <= exas.len(),
    ensures
        mrd_all(exas, net, n).0.len() == exas.len(),
        ids_kept(exas, mrd_all(exas, net, n).0),
        forall|k: int| 0 <= k < exas.len() ==> (#[trigger] mrd_all(exas, net, n).0[k]).error == exas[k].error,
    decreases n,
{
    if n > 0 {
        lemma_mrd_all_ids(exas, net, n - 1);
        let (e, nt) = mrd_all(exas, net, n - 1);
        if e[n - 1].ran_test_mrd_this_cycle {
            let st = state(e[n - 1], nt);
            let t: i32 = if super::exa::semantics::current_bus(st).messages.len() > 0 { 1 } else { 0 };
            lemma_write_t_ids(st, t);
            let e2 = e.update(n - 1, test_mrd(st).exa);
            assert(ids_kept(e, e2));
            lemma_ids_trans(exas, e, e2);
            assert forall|k: int| 0 <= k < exas.len() implies (#[trigger] e2[k]).error == exas[k].error by {
                assert(e[k].error == exas[k].error);
            }
        }
    }
}

/// One step of the run keeps every EXA where it is; replicas join after.
proof fn lemma_round_step_ids(r: Round, draw: nat)
    requires
        round_wf(r),
        r.stack.len() > 0,
    ensures
        ids_kept(r.exas, round_step(r, draw).exas),
{
    let i = r.stack[0];
    lemma_exa_fits(r.net, r.exas, i);
    lemma_cycle_ok(state(r.exas[i], r.net), draw);
    let c = cycle(state(r.exas[i], r.net), draw);
    let exas1 = r.exas.update(i, c.exa) + c.net.spawned;
    assert(ids_kept(r.exas, exas1)) by {
        assert forall|k: int| 0 <= k < r.exas.len() implies same_exa(#[trigger] exas1[k], r.exas[k]) by {
            if k == i {
                assert(exas1[k] == c.exa);
            }
        }
    }
    if let Some(name) = c.exa.unfreeze_exa {
        lemma_exa_named(exas1, name);
        if let Some(j) = exa_named(exas1, name) {
            let e2 = exas1.update(j, unfrozen(exas1[j]));
            assert(ids_kept(exas1, e2));
            lemma_ids_trans(r.exas, exas1, e2);
        }
    }
}

/// The EXAs from place `l` on have no error: they joined during this run.
pub open spec fn fresh_after(t: Seq<SpecExa>, l: int) -> bool {
    forall|k: int| l <= k < t.len() ==> (#[trigger] t[k]).error is None
}

/// The stack only holds EXAs below place `l`.
pub open spec fn stack_below(r: Round, l: int) -> bool {
    forall|k: int| 0 <= k < r.stack.len() ==> #[trigger] r.stack[k] < l
}

/// A step of the run runs, releases and stacks only EXAs that were there
/// when the run began; the replicas it makes join with no error.
proof fn lemma_round_step_fresh(r: Round, draw: nat, l: int)
    requires
        round_wf(r),
        r.stack.len() > 0,
        l <= r.exas.len(),
        fresh_after(r.exas, l),
        stack_below(r, l),
    ensures
        fresh_after(round_step(r, draw).exas, l),
        stack_below(round_step(r, draw), l),
{
    let i = r.stack[0];
    assert(i < l);
    lemma_exa_fits(r.net, r.exas, i);
    lemma_cycle_ok(state(r.exas[i], r.net), draw);
    let c = cycle(state(r.exas[i], r.net), draw);
    let exas1 = r.exas.update(i, c.exa) + c.net.spawned;
    let rest = r.stack.drop_first();
    assert(fresh_after(exas1, l)) by {
        assert forall|k: int| l <= k < exas1.len() implies (#[trigger] exas1[k]).error is None by {
            if k < r.exas.len() {
                assert(exas1[k] == r.exas[k]);
            } else {
                assert(exas1[k] == c.net.spawned[k - r.exas.len()]);
            }
        }
    }
    assert(forall|k: int| 0 <= k < rest.len() ==> #[trigger] rest[k] == r.stack[k + 1]);
    if let Some(name) = c.exa.unfreeze_exa {
        lemma_exa_named(exas1, name);
        if let Some(j) = exa_named(exas1, name) {
            if exas1[j].is_frozen() {
                assert(j < l);
                let e2 = exas1.update(j, unfrozen(exas1[j]));
                assert(fresh_after(e2, l)) by {
                    assert forall|k: int| l <= k < e2.len() implies (#[trigger] e2[k]).error is None by {
                        assert(e2[k] == exas1[k]);
                    }
                }
                assert(forall|k: int| 0 <= k < rest.push(j).len() ==> #[trigger] rest.push(j)[k] < l);
            }
        }
    }
}

/// A whole run stacks only EXAs that were there when it began, and the
/// replicas it makes have no error at its end.
proof fn lemma_runs_fresh(trace: Seq<Round>, draws: Seq<nat>, k: int)
    requires
        runs(trace, draws),
        round_wf(trace[0]),
        stack_below(trace[0], trace[0].exas.len() as int),
        0 <= k < trace.len(),
    ensures
        fresh_after(trace[k].exas, trace[0].exas.len() as int),
        stack_below(trace[k], trace[0].exas.len() as int),
    decreases k,
{
    if k > 0 {
        lemma_runs_fresh(trace, draws, k - 1);
        lemma_runs_ids(trace, draws, k - 1);
        assert(trace[k - 1].stack.len() > 0 && trace[k] == round_step(trace[k - 1], draws[k - 1]));
        lemma_round_step_fresh(trace[k - 1], draws[k - 1], trace[0].exas.len() as int);
    }
}

/// A whole run keeps every EXA where it is.
proof fn lemma_runs_ids(trace: Seq<Round>, draws: Seq<nat>, k: int)
    requires
        runs(trace, draws),
        round_wf(trace[0]),
        0 <= k < trace.len(),
    ensures
        round_wf(trace[k]),
        ids_kept(trace[0].exas, trace[k].exas),
    decreases k,
{
    if k == 0 {
        lemma_ids_refl(trace[0].exas);
    } else {
        lemma_runs_ids(trace, draws, k - 1);
        assert(trace[k - 1].stack.len() > 0 && trace[k] == round_step(trace[k - 1], draws[k - 1]));
        lemma_round_step(trace[k - 1], draws[k - 1]);
        lemma_round_step_ids(trace[k - 1], draws[k - 1]);
        lemma_ids_trans(trace[0].exas, trace[k - 1].exas, trace[k].exas);
    }
}

/// The cleanup that opens a cycle: the live EXAs stay, in order, and each
/// host gets the files its dead EXAs held.
proof fn lemma_cleanup_files(v: SpecVM)
    requires
        v.wf(),
    ensures
        dead_removed(links_freed(v)).exas == v.exas.filter(|e: SpecExa| !e.is_fatal()),
        forall|h: int|
            0 <= h < v.net.hosts.len() ==> #[trigger] dead_removed(links_freed(v)).net.hosts[h].files
                == v.net.hosts[h].files + dropped_files(v.exas, h),
{
    reveal(links_freed);
    reveal(dead_removed);
    let v1 = links_freed(v);
    assert forall|k: int| 0 <= k < v.exas.len() implies #[trigger] v.exas[k].host < v1.net.hosts.len() by {
        assert(exa_ok(v.exas[k], v.net));
    }
    law_cleanup_keeps_the_living(v.exas, v1.net.hosts);
    assert forall|h: int| 0 <= h < v.net.hosts.len() implies #[trigger] v1.net.hosts[h].files == v.net.hosts[h].files by {}
}

/// Through a whole cycle, the EXAs that were alive when it began are still
/// the first ones, in their order: only the dead ones left.
proof fn lemma_cycle_ids(v0: SpecVM, kills: Seq<nat>, trace: Seq<Round>, draws: Seq<nat>, q: SpecVM)
    requires
        prepared(v0, kills).wf(),
        stack_run(prepared(v0, kills), trace, draws),
        q == mrds_run(stack_end(prepared(v0, kills), trace)),
    ensures
        ids_kept(v0.exas.filter(|e: SpecExa| !e.is_fatal()), q.exas),
        fresh_after(q.exas, v0.exas.filter(|e: SpecExa| !e.is_fatal()).len() as int),
{
    reveal(links_freed);
    reveal(dead_removed);
    reveal(collided_vm);
    reveal(buses_started);
    reveal(kills_done);
    reveal(mrds_noted);
    reveal(stack_run);
    reveal(mrds_run);
    let v1 = links_freed(v0);
    let v2 = dead_removed(v1);
    let v3 = collided_vm(v2);
    let v4 = buses_started(v3);
    let v5 = kills_done(v4, kills);
    let p = prepared(v0, kills);
    law_cleanup_keeps_the_living(v1.exas, v1.net.hosts);
    assert(v2.exas == v0.exas.filter(|e: SpecExa| !e.is_fatal()));
    if v2.redshift {
        lemma_collisions_ids(v2.exas);
    } else {
        lemma_ids_refl(v2.exas);
    }
    let killers = killer_list(v4.exas, v4.exas.len() as int);
    lemma_kill_all_ids(v4.exas, killers, kills, killers.len() as int);
    lemma_ids_trans(v2.exas, v3.exas, v5.exas);
    assert(ids_kept(v5.exas, p.exas));
    lemma_ids_trans(v2.exas, v5.exas, p.exas);
    lemma_runnable(p.exas, p.exas.len() as int);
    assert(round_wf(trace[0]));
    lemma_runs_ids(trace, draws, trace.len() - 1);
    let e = stack_end(p, trace);
    lemma_ids_trans(v2.exas, p.exas, e.exas);
    lemma_mrd_all_ids(e.exas, e.net, e.exas.len() as int);
    lemma_ids_trans(v2.exas, e.exas, q.exas);
    let l = p.exas.len() as int;
    assert(v3.exas.len() == v2.exas.len());
    assert(p.exas.len() == v2.exas.len());
    assert(stack_below(trace[0], l));
    lemma_runs_fresh(trace, draws, trace.len() - 1);
    assert forall|k: int| l <= k < q.exas.len() implies (#[trigger] q.exas[k]).error is None by {
        assert(q.exas[k].error == e.exas[k].error);
    }
}

/// One cycle of the VM, from `v` to `w`, with the given KILL draws, run of
/// EXAs and draws: after the preparation, the EXAs that can run do so from
/// the stack until it is empty, then the noted TEST MRDs run and the cycle
/// count goes up.
pub open spec fn cycle_outcome(v: SpecVM, kills: Seq<nat>, trace: Seq<Round>, draws: Seq<nat>, w: SpecVM) -> bool {
    let p = prepared(v, kills);
    &&& stack_run(p, trace, draws)
    &&& w == (SpecVM { cycle: (v.cycle + 1) as u64, ..mrds_run(stack_end(p, trace)) })
}

impl VM {
    /// Runs one cycle of the VM. The cycle opens by removing every EXA that
    /// was dead, each host taking the files its dead EXAs held; when it ends,
    /// the EXAs that were alive are the first ones, in their order, and every
    /// one after them is a replica made during the cycle, with no error.
    #[verifier::spinoff_prover]
    pub fn run_cycle(&mut self)
        requires
            old(self)@.wf(),
            old(self).cycle < u64::MAX,
        ensures
            exists|kills: Seq<nat>, trace: Seq<Round>, draws: Seq<nat>| #[trigger] cycle_outcome(
                old(self)@,
                kills,
                trace,
                draws,
                final(self)@,
            ),
            final(self)@.wf(),
            final(self).redshift == old(self).redshift,
            final(self).cycle == old(self).cycle + 1,
            ids_kept(old(self)@.exas.filter(|e: SpecExa| !e.is_fatal()), final(self)@.exas),
            fresh_after(final(self)@.exas, old(self)@.exas.filter(|e: SpecExa| !e.is_fatal()).len() as int),
            dead_removed(links_freed(old(self)@)).exas == old(self)@.exas.filter(|e: SpecExa| !e.is_fatal()),
            forall|h: int|
                0 <= h < old(self)@.net.hosts.len() ==> #[trigger] dead_removed(
                    links_freed(old(self)@),
                ).net.hosts[h].files == old(self)@.net.hosts[h].files + dropped_files(old(self)@.exas, h),
    {
        let ghost v0 = self@;
        let count = self.cycle;
        // Reset traversal status on all host links. These can only
        // support one EXA per cycle, others need to block.
        self.reset_links();
        // Clean up EXAs with fatal errors last cycle
        self.cleanup_fatal();
        // Collision detection, quadratic in the EXAs with lit sprites.
        self.check_collisions();
        // Run message buses
        self.cycle_buses();
        let ghost v4 = self@;
        // Run KILLs. These seem to have a special execution order
        // so they need to go before other EXA commands. KILLs are based
        // on positioning at the start of the cycle, and if you get killed,
        // you don't get to run anything else this cycle.
        self.run_kills();
        let ghost kills = choose|choices: Seq<nat>| self@ == #[trigger] kills_done(v4, choices);
        // Gather TEST MRDs, before they increment their pcs. TEST MRD seems
        // like it needs to happen after everything else, since it'll return
        // True even if, on that cycle, reading would have actually blocked.
        // But the *next* cycle it won't block.
        self.note_test_mrds();
        let ghost p = self@;
        assert(p == prepared(v0, kills));
        self.run_stack();
        let ghost (trace, draws) = choose|trace: Seq<Round>, draws: Seq<nat>| #[trigger] stack_run(p, trace, draws)
            && self@ == stack_end(p, trace);
        // Run the TEST MRDs from earlier.
        self.run_test_mrds();
        let ghost q = self@;
        proof {
            lemma_cycle_ids(v0, kills, trace, draws, q);
            lemma_cleanup_files(v0);
        }
        self.cycle = count + 1;
        assert(self@ =~~= (SpecVM { cycle: (v0.cycle + 1) as u64, ..q }));
        assert(cycle_outcome(v0, kills, trace, draws, self@));
    }

    /// Runs the given number of cycles, one after another.
    pub fn run_cycles(&mut self, num_cycles: usize)
        requires
            old(self)@.wf(),
            old(self).cycle + num_cycles <= u64::MAX,
        ensures
            cycles_run(old(self)@, final(self)@, num_cycles as nat),
            final(self)@.wf(),
            final(self).cycle == old(self).cycle + num_cycles,
            final(self).redshift == old(self).redshift,
    {
        let mut n: usize = 0;
        while n < num_cycles
            invariant
                self.redshift == old(self).redshift,
                n <= num_cycles,
                self@.wf(),
                self.cycle == old(self).cycle + n,
                old(self).cycle + num_cycles <= u64::MAX,
                cycles_run(old(self)@, self@, n as nat),
            decreases num_cycles - n,
        {
            let ghost before = self@;
            self.run_cycle();
            proof {
                lemma_cycles_step(old(self)@, before, self@, n as nat);
            }
            n = n + 1;
        }
    }
}

/// `w` is what one cycle of `v` can leave, for some draws of the outside
/// random numbers.
pub open spec fn one_cycle(v: SpecVM, w: SpecVM) -> bool {
    exists|kills: Seq<nat>, trace: Seq<Round>, draws: Seq<nat>| #[trigger] cycle_outcome(v, kills, trace, draws, w)
}

/// One more cycle after `n` makes `n + 1`.
pub proof fn lemma_cycles_step(v: SpecVM, m: SpecVM, w: SpecVM, n: nat)
    requires
        cycles_run(v, m, n),
        one_cycle(m, w),
    ensures
        cycles_run(v, w, n + 1),
{
    assert(one_cycle(m, w) && cycles_run(v, m, ((n + 1) - 1) as nat));
}

/// `w` is what `n` cycles of `v`, one after another, can leave.
pub open spec fn cycles_run(v: SpecVM, w: SpecVM, n: nat) -> bool
    decreases n,
{
    if n == 0 {
        w == v
    } else {
        exists|m: SpecVM| #[trigger] one_cycle(m, w) && cycles_run(v, m, (n - 1) as nat)
    }
}

/// How many cycles make up one frame, by the number of EXAs alive: the
/// cycles per frame decrease when more EXAs are alive.
pub open spec fn cycles_per_frame(n: nat) -> nat {
    if n == 0 {
        0
    } else if n <= 5 {
        10000
    } else if n <= 10 {
        5000
    } else if n <= 15 {
        2000
    } else if n <= 20 {
        1000
    } else {
        500
    }
}

/// A frame runs no more cycles when more EXAs are alive, and some cycles
/// whenever any EXA is.
pub proof fn law_frames_shorten_with_population(a: nat, b: nat)
    requires
        1 <= a <= b,
    ensures
        cycles_per_frame(b) <= cycles_per_frame(a),
        cycles_per_frame(b) > 0,
{
}

impl VM {
    /// Run the VM for one animation frame at 30hz. How many cycles
    /// constitutes a frame seems to be undefined and/or dynamic: from
    /// observation, the cycles per frame decrease when more EXAs are alive.
    /// To mimic that, and allow some determinism, the cycle count is set by
    /// how many EXAs are currently alive.
    pub fn run_for_frame(&mut self)
        requires
            old(self)@.wf(),
            old(self).cycle + cycles_per_frame(old(self)@.exas.len()) <= u64::MAX,
        ensures
            cycles_run(old(self)@, final(self)@, cycles_per_frame(old(self)@.exas.len())),
            final(self)@.wf(),
            final(self).cycle == old(self).cycle + cycles_per_frame(old(self)@.exas.len()),
            final(self).redshift == old(self).redshift,
    {
        let n = self.exas.len();
        let cycles: usize = if n == 0 {
            0
        } else if n <= 5 {
            10000
        } else if n <= 10 {
            5000
        } else if n <= 15 {
            2000
        } else if n <= 20 {
            1000
        } else {
            500
        };
        self.run_cycles(cycles);
    }

    /// Releases every EXA frozen by WAIT: the draw routine lets them go on.
    pub fn unfreeze_waiters(&mut self)
        requires
            old(self)@.wf(),
        ensures
            final(self)@ == (SpecVM { exas: waiters_released(old(self)@.exas), ..old(self)@ }),
            final(self)@.wf(),
    {
        let ghost v0 = self@;
        let mut i: usize = 0;
        while i < self.exas.len()
            invariant
                self.redshift == old(self).redshift,
                i <= self.exas.len(),
                self@.exas.len() == v0.exas.len(),
                self@ == (SpecVM { exas: self@.exas, ..v0 }),
                forall|k: int| 0 <= k < i ==> #[trigger] self@.exas[k] == waiters_released(v0.exas)[k],
                forall|k: int| i <= k < self@.exas.len() ==> #[trigger] self@.exas[k] == v0.exas[k],
                self@.wf(),
            decreases self.exas.len() - i,
        {
            let ghost cur = self@;
            assert(cur.exas[i as int] == v0.exas[i as int]);
            if self.exas[i].waiting && self.exas[i].is_frozen() {
                proof {
                    assert(exa_ok(cur.exas[i as int], cur.net));
                }
                self.exas[i].waiting = false;
                self.exas[i].unfreeze();
                proof {
                    assert forall|k: int| 0 <= k < self@.exas.len() implies (#[trigger] self@.exas[k]).host == cur.exas[k].host
                        && exa_ok(self@.exas[k], cur.net) by {
                        assert(exa_ok(cur.exas[k], cur.net));
                    }
                    lemma_wf_same_places(cur.net, cur.exas, self@.exas);
                }
            }
            assert(self@.exas[i as int] =~~= waiters_released(v0.exas)[i as int]);
            i = i + 1;
        }
        assert(self@.exas =~= waiters_released(v0.exas));
    }
}

/// WAIT releases: each waiting, frozen EXA stops waiting and moves on.
pub open spec fn waiters_released(exas: Seq<SpecExa>) -> Seq<SpecExa> {
    Seq::new(
        exas.len(),
        |i: int|
            if exas[i].waiting && exas[i].is_frozen() {
                unfrozen(SpecExa { waiting: false, ..exas[i] })
            } else {
                exas[i]
            },
    )
}

// ---------------------------------------------------------------------------
// The screen
// ---------------------------------------------------------------------------

/// The lit pixels of an EXA's sprite that fall on the screen, as (x, y)
/// pairs, for the first `n` pixels of the sprite in row-major order.
pub open spec fn visible_pixels(e: SpecExa, n: int) -> Seq<(int, int)>
    decreases n,
{
    if n <= 0 {
        Seq::empty()
    } else {
        let prev = visible_pixels(e, n - 1);
        let k = n - 1;
        let x = k % 10 + e.registers.gx.value;
        let y = k / 10 + e.registers.gy.value;
        if e.sprite[k] && 0 <= x <= 119 && 0 <= y <= 99 {
            prev.push((x, y))
        } else {
            prev
        }
    }
}

pub proof fn lemma_visible_pixels(e: SpecExa, n: int)
    ensures
        forall|m: int| 0 <= m < visible_pixels(e, n).len() ==> 0 <= (#[trigger] visible_pixels(e, n)[m]).0 <= 119
            && 0 <= visible_pixels(e, n)[m].1 <= 99,
        n >= 0 ==> visible_pixels(e, n).len() <= n,
    decreases n,
{
    if n > 0 {
        lemma_visible_pixels(e, n - 1);
        let p = visible_pixels(e, n - 1);
        let q = visible_pixels(e, n);
        assert forall|m: int| 0 <= m < q.len() implies 0 <= (#[trigger] q[m]).0 <= 119 && 0 <= q[m].1 <= 99 by {
            if m < p.len() {
                assert(q[m] == p[m]);
            }
        }
    }
}

/// Among the first `n` sprite pixels, a screen point is drawn exactly when a
/// lit pixel with index k stands at (gx + k % 10, gy + k / 10), that is column
/// k % 10 and row k / 10 from the EXA's position, and the point is on screen.
pub proof fn law_sprite_pixel_k_is_drawn_at_column_and_row(e: SpecExa, n: int, x: int, y: int)
    requires
        0 <= n <= 100,
        e.sprite.len() == 100,
    ensures
        visible_pixels(e, n).contains((x, y)) <==> exists|k: int|
            0 <= k < n && #[trigger] e.sprite[k]
                && x == e.registers.gx.value + k % 10
                && y == e.registers.gy.value + k / 10
                && 0 <= x <= 119 && 0 <= y <= 99,
    decreases n,
{
    if n > 0 {
        law_sprite_pixel_k_is_drawn_at_column_and_row(e, n - 1, x, y);
        let p = visible_pixels(e, n - 1);
        let q = visible_pixels(e, n);
        let k = n - 1;
        let px = k % 10 + e.registers.gx.value;
        let py = k / 10 + e.registers.gy.value;
        if e.sprite[k] && 0 <= px <= 119 && 0 <= py <= 99 {
            assert(q == p.push((px, py)));
            if q.contains((x, y)) {
                let m = choose|m: int| 0 <= m < q.len() && q[m] == (x, y);
                if m < p.len() {
                    assert(p[m] == q[m]);
                    assert(p.contains((x, y)));
                }
            }
            if p.contains((x, y)) {
                let m = choose|m: int| 0 <= m < p.len() && p[m] == (x, y);
                assert(q[m] == p[m]);
            }
            if x == px && y == py {
                assert(q[q.len() - 1] == (x, y));
            }
        } else {
            assert(q == p);
        }
    }
}

pub open spec fn pairs_view(v: Seq<(usize, usize)>) -> Seq<(int, int)> {
    v.map_values(|p: (usize, usize)| (p.0 as int, p.1 as int))
}

/// The screen with the given points lit.
pub open spec fn paint(fb: Seq<bool>, pts: Seq<(int, int)>) -> Seq<bool>
    decreases pts.len(),
{
    if pts.len() == 0 {
        fb
    } else {
        paint(fb, pts.drop_last()).update(pts.last().0 + pts.last().1 * 120, true)
    }
}

/// The screen with the sprites of the first `n` EXAs drawn.
pub open spec fn screen(exas: Seq<SpecExa>, n: int) -> Seq<bool>
    decreases n,
{
    if n <= 0 {
        Seq::new(SCREEN_PIXELS as nat, |i: int| false)
    } else {
        paint(screen(exas, n - 1), visible_pixels(exas[n - 1], 100))
    }
}

pub proof fn lemma_paint_len(fb: Seq<bool>, pts: Seq<(int, int)>)
    requires
        fb.len() == SCREEN_PIXELS,
        forall|m: int| 0 <= m < pts.len() ==> 0 <= (#[trigger] pts[m]).0 <= 119 && 0 <= pts[m].1 <= 99,
    ensures
        paint(fb, pts).len() == fb.len(),
    decreases pts.len(),
{
    if pts.len() > 0 {
        lemma_paint_len(fb, pts.drop_last());
    }
}

pub proof fn lemma_screen_len(exas: Seq<SpecExa>, n: int)
    ensures
        screen(exas, n).len() == SCREEN_PIXELS,
    decreases n,
{
    if n > 0 {
        lemma_screen_len(exas, n - 1);
        lemma_visible_pixels(exas[n - 1], 100);
        lemma_paint_len(screen(exas, n - 1), visible_pixels(exas[n - 1], 100));
    }
}

proof fn lemma_paint_point(fb: Seq<bool>, pts: Seq<(int, int)>, x: int, y: int)
    requires
        fb.len() == SCREEN_PIXELS,
        forall|m: int| 0 <= m < pts.len() ==> 0 <= (#[trigger] pts[m]).0 <= 119 && 0 <= pts[m].1 <= 99,
        0 <= x <= 119,
        0 <= y <= 99,
    ensures
        paint(fb, pts)[x + y * 120] <==> fb[x + y * 120] || pts.contains((x, y)),
    decreases pts.len(),
{
    if pts.len() > 0 {
        let init = pts.drop_last();
        assert forall|m: int| 0 <= m < init.len() implies 0 <= (#[trigger] init[m]).0 <= 119 && 0 <= init[m].1 <= 99 by {
            assert(init[m] == pts[m]);
        }
        lemma_paint_point(fb, init, x, y);
        lemma_paint_len(fb, init);
        let last = pts.last();
        assert(0 <= last.0 <= 119 && 0 <= last.1 <= 99);
        assert((last.0 + last.1 * 120 == x + y * 120) <==> (last.0 == x && last.1 == y)) by (nonlinear_arith)
            requires 0 <= last.0 <= 119, 0 <= last.1 <= 99, 0 <= x <= 119, 0 <= y <= 99;
        assert(0 <= x + y * 120 < SCREEN_PIXELS) by (nonlinear_arith)
            requires 0 <= x <= 119, 0 <= y <= 99, SCREEN_PIXELS == 12000;
        assert(0 <= last.0 + last.1 * 120 < SCREEN_PIXELS) by (nonlinear_arith)
            requires 0 <= last.0 <= 119, 0 <= last.1 <= 99, SCREEN_PIXELS == 12000;
        if pts.contains((x, y)) {
            let m = choose|m: int| 0 <= m < pts.len() && pts[m] == (x, y);
            if m < init.len() {
                assert(init[m] == pts[m]);
            }
        }
        if init.contains((x, y)) {
            let m = choose|m: int| 0 <= m < init.len() && init[m] == (x, y);
            assert(pts[m] == init[m]);
        }
        if last == (x, y) {
            assert(pts[pts.len() - 1] == (x, y));
        }
    }
}

/// On the screen drawn from the first `n` EXAs, the point (x, y) is lit
/// exactly when one of those EXAs has a lit sprite pixel with index k such
/// that gx + k % 10 == x and gy + k / 10 == y.
pub proof fn law_screen_point_lit_by_some_sprite_pixel(exas: Seq<SpecExa>, n: int, x: int, y: int)
    requires
        0 <= n <= exas.len(),
        forall|i: int| 0 <= i < exas.len() ==> (#[trigger] exas[i]).sprite.len() == 100,
        0 <= x <= 119,
        0 <= y <= 99,
    ensures
        screen(exas, n)[x + y * 120] <==> exists|i: int, k: int|
            #![trigger exas[i].sprite[k]]
            0 <= i < n && 0 <= k < 100 && exas[i].sprite[k]
                && x == exas[i].registers.gx.value + k % 10
                && y == exas[i].registers.gy.value + k / 10,
    decreases n,
{
    if n > 0 {
        law_screen_point_lit_by_some_sprite_pixel(exas, n - 1, x, y);
        let e = exas[n - 1];
        lemma_screen_len(exas, n - 1);
        lemma_visible_pixels(e, 100);
        lemma_paint_point(screen(exas, n - 1), visible_pixels(e, 100), x, y);
        law_sprite_pixel_k_is_drawn_at_column_and_row(e, 100, x, y);
        if screen(exas, n)[x + y * 120] {
            if !screen(exas, n - 1)[x + y * 120] {
                let k = choose|k: int|
                    0 <= k < 100 && #[trigger] e.sprite[k]
                        && x == e.registers.gx.value + k % 10
                        && y == e.registers.gy.value + k / 10
                        && 0 <= x <= 119 && 0 <= y <= 99;
                assert(exas[n - 1].sprite[k]);
            }
        }
        if exists|i: int, k: int|
            #![trigger exas[i].sprite[k]]
            0 <= i < n && 0 <= k < 100 && exas[i].sprite[k]
                && x == exas[i].registers.gx.value + k % 10
                && y == exas[i].registers.gy.value + k / 10
        {
            let (i, k) = choose|i: int, k: int|
                #![trigger exas[i].sprite[k]]
                0 <= i < n && 0 <= k < 100 && exas[i].sprite[k]
                    && x == exas[i].registers.gx.value + k % 10
                    && y == exas[i].registers.gy.value + k / 10;
            if i == n - 1 {
                assert(e.sprite[k]);
            }
        }
    }
}

impl VM {
    /// Update framebuffer based on current sprite info of running EXAs, then
    /// return a reference to it.
    pub fn render(&mut self) -> (r: &[bool; 12000])
        ensures
            r@ == screen(old(self)@.exas, old(self)@.exas.len() as int),
            final(self)@ == (SpecVM { framebuffer: r@, ..old(self)@ }),
            final(self).redshift == old(self).redshift,
    {
        let ghost v0 = self@;
        let mut i: usize = 0;
        while i < 12000
            invariant
                self.redshift == old(self).redshift,
                i <= 12000,
                self@ == (SpecVM { framebuffer: self@.framebuffer, ..v0 }),
                self@.framebuffer.len() == SCREEN_PIXELS,
                forall|k: int| 0 <= k < i ==> !#[trigger] self@.framebuffer[k],
            decreases 12000 - i,
        {
            self.framebuffer[i] = false;
            i = i + 1;
        }
        assert(self@.framebuffer =~= screen(v0.exas, 0));
        let mut e: usize = 0;
        while e < self.exas.len()
            invariant
                self.redshift == old(self).redshift,
                e <= self.exas.len(),
                self.exas@.len() == v0.exas.len(),
                self@ == (SpecVM { framebuffer: self@.framebuffer, ..v0 }),
                self@.framebuffer == screen(v0.exas, e as int),
            decreases self.exas.len() - e,
        {
            let pts = self.exas[e].pixels();
            assert(self.exas@[e as int]@ == v0.exas[e as int]);
            proof {
                lemma_visible_pixels(v0.exas[e as int], 100);
                lemma_screen_len(v0.exas, e as int);
            }
            let ghost base = self@.framebuffer;
            let mut k: usize = 0;
            while k < pts.len()
                invariant
                    self.redshift == old(self).redshift,
                self.redshift == old(self).redshift,
                    k <= pts.len(),
                    pairs_view(pts@) == visible_pixels(v0.exas[e as int], 100),
                    forall|m: int| 0 <= m < pts@.len() ==> pts@[m].0 <= 119 && pts@[m].1 <= 99,
                    self@ == (SpecVM { framebuffer: self@.framebuffer, ..v0 }),
                    base.len() == SCREEN_PIXELS,
                    self@.framebuffer == paint(base, pairs_view(pts@).subrange(0, k as int)),
                decreases pts.len() - k,
            {
                let (x, y) = pts[k];
                assert(pairs_view(pts@)[k as int] == (x as int, y as int));
                assert(pts@[k as int] == (x, y));
                proof {
                    lemma_paint_len(base, pairs_view(pts@).subrange(0, k as int));
                }
                self.framebuffer[x + y * 120] = true;
                assert(pairs_view(pts@).subrange(0, k + 1).drop_last() =~= pairs_view(pts@).subrange(0, k as int));
                k = k + 1;
            }
            assert(pairs_view(pts@).subrange(0, pts.len() as int) =~= pairs_view(pts@));
            e = e + 1;
        }
        &self.framebuffer
    }
}

} // verus!
