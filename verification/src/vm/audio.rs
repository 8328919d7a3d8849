//! Sound of the Redshift: the noise voice, and the mixing of the voices that
//! play into one frame of interleaved stereo samples.

use vstd::prelude::*;
use vstd::arithmetic::div_mod::lemma_fundamental_div_mod_converse;

use super::redshift::{hardware_value, nse0_name, sqr0_name, sqr1_name, tri0_name};
use super::{SpecHost, VM};
use super::exa::semantics::div_toward_zero;
use crate::random::random_i16_inclusive;

verus! {

/// Samples in one 60 Hz frame at 44100 Hz.
pub const FRAME_SAMPLES: usize = 735;

/// Length of the noise voice's table.
pub const NOISE_SAMPLES: usize = 4000;

/// A voice of the sound hardware.
pub trait AudioSample {
    /// Set frequency from register value. 60 = middle C, semitone
    /// increments from there. Bounded 1-99.
    fn set_frequency(&mut self, value: i32);

    /// Fill audio_buffer for next frame and return borrow of it
    fn sample(&mut self) -> &[i16];
}

/// A voice that starts from a default state.
pub trait WaveForm: Default + AudioSample {}

/// The noise voice: a table of random samples, each played for
/// `undersample + 1` output samples.
#[derive(Debug)]
pub struct Noise {
    pub samples: Vec<i16>,
    pub pos: usize,
    pub audio_buffer: Vec<i16>,
    pub undersample: i32,
}

/// A sample of the noise table: 15000 to 20000 away from silence.
pub open spec fn noise_level(v: i16) -> bool {
    (-20000 <= v <= -15000) || (15000 <= v <= 20000)
}

impl Noise {
    pub open spec fn wf(&self) -> bool {
        &&& self.samples@.len() == NOISE_SAMPLES
        &&& self.pos < NOISE_SAMPLES
        &&& self.audio_buffer@.len() == FRAME_SAMPLES
        &&& forall|k: int| 0 <= k < self.samples@.len() ==> noise_level(#[trigger] self.samples@[k])
    }

    /// Output samples that each table entry lasts.
    pub open spec fn run_length(&self) -> int {
        self.undersample + 1
    }

    /// Table entries a frame goes through.
    pub open spec fn steps(&self) -> int {
        (FRAME_SAMPLES + self.undersample) / self.run_length()
    }

    /// Sets how long each table entry lasts: 99 less the register value.
    pub fn set_frequency(&mut self, value: i32)
        requires
            value >= 99 - i32::MAX,
        ensures
            *final(self) == (Noise { undersample: (99 - value) as i32, ..*old(self) }),
    {
        self.undersample = 99 - value;
    }

    /// Fills the buffer with the next frame: from the current entry on, each
    /// entry of the table is written `undersample + 1` times (the last one
    /// cut short at the end of the frame), wrapping round the table.
    pub fn sample(&mut self) -> (r: &[i16])
        requires
            old(self).wf(),
            old(self).undersample >= 0,
        ensures
            final(self).wf(),
            final(self).samples == old(self).samples,
            final(self).undersample == old(self).undersample,
            final(self).pos == (old(self).pos + old(self).steps()) % (NOISE_SAMPLES as int),
            forall|k: int|
                0 <= k < FRAME_SAMPLES ==> #[trigger] final(self).audio_buffer@[k] == old(self).samples@[(old(
                    self,
                ).pos + k / old(self).run_length()) % (NOISE_SAMPLES as int)],
            r@ == final(self).audio_buffer@,
    {
        let ghost pos0 = self.pos as int;
        let ghost d = self.run_length();
        let u = self.undersample;
        let mut idx: usize = 0;
        let ghost mut j: int = 0;
        while idx < FRAME_SAMPLES
            invariant
                self.wf(),
                self.samples == old(self).samples,
                self.undersample == u,
                u == old(self).undersample,
                d == u + 1,
                u >= 0,
                pos0 == old(self).pos,
                j >= 0,
                idx <= FRAME_SAMPLES,
                idx == (if j * d < FRAME_SAMPLES { j * d } else { FRAME_SAMPLES as int }),
                j > 0 ==> (j - 1) * d < FRAME_SAMPLES,
                self.pos == (pos0 + j) % (NOISE_SAMPLES as int),
                forall|m: int|
                    0 <= m < idx ==> #[trigger] self.audio_buffer@[m] == self.samples@[(pos0 + m / d) % (
                    NOISE_SAMPLES as int)],
            decreases FRAME_SAMPLES - idx,
        {
            let mut t: i64 = 0;
            while t <= u as i64 && idx < FRAME_SAMPLES
                invariant
                    self.wf(),
                    self.samples == old(self).samples,
                    self.undersample == u,
                    d == u + 1,
                    u >= 0,
                    j >= 0,
                    0 <= t <= d,
                    idx == j * d + t,
                    idx <= FRAME_SAMPLES,
                    self.pos == (pos0 + j) % (NOISE_SAMPLES as int),
                    forall|m: int|
                        0 <= m < idx ==> #[trigger] self.audio_buffer@[m] == self.samples@[(pos0 + m / d) % (
                        NOISE_SAMPLES as int)],
                decreases FRAME_SAMPLES - idx,
            {
                proof {
                    lemma_fundamental_div_mod_converse(idx as int, d, j, t as int);
                }
                let v = self.samples[self.pos];
                self.audio_buffer.set(idx, v);
                idx = idx + 1;
                t = t + 1;
            }
            proof {
                assert(j * d + d == (j + 1) * d) by (nonlinear_arith);
                assert(j * d >= 0) by (nonlinear_arith)
                    requires
                        j >= 0,
                        d >= 1,
                ;
                if idx < FRAME_SAMPLES {
                    assert(t == d);
                }
            }
            self.pos = self.pos + 1;
            if self.pos >= self.samples.len() {
                self.pos = 0;
            }
            proof {
                vstd::arithmetic::div_mod::lemma_add_mod_noop(pos0 + j, 1, NOISE_SAMPLES as int);
                j = j + 1;
            }
        }
        proof {
            let q = j;
            assert((q - 1) * d + d == q * d) by (nonlinear_arith);
            assert(q * d >= FRAME_SAMPLES);
            lemma_fundamental_div_mod_converse(
                FRAME_SAMPLES + u,
                d,
                q,
                FRAME_SAMPLES + u - q * d,
            );
        }
        self.audio_buffer.as_slice()
    }
}

impl Default for Noise {
    /// A table of random samples, each 15000 to 20000 away from silence,
    /// with a silent buffer.
    fn default() -> (r: Self)
        ensures
            r.wf(),
            r.pos == 0,
            r.undersample == 0,
            r.audio_buffer@ == Seq::new(FRAME_SAMPLES as nat, |k: int| 0i16),
    {
        let mut samples: Vec<i16> = Vec::new();
        let mut idx: usize = 0;
        while idx < NOISE_SAMPLES
            invariant
                idx <= NOISE_SAMPLES,
                samples@.len() == idx,
                forall|k: int| 0 <= k < samples@.len() ==> noise_level(#[trigger] samples@[k]),
            decreases NOISE_SAMPLES - idx,
        {
            let mut value = random_i16_inclusive(-5000, 5000);
            if value < 0 {
                value = value - 15000;
            } else {
                value = value + 15000;
            }
            samples.push(value);
            idx = idx + 1;
        }
        let mut audio_buffer: Vec<i16> = Vec::new();
        let mut k: usize = 0;
        while k < FRAME_SAMPLES
            invariant
                k <= FRAME_SAMPLES,
                audio_buffer@ == Seq::new(k as nat, |m: int| 0i16),
            decreases FRAME_SAMPLES - k,
        {
            audio_buffer.push(0);
            k = k + 1;
            assert(audio_buffer@ =~= Seq::new(k as nat, |m: int| 0i16));
        }
        Noise { samples, pos: 0, audio_buffer, undersample: 0 }
    }
}

// ---------------------------------------------------------------------------
// Mixing
// ---------------------------------------------------------------------------

/// The value of a voice register, 0 where the host has none.
pub open spec fn voice_value(h: SpecHost, name: Seq<char>) -> i32 {
    match hardware_value(h, name) {
        Some(v) => v,
        None => 0,
    }
}

/// The sound registers, in order: #SQR0, #SQR1, #TRI0, #NSE0.
pub open spec fn voice_names() -> Seq<Seq<char>> {
    seq![sqr0_name(), sqr1_name(), tri0_name(), nse0_name()]
}

/// The sum of the first `m` voices' samples at `k`, each divided (toward
/// zero) by the number of voices `n`.
pub open spec fn mix_sum(voices: Seq<Seq<i16>>, k: int, m: int, n: int) -> int
    decreases m,
{
    if m <= 0 {
        0
    } else {
        mix_sum(voices, k, m - 1, n) + div_toward_zero(voices[m - 1][k] as int, n)
    }
}

/// The mixed sample at `k`: each voice contributes its sample divided by
/// the number of voices.
pub open spec fn mixed(voices: Seq<Seq<i16>>, k: int) -> int {
    mix_sum(voices, k, voices.len() as int, voices.len() as int)
}

/// One frame of interleaved stereo: both channels of sample `k` carry the
/// mixed sample; silence when no voice plays.
pub open spec fn stereo_frame(voices: Seq<Seq<i16>>) -> Seq<i16> {
    Seq::new(
        2 * FRAME_SAMPLES as nat,
        |i: int|
            if voices.len() == 0 {
                0i16
            } else {
                mixed(voices, i / 2) as i16
            },
    )
}

proof fn lemma_div_toward_zero_bound(x: int, n: int)
    requires
        -32768int <= x <= 32767int,
        n >= 1,
    ensures
        -(32768int / n) <= div_toward_zero(x, n) <= 32767int / n,
{
    if x >= 0 {
        assert(x / n <= 32767int / n) by (nonlinear_arith)
            requires
                0 <= x <= 32767int,
                n >= 1,
        ;
    } else {
        assert((-x) / n <= 32768int / n) by (nonlinear_arith)
            requires
                0 < -x <= 32768int,
                n >= 1,
        ;
    }
}

proof fn lemma_mix_sum_bound(voices: Seq<Seq<i16>>, k: int, m: int, n: int)
    requires
        0 <= m <= n,
        n >= 1,
        m <= voices.len(),
        0 <= k,
        forall|w: int| 0 <= w < voices.len() ==> k < #[trigger] voices[w].len(),
    ensures
        -(m * (32768int / n)) <= mix_sum(voices, k, m, n) <= m * (32767int / n),
        -32768int <= mix_sum(voices, k, m, n) <= 32767int,
    decreases m,
{
    if m > 0 {
        lemma_mix_sum_bound(voices, k, m - 1, n);
        lemma_div_toward_zero_bound(voices[m - 1][k] as int, n);
        assert((m - 1) * (32768int / n) + 32768int / n == m * (32768int / n)) by (nonlinear_arith);
        assert((m - 1) * (32767int / n) + 32767int / n == m * (32767int / n)) by (nonlinear_arith);
    }
    assert(m * (32767int / n) <= 32767int) by (nonlinear_arith)
        requires
            0 <= m <= n,
            n >= 1,
    {
        assert(n * (32767int / n) <= 32767int);
        assert(m * (32767int / n) <= n * (32767int / n));
    }
    assert(m * (32768int / n) <= 32768int) by (nonlinear_arith)
        requires
            0 <= m <= n,
            n >= 1,
    {
        assert(n * (32768int / n) <= 32768int);
        assert(m * (32768int / n) <= n * (32768int / n));
    }
}

/// Division of a sample toward zero by a positive count, as `i16`'s `/` does.
fn div_sample(x: i16, n: u16) -> (q: i32)
    requires
        n >= 1,
    ensures
        q == div_toward_zero(x as int, n as int),
{
    if x < 0 {
        let a: u32 = (0i32 - x as i32) as u32;
        let q = (a / n as u32) as i32;
        0 - q
    } else {
        (x as u32 / n as u32) as i32
    }
}

impl VM {
    /// The sound registers' values, in order #SQR0, #SQR1, #TRI0, #NSE0.
    pub fn sound_registers(&self) -> (r: [i32; 4])
        requires
            self.redshift matches Some(env) && env.sound_host < self@.net.hosts.len(),
        ensures
            forall|i: int|
                0 <= i < 4 ==> #[trigger] r@[i] == voice_value(
                    self@.net.hosts[self.redshift->Some_0.sound_host as int],
                    voice_names()[i],
                ),
    {
        let h = match &self.redshift {
            Some(env) => env.sound_host,
            None => 0,
        };
        let host = &self.network.hosts[h];
        assert(host@ == self@.net.hosts[h as int]);
        let names = [
            vec!['#', 's', 'q', 'r', '0'],
            vec!['#', 's', 'q', 'r', '1'],
            vec!['#', 't', 'r', 'i', '0'],
            vec!['#', 'n', 's', 'e', '0'],
        ];
        let mut r = [0i32; 4];
        let mut i: usize = 0;
        while i < 4
            invariant
                i <= 4,
                host@ == self@.net.hosts[self.redshift->Some_0.sound_host as int],
                forall|m: int| 0 <= m < 4 ==> (#[trigger] names@[m])@ == voice_names()[m],
                forall|m: int| 0 <= m < i ==> #[trigger] r@[m] == voice_value(host@, voice_names()[m]),
            decreases 4 - i,
        {
            let v = match host.hardware_value(&names[i]) {
                Some(v) => v,
                None => 0,
            };
            r[i] = v;
            i = i + 1;
        }
        r
    }

    /// Which voices play: those whose register is positive, in the order of
    /// `sound_registers`.
    pub fn playing_voices(&self) -> (r: [bool; 4])
        requires
            self.redshift matches Some(env) && env.sound_host < self@.net.hosts.len(),
        ensures
            forall|i: int|
                0 <= i < 4 ==> #[trigger] r@[i] == (voice_value(
                    self@.net.hosts[self.redshift->Some_0.sound_host as int],
                    voice_names()[i],
                ) > 0),
    {
        let v = self.sound_registers();
        [v[0] > 0, v[1] > 0, v[2] > 0, v[3] > 0]
    }

    /// Return interleaved stereo audio stream for a single 60hz frame of the
    /// VM. `voices` holds this frame's samples of #SQR0, #SQR1, #TRI0 and
    /// #NSE0, in that order, for exactly the voices whose register is
    /// positive: silence outside the Redshift or when no voice plays, else
    /// each sample is the sum of the playing voices' samples, each divided by
    /// the number of voices that play.
    pub fn audio_frame(&self, voices: &[Option<Vec<i16>>; 4]) -> (r: [i16; 1470])
        requires
            forall|i: int| 0 <= i < 4 ==> (#[trigger] voices@[i] matches Some(v) ==> v@.len() >= FRAME_SAMPLES),
            self.redshift matches Some(env) ==> env.sound_host < self@.net.hosts.len() && forall|i: int|
                0 <= i < 4 ==> ((#[trigger] voices@[i]) is Some) == (voice_value(
                    self@.net.hosts[env.sound_host as int],
                    voice_names()[i],
                ) > 0),
        ensures
            r@ == (if self.redshift is None {
                stereo_frame(Seq::empty())
            } else {
                stereo_frame(played(voices@))
            }),
            (self.redshift matches Some(env) && forall|i: int|
                0 <= i < 4 ==> #[trigger] voice_value(self@.net.hosts[env.sound_host as int], voice_names()[i])
                    <= 0) ==> r@ == stereo_frame(Seq::empty()),
    {
        if self.redshift.is_none() {
            let r = [0i16; 1470];
            assert(r@ =~= stereo_frame(Seq::empty()));
            return r;
        }
        let mut list: Vec<Vec<i16>> = Vec::new();
        let mut i: usize = 0;
        while i < 4
            invariant
                i <= 4,
                list@.map_values(|v: Vec<i16>| v@) == played_upto(voices@, i as int),
                forall|j: int| 0 <= j < 4 ==> (#[trigger] voices@[j] matches Some(v) ==> v@.len() >= FRAME_SAMPLES),
                forall|w: int| 0 <= w < list@.len() ==> #[trigger] list@[w]@.len() >= FRAME_SAMPLES,
                list@.len() <= i,
            decreases 4 - i,
        {
            let ghost before = list@.map_values(|v: Vec<i16>| v@);
            match &voices[i] {
                Some(v) => {
                    assert(voices@[i as int] matches Some(w) && w@.len() >= FRAME_SAMPLES);
                    let c = copy_samples(v);
                    list.push(c);
                    assert(list@.map_values(|v: Vec<i16>| v@) =~= before.push(v@));
                },
                None => {},
            }
            assert(played_upto(voices@, i + 1) =~= played_upto(voices@, i as int) + voice_seq(voices@[i as int]));
            i = i + 1;
        }
        proof {
            reveal_with_fuel(played_upto, 5);
            assert(played_upto(voices@, 1) =~= voice_seq(voices@[0]));
            assert(played_upto(voices@, 4) =~= played(voices@));
            if (forall|i: int|
                0 <= i < 4 ==> #[trigger] voice_value(self@.net.hosts[self.redshift->Some_0.sound_host as int], voice_names()[i])
                    <= 0) {
                assert(voices@[0] is None && voices@[1] is None && voices@[2] is None && voices@[3] is None) by {
                    let h = self@.net.hosts[self.redshift->Some_0.sound_host as int];
                    assert(voice_value(h, voice_names()[0]) <= 0);
                    assert(voice_value(h, voice_names()[1]) <= 0);
                    assert(voice_value(h, voice_names()[2]) <= 0);
                    assert(voice_value(h, voice_names()[3]) <= 0);
                }
                assert(played(voices@) =~= Seq::<Seq<i16>>::empty());
            }
        }
        mix_voices(&list)
    }
}

/// The frame samples of one voice, as a list of zero or one.
pub open spec fn voice_seq(o: Option<Vec<i16>>) -> Seq<Seq<i16>> {
    match o {
        Some(v) => seq![v@],
        None => Seq::empty(),
    }
}

/// The voices among the first `k` that play, in order.
pub open spec fn played_upto(voices: Seq<Option<Vec<i16>>>, k: int) -> Seq<Seq<i16>>
    decreases k,
{
    if k <= 0 {
        Seq::empty()
    } else {
        played_upto(voices, k - 1) + voice_seq(voices[k - 1])
    }
}

/// The voices that play, in register order.
pub open spec fn played(voices: Seq<Option<Vec<i16>>>) -> Seq<Seq<i16>> {
    voice_seq(voices[0]) + voice_seq(voices[1]) + voice_seq(voices[2]) + voice_seq(voices[3])
}

/// A copy of a voice's samples.
fn copy_samples(v: &Vec<i16>) -> (r: Vec<i16>)
    ensures
        r@ == v@,
{
    let mut r: Vec<i16> = Vec::new();
    let mut k: usize = 0;
    while k < v.len()
        invariant
            k <= v.len(),
            r@ == v@.subrange(0, k as int),
        decreases v.len() - k,
    {
        r.push(v[k]);
        k = k + 1;
        assert(r@ =~= v@.subrange(0, k as int));
    }
    assert(r@ =~= v@);
    r
}

/// The stereo frame of the given voices: silence when there are none, else
/// each sample is the sum of their samples, each divided by their number.
fn mix_voices(voices: &Vec<Vec<i16>>) -> (r: [i16; 1470])
    requires
        voices@.len() <= 4,
        forall|w: int| 0 <= w < voices@.len() ==> #[trigger] voices@[w]@.len() >= FRAME_SAMPLES,
    ensures
        r@ == stereo_frame(voices@.map_values(|v: Vec<i16>| v@)),
    {
        let ghost vs = voices@.map_values(|v: Vec<i16>| v@);
        let mut r = [0i16; 1470];
        if voices.len() == 0 {
            assert(vs =~= Seq::empty());
            assert(r@ =~= stereo_frame(vs));
            return r;
        }
        let n = voices.len() as u16;
        let mut idx: usize = 0;
        while idx < FRAME_SAMPLES
            invariant
                idx <= FRAME_SAMPLES,
                1 <= n <= 4,
                n == voices@.len(),
                vs == voices@.map_values(|v: Vec<i16>| v@),
                forall|w: int| 0 <= w < voices@.len() ==> #[trigger] voices@[w]@.len() >= FRAME_SAMPLES,
                r@.len() == 2 * FRAME_SAMPLES,
                forall|i: int| 0 <= i < 2 * idx ==> #[trigger] r@[i] == stereo_frame(vs)[i],
            decreases FRAME_SAMPLES - idx,
        {
            let mut value: i32 = 0;
            let mut w: usize = 0;
            proof {
                assert forall|m: int| 0 <= m < vs.len() implies idx < #[trigger] vs[m].len() by {
                    assert(vs[m] == voices@[m]@);
                }
            }
            while w < voices.len()
                invariant
                    w <= voices@.len(),
                    idx < FRAME_SAMPLES,
                    1 <= n <= 4,
                    n == voices@.len(),
                    vs == voices@.map_values(|v: Vec<i16>| v@),
                    forall|m: int| 0 <= m < voices@.len() ==> #[trigger] voices@[m]@.len() >= FRAME_SAMPLES,
                    forall|m: int| 0 <= m < vs.len() ==> idx < #[trigger] vs[m].len(),
                    value == mix_sum(vs, idx as int, w as int, n as int),
                decreases voices@.len() - w,
            {
                proof {
                    lemma_mix_sum_bound(vs, idx as int, w as int + 1, n as int);
                    assert(vs[w as int] == voices@[w as int]@);
                }
                value = value + div_sample(voices[w][idx], n);
                w = w + 1;
            }
            proof {
                lemma_mix_sum_bound(vs, idx as int, n as int, n as int);
            }
            let s = value as i16;
            assert(s == mixed(vs, idx as int) as i16);
            r[2 * idx] = s;
            r[2 * idx + 1] = s;
            idx = idx + 1;
        }
        assert(r@ =~= stereo_frame(vs));
        r
    }

} // verus!
