//! EXA sprites: 10x10 monochrome images drawn on the Redshift screen.

use vstd::prelude::*;

verus! {

#[derive(Debug, PartialEq, Eq)]
pub struct Sprite {
    pub pixels: [bool; 100],
}

/// Total length of the runs in a shorthand.
pub open spec fn runs_total(sh: Seq<u32>) -> int
    decreases sh.len(),
{
    if sh.len() == 0 {
        0
    } else {
        runs_total(sh.drop_last()) + sh.last()
    }
}

/// The pixels a shorthand describes: `sh[0]` unlit pixels, then `sh[1]` lit ones,
/// then `sh[2]` unlit ones, and so on, row by row.
pub open spec fn shorthand_pixels(sh: Seq<u32>) -> Seq<bool>
    decreases sh.len(),
{
    if sh.len() == 0 {
        Seq::empty()
    } else {
        shorthand_pixels(sh.drop_last()) + Seq::new(
            sh.last() as nat,
            |j: int| (sh.len() - 1) % 2 == 1,
        )
    }
}

pub open spec fn blank_pixels() -> Seq<bool> {
    Seq::new(100, |i: int| false)
}

/// The shorthands of the built-in sprites numbered 1 to 39 (the font and symbols).
pub open spec fn builtin_shorthand(code: u32) -> Seq<u32> {
    match code {
        1 => seq![24, 1, 8, 1, 1, 1, 6, 1, 3, 1, 5, 1, 3, 1, 4, 7, 3, 1, 5, 1, 3, 1, 5, 1, 12],
        2 => seq![21, 6, 4, 1, 5, 1, 3, 1, 5, 1, 3, 6, 4, 1, 5, 1, 3, 1, 5, 1, 3, 6, 13],
        3 => seq![22, 5, 4, 1, 5, 1, 3, 1, 9, 1, 9, 1, 9, 1, 5, 1, 4, 5, 13],
        4 => seq![21, 6, 4, 1, 5, 1, 3, 1, 5, 1, 3, 1, 5, 1, 3, 1, 5, 1, 3, 1, 5, 1, 3, 6, 13],
        5 => seq![21, 7, 3, 1, 9, 1, 9, 6, 4, 1, 9, 1, 9, 7, 12],
        6 => seq![21, 7, 3, 1, 9, 1, 9, 6, 4, 1, 9, 1, 9, 1, 18],
        7 => seq![22, 5, 4, 1, 5, 1, 3, 1, 9, 1, 3, 3, 3, 1, 5, 1, 3, 1, 5, 1, 4, 5, 13],
        8 => seq![21, 1, 5, 1, 3, 1, 5, 1, 3, 1, 5, 1, 3, 7, 3, 1, 5, 1, 3, 1, 5, 1, 3, 1, 5, 1, 12],
        9 => seq![23, 3, 8, 1, 9, 1, 9, 1, 9, 1, 9, 1, 8, 3, 14],
        10 => seq![27, 1, 9, 1, 9, 1, 9, 1, 9, 1, 3, 1, 5, 1, 4, 5, 13],
        11 => seq![21, 1, 4, 2, 3, 1, 2, 2, 5, 1, 1, 2, 6, 3, 7, 1, 1, 2, 6, 1, 2, 2, 5, 1, 4, 2, 12],
        12 => seq![21, 1, 9, 1, 9, 1, 9, 1, 9, 1, 9, 1, 9, 7, 12],
        13 => seq![21, 1, 5, 1, 3, 2, 3, 2, 3, 1, 1, 1, 1, 1, 1, 1, 3, 1, 2, 1, 2, 1, 3, 1, 5, 1, 3, 1, 5, 1, 3, 1, 5, 1, 12],
        14 => seq![21, 1, 5, 1, 3, 2, 4, 1, 3, 1, 1, 1, 3, 1, 3, 1, 2, 1, 2, 1, 3, 1, 3, 1, 1, 1, 3, 1, 4, 2, 3, 1, 5, 1, 12],
        15 => seq![22, 5, 4, 1, 5, 1, 3, 1, 5, 1, 3, 1, 5, 1, 3, 1, 5, 1, 3, 1, 5, 1, 4, 5, 13],
        16 => seq![21, 6, 4, 1, 5, 1, 3, 1, 5, 1, 3, 6, 4, 1, 9, 1, 9, 1, 18],
        17 => seq![22, 5, 4, 1, 5, 1, 3, 1, 5, 1, 3, 1, 5, 1, 3, 1, 3, 1, 1, 1, 3, 1, 4, 2, 4, 6, 12],
        18 => seq![21, 6, 4, 1, 5, 1, 3, 1, 5, 1, 3, 6, 4, 1, 5, 1, 3, 1, 5, 1, 3, 1, 5, 1, 12],
        19 => seq![22, 5, 4, 1, 5, 1, 3, 1, 10, 5, 10, 1, 3, 1, 5, 1, 4, 5, 13],
        20 => seq![21, 7, 6, 1, 9, 1, 9, 1, 9, 1, 9, 1, 9, 1, 15],
        21 => seq![21, 1, 5, 1, 3, 1, 5, 1, 3, 1, 5, 1, 3, 1, 5, 1, 3, 1, 5, 1, 3, 1, 5, 1, 4, 5, 13],
        22 => seq![21, 1, 5, 1, 3, 1, 5, 1, 4, 1, 3, 1, 5, 1, 3, 1, 6, 1, 1, 1, 7, 1, 1, 1, 8, 1, 15],
        23 => seq![21, 1, 5, 1, 3, 1, 5, 1, 3, 1, 5, 1, 4, 1, 1, 1, 1, 1, 5, 1, 1, 1, 1, 1, 6, 1, 1, 1, 7, 1, 1, 1, 14],
        24 => seq![21, 1, 5, 1, 4, 1, 3, 1, 6, 1, 1, 1, 8, 1, 8, 1, 1, 1, 6, 1, 3, 1, 4, 1, 5, 1, 12],
        25 => seq![21, 1, 5, 1, 4, 1, 3, 1, 6, 1, 1, 1, 8, 1, 9, 1, 9, 1, 9, 1, 15],
        26 => seq![21, 7, 8, 1, 8, 1, 8, 1, 8, 1, 8, 1, 8, 7, 12],
        27 => seq![22, 5, 4, 1, 4, 2, 3, 1, 3, 1, 1, 1, 3, 1, 2, 1, 2, 1, 3, 1, 1, 1, 3, 1, 3, 2, 4, 1, 4, 5, 13],
        28 => seq![23, 2, 7, 1, 1, 1, 9, 1, 9, 1, 9, 1, 9, 1, 9, 1, 15],
        29 => seq![22, 5, 4, 1, 5, 1, 9, 1, 4, 5, 4, 1, 9, 1, 9, 7, 12],
        30 => seq![22, 5, 4, 1, 5, 1, 9, 1, 6, 3, 10, 1, 3, 1, 5, 1, 4, 5, 13],
        31 => seq![26, 1, 8, 2, 7, 1, 1, 1, 6, 1, 2, 1, 5, 1, 3, 1, 4, 7, 8, 1, 13],
        32 => seq![21, 7, 3, 1, 9, 1, 9, 6, 10, 1, 3, 1, 5, 1, 4, 5, 13],
        33 => seq![22, 5, 4, 1, 5, 1, 3, 1, 9, 6, 4, 1, 5, 1, 3, 1, 5, 1, 4, 5, 13],
        34 => seq![21, 7, 9, 1, 8, 1, 8, 1, 8, 1, 8, 1, 8, 1, 17],
        35 => seq![22, 5, 4, 1, 5, 1, 3, 1, 5, 1, 4, 5, 4, 1, 5, 1, 3, 1, 5, 1, 4, 5, 13],
        36 => seq![22, 5, 4, 1, 5, 1, 3, 1, 5, 1, 4, 6, 9, 1, 3, 1, 5, 1, 4, 5, 13],
        37 => seq![83, 1, 16],
        38 => seq![22, 5, 4, 1, 5, 1, 9, 1, 6, 3, 6, 1, 19, 1, 16],
        39 => seq![23, 1, 9, 1, 9, 1, 9, 1, 9, 1, 19, 1, 16],
        _ => Seq::empty(),
    }
}

/// The pixels of built-in sprite `code`; codes without a sprite give a blank one.
pub open spec fn builtin_pixels(code: u32) -> Seq<bool> {
    if 1 <= code <= 39 {
        shorthand_pixels(builtin_shorthand(code))
    } else {
        blank_pixels()
    }
}

/// Index of pixel (x, y) in row-major order.
pub open spec fn pixel_index(x: u32, y: u32) -> int {
    x + y * 10
}

proof fn lemma_shorthand_len(sh: Seq<u32>)
    ensures
        shorthand_pixels(sh).len() == runs_total(sh),
    decreases sh.len(),
{
    if sh.len() > 0 {
        lemma_shorthand_len(sh.drop_last());
    }
}

/// Every built-in shorthand covers exactly the 100 pixels of a sprite.
proof fn lemma_builtin_total(code: u32)
    requires
        1 <= code <= 39,
    ensures
        runs_total(builtin_shorthand(code)) == 100,
{
    match code {
        1 => lemma_builtin_total_1(),
        2 => lemma_builtin_total_2(),
        3 => lemma_builtin_total_3(),
        4 => lemma_builtin_total_4(),
        5 => lemma_builtin_total_5(),
        6 => lemma_builtin_total_6(),
        7 => lemma_builtin_total_7(),
        8 => lemma_builtin_total_8(),
        9 => lemma_builtin_total_9(),
        10 => lemma_builtin_total_10(),
        11 => lemma_builtin_total_11(),
        12 => lemma_builtin_total_12(),
        13 => lemma_builtin_total_13(),
        14 => lemma_builtin_total_14(),
        15 => lemma_builtin_total_15(),
        16 => lemma_builtin_total_16(),
        17 => lemma_builtin_total_17(),
        18 => lemma_builtin_total_18(),
        19 => lemma_builtin_total_19(),
        20 => lemma_builtin_total_20(),
        21 => lemma_builtin_total_21(),
        22 => lemma_builtin_total_22(),
        23 => lemma_builtin_total_23(),
        24 => lemma_builtin_total_24(),
        25 => lemma_builtin_total_25(),
        26 => lemma_builtin_total_26(),
        27 => lemma_builtin_total_27(),
        28 => lemma_builtin_total_28(),
        29 => lemma_builtin_total_29(),
        30 => lemma_builtin_total_30(),
        31 => lemma_builtin_total_31(),
        32 => lemma_builtin_total_32(),
        33 => lemma_builtin_total_33(),
        34 => lemma_builtin_total_34(),
        35 => lemma_builtin_total_35(),
        36 => lemma_builtin_total_36(),
        37 => lemma_builtin_total_37(),
        38 => lemma_builtin_total_38(),
        39 => lemma_builtin_total_39(),
        _ => {},
    }
}

proof fn lemma_builtin_total_1()
    ensures
        runs_total(builtin_shorthand(1u32)) == 100,
{
    reveal_with_fuel(runs_total, 36);
}

proof fn lemma_builtin_total_2()
    ensures
        runs_total(builtin_shorthand(2u32)) == 100,
{
    reveal_with_fuel(runs_total, 36);
}

proof fn lemma_builtin_total_3()
    ensures
        runs_total(builtin_shorthand(3u32)) == 100,
{
    reveal_with_fuel(runs_total, 36);
}

proof fn lemma_builtin_total_4()
    ensures
        runs_total(builtin_shorthand(4u32)) == 100,
{
    reveal_with_fuel(runs_total, 36);
}

proof fn lemma_builtin_total_5()
    ensures
        runs_total(builtin_shorthand(5u32)) == 100,
{
    reveal_with_fuel(runs_total, 36);
}

proof fn lemma_builtin_total_6()
    ensures
        runs_total(builtin_shorthand(6u32)) == 100,
{
    reveal_with_fuel(runs_total, 36);
}

proof fn lemma_builtin_total_7()
    ensures
        runs_total(builtin_shorthand(7u32)) == 100,
{
    reveal_with_fuel(runs_total, 36);
}

proof fn lemma_builtin_total_8()
    ensures
        runs_total(builtin_shorthand(8u32)) == 100,
{
    reveal_with_fuel(runs_total, 36);
}

proof fn lemma_builtin_total_9()
    ensures
        runs_total(builtin_shorthand(9u32)) == 100,
{
    reveal_with_fuel(runs_total, 36);
}

proof fn lemma_builtin_total_10()
    ensures
        runs_total(builtin_shorthand(10u32)) == 100,
{
    reveal_with_fuel(runs_total, 36);
}

proof fn lemma_builtin_total_11()
    ensures
        runs_total(builtin_shorthand(11u32)) == 100,
{
    reveal_with_fuel(runs_total, 36);
}

proof fn lemma_builtin_total_12()
    ensures
        runs_total(builtin_shorthand(12u32)) == 100,
{
    reveal_with_fuel(runs_total, 36);
}

proof fn lemma_builtin_total_13()
    ensures
        runs_total(builtin_shorthand(13u32)) == 100,
{
    reveal_with_fuel(runs_total, 36);
}

proof fn lemma_builtin_total_14()
    ensures
        runs_total(builtin_shorthand(14u32)) == 100,
{
    reveal_with_fuel(runs_total, 36);
}

proof fn lemma_builtin_total_15()
    ensures
        runs_total(builtin_shorthand(15u32)) == 100,
{
    reveal_with_fuel(runs_total, 36);
}

proof fn lemma_builtin_total_16()
    ensures
        runs_total(builtin_shorthand(16u32)) == 100,
{
    reveal_with_fuel(runs_total, 36);
}

proof fn lemma_builtin_total_17()
    ensures
        runs_total(builtin_shorthand(17u32)) == 100,
{
    reveal_with_fuel(runs_total, 36);
}

proof fn lemma_builtin_total_18()
    ensures
        runs_total(builtin_shorthand(18u32)) == 100,
{
    reveal_with_fuel(runs_total, 36);
}

proof fn lemma_builtin_total_19()
    ensures
        runs_total(builtin_shorthand(19u32)) == 100,
{
    reveal_with_fuel(runs_total, 36);
}

proof fn lemma_builtin_total_20()
    ensures
        runs_total(builtin_shorthand(20u32)) == 100,
{
    reveal_with_fuel(runs_total, 36);
}

proof fn lemma_builtin_total_21()
    ensures
        runs_total(builtin_shorthand(21u32)) == 100,
{
    reveal_with_fuel(runs_total, 36);
}

proof fn lemma_builtin_total_22()
    ensures
        runs_total(builtin_shorthand(22u32)) == 100,
{
    reveal_with_fuel(runs_total, 36);
}

proof fn lemma_builtin_total_23()
    ensures
        runs_total(builtin_shorthand(23u32)) == 100,
{
    reveal_with_fuel(runs_total, 36);
}

proof fn lemma_builtin_total_24()
    ensures
        runs_total(builtin_shorthand(24u32)) == 100,
{
    reveal_with_fuel(runs_total, 36);
}

proof fn lemma_builtin_total_25()
    ensures
        runs_total(builtin_shorthand(25u32)) == 100,
{
    reveal_with_fuel(runs_total, 36);
}

proof fn lemma_builtin_total_26()
    ensures
        runs_total(builtin_shorthand(26u32)) == 100,
{
    reveal_with_fuel(runs_total, 36);
}

proof fn lemma_builtin_total_27()
    ensures
        runs_total(builtin_shorthand(27u32)) == 100,
{
    reveal_with_fuel(runs_total, 36);
}

proof fn lemma_builtin_total_28()
    ensures
        runs_total(builtin_shorthand(28u32)) == 100,
{
    reveal_with_fuel(runs_total, 36);
}

proof fn lemma_builtin_total_29()
    ensures
        runs_total(builtin_shorthand(29u32)) == 100,
{
    reveal_with_fuel(runs_total, 36);
}

proof fn lemma_builtin_total_30()
    ensures
        runs_total(builtin_shorthand(30u32)) == 100,
{
    reveal_with_fuel(runs_total, 36);
}

proof fn lemma_builtin_total_31()
    ensures
        runs_total(builtin_shorthand(31u32)) == 100,
{
    reveal_with_fuel(runs_total, 36);
}

proof fn lemma_builtin_total_32()
    ensures
        runs_total(builtin_shorthand(32u32)) == 100,
{
    reveal_with_fuel(runs_total, 36);
}

proof fn lemma_builtin_total_33()
    ensures
        runs_total(builtin_shorthand(33u32)) == 100,
{
    reveal_with_fuel(runs_total, 36);
}

proof fn lemma_builtin_total_34()
    ensures
        runs_total(builtin_shorthand(34u32)) == 100,
{
    reveal_with_fuel(runs_total, 36);
}

proof fn lemma_builtin_total_35()
    ensures
        runs_total(builtin_shorthand(35u32)) == 100,
{
    reveal_with_fuel(runs_total, 36);
}

proof fn lemma_builtin_total_36()
    ensures
        runs_total(builtin_shorthand(36u32)) == 100,
{
    reveal_with_fuel(runs_total, 36);
}

proof fn lemma_builtin_total_37()
    ensures
        runs_total(builtin_shorthand(37u32)) == 100,
{
    reveal_with_fuel(runs_total, 36);
}

proof fn lemma_builtin_total_38()
    ensures
        runs_total(builtin_shorthand(38u32)) == 100,
{
    reveal_with_fuel(runs_total, 36);
}

proof fn lemma_builtin_total_39()
    ensures
        runs_total(builtin_shorthand(39u32)) == 100,
{
    reveal_with_fuel(runs_total, 36);
}


impl Sprite {
    pub open spec fn is_blank(&self) -> bool {
        forall|i: int| 0 <= i < 100 ==> !#[trigger] self.pixels@[i]
    }

    pub fn empty() -> (s: Sprite)
        ensures
            s.pixels@ == blank_pixels(),
    {
        let s = Sprite { pixels: [false; 100] };
        assert(s.pixels@ =~= blank_pixels());
        s
    }

    pub fn from_pixels(pixels: [bool; 100]) -> (s: Sprite)
        ensures
            s.pixels@ == pixels@,
    {
        Sprite { pixels }
    }

    /// A copy of the sprite.
    pub fn duplicate(&self) -> (s: Sprite)
        ensures
            s.pixels@ == self.pixels@,
    {
        Sprite { pixels: self.pixels }
    }

    // shorthand is [number of false pixels, number of true pixels, number of false pixels...]
    // until you've covered all 100 of the pixels
    pub fn from_shorthand(shorthand: Vec<u32>) -> (s: Sprite)
        requires
            runs_total(shorthand@) == 100,
        ensures
            s.pixels@ == shorthand_pixels(shorthand@),
    {
        let mut pixels = [false; 100];
        let mut idx: usize = 0;
        let mut value = false;
        let mut k: usize = 0;
        proof {
            lemma_prefix_total_le(shorthand@, 0);
        }
        while k < shorthand.len()
            invariant
                k <= shorthand.len(),
                runs_total(shorthand@) == 100,
                idx == runs_total(shorthand@.subrange(0, k as int)),
                idx <= 100,
                value == (k % 2 == 1),
                pixels@.len() == 100,
                pixels@.subrange(0, idx as int) == shorthand_pixels(
                    shorthand@.subrange(0, k as int),
                ),
            decreases shorthand.len() - k,
        {
            let elem = shorthand[k];
            let ghost prefix = shorthand@.subrange(0, k as int);
            let ghost next = shorthand@.subrange(0, k + 1);
            assert(next.drop_last() =~= prefix);
            assert(next.last() == elem);
            assert(runs_total(next) == runs_total(prefix) + elem);
            proof {
                lemma_prefix_total_le(shorthand@, k + 1);
            }
            let mut j: u32 = 0;
            while j < elem
                invariant
                    j <= elem,
                    elem == shorthand@[k as int],
                    next == shorthand@.subrange(0, k + 1),
                    next.drop_last() == prefix,
                    runs_total(next) <= 100,
                    runs_total(next) == runs_total(prefix) + elem,
                    idx == runs_total(prefix) + j,
                    value == (k % 2 == 1),
                    pixels@.len() == 100,
                    pixels@.subrange(0, idx as int) == shorthand_pixels(prefix) + Seq::new(
                        j as nat,
                        |m: int| value,
                    ),
                decreases elem - j,
            {
                let ghost before = pixels@;
                pixels[idx] = value;
                assert(pixels@.subrange(0, idx + 1) =~= before.subrange(0, idx as int).push(
                    value,
                ));
                assert(Seq::new((j + 1) as nat, |m: int| value) =~= Seq::new(
                    j as nat,
                    |m: int| value,
                ).push(value));
                idx = idx + 1;
                j = j + 1;
            }
            assert(shorthand_pixels(next) =~= shorthand_pixels(prefix) + Seq::new(
                elem as nat,
                |m: int| value,
            ));
            value = !value;
            k = k + 1;
        }
        assert(shorthand@.subrange(0, k as int) =~= shorthand@);
        proof {
            lemma_shorthand_len(shorthand@);
        }
        assert(pixels@.subrange(0, 100) =~= pixels@);
        Sprite { pixels }
    }

    pub fn from_builtin(code: u32) -> (s: Sprite)
        ensures
            s.pixels@ == builtin_pixels(code),
    {
        let shorthand: Vec<u32> = match code {
            1 => vec![24, 1, 8, 1, 1, 1, 6, 1, 3, 1, 5, 1, 3, 1, 4, 7, 3, 1, 5, 1, 3, 1, 5, 1, 12],
            2 => vec![21, 6, 4, 1, 5, 1, 3, 1, 5, 1, 3, 6, 4, 1, 5, 1, 3, 1, 5, 1, 3, 6, 13],
            3 => vec![22, 5, 4, 1, 5, 1, 3, 1, 9, 1, 9, 1, 9, 1, 5, 1, 4, 5, 13],
            4 => vec![21, 6, 4, 1, 5, 1, 3, 1, 5, 1, 3, 1, 5, 1, 3, 1, 5, 1, 3, 1, 5, 1, 3, 6, 13],
            5 => vec![21, 7, 3, 1, 9, 1, 9, 6, 4, 1, 9, 1, 9, 7, 12],
            6 => vec![21, 7, 3, 1, 9, 1, 9, 6, 4, 1, 9, 1, 9, 1, 18],
            7 => vec![22, 5, 4, 1, 5, 1, 3, 1, 9, 1, 3, 3, 3, 1, 5, 1, 3, 1, 5, 1, 4, 5, 13],
            8 => vec![21, 1, 5, 1, 3, 1, 5, 1, 3, 1, 5, 1, 3, 7, 3, 1, 5, 1, 3, 1, 5, 1, 3, 1, 5, 1, 12],
            9 => vec![23, 3, 8, 1, 9, 1, 9, 1, 9, 1, 9, 1, 8, 3, 14],
            10 => vec![27, 1, 9, 1, 9, 1, 9, 1, 9, 1, 3, 1, 5, 1, 4, 5, 13],
            11 => vec![21, 1, 4, 2, 3, 1, 2, 2, 5, 1, 1, 2, 6, 3, 7, 1, 1, 2, 6, 1, 2, 2, 5, 1, 4, 2, 12],
            12 => vec![21, 1, 9, 1, 9, 1, 9, 1, 9, 1, 9, 1, 9, 7, 12],
            13 => vec![21, 1, 5, 1, 3, 2, 3, 2, 3, 1, 1, 1, 1, 1, 1, 1, 3, 1, 2, 1, 2, 1, 3, 1, 5, 1, 3, 1, 5, 1, 3, 1, 5, 1, 12],
            14 => vec![21, 1, 5, 1, 3, 2, 4, 1, 3, 1, 1, 1, 3, 1, 3, 1, 2, 1, 2, 1, 3, 1, 3, 1, 1, 1, 3, 1, 4, 2, 3, 1, 5, 1, 12],
            15 => vec![22, 5, 4, 1, 5, 1, 3, 1, 5, 1, 3, 1, 5, 1, 3, 1, 5, 1, 3, 1, 5, 1, 4, 5, 13],
            16 => vec![21, 6, 4, 1, 5, 1, 3, 1, 5, 1, 3, 6, 4, 1, 9, 1, 9, 1, 18],
            17 => vec![22, 5, 4, 1, 5, 1, 3, 1, 5, 1, 3, 1, 5, 1, 3, 1, 3, 1, 1, 1, 3, 1, 4, 2, 4, 6, 12],
            18 => vec![21, 6, 4, 1, 5, 1, 3, 1, 5, 1, 3, 6, 4, 1, 5, 1, 3, 1, 5, 1, 3, 1, 5, 1, 12],
            19 => vec![22, 5, 4, 1, 5, 1, 3, 1, 10, 5, 10, 1, 3, 1, 5, 1, 4, 5, 13],
            20 => vec![21, 7, 6, 1, 9, 1, 9, 1, 9, 1, 9, 1, 9, 1, 15],
            21 => vec![21, 1, 5, 1, 3, 1, 5, 1, 3, 1, 5, 1, 3, 1, 5, 1, 3, 1, 5, 1, 3, 1, 5, 1, 4, 5, 13],
            22 => vec![21, 1, 5, 1, 3, 1, 5, 1, 4, 1, 3, 1, 5, 1, 3, 1, 6, 1, 1, 1, 7, 1, 1, 1, 8, 1, 15],
            23 => vec![21, 1, 5, 1, 3, 1, 5, 1, 3, 1, 5, 1, 4, 1, 1, 1, 1, 1, 5, 1, 1, 1, 1, 1, 6, 1, 1, 1, 7, 1, 1, 1, 14],
            24 => vec![21, 1, 5, 1, 4, 1, 3, 1, 6, 1, 1, 1, 8, 1, 8, 1, 1, 1, 6, 1, 3, 1, 4, 1, 5, 1, 12],
            25 => vec![21, 1, 5, 1, 4, 1, 3, 1, 6, 1, 1, 1, 8, 1, 9, 1, 9, 1, 9, 1, 15],
            26 => vec![21, 7, 8, 1, 8, 1, 8, 1, 8, 1, 8, 1, 8, 7, 12],
            27 => vec![22, 5, 4, 1, 4, 2, 3, 1, 3, 1, 1, 1, 3, 1, 2, 1, 2, 1, 3, 1, 1, 1, 3, 1, 3, 2, 4, 1, 4, 5, 13],
            28 => vec![23, 2, 7, 1, 1, 1, 9, 1, 9, 1, 9, 1, 9, 1, 9, 1, 15],
            29 => vec![22, 5, 4, 1, 5, 1, 9, 1, 4, 5, 4, 1, 9, 1, 9, 7, 12],
            30 => vec![22, 5, 4, 1, 5, 1, 9, 1, 6, 3, 10, 1, 3, 1, 5, 1, 4, 5, 13],
            31 => vec![26, 1, 8, 2, 7, 1, 1, 1, 6, 1, 2, 1, 5, 1, 3, 1, 4, 7, 8, 1, 13],
            32 => vec![21, 7, 3, 1, 9, 1, 9, 6, 10, 1, 3, 1, 5, 1, 4, 5, 13],
            33 => vec![22, 5, 4, 1, 5, 1, 3, 1, 9, 6, 4, 1, 5, 1, 3, 1, 5, 1, 4, 5, 13],
            34 => vec![21, 7, 9, 1, 8, 1, 8, 1, 8, 1, 8, 1, 8, 1, 17],
            35 => vec![22, 5, 4, 1, 5, 1, 3, 1, 5, 1, 4, 5, 4, 1, 5, 1, 3, 1, 5, 1, 4, 5, 13],
            36 => vec![22, 5, 4, 1, 5, 1, 3, 1, 5, 1, 4, 6, 9, 1, 3, 1, 5, 1, 4, 5, 13],
            37 => vec![83, 1, 16],
            38 => vec![22, 5, 4, 1, 5, 1, 9, 1, 6, 3, 6, 1, 19, 1, 16],
            39 => vec![23, 1, 9, 1, 9, 1, 9, 1, 9, 1, 19, 1, 16],
            _ => {
                return Sprite::empty();
            },
        };
        assert(shorthand@ == builtin_shorthand(code));
        proof {
            lemma_builtin_total(code);
        }
        Sprite::from_shorthand(shorthand)
    }

    pub fn enable(&mut self, x: u32, y: u32)
        requires
            x + y * 10 < 100,
        ensures
            final(self).pixels@ == old(self).pixels@.update(pixel_index(x, y), true),
    {
        let idx = (x + (y * 10)) as usize;
        self.pixels[idx] = true;
    }

    pub fn disable(&mut self, x: u32, y: u32)
        requires
            x + y * 10 < 100,
        ensures
            final(self).pixels@ == old(self).pixels@.update(pixel_index(x, y), false),
    {
        let idx = (x + (y * 10)) as usize;
        self.pixels[idx] = false;
    }

    pub fn toggle(&mut self, x: u32, y: u32)
        requires
            x + y * 10 < 100,
        ensures
            final(self).pixels@ == old(self).pixels@.update(
                pixel_index(x, y),
                !old(self).pixels@[pixel_index(x, y)],
            ),
    {
        let idx = (x + (y * 10)) as usize;
        self.pixels[idx] = !self.pixels[idx];
    }

    /// Whether no pixel of the sprite is lit.
    pub fn is_empty(&self) -> (r: bool)
        ensures
            r == self.is_blank(),
    {
        let mut i: usize = 0;
        while i < 100
            invariant
                i <= 100,
                self.pixels@.len() == 100,
                forall|k: int| 0 <= k < i ==> !#[trigger] self.pixels@[k],
            decreases 100 - i,
        {
            if self.pixels[i] {
                return false;
            }
            i = i + 1;
        }
        true
    }
}

proof fn lemma_prefix_total_le(sh: Seq<u32>, k: int)
    requires
        0 <= k <= sh.len(),
    ensures
        runs_total(sh.subrange(0, k)) <= runs_total(sh),
    decreases sh.len() - k,
{
    if k < sh.len() {
        lemma_prefix_total_le(sh, k + 1);
        assert(sh.subrange(0, k + 1).drop_last() =~= sh.subrange(0, k));
    } else {
        assert(sh.subrange(0, k) =~= sh);
    }
}

/// Toggling a pixel twice restores the sprite.
pub proof fn law_toggle_twice_restores(pixels: Seq<bool>, x: u32, y: u32)
    requires
        pixels.len() == 100,
        x + y * 10 < 100,
    ensures
        ({
            let once = pixels.update(pixel_index(x, y), !pixels[pixel_index(x, y)]);
            once.update(pixel_index(x, y), !once[pixel_index(x, y)])
        }) == pixels,
{
    let i = pixel_index(x, y);
    let once = pixels.update(i, !pixels[i]);
    assert(once.update(i, !once[i]) =~= pixels);
}

/// A shorthand whose runs add up to 100 describes a whole sprite.
pub proof fn law_shorthand_covers_sprite(sh: Seq<u32>)
    requires
        runs_total(sh) == 100,
    ensures
        shorthand_pixels(sh).len() == 100,
{
    lemma_shorthand_len(sh);
}

/// Every built-in sprite, and the blank one for other codes, has 100 pixels.
pub proof fn law_builtin_sprites_are_whole(code: u32)
    ensures
        builtin_pixels(code).len() == 100,
{
    if 1 <= code <= 39 {
        lemma_builtin_total(code);
        lemma_shorthand_len(builtin_shorthand(code));
    }
}

} // verus!
