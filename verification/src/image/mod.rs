//! Redshift program images: PNG files whose pixels carry, in their low bits,
//! a checksummed, zlib-compressed description of the program.

use vstd::prelude::*;

use crate::parse::parse_text;
use crate::parse::parse_text_spec;
use crate::parse::preprocess::{is_preprocessable, preprocessable};
use crate::text::{str_chars, string_from_chars};
use crate::vm::cycle::lemma_wf_same_places;
use crate::vm::exa::invariants::exa_ok;
use crate::vm::exa::sprite::Sprite;
use crate::vm::exa::{extract_marks, extract_values, Exa, Mode, Registers, SpecExa};
use crate::vm::VM;

verus! {

// ---------------------------------------------------------------------------
// Outside calls
// ---------------------------------------------------------------------------

/// What `String::from_utf8_lossy` makes of a byte sequence.
pub uninterp spec fn utf8_lossy(bytes: Seq<u8>) -> Seq<char>;

/// Fletcher-16's two running sums over the bytes: the sum of the bytes, and
/// the sum of the first sum after each byte.
pub open spec fn fletcher_sums(bytes: Seq<u8>) -> (int, int)
    decreases bytes.len(),
{
    if bytes.len() == 0 {
        (0, 0)
    } else {
        let (a, b) = fletcher_sums(bytes.drop_last());
        (a + bytes.last(), b + a + bytes.last())
    }
}

/// The Fletcher-16 checksum of the bytes: both running sums modulo 255, the
/// second in the high byte.
pub open spec fn fletcher16_of(bytes: Seq<u8>) -> u16 {
    let (a, b) = fletcher_sums(bytes);
    ((b % 255) * 256 + a % 255) as u16
}

/// What `miniz_oxide::inflate::decompress_to_vec_zlib` makes of the bytes:
/// the decompressed data, or `None` where it reports an error.
pub uninterp spec fn zlib_inflated(bytes: Seq<u8>) -> Option<Seq<u8>>;

/// `String::from_utf8_lossy` on `bytes[start..end]`: the text, with invalid
/// sequences replaced; the contract only names the result.
#[verifier::external_body]
fn decode_utf8_lossy(bytes: &Vec<u8>, start: usize, end: usize) -> (s: String)
    requires
        start <= end <= bytes.len(),
    ensures
        s@ == utf8_lossy(bytes@.subrange(start as int, end as int)),
{
    String::from_utf8_lossy(&bytes[start..end]).into_owned()
}

/// `fletcher::Fletcher16` fed `bytes[start..end]` in one update: its value,
/// which the crate's folding reduction keeps equal to both running sums
/// modulo 255, the second in the high byte.
#[verifier::external_body]
fn fletcher16(bytes: &Vec<u8>, start: usize, end: usize) -> (r: u16)
    requires
        start <= end <= bytes.len(),
    ensures
        r == fletcher16_of(bytes@.subrange(start as int, end as int)),
{
    let mut checksum = fletcher::Fletcher16::new();
    checksum.update(&bytes[start..end]);
    checksum.value()
}

/// `miniz_oxide::inflate::decompress_to_vec_zlib` on `bytes[start..end]`: the
/// data, or `None` for any error it reports. The contract only names it.
#[verifier::external_body]
fn inflate_zlib(bytes: &Vec<u8>, start: usize, end: usize) -> (r: Option<Vec<u8>>)
    requires
        start <= end <= bytes.len(),
    ensures
        match r {
            Some(v) => zlib_inflated(bytes@.subrange(start as int, end as int)) == Some(v@),
            None => zlib_inflated(bytes@.subrange(start as int, end as int)) is None,
        },
{
    match miniz_oxide::inflate::decompress_to_vec_zlib(&bytes[start..end]) {
        Ok(v) => Some(v),
        Err(_) => None,
    }
}

// ---------------------------------------------------------------------------
// Reading the decompressed data
// ---------------------------------------------------------------------------

/// A little-endian unsigned value of four bytes.
pub open spec fn le_u32(d: Seq<u8>, p: int) -> int {
    d[p] + d[p + 1] * 256 + d[p + 2] * 65536 + d[p + 3] * 16777216
}

/// A little-endian two's-complement value of four bytes.
pub open spec fn le_i32(d: Seq<u8>, p: int) -> int {
    let u = le_u32(d, p);
    if u < 0x8000_0000 {
        u
    } else {
        u - 0x1_0000_0000
    }
}

/// A string at `p`: its length as a four-byte value, then that many bytes
/// of UTF-8; the text and where the next field starts.
pub open spec fn string_at(d: Seq<u8>, p: int) -> Option<(Seq<char>, int)> {
    if 0 <= p && p + 4 <= d.len() && le_i32(d, p) >= 0 && p + 4 + le_i32(d, p) <= d.len() {
        let n = le_i32(d, p);
        Some((utf8_lossy(d.subrange(p + 4, p + 4 + n)), p + 4 + n))
    } else {
        None
    }
}

/// A cursor over decompressed image data.
pub struct ImageData {
    pub pos: usize,
    pub data: Vec<u8>,
}

impl ImageData {
    pub fn new(data: Vec<u8>) -> (r: ImageData)
        ensures
            r.pos == 0,
            r.data@ == data@,
    {
        ImageData { pos: 0, data }
    }

    pub fn read_bool(&mut self) -> (value: bool)
        requires
            old(self).pos < old(self).data.len(),
        ensures
            value == (old(self).data@[old(self).pos as int] == 1),
            final(self).pos == old(self).pos + 1,
            final(self).data@ == old(self).data@,
    {
        let value = self.data[self.pos] == 1;
        self.pos = self.pos + 1;
        value
    }

    pub fn read_byte(&mut self) -> (value: u8)
        requires
            old(self).pos < old(self).data.len(),
        ensures
            value == old(self).data@[old(self).pos as int],
            final(self).pos == old(self).pos + 1,
            final(self).data@ == old(self).data@,
    {
        let value = self.data[self.pos];
        self.pos = self.pos + 1;
        value
    }

    /// Four bytes, little-endian.
    pub fn read_int(&mut self) -> (value: i32)
        requires
            old(self).pos + 4 <= old(self).data.len(),
        ensures
            value == le_i32(old(self).data@, old(self).pos as int),
            final(self).pos == old(self).pos + 4,
            final(self).data@ == old(self).data@,
    {
        let p = self.pos;
        let b0 = self.data[p] as u64;
        let b1 = self.data[p + 1] as u64;
        let b2 = self.data[p + 2] as u64;
        let b3 = self.data[p + 3] as u64;
        let u: u64 = b0 + b1 * 256 + b2 * 65536 + b3 * 16777216;
        self.pos = p + 4;
        if u < 0x8000_0000 {
            u as i32
        } else {
            (u as i64 - 0x1_0000_0000) as i32
        }
    }

    /// A length-prefixed string, decoded as UTF-8 with invalid sequences replaced.
    pub fn read_string(&mut self) -> (value: String)
        requires
            string_at(old(self).data@, old(self).pos as int) is Some,
        ensures
            string_at(old(self).data@, old(self).pos as int) == Some((value@, final(self).pos as int)),
            final(self).data@ == old(self).data@,
    {
        let n = self.read_int();
        assert(n >= 0);
        let length = n as usize;
        assert(length == n);
        let start = self.pos;
        let total = self.data.len();
        assert(start + length <= total);
        let value = decode_utf8_lossy(&self.data, start, start + length);
        self.pos = start + length;
        value
    }
}

/// The red, green and blue subpixels of every pixel of a PNG file, in order,
/// as the `image` crate decodes it, or `None` where it reports an error.
pub uninterp spec fn png_rgb_subpixels(bytes: Seq<u8>) -> Option<Seq<u8>>;

/// `image::load_from_memory_with_format` with the PNG format, then the image
/// as 8-bit RGB (`into_rgb8().into_raw()`): the subpixels, or `None` for any
/// error it reports. The contract only names the result.
#[verifier::external_body]
fn decode_png_rgb(bytes: &Vec<u8>) -> (r: Option<Vec<u8>>)
    ensures
        match r {
            Some(v) => png_rgb_subpixels(bytes@) == Some(v@),
            None => png_rgb_subpixels(bytes@) is None,
        },
{
    match ::image::load_from_memory_with_format(bytes, ::image::ImageFormat::Png) {
        Ok(img) => Some(img.into_rgb8().into_raw()),
        Err(_) => None,
    }
}

// ---------------------------------------------------------------------------
// The bit stream in the pixels
// ---------------------------------------------------------------------------

pub open spec fn pow2(n: nat) -> nat
    decreases n,
{
    if n == 0 {
        1
    } else {
        2 * pow2((n - 1) as nat)
    }
}

/// The value of the low bits of `n` subpixels from `start`, the first one
/// the least significant.
pub open spec fn bits_value(s: Seq<u8>, start: int, n: nat) -> nat
    decreases n,
{
    if n == 0 {
        0
    } else {
        bits_value(s, start, (n - 1) as nat) + (s[start + n - 1] % 2) as nat * pow2((n - 1) as nat)
    }
}

/// How many whole bytes the stream keeps of `n` subpixels: a byte is only
/// written once the next subpixel is read, so the last one is dropped.
pub open spec fn stream_len(n: int) -> int {
    if n <= 0 {
        0
    } else {
        (n - 1) / 8
    }
}

proof fn lemma_bits_bound(s: Seq<u8>, start: int, n: nat)
    requires
        n <= 8,
    ensures
        bits_value(s, start, n) < pow2(n),
        n <= 8 ==> pow2(n) <= 256,
    decreases n,
{
    reveal_with_fuel(pow2, 9);
    if n > 0 {
        lemma_bits_bound(s, start, (n - 1) as nat);
    }
}

proof fn lemma_bits_step(s: Seq<u8>, start: int, n: nat)
    ensures
        bits_value(s, start, n + 1) == bits_value(s, start, n) + if s[start + n] % 2 == 1 {
            pow2(n)
        } else {
            0
        },
        pow2(n + 1) == 2 * pow2(n),
{
    assert(bits_value(s, start, n + 1) == bits_value(s, start, n) + (s[start + n] % 2) as nat * pow2(n));
    if s[start + n] % 2 == 1 {
        assert((s[start + n] % 2) as nat * pow2(n) == pow2(n));
    } else {
        assert((s[start + n] % 2) as nat * pow2(n) == 0);
    }
}

/// The bytes hidden in the low bits of the image's subpixels (red, green and
/// blue of each pixel, in order), eight to a byte, least significant first.
pub fn subpixel_stream(subpixels: &Vec<u8>) -> (r: Vec<u8>)
    ensures
        r@.len() == stream_len(subpixels@.len() as int),
        forall|j: int| 0 <= j < r@.len() ==> r@[j] == #[trigger] bits_value(subpixels@, 8 * j, 8),
{
    let mut stream: Vec<u8> = Vec::new();
    let mut pos: usize = 0;
    let mut this: u8 = 0;
    let mut weight: u16 = 1;
    let mut i: usize = 0;
    while i < subpixels.len()
        invariant
            i <= subpixels.len(),
            stream@.len() == stream_len(i as int),
            forall|j: int| 0 <= j < stream@.len() ==> stream@[j] == #[trigger] bits_value(subpixels@, 8 * j, 8),
            i == 0 ==> pos == 0,
            i > 0 ==> pos == (i - 1) % 8 + 1,
            pos <= 8,
            weight == pow2(pos as nat),
            8 * stream@.len() + pos == i,
            this == bits_value(subpixels@, 8 * stream@.len() as int, pos as nat),
        decreases subpixels.len() - i,
    {
        proof {
            lemma_bits_bound(subpixels@, 8 * stream@.len() as int, pos as nat);
        }
        if pos == 8 {
            stream.push(this);
            this = 0;
            pos = 0;
            weight = 1;
            assert(bits_value(subpixels@, 8 * stream@.len() as int, 0) == 0);
            assert(pow2(0) == 1);
        }
        let ghost start = 8 * stream@.len() as int;
        assert(start + pos == i);
        proof {
            lemma_bits_bound(subpixels@, start, (pos + 1) as nat);
            lemma_bits_step(subpixels@, start, pos as nat);
        }
        if subpixels[i] % 2 == 1 {
            this = this + weight as u8;
        }
        pos = pos + 1;
        weight = weight * 2;
        i = i + 1;
    }
    stream
}

/// The compressed block of a stream: four bytes of length, four of
/// checksum, then the block, which must match the checksum.
pub open spec fn stream_block(stream: Seq<u8>) -> Option<Seq<u8>> {
    if stream.len() < 8 || 8 + le_u32(stream, 0) > stream.len() {
        None
    } else {
        let block = stream.subrange(8, 8 + le_u32(stream, 0));
        if fletcher16_of(block) as int != le_u32(stream, 4) {
            None
        } else {
            Some(block)
        }
    }
}

/// The image data in a stream: the decompressed block, where the stream is
/// whole, its checksum matches and the block decompresses.
pub open spec fn stream_data(stream: Seq<u8>) -> Option<Seq<u8>> {
    match stream_block(stream) {
        Some(block) => zlib_inflated(block),
        None => None,
    }
}

fn le_u32_at(d: &Vec<u8>, p: usize) -> (r: u64)
    requires
        p + 4 <= d.len(),
    ensures
        r == le_u32(d@, p as int),
{
    d[p] as u64 + d[p + 1] as u64 * 256 + d[p + 2] as u64 * 65536 + d[p + 3] as u64 * 16777216
}

/// Checks and decompresses the data carried by a stream.
pub fn image_data_from_stream(stream: &Vec<u8>) -> (r: Option<ImageData>)
    ensures
        match r {
            Some(d) => stream_data(stream@) == Some(d.data@) && d.pos == 0,
            None => stream_data(stream@) is None,
        },
{
    if stream.len() < 8 {
        return None;
    }
    let length = le_u32_at(stream, 0);
    let checksum = le_u32_at(stream, 4);
    if length > (stream.len() - 8) as u64 {
        return None;
    }
    let end = 8 + length as usize;
    let got = fletcher16(stream, 8, end);
    if got as u64 != checksum {
        return None;
    }
    match inflate_zlib(stream, 8, end) {
        Some(v) => Some(ImageData::new(v)),
        None => None,
    }
}

// ---------------------------------------------------------------------------
// The program in the data
// ---------------------------------------------------------------------------

/// One EXA of an image: its name, its script, its message bus mode (1 for
/// local) and its sprite.
pub struct ExaRecord {
    pub name: String,
    pub script: String,
    pub bus_mode: u8,
    pub sprite: [bool; 100],
}

pub struct SpecRecord {
    pub name: Seq<char>,
    pub script: Seq<char>,
    pub bus_mode: u8,
    pub sprite: Seq<bool>,
}

impl View for ExaRecord {
    type V = SpecRecord;

    open spec fn view(&self) -> SpecRecord {
        SpecRecord { name: self.name@, script: self.script@, bus_mode: self.bus_mode, sprite: self.sprite@ }
    }
}

/// What an image holds: the game's name and its EXAs.
pub struct ImageContents {
    pub game_name: String,
    pub exas: Vec<ExaRecord>,
}

pub struct SpecContents {
    pub game_name: Seq<char>,
    pub exas: Seq<SpecRecord>,
}

pub open spec fn records_view(v: Seq<ExaRecord>) -> Seq<SpecRecord> {
    v.map_values(|r: ExaRecord| r@)
}

impl View for ImageContents {
    type V = SpecContents;

    open spec fn view(&self) -> SpecContents {
        SpecContents { game_name: self.game_name@, exas: records_view(self.exas@) }
    }
}

/// A script ends with a line break; one is added where it does not, which
/// the parser needs.
pub open spec fn with_newline(s: Seq<char>) -> Seq<char> {
    if s.len() > 0 && s.last() == '\n' {
        s
    } else {
        s.push('\n')
    }
}

pub open spec fn sprite_at(d: Seq<u8>, q: int) -> Seq<bool> {
    Seq::new(100, |i: int| d[q + i] == 1)
}

/// An EXA at `p`: a byte, the name, the script, a byte for the view mode, a
/// byte for the bus mode and a byte for each of the 100 pixels of the sprite
/// (1 for lit).
pub open spec fn record_at(d: Seq<u8>, p: int) -> Option<(SpecRecord, int)> {
    if !(0 <= p && p + 1 <= d.len()) {
        None
    } else {
        match string_at(d, p + 1) {
            None => None,
            Some((name, q)) => match string_at(d, q) {
                None => None,
                Some((script, q2)) => if q2 + 102 <= d.len() {
                    Some(
                        (
                            SpecRecord {
                                name,
                                script: with_newline(script),
                                bus_mode: d[q2 + 1],
                                sprite: sprite_at(d, q2 + 2),
                            },
                            q2 + 102,
                        ),
                    )
                } else {
                    None
                },
            },
        }
    }
}

/// `k` EXAs from `p` on, and where they end.
pub open spec fn records_from(d: Seq<u8>, p: int, k: nat) -> Option<(Seq<SpecRecord>, int)>
    decreases k,
{
    if k == 0 {
        Some((Seq::empty(), p))
    } else {
        match records_from(d, p, (k - 1) as nat) {
            None => None,
            Some((rs, q)) => match record_at(d, q) {
                None => None,
                Some((r, q2)) => Some((rs.push(r), q2)),
            },
        }
    }
}

/// The layout of image data: a four-byte value, the level's id, the game's
/// name, three four-byte values, the number of EXAs, then the EXAs.
pub open spec fn contents_of(d: Seq<u8>) -> Option<SpecContents> {
    if d.len() < 4 {
        None
    } else {
        match string_at(d, 4) {
            None => None,
            Some((_, p1)) => match string_at(d, p1) {
                None => None,
                Some((game_name, p2)) => if p2 + 16 > d.len() {
                    None
                } else {
                    let count = le_i32(d, p2 + 12);
                    match records_from(d, p2 + 16, if count < 0 { 0nat } else { count as nat }) {
                        None => None,
                        Some((exas, _)) => Some(SpecContents { game_name, exas }),
                    }
                },
            },
        }
    }
}

impl ImageData {
    /// Whether a string can be read at the cursor.
    fn string_ahead(&self) -> (r: bool)
        ensures
            r == (string_at(self.data@, self.pos as int) is Some),
    {
        let len = self.data.len();
        if len < 4 || self.pos > len - 4 {
            return false;
        }
        let p = self.pos;
        let b0 = self.data[p] as u64;
        let b1 = self.data[p + 1] as u64;
        let b2 = self.data[p + 2] as u64;
        let b3 = self.data[p + 3] as u64;
        let u: u64 = b0 + b1 * 256 + b2 * 65536 + b3 * 16777216;
        if u >= 0x8000_0000 {
            return false;
        }
        u <= (len - p - 4) as u64
    }

    fn record(&mut self) -> (r: Option<ExaRecord>)
        ensures
            final(self).data@ == old(self).data@,
            match r {
                Some(rec) => record_at(old(self).data@, old(self).pos as int) == Some((rec@, final(self).pos as int)),
                None => record_at(old(self).data@, old(self).pos as int) is None,
            },
    {
        let ghost d = self.data@;
        let ghost p = self.pos as int;
        if self.pos >= self.data.len() {
            return None;
        }
        let _unknown = self.read_byte();
        if !self.string_ahead() {
            return None;
        }
        let name = self.read_string();
        if !self.string_ahead() {
            return None;
        }
        let mut script = self.read_string();
        let len = self.data.len();
        if len < 102 || self.pos > len - 102 {
            return None;
        }
        let chars = str_chars(script.as_str());
        if chars.len() == 0 || chars[chars.len() - 1] != '\n' {
            crate::text::string_push(&mut script, '\n');
        }
        let _view_mode = self.read_byte();
        let bus_mode = self.read_byte();
        let mut sprite = [false; 100];
        let ghost q = self.pos as int;
        let mut i: usize = 0;
        while i < 100
            invariant
                i <= 100,
                self.data@ == d,
                self.pos == q + i,
                q + 100 <= d.len(),
                sprite@.len() == 100,
                forall|k: int| 0 <= k < i ==> sprite@[k] == (d[q + k] == 1),
            decreases 100 - i,
        {
            sprite[i] = self.read_bool();
            i = i + 1;
        }
        let rec = ExaRecord { name, script, bus_mode, sprite };
        assert(rec@.sprite =~= sprite_at(d, q));
        Some(rec)
    }
}

/// Reads what an image holds: the game's name and its EXAs.
pub fn read_image_contents(image_data: &mut ImageData) -> (r: Option<ImageContents>)
    requires
        old(image_data).pos == 0,
    ensures
        match r {
            Some(c) => contents_of(old(image_data).data@) == Some(c@),
            None => contents_of(old(image_data).data@) is None,
        },
{
    let ghost d = image_data.data@;
    let len = image_data.data.len();
    if len < 4 {
        return None;
    }
    let _unknown_1 = image_data.read_int();
    if !image_data.string_ahead() {
        return None;
    }
    let _level_id = image_data.read_string();
    if !image_data.string_ahead() {
        return None;
    }
    let game_name = image_data.read_string();
    if len < 16 || image_data.pos > len - 16 {
        return None;
    }
    let _unknown_2 = image_data.read_int();
    let _solution_length = image_data.read_int();
    let _unknown_3 = image_data.read_int();
    let exa_count = image_data.read_int();
    let count: u32 = if exa_count < 0 { 0 } else { exa_count as u32 };
    assert(count as int == (if exa_count < 0 { 0 } else { exa_count as int }));
    let ghost p0 = image_data.pos as int;
    assert(contents_of(d) == match records_from(d, p0, count as nat) {
        None => None,
        Some((exas, _)) => Some(SpecContents { game_name: game_name@, exas }),
    });
    let mut exas: Vec<ExaRecord> = Vec::new();
    let mut k: u32 = 0;
    while k < count
        invariant
            k <= count,
            image_data.data@ == d,
            d == old(image_data).data@,
            contents_of(d) == match records_from(d, p0, count as nat) {
                None => None,
                Some((exas, _)) => Some(SpecContents { game_name: game_name@, exas }),
            },
            records_from(d, p0, k as nat) == Some((records_view(exas@), image_data.pos as int)),
        decreases count - k,
    {
        let ghost before = records_view(exas@);
        match image_data.record() {
            Some(rec) => {
                exas.push(rec);
                assert(records_view(exas@) =~= before.push(rec@));
            },
            None => {
                proof {
                    lemma_records_none(d, p0, (k + 1) as nat, count as nat);
                }
                return None;
            },
        }
        k = k + 1;
    }
    Some(ImageContents { game_name, exas })
}

/// Once a record is missing, every longer run of records is missing too.
proof fn lemma_records_none(d: Seq<u8>, p: int, k: nat, n: nat)
    requires
        records_from(d, p, k) is None,
        k <= n,
    ensures
        records_from(d, p, n) is None,
    decreases n - k,
{
    if k < n {
        lemma_records_none(d, p, k + 1, n);
    }
}

// ---------------------------------------------------------------------------
// Loading
// ---------------------------------------------------------------------------

/// A script that spawning accepts: its macros expand and it parses.
pub open spec fn script_ok(s: Seq<char>) -> bool {
    preprocessable(s) && parse_text_spec(s) is Ok
}

/// Whether an EXA can be spawned with this script.
pub fn script_accepted(script: &str) -> (r: bool)
    ensures
        r == script_ok(script@),
{
    if !is_preprocessable(script) {
        return false;
    }
    match parse_text(script) {
        Ok(_) => true,
        Err(_) => false,
    }
}

pub open spec fn bus_mode_of(rec: SpecRecord) -> Mode {
    if rec.bus_mode == 1 {
        Mode::Local
    } else {
        Mode::Global
    }
}

/// How an EXA of the image starts: spawned in core with the record's name and
/// script, then given the record's sprite and bus mode.
pub open spec fn loaded_exa(e: SpecExa, rec: SpecRecord) -> bool {
    &&& e.name == rec.name
    &&& e.base_name == rec.name
    &&& e.host == 0
    &&& e.sprite == rec.sprite
    &&& e.mode == bus_mode_of(rec)
    &&& e.instructions == extract_marks(extract_values(parse_text_spec(rec.script)->Ok_0).0).0
    &&& e.labels == extract_marks(extract_values(parse_text_spec(rec.script)->Ok_0).0).1
    &&& e.pc == 0
    &&& e.error is None
    &&& e.registers == Registers::initial_redshift()
}

/// Whether every script of the image is accepted.
fn scripts_accepted(contents: &ImageContents) -> (r: bool)
    ensures
        r == forall|i: int| 0 <= i < contents@.exas.len() ==> script_ok(#[trigger] contents@.exas[i].script),
{
    let mut i: usize = 0;
    while i < contents.exas.len()
        invariant
            i <= contents@.exas.len(),
            forall|k: int| 0 <= k < i ==> script_ok(#[trigger] contents@.exas[k].script),
        decreases contents@.exas.len() - i,
    {
        assert(contents@.exas[i as int] == contents.exas[i as int]@);
        if !script_accepted(contents.exas[i].script.as_str()) {
            assert(!script_ok(contents@.exas[i as int].script));
            return false;
        }
        i = i + 1;
    }
    true
}

/// Spawns the EXA a record describes in core, then gives it the record's
/// sprite and bus mode.
fn load_record(vm: &mut VM, rec: &ExaRecord)
    requires
        old(vm)@.wf(),
        old(vm)@.net.hosts.len() > 0,
        old(vm)@.net.hosts[0].occupied < old(vm)@.net.hosts[0].capacity,
        script_ok(rec@.script),
    ensures
        final(vm)@.wf(),
        final(vm)@.cycle == old(vm)@.cycle,
        final(vm).redshift == old(vm).redshift,
        final(vm)@.net.hosts.len() == old(vm)@.net.hosts.len(),
        final(vm)@.net.hosts[0].capacity == old(vm)@.net.hosts[0].capacity,
        final(vm)@.net.hosts[0].occupied == old(vm)@.net.hosts[0].occupied + 1,
        final(vm)@.exas.len() == old(vm)@.exas.len() + 1,
        forall|k: int| 0 <= k < old(vm)@.exas.len() ==> (#[trigger] final(vm)@.exas[k]) == old(vm)@.exas[k],
        loaded_exa(final(vm)@.exas.last(), rec@),
{
    let ghost v0 = vm@;
    assert(v0.exas.len() == vm.exas.len());
    let res = Exa::spawn(vm, 0, crate::text::copy_string(&rec.name), true, rec.script.as_str());
    let idx = match res {
        Ok(idx) => idx,
        Err(_) => {
            return ;
        },
    };
    let ghost v1 = vm@;
    assert(idx == v0.exas.len());
    assert(v1.exas.len() == v0.exas.len() + 1);
    assert(v1.exas.len() == vm.exas.len());
    assert(idx < vm.exas.len());
    vm.exas[idx].sprite = Sprite::from_pixels(rec.sprite);
    if rec.bus_mode == 1 {
        vm.exas[idx].mode = Mode::Local;
    }
    proof {
        let ghost e = SpecExa { sprite: rec@.sprite, mode: bus_mode_of(rec@), ..v1.exas[idx as int] };
        assert(vm@.exas =~= v1.exas.update(idx as int, e));
        assert forall|k: int| 0 <= k < vm@.exas.len() implies (#[trigger] vm@.exas[k]).host == v1.exas[k].host
            && exa_ok(vm@.exas[k], v1.net) by {
            assert(exa_ok(v1.exas[k], v1.net));
        }
        lemma_wf_same_places(v1.net, v1.exas, vm@.exas);
    }
}

/// A Redshift VM running the program an image holds: each EXA is spawned in
/// core, in order, then takes its sprite and bus mode. Core holds 18 EXAs,
/// and every script must be accepted.
pub fn vm_from_image(contents: &ImageContents) -> (r: Option<VM>)
    ensures
        (r is Some) == (contents@.exas.len() <= 18 && forall|i: int|
            0 <= i < contents@.exas.len() ==> script_ok(#[trigger] contents@.exas[i].script)),
        r matches Some(vm) ==> {
            &&& vm@.wf()
            &&& vm.redshift matches Some(env) && env.game_name@ == contents@.game_name && env.input_host == 1
                && env.sound_host == 2
            &&& vm@.cycle == 0
            &&& vm@.exas.len() == contents@.exas.len()
            &&& forall|i: int| 0 <= i < vm@.exas.len() ==> loaded_exa(#[trigger] vm@.exas[i], contents@.exas[i])
        },
{
    if contents.exas.len() > 18 || !scripts_accepted(contents) {
        return None;
    }
    let mut vm = VM::new_redshift();
    let n = contents.exas.len();
    let mut i: usize = 0;
    while i < n
        invariant
            i <= n,
            n == contents@.exas.len(),
            n <= 18,
            forall|k: int| 0 <= k < n ==> script_ok(#[trigger] contents@.exas[k].script),
            vm@.wf(),
            vm@.cycle == 0,
            vm.redshift matches Some(env) && env.game_name@ == Seq::<char>::empty() && env.input_host == 1
                && env.sound_host == 2,
            vm@.net.hosts.len() > 0,
            vm@.net.hosts[0].capacity == 18,
            vm@.net.hosts[0].occupied == i,
            vm@.exas.len() == i,
            forall|k: int| 0 <= k < i ==> loaded_exa(#[trigger] vm@.exas[k], contents@.exas[k]),
        decreases n - i,
    {
        let ghost v0 = vm@;
        assert(contents@.exas[i as int] == contents.exas[i as int]@);
        load_record(&mut vm, &contents.exas[i]);
        proof {
            assert forall|k: int| 0 <= k < i + 1 implies loaded_exa(#[trigger] vm@.exas[k], contents@.exas[k]) by {
                if k < i {
                    assert(vm@.exas[k] == v0.exas[k]);
                }
            }
        }
        i = i + 1;
    }
    match &mut vm.redshift {
        Some(env) => {
            env.game_name = crate::text::copy_string(&contents.game_name);
        },
        None => {},
    }
    Some(vm)
}

/// The program an image's subpixels carry, where they carry one.
pub open spec fn image_program(subpixels: Seq<u8>) -> Option<SpecContents> {
    match stream_data(subpixel_stream_spec(subpixels)) {
        Some(data) => contents_of(data),
        None => None,
    }
}

/// A program that a Redshift VM can run: core holds its EXAs and every
/// script is accepted.
pub open spec fn loadable(c: SpecContents) -> bool {
    c.exas.len() <= 18 && forall|i: int| 0 <= i < c.exas.len() ==> script_ok(#[trigger] c.exas[i].script)
}

/// A Redshift VM set up to run the program: every EXA spawned in core from
/// its record, in order, nothing run yet, and the game's name kept.
pub open spec fn runs_program(vm: VM, c: SpecContents) -> bool {
    &&& vm@.wf()
    &&& vm.redshift matches Some(env) && env.game_name@ == c.game_name && env.input_host == 1
        && env.sound_host == 2
    &&& vm@.cycle == 0
    &&& vm@.exas.len() == c.exas.len()
    &&& forall|i: int| 0 <= i < vm@.exas.len() ==> loaded_exa(#[trigger] vm@.exas[i], c.exas[i])
}

/// The VM an image holds: the image's subpixels (red, green and blue of each
/// pixel, in order) carry a stream, the stream carries the data, and the
/// data describes the program.
pub fn load_image(subpixels: &Vec<u8>) -> (r: Option<VM>)
    ensures
        (r is Some) == (image_program(subpixels@) matches Some(c) && loadable(c)),
        r matches Some(vm) ==> image_program(subpixels@) matches Some(c) && runs_program(vm, c),
{
    let stream = subpixel_stream(subpixels);
    proof {
        lemma_subpixel_stream_spec(subpixels@, stream@);
    }
    let mut data = match image_data_from_stream(&stream) {
        Some(d) => d,
        None => {
            return None;
        },
    };
    let contents = match read_image_contents(&mut data) {
        Some(c) => c,
        None => {
            return None;
        },
    };
    vm_from_image(&contents)
}

/// The VM a PNG file holds, given the file's bytes: the file decodes to
/// subpixels, and they carry a program that a Redshift VM can run.
pub fn load_image_bytes(bytes: &Vec<u8>) -> (r: Option<VM>)
    ensures
        (r is Some) == (png_rgb_subpixels(bytes@) matches Some(px) && image_program(px) matches Some(c)
            && loadable(c)),
        r matches Some(vm) ==> png_rgb_subpixels(bytes@) matches Some(px) && image_program(px) matches Some(c)
            && runs_program(vm, c),
{
    match decode_png_rgb(bytes) {
        Some(px) => load_image(&px),
        None => None,
    }
}

/// The stream the subpixels carry.
pub open spec fn subpixel_stream_spec(s: Seq<u8>) -> Seq<u8> {
    Seq::new(stream_len(s.len() as int) as nat, |j: int| bits_value(s, 8 * j, 8) as u8)
}

proof fn lemma_subpixel_stream_spec(s: Seq<u8>, r: Seq<u8>)
    requires
        r.len() == stream_len(s.len() as int),
        forall|j: int| 0 <= j < r.len() ==> r[j] == #[trigger] bits_value(s, 8 * j, 8),
    ensures
        r == subpixel_stream_spec(s),
{
    assert(r =~= subpixel_stream_spec(s));
}

} // verus!
