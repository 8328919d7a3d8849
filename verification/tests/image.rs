//! Program images: the stream in the subpixels, its checksum and compressed
//! data, and the VM built from the program they describe.

use exa::image::{
    image_data_from_stream, load_image, load_image_bytes, read_image_contents, subpixel_stream, ImageData,
};
use exa::vm::exa::sprite::Sprite;
use exa::vm::exa::Mode;

fn le32(v: u32) -> [u8; 4] {
    v.to_le_bytes()
}

fn push_string(out: &mut Vec<u8>, s: &str) {
    out.extend_from_slice(&le32(s.len() as u32));
    out.extend_from_slice(s.as_bytes());
}

fn push_record(out: &mut Vec<u8>, name: &str, script: &str, local: bool, lit: &[usize]) {
    out.push(0);
    push_string(out, name);
    push_string(out, script);
    out.push(1); // view mode: maximized window
    out.push(if local { 1 } else { 0 });
    for i in 0..100 {
        out.push(if lit.contains(&i) { 1 } else { 0 });
    }
}

/// The golden image's data: the game "GOLDEN IMAGE", with EXA AB (global,
/// empty sprite, "COPY 1 X\nNOOP") and EXA CD (local, the four corners lit,
/// "NOTE I AM A GOLDEN GOD\nHALT").
fn golden_data() -> Vec<u8> {
    let mut d = Vec::new();
    d.extend_from_slice(&le32(0));
    push_string(&mut d, "PB000");
    push_string(&mut d, "GOLDEN IMAGE");
    d.extend_from_slice(&le32(0));
    d.extend_from_slice(&le32(0));
    d.extend_from_slice(&le32(0));
    d.extend_from_slice(&le32(2));
    push_record(&mut d, "AB", "COPY 1 X\nNOOP", false, &[]);
    push_record(&mut d, "CD", "NOTE I AM A GOLDEN GOD\nHALT", true, &[0, 9, 90, 99]);
    d
}

fn stream_of(data: &[u8]) -> Vec<u8> {
    let block = miniz_oxide::deflate::compress_to_vec_zlib(data, 6);
    let mut checksum = fletcher::Fletcher16::new();
    checksum.update(&block);
    let mut s = Vec::new();
    s.extend_from_slice(&le32(block.len() as u32));
    s.extend_from_slice(&le32(checksum.value() as u32));
    s.extend_from_slice(&block);
    s
}

/// Hides the stream in the low bits of subpixels, one more subpixel at the
/// end since the last one read never completes a byte.
fn subpixels_of(stream: &[u8]) -> Vec<u8> {
    let mut px = Vec::new();
    for b in stream {
        for bit in 0..8 {
            px.push(0xA0 | ((b >> bit) & 1));
        }
    }
    px.push(0xA0);
    px
}

#[test]
fn test_golden() {
    let px = subpixels_of(&stream_of(&golden_data()));
    let mut vm = load_image(&px).expect("image does not load");

    assert_eq!(vm.redshift.as_ref().unwrap().game_name, "GOLDEN IMAGE");
    let e1 = vm.get_exa("AB");
    let e2 = vm.get_exa("CD");

    assert_eq!(vm.exas[e1].mode, Mode::Global);
    assert_eq!(vm.exas[e2].mode, Mode::Local);

    let corners = Sprite::from_shorthand(vec![0, 1, 8, 1, 80, 1, 8, 1]);
    assert_eq!(vm.exas[e2].sprite.pixels, corners.pixels);
    vm.run_cycle();
    let e1 = vm.get_exa("AB");
    let x = vm.exas[e1].read_register(&mut vm.network, "x").unwrap();
    assert_eq!(x, 1);
}

#[test]
fn subpixel_stream_reads_low_bits() {
    // 17 subpixels: two whole bytes, the last subpixel dropped.
    let mut px = subpixels_of(&[0x5A, 0xFF]);
    assert_eq!(px.len(), 17);
    assert_eq!(subpixel_stream(&px), vec![0x5A, 0xFF]);
    px.pop();
    assert_eq!(subpixel_stream(&px), vec![0x5A]);
    assert_eq!(subpixel_stream(&Vec::new()), Vec::<u8>::new());
}

#[test]
fn stream_with_bad_checksum_is_refused() {
    let mut s = stream_of(&golden_data());
    s[4] = s[4].wrapping_add(1);
    assert!(image_data_from_stream(&s).is_none());
    assert!(load_image(&subpixels_of(&s)).is_none());
}

#[test]
fn stream_checksum_matches_and_data_inflates() {
    let data = golden_data();
    let d = image_data_from_stream(&stream_of(&data)).expect("stream refused");
    assert_eq!(d.pos, 0);
    assert_eq!(d.data, data);
}

#[test]
fn stream_that_is_not_zlib_is_refused() {
    let block = vec![1u8, 2, 3, 4, 5];
    let mut checksum = fletcher::Fletcher16::new();
    checksum.update(&block);
    let mut s = Vec::new();
    s.extend_from_slice(&le32(block.len() as u32));
    s.extend_from_slice(&le32(checksum.value() as u32));
    s.extend_from_slice(&block);
    assert!(image_data_from_stream(&s).is_none());
}

#[test]
fn short_or_truncated_streams_are_refused() {
    assert!(image_data_from_stream(&vec![1, 2, 3]).is_none());
    let mut s = stream_of(&golden_data());
    s.truncate(s.len() - 1);
    assert!(image_data_from_stream(&s).is_none());
}

#[test]
fn image_data_reads_values() {
    let mut d = ImageData::new(vec![1, 0, 0xFE, 0xFF, 0xFF, 0xFF, 3, 0, 0, 0, b'a', 0xFF, b'c']);
    assert!(d.read_bool());
    assert_eq!(d.read_byte(), 0);
    assert_eq!(d.read_int(), -2);
    // invalid UTF-8 is replaced, not dropped
    assert_eq!(d.read_string(), "a\u{FFFD}c");
    assert_eq!(d.pos, 13);
}

#[test]
fn contents_are_read_in_order() {
    let mut d = ImageData::new(golden_data());
    let c = read_image_contents(&mut d).expect("contents not read");
    assert_eq!(c.game_name, "GOLDEN IMAGE");
    assert_eq!(c.exas.len(), 2);
    assert_eq!(c.exas[0].name, "AB");
    assert_eq!(c.exas[0].script, "COPY 1 X\nNOOP\n");
    assert_eq!(c.exas[1].bus_mode, 1);
    assert!(c.exas[1].sprite[99]);
    assert!(!c.exas[1].sprite[1]);
}

#[test]
fn truncated_contents_are_refused() {
    let mut data = golden_data();
    data.truncate(data.len() - 10);
    let mut d = ImageData::new(data);
    assert!(read_image_contents(&mut d).is_none());
}

#[test]
fn unparsable_script_is_refused() {
    let mut d = Vec::new();
    d.extend_from_slice(&le32(0));
    push_string(&mut d, "PB000");
    push_string(&mut d, "BAD");
    d.extend_from_slice(&le32(0));
    d.extend_from_slice(&le32(0));
    d.extend_from_slice(&le32(0));
    d.extend_from_slice(&le32(1));
    push_record(&mut d, "XA", "COPY 10000 X", false, &[]);
    assert!(load_image(&subpixels_of(&stream_of(&d))).is_none());
}

#[test]
fn too_many_exas_are_refused() {
    let mut d = Vec::new();
    d.extend_from_slice(&le32(0));
    push_string(&mut d, "PB000");
    push_string(&mut d, "CROWD");
    d.extend_from_slice(&le32(0));
    d.extend_from_slice(&le32(0));
    d.extend_from_slice(&le32(0));
    d.extend_from_slice(&le32(19));
    for i in 0..19 {
        push_record(&mut d, &format!("E{}", i), "NOOP", false, &[]);
    }
    assert!(load_image(&subpixels_of(&stream_of(&d))).is_none());
}

/// A one-row RGB PNG whose subpixels are the given ones, padded to whole pixels.
fn png_of(px: &[u8]) -> Vec<u8> {
    let mut sub = px.to_vec();
    while sub.len() % 3 != 0 {
        sub.push(0xA0);
    }
    let width = (sub.len() / 3) as u32;
    let img = image::RgbImage::from_raw(width, 1, sub).expect("bad size");
    let mut out = std::io::Cursor::new(Vec::new());
    img.write_to(&mut out, image::ImageFormat::Png).expect("cannot encode");
    out.into_inner()
}

#[test]
fn png_file_bytes_load_the_program() {
    let png = png_of(&subpixels_of(&stream_of(&golden_data())));
    let vm = load_image_bytes(&png).expect("image does not load");
    assert_eq!(vm.redshift.as_ref().unwrap().game_name, "GOLDEN IMAGE");
    assert_eq!(vm.exas.len(), 2);
    assert_eq!(vm.exas[1].name, "CD");
}

#[test]
fn bytes_that_are_not_png_are_refused() {
    assert!(load_image_bytes(&vec![1, 2, 3, 4]).is_none());
    // a PNG whose pixels carry no program
    assert!(load_image_bytes(&png_of(&[0u8; 300])).is_none());
}

#[test]
fn fletcher_checksum_is_the_two_sums_mod_255() {
    let data: Vec<u8> = (0..5000u32).map(|k| (k * 37 % 256) as u8).collect();
    let (mut a, mut b) = (0u64, 0u64);
    for x in &data {
        a += *x as u64;
        b += a;
    }
    let expected = ((b % 255) * 256 + a % 255) as u16;
    let mut checksum = fletcher::Fletcher16::new();
    checksum.update(&data);
    assert_eq!(checksum.value(), expected);
}
