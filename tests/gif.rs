use illu_logi::gif::{vis_gif_inner, Gif};
use weezl::encode::Encoder;
use weezl::BitOrder;

fn header(width: u16, height: u16) -> Vec<u8> {
    let mut v = vec![0x47, 0x49, 0x46, 0x38, 0x39, 0x61];
    v.extend_from_slice(&width.to_le_bytes());
    v.extend_from_slice(&height.to_le_bytes());
    v.extend_from_slice(&[0x80, 0x00, 0x00, 0xff, 0xff, 0xff, 0x00, 0x00, 0x00]);
    v.extend_from_slice(&[
        0x21, 0xff, 0x0b, 0x4e, 0x45, 0x54, 0x53, 0x43, 0x41, 0x50, 0x45, 0x32, 0x2e, 0x30, 0x03,
        0x01, 0x00, 0x00, 0x00,
    ]);
    v
}

fn frame(width: u16, height: u16, delay: u16, pixels: &[u8]) -> Vec<u8> {
    let mut v = vec![0x21, 0xf9, 0x04, 0x04];
    v.extend_from_slice(&delay.to_le_bytes());
    v.extend_from_slice(&[0x00, 0x00, 0x2c, 0x00, 0x00, 0x00, 0x00]);
    v.extend_from_slice(&width.to_le_bytes());
    v.extend_from_slice(&height.to_le_bytes());
    v.extend_from_slice(&[0x00, 0x02]);
    let enc = Encoder::new(BitOrder::Lsb, 2).encode(pixels).unwrap();
    for chunk in enc.chunks(255) {
        v.push(chunk.len() as u8);
        v.extend_from_slice(chunk);
    }
    v.push(0x00);
    v
}

#[test]
fn new_gif_has_header_and_trailer() {
    let gif = Gif::new(300, 2);
    let mut want = header(300, 2);
    want.push(0x3b);
    assert_eq!(gif.buffer, want);
    assert_eq!(gif.buffer[6], 0x2c);
    assert_eq!(gif.buffer[7], 0x01);
}

#[test]
fn add_frame_scales_cells() {
    let mut gif = Gif::new(4, 4);
    let board = vec![vec![true, false], vec![false, true]];
    assert!(gif.add(&board, 20).is_ok());
    let pixels: Vec<u8> = vec![1, 1, 0, 0, 1, 1, 0, 0, 0, 0, 1, 1, 0, 0, 1, 1];
    let mut want = header(4, 4);
    want.extend(frame(4, 4, 20, &pixels));
    want.push(0x3b);
    assert_eq!(gif.buffer, want);
}

#[test]
fn gif_of_boards() {
    let a = vec![vec![true, false], vec![false, false]];
    let b = vec![vec![true, true], vec![true, true]];
    let out = vis_gif_inner(2, 2, 2, &[a, b]);
    let mut want = header(4, 4);
    want.extend(frame(4, 4, 20, &[1, 1, 0, 0, 1, 1, 0, 0, 0, 0, 0, 0, 0, 0, 0, 0]));
    want.extend(frame(4, 4, 200, &[1; 16]));
    want.push(0x3b);
    assert_eq!(out, want);
}

#[test]
fn gif_of_no_boards() {
    let out = vis_gif_inner(3, 3, 1, &[]);
    let mut want = header(3, 3);
    want.push(0x3b);
    assert_eq!(out, want);
}
