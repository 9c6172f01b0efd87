//! An animated GIF of filled/empty boards: a two-colour palette, one frame
//! per board, looping forever.
use vstd::prelude::*;
use vstd::arithmetic::div_mod::{lemma_div_is_ordered, lemma_fundamental_div_mod_converse};
use weezl::encode::Encoder;
use weezl::{BitOrder, LzwError};

verus! {

#[verifier::external_type_specification]
#[verifier::external_body]
pub struct ExLzwError(LzwError);

/// The LZW code stream of `data` for GIF image data with 2-bit symbols.
pub uninterp spec fn lzw_gif(data: Seq<u8>) -> Seq<u8>;

/// Relies on weezl's `Encoder::new(BitOrder::Lsb, 2).encode`: the code
/// stream depends on `data` alone, and the only error, `InvalidCode`, comes
/// exactly when a byte does not fit in the 2-bit symbol size.
#[verifier::external_body]
fn lzw_encode(data: &Vec<u8>) -> (r: Result<Vec<u8>, LzwError>)
    ensures
        r is Ok <==> forall|i: int| 0 <= i < data@.len() ==> data@[i] < 4,
        r is Ok ==> r->Ok_0@ == lzw_gif(data@),
{
    Encoder::new(BitOrder::Lsb, 2).encode(data)
}

/// A 16-bit value, least significant byte first.
pub open spec fn le16(v: u16) -> Seq<u8> {
    seq![(v % 256) as u8, (v / 256) as u8]
}

/// Signature, logical screen descriptor and the black/white palette.
pub open spec fn header(width: u16, height: u16) -> Seq<u8> {
    seq![0x47u8, 0x49, 0x46, 0x38, 0x39, 0x61] + le16(width) + le16(height) + seq![
        0x80u8,
        0x00,
        0x00,
        0xff,
        0xff,
        0xff,
        0x00,
        0x00,
        0x00,
    ]
}

/// The application extension that makes the animation loop forever.
pub open spec fn looping() -> Seq<u8> {
    seq![
        0x21u8,
        0xff,
        0x0b,
        0x4e,
        0x45,
        0x54,
        0x53,
        0x43,
        0x41,
        0x50,
        0x45,
        0x32,
        0x2e,
        0x30,
        0x03,
        0x01,
        0x00,
        0x00,
        0x00,
    ]
}

/// The byte that ends a GIF stream.
pub const TRAILER: u8 = 0x3b;

/// Graphic control extension with a frame delay in hundredths of a second.
pub open spec fn control(delay: u16) -> Seq<u8> {
    seq![0x21u8, 0xf9, 0x04, 0x04] + le16(delay) + seq![0x00u8, 0x00]
}

/// Image descriptor of a full-screen frame, followed by the LZW minimum
/// code size.
pub open spec fn descriptor(width: u16, height: u16) -> Seq<u8> {
    seq![0x2cu8, 0x00, 0x00, 0x00, 0x00] + le16(width) + le16(height) + seq![0x00u8, 0x02]
}

/// `enc` cut into data sub-blocks of at most 255 bytes, each led by its length.
pub open spec fn sub_blocks(enc: Seq<u8>) -> Seq<u8>
    decreases enc.len(),
{
    if enc.len() == 0 {
        seq![]
    } else if enc.len() <= 255 {
        seq![enc.len() as u8] + enc
    } else {
        seq![255u8] + enc.subrange(0, 255) + sub_blocks(enc.subrange(255, enc.len() as int))
    }
}

/// One frame: control extension, descriptor, image data and block terminator.
pub open spec fn frame(width: u16, height: u16, delay: u16, data: Seq<u8>) -> Seq<u8> {
    control(delay) + descriptor(width, height) + sub_blocks(lzw_gif(data)) + seq![0u8]
}

/// A board drawn at `width`×`height` pixels fits: it has at least one row,
/// all rows are equally long and non-empty, and every pixel falls on a cell.
pub open spec fn fits_screen(data: Seq<Vec<bool>>, width: u16, height: u16) -> bool {
    &&& data.len() > 0
    &&& data[0]@.len() > 0
    &&& forall|r: int| 0 <= r < data.len() ==> (#[trigger] data[r])@.len() == data[0]@.len()
    &&& height as int / data.len() as int >= 1
    &&& height as int / data[0]@.len() as int >= 1
    &&& height > 0 ==> (height - 1) as int / (height as int / data.len() as int) < data.len()
    &&& width > 0 ==> (width - 1) as int / (height as int / data[0]@.len() as int) < data[0]@.len()
}

/// Pixel `p` (row-major) of a board drawn at `width`×`height`, as a palette
/// index: 1 for a filled cell.
pub open spec fn pixel(data: Seq<Vec<bool>>, width: u16, height: u16, p: int) -> u8 {
    let size_h = height as int / data.len() as int;
    let size_w = height as int / data[0]@.len() as int;
    if data[(p / width as int) / size_h]@[(p % width as int) / size_w] {
        1u8
    } else {
        0u8
    }
}

/// All pixels of a board drawn at `width`×`height`.
pub open spec fn pixels(data: Seq<Vec<bool>>, width: u16, height: u16) -> Seq<u8> {
    Seq::new((width as int * height as int) as nat, |p: int| pixel(data, width, height, p))
}

/// An animated GIF being built: its screen size and the bytes so far, which
/// always end with the trailer.
pub struct Gif {
    pub width: u16,
    pub height: u16,
    pub buffer: Vec<u8>,
}

fn push_le16(buf: &mut Vec<u8>, v: u16)
    ensures
        final(buf)@ == old(buf)@ + le16(v),
{
    buf.push((v % 256) as u8);
    buf.push((v / 256) as u8);
    proof {
        assert(final(buf)@ =~= old(buf)@ + le16(v));
    }
}

impl Gif {
    /// A GIF with no frame yet.
    pub fn new(width: u16, height: u16) -> (r: Self)
        ensures
            r.width == width,
            r.height == height,
            r.buffer@ == header(width, height) + looping() + seq![TRAILER],
    {
        let mut buffer: Vec<u8> = vec![0x47, 0x49, 0x46, 0x38, 0x39, 0x61];
        push_le16(&mut buffer, width);
        push_le16(&mut buffer, height);
        let mut palette: Vec<u8> = vec![0x80, 0x00, 0x00, 0xff, 0xff, 0xff, 0x00, 0x00, 0x00];
        buffer.append(&mut palette);
        let mut extension: Vec<u8> = vec![
            0x21, 0xff, 0x0b, 0x4e, 0x45, 0x54, 0x53, 0x43, 0x41, 0x50, 0x45, 0x32, 0x2e, 0x30,
            0x03, 0x01, 0x00, 0x00, 0x00,
        ];
        buffer.append(&mut extension);
        buffer.push(TRAILER);
        proof {
            assert(buffer@ =~= header(width, height) + looping() + seq![TRAILER]);
        }
        Gif { width, height, buffer }
    }

    /// Adds one frame of palette indices, kept before the trailer.
    fn add_inner(&mut self, data: &Vec<u8>, delay: u16) -> (r: Result<(), LzwError>)
        requires
            old(self).buffer@.len() > 0,
        ensures
            final(self).width == old(self).width,
            final(self).height == old(self).height,
            r is Ok <==> forall|i: int| 0 <= i < data@.len() ==> data@[i] < 4,
            r is Ok ==> final(self).buffer@ == old(self).buffer@.drop_last() + frame(
                old(self).width,
                old(self).height,
                delay,
                data@,
            ) + seq![old(self).buffer@.last()],
            r is Err ==> final(self).buffer@ == old(self).buffer@,
    {
        let enc = match lzw_encode(data) {
            Ok(e) => e,
            Err(e) => {
                return Err(e);
            },
        };
        let ghost base = self.buffer@.drop_last();
        let ghost last = self.buffer@.last();
        let trailer = self.buffer.pop().unwrap();
        let mut gce: Vec<u8> = vec![0x21, 0xf9, 0x04, 0x04];
        push_le16(&mut gce, delay);
        gce.push(0x00);
        gce.push(0x00);
        self.buffer.append(&mut gce);
        let mut image: Vec<u8> = vec![0x2c, 0x00, 0x00, 0x00, 0x00];
        push_le16(&mut image, self.width);
        push_le16(&mut image, self.height);
        image.push(0x00);
        image.push(0x02);
        proof {
            assert(self.buffer@ =~= base + control(delay));
            assert(image@ =~= descriptor(self.width, self.height));
        }
        let ghost pre = self.buffer@ + image@;
        proof {
            assert(enc@.subrange(0, enc@.len() as int) =~= enc@);
            assert(image@ + sub_blocks(enc@) =~= image@ + sub_blocks(enc@.subrange(0, enc@.len() as int)));
        }
        let len = enc.len();
        let mut l: usize = 0;
        while l < len
            invariant
                len == enc@.len(),
                enc@ == lzw_gif(data@),
                trailer == last,
                self.buffer@ == base + control(delay),
                pre == base + control(delay) + descriptor(self.width, self.height),
                self.width == old(self).width,
                self.height == old(self).height,
                l <= len,
                self.buffer@ + image@ + sub_blocks(enc@.subrange(l as int, len as int)) == pre
                    + sub_blocks(enc@),
            decreases len - l,
        {
            let r = if len - l > 255 { l + 255 } else { len };
            let ghost before = image@;
            image.push((r - l) as u8);
            let mut k: usize = l;
            while k < r
                invariant
                    l < r <= len,
                    len == enc@.len(),
                    l <= k <= r,
                    image@ == before.push((r - l) as u8) + enc@.subrange(l as int, k as int),
                decreases r - k,
            {
                proof {
                    assert(k < enc@.len());
                    assert(enc@.subrange(l as int, (k + 1) as int) =~= enc@.subrange(l as int, k as int).push(
                        enc@[k as int],
                    ));
                }
                image.push(enc[k]);
                proof {
                    assert(image@ =~= before.push((r - l) as u8) + enc@.subrange(l as int, (k + 1) as int));
                }
                k += 1;
            }
            proof {
                let rest = enc@.subrange(l as int, len as int);
                if len - l > 255 {
                    assert(rest.subrange(0, 255) =~= enc@.subrange(l as int, r as int));
                    assert(rest.subrange(255, rest.len() as int) =~= enc@.subrange(r as int, len as int));
                    assert(sub_blocks(rest) == seq![255u8] + rest.subrange(0, 255) + sub_blocks(
                        rest.subrange(255, rest.len() as int),
                    ));
                    assert(image@ =~= before + (seq![255u8] + enc@.subrange(l as int, r as int)));
                } else {
                    assert(rest =~= enc@.subrange(l as int, r as int));
                    assert(enc@.subrange(r as int, len as int).len() == 0);
                    assert(sub_blocks(enc@.subrange(r as int, len as int)) == Seq::<u8>::empty());
                    assert(image@ =~= before + (seq![(r - l) as u8] + rest));
                }
                assert(self.buffer@ + image@ + sub_blocks(enc@.subrange(r as int, len as int))
                    =~= self.buffer@ + before + sub_blocks(rest));
            }
            l = r;
        }
        proof {
            assert(enc@.subrange(len as int, len as int).len() == 0);
            assert(sub_blocks(enc@.subrange(len as int, len as int)) == Seq::<u8>::empty());
            assert(self.buffer@ + image@ + Seq::<u8>::empty() =~= self.buffer@ + image@);
            assert(self.buffer@ + image@ =~= base + control(delay) + descriptor(self.width, self.height)
                + sub_blocks(lzw_gif(data@)));
        }
        let ghost body = self.buffer@ + image@;
        image.push(0x00);
        let ghost img = image@;
        self.buffer.append(&mut image);
        proof {
            assert(self.buffer@ =~= body + seq![0u8]);
        }
        self.buffer.push(trailer);
        proof {
            assert(self.buffer@ =~= body + seq![0u8] + seq![last]);
            assert(self.buffer@ =~= base + frame(self.width, self.height, delay, data@) + seq![last]);
        }
        Ok(())
    }

    /// Adds one board as a frame, each cell drawn as a block of pixels.
    pub fn add(&mut self, data: &[Vec<bool>], delay: u16) -> (r: Result<(), LzwError>)
        requires
            old(self).buffer@.len() > 0,
            fits_screen(data@, old(self).width, old(self).height),
        ensures
            r is Ok,
            final(self).width == old(self).width,
            final(self).height == old(self).height,
            final(self).buffer@ == old(self).buffer@.drop_last() + frame(
                old(self).width,
                old(self).height,
                delay,
                pixels(data@, old(self).width, old(self).height),
            ) + seq![old(self).buffer@.last()],
    {
        let h = data.len();
        let w = data[0].len();
        let size_h = self.height as usize / h;
        let size_w = self.height as usize / w;
        let width = self.width as usize;
        let height = self.height as usize;
        let mut px: Vec<u8> = Vec::new();
        let mut y: usize = 0;
        while y < height
            invariant
                fits_screen(data@, self.width, self.height),
                h == data@.len(),
                w == data@[0]@.len(),
                size_h == height / h,
                size_w == height / w,
                width == self.width,
                height == self.height,
                y <= height,
                px@.len() == y * width,
                forall|p: int| 0 <= p < y * width ==> px@[p] == pixel(data@, self.width, self.height, p),
            decreases height - y,
        {
            let mut x: usize = 0;
            proof {
                lemma_div_is_ordered(y as int, height - 1, size_h as int);
            }
            let row = y / size_h;
            while x < width
                invariant
                    fits_screen(data@, self.width, self.height),
                    h == data@.len(),
                    w == data@[0]@.len(),
                    size_h == height / h,
                    size_w == height / w,
                    width == self.width,
                    height == self.height,
                    y < height,
                    row == y / size_h,
                    row < h,
                    x <= width,
                    px@.len() == y * width + x,
                    forall|p: int| 0 <= p < y * width + x ==> px@[p] == pixel(data@, self.width, self.height, p),
                decreases width - x,
            {
                proof {
                    lemma_div_is_ordered(x as int, width - 1, size_w as int);
                    assert(data@[row as int]@.len() == w);
                    assert((y + 1) * width <= height * width) by (nonlinear_arith)
                        requires
                            y < height,
                    ;
                    assert(height * width <= 65535 * 65535) by (nonlinear_arith)
                        requires
                            height <= 65535,
                            width <= 65535,
                    ;
                    lemma_fundamental_div_mod_converse(y * width + x, width as int, y as int, x as int);
                }
                let v: u8 = if data[row][x / size_w] { 1 } else { 0 };
                px.push(v);
                x += 1;
            }
            proof {
                assert((y + 1) * width == y * width + width) by (nonlinear_arith);
            }
            y += 1;
        }
        proof {
            assert(px@ =~= pixels(data@, self.width, self.height)) by {
                assert(height * width == self.width as int * self.height as int) by (nonlinear_arith)
                    requires
                        height == self.height,
                        width == self.width,
                ;
            }
            assert forall|i: int| 0 <= i < px@.len() implies px@[i] < 4 by {}
        }
        self.add_inner(&px, delay)
    }
}

/// Delay of frame `i` of `n`: the last one stays up longer.
pub open spec fn frame_delay(i: int, n: int) -> u16 {
    if i == n - 1 {
        200
    } else {
        20
    }
}

/// The frames of the first `k` of `boards`, out of `n` in all.
pub open spec fn frames(boards: Seq<Vec<Vec<bool>>>, width: u16, height: u16, k: int, n: int) -> Seq<u8>
    decreases k,
{
    if k <= 0 {
        seq![]
    } else {
        frames(boards, width, height, k - 1, n) + frame(
            width,
            height,
            frame_delay(k - 1, n),
            pixels(boards[k - 1]@, width, height),
        )
    }
}

/// An animated GIF of `boards`, each an `h`×`w` board with `d`×`d`-pixel
/// cells; the last frame stays up for two seconds, the others for a fifth
/// of a second.
pub fn vis_gif_inner(h: usize, w: usize, d: u16, boards: &[Vec<Vec<bool>>]) -> (r: Vec<u8>)
    requires
        h * d <= u16::MAX,
        w * d <= u16::MAX,
        forall|i: int|
            0 <= i < boards@.len() ==> fits_screen(
                (#[trigger] boards@[i])@,
                (h * d) as u16,
                (w * d) as u16,
            ),
    ensures
        r@ == header((h * d) as u16, (w * d) as u16) + looping() + frames(
            boards@,
            (h * d) as u16,
            (w * d) as u16,
            boards@.len() as int,
            boards@.len() as int,
        ) + seq![TRAILER],
{
    let width = (h * d as usize) as u16;
    let height = (w * d as usize) as u16;
    let mut gif = Gif::new(width, height);
    let n = boards.len();
    let mut i: usize = 0;
    while i < n
        invariant
            n == boards@.len(),
            i <= n,
            width == (h * d) as u16,
            height == (w * d) as u16,
            gif.width == width,
            gif.height == height,
            forall|j: int| 0 <= j < boards@.len() ==> fits_screen((#[trigger] boards@[j])@, width, height),
            gif.buffer@ == header(width, height) + looping() + frames(boards@, width, height, i as int, n as int)
                + seq![TRAILER],
        decreases n - i,
    {
        let delay: u16 = if i == n - 1 { 200 } else { 20 };
        let ghost before = gif.buffer@;
        let res = gif.add(&boards[i], delay);
        proof {
            assert(before.last() == TRAILER);
            assert(before.drop_last() =~= header(width, height) + looping() + frames(boards@, width, height, i as int, n as int));
            assert(gif.buffer@ =~= header(width, height) + looping() + frames(boards@, width, height, i + 1, n as int)
                + seq![TRAILER]);
        }
        i += 1;
    }
    gif.buffer
}

} // verus!
