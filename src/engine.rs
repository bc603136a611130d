//! The transform engine: decodes source bytes into an RGBA pixel buffer,
//! applies operations strictly in list order, and encodes the result.
use vstd::prelude::*;
use image::imageops::FilterType;
use image::{DynamicImage, ImageOutputFormat, RgbaImage};
use std::io::Cursor;
use crate::model::{Filter, Operation, SampleFilter};

verus! {

/// A canvas as plain values: its size and its RGBA bytes, row by row.
pub struct Canvas {
    pub width: u32,
    pub height: u32,
    pub data: Seq<u8>,
}

/// An RGBA image: four bytes per pixel, rows top to bottom.
pub struct PixelBuffer {
    pub width: u32,
    pub height: u32,
    pub data: Vec<u8>,
}

impl PixelBuffer {
    pub open spec fn view(&self) -> Canvas {
        Canvas { width: self.width, height: self.height, data: self.data@ }
    }

    pub open spec fn wf(&self) -> bool {
        self.data@.len() == self.width * self.height * 4
    }

    /// A buffer of `width` by `height` pixels, all of one colour.
    pub fn filled(width: u32, height: u32, r: u8, g: u8, b: u8, a: u8) -> (res: PixelBuffer)
        requires
            width * height * 4 <= usize::MAX,
        ensures
            res.wf(),
            res.width == width,
            res.height == height,
            forall|i: int| 0 <= i < res.data@.len() ==> res.data@[i] == (if i % 4 == 0 { r } else if i % 4 == 1 { g } else if i % 4 == 2 { b } else { a }),
    {
        let n: usize = (width as usize) * (height as usize) * 4;
        let mut data: Vec<u8> = Vec::with_capacity(n);
        let mut i: usize = 0;
        while i < n
            invariant
                i <= n,
                data@.len() == i,
                forall|j: int| 0 <= j < i ==> data@[j] == (if j % 4 == 0 { r } else if j % 4 == 1 { g } else if j % 4 == 2 { b } else { a }),
            decreases n - i,
        {
            let c = i % 4;
            let v = if c == 0 { r } else if c == 1 { g } else if c == 2 { b } else { a };
            data.push(v);
            i = i + 1;
        }
        PixelBuffer { width, height, data }
    }

    /// The byte at channel `ch` of pixel (`col`, `row`).
    pub fn channel(&self, col: u32, row: u32, ch: u32) -> (r: u8)
        requires
            self.wf(),
            col < self.width,
            row < self.height,
            ch < 4,
        ensures
            r == self.data@[(row * self.width + col) * 4 + ch],
    {
        let _n = self.data.len();
        proof {
            lemma_index_in_bounds(row as int, col as int, self.width as int, self.height as int);
        }
        let idx: usize = ((row as usize) * (self.width as usize) + (col as usize)) * 4 + (ch as usize);
        self.data[idx]
    }
}

proof fn lemma_index_in_bounds(r: int, c: int, w: int, h: int)
    requires
        0 <= r < h,
        0 <= c < w,
    ensures
        (r * w + c) * 4 + 3 < w * h * 4,
        r * w + c < w * h,
{
    assert(r * w + c < w * h) by (nonlinear_arith)
        requires 0 <= r < h, 0 <= c < w;
}

/// The size of an encoded image, if it is one. The pixels themselves get no
/// name: a JPEG decoder may pick its transform by the machine it runs on.
pub uninterp spec fn decoded_size(bytes: Seq<u8>) -> Option<(u32, u32)>;

/// The JPEG encoding of an RGBA image at a quality, if it can be made.
pub uninterp spec fn jpeg_of(width: u32, height: u32, data: Seq<u8>, quality: u8) -> Option<Seq<u8>>;

/// Relies on image::imageops::resize: an image of exactly the new size, and a
/// plain copy when the size is unchanged. The resampled bytes themselves come
/// from floating-point kernels and are not promised.
#[verifier::external_body]
fn resize_rgba(width: u32, height: u32, data: &Vec<u8>, nwidth: u32, nheight: u32, kernel: SampleFilter) -> (r: Vec<u8>)
    requires
        data@.len() == width * height * 4,
        width > 0,
        height > 0,
        nwidth > 0,
        nheight > 0,
        nwidth * nheight * 4 <= usize::MAX,
    ensures
        r@.len() == nwidth * nheight * 4,
        nwidth == width && nheight == height ==> r@ == data@,
{
    let img = RgbaImage::from_raw(width, height, data.clone()).unwrap();
    let filter = match kernel {
        SampleFilter::Nearest => FilterType::Nearest,
        SampleFilter::Triangle => FilterType::Triangle,
        SampleFilter::CatmullRom => FilterType::CatmullRom,
        SampleFilter::Gaussian => FilterType::Gaussian,
        SampleFilter::Lanczos3 => FilterType::Lanczos3,
    };
    image::imageops::resize(&img, nwidth, nheight, filter).into_raw()
}

/// Relies on image::load_from_memory and DynamicImage::to_rgba8: whether the
/// bytes are a recognised image, and its size, follow from the bytes; the
/// result is an RGBA buffer of that size.
#[verifier::external_body]
fn decode_rgba(bytes: &[u8]) -> (r: Option<PixelBuffer>)
    ensures
        match r {
            Some(p) => p.wf() && decoded_size(bytes@) == Some((p.width, p.height)),
            None => decoded_size(bytes@) is None,
        },
{
    let img = image::load_from_memory(bytes).ok()?.to_rgba8();
    let (width, height) = img.dimensions();
    Some(PixelBuffer { width, height, data: img.into_raw() })
}

/// Relies on DynamicImage::to_rgb8 and DynamicImage::write_to with
/// ImageOutputFormat::Jpeg: the JPEG bytes of the image's colour channels.
#[verifier::external_body]
fn encode_jpeg(p: &PixelBuffer, quality: u8) -> (r: Option<Vec<u8>>)
    ensures
        match r {
            Some(b) => jpeg_of(p.width, p.height, p.data@, quality) == Some(b@),
            None => jpeg_of(p.width, p.height, p.data@, quality) is None,
        },
{
    let img = RgbaImage::from_raw(p.width, p.height, p.data.clone())?;
    let rgb = DynamicImage::ImageRgba8(img).to_rgb8();
    let mut out = Cursor::new(Vec::new());
    rgb.write_to(&mut out, ImageOutputFormat::Jpeg(quality)).ok()?;
    Some(out.into_inner())
}

/// `o` laid over `d` with opacity `a` out of 255.
pub open spec fn blend(d: u8, o: u8, a: u8) -> u8 {
    ((o * a + d * (255 - a)) / 255) as u8
}

/// Whether pixel (`col`, `row`) of the canvas lies under an overlay of
/// `ow` by `oh` placed at (`x`, `y`).
pub open spec fn under_overlay(col: int, row: int, x: u32, y: u32, ow: u32, oh: u32) -> bool {
    x <= col < x + ow && y <= row < y + oh
}

/// Byte `i` of the canvas after the overlay is laid at (`x`, `y`), clipped to
/// the canvas; the alpha channel of the canvas is kept.
pub open spec fn wm_byte(c: Canvas, ov: Canvas, x: u32, y: u32, i: int) -> u8 {
    let px = i / 4;
    let ch = i % 4;
    let col = px % (c.width as int);
    let row = px / (c.width as int);
    if ch < 3 && under_overlay(col, row, x, y, ov.width, ov.height) {
        let oi = ((row - y) * ov.width + (col - x)) * 4;
        blend(c.data[i], ov.data[oi + ch], ov.data[oi + 3])
    } else {
        c.data[i]
    }
}

pub open spec fn watermarked(c: Canvas, ov: Canvas, x: u32, y: u32) -> Canvas {
    Canvas { width: c.width, height: c.height, data: Seq::new(c.data.len(), |i: int| wm_byte(c, ov, x, y, i)) }
}

/// The tint colour of a preset, by channel.
pub open spec fn tint(kind: Filter, ch: int) -> u8 {
    match kind {
        Filter::Oceanic => if ch == 0 { 0 } else if ch == 1 { 89 } else { 173 },
        Filter::Islands => if ch == 0 { 0 } else if ch == 1 { 24 } else { 95 },
        Filter::Marine => if ch == 0 { 0 } else if ch == 1 { 14 } else { 119 },
    }
}

/// A colour byte mixed one part in five with the tint.
pub open spec fn mix(v: u8, t: u8) -> u8 {
    ((4 * v + t) / 5) as u8
}

pub open spec fn filtered(c: Canvas, kind: Filter) -> Canvas {
    Canvas {
        width: c.width,
        height: c.height,
        data: Seq::new(c.data.len(), |i: int| if i % 4 < 3 { mix(c.data[i], tint(kind, i % 4)) } else { c.data[i] }),
    }
}

/// The canvas after one operation, where `resampled` stands for the bytes
/// that a resize produced.
pub open spec fn step(c: Canvas, ov: Canvas, op: Operation, resampled: Seq<u8>) -> Canvas {
    match op {
        Operation::Resize { width, height, filter } => Canvas { width, height, data: resampled },
        Operation::Watermark { x, y } => watermarked(c, ov, x, y),
        Operation::Filter { kind } => filtered(c, kind),
    }
}

/// What holds of the bytes of any resize: the new size exactly, and a copy
/// when the size does not change.
pub open spec fn resample_ok(c: Canvas, op: Operation, resampled: Seq<u8>) -> bool {
    match op {
        Operation::Resize { width, height, filter } =>
            resampled.len() == width * height * 4
                && (width == c.width && height == c.height ==> resampled == c.data),
        _ => true,
    }
}

/// `cs` lists the canvases from `c` on, one more than the operations, each
/// the previous one after the next operation, with `rs` the bytes that each
/// resize produced.
pub open spec fn run_trace(c: Canvas, ov: Canvas, ops: Seq<Operation>, rs: Seq<Seq<u8>>, cs: Seq<Canvas>) -> bool {
    &&& cs.len() == ops.len() + 1
    &&& rs.len() == ops.len()
    &&& cs[0] == c
    &&& forall|k: int| 0 <= k < ops.len() ==> resample_ok(#[trigger] cs[k], ops[k], rs[k])
        && cs[k + 1] == step(cs[k], ov, ops[k], rs[k])
}

/// Whether an operation can run on a `w` by `h` canvas: a resize needs a
/// non-empty source and target and a target whose bytes can be addressed.
pub open spec fn op_valid(w: u32, h: u32, op: Operation) -> bool {
    match op {
        Operation::Resize { width, height, filter } =>
            w > 0 && h > 0 && width > 0 && height > 0 && width * height * 4 <= usize::MAX,
        _ => true,
    }
}

/// The canvas width after an operation.
pub open spec fn width_after(w: u32, op: Operation) -> u32 {
    match op {
        Operation::Resize { width, height, filter } => width,
        _ => w,
    }
}

/// The canvas height after an operation.
pub open spec fn height_after(h: u32, op: Operation) -> u32 {
    match op {
        Operation::Resize { width, height, filter } => height,
        _ => h,
    }
}

/// Whether every operation of the list can run in turn, from a `w` by `h` canvas.
pub open spec fn ops_valid(w: u32, h: u32, ops: Seq<Operation>) -> bool
    decreases ops.len(),
{
    if ops.len() == 0 {
        true
    } else {
        op_valid(w, h, ops[0]) && ops_valid(width_after(w, ops[0]), height_after(h, ops[0]), ops.drop_first())
    }
}


/// A watermark lands on the canvas as it is when the watermark runs: after a
/// resize it is laid on the resized canvas of the new size; before one it is
/// resampled with the rest of the image.
pub proof fn lemma_watermark_order(
    c: Canvas,
    ov: Canvas,
    w: u32,
    h: u32,
    f: SampleFilter,
    x: u32,
    y: u32,
    rs: Seq<Seq<u8>>,
    cs: Seq<Canvas>,
)
    ensures
        run_trace(c, ov, seq![Operation::Resize { width: w, height: h, filter: f }, Operation::Watermark { x, y }], rs, cs)
            ==> cs[2] == watermarked(Canvas { width: w, height: h, data: rs[0] }, ov, x, y)
                && rs[0].len() == w * h * 4,
        run_trace(c, ov, seq![Operation::Watermark { x, y }, Operation::Resize { width: w, height: h, filter: f }], rs, cs)
            ==> cs[1] == watermarked(c, ov, x, y)
                && cs[2] == (Canvas { width: w, height: h, data: rs[1] })
                && rs[1].len() == w * h * 4
                && (w == c.width && h == c.height ==> rs[1] == watermarked(c, ov, x, y).data),
{
    let r = Operation::Resize { width: w, height: h, filter: f };
    let m = Operation::Watermark { x, y };
    if run_trace(c, ov, seq![r, m], rs, cs) {
        assert(resample_ok(cs[0], seq![r, m][0], rs[0]));
        assert(cs[1] == step(cs[0], ov, seq![r, m][0], rs[0]));
        assert(cs[2] == step(cs[1], ov, seq![r, m][1], rs[1]));
    }
    if run_trace(c, ov, seq![m, r], rs, cs) {
        assert(cs[1] == step(cs[0], ov, seq![m, r][0], rs[0]));
        assert(resample_ok(cs[1], seq![m, r][1], rs[1]));
        assert(cs[2] == step(cs[1], ov, seq![m, r][1], rs[1]));
    }
}

/// Resize to 500 by 800 with CatmullRom, watermark at (20, 20), then the
/// Marine preset: whatever the source, the result is 500 by 800, the overlay
/// laid on the resized canvas, and the preset applied last.
pub proof fn lemma_sample_pipeline(c: Canvas, ov: Canvas, rs: Seq<Seq<u8>>, cs: Seq<Canvas>)
    requires
        run_trace(c, ov, seq![
            Operation::Resize { width: 500, height: 800, filter: SampleFilter::CatmullRom },
            Operation::Watermark { x: 20, y: 20 },
            Operation::Filter { kind: Filter::Marine },
        ], rs, cs),
    ensures
        cs[3].width == 500,
        cs[3].height == 800,
        cs[3].data.len() == 500 * 800 * 4,
        cs[3] == filtered(watermarked(Canvas { width: 500, height: 800, data: rs[0] }, ov, 20, 20), Filter::Marine),
{
    let ops = seq![
        Operation::Resize { width: 500, height: 800, filter: SampleFilter::CatmullRom },
        Operation::Watermark { x: 20, y: 20 },
        Operation::Filter { kind: Filter::Marine },
    ];
    assert(resample_ok(cs[0], ops[0], rs[0]) && cs[1] == step(cs[0], ov, ops[0], rs[0]));
    assert(cs[2] == step(cs[1], ov, ops[1], rs[1]));
    assert(cs[3] == step(cs[2], ov, ops[2], rs[2]));
}

fn blend_exec(d: u8, o: u8, a: u8) -> (r: u8)
    ensures
        r == blend(d, o, a),
{
    let d32: u32 = d as u32;
    let o32: u32 = o as u32;
    let a32: u32 = a as u32;
    assert(o32 * a32 + d32 * (255 - a32) <= 255 * 255) by (nonlinear_arith)
        requires o32 <= 255, d32 <= 255, a32 <= 255;
    ((o32 * a32 + d32 * (255 - a32)) / 255) as u8
}

fn tint_exec(kind: Filter, ch: usize) -> (r: u8)
    requires
        ch < 3,
    ensures
        r == tint(kind, ch as int),
{
    match kind {
        Filter::Oceanic => if ch == 0 { 0 } else if ch == 1 { 89 } else { 173 },
        Filter::Islands => if ch == 0 { 0 } else if ch == 1 { 24 } else { 95 },
        Filter::Marine => if ch == 0 { 0 } else if ch == 1 { 14 } else { 119 },
    }
}

/// The bytes of `c` with the overlay laid at (`x`, `y`), clipped to `c`.
pub fn watermark_data(c: &PixelBuffer, ov: &PixelBuffer, x: u32, y: u32) -> (r: Vec<u8>)
    requires
        c.wf(),
        ov.wf(),
    ensures
        r@ == watermarked(c@, ov@, x, y).data,
{
    let n = c.data.len();
    let m = ov.data.len();
    let mut out: Vec<u8> = Vec::with_capacity(n);
    let mut i: usize = 0;
    while i < n
        invariant
            n == c.data@.len(),
            m == ov.data@.len(),
            c.wf(),
            ov.wf(),
            i <= n,
            out@.len() == i,
            forall|j: int| 0 <= j < i ==> out@[j] == wm_byte(c@, ov@, x, y, j),
        decreases n - i,
    {
        assert(c.width > 0) by {
            if c.width == 0 {
                assert(c.width * c.height * 4 == 0);
            }
        }
        let px: u64 = (i / 4) as u64;
        let ch: usize = i % 4;
        let w: u64 = c.width as u64;
        let col: u64 = px % w;
        let row: u64 = px / w;
        let v: u8;
        if ch < 3 && (x as u64) <= col && col < (x as u64) + (ov.width as u64) && (y as u64) <= row && row < (y as u64) + (ov.height as u64) {
            let orow: u64 = row - (y as u64);
            let ocol: u64 = col - (x as u64);
            proof {
                lemma_index_in_bounds(orow as int, ocol as int, ov.width as int, ov.height as int);
            }
            let oi: usize = ((orow as usize) * (ov.width as usize) + (ocol as usize)) * 4;
            v = blend_exec(c.data[i], ov.data[oi + ch], ov.data[oi + 3]);
        } else {
            v = c.data[i];
        }
        out.push(v);
        i = i + 1;
    }
    assert(out@ =~= watermarked(c@, ov@, x, y).data);
    out
}

/// The bytes of `c` with a preset's tint mixed into each colour channel.
pub fn filter_data(c: &PixelBuffer, kind: Filter) -> (r: Vec<u8>)
    ensures
        r@ == filtered(c@, kind).data,
{
    let n = c.data.len();
    let mut out: Vec<u8> = Vec::with_capacity(n);
    let mut i: usize = 0;
    while i < n
        invariant
            n == c.data@.len(),
            i <= n,
            out@.len() == i,
            forall|j: int| 0 <= j < i ==> out@[j] == filtered(c@, kind).data[j],
        decreases n - i,
    {
        let ch: usize = i % 4;
        let v: u8;
        if ch < 3 {
            let t: u32 = tint_exec(kind, ch) as u32;
            v = ((4 * (c.data[i] as u32) + t) / 5) as u8;
        } else {
            v = c.data[i];
        }
        out.push(v);
        i = i + 1;
    }
    assert(out@ =~= filtered(c@, kind).data);
    out
}

/// Why the engine could not produce an output image.
#[derive(Clone, Copy, Debug, PartialEq, Eq, Structural)]
pub enum EngineError {
    /// The source bytes are not a recognised image.
    Decode,
    /// A resize names an empty size, applies to an empty canvas, or is too large.
    InvalidOperation,
    /// The result could not be encoded.
    Encode,
}

/// The output quality of the deployment's JPEG encoding.
pub const JPEG_QUALITY: u8 = 85;

/// Checks a list of operations against a `w` by `h` canvas.
pub fn check_ops(w: u32, h: u32, ops: &Vec<Operation>) -> (r: bool)
    ensures
        r == ops_valid(w, h, ops@),
{
    let mut cw = w;
    let mut chh = h;
    let mut i: usize = 0;
    let n = ops.len();
    assert(ops@.subrange(0, n as int) =~= ops@);
    while i < n
        invariant
            n == ops@.len(),
            i <= n,
            ops_valid(w, h, ops@) == ops_valid(cw, chh, ops@.subrange(i as int, n as int)),
        decreases n - i,
    {
        let ghost rest = ops@.subrange(i as int, n as int);
        assert(rest.drop_first() =~= ops@.subrange(i + 1, n as int));
        match ops[i] {
            Operation::Resize { width, height, filter } => {
                if cw == 0 || chh == 0 || width == 0 || height == 0 {
                    return false;
                }
                let wide: u128 = width as u128;
                let high: u128 = height as u128;
                assert(wide * high <= 0xFFFF_FFFF_FFFF_FFFF) by (nonlinear_arith)
                    requires wide <= 0xFFFF_FFFF, high <= 0xFFFF_FFFF;
                if wide * high * 4 > (usize::MAX as u128) {
                    return false;
                }
                cw = width;
                chh = height;
            },
            _ => {},
        }
        i = i + 1;
    }
    true
}

/// The decode, transform and encode pipeline, with the deployment's overlay.
pub struct Engine {
    pub overlay: PixelBuffer,
}

impl Engine {
    pub open spec fn wf(&self) -> bool {
        self.overlay.wf()
    }

    pub fn new(overlay: PixelBuffer) -> (r: Engine)
        requires
            overlay.wf(),
        ensures
            r.wf(),
            r.overlay == overlay,
    {
        Engine { overlay }
    }

    /// Applies one operation that can run on the buffer; the ghost result is
    /// the bytes a resize produced.
    fn apply_one(&self, buf: &mut PixelBuffer, op: Operation) -> (r: Ghost<Seq<u8>>)
        requires
            self.wf(),
            old(buf).wf(),
            op_valid(old(buf).width, old(buf).height, op),
        ensures
            final(buf).wf(),
            resample_ok(old(buf)@, op, r@),
            final(buf)@ == step(old(buf)@, self.overlay@, op, r@),
            final(buf).width == width_after(old(buf).width, op),
            final(buf).height == height_after(old(buf).height, op),
    {
        match op {
            Operation::Resize { width, height, filter } => {
                let data = resize_rgba(buf.width, buf.height, &buf.data, width, height, filter);
                let ghost g = data@;
                buf.width = width;
                buf.height = height;
                buf.data = data;
                Ghost(g)
            },
            Operation::Watermark { x, y } => {
                let data = watermark_data(buf, &self.overlay, x, y);
                buf.data = data;
                Ghost(Seq::empty())
            },
            Operation::Filter { kind } => {
                let data = filter_data(buf, kind);
                buf.data = data;
                Ghost(Seq::empty())
            },
        }
    }

    /// Applies the operations first to last and hands back the trace of the
    /// run. A list with an operation that cannot run is rejected before the
    /// buffer is touched.
    fn apply_traced(&self, buf: &mut PixelBuffer, ops: &Vec<Operation>) -> (r: Result<Ghost<(Seq<Seq<u8>>, Seq<Canvas>)>, EngineError>)
        requires
            self.wf(),
            old(buf).wf(),
        ensures
            final(buf).wf(),
            r is Ok <==> ops_valid(old(buf).width, old(buf).height, ops@),
            r is Ok ==> ({
                let (rs, cs) = r->Ok_0@;
                run_trace(old(buf)@, self.overlay@, ops@, rs, cs) && cs.last() == final(buf)@
            }),
            r is Err ==> r == Err::<Ghost<(Seq<Seq<u8>>, Seq<Canvas>)>, EngineError>(EngineError::InvalidOperation)
                && *final(buf) == *old(buf),
    {
        if !check_ops(buf.width, buf.height, ops) {
            return Err(EngineError::InvalidOperation);
        }
        let n = ops.len();
        let mut i: usize = 0;
        let ghost start = buf@;
        let ghost mut rs: Seq<Seq<u8>> = Seq::empty();
        let ghost mut cs: Seq<Canvas> = seq![buf@];
        assert(ops@.subrange(0, n as int) =~= ops@);
        while i < n
            invariant
                self.wf(),
                n == ops@.len(),
                i <= n,
                buf.wf(),
                ops_valid(buf.width, buf.height, ops@.subrange(i as int, n as int)),
                run_trace(start, self.overlay@, ops@.take(i as int), rs, cs),
                cs.last() == buf@,
            decreases n - i,
        {
            let ghost rest = ops@.subrange(i as int, n as int);
            assert(rest.drop_first() =~= ops@.subrange(i + 1, n as int));
            assert(rest[0] == ops@[i as int]);
            let op = ops[i];
            let ghost before = buf@;
            let g = self.apply_one(buf, op);
            proof {
                let ops2 = ops@.take(i + 1);
                let rs2 = rs.push(g@);
                let cs2 = cs.push(buf@);
                assert forall|k: int| 0 <= k < ops2.len() implies resample_ok(#[trigger] cs2[k], ops2[k], rs2[k])
                    && cs2[k + 1] == step(cs2[k], self.overlay@, ops2[k], rs2[k]) by {
                    if k < i {
                        assert(ops2[k] == ops@.take(i as int)[k]);
                        assert(cs2[k] == cs[k] && cs2[k + 1] == cs[k + 1] && rs2[k] == rs[k]);
                    } else {
                        assert(cs2[k] == before);
                    }
                }
                rs = rs2;
                cs = cs2;
            }
            i = i + 1;
        }
        assert(ops@.take(n as int) =~= ops@);
        Ok(Ghost((rs, cs)))
    }

    /// Applies the operations first to last. A list with an operation that
    /// cannot run is rejected before the buffer is touched; otherwise the
    /// result is the end of a run in which every resize gave bytes of its new
    /// size, and every watermark and filter did exactly its work.
    pub fn apply(&self, buf: &mut PixelBuffer, ops: &Vec<Operation>) -> (r: Result<(), EngineError>)
        requires
            self.wf(),
            old(buf).wf(),
        ensures
            final(buf).wf(),
            r is Ok <==> ops_valid(old(buf).width, old(buf).height, ops@),
            r is Ok ==> exists|rs: Seq<Seq<u8>>, cs: Seq<Canvas>|
                #[trigger] run_trace(old(buf)@, self.overlay@, ops@, rs, cs) && cs.last() == final(buf)@,
            r is Err ==> r == Err::<(), EngineError>(EngineError::InvalidOperation) && *final(buf) == *old(buf),
    {
        let ghost start = buf@;
        match self.apply_traced(buf, ops) {
            Ok(g) => {
                let ghost (rs, cs) = g@;
                assert(run_trace(start, self.overlay@, ops@, rs, cs));
                Ok(())
            },
            Err(e) => Err(e),
        }
    }

    /// Decodes the source bytes, applies the operations, and encodes the result
    /// as JPEG. The decoded pixels are fixed in number, not in value.
    pub fn run(&self, bytes: &[u8], ops: &Vec<Operation>) -> (r: Result<Vec<u8>, EngineError>)
        requires
            self.wf(),
        ensures
            match decoded_size(bytes@) {
                None => r == Err::<Vec<u8>, EngineError>(EngineError::Decode),
                Some((w, h)) => {
                    if !ops_valid(w, h, ops@) {
                        r == Err::<Vec<u8>, EngineError>(EngineError::InvalidOperation)
                    } else {
                        exists|d: Seq<u8>, rs: Seq<Seq<u8>>, cs: Seq<Canvas>|
                            #[trigger] run_trace(Canvas { width: w, height: h, data: d }, self.overlay@, ops@, rs, cs)
                            && d.len() == w * h * 4
                            && match jpeg_of(cs.last().width, cs.last().height, cs.last().data, JPEG_QUALITY) {
                                Some(b) => r is Ok && r->Ok_0@ == b,
                                None => r == Err::<Vec<u8>, EngineError>(EngineError::Encode),
                            }
                    }
                },
            },
    {
        let mut buf = match decode_rgba(bytes) {
            Some(p) => p,
            None => {
                return Err(EngineError::Decode);
            },
        };
        let ghost start = buf@;
        let g = match self.apply_traced(&mut buf, ops) {
            Ok(g) => g,
            Err(e) => {
                return Err(e);
            },
        };
        let ghost (rs, cs) = g@;
        let r = match encode_jpeg(&buf, JPEG_QUALITY) {
            Some(b) => Ok(b),
            None => Err(EngineError::Encode),
        };
        assert(run_trace(start, self.overlay@, ops@, rs, cs));
        r
    }
}

} // verus!
