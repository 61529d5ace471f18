//! Decoded frames: the sizes that can be asked for, and turning a frame upright.
use vstd::arithmetic::div_mod::{lemma_fundamental_div_mod, lemma_fundamental_div_mod_converse};
use vstd::prelude::*;
use crate::fsops::FsError;

verus! {

/// The size that a frame is decoded to: to fit a box, in full, or at one n-th.
#[derive(Clone, Copy, PartialEq, Eq, Debug, Structural)]
pub enum TargetSize {
    Fit(u32, u32),
    Full,
    Scaled(u8),
}

/// A frame in straight RGBA, row by row and without gaps.
#[derive(PartialEq, Eq, Debug)]
pub struct DecodedImage {
    pub w: u32,
    pub h: u32,
    pub rgba: Vec<u8>,
}

/// Why a frame could not be decoded.
#[derive(PartialEq, Eq, Debug)]
pub enum DecodeError {
    Io(FsError),
    Decode(String),
    Unsupported,
}

/// The length of a side at one n-th, rounded up.
pub open spec fn shrunk(len: int, n: int) -> int {
    (len + n - 1) / n
}

/// Whether a frame at one n-th reaches the box in width or in height.
pub open spec fn reaches(w: int, h: int, box_w: int, box_h: int, n: int) -> bool {
    shrunk(w, n) >= box_w || shrunk(h, n) >= box_h
}

/// At which part of its size a frame is decoded: as small as it can be while it still
/// reaches the box.
pub open spec fn divisor(target: TargetSize, w: int, h: int) -> int {
    match target {
        TargetSize::Full => 1,
        TargetSize::Scaled(n) => if n == 0 {
            1
        } else {
            n as int
        },
        TargetSize::Fit(box_w, box_h) => if reaches(w, h, box_w as int, box_h as int, 8) {
            8
        } else if reaches(w, h, box_w as int, box_h as int, 4) {
            4
        } else if reaches(w, h, box_w as int, box_h as int, 2) {
            2
        } else {
            1
        },
    }
}

fn fits_at(w: u32, h: u32, box_w: u32, box_h: u32, n: u32) -> (r: bool)
    requires
        1 <= n <= 8,
    ensures
        r == reaches(w as int, h as int, box_w as int, box_h as int, n as int),
{
    let k: u64 = n as u64;
    (w as u64 + k - 1) / k >= box_w as u64 || (h as u64 + k - 1) / k >= box_h as u64
}

/// At which part of its size a frame of `w` by `h` is decoded.
pub fn divisor_for(target: TargetSize, w: u32, h: u32) -> (r: u8)
    ensures
        r == divisor(target, w as int, h as int),
{
    match target {
        TargetSize::Full => 1,
        TargetSize::Scaled(n) => if n == 0 {
            1
        } else {
            n
        },
        TargetSize::Fit(box_w, box_h) => if fits_at(w, h, box_w, box_h, 8) {
            8
        } else if fits_at(w, h, box_w, box_h, 4) {
            4
        } else if fits_at(w, h, box_w, box_h, 2) {
            2
        } else {
            1
        },
    }
}

/// Whether the EXIF orientation says to turn the frame at all.
pub open spec fn turns(orientation: int) -> bool {
    2 <= orientation <= 8
}

/// Whether the EXIF orientation swaps width and height.
pub open spec fn swaps(orientation: int) -> bool {
    5 <= orientation <= 8
}

/// The width after turning.
pub open spec fn turned_w(w: int, h: int, orientation: int) -> int {
    if swaps(orientation) {
        h
    } else {
        w
    }
}

/// The height after turning.
pub open spec fn turned_h(w: int, h: int, orientation: int) -> int {
    if swaps(orientation) {
        w
    } else {
        h
    }
}

/// Which pixel of the frame comes to stand at column `x` and row `y`.
pub open spec fn source_of(x: int, y: int, w: int, h: int, orientation: int) -> (int, int) {
    if orientation == 2 {
        (w - 1 - x, y)
    } else if orientation == 3 {
        (w - 1 - x, h - 1 - y)
    } else if orientation == 4 {
        (x, h - 1 - y)
    } else if orientation == 5 {
        (y, x)
    } else if orientation == 6 {
        (y, h - 1 - x)
    } else if orientation == 7 {
        (w - 1 - y, h - 1 - x)
    } else if orientation == 8 {
        (w - 1 - y, x)
    } else {
        (x, y)
    }
}

/// The byte of the frame that comes to stand at byte `k`.
pub open spec fn source_byte(k: int, w: int, h: int, orientation: int) -> int {
    let tw = turned_w(w, h, orientation);
    let p = k / 4;
    let s = source_of(p % tw, p / tw, w, h, orientation);
    (s.1 * w + s.0) * 4 + k % 4
}

/// The frame turned upright; unknown orientations leave it as it is.
pub open spec fn turned(rgba: Seq<u8>, w: int, h: int, orientation: int) -> Seq<u8> {
    if turns(orientation) {
        Seq::new((w * h * 4) as nat, |k: int| rgba[source_byte(k, w, h, orientation)])
    } else {
        rgba
    }
}

/// A pixel of the turned frame comes from within the frame.
proof fn lemma_source_inside(x: int, y: int, w: int, h: int, orientation: int)
    requires
        turns(orientation),
        0 <= x < turned_w(w, h, orientation),
        0 <= y < turned_h(w, h, orientation),
    ensures
        0 <= source_of(x, y, w, h, orientation).0 < w,
        0 <= source_of(x, y, w, h, orientation).1 < h,
{
}

proof fn lemma_offset_inside(x: int, y: int, w: int, h: int)
    requires
        0 <= x < w,
        0 <= y < h,
    ensures
        0 <= y * w + x < w * h,
{
    assert(0 <= y * w + x < w * h) by (nonlinear_arith)
        requires
            0 <= x < w,
            0 <= y < h,
    ;
}

proof fn lemma_pixel(x: int, y: int, w: int, c: int)
    requires
        0 <= x < w,
        0 <= y,
        0 <= c < 4,
    ensures
        ((y * w + x) * 4 + c) / 4 == y * w + x,
        ((y * w + x) * 4 + c) % 4 == c,
        (y * w + x) / w == y,
        (y * w + x) % w == x,
{
    lemma_fundamental_div_mod_converse((y * w + x) * 4 + c, 4, y * w + x, c);
    lemma_fundamental_div_mod_converse(y * w + x, w, y, x);
}

/// Turns a frame upright by its EXIF orientation. Codes 5 to 8 swap width and height;
/// codes outside 2 to 8 leave the frame as it is.
pub fn apply_orientation(rgba: Vec<u8>, w: u32, h: u32, orientation: u16) -> (r: (
    Vec<u8>,
    u32,
    u32,
))
    requires
        turns(orientation as int) ==> rgba@.len() >= w * h * 4,
    ensures
        r.0@ == turned(rgba@, w as int, h as int, orientation as int),
        r.1 == turned_w(w as int, h as int, orientation as int),
        r.2 == turned_h(w as int, h as int, orientation as int),
{
    if orientation <= 1 || orientation > 8 {
        return (rgba, w, h);
    }
    let (tw, th) = if orientation >= 5 {
        (h, w)
    } else {
        (w, h)
    };
    let ghost o = orientation as int;
    let ghost wi = w as int;
    let ghost hi = h as int;
    let ghost want = turned(rgba@, wi, hi, o);
    let mut out: Vec<u8> = Vec::new();
    assert(tw * th == w * h) by (nonlinear_arith)
        requires
            (tw == w && th == h) || (tw == h && th == w),
    ;
    let mut y: u32 = 0;
    assert(0 * tw == 0) by (nonlinear_arith);
    while y < th
        invariant
            turns(o),
            o == orientation as int,
            wi == w as int,
            hi == h as int,
            tw == turned_w(wi, hi, o),
            th == turned_h(wi, hi, o),
            tw * th == w * h,
            0 <= y <= th,
            rgba@.len() >= w * h * 4,
            want == turned(rgba@, wi, hi, o),
            out@.len() == y * tw * 4,
            out@.len() <= want.len(),
            want.len() == w * h * 4,
            out@ == want.take(out@.len() as int),
        decreases th - y,
    {
        let ghost row = y as int;
        assert(row * tw + tw <= tw * th) by (nonlinear_arith)
            requires
                0 <= row < th,
                0 <= tw,
        ;
        let mut x: u32 = 0;
        while x < tw
            invariant
                turns(o),
                o == orientation as int,
                wi == w as int,
                hi == h as int,
                tw == turned_w(wi, hi, o),
                th == turned_h(wi, hi, o),
                tw * th == w * h,
                row == y,
                0 <= y < th,
                0 <= x <= tw,
                row * tw + tw <= tw * th,
                rgba@.len() >= w * h * 4,
                want == turned(rgba@, wi, hi, o),
                want.len() == w * h * 4,
                out@.len() == (row * tw + x) * 4,
                out@ == want.take(out@.len() as int),
            decreases tw - x,
        {
            let (sx, sy): (u32, u32) = match orientation {
                2 => (w - 1 - x, y),
                3 => (w - 1 - x, h - 1 - y),
                4 => (x, h - 1 - y),
                5 => (y, x),
                6 => (y, h - 1 - x),
                7 => (w - 1 - y, h - 1 - x),
                _ => (w - 1 - y, x),
            };
            let ghost s = source_of(x as int, y as int, wi, hi, o);
            proof {
                assert(s == (sx as int, sy as int));
                lemma_source_inside(x as int, y as int, wi, hi, o);
                lemma_offset_inside(sx as int, sy as int, wi, hi);
            }
            let at: usize = pixel_offset(sx, sy, w, h, rgba.len());
            let ghost k = out@.len() as int;
            proof {
                lemma_pixel(x as int, row, tw as int, 0);
                lemma_pixel(x as int, row, tw as int, 1);
                lemma_pixel(x as int, row, tw as int, 2);
                lemma_pixel(x as int, row, tw as int, 3);
                assert(source_byte(k, wi, hi, o) == at);
                assert(source_byte(k + 1, wi, hi, o) == at + 1);
                assert(source_byte(k + 2, wi, hi, o) == at + 2);
                assert(source_byte(k + 3, wi, hi, o) == at + 3);
            }
            out.push(rgba[at]);
            out.push(rgba[at + 1]);
            out.push(rgba[at + 2]);
            out.push(rgba[at + 3]);
            assert(out@ =~= want.take(k + 4));
            x += 1;
        }
        assert((row + 1) * tw == row * tw + tw) by (nonlinear_arith);
        y += 1;
    }
    assert(th * tw == tw * th) by (nonlinear_arith);
    assert(want.take(want.len() as int) =~= want);
    (out, tw, th)
}

fn pixel_offset(x: u32, y: u32, w: u32, h: u32, len: usize) -> (r: usize)
    requires
        x < w,
        y < h,
        w * h * 4 <= len,
    ensures
        r == (y * w + x) * 4,
        r + 4 <= len,
{
    proof {
        lemma_offset_inside(x as int, y as int, w as int, h as int);
        assert(y * w <= 0xFFFF_FFFF * 0xFFFF_FFFF) by (nonlinear_arith)
            requires
                y <= 0xFFFF_FFFF,
                w <= 0xFFFF_FFFF,
        ;
    }
    let p: u64 = y as u64 * w as u64 + x as u64;
    p as usize * 4
}

/// The orientation that turns a frame back: the two quarter turns undo each other, and
/// every other one undoes itself.
pub open spec fn inverse(orientation: int) -> int {
    if orientation == 6 {
        8
    } else if orientation == 8 {
        6
    } else {
        orientation
    }
}

/// Turning a frame and turning it back gives the frame. So no byte is lost or invented.
pub proof fn turning_back_restores_the_frame(rgba: Seq<u8>, w: int, h: int, orientation: int)
    requires
        turns(orientation),
        0 <= w,
        0 <= h,
        rgba.len() == w * h * 4,
    ensures
        ({
            let tw = turned_w(w, h, orientation);
            let th = turned_h(w, h, orientation);
            &&& turned_w(tw, th, inverse(orientation)) == w
            &&& turned_h(tw, th, inverse(orientation)) == h
            &&& turned(turned(rgba, w, h, orientation), tw, th, inverse(orientation)) == rgba
        }),
{
    let o = orientation;
    let v = inverse(o);
    let tw = turned_w(w, h, o);
    let th = turned_h(w, h, o);
    let t = turned(rgba, w, h, o);
    let u = turned(t, tw, th, v);
    assert(tw * th == w * h) by (nonlinear_arith)
        requires
            (tw == w && th == h) || (tw == h && th == w),
    ;
    assert forall|k: int| 0 <= k < rgba.len() implies #[trigger] u[k] == rgba[k] by {
        let p = k / 4;
        let c = k % 4;
        assert(0 <= p < w * h);
        assert(w > 0) by (nonlinear_arith)
            requires
                0 <= w,
                0 <= p < w * h,
        ;
        lemma_fundamental_div_mod(p, w);
        let x = p % w;
        let y = p / w;
        assert(0 <= x < w && 0 <= y < h) by (nonlinear_arith)
            requires
                w > 0,
                x == p % w,
                y == p / w,
                0 <= p < w * h,
        ;
        let s = source_of(x, y, tw, th, v);
        lemma_source_inside(x, y, tw, th, v);
        lemma_offset_inside(s.0, s.1, tw, th);
        let j = source_byte(k, tw, th, v);
        assert(j == (s.1 * tw + s.0) * 4 + c);
        lemma_pixel(s.0, s.1, tw, c);
        assert(u[k] == t[j]);
        assert(t[j] == rgba[source_byte(j, w, h, o)]);
        assert(source_of(s.0, s.1, w, h, o) == (x, y));
        assert(y * w == w * y) by (nonlinear_arith);
    }
    assert(u =~= rgba);
}

/// A fitted frame is shrunk as far as it may be: by 1, 2, 4 or 8, so that at least one side
/// still fills the box, and not by twice as much where neither would. A side that is shrunk
/// by `n` is rounded up, so it fills `b` pixels as long as it has more than `n * (b - 1)`.
pub proof fn a_fit_shrinks_as_far_as_it_may(w: int, h: int, box_w: u32, box_h: u32)
    requires
        0 <= w,
        0 <= h,
    ensures
        ({
            let n = divisor(TargetSize::Fit(box_w, box_h), w, h);
            &&& n == 1 || n == 2 || n == 4 || n == 8
            &&& n > 1 ==> w > n * (box_w - 1) || h > n * (box_h - 1)
            &&& n < 8 ==> w <= 2 * n * (box_w - 1) && h <= 2 * n * (box_h - 1)
        }),
{
    let n = divisor(TargetSize::Fit(box_w, box_h), w, h);
    let a = box_w - 1;
    let b = box_h - 1;
    assert(n == 8 || n == 4 || n == 2 || n == 1);
    assert(n * a == if n == 8 { 8 * a } else if n == 4 { 4 * a } else if n == 2 { 2 * a } else { a })
        by (nonlinear_arith)
        requires
            n == 8 || n == 4 || n == 2 || n == 1,
    ;
    assert(n * b == if n == 8 { 8 * b } else if n == 4 { 4 * b } else if n == 2 { 2 * b } else { b })
        by (nonlinear_arith)
        requires
            n == 8 || n == 4 || n == 2 || n == 1,
    ;
    assert(2 * n * a == 2 * (n * a)) by (nonlinear_arith);
    assert(2 * n * b == 2 * (n * b)) by (nonlinear_arith);
}

/// A frame that is not fitted is shrunk by what is asked, and by nothing where that is
/// nothing.
pub proof fn a_frame_is_shrunk_by_what_is_asked(w: int, h: int, n: u8)
    ensures
        divisor(TargetSize::Full, w, h) == 1,
        n > 0 ==> divisor(TargetSize::Scaled(n), w, h) == n,
        divisor(TargetSize::Scaled(0), w, h) == 1,
{
}

/// Where a pixel goes when a frame is turned upright: 2 mirrors it left to right, 3 turns it
/// by half, 4 mirrors it top to bottom, 5 mirrors it along the diagonal from the top left, 6
/// turns it by a quarter to the right, 7 mirrors it along the other diagonal and 8 turns it
/// by a quarter to the left.
pub open spec fn turned_place(x: int, y: int, w: int, h: int, orientation: int) -> (int, int) {
    if orientation == 2 {
        (w - 1 - x, y)
    } else if orientation == 3 {
        (w - 1 - x, h - 1 - y)
    } else if orientation == 4 {
        (x, h - 1 - y)
    } else if orientation == 5 {
        (y, x)
    } else if orientation == 6 {
        (h - 1 - y, x)
    } else if orientation == 7 {
        (h - 1 - y, w - 1 - x)
    } else if orientation == 8 {
        (y, w - 1 - x)
    } else {
        (x, y)
    }
}

/// Every pixel of a frame stands in the upright frame where its orientation puts it, with
/// all four of its bytes. A quarter turn swaps width and height.
pub proof fn every_pixel_goes_where_it_is_turned(
    rgba: Seq<u8>,
    w: int,
    h: int,
    orientation: int,
    x: int,
    y: int,
    c: int,
)
    requires
        2 <= orientation <= 8,
        0 <= x < w,
        0 <= y < h,
        0 <= c < 4,
        rgba.len() == w * h * 4,
    ensures
        ({
            let tw = turned_w(w, h, orientation);
            let th = turned_h(w, h, orientation);
            let t = turned(rgba, w, h, orientation);
            let at = turned_place(x, y, w, h, orientation);
            &&& orientation <= 4 ==> tw == w && th == h
            &&& orientation >= 5 ==> tw == h && th == w
            &&& t.len() == rgba.len()
            &&& 0 <= at.0 < tw
            &&& 0 <= at.1 < th
            &&& t[(at.1 * tw + at.0) * 4 + c] == rgba[(y * w + x) * 4 + c]
        }),
{
    let o = orientation;
    let tw = turned_w(w, h, o);
    let th = turned_h(w, h, o);
    let at = turned_place(x, y, w, h, o);
    assert(tw * th == w * h) by (nonlinear_arith)
        requires
            (tw == w && th == h) || (tw == h && th == w),
    ;
    assert(0 <= w * h) by (nonlinear_arith)
        requires
            0 <= w,
            0 <= h,
    ;
    lemma_pixel(at.0, at.1, tw, c);
    lemma_offset_inside(at.0, at.1, tw, th);
    let k = (at.1 * tw + at.0) * 4 + c;
    assert(source_of(at.0, at.1, w, h, o) == (x, y));
    assert(source_byte(k, w, h, o) == (y * w + x) * 4 + c);
}

/// A frame with any other orientation is upright as it is.
pub proof fn other_frames_are_upright(rgba: Seq<u8>, w: int, h: int, orientation: int)
    requires
        orientation < 2 || orientation > 8,
    ensures
        turned(rgba, w, h, orientation) == rgba,
        turned_w(w, h, orientation) == w,
        turned_h(w, h, orientation) == h,
{
}

} // verus!
