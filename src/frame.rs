//! Brightest-point localisation in an RGB frame.
use vstd::prelude::*;
use vstd::arithmetic::div_mod::lemma_fundamental_div_mod_converse;

verus! {

/// An RGB frame, row-major, three bytes per pixel.
pub struct Frame {
    pub width: u32,
    pub height: u32,
    pub data: Vec<u8>,
}

impl Frame {
    /// The buffer holds exactly three samples for each of the `width * height` pixels.
    pub open spec fn wf(&self) -> bool {
        self.data@.len() == 3 * (self.width as int) * (self.height as int)
    }

    pub open spec fn pixel_count(&self) -> int {
        (self.width as int) * (self.height as int)
    }
}

/// Why no coordinate could be produced for a frame.
#[derive(Debug, Clone, Copy, PartialEq, Eq, Structural)]
pub enum DetectionError {
    /// No pixel of the frame has a positive brightness.
    NoPeak,
}

/// Every sample of the frame is zero.
pub open spec fn is_dark(data: Seq<u8>) -> bool {
    forall|i: int| 0 <= i < data.len() ==> #[trigger] data[i] == 0
}

/// Brightness of pixel `p` (row-major index): the plain sum of its three channels.
pub open spec fn brightness(data: Seq<u8>, p: int) -> int {
    data[3 * p] as int + data[3 * p + 1] as int + data[3 * p + 2] as int
}

/// Some pixel among the first `n` is brighter than zero.
pub open spec fn has_lit_pixel(data: Seq<u8>, n: int) -> bool {
    exists|q: int| 0 <= q < n && brightness(data, q) > 0
}

/// Pixel `p` is the first, in row-major order, of greatest brightness among
/// the first `n` pixels, and that brightness is positive.
pub open spec fn is_first_peak(data: Seq<u8>, n: int, p: int) -> bool {
    &&& 0 <= p < n
    &&& brightness(data, p) > 0
    &&& forall|q: int| 0 <= q < n ==> #[trigger] brightness(data, q) <= brightness(data, p)
    &&& forall|q: int| 0 <= q < p ==> #[trigger] brightness(data, q) < brightness(data, p)
}

/// What the scan of a frame's samples gives: the column and row of its first
/// brightest pixel, or `NoPeak` when no pixel is lit.
pub open spec fn peak_spec(data: Seq<u8>, width: u32, height: u32, r: Result<(u32, u32), DetectionError>) -> bool {
    let n = (width as int) * (height as int);
    match r {
        Ok((x, y)) => x < width && y < height && is_first_peak(data, n, (y as int) * (width as int) + x as int),
        Err(e) => e == DetectionError::NoPeak && !has_lit_pixel(data, n),
    }
}

proof fn lemma_row_col(w: int, h: int, x: int, y: int)
    requires
        0 <= x < w,
        0 <= y,
        y * w + x < w * h,
    ensures
        y < h,
{
    assert(y < h) by (nonlinear_arith)
        requires 0 <= x < w, 0 <= y, y * w + x < w * h;
}

/// A first peak is unique.
pub proof fn lemma_first_peak_unique(data: Seq<u8>, n: int, p1: int, p2: int)
    requires
        is_first_peak(data, n, p1),
        is_first_peak(data, n, p2),
    ensures
        p1 == p2,
{
    if p1 < p2 {
        assert(brightness(data, p1) < brightness(data, p2));
        assert(brightness(data, p2) <= brightness(data, p1));
    } else if p2 < p1 {
        assert(brightness(data, p2) < brightness(data, p1));
        assert(brightness(data, p1) <= brightness(data, p2));
    }
}

/// Scans every pixel in row-major order and returns the column and row of the
/// brightest one; among equally bright pixels the first one scanned wins.
pub fn find_peak(frame: &Frame) -> (r: Result<(u32, u32), DetectionError>)
    requires
        frame.wf(),
    ensures
        peak_spec(frame.data@, frame.width, frame.height, r),
{
    let ghost n = frame.pixel_count();
    let w = frame.width;
    let len = frame.data.len();
    let mut best: u32 = 0;
    let mut best_x: u32 = 0;
    let mut best_y: u32 = 0;
    let mut best_p: usize = 0;
    let mut x: u32 = 0;
    let mut y: u32 = 0;
    let mut k: usize = 0;
    let ghost mut p: int = 0;
    assert(len == 3 * n) by (nonlinear_arith)
        requires len == 3 * (frame.width as int) * (frame.height as int), n == (frame.width as int) * (frame.height as int);
    while k < len
        invariant
            frame.wf(),
            w == frame.width,
            len == frame.data@.len(),
            len == 3 * n,
            n == frame.pixel_count(),
            0 <= p <= n,
            k == 3 * p,
            w > 0 ==> x < w,
            p == (y as int) * (w as int) + x as int,
            p < n ==> y < frame.height,
            best == 0 ==> forall|q: int| 0 <= q < p ==> #[trigger] brightness(frame.data@, q) == 0,
            best > 0 ==> is_first_peak(frame.data@, p, best_p as int),
            best > 0 ==> best as int == brightness(frame.data@, best_p as int),
            best > 0 ==> best_p as int == (best_y as int) * (w as int) + best_x as int
                && best_x < w && best_y < frame.height,
        decreases len - k,
    {
        assert(p < n);
        if w > 0 {
            proof { lemma_row_col(w as int, frame.height as int, x as int, y as int); }
        } else {
            assert(n == 0) by (nonlinear_arith) requires n == (w as int) * (frame.height as int), w == 0;
        }
        let b: u32 = frame.data[k] as u32 + frame.data[k + 1] as u32 + frame.data[k + 2] as u32;
        assert(b as int == brightness(frame.data@, p));
        if b > best {
            best = b;
            best_p = k / 3;
            best_x = x;
            best_y = y;
        }
        k = k + 3;
        proof { p = p + 1; }
        if x + 1 == w {
            x = 0;
            y = y + 1;
            assert(p == (y as int) * (w as int)) by (nonlinear_arith)
                requires p == (y as int - 1) * (w as int) + w as int;
        } else {
            x = x + 1;
        }
        proof {
            if p < n {
                lemma_row_col(w as int, frame.height as int, x as int, y as int);
            }
        }
    }
    assert(p == n);
    if best == 0 {
        Err(DetectionError::NoPeak)
    } else {
        Ok((best_x, best_y))
    }
}

/// Largest width or height that the blur handles. It indexes pixels with
/// `i32`, reaching up to `ceil(2 * sigma)` pixels beyond the frame's edge
/// before clamping, which for any `u16` sigma is under `2^18`.
pub const BLUR_MAX_SIDE: u32 = 0x7ffc_0000;

/// Relies on imageproc::filter::gaussian_blur_f32, which returns an image of
/// the input's dimensions and panics only when sigma is not positive. Its
/// samples depend on the platform's floating-point functions, so nothing is
/// claimed of them but this: every output sample accumulates input samples
/// times finite non-negative weights from zero, so an all-dark frame stays
/// all dark.
#[verifier::external_body]
fn blur(frame: &Frame, sigma: u16) -> (r: Frame)
    requires
        frame.wf(),
        sigma > 0,
        frame.width <= BLUR_MAX_SIDE,
        frame.height <= BLUR_MAX_SIDE,
    ensures
        r.width == frame.width,
        r.height == frame.height,
        r.wf(),
        is_dark(frame.data@) ==> is_dark(r.data@),
{
    let image: image::RgbImage =
        image::ImageBuffer::from_raw(frame.width, frame.height, frame.data.clone()).unwrap();
    let out = imageproc::filter::gaussian_blur_f32(&image, sigma.into());
    Frame { width: out.width(), height: out.height(), data: out.into_raw() }
}

/// The frame that detection scans: blurred with a Gaussian of standard
/// deviation `sigma` pixels to suppress single-pixel noise, or an unchanged
/// copy when `sigma` is zero.
pub fn smooth(frame: &Frame, sigma: u16) -> (r: Frame)
    requires
        frame.wf(),
        sigma > 0 ==> frame.width <= BLUR_MAX_SIDE && frame.height <= BLUR_MAX_SIDE,
    ensures
        r.width == frame.width,
        r.height == frame.height,
        r.wf(),
        sigma == 0 ==> r.data@ == frame.data@,
        is_dark(frame.data@) ==> is_dark(r.data@),
{
    if sigma == 0 {
        let data = frame.data.clone();
        assert(data@ =~= frame.data@);
        Frame { width: frame.width, height: frame.height, data }
    } else {
        blur(frame, sigma)
    }
}

/// Locates the dominant bright point of a frame: smooths it as `smooth` does,
/// then returns the column and row of the first brightest pixel of the
/// result, as `find_peak` does. Without smoothing that is exactly the first
/// brightest pixel of the frame itself; with it, the blurred samples are the
/// platform's, so only the bounds of the result and the kind of failure are
/// stated, and that a dark frame has no peak.
pub fn detect(frame: &Frame, sigma: u16) -> (r: Result<(u32, u32), DetectionError>)
    requires
        frame.wf(),
        sigma > 0 ==> frame.width <= BLUR_MAX_SIDE && frame.height <= BLUR_MAX_SIDE,
    ensures
        sigma == 0 ==> peak_spec(frame.data@, frame.width, frame.height, r),
        match r {
            Ok((x, y)) => x < frame.width && y < frame.height,
            Err(e) => e == DetectionError::NoPeak,
        },
        is_dark(frame.data@) ==> r == Err::<(u32, u32), DetectionError>(DetectionError::NoPeak),
{
    let smoothed = smooth(frame, sigma);
    let r = find_peak(&smoothed);
    proof {
        if is_dark(frame.data@) {
            let n = smoothed.pixel_count();
            assert(smoothed.data@.len() == 3 * n) by (nonlinear_arith)
                requires
                    smoothed.data@.len() == 3 * (smoothed.width as int) * (smoothed.height as int),
                    n == (smoothed.width as int) * (smoothed.height as int);
            assert forall|q: int| 0 <= q < n implies #[trigger] brightness(smoothed.data@, q) == 0 by {
                assert(smoothed.data@[3 * q] == 0);
                assert(smoothed.data@[3 * q + 1] == 0);
                assert(smoothed.data@[3 * q + 2] == 0);
            }
        }
    }
    r
}

/// A pixel strictly brighter than every other is the first peak, whenever it
/// is lit (which it is as soon as the frame has a second pixel).
pub proof fn lemma_strict_maximum_is_peak(data: Seq<u8>, n: int, p: int)
    requires
        0 <= p < n,
        forall|q: int| 0 <= q < n && q != p ==> #[trigger] brightness(data, q) < brightness(data, p),
        n > 1 || brightness(data, p) > 0,
    ensures
        is_first_peak(data, n, p),
{
    if brightness(data, p) <= 0 {
        let q = if p == 0 { 1int } else { 0int };
        assert(brightness(data, q) < brightness(data, p));
        assert(brightness(data, q) >= 0);
    }
}

/// Of two lit pixels of equal and greatest brightness, with no brighter pixel
/// before the first, the first one in row-major order is the peak.
pub proof fn lemma_tie_goes_to_first(data: Seq<u8>, n: int, p1: int, p2: int)
    requires
        0 <= p1 < p2 < n,
        brightness(data, p1) == brightness(data, p2),
        brightness(data, p1) > 0,
        forall|q: int| 0 <= q < n && q != p1 && q != p2 ==> #[trigger] brightness(data, q) < brightness(data, p1),
    ensures
        is_first_peak(data, n, p1),
        !is_first_peak(data, n, p2),
{
}

/// Half the length of each arm of the marker cross, centre excluded.
pub const MARKER_REACH: u32 = 10;

/// Pixel (`px`, `py`) lies on the 21 by 21 cross centred on (`cx`, `cy`).
pub open spec fn on_marker(px: int, py: int, cx: int, cy: int) -> bool {
    (px == cx && cy - MARKER_REACH <= py <= cy + MARKER_REACH)
        || (py == cy && cx - MARKER_REACH <= px <= cx + MARKER_REACH)
}

/// Sample `j` of `frame` once the marker centred on (`cx`, `cy`) is drawn
/// in pure red.
pub open spec fn marked_sample(frame: Frame, cx: u32, cy: u32, j: int) -> u8 {
    let p = j / 3;
    let px = p % (frame.width as int);
    let py = p / (frame.width as int);
    if on_marker(px, py, cx as int, cy as int) {
        if j % 3 == 0 { 255u8 } else { 0u8 }
    } else {
        frame.data@[j]
    }
}

/// A copy of the frame with a red cross of 21 by 21 pixels centred on the
/// detected point, clipped to the frame, for checking detections by eye.
pub fn annotate(frame: &Frame, cx: u32, cy: u32) -> (r: Frame)
    requires
        frame.wf(),
        cx < frame.width,
        cy < frame.height,
    ensures
        r.width == frame.width,
        r.height == frame.height,
        r.wf(),
        forall|j: int| 0 <= j < r.data@.len() ==> r.data@[j] == marked_sample(*frame, cx, cy, j),
{
    let w = frame.width;
    let len = frame.data.len();
    let mut data: Vec<u8> = Vec::new();
    let mut x: u32 = 0;
    let mut y: u32 = 0;
    let mut c: usize = 0;
    let mut k: usize = 0;
    while k < len
        invariant
            frame.wf(),
            w == frame.width,
            w > 0,
            cx < w,
            len == frame.data@.len(),
            k <= len,
            data@.len() == k,
            x < w,
            c < 3,
            k == 3 * ((y as int) * (w as int) + x as int) + c,
            forall|j: int| 0 <= j < k ==> data@[j] == marked_sample(*frame, cx, cy, j),
        decreases len - k,
    {
        let ghost p = (y as int) * (w as int) + x as int;
        proof {
            lemma_fundamental_div_mod_converse(k as int, 3, p, c as int);
            lemma_fundamental_div_mod_converse(p, w as int, y as int, x as int);
            assert(p < (w as int) * (frame.height as int)) by (nonlinear_arith)
                requires k == 3 * p + c, k < len, len == 3 * (w as int) * (frame.height as int), c < 3;
            lemma_row_col(w as int, frame.height as int, x as int, y as int);
        }
        let (x64, y64, cx64, cy64, reach) = (x as u64, y as u64, cx as u64, cy as u64, MARKER_REACH as u64);
        let hit = (x64 == cx64 && y64 + reach >= cy64 && y64 <= cy64 + reach)
            || (y64 == cy64 && x64 + reach >= cx64 && x64 <= cx64 + reach);
        let v: u8 = if hit {
            if c == 0 { 255 } else { 0 }
        } else {
            frame.data[k]
        };
        data.push(v);
        k = k + 1;
        if c < 2 {
            c = c + 1;
        } else {
            c = 0;
            if x + 1 < w {
                x = x + 1;
            } else {
                x = 0;
                y = y + 1;
                assert(3 * ((y as int) * (w as int)) == 3 * ((y as int - 1) * (w as int) + w as int))
                    by (nonlinear_arith);
            }
        }
    }
    Frame { width: frame.width, height: frame.height, data }
}

proof fn lemma_pixel_index_injective(w: int, x1: int, y1: int, x2: int, y2: int)
    requires
        0 <= x1 < w,
        0 <= x2 < w,
        0 <= y1,
        0 <= y2,
        y1 * w + x1 == y2 * w + x2,
    ensures
        x1 == x2,
        y1 == y2,
{
    lemma_fundamental_div_mod_converse(y1 * w + x1, w, y1, x1);
    lemma_fundamental_div_mod_converse(y2 * w + x2, w, y2, x2);
}

/// When one lit pixel is strictly brighter than every other pixel of the
/// frame, the scan of the frame finds exactly that pixel.
pub proof fn lemma_strict_maximum_found(
    data: Seq<u8>,
    width: u32,
    height: u32,
    x: u32,
    y: u32,
    r: Result<(u32, u32), DetectionError>,
)
    requires
        x < width,
        y < height,
        forall|q: int| 0 <= q < (width as int) * (height as int) && q != (y as int) * (width as int) + x as int
            ==> #[trigger] brightness(data, q) < brightness(data, (y as int) * (width as int) + x as int),
        (width as int) * (height as int) > 1 || brightness(data, (y as int) * (width as int) + x as int) > 0,
        peak_spec(data, width, height, r),
    ensures
        r == Ok::<(u32, u32), DetectionError>((x, y)),
{
    let n = (width as int) * (height as int);
    let p = (y as int) * (width as int) + x as int;
    assert(p < n) by (nonlinear_arith)
        requires p == (y as int) * (width as int) + x as int, x < width, y < height, n == (width as int) * (height as int);
    lemma_strict_maximum_is_peak(data, n, p);
    match r {
        Ok((x2, y2)) => {
            let p2 = (y2 as int) * (width as int) + x2 as int;
            lemma_first_peak_unique(data, n, p, p2);
            lemma_pixel_index_injective(width as int, x as int, y as int, x2 as int, y2 as int);
        },
        Err(_) => {
            assert(brightness(data, p) > 0);
        },
    }
}

/// When the two brightest pixels of a frame are equally bright and lit, the
/// scan finds the one that comes first in row-major order.
pub proof fn lemma_tie_found_first(
    data: Seq<u8>,
    width: u32,
    height: u32,
    x1: u32,
    y1: u32,
    x2: u32,
    y2: u32,
    r: Result<(u32, u32), DetectionError>,
)
    requires
        x1 < width,
        y1 < height,
        x2 < width,
        y2 < height,
        (y1 as int) * (width as int) + x1 < (y2 as int) * (width as int) + x2,
        brightness(data, (y1 as int) * (width as int) + x1 as int)
            == brightness(data, (y2 as int) * (width as int) + x2 as int),
        brightness(data, (y1 as int) * (width as int) + x1 as int) > 0,
        forall|q: int| 0 <= q < (width as int) * (height as int)
            && q != (y1 as int) * (width as int) + x1 as int
            && q != (y2 as int) * (width as int) + x2 as int
            ==> #[trigger] brightness(data, q) < brightness(data, (y1 as int) * (width as int) + x1 as int),
        peak_spec(data, width, height, r),
    ensures
        r == Ok::<(u32, u32), DetectionError>((x1, y1)),
{
    let n = (width as int) * (height as int);
    let p1 = (y1 as int) * (width as int) + x1 as int;
    let p2 = (y2 as int) * (width as int) + x2 as int;
    assert(p2 < n) by (nonlinear_arith)
        requires p2 == (y2 as int) * (width as int) + x2 as int, x2 < width, y2 < height, n == (width as int) * (height as int);
    lemma_tie_goes_to_first(data, n, p1, p2);
    match r {
        Ok((x3, y3)) => {
            let p3 = (y3 as int) * (width as int) + x3 as int;
            lemma_first_peak_unique(data, n, p1, p3);
            lemma_pixel_index_injective(width as int, x1 as int, y1 as int, x3 as int, y3 as int);
        },
        Err(_) => {
            assert(brightness(data, p1) > 0);
        },
    }
}

} // verus!
