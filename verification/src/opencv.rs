use crate::image::{lemma_index_injective, lemma_pixel_ranges, GrayImage, Image, RgbImage, RgbaImage};
use vstd::prelude::*;

verus! {

/// Square of the difference of channel `c` of pixel `i` in two images.
pub open spec fn channel_sq_diff<const C: usize>(a: Image<C>, b: Image<C>, i: int, c: int) -> int {
    (a.byte(i, c) - b.byte(i, c)) * (a.byte(i, c) - b.byte(i, c))
}

/// Squared Euclidean distance between the red, green and blue channels of pixel `i`.
pub open spec fn color_sq_distance<const C: usize>(a: Image<C>, b: Image<C>, i: int) -> int {
    channel_sq_diff(a, b, i, 0) + channel_sq_diff(a, b, i, 1) + channel_sq_diff(a, b, i, 2)
}

/// The largest `r` in `0..=k` with `r * r <= n`.
pub open spec fn root_at_most(n: int, k: nat) -> nat
    decreases k,
{
    if k == 0 {
        0
    } else if k * k <= n {
        k
    } else {
        root_at_most(n, (k - 1) as nat)
    }
}

/// The integer square root of `n`, capped at 255: the largest `r` in
/// `0..=255` with `r * r <= n`.
pub open spec fn capped_sqrt(n: int) -> nat {
    root_at_most(n, 255)
}

/// Value of pixel `i` of the difference mask of `a` and `b`: their color
/// distance, rounded down and capped at 255.
pub open spec fn difference_value<const C: usize>(a: Image<C>, b: Image<C>, i: int) -> u8 {
    capped_sqrt(color_sq_distance(a, b, i)) as u8
}

/// `r` is the capped root of `n` when `r * r <= n` and the next square exceeds
/// `n` (or `r` is the cap).
pub proof fn lemma_root_at_most(n: int, k: nat, r: nat)
    requires
        r <= k <= 255,
        r * r <= n,
        r == 255 || n < (r + 1) * (r + 1),
    ensures
        root_at_most(n, k) == r,
    decreases k,
{
    if k != r {
        assert(k * k >= (r + 1) * (r + 1)) by (nonlinear_arith)
            requires
                k >= r + 1,
                r >= 0,
        ;
        lemma_root_at_most(n, (k - 1) as nat, r);
    }
}

/// Integer square root of `n`, capped at 255.
fn capped_isqrt(n: u32) -> (r: u8)
    ensures
        r == capped_sqrt(n as int),
{
    if n >= 65025 {
        proof {
            lemma_root_at_most(n as int, 255, 255);
        }
        return 255;
    }
    let mut lo: u32 = 0;
    let mut hi: u32 = 255;
    while hi - lo > 1
        invariant
            lo < hi <= 255,
            lo * lo <= n,
            n < hi * hi,
        decreases hi - lo,
    {
        let mid: u32 = lo + (hi - lo) / 2;
        assert(mid * mid <= 255 * 255) by (nonlinear_arith)
            requires
                mid < 255,
        ;
        if mid * mid <= n {
            lo = mid;
        } else {
            hi = mid;
        }
    }
    proof {
        lemma_root_at_most(n as int, 255, lo as nat);
    }
    lo as u8
}

/// Distance of the colors of pixel `i`, read from two buffers of `C`-byte pixels.
fn pixel_distance(a: &Vec<u8>, b: &Vec<u8>, i: usize, cs: usize) -> (d: u8)
    requires
        3 <= cs,
        i * cs + cs <= a@.len(),
        i * cs + cs <= b@.len(),
    ensures
        d as int == capped_sqrt(
            (a@[i * cs] - b@[i * cs]) * (a@[i * cs] - b@[i * cs]) + (a@[i * cs + 1] - b@[i * cs
                + 1]) * (a@[i * cs + 1] - b@[i * cs + 1]) + (a@[i * cs + 2] - b@[i * cs + 2]) * (a@[i
                * cs + 2] - b@[i * cs + 2]),
        ),
{
    let _len: usize = a.len();
    let base: usize = i * cs;
    let dr: i32 = a[base] as i32 - b[base] as i32;
    let dg: i32 = a[base + 1] as i32 - b[base + 1] as i32;
    let db: i32 = a[base + 2] as i32 - b[base + 2] as i32;
    assert(dr * dr <= 65025 && dg * dg <= 65025 && db * db <= 65025 && 0 <= dr * dr && 0 <= dg
        * dg && 0 <= db * db) by (nonlinear_arith)
        requires
            -255 <= dr <= 255,
            -255 <= dg <= 255,
            -255 <= db <= 255,
    ;
    let sq: u32 = (dr * dr) as u32 + (dg * dg) as u32 + (db * db) as u32;
    capped_isqrt(sq)
}

/// Shared body of the two difference masks: pixel `i` of the result is the
/// capped distance of the colors of pixel `i` in `img1` and `img2`.
fn difference_mask<const C: usize>(img1: &Image<C>, img2: &Image<C>) -> (mask: GrayImage)
    requires
        3 <= C,
        img1.wf(),
        img2.wf(),
        img1.spec_width() == img2.spec_width(),
        img1.spec_height() == img2.spec_height(),
    ensures
        mask.wf(),
        mask.spec_width() == img1.spec_width(),
        mask.spec_height() == img1.spec_height(),
        forall|i: int| 0 <= i < img1.area() ==> #[trigger] mask.byte(i, 0) == difference_value(*img1, *img2, i),
{
    let n: usize = img1.pixel_count();
    let a: &Vec<u8> = img1.as_raw();
    let b: &Vec<u8> = img2.as_raw();
    let mut out: Vec<u8> = Vec::new();
    let mut i: usize = 0;
    while i < n
        invariant
            n == img1.area(),
            n == img2.area(),
            a@ == img1@,
            b@ == img2@,
            img1.wf(),
            img2.wf(),
            3 <= C,
            0 <= i <= n,
            out@.len() == i,
            forall|k: int| 0 <= k < i ==> #[trigger] out@[k] == difference_value(*img1, *img2, k),
        decreases n - i,
    {
        proof {
            lemma_pixel_ranges(i as int, i as int, C as int, n as int);
        }
        let d: u8 = pixel_distance(a, b, i, C);
        out.push(d);
        i = i + 1;
    }
    let w: u32 = img1.width();
    let h: u32 = img1.height();
    let res = GrayImage::from_raw(w, h, out);
    let mask = res.unwrap();
    assert forall|i: int| 0 <= i < img1.area() implies #[trigger] mask.byte(i, 0) == difference_value(*img1, *img2, i) by {
        assert(mask.byte(i, 0) == out@[i]);
    }
    mask
}

/// Per-pixel color distance of two RGBA images (alpha is ignored), rounded
/// down and capped at 255.
pub fn rgba_difference_mask(img1: &RgbaImage, img2: &RgbaImage) -> (mask: GrayImage)
    requires
        img1.wf(),
        img2.wf(),
        img1.spec_width() == img2.spec_width(),
        img1.spec_height() == img2.spec_height(),
    ensures
        mask.wf(),
        mask.spec_width() == img1.spec_width(),
        mask.spec_height() == img1.spec_height(),
        forall|i: int| 0 <= i < img1.area() ==> #[trigger] mask.byte(i, 0) == difference_value(*img1, *img2, i),
{
    difference_mask(img1, img2)
}

/// Per-pixel color distance of two RGB images, rounded down and capped at 255.
pub fn rgb_difference_mask(img1: &RgbImage, img2: &RgbImage) -> (mask: GrayImage)
    requires
        img1.wf(),
        img2.wf(),
        img1.spec_width() == img2.spec_width(),
        img1.spec_height() == img2.spec_height(),
    ensures
        mask.wf(),
        mask.spec_width() == img1.spec_width(),
        mask.spec_height() == img1.spec_height(),
        forall|i: int| 0 <= i < img1.area() ==> #[trigger] mask.byte(i, 0) == difference_value(*img1, *img2, i),
{
    difference_mask(img1, img2)
}

/// Drops the alpha channel: pixel `i` of the result holds the red, green and
/// blue bytes of pixel `i` of `rgba`.
pub fn rgba_2_rgb(rgba: &RgbaImage) -> (rgb: RgbImage)
    requires
        rgba.wf(),
    ensures
        rgb.wf(),
        rgb.spec_width() == rgba.spec_width(),
        rgb.spec_height() == rgba.spec_height(),
        forall|i: int, c: int|
            0 <= i < rgba.area() && 0 <= c < 3 ==> #[trigger] rgb.byte(i, c) == rgba.byte(i, c),
{
    let n: usize = rgba.pixel_count();
    let src: &Vec<u8> = rgba.as_raw();
    let _len: usize = src.len();
    let mut out: Vec<u8> = Vec::new();
    let mut i: usize = 0;
    while i < n
        invariant
            n == rgba.area(),
            src@ == rgba@,
            rgba.wf(),
            src@.len() == 4 * n,
            _len == src@.len(),
            0 <= i <= n,
            out@.len() == 3 * i,
            forall|k: int, c: int|
                0 <= k < i && 0 <= c < 3 ==> #[trigger] out@[3 * k + c] == src@[4 * k + c],
        decreases n - i,
    {
        out.push(src[4 * i]);
        out.push(src[4 * i + 1]);
        out.push(src[4 * i + 2]);
        i = i + 1;
    }
    let rgb = RgbImage::from_raw(rgba.width(), rgba.height(), out).unwrap();
    assert forall|i: int, c: int|
        0 <= i < rgba.area() && 0 <= c < 3 implies #[trigger] rgb.byte(i, c) == rgba.byte(i, c) by {
        assert(rgb.byte(i, c) == out@[3 * i + c]);
    }
    rgb
}

/// Whether every channel of a pixel lies between the bounds, inclusive.
pub open spec fn in_range(p: Seq<u8>, lower: Seq<u8>, upper: Seq<u8>) -> bool {
    forall|c: int| 0 <= c < 4 ==> lower[c] <= #[trigger] p[c] <= upper[c]
}

/// A mask that is 255 where all four channels of the pixel lie between
/// `lower` and `upper` (inclusive) and 0 elsewhere.
pub fn rgba_in_range(frame: &RgbaImage, lower: [u8; 4], upper: [u8; 4]) -> (mask: GrayImage)
    requires
        frame.wf(),
    ensures
        mask.wf(),
        mask.spec_width() == frame.spec_width(),
        mask.spec_height() == frame.spec_height(),
        forall|i: int|
            0 <= i < frame.area() ==> #[trigger] mask.byte(i, 0) == if in_range(
                frame.pixel(i),
                lower@,
                upper@,
            ) {
                255u8
            } else {
                0u8
            },
{
    let n: usize = frame.pixel_count();
    let raw: &Vec<u8> = frame.as_raw();
    let _len: usize = raw.len();
    let mut mask_pixels: Vec<u8> = Vec::new();
    let mut i: usize = 0;
    while i < n
        invariant
            n == frame.area(),
            raw@ == frame@,
            frame.wf(),
            raw@.len() == 4 * n,
            _len == raw@.len(),
            0 <= i <= n,
            mask_pixels@.len() == i,
            forall|k: int|
                0 <= k < i ==> #[trigger] mask_pixels@[k] == if in_range(
                    frame.pixel(k),
                    lower@,
                    upper@,
                ) {
                    255u8
                } else {
                    0u8
                },
        decreases n - i,
    {
        let b: usize = 4 * i;
        let is_in_range = raw[b] >= lower[0] && raw[b] <= upper[0] && raw[b + 1] >= lower[1]
            && raw[b + 1] <= upper[1] && raw[b + 2] >= lower[2] && raw[b + 2] <= upper[2] && raw[b
            + 3] >= lower[3] && raw[b + 3] <= upper[3];
        proof {
            let p = frame.pixel(i as int);
            assert(p.len() == 4);
            assert(p[0] == raw@[b as int] && p[1] == raw@[b + 1] && p[2] == raw@[b + 2] && p[3]
                == raw@[b + 3]);
            if is_in_range {
                assert forall|c: int| 0 <= c < 4 implies lower@[c] <= #[trigger] p[c] <= upper@[c] by {
                    if c == 0 {
                    } else if c == 1 {
                    } else if c == 2 {
                    } else {
                    }
                }
            } else {
                assert(!(lower@[0] <= p[0] <= upper@[0]) || !(lower@[1] <= p[1] <= upper@[1]) || !(
                lower@[2] <= p[2] <= upper@[2]) || !(lower@[3] <= p[3] <= upper@[3]));
            }
        }
        mask_pixels.push(if is_in_range { 255u8 } else { 0u8 });
        i = i + 1;
    }
    let mask = GrayImage::from_raw(frame.width(), frame.height(), mask_pixels).unwrap();
    assert forall|i: int| 0 <= i < frame.area() implies #[trigger] mask.byte(i, 0) == if in_range(
        frame.pixel(i),
        lower@,
        upper@,
    ) {
        255u8
    } else {
        0u8
    } by {
        assert(mask.byte(i, 0) == mask_pixels@[i]);
    }
    mask
}

/// The value of a `u32` reinterpreted as an `i32` (two's complement).
pub open spec fn as_signed(v: u32) -> int {
    if v <= i32::MAX {
        v as int
    } else {
        v - 0x1_0000_0000
    }
}

pub open spec fn max_int(a: int, b: int) -> int {
    if a >= b {
        a
    } else {
        b
    }
}

pub open spec fn min_int(a: int, b: int) -> int {
    if a <= b {
        a
    } else {
        b
    }
}

/// Whether `circle` paints the pixel at column `x`, row `y`: the pixel lies in
/// the circle's bounding box, clipped to `0 ..= size - 1` on both axes (sizes and
/// center taken as `i32`), and within distance `radius` of the center.
pub open spec fn circle_paints(
    center_x: u32,
    center_y: u32,
    radius: i32,
    width: u32,
    height: u32,
    x: int,
    y: int,
) -> bool {
    let cx = as_signed(center_x);
    let cy = as_signed(center_y);
    &&& max_int(cx - radius, 0) <= x <= min_int(cx + radius, as_signed(width) - 1)
    &&& max_int(cy - radius, 0) <= y <= min_int(cy + radius, as_signed(height) - 1)
    &&& (x - cx) * (x - cx) + (y - cy) * (y - cy) <= radius * radius
}

/// The color that `circle` paints with.
pub open spec fn circle_color() -> Seq<u8> {
    seq![0u8, 255u8, 127u8, 255u8]
}

pub fn to_signed(v: u32) -> (r: i64)
    ensures
        r == as_signed(v),
{
    if v <= 0x7fff_ffff {
        v as i64
    } else {
        v as i64 - 0x1_0000_0000
    }
}

/// Paints, in the color `[0, 255, 127, 255]`, every pixel within distance
/// `radius` of the center; all other pixels keep their color.
pub fn circle(img: &mut RgbaImage, center_x: u32, center_y: u32, radius: i32)
    requires
        old(img).wf(),
    ensures
        final(img).wf(),
        final(img).spec_width() == old(img).spec_width(),
        final(img).spec_height() == old(img).spec_height(),
        forall|x: int, y: int|
            0 <= x < old(img).spec_width() && 0 <= y < old(img).spec_height() ==> #[trigger] final(img).pixel(old(img).index_of(x, y)) == if circle_paints(
                center_x,
                center_y,
                radius,
                old(img).spec_width() as u32,
                old(img).spec_height() as u32,
                x,
                y,
            ) {
                circle_color()
            } else {
                old(img).pixel(old(img).index_of(x, y))
            },
{
    let ghost orig = *img;
    let color: [u8; 4] = [0, 255, 127, 255];
    assert(color@ =~= circle_color());
    let (width, height) = img.dimensions();
    let cx: i64 = to_signed(center_x);
    let cy: i64 = to_signed(center_y);
    let r: i64 = radius as i64;
    let wi: i64 = to_signed(width);
    let hi: i64 = to_signed(height);
    let x_start: i64 = if cx - r >= 0 { cx - r } else { 0 };
    let x_end: i64 = if cx + r <= wi - 1 { cx + r } else { wi - 1 };
    let y_start: i64 = if cy - r >= 0 { cy - r } else { 0 };
    let y_end: i64 = if cy + r <= hi - 1 { cy + r } else { hi - 1 };
    let ghost paints = |x: int, y: int|
        circle_paints(center_x, center_y, radius, width, height, x, y);
    let mut y: i64 = y_start;
    while y <= y_end
        invariant
            img.wf(),
            img.spec_width() == width,
            img.spec_height() == height,
            width == orig.spec_width(),
            height == orig.spec_height(),
            orig.wf(),
            color@ == circle_color(),
            cx == as_signed(center_x),
            cy == as_signed(center_y),
            r == radius,
            wi == as_signed(width),
            hi == as_signed(height),
            x_start == max_int(cx - r, 0),
            x_end == min_int(cx + r, wi - 1),
            y_start == max_int(cy - r, 0),
            y_end == min_int(cy + r, hi - 1),
            y_start <= y,
            y <= y_end + 1 || y == y_start,
            forall|px: int, py: int| #![trigger paints(px, py)]
                paints(px, py) == circle_paints(center_x, center_y, radius, width, height, px, py),
            forall|px: int, py: int|
                0 <= px < width && 0 <= py < height ==> #[trigger] img.pixel(orig.index_of(px, py))
                    == if paints(px, py) && py < y {
                    color@
                } else {
                    orig.pixel(orig.index_of(px, py))
                },
        decreases y_end + 1 - y,
    {
        let mut x: i64 = x_start;
        while x <= x_end
            invariant
                img.wf(),
                img.spec_width() == width,
                img.spec_height() == height,
                width == orig.spec_width(),
                height == orig.spec_height(),
                orig.wf(),
                color@ == circle_color(),
                cx == as_signed(center_x),
                cy == as_signed(center_y),
                r == radius,
                wi == as_signed(width),
                hi == as_signed(height),
                x_start == max_int(cx - r, 0),
                x_end == min_int(cx + r, wi - 1),
                y_start == max_int(cy - r, 0),
                y_end == min_int(cy + r, hi - 1),
                y_start <= y <= y_end,
                x_start <= x,
                x <= x_end + 1 || x == x_start,
                forall|px: int, py: int| #![trigger paints(px, py)]
                    paints(px, py) == circle_paints(center_x, center_y, radius, width, height, px, py),
                forall|px: int, py: int|
                    0 <= px < width && 0 <= py < height ==> #[trigger] img.pixel(
                        orig.index_of(px, py),
                    ) == if paints(px, py) && (py < y || (py == y && px < x)) {
                        color@
                    } else {
                        orig.pixel(orig.index_of(px, py))
                    },
            decreases x_end + 1 - x,
        {
            assert(-0x1_0000_0000 <= x - cx <= 0x1_0000_0000);
            assert(-0x1_0000_0000 <= y - cy <= 0x1_0000_0000);
            let dx: i128 = (x - cx) as i128;
            let dy: i128 = (y - cy) as i128;
            assert(0 <= dx * dx <= 0x1_0000_0000_0000_0000) by (nonlinear_arith)
                requires
                    -0x1_0000_0000 <= dx <= 0x1_0000_0000,
            ;
            assert(0 <= dy * dy <= 0x1_0000_0000_0000_0000) by (nonlinear_arith)
                requires
                    -0x1_0000_0000 <= dy <= 0x1_0000_0000,
            ;
            assert(0 <= (r as i128) * (r as i128) <= 0x1_0000_0000_0000_0000) by (nonlinear_arith)
                requires
                    -0x1_0000_0000 <= r <= 0x1_0000_0000,
            ;
            let dist: i128 = dx * dx + dy * dy;
            let rr: i128 = (r as i128) * (r as i128);
            let ghost before = *img;
            if dist <= rr {
                assert(0 <= x < width && 0 <= y < height);
                img.put_pixel(x as u32, y as u32, color);
                assert forall|px: int, py: int|
                    0 <= px < width && 0 <= py < height implies #[trigger] img.pixel(
                    orig.index_of(px, py),
                ) == if paints(px, py) && (py < y || (py == y && px < x + 1)) {
                    color@
                } else {
                    orig.pixel(orig.index_of(px, py))
                } by {
                    crate::image::lemma_index_in_bounds(px, py, width as int, height as int, 0, 4);
                    if px != x || py != y {
                        if orig.index_of(px, py) == orig.index_of(x as int, y as int) {
                            lemma_index_injective(px, py, x as int, y as int, width as int);
                        }
                        assert(img.pixel(orig.index_of(px, py)) == before.pixel(orig.index_of(px, py)));
                    }
                }
            } else {
                assert forall|px: int, py: int|
                    0 <= px < width && 0 <= py < height implies #[trigger] img.pixel(
                    orig.index_of(px, py),
                ) == if paints(px, py) && (py < y || (py == y && px < x + 1)) {
                    color@
                } else {
                    orig.pixel(orig.index_of(px, py))
                } by {
                    if px == x && py == y {
                        assert(!paints(px, py));
                    }
                }
            }
            x = x + 1;
        }
        y = y + 1;
    }
}

proof fn lemma_root_props(n: int, k: nat)
    requires
        n >= 0,
    ensures
        root_at_most(n, k) <= k,
        root_at_most(n, k) * root_at_most(n, k) <= n,
        root_at_most(n, k) == k || n < (root_at_most(n, k) + 1) * (root_at_most(n, k) + 1),
    decreases k,
{
    if k == 0 {
        assert(root_at_most(n, k) == 0);
        assert(0int * 0int == 0);
    } else if k * k > n {
        lemma_root_props(n, (k - 1) as nat);
    } else {
        assert(root_at_most(n, k) == k);
    }
}

/// Each pixel of the difference mask is the Euclidean distance of the two
/// colors rounded down, or 255 when the distance is larger: its square is at
/// most the squared distance, and the next integer's square exceeds it unless
/// the value is 255.
pub proof fn law_difference_is_rounded_distance<const C: usize>(a: Image<C>, b: Image<C>, i: int)
    ensures
        ({
            let d = difference_value(a, b, i) as int;
            let dr = a.byte(i, 0) - b.byte(i, 0);
            let dg = a.byte(i, 1) - b.byte(i, 1);
            let db = a.byte(i, 2) - b.byte(i, 2);
            &&& d * d <= dr * dr + dg * dg + db * db
            &&& d == 255 || dr * dr + dg * dg + db * db < (d + 1) * (d + 1)
        }),
{
    let n = color_sq_distance(a, b, i);
    let dr = a.byte(i, 0) - b.byte(i, 0);
    let dg = a.byte(i, 1) - b.byte(i, 1);
    let db = a.byte(i, 2) - b.byte(i, 2);
    assert(dr * dr >= 0 && dg * dg >= 0 && db * db >= 0) by (nonlinear_arith);
    lemma_root_props(n, 255);
}

/// The difference mask does not depend on the order of the two images.
pub proof fn law_difference_symmetric<const C: usize>(a: Image<C>, b: Image<C>, i: int)
    ensures
        difference_value(a, b, i) == difference_value(b, a, i),
{
    assert forall|c: int| #[trigger] channel_sq_diff(a, b, i, c) == channel_sq_diff(b, a, i, c) by {
        let d = a.byte(i, c) - b.byte(i, c);
        assert(d * d == (-d) * (-d)) by (nonlinear_arith);
    }
}

/// An image differs from itself nowhere: every pixel of its difference mask is 0.
pub proof fn law_difference_with_itself<const C: usize>(a: Image<C>, i: int)
    ensures
        difference_value(a, a, i) == 0,
{
    assert(color_sq_distance(a, a, i) == 0);
    assert((0nat + 1) * (0nat + 1) == 1) by (nonlinear_arith);
    lemma_root_at_most(0, 255, 0);
}

/// The difference mask ignores alpha: after both images go through
/// `rgba_2_rgb` (which keeps the first three channels), their RGB difference
/// mask equals the RGBA one.
pub proof fn law_difference_ignores_alpha(a: RgbaImage, b: RgbaImage, a3: RgbImage, b3: RgbImage, i: int)
    requires
        forall|c: int| 0 <= c < 3 ==> #[trigger] a3.byte(i, c) == a.byte(i, c),
        forall|c: int| 0 <= c < 3 ==> #[trigger] b3.byte(i, c) == b.byte(i, c),
    ensures
        difference_value(a3, b3, i) == difference_value(a, b, i),
{
    assert(a3.byte(i, 0) == a.byte(i, 0) && a3.byte(i, 1) == a.byte(i, 1) && a3.byte(i, 2) == a.byte(i, 2));
    assert(b3.byte(i, 0) == b.byte(i, 0) && b3.byte(i, 1) == b.byte(i, 1) && b3.byte(i, 2) == b.byte(i, 2));
}

/// With the widest bounds, `rgba_in_range` accepts every pixel.
pub proof fn law_full_range_accepts_all(p: Seq<u8>)
    ensures
        in_range(p, seq![0u8, 0u8, 0u8, 0u8], seq![255u8, 255u8, 255u8, 255u8]),
{
}

} // verus!
