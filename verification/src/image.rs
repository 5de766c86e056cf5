use vstd::prelude::*;

verus! {

broadcast use vstd::array::group_array_axioms;

/// A row-major raster of `C`-channel pixels with 8 bits per channel.
///
/// Pixel `i` (that is, column `i % width` of row `i / width`) occupies the
/// bytes `C * i .. C * i + C` of the buffer.
pub struct Image<const C: usize> {
    width: u32,
    height: u32,
    data: Vec<u8>,
}

/// Four channels: red, green, blue, alpha.
pub type RgbaImage = Image<4>;

/// Three channels: red, green, blue.
pub type RgbImage = Image<3>;

/// One channel of intensity.
pub type GrayImage = Image<1>;

impl<const C: usize> View for Image<C> {
    type V = Seq<u8>;

    closed spec fn view(&self) -> Seq<u8> {
        self.data@
    }
}

impl<const C: usize> Image<C> {
    pub closed spec fn spec_width(&self) -> nat {
        self.width as nat
    }

    pub closed spec fn spec_height(&self) -> nat {
        self.height as nat
    }

    /// Number of pixels.
    pub open spec fn area(&self) -> nat {
        self.spec_width() * self.spec_height()
    }

    /// The buffer holds exactly `C` bytes for each of the `width * height` pixels.
    pub open spec fn wf(&self) -> bool {
        &&& 0 < C
        &&& self@.len() == self.area() * C
    }

    /// Byte `c` of pixel number `i` in row-major order.
    pub open spec fn byte(&self, i: int, c: int) -> u8 {
        self@[i * C + c]
    }

    /// Flat index of the pixel at column `x`, row `y`.
    pub open spec fn index_of(&self, x: int, y: int) -> int {
        y * self.spec_width() + x
    }

    /// An image of the given size with every byte 0.
    pub fn new(width: u32, height: u32) -> (img: Self)
        requires
            0 < C,
            width * height * C <= usize::MAX,
        ensures
            img.wf(),
            img.spec_width() == width,
            img.spec_height() == height,
            img@ == Seq::new(img@.len(), |i: int| 0u8),
    {
        proof {
            lemma_area_bounds(width as int, height as int, C as int);
        }
        let n: usize = (width as usize) * (height as usize) * C;
        let data: Vec<u8> = vec![0u8; n];
        Image { width, height, data }
    }

    /// Wraps a buffer; `None` when its length is not `width * height * C`.
    pub fn from_raw(width: u32, height: u32, data: Vec<u8>) -> (res: Option<Self>)
        requires
            0 < C,
        ensures
            res is Some <==> data@.len() == width * height * C,
            res matches Some(img) ==> img.wf() && img.spec_width() == width
                && img.spec_height() == height && img@ == data@,
    {
        proof {
            lemma_area_bounds(width as int, height as int, C as int);
            assert(width * height <= u32::MAX * u32::MAX) by (nonlinear_arith)
                requires
                    width <= u32::MAX,
                    height <= u32::MAX,
            ;
        }
        let wh: u64 = (width as u64) * (height as u64);
        let len: usize = data.len();
        if (len as u64) / (C as u64) != wh || len % C != 0 {
            proof {
                lemma_len_mismatch(len as int, width as int * height as int, C as int);
            }
            return None;
        }
        proof {
            vstd::arithmetic::div_mod::lemma_fundamental_div_mod(len as int, C as int);
            vstd::arithmetic::mul::lemma_mul_is_commutative(C as int, wh as int);
        }
        Some(Image { width, height, data })
    }

    pub fn width(&self) -> (w: u32)
        ensures
            w == self.spec_width(),
    {
        self.width
    }

    pub fn height(&self) -> (h: u32)
        ensures
            h == self.spec_height(),
    {
        self.height
    }

    pub fn dimensions(&self) -> (d: (u32, u32))
        ensures
            d.0 == self.spec_width(),
            d.1 == self.spec_height(),
    {
        (self.width, self.height)
    }

    /// The raw buffer.
    pub fn as_raw(&self) -> (r: &Vec<u8>)
        ensures
            r@ == self@,
    {
        &self.data
    }

    /// Gives up the raw buffer.
    pub fn into_raw(self) -> (r: Vec<u8>)
        ensures
            r@ == self@,
    {
        self.data
    }

    /// Number of pixels, computed from the buffer.
    pub fn pixel_count(&self) -> (n: usize)
        requires
            self.wf(),
        ensures
            n == self.area(),
    {
        proof {
            vstd::arithmetic::div_mod::lemma_div_multiples_vanish(self.area() as int, C as int);
            vstd::arithmetic::mul::lemma_mul_is_commutative(self.area() as int, C as int);
        }
        self.data.len() / C
    }

    /// Channel `c` of the pixel at column `x`, row `y`.
    pub fn get(&self, x: u32, y: u32, c: usize) -> (v: u8)
        requires
            self.wf(),
            x < self.spec_width(),
            y < self.spec_height(),
            c < C,
        ensures
            v == self.byte(self.index_of(x as int, y as int), c as int),
    {
        proof {
            lemma_index_in_bounds(x as int, y as int, self.width as int, self.height as int, c as int, C as int);
            assert(y * self.width <= (y * self.width + x) * C + c) by (nonlinear_arith)
                requires
                    0 <= x,
                    0 <= c,
                    0 < C,
                    0 <= y * self.width,
            ;
        }
        assert((y * self.width + x) * C + c < self.data@.len());
        let _len: usize = self.data.len();
        let row: usize = (y as usize) * (self.width as usize);
        assert(row == y * self.width);
        assert((row + x) * C + c < _len);
        assert(row + x <= (row + x) * C) by (nonlinear_arith)
            requires
                0 <= row + x,
                1 <= C,
        ;
        let i: usize = (row + (x as usize)) * C + c;
        self.data[i]
    }

    /// The `C` bytes of pixel number `i`.
    pub open spec fn pixel(&self, i: int) -> Seq<u8> {
        self@.subrange(i * C, i * C + C)
    }

    /// Replaces the pixel at column `x`, row `y`; every other pixel keeps its bytes.
    pub fn put_pixel(&mut self, x: u32, y: u32, p: [u8; C])
        requires
            old(self).wf(),
            x < old(self).spec_width(),
            y < old(self).spec_height(),
        ensures
            final(self).wf(),
            final(self).spec_width() == old(self).spec_width(),
            final(self).spec_height() == old(self).spec_height(),
            forall|k: int|
                0 <= k < old(self).area() ==> #[trigger] final(self).pixel(k) == if k
                    == old(self).index_of(x as int, y as int) {
                    p@
                } else {
                    old(self).pixel(k)
                },
    {
        let ghost old_img = *self;
        let ghost i = self.index_of(x as int, y as int);
        proof {
            lemma_index_in_bounds(x as int, y as int, self.width as int, self.height as int, 0, C as int);
            lemma_pixel_ranges(i, i, C as int, self.area() as int);
        }
        let mut c: usize = 0;
        while c < C
            invariant
                0 <= c <= C,
                self.wf(),
                self.spec_width() == old_img.spec_width(),
                self.spec_height() == old_img.spec_height(),
                x < self.spec_width(),
                y < self.spec_height(),
                0 <= i < self.area(),
                i == self.index_of(x as int, y as int),
                0 <= i * C,
                i * C + C <= self@.len(),
                self@.len() == old_img@.len(),
                forall|j: int|
                    0 <= j < self@.len() ==> #[trigger] self@[j] == if i * C <= j < i * C + c {
                        p@[j - i * C]
                    } else {
                        old_img@[j]
                    },
            decreases C - c,
        {
            let v: u8 = p[c];
            assert(v == p@[c as int]);
            let ghost before = self@;
            self.set(x, y, c, v);
            assert(self@ == before.update(i * C + c, v));
            assert forall|j: int| 0 <= j < self@.len() implies #[trigger] self@[j] == if i * C <= j
                < i * C + (c + 1) {
                p@[j - i * C]
            } else {
                old_img@[j]
            } by {
                if j == i * C + c {
                    assert(j - i * C == c);
                } else {
                    assert(self@[j] == before[j]);
                }
            }
            c = c + 1;
        }
        assert forall|k: int| 0 <= k < old_img.area() implies #[trigger] self.pixel(k) == if k == i {
            p@
        } else {
            old_img.pixel(k)
        } by {
            lemma_pixel_ranges(k, i, C as int, old_img.area() as int);
            if k == i {
                assert(self.pixel(k) =~= p@);
            } else {
                assert(self.pixel(k) =~= old_img.pixel(k));
            }
        }
    }

    /// Sets channel `c` of the pixel at column `x`, row `y`.
    pub fn set(&mut self, x: u32, y: u32, c: usize, v: u8)
        requires
            old(self).wf(),
            x < old(self).spec_width(),
            y < old(self).spec_height(),
            c < C,
        ensures
            final(self).wf(),
            final(self).spec_width() == old(self).spec_width(),
            final(self).spec_height() == old(self).spec_height(),
            final(self)@ == old(self)@.update(
                old(self).index_of(x as int, y as int) * C + c,
                v,
            ),
    {
        proof {
            lemma_index_in_bounds(x as int, y as int, self.width as int, self.height as int, c as int, C as int);
            assert(y * self.width <= (y * self.width + x) * C + c) by (nonlinear_arith)
                requires
                    0 <= x,
                    0 <= c,
                    0 < C,
                    0 <= y * self.width,
            ;
        }
        assert((y * self.width + x) * C + c < self.data@.len());
        let _len: usize = self.data.len();
        let row: usize = (y as usize) * (self.width as usize);
        assert(row == y * self.width);
        assert((row + x) * C + c < _len);
        assert(row + x <= (row + x) * C) by (nonlinear_arith)
            requires
                0 <= row + x,
                1 <= C,
        ;
        let i: usize = (row + (x as usize)) * C + c;
        self.data.set(i, v);
    }

    /// Same size and same bytes.
    pub fn same_as(&self, other: &Self) -> (b: bool)
        ensures
            b == (self.spec_width() == other.spec_width() && self.spec_height()
                == other.spec_height() && self@ == other@),
    {
        if self.width != other.width || self.height != other.height || self.data.len()
            != other.data.len() {
            return false;
        }
        let mut i: usize = 0;
        while i < self.data.len()
            invariant
                self.data@.len() == other.data@.len(),
                0 <= i <= self.data@.len(),
                forall|k: int| 0 <= k < i ==> self.data@[k] == other.data@[k],
            decreases self.data@.len() - i,
        {
            if self.data[i] != other.data[i] {
                return false;
            }
            i = i + 1;
        }
        assert(self.data@ =~= other.data@);
        true
    }

    /// Sets every pixel of row `y` to `p`; every other pixel keeps its bytes.
    pub fn paint_row(&mut self, y: u32, p: [u8; C])
        requires
            old(self).wf(),
            y < old(self).spec_height(),
        ensures
            final(self).wf(),
            final(self).spec_width() == old(self).spec_width(),
            final(self).spec_height() == old(self).spec_height(),
            forall|px: int, py: int|
                0 <= px < old(self).spec_width() && 0 <= py < old(self).spec_height()
                    ==> #[trigger] final(self).pixel(old(self).index_of(px, py)) == if py == y {
                    p@
                } else {
                    old(self).pixel(old(self).index_of(px, py))
                },
    {
        let ghost orig = *self;
        let w: u32 = self.width;
        let h: u32 = self.height;
        let mut x: u32 = 0;
        while x < w
            invariant
                self.wf(),
                orig.wf(),
                self.spec_width() == w,
                self.spec_height() == h,
                w == orig.spec_width(),
                h == orig.spec_height(),
                y < h,
                0 <= x <= w,
                forall|px: int, py: int|
                    0 <= px < w && 0 <= py < h ==> #[trigger] self.pixel(orig.index_of(px, py))
                        == if py == y && px < x {
                        p@
                    } else {
                        orig.pixel(orig.index_of(px, py))
                    },
            decreases w - x,
        {
            let ghost before = *self;
            self.put_pixel(x, y, p);
            assert forall|px: int, py: int|
                0 <= px < w && 0 <= py < h implies #[trigger] self.pixel(orig.index_of(px, py)) == if py
                == y && px < x + 1 {
                p@
            } else {
                orig.pixel(orig.index_of(px, py))
            } by {
                lemma_index_in_bounds(px, py, w as int, h as int, 0, C as int);
                if px != x || py != y {
                    if orig.index_of(px, py) == orig.index_of(x as int, y as int) {
                        lemma_index_injective(px, py, x as int, y as int, w as int);
                    }
                    assert(self.pixel(orig.index_of(px, py)) == before.pixel(orig.index_of(px, py)));
                }
            }
            x = x + 1;
        }
    }

}

/// Pixel `k` occupies bytes `k * c .. k * c + c`, inside the buffer and apart
/// from those of any other pixel `i`.
pub proof fn lemma_pixel_ranges(k: int, i: int, c: int, n: int)
    requires
        0 <= k < n,
        0 <= i < n,
        0 < c,
    ensures
        0 <= k * c,
        k * c + c <= n * c,
        k < i ==> k * c + c <= i * c,
        i < k ==> i * c + c <= k * c,
{
    assert(0 <= k * c && k * c + c <= n * c) by (nonlinear_arith)
        requires
            0 <= k < n,
            0 < c,
    ;
    assert(k < i ==> k * c + c <= i * c) by (nonlinear_arith)
        requires
            0 < c,
    ;
    assert(i < k ==> i * c + c <= k * c) by (nonlinear_arith)
        requires
            0 < c,
    ;
}

/// Flat indices of two pixels inside a `w`-wide image differ when the pixels do.
pub proof fn lemma_index_injective(x1: int, y1: int, x2: int, y2: int, w: int)
    requires
        0 <= x1 < w,
        0 <= x2 < w,
        0 <= y1,
        0 <= y2,
        y1 * w + x1 == y2 * w + x2,
    ensures
        x1 == x2,
        y1 == y2,
{
    if y1 < y2 {
        assert(y1 * w + x1 < y2 * w + x2) by (nonlinear_arith)
            requires
                y1 < y2,
                0 <= x1 < w,
                0 <= x2,
        ;
    } else if y2 < y1 {
        assert(y2 * w + x2 < y1 * w + x1) by (nonlinear_arith)
            requires
                y2 < y1,
                0 <= x2 < w,
                0 <= x1,
        ;
    }
}

/// Bounds on `w * h * c` products of machine integers.
pub proof fn lemma_area_bounds(w: int, h: int, c: int)
    requires
        0 <= w,
        0 <= h,
        0 < c,
    ensures
        0 <= w * h,
        w * h <= w * h * c,
{
    assert(0 <= w * h) by (nonlinear_arith)
        requires
            0 <= w,
            0 <= h,
    ;
    assert(w * h <= w * h * c) by (nonlinear_arith)
        requires
            0 <= w * h,
            0 < c,
    ;
}

proof fn lemma_len_mismatch(len: int, wh: int, c: int)
    requires
        0 <= len,
        0 <= wh,
        0 < c,
        len / c != wh || len % c != 0,
    ensures
        len != wh * c,
{
    if len == wh * c {
        vstd::arithmetic::div_mod::lemma_div_multiples_vanish(wh, c);
        vstd::arithmetic::div_mod::lemma_mod_multiples_basic(wh, c);
        vstd::arithmetic::mul::lemma_mul_is_commutative(wh, c);
    }
}

/// The byte of channel `c` of pixel `(x, y)` lies inside a `w * h * cs` buffer.
pub proof fn lemma_index_in_bounds(x: int, y: int, w: int, h: int, c: int, cs: int)
    requires
        0 <= x < w,
        0 <= y < h,
        0 <= c < cs,
    ensures
        0 <= y * w + x < w * h,
        0 <= (y * w + x) * cs + c < w * h * cs,
{
    assert(0 <= y * w + x < w * h) by (nonlinear_arith)
        requires
            0 <= x < w,
            0 <= y < h,
    ;
    let i = y * w + x;
    assert(0 <= i * cs + c < w * h * cs) by (nonlinear_arith)
        requires
            0 <= i < w * h,
            0 <= c < cs,
    ;
}

} // verus!
