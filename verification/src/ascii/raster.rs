//! Plain raster images (row-major 8-bit samples) and the resampling and
//! colour conversions that the `image` crate performs on them.

use vstd::prelude::*;

verus! {

/// An RGBA image with 8 bits per channel, row-major, four samples per pixel.
pub struct RgbaRaster {
    pub width: u32,
    pub height: u32,
    pub data: Vec<u8>,
}

/// A single-channel 8-bit image, row-major.
pub struct GrayRaster {
    pub width: u32,
    pub height: u32,
    pub data: Vec<u8>,
}

/// Sample `c` of pixel `(x, y)` in a row-major buffer of `w` pixels per row
/// and `k` samples per pixel.
pub open spec fn sample_at(data: Seq<u8>, w: nat, k: nat, x: int, y: int, c: int) -> u8 {
    data[(y * w + x) * k + c]
}

/// A pixel position inside a `w` by `h` grid with `k` samples per pixel
/// addresses a sample inside the buffer.
pub proof fn lemma_sample_in_bounds(x: int, y: int, w: int, h: int, k: int, c: int)
    requires
        0 <= x < w,
        0 <= y < h,
        0 <= c < k,
    ensures
        0 <= (y * w + x) * k + c < w * h * k,
        0 <= y * w + x < w * h,
{
    assert(0 <= y * w + x < w * h) by (nonlinear_arith)
        requires
            0 <= x < w,
            0 <= y < h,
    ;
    assert(0 <= (y * w + x) * k + c < w * h * k) by (nonlinear_arith)
        requires
            0 <= y * w + x < w * h,
            0 <= c < k,
    ;
}

/// The single-channel buffer of a `w` by `h` image whose pixel `(x, y)` has level
/// `f(x, y)`.
pub open spec fn grid(w: nat, h: nat, f: spec_fn(int, int) -> u8) -> Seq<u8> {
    Seq::new(w * h, |i: int| f(i % (w as int), i / (w as int)))
}

/// Pixel `(x, y)` of a grid is `f(x, y)`.
pub proof fn lemma_grid_sample(w: nat, h: nat, f: spec_fn(int, int) -> u8, x: int, y: int)
    requires
        0 <= x < w,
        0 <= y < h,
    ensures
        sample_at(grid(w, h, f), w, 1, x, y, 0) == f(x, y),
{
    lemma_sample_in_bounds(x, y, w as int, h as int, 1, 0);
    let i = y * w + x;
    vstd::arithmetic::div_mod::lemma_fundamental_div_mod_converse(i, w as int, y, x);
    assert((y * w + x) * 1 + 0 == i);
}

/// Two single-channel buffers of a `w` by `h` image with the same pixels are equal.
pub proof fn lemma_grid_ext(a: Seq<u8>, b: Seq<u8>, w: nat, h: nat)
    requires
        a.len() == w * h,
        b.len() == w * h,
        forall|x: int, y: int|
            0 <= x < w && 0 <= y < h ==> #[trigger] sample_at(a, w, 1, x, y, 0) == sample_at(b, w, 1, x, y, 0),
    ensures
        a == b,
{
    assert forall|i: int| 0 <= i < w * h implies a[i] == b[i] by {
        let x = i % (w as int);
        let y = i / (w as int);
        vstd::arithmetic::div_mod::lemma_fundamental_div_mod(i, w as int);
        vstd::arithmetic::div_mod::lemma_mod_bound(i, w as int);
        assert(0 <= y < h) by (nonlinear_arith)
            requires
                0 <= i < w * h,
                i == w * y + x,
                0 <= x < w,
        ;
        assert((y * w + x) * 1 + 0 == i) by (nonlinear_arith)
            requires
                i == w * y + x,
        ;
        assert(sample_at(a, w, 1, x, y, 0) == sample_at(b, w, 1, x, y, 0));
    }
    assert(a =~= b);
}

impl RgbaRaster {
    /// The buffer holds exactly four samples per pixel.
    pub open spec fn wf(&self) -> bool {
        self.data@.len() == self.width * self.height * 4
    }

    /// Sample `c` (0 red, 1 green, 2 blue, 3 alpha) of pixel `(x, y)`.
    pub open spec fn sample(&self, x: int, y: int, c: int) -> u8 {
        sample_at(self.data@, self.width as nat, 4, x, y, c)
    }

    /// An image of the given size whose every pixel is `pixel`.
    pub fn from_pixel(width: u32, height: u32, pixel: [u8; 4]) -> (img: RgbaRaster)
        requires
            width * height * 4 <= usize::MAX,
        ensures
            img.wf(),
            img.width == width,
            img.height == height,
            forall|x: int, y: int, c: int|
                0 <= x < width && 0 <= y < height && 0 <= c < 4 ==> #[trigger] img.sample(x, y, c)
                    == pixel[c],
    {
        let n: usize = (width as usize) * (height as usize);
        let mut data: Vec<u8> = Vec::new();
        let mut i: usize = 0;
        while i < n
            invariant
                n == width * height,
                n * 4 <= usize::MAX,
                i <= n,
                data@.len() == i * 4,
                forall|j: int, c: int| 0 <= j < i && 0 <= c < 4 ==> #[trigger] data@[j * 4 + c] == pixel[c],
            decreases n - i,
        {
            data.push(pixel[0]);
            data.push(pixel[1]);
            data.push(pixel[2]);
            data.push(pixel[3]);
            proof {
                assert forall|j: int, c: int| 0 <= j < i + 1 && 0 <= c < 4 implies #[trigger] data@[j * 4 + c] == pixel[c] by {
                    if j < i {
                        assert(j * 4 + c < i * 4);
                    }
                }
            }
            i = i + 1;
        }
        let img = RgbaRaster { width, height, data };
        proof {
            assert forall|x: int, y: int, c: int|
                0 <= x < width && 0 <= y < height && 0 <= c < 4 implies #[trigger] img.sample(x, y, c)
                    == pixel[c] by {
                lemma_sample_in_bounds(x, y, width as int, height as int, 4, c);
                let j = y * width + x;
                assert(data@[j * 4 + c] == pixel[c]);
            }
        }
        img
    }

    /// A fully transparent black image of the given size.
    pub fn new(width: u32, height: u32) -> (img: RgbaRaster)
        requires
            width * height * 4 <= usize::MAX,
        ensures
            img.wf(),
            img.width == width,
            img.height == height,
            forall|x: int, y: int, c: int|
                0 <= x < width && 0 <= y < height && 0 <= c < 4 ==> #[trigger] img.sample(x, y, c)
                    == 0,
    {
        Self::from_pixel(width, height, [0u8, 0u8, 0u8, 0u8])
    }

    /// Replaces pixel `(x, y)` with `pixel`; every other pixel is kept.
    pub fn put_pixel(&mut self, x: u32, y: u32, pixel: [u8; 4])
        requires
            old(self).wf(),
            x < old(self).width,
            y < old(self).height,
        ensures
            final(self).wf(),
            final(self).width == old(self).width,
            final(self).height == old(self).height,
            forall|xx: int, yy: int, c: int|
                0 <= xx < old(self).width && 0 <= yy < old(self).height && 0 <= c < 4
                    ==> #[trigger] final(self).sample(xx, yy, c) == if xx == x && yy == y {
                    pixel[c]
                } else {
                    old(self).sample(xx, yy, c)
                },
    {
        let ghost w = self.width as int;
        let ghost h = self.height as int;
        proof {
            lemma_sample_in_bounds(x as int, y as int, w, h, 4, 3);
            assert(self.data.len() == w * h * 4);
        }
        let base: usize = ((y as usize) * (self.width as usize) + (x as usize)) * 4;
        self.data.set(base, pixel[0]);
        self.data.set(base + 1, pixel[1]);
        self.data.set(base + 2, pixel[2]);
        self.data.set(base + 3, pixel[3]);
        proof {
            assert forall|xx: int, yy: int, c: int|
                0 <= xx < w && 0 <= yy < h && 0 <= c < 4
                    implies #[trigger] self.sample(xx, yy, c) == if xx == x && yy == y {
                    pixel[c]
                } else {
                    old(self).sample(xx, yy, c)
                } by {
                lemma_sample_in_bounds(xx, yy, w, h, 4, c);
                if xx != x || yy != y {
                    lemma_distinct_pixels(xx, yy, x as int, y as int, w);
                }
            }
        }
    }
}

/// Samples of two different pixels never share a buffer position.
pub(crate) proof fn lemma_distinct_pixels(x1: int, y1: int, x2: int, y2: int, w: int)
    requires
        0 <= x1 < w,
        0 <= x2 < w,
        0 <= y1,
        0 <= y2,
        x1 != x2 || y1 != y2,
    ensures
        y1 * w + x1 != y2 * w + x2,
{
    assert(y1 * w + x1 != y2 * w + x2) by (nonlinear_arith)
        requires
            0 <= x1 < w,
            0 <= x2 < w,
            x1 != x2 || y1 != y2,
    ;
}

impl GrayRaster {
    /// The buffer holds exactly one sample per pixel.
    pub open spec fn wf(&self) -> bool {
        self.data@.len() == self.width * self.height
    }

    /// The level of pixel `(x, y)`.
    pub open spec fn level(&self, x: int, y: int) -> u8 {
        sample_at(self.data@, self.width as nat, 1, x, y, 0)
    }
}

} // verus!

verus! {

/// Every pixel of a `w` by `h` buffer with `k` samples per pixel has the samples `p`.
pub open spec fn is_uniform(data: Seq<u8>, w: nat, h: nat, k: nat, p: Seq<u8>) -> bool {
    &&& p.len() == k
    &&& forall|x: int, y: int, c: int|
        0 <= x < w && 0 <= y < h && 0 <= c < k ==> #[trigger] sample_at(data, w, k, x, y, c) == p[c]
}

/// A resize between non-empty sizes that shrinks by at most 256 along each axis,
/// so that every output sample is a weighted sum of at most about 1540 inputs per
/// pass.
pub open spec fn moderate_scale(width: u32, height: u32, new_width: u32, new_height: u32) -> bool {
    &&& width >= 1 && height >= 1 && new_width >= 1 && new_height >= 1
    &&& width <= 256 * new_width && height <= 256 * new_height
}

/// Source index `j` along an axis of `len` pixels lies within reach of output index
/// `i` of `n`: within `3 max(len / n, 1)` pixels (the Lanczos3 support) of the
/// source position `(i + 1/2) len / n`, with two pixels to spare; in whole numbers,
/// `|2 n j - (2 i + 1) len| <= 6 len + 10 n`.
pub open spec fn in_reach(j: int, i: int, len: nat, n: nat) -> bool {
    let d = 2 * n * j - (2 * i + 1) * len;
    -(6 * len + 10 * n) <= d <= 6 * len + 10 * n
}

/// Every pixel of a `w` by `h` buffer (`k` samples per pixel) within reach of output
/// pixel `(x, y)` of an `nw` by `nh` resize has the samples `p`.
pub open spec fn uniform_around(
    data: Seq<u8>,
    w: nat,
    h: nat,
    k: nat,
    nw: nat,
    nh: nat,
    x: int,
    y: int,
    p: Seq<u8>,
) -> bool {
    &&& p.len() == k
    &&& forall|xi: int, yi: int, c: int|
        0 <= xi < w && 0 <= yi < h && 0 <= c < k && in_reach(xi, x, w, nw) && in_reach(yi, y, h, nh)
            ==> #[trigger] sample_at(data, w, k, xi, yi, c) == p[c]
}

/// A moderate resize between sizes of at most 2^20 pixels along each axis, where
/// `f32` source positions are off by far less than a pixel.
pub open spec fn precise_scale(width: u32, height: u32, new_width: u32, new_height: u32) -> bool {
    &&& moderate_scale(width, height, new_width, new_height)
    &&& width <= 0x100000 && height <= 0x100000 && new_width <= 0x100000 && new_height <= 0x100000
}

/// What a Lanczos3 resize of the `w` by `h` buffer `data` (`k` samples per pixel) to
/// `nw` by `nh` is known to give, whatever the platform: `out` has the new size; a
/// resize to the same size copies; at a moderate scale a buffer of one colour keeps
/// it; and at a precise scale an output pixel whose source pixels within reach all
/// have one colour has that colour.
pub open spec fn resize_result(data: Seq<u8>, w: u32, h: u32, k: nat, out: Seq<u8>, nw: u32, nh: u32) -> bool {
    &&& out.len() == nw * nh * k
    &&& (nw == w && nh == h ==> out == data)
    &&& (moderate_scale(w, h, nw, nh) ==> forall|p: Seq<u8>|
        #[trigger] is_uniform(data, w as nat, h as nat, k, p) ==> is_uniform(out, nw as nat, nh as nat, k, p))
    &&& (precise_scale(w, h, nw, nh) ==> forall|x: int, y: int, p: Seq<u8>|
        0 <= x < nw && 0 <= y < nh && #[trigger] uniform_around(data, w as nat, h as nat, k, nw as nat, nh as nat, x, y, p)
            ==> forall|c: int| 0 <= c < k ==> #[trigger] sample_at(out, nw as nat, k, x, y, c) == p[c])
}

/// Resamples an RGBA image to `new_width` by `new_height` with the Lanczos3 filter.
///
/// Calls `image::DynamicImage::resize_exact` on an `ImageRgba8` holding the buffer.
/// The filter computes in `f32` through `sin`, whose precision std leaves open, so
/// the samples are not fixed by the arguments and the contract does not describe
/// them. It claims the requested size, and that a resize to the image's own size
/// copies it (`imageops::resize` returns a copy when the sizes are equal).
/// It also claims that a resize at a moderate scale keeps an image of one colour
/// in that colour: each pass (`vertical_sample`, then `horizontal_sample`) divides
/// the filter weights by their sum and adds up at most about 1540 weighted samples
/// in `f32`, so a constant comes out within a few hundredths of a level of itself
/// whatever `sin` and the platform give, and the final clamp and round-to-nearest
/// restore it exactly.
/// Each output sample reads only the pixels within reach (`in_reach`): the windows
/// run from `floor(c - s)` to `ceil(c + s)` around the source position `c`, with
/// `s` three times the scale, and at a precise scale the `f32` positions are off by
/// under a quarter pixel. When all of those have one colour, the same argument as
/// for a whole image of one colour gives that colour, which the contract claims too.
/// `requires` keeps the buffers that `image` allocates within `usize`.
#[verifier::external_body]
pub(crate) fn resize_rgba(img: &RgbaRaster, new_width: u32, new_height: u32) -> (out: RgbaRaster)
    requires
        img.wf(),
        img.width * new_height * 4 <= usize::MAX,
        new_width * new_height * 4 <= usize::MAX,
    ensures
        out.wf(),
        out.width == new_width,
        out.height == new_height,
        new_width == img.width && new_height == img.height ==> out.data@ == img.data@,
        moderate_scale(img.width, img.height, new_width, new_height) ==> forall|p: Seq<u8>|
            #[trigger] is_uniform(img.data@, img.width as nat, img.height as nat, 4, p) ==> is_uniform(
                out.data@,
                new_width as nat,
                new_height as nat,
                4,
                p,
            ),
        resize_result(img.data@, img.width, img.height, 4, out.data@, new_width, new_height),
{
    let buf = image::RgbaImage::from_raw(img.width, img.height, img.data.clone()).unwrap();
    let resized = image::DynamicImage::ImageRgba8(buf).resize_exact(
        new_width,
        new_height,
        image::imageops::FilterType::Lanczos3,
    );
    RgbaRaster { width: new_width, height: new_height, data: resized.into_rgba8().into_raw() }
}

/// Resamples a single-channel image to `new_width` by `new_height` with the Lanczos3
/// filter.
///
/// Calls `image::DynamicImage::resize_exact` on an `ImageLuma8` holding the buffer.
/// The filter computes in `f32` through `sin`, whose precision std leaves open, so
/// the levels are not fixed by the arguments and the contract does not describe
/// them. It claims the requested size, and that a resize to the image's own size
/// copies it (`imageops::resize` returns a copy when the sizes are equal).
/// It also claims that a resize at a moderate scale keeps an image of one level at
/// that level: each pass divides the filter weights by their sum and adds up at
/// most about 1540 weighted samples in `f32`, so a constant comes out within a few
/// hundredths of a level of itself, and the final clamp and round-to-nearest
/// restore it exactly.
/// Each output sample reads only the pixels within reach (`in_reach`): the windows
/// run from `floor(c - s)` to `ceil(c + s)` around the source position `c`, with
/// `s` three times the scale, and at a precise scale the `f32` positions are off by
/// under a quarter pixel. When all of those have one colour, the same argument as
/// for a whole image of one colour gives that colour, which the contract claims too.
/// `requires` keeps the buffers that `image` allocates within `usize`.
#[verifier::external_body]
pub(crate) fn resize_gray(img: &GrayRaster, new_width: u32, new_height: u32) -> (out: GrayRaster)
    requires
        img.wf(),
        img.width * new_height * 4 <= usize::MAX,
        new_width * new_height * 4 <= usize::MAX,
    ensures
        out.wf(),
        out.width == new_width,
        out.height == new_height,
        new_width == img.width && new_height == img.height ==> out.data@ == img.data@,
        resize_result(img.data@, img.width, img.height, 1, out.data@, new_width, new_height),
{
    let buf = image::GrayImage::from_raw(img.width, img.height, img.data.clone()).unwrap();
    let resized = image::DynamicImage::ImageLuma8(buf).resize_exact(
        new_width,
        new_height,
        image::imageops::FilterType::Lanczos3,
    );
    GrayRaster { width: new_width, height: new_height, data: resized.into_luma8().into_raw() }
}

/// `v` lies between the smallest and the largest of `r`, `g` and `b`.
pub open spec fn within_channels(v: u8, r: u8, g: u8, b: u8) -> bool {
    &&& (r <= v || g <= v || b <= v)
    &&& (v <= r || v <= g || v <= b)
}

/// `v` is within 0.58 of a level of the Rec. 709 luma `0.2126 R + 0.7152 G + 0.0722 B`
/// of `(r, g, b)`.
pub open spec fn near_rec709(v: u8, r: u8, g: u8, b: u8) -> bool {
    -5800 <= 10000 * v - (2126 * r + 7152 * g + 722 * b) <= 5800
}

/// `luma` has one level per pixel of the RGBA samples `data`, each near the Rec. 709
/// luma of its pixel and between the smallest and the largest of its channels.
pub open spec fn rec709_levels(luma: Seq<u8>, data: Seq<u8>) -> bool {
    &&& data.len() == 4 * luma.len()
    &&& forall|k: int|
        0 <= k < luma.len() ==> {
            &&& near_rec709(#[trigger] luma[k], data[4 * k], data[4 * k + 1], data[4 * k + 2])
            &&& within_channels(luma[k], data[4 * k], data[4 * k + 1], data[4 * k + 2])
        }
}

/// A level between the channels of a grey colour is that grey.
pub proof fn lemma_grey_within(v: u8, c: u8)
    requires
        within_channels(v, c, c, c),
    ensures
        v == c,
{
}

/// Converts an RGBA image to single-channel luma.
///
/// Calls `image::DynamicImage::to_luma8` on an `ImageRgba8` holding the buffer. Its
/// source (`cast_in_color_space`, the `f32` fallback in `metadata/cicp.rs`) expands
/// each channel to `v / 255`, sums them with the BT.709 weights derived for sRGB
/// (non-negative, each within `1e-4` of 0.2126, 0.7152 and 0.0722, as its own test
/// checks), and rounds `255 * sum` to the nearest level. Whether multiply and add
/// are fused depends on the build target, so the exact levels depend on the machine
/// and the contract does not state them. It claims the size and what holds either
/// way. The weights are off the Rec. 709 ones by at most `3e-4` in all, that is
/// under 0.08 of a level, the `f32` arithmetic adds far less, and rounding adds at
/// most half a level: so each level is within 0.58 of a level of the Rec. 709 luma,
/// and, the weights being non-negative with a sum that close to one, it lies
/// between the smallest and the largest channel of its pixel.
#[verifier::external_body]
pub(crate) fn to_luma(img: &RgbaRaster) -> (out: GrayRaster)
    requires
        img.wf(),
    ensures
        out.wf(),
        out.width == img.width,
        out.height == img.height,
        rec709_levels(out.data@, img.data@),
{
    let buf = image::RgbaImage::from_raw(img.width, img.height, img.data.clone()).unwrap();
    let gray = image::DynamicImage::ImageRgba8(buf).to_luma8();
    GrayRaster { width: img.width, height: img.height, data: gray.into_raw() }
}

/// The luma that `image` gives an 8-bit sRGB colour in its grayscale operations:
/// the Rec. 709 weights, `(2126 R + 7152 G + 722 B) / 10000`, truncated.
pub open spec fn rec709_luma(r: u8, g: u8, b: u8) -> u8 {
    ((2126 * r + 7152 * g + 722 * b) / 10000) as u8
}

/// Luma and alpha of every pixel of an RGBA image, two samples per pixel.
///
/// Calls `image::DynamicImage::grayscale` on an `ImageRgba8` holding the buffer and
/// takes the resulting `ImageLumaA8` as it is (`into_luma_alpha8`). Its source maps
/// every pixel through `Pixel::to_luma_alpha`, whose `FromColor<Rgba>` for `LumaA`
/// computes `rgb_to_luma` (the Rec. 709 weights in integer arithmetic) and copies
/// alpha; the contract states exactly that.
#[verifier::external_body]
fn luma_alpha(img: &RgbaRaster) -> (out: Vec<u8>)
    requires
        img.wf(),
    ensures
        out@.len() == img.width * img.height * 2,
        forall|k: int|
            0 <= k < img.width * img.height ==> {
                &&& #[trigger] out@[2 * k] == rec709_luma(img.data@[4 * k], img.data@[4 * k + 1], img.data@[4 * k + 2])
                &&& out@[2 * k + 1] == img.data@[4 * k + 3]
            },
{
    let buf = image::RgbaImage::from_raw(img.width, img.height, img.data.clone()).unwrap();
    image::DynamicImage::ImageRgba8(buf).grayscale().into_luma_alpha8().into_raw()
}

/// The samples of an RGBA buffer turned grey: red, green and blue of every pixel
/// replaced by its luma, alpha kept.
pub open spec fn grey_samples(data: Seq<u8>) -> Seq<u8> {
    Seq::new(
        data.len(),
        |i: int|
            {
                let p = i / 4;
                if i % 4 == 3 {
                    data[4 * p + 3]
                } else {
                    rec709_luma(data[4 * p], data[4 * p + 1], data[4 * p + 2])
                }
            },
    )
}

/// The grey version of an RGBA image, alpha kept, as `image` computes it.
pub fn grayscale(img: &RgbaRaster) -> (out: RgbaRaster)
    requires
        img.wf(),
    ensures
        out.wf(),
        out.width == img.width,
        out.height == img.height,
        out.data@ == grey_samples(img.data@),
{
    let la = luma_alpha(img);
    let ghost data = img.data@;
    let ghost target = grey_samples(data);
    let len = la.len();
    let n: usize = len / 2;
    proof {
        let pixels = img.width * img.height;
        assert(la@.len() == 2 * pixels);
        assert(n == pixels);
    }
    let mut out: Vec<u8> = Vec::new();
    let mut k: usize = 0;
    while k < n
        invariant
            la@.len() == img.width * img.height * 2,
            la@.len() == 2 * n,
            2 * n <= usize::MAX,
            n == img.width * img.height,
            data.len() == 4 * n,
            target == grey_samples(data),
            forall|j: int|
                0 <= j < n ==> {
                    &&& #[trigger] la@[2 * j] == rec709_luma(data[4 * j], data[4 * j + 1], data[4 * j + 2])
                    &&& la@[2 * j + 1] == data[4 * j + 3]
                },
            k <= n,
            out@.len() == 4 * k,
            forall|i: int| 0 <= i < 4 * k ==> out@[i] == target[i],
        decreases n - k,
    {
        let l = la[2 * k];
        let a = la[2 * k + 1];
        out.push(l);
        out.push(l);
        out.push(l);
        out.push(a);
        proof {
            assert(la@[2 * k as int] == rec709_luma(data[4 * k as int], data[4 * k + 1], data[4 * k + 2]));
            assert forall|c: int| 0 <= c < 4 implies #[trigger] out@[4 * k + c] == target[4 * k + c] by {
                vstd::arithmetic::div_mod::lemma_fundamental_div_mod_converse(4 * k + c, 4, k as int, c);
            }
            assert forall|i: int| 0 <= i < 4 * (k + 1) implies out@[i] == target[i] by {
                if i >= 4 * k {
                    assert(out@[4 * k + (i - 4 * k)] == target[4 * k + (i - 4 * k)]);
                }
            }
        }
        k = k + 1;
    }
    proof {
        assert(out@ =~= target);
    }
    RgbaRaster { width: img.width, height: img.height, data: out }
}

} // verus!
