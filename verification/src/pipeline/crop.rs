//! Cropping line boxes out of an RGB page image.
use vstd::prelude::*;

verus! {

/// A box `[xmin, xmax) x [ymin, ymax)` in pixel coordinates.
#[derive(Clone, Copy, Debug, PartialEq, Eq, Structural)]
pub struct BBox {
    pub xmin: usize,
    pub ymin: usize,
    pub xmax: usize,
    pub ymax: usize,
}

impl BBox {
    pub fn new(xmin: usize, ymin: usize, xmax: usize, ymax: usize) -> (res: Self)
        ensures
            res == (BBox { xmin, ymin, xmax, ymax }),
    {
        Self { xmin, ymin, xmax, ymax }
    }
}

/// A packed RGB image (3 bytes per pixel, row-major).
#[derive(Clone, Debug)]
pub struct CroppedImage {
    pub data: Vec<u8>,
    pub width: usize,
    pub height: usize,
}

/// Why a crop was refused.
#[derive(Clone, Copy, Debug, PartialEq, Eq, Structural)]
pub enum CropError {
    /// `width * height * 3` does not fit in `usize`.
    SizeOverflow,
    /// The buffer does not hold exactly `width * height` RGB pixels.
    InvalidBufferLength,
    /// The box is empty or reaches outside the image.
    InvalidBBox,
}

impl CropError {
    /// The message of the error.
    pub fn message(&self) -> (res: &'static str)
        ensures
            *self == CropError::SizeOverflow ==> res@ == "image size overflow"@,
            *self == CropError::InvalidBufferLength ==> res@ == "invalid RGB buffer length"@,
            *self == CropError::InvalidBBox ==> res@ == "invalid bbox"@,
    {
        match self {
            CropError::SizeOverflow => "image size overflow",
            CropError::InvalidBufferLength => "invalid RGB buffer length",
            CropError::InvalidBBox => "invalid bbox",
        }
    }
}

/// Grows a line box by `pad` pixels on each side and fits it inside the
/// image; the box is kept as it is only when the fitted box would be empty.
pub open spec fn spec_expand_bbox(
    x0: usize,
    y0: usize,
    x1: usize,
    y1: usize,
    pad: usize,
    img_w: usize,
    img_h: usize,
) -> (int, int, int, int) {
    let px0 = if x0 >= pad {
        x0 - pad
    } else {
        0
    };
    let py0 = if y0 >= pad {
        y0 - pad
    } else {
        0
    };
    let px1 = if x1 + pad <= img_w {
        x1 + pad
    } else {
        img_w as int
    };
    let py1 = if y1 + pad <= img_h {
        y1 + pad
    } else {
        img_h as int
    };
    if px0 >= px1 || py0 >= py1 {
        (x0 as int, y0 as int, x1 as int, y1 as int)
    } else {
        (px0, py0, px1, py1)
    }
}

/// Grows a line box by `pad` pixels on each side and fits it inside the
/// image, so that a detection tight to the glyphs does not cut them (see
/// [`spec_expand_bbox`]).
pub fn expand_bbox_xyxy_clamped(
    x0: usize,
    y0: usize,
    x1: usize,
    y1: usize,
    pad: usize,
    img_w: usize,
    img_h: usize,
) -> (res: (usize, usize, usize, usize))
    ensures
        (res.0 as int, res.1 as int, res.2 as int, res.3 as int) == spec_expand_bbox(
            x0,
            y0,
            x1,
            y1,
            pad,
            img_w,
            img_h,
        ),
{
    let px0 = x0.saturating_sub(pad);
    let py0 = y0.saturating_sub(pad);
    let px1 = if x1 <= img_w && pad <= img_w - x1 {
        x1 + pad
    } else {
        img_w
    };
    let py1 = if y1 <= img_h && pad <= img_h - y1 {
        y1 + pad
    } else {
        img_h
    };
    if px0 >= px1 || py0 >= py1 {
        (x0, y0, x1, y1)
    } else {
        (px0, py0, px1, py1)
    }
}

/// Growing a box that lies inside the image gives a box that contains it,
/// reaches at most `pad` pixels further on each side, and still lies inside
/// the image.
pub proof fn lemma_expanded_box_contains(
    x0: usize,
    y0: usize,
    x1: usize,
    y1: usize,
    pad: usize,
    img_w: usize,
    img_h: usize,
)
    requires
        x0 < x1 <= img_w,
        y0 < y1 <= img_h,
    ensures
        ({
            let (a, b, c, d) = spec_expand_bbox(x0, y0, x1, y1, pad, img_w, img_h);
            &&& 0 <= a <= x0 && x0 - pad <= a
            &&& 0 <= b <= y0 && y0 - pad <= b
            &&& x1 <= c <= img_w && c <= x1 + pad
            &&& y1 <= d <= img_h && d <= y1 + pad
        }),
{
}

/// Byte `c` of pixel `(x, y)` of a packed RGB image of width `w`.
pub open spec fn channel_at(data: Seq<u8>, w: int, x: int, y: int, c: int) -> u8 {
    data[(y * w + x) * 3 + c]
}

/// `bbox` is non-empty and lies inside a `width x height` image.
pub open spec fn bbox_inside(bbox: BBox, width: usize, height: usize) -> bool {
    bbox.xmin < bbox.xmax && bbox.ymin < bbox.ymax && bbox.xmax <= width && bbox.ymax <= height
}

/// `img` holds exactly the pixels of `bbox` of a packed RGB image of width
/// `width`.
pub open spec fn crop_of(rgb: Seq<u8>, width: usize, bbox: BBox, img: CroppedImage) -> bool {
    &&& img.width == bbox.xmax - bbox.xmin
    &&& img.height == bbox.ymax - bbox.ymin
    &&& img.data@.len() == img.width * img.height * 3
    &&& forall|x: int, y: int, c: int|
        0 <= x < img.width && 0 <= y < img.height && 0 <= c < 3 ==> #[trigger] channel_at(
            img.data@,
            img.width as int,
            x,
            y,
            c,
        ) == channel_at(rgb, width as int, bbox.xmin + x, bbox.ymin + y, c)
}

pub proof fn lemma_index_in_image(x: int, y: int, w: int, h: int)
    requires
        0 <= x < w,
        0 <= y < h,
    ensures
        0 <= y * w + x < h * w,
        (y * w + x) * 3 + 2 < h * w * 3,
{
    assert(y * w <= (h - 1) * w) by (nonlinear_arith)
        requires
            0 <= y < h,
            w > 0,
    ;
    assert((h - 1) * w == h * w - w) by (nonlinear_arith);
    assert(0 <= y * w) by (nonlinear_arith)
        requires
            0 <= y,
            w > 0,
    ;
    assert((y * w + x) * 3 + 2 < h * w * 3) by (nonlinear_arith)
        requires
            0 <= y * w + x < h * w,
    ;
}

/// Copies the pixels of `bbox` out of a packed RGB image of size
/// `width x height`.
pub fn crop_rgb_u8(rgb: &[u8], width: usize, height: usize, bbox: BBox) -> (res: Result<
    CroppedImage,
    CropError,
>)
    ensures
        width * height * 3 > usize::MAX ==> res matches Err(CropError::SizeOverflow),
        width * height * 3 <= usize::MAX && rgb@.len() != width * height * 3 ==> res matches Err(
            CropError::InvalidBufferLength,
        ),
        width * height * 3 <= usize::MAX && rgb@.len() == width * height * 3 && !bbox_inside(
            bbox,
            width,
            height,
        ) ==> res matches Err(CropError::InvalidBBox),
        width * height * 3 <= usize::MAX && rgb@.len() == width * height * 3 && bbox_inside(
            bbox,
            width,
            height,
        ) ==> (res matches Ok(img) && crop_of(rgb@, width, bbox, img)),
{
    let wh = match width.checked_mul(height) {
        Some(v) => v,
        None => {
            proof {
                assert(width * height * 3 > usize::MAX) by (nonlinear_arith)
                    requires
                        width * height > usize::MAX,
                ;
            }
            return Err(CropError::SizeOverflow);
        },
    };
    let expected = match wh.checked_mul(3) {
        Some(v) => v,
        None => {
            return Err(CropError::SizeOverflow);
        },
    };
    if rgb.len() != expected {
        return Err(CropError::InvalidBufferLength);
    }
    if bbox.xmin >= bbox.xmax || bbox.ymin >= bbox.ymax || bbox.xmax > width || bbox.ymax > height {
        return Err(CropError::InvalidBBox);
    }
    let ow = bbox.xmax - bbox.xmin;
    let oh = bbox.ymax - bbox.ymin;
    proof {
        assert(ow * oh <= width * height) by (nonlinear_arith)
            requires
                ow <= width,
                oh <= height,
        ;
    }
    let n = ow * oh;
    let mut out: Vec<u8> = Vec::new();
    let mut q: usize = 0;
    while q < n
        invariant
            q <= n,
            n == ow * oh,
            ow > 0,
            oh > 0,
            ow == bbox.xmax - bbox.xmin,
            oh == bbox.ymax - bbox.ymin,
            bbox_inside(bbox, width, height),
            rgb@.len() == width * height * 3,
            width * height * 3 <= usize::MAX,
            out@.len() == q * 3,
            forall|p: int, c: int|
                0 <= p < q && 0 <= c < 3 ==> #[trigger] out@[p * 3 + c] == channel_at(
                    rgb@,
                    width as int,
                    bbox.xmin + p % (ow as int),
                    bbox.ymin + p / (ow as int),
                    c,
                ),
        decreases n - q,
    {
        let y = q / ow;
        let x = q % ow;
        proof {
            assert(q / ow < oh) by (nonlinear_arith)
                requires
                    q < ow * oh,
                    ow > 0,
            ;
            lemma_index_in_image(
                (bbox.xmin + x) as int,
                (bbox.ymin + y) as int,
                width as int,
                height as int,
            );
            assert(height * width == width * height) by (nonlinear_arith);
        }
        let s = ((bbox.ymin + y) * width + bbox.xmin + x) * 3;
        let ghost out0 = out@;
        out.push(rgb[s]);
        out.push(rgb[s + 1]);
        out.push(rgb[s + 2]);
        proof {
            assert(q * 3 + 3 == (q + 1) * 3);
            assert forall|p: int, c: int| 0 <= p < q + 1 && 0 <= c < 3 implies #[trigger] out@[p
                * 3 + c] == channel_at(
                rgb@,
                width as int,
                bbox.xmin + p % (ow as int),
                bbox.ymin + p / (ow as int),
                c,
            ) by {
                if p < q {
                    assert(p * 3 + c < q * 3);
                    assert(out@[p * 3 + c] == out0[p * 3 + c]);
                } else {
                    assert(p == q);
                }
            }
        }
        q = q + 1;
    }
    let img = CroppedImage { data: out, width: ow, height: oh };
    proof {
        assert forall|x: int, y: int, c: int|
            0 <= x < img.width && 0 <= y < img.height && 0 <= c < 3 implies #[trigger] channel_at(
            img.data@,
            img.width as int,
            x,
            y,
            c,
        ) == channel_at(rgb@, width as int, bbox.xmin + x, bbox.ymin + y, c) by {
            let p = y * (ow as int) + x;
            vstd::arithmetic::div_mod::lemma_fundamental_div_mod_converse(p, ow as int, y, x);
            assert(p < n) by (nonlinear_arith)
                requires
                    0 <= x < ow,
                    0 <= y < oh,
                    p == y * ow + x,
                    n == ow * oh,
            ;
            assert(0 <= p) by (nonlinear_arith)
                requires
                    0 <= x,
                    0 <= y,
                    ow > 0,
                    p == y * ow + x,
            ;
            assert(out@[p * 3 + c] == channel_at(
                rgb@,
                width as int,
                bbox.xmin + p % (ow as int),
                bbox.ymin + p / (ow as int),
                c,
            ));
        }
    }
    Ok(img)
}

} // verus!
