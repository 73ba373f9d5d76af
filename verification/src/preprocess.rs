use vstd::prelude::*;
use crate::errors::PreprocessError;

verus! {

/// An image as plain values: row-major RGBA pixels, four bytes per pixel.
pub struct RgbaBuffer {
    pub width: u32,
    pub height: u32,
    pub data: Vec<u8>,
}

impl RgbaBuffer {
    /// The pixel data matches the declared dimensions.
    pub open spec fn wf(self) -> bool {
        self.data@.len() == 4 * (self.width as int) * (self.height as int)
    }
}

/// Byte `k` of the square canvas of side `m` holding a `w` by `h` image
/// centered: the image's own byte inside the centered rectangle, and the
/// fully transparent default fill outside it.
pub open spec fn canvas_byte(img: Seq<u8>, w: int, h: int, m: int, k: int) -> u8 {
    let pix = k / 4;
    let c = k % 4;
    let x = pix % m;
    let y = pix / m;
    let x0 = (m - w) / 2;
    let y0 = (m - h) / 2;
    if x0 <= x < x0 + w && y0 <= y < y0 + h {
        img[4 * ((y - y0) * w + (x - x0)) + c]
    } else {
        0
    }
}

/// The square canvas of side `m` with the image pasted centered; the
/// vertical offset is `(m - h) / 2` and the horizontal one `(m - w) / 2`,
/// with integer division rounding down.
pub open spec fn letterboxed(img: Seq<u8>, w: int, h: int, m: int) -> Seq<u8> {
    Seq::new((4 * m * m) as nat, |k: int| canvas_byte(img, w, h, m, k))
}

/// Pad the image onto a centered square canvas whose side is the larger
/// dimension, leaving the border fully transparent, so that the later resize
/// keeps the aspect ratio.
#[verifier::loop_isolation(false)]
pub fn letterbox(img: &RgbaBuffer) -> (r: RgbaBuffer)
    requires
        img.wf(),
        img.width > 0,
        img.height > 0,
        4 * (vstd::math::max(img.width as int, img.height as int)) * (vstd::math::max(
            img.width as int,
            img.height as int,
        )) <= usize::MAX,
    ensures
        r.width == r.height == vstd::math::max(img.width as int, img.height as int),
        r.data@ == letterboxed(
            img.data@,
            img.width as int,
            img.height as int,
            r.width as int,
        ),
        r.wf(),
{
    let w = img.width;
    let h = img.height;
    let m: u32 = if w >= h {
        w
    } else {
        h
    };
    let x0 = ((m - w) / 2) as usize;
    let y0 = ((m - h) / 2) as usize;
    let wu = w as usize;
    let hu = h as usize;
    let mu = m as usize;
    proof {
        assert((mu * mu) * 4 <= usize::MAX) by (nonlinear_arith)
            requires
                4 * (mu as int) * (mu as int) <= usize::MAX,
                mu >= 1,
        ;
    }
    let mut out: Vec<u8> = Vec::new();
    let mut y: usize = 0;
    while y < mu
        invariant
            y <= mu,
            out@.len() == 4 * y * mu,
            forall|j: int|
                0 <= j < out@.len() ==> out@[j] == canvas_byte(
                    img.data@,
                    w as int,
                    h as int,
                    m as int,
                    j,
                ),
        decreases mu - y,
    {
        let mut x: usize = 0;
        proof {
            assert(4 * y * mu == 4 * (y * mu + 0)) by (nonlinear_arith);
        }
        while x < mu
            invariant
                x <= mu,
                y < mu,
                out@.len() == 4 * (y * mu + x),
                forall|j: int|
                    0 <= j < out@.len() ==> out@[j] == canvas_byte(
                        img.data@,
                        w as int,
                        h as int,
                        m as int,
                        j,
                    ),
            decreases mu - x,
    {
            proof {
                assert(y * mu + x < mu * mu) by (nonlinear_arith)
                    requires
                        y < mu,
                        x < mu,
                ;
            }
            let pix = y * mu + x;
            let inside = x0 <= x && x < x0 + wu && y0 <= y && y < y0 + hu;
            let dlen = img.data.len();
            proof {
                assert(pix % mu == x && pix / mu == y) by (nonlinear_arith)
                    requires
                        0 <= x < mu,
                        0 <= y,
                        pix == y * mu + x,
                ;
                assert(dlen == 4 * (wu as int) * (hu as int));
            }
            let src_base = if inside {
                let dy = y - y0;
                let dx = x - x0;
                proof {
                    assert(dy * wu + dx < (wu as int) * (hu as int) && (wu as int) * (hu as int)
                        <= dlen && 4 * (dy * wu + dx) + 3 < dlen) by (nonlinear_arith)
                        requires
                            0 <= dy < hu,
                            0 <= dx < wu,
                            wu >= 1,
                            hu >= 1,
                            dlen == 4 * (wu as int) * (hu as int),
                    ;
                }
                let sp = dy * wu + dx;
                4 * sp
            } else {
                0
            };
            let mut c: usize = 0;
            while c < 4
                invariant
                    c <= 4,
                    y < mu,
                    x < mu,
                    pix == y * mu + x,
                    inside == (x0 <= x && x < x0 + wu && y0 <= y && y < y0 + hu),
                    inside ==> src_base == 4 * ((y - y0) * wu + (x - x0)) && src_base + 3
                        < img.data@.len(),
                    out@.len() == 4 * pix + c,
                    forall|j: int|
                        0 <= j < out@.len() ==> out@[j] == canvas_byte(
                            img.data@,
                            w as int,
                            h as int,
                            m as int,
                            j,
                        ),
                decreases 4 - c,
            {
                let v: u8 = if inside {
                    img.data[src_base + c]
                } else {
                    0
                };
                proof {
                    let k = out@.len() as int;
                    assert(k / 4 == pix && k % 4 == c) by (nonlinear_arith)
                        requires
                            k == 4 * pix + c,
                            0 <= c < 4,
                            pix >= 0,
                    ;
                    assert(canvas_byte(img.data@, w as int, h as int, m as int, k) == v);
                }
                out.push(v);
                c = c + 1;
            }
            proof {
                assert(4 * pix + 4 == 4 * (y * mu + (x + 1))) by (nonlinear_arith)
                    requires
                        pix == y * mu + x,
                ;
            }
            x = x + 1;
        }
        proof {
            assert(4 * (y * mu + mu) == 4 * (y + 1) * mu) by (nonlinear_arith);
        }
        y = y + 1;
    }
    proof {
        assert(4 * mu * mu == 4 * (mu as int) * (mu as int)) by (nonlinear_arith);
        assert(out@ =~= letterboxed(img.data@, w as int, h as int, m as int));
    }
    RgbaBuffer { width: m, height: m, data: out }
}

/// What `image::imageops::resize` with the Catmull-Rom filter returns for a
/// square RGBA buffer: a pure function of the pixels and the two sides.
pub uninterp spec fn resized_rgba(img: Seq<u8>, side: nat, target: nat) -> Seq<u8>;

/// Relies on `image::imageops::resize` with `FilterType::CatmullRom`, the
/// smooth cubic-family filter: the result is a `target` by `target` RGBA
/// buffer (four bytes per pixel) computed from the input pixels alone.
#[verifier::external_body]
fn resize_square_rgba(data: &Vec<u8>, side: u32, target: u32) -> (r: Vec<u8>)
    requires
        side > 0,
        target > 0,
        data@.len() == 4 * (side as int) * (side as int),
    ensures
        r@ == resized_rgba(data@, side as nat, target as nat),
        r@.len() == 4 * (target as int) * (target as int),
{
    let img = image::RgbaImage::from_raw(side, side, data.clone()).expect("dimensions match");
    let out = image::imageops::resize(
        &img,
        target,
        target,
        image::imageops::FilterType::CatmullRom,
    );
    out.into_raw()
}

/// Byte `k` of the tensor: the flattened pixels keep their positions, the
/// transparency channel is dropped, and the color channels are written in
/// reversed order (blue, green, red), raw `[0, 255]` values unscaled.
pub open spec fn bgr_byte(rgba: Seq<u8>, k: int) -> u8 {
    rgba[4 * (k / 3) + (2 - (k % 3))]
}

/// The model input tensor of a square RGBA buffer of side `s`, flattened:
/// shape `[1, s, s, 3]`, channel order blue, green, red.
pub open spec fn bgr_tensor(rgba: Seq<u8>, s: int) -> Seq<u8> {
    Seq::new((3 * s * s) as nat, |k: int| bgr_byte(rgba, k))
}

/// Flatten a square RGBA buffer to the model's three-channel tensor layout.
#[verifier::loop_isolation(false)]
pub fn to_bgr_tensor(rgba: &Vec<u8>, side: u32) -> (r: Vec<u8>)
    requires
        rgba@.len() == 4 * (side as int) * (side as int),
    ensures
        r@ == bgr_tensor(rgba@, side as int),
{
    let su = side as usize;
    let n = rgba.len();
    proof {
        assert(su * su <= n && 4 * (su as int) * (su as int) == n && 3 * su * su <= n)
            by (nonlinear_arith)
            requires
                n == 4 * (su as int) * (su as int),
        ;
    }
    let mut out: Vec<u8> = Vec::new();
    let mut p: usize = 0;
    let total = su * su;
    while p < total
        invariant
            p <= total,
            out@.len() == 3 * p,
            forall|j: int| 0 <= j < out@.len() ==> out@[j] == bgr_byte(rgba@, j),
        decreases total - p,
    {
        proof {
            assert(4 * p + 3 < 4 * total) by (nonlinear_arith)
                requires
                    p < total,
            ;
            assert(rgba@.len() == 4 * total) by (nonlinear_arith)
                requires
                    rgba@.len() == 4 * (su as int) * (su as int),
                    total == su * su,
            ;
        }
        let base = 4 * p;
        let mut c: usize = 0;
        while c < 3
            invariant
                c <= 3,
                p < total,
                base == 4 * p,
                base + 3 < rgba@.len(),
                out@.len() == 3 * p + c,
            forall|j: int| 0 <= j < out@.len() ==> out@[j] == bgr_byte(rgba@, j),
            decreases 3 - c,
        {
            let v = rgba[base + (2 - c)];
            proof {
                let k = out@.len() as int;
                assert(k / 3 == p && k % 3 == c) by (nonlinear_arith)
                    requires
                        k == 3 * p + c,
                        0 <= c < 3,
                        p >= 0,
                ;
                assert(bgr_byte(rgba@, k) == v);
            }
            out.push(v);
            c = c + 1;
        }
        p = p + 1;
    }
    proof {
        assert(3 * total == 3 * (side as int) * (side as int)) by (nonlinear_arith)
            requires
                total == su * su,
                su == side,
        ;
        assert(out@ =~= bgr_tensor(rgba@, side as int));
    }
    out
}

/// Turn an image into the model's input tensor: letterbox onto a centered
/// square canvas, resize to `target` with the smooth cubic filter, and
/// flatten to blue-green-red channel order with raw `[0, 255]` values.
///
/// Fails with `ZeroDimension` when either image dimension is zero, and with
/// `InvalidImage` when the pixel data does not match the dimensions.
pub fn prepare(img: &RgbaBuffer, target: u32) -> (r: Result<Vec<u8>, PreprocessError>)
    requires
        target > 0,
        4 * (vstd::math::max(img.width as int, img.height as int)) * (vstd::math::max(
            img.width as int,
            img.height as int,
        )) <= usize::MAX,
    ensures
        r is Ok <==> img.width > 0 && img.height > 0 && img.wf(),
        img.width == 0 || img.height == 0 ==> r == Result::<
            Vec<u8>,
            PreprocessError,
        >::Err(PreprocessError::ZeroDimension),
        img.width > 0 && img.height > 0 && !img.wf() ==> r == Result::<
            Vec<u8>,
            PreprocessError,
        >::Err(PreprocessError::InvalidImage),
        r is Ok ==> r->Ok_0@ == bgr_tensor(
            resized_rgba(
                letterboxed(
                    img.data@,
                    img.width as int,
                    img.height as int,
                    vstd::math::max(img.width as int, img.height as int),
                ),
                vstd::math::max(img.width as int, img.height as int) as nat,
                target as nat,
            ),
            target as int,
        ),
{
    if img.width == 0 || img.height == 0 {
        return Err(PreprocessError::ZeroDimension);
    }
    let w = img.width as usize;
    let h = img.height as usize;
    proof {
        assert(4 * (img.width as int) * (img.height as int) <= 4 * (vstd::math::max(
            img.width as int,
            img.height as int,
        )) * (vstd::math::max(img.width as int, img.height as int))) by (nonlinear_arith)
            requires
                img.width >= 1,
                img.height >= 1,
        ;
        assert(4 * w <= usize::MAX && 4 * w * h <= usize::MAX && 4 * w * h == 4 * (
        img.width as int) * (img.height as int)) by (nonlinear_arith)
            requires
                w == img.width,
                h == img.height,
                w >= 1,
                h >= 1,
                4 * (img.width as int) * (img.height as int) <= usize::MAX,
        ;
    }
    if img.data.len() != 4 * w * h {
        return Err(PreprocessError::InvalidImage);
    }
    let canvas = letterbox(img);
    let resized = resize_square_rgba(&canvas.data, canvas.width, target);
    let tensor = to_bgr_tensor(&resized, target);
    Ok(tensor)
}

} // verus!
