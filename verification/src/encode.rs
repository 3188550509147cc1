//! Rasters as images: gray with a second channel that leaves what has no
//! value transparent.

use vstd::prelude::*;

use crate::chunk::RasterChunk;
use crate::error::Error;
use crate::number::Real;

verus! {

/// What `png` encodes gray and alpha bytes as: the file, or the text of its
/// error.
pub uninterp spec fn png_of(width: u32, height: u32, pixels: Seq<u8>) -> Result<
    Seq<u8>,
    Seq<char>,
>;

/// What an encoding is.
pub open spec fn encoding(r: Result<Vec<u8>, String>) -> Result<Seq<u8>, Seq<char>> {
    match r {
        Ok(v) => Ok(v@),
        Err(e) => Err(e@),
    }
}

/// The bytes that a file of this kind starts with.
pub open spec fn signature() -> Seq<u8> {
    seq![137u8, 80, 78, 71, 13, 10, 26, 10]
}

/// `png::Encoder` with eight bits of gray and of alpha: what it writes
/// depends on the size and the bytes alone. It succeeds exactly where the
/// image is not empty and the bytes are two a pixel, and the file then
/// starts with the signature.
#[verifier::external_body]
fn encode_gray(width: u32, height: u32, pixels: &Vec<u8>) -> (r: Result<Vec<u8>, String>)
    requires
        2 * width * height <= usize::MAX,
    ensures
        encoding(r) == png_of(width, height, pixels@),
        (r is Ok) == (0 < width && 0 < height && pixels@.len() == 2 * width * height),
        r matches Ok(v) ==> v@.len() >= 8 && v@.take(8) == signature(),
{
    let mut out = Vec::new();
    {
        let mut enc = png::Encoder::new(&mut out, width, height);
        enc.set_color(png::ColorType::GrayscaleAlpha);
        enc.set_depth(png::BitDepth::Eight);
        let mut writer = enc.write_header().map_err(|e| format!("png header: {e}"))?;
        writer.write_image_data(pixels).map_err(|e| format!("png data: {e}"))?;
    }
    Ok(out)
}

/// What the stretching that is handed in makes of a value.
pub open spec fn level<F: Fn(Real) -> u8>(gray: F, v: Real) -> u8 {
    choose|g: u8| gray.ensures((v,), g)
}

/// Every value can be stretched, and always to one level.
pub open spec fn is_stretch<F: Fn(Real) -> u8>(gray: F) -> bool {
    &&& forall|v: Real| #[trigger] gray.requires((v,))
    &&& forall|v: Real, a: u8, b: u8| #[trigger]
        gray.ensures((v,), a) && #[trigger] gray.ensures((v,), b) ==> a == b
}

/// The gray and alpha bytes of the first `n` cells. A cell without a value
/// is transparent, every other opaque.
pub open spec fn gray_pixels<F: Fn(Real) -> u8>(
    data: Seq<Real>,
    nodata: Seq<bool>,
    gray: F,
    n: int,
) -> Seq<u8>
    decreases n,
{
    if n <= 0 {
        Seq::empty()
    } else {
        let before = gray_pixels(data, nodata, gray, n - 1);
        if nodata[n - 1] || !data[n - 1].finite() {
            before.push(0).push(0)
        } else {
            before.push(level(gray, data[n - 1])).push(255)
        }
    }
}

/// The gray and alpha bytes of a band.
pub fn pixels<F: Fn(Real) -> u8>(data: &Vec<Real>, nodata: &Vec<bool>, gray: &F) -> (r: Vec<u8>)
    requires
        data@.len() == nodata@.len(),
        is_stretch(*gray),
    ensures
        r@ == gray_pixels(data@, nodata@, *gray, data@.len() as int),
        r@.len() == 2 * data@.len(),
{
    let mut r: Vec<u8> = Vec::new();
    for i in 0..data.len()
        invariant
            data@.len() == nodata@.len(),
            is_stretch(*gray),
            r@.len() == 2 * i,
            r@ == gray_pixels(data@, nodata@, *gray, i as int),
    {
        let v = data[i];
        if nodata[i] || !v.is_finite() {
            r.push(0);
            r.push(0);
        } else {
            let g: u8 = gray(v);
            assert(gray.ensures((v,), g));
            r.push(g);
            r.push(255);
        }
    }
    r
}

/// The image of a raster's first band, stretched to gray. `nodata` says
/// which of its cells have no value.
pub fn png_gray<F: Fn(Real) -> u8>(chunk: &RasterChunk, nodata: &Vec<bool>, gray: &F) -> (r: Result<
    Vec<u8>,
    Error,
>)
    requires
        is_stretch(*gray),
        chunk.bands@.len() > 0 ==> chunk.bands@[0].data@.len() == nodata@.len(),
        chunk.width <= u32::MAX,
        chunk.height <= u32::MAX,
        2 * chunk.width * chunk.height <= usize::MAX,
    ensures
        if chunk.bands@.len() == 0 {
            r matches Err(Error::Source(m)) && m@ == "empty chunk"@
        } else {
            let data = chunk.bands@[0].data@;
            let bytes = gray_pixels(data, nodata@, *gray, data.len() as int);
            &&& match png_of(chunk.width as u32, chunk.height as u32, bytes) {
                Ok(file) => r matches Ok(v) && v@ == file && v@.len() >= 8 && v@.take(8)
                    == signature(),
                Err(t) => r matches Err(Error::Source(m)) && m@ == t,
            }
            &&& r is Ok <==> chunk.width > 0 && chunk.height > 0 && data.len() == chunk.width
                * chunk.height
        },
{
    if chunk.bands.len() == 0 {
        return Err(Error::Source(String::from_str("empty chunk")));
    }
    let bytes = pixels(&chunk.bands[0].data, nodata, gray);
    assert(2 * (chunk.width as u32) * (chunk.height as u32) == 2 * chunk.width * chunk.height)
        by (nonlinear_arith)
        requires
            chunk.width as u32 == chunk.width,
            chunk.height as u32 == chunk.height,
    ;
    assert(2 * chunk.width * chunk.height == 2 * (chunk.width * chunk.height)) by (nonlinear_arith);
    match encode_gray(chunk.width as u32, chunk.height as u32, &bytes) {
        Ok(file) => Ok(file),
        Err(t) => Err(Error::Source(t)),
    }
}

/// Every cell without a value is transparent and every other opaque.
pub proof fn transparency_marks_nodata<F: Fn(Real) -> u8>(
    data: Seq<Real>,
    nodata: Seq<bool>,
    gray: F,
    n: int,
    i: int,
)
    requires
        0 <= i < n <= data.len(),
    ensures
        gray_pixels(data, nodata, gray, n).len() == 2 * n,
        gray_pixels(data, nodata, gray, n)[2 * i + 1] == (if nodata[i] || !data[i].finite() {
            0u8
        } else {
            255u8
        }),
    decreases n,
{
    if i < n - 1 {
        transparency_marks_nodata(data, nodata, gray, n - 1, i);
    } else {
        pixels_count(data, nodata, gray, n - 1);
    }
}

pub(crate) proof fn pixels_count<F: Fn(Real) -> u8>(data: Seq<Real>, nodata: Seq<bool>, gray: F, n: int)
    requires
        0 <= n,
    ensures
        gray_pixels(data, nodata, gray, n).len() == 2 * n,
    decreases n,
{
    if n > 0 {
        pixels_count(data, nodata, gray, n - 1);
    }
}

} // verus!
