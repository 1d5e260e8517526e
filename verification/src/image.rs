//! The one PNG encoder.
use crate::chars::{chars_of, decimal, decimal_of, push_chars, signed, signed_of, string_of};
use vstd::prelude::*;

verus! {

/// `png::EncodingError` says why the `png` crate could not write a picture.
#[verifier::external_type_specification]
#[verifier::external_body]
pub struct ExEncodingError(png::EncodingError);

/// A step of writing a picture.
#[derive(Debug, Clone, Copy, PartialEq, Eq, Structural)]
pub enum PngStep {
    Header,
    Data,
    Close,
}

/// The bytes that the `png` crate writes for `w * h` pixels of RGB8, with its
/// default compression, or the step at which it refuses.
pub uninterp spec fn png_stream(rgb: Seq<u8>, w: u32, h: u32) -> Result<Seq<u8>, PngStep>;

/// `png::Encoder`, set to 8-bit RGB, with one `write_image_data`. What it
/// writes into a vector, or at which of the three calls it refuses, is a
/// function of the pixels and the size. Nothing is said of which bytes those
/// are.
#[verifier::external_body]
fn encode_rgb(rgb: &[u8], w: u32, h: u32) -> (r: Result<Vec<u8>, (PngStep, png::EncodingError)>)
    requires
        w > 0,
        h > 0,
        rgb@.len() == 3 * w * h,
    ensures
        png_stream(rgb@, w, h) == (match r {
            Ok(v) => Ok::<Seq<u8>, PngStep>(v@),
            Err((step, _)) => Err(step),
        }),
{
    let mut out = Vec::new();
    let mut encoder = png::Encoder::new(&mut out, w, h);
    encoder.set_color(png::ColorType::Rgb);
    encoder.set_depth(png::BitDepth::Eight);
    let mut writer = encoder.write_header().map_err(|e| (PngStep::Header, e))?;
    writer.write_image_data(rgb).map_err(|e| (PngStep::Data, e))?;
    writer.finish().map_err(|e| (PngStep::Close, e))?;
    Ok(out)
}

/// Why there is no picture.
#[derive(Debug)]
pub enum ImageError {
    /// A side is empty or negative.
    Dimensions { w: i32, h: i32 },
    /// There are too few bytes for the size.
    TooShort { w: i32, h: i32, need: u64, got: u64 },
    /// The encoder refused at a step.
    Encoding { step: PngStep, cause: png::EncodingError },
}

/// What an error reads as.
pub open spec fn image_error_text(e: ImageError) -> Seq<char> {
    match e {
        ImageError::Dimensions { w, h } => "a PNG needs positive dimensions, not "@ + signed(
            w as int,
        ) + "x"@ + signed(h as int),
        ImageError::TooShort { w, h, need, got } => signed(w as int) + "x"@ + signed(h as int)
            + " needs "@ + decimal(need as nat) + " bytes of BGRA, got "@ + decimal(got as nat),
        ImageError::Encoding { step, .. } => match step {
            PngStep::Header => "writing the PNG header"@,
            PngStep::Data => "compressing the PNG"@,
            PngStep::Close => "closing the PNG"@,
        },
    }
}

impl ImageError {
    pub fn message(&self) -> (r: String)
        ensures
            r@ == image_error_text(*self),
    {
        match self {
            ImageError::Dimensions { w, h } => {
                let mut out = chars_of("a PNG needs positive dimensions, not ");
                push_chars(&mut out, signed_of(*w as i64).as_slice());
                push_chars(&mut out, chars_of("x").as_slice());
                push_chars(&mut out, signed_of(*h as i64).as_slice());
                string_of(out.as_slice())
            },
            ImageError::TooShort { w, h, need, got } => {
                let mut out = signed_of(*w as i64);
                push_chars(&mut out, chars_of("x").as_slice());
                push_chars(&mut out, signed_of(*h as i64).as_slice());
                push_chars(&mut out, chars_of(" needs ").as_slice());
                push_chars(&mut out, decimal_of(*need).as_slice());
                push_chars(&mut out, chars_of(" bytes of BGRA, got ").as_slice());
                push_chars(&mut out, decimal_of(*got).as_slice());
                string_of(out.as_slice())
            },
            ImageError::Encoding { step, .. } => match step {
                PngStep::Header => "writing the PNG header".to_owned(),
                PngStep::Data => "compressing the PNG".to_owned(),
                PngStep::Close => "closing the PNG".to_owned(),
            },
        }
    }
}

/// The RGB bytes of the first `n` pixels of BGRA. Alpha is dropped: every
/// capture leaves junk in it.
pub open spec fn rgb_bytes(bgra: Seq<u8>, n: int) -> Seq<u8>
    decreases n,
{
    if n <= 0 {
        seq![]
    } else {
        rgb_bytes(bgra, n - 1) + seq![
            bgra[4 * (n - 1) + 2],
            bgra[4 * (n - 1) + 1],
            bgra[4 * (n - 1)],
        ]
    }
}

proof fn rgb_len(bgra: Seq<u8>, n: int)
    requires
        n >= 0,
    ensures
        rgb_bytes(bgra, n).len() == 3 * n,
    decreases n,
{
    if n > 0 {
        rgb_len(bgra, n - 1);
    }
}

/// Every pixel keeps its colour: red, green and blue stand swapped, and
/// nothing else is in the picture.
pub proof fn a_pixel_keeps_its_colour(bgra: Seq<u8>, n: int, i: int)
    requires
        0 <= i < n,
    ensures
        rgb_bytes(bgra, n).len() == 3 * n,
        rgb_bytes(bgra, n)[3 * i] == bgra[4 * i + 2],
        rgb_bytes(bgra, n)[3 * i + 1] == bgra[4 * i + 1],
        rgb_bytes(bgra, n)[3 * i + 2] == bgra[4 * i],
    decreases n,
{
    rgb_len(bgra, n);
    rgb_len(bgra, n - 1);
    if i < n - 1 {
        a_pixel_keeps_its_colour(bgra, n - 1, i);
    }
}

/// What stands in the way of a picture of some bytes.
pub open spec fn refused(len: nat, w: i32, h: i32) -> Option<ImageError> {
    if w <= 0 || h <= 0 {
        Some(ImageError::Dimensions { w, h })
    } else if len < 4 * (w * h) {
        Some(
            ImageError::TooShort { w, h, need: (4 * (w * h)) as u64, got: len as u64 },
        )
    } else {
        None
    }
}

/// The RGB pixels of `w * h` pixels of top-down BGRA8. Bytes beyond them are
/// left out.
pub fn rgb_of(bgra: &[u8], w: i32, h: i32) -> (r: Result<Vec<u8>, ImageError>)
    ensures
        match r {
            Ok(v) => refused(bgra@.len(), w, h) is None && v@ == rgb_bytes(bgra@, w * h),
            Err(e) => refused(bgra@.len(), w, h) == Some(e),
        },
{
    if w <= 0 || h <= 0 {
        return Err(ImageError::Dimensions { w, h });
    }
    assert(0 < w * h < 0x4000_0000_0000_0000) by (nonlinear_arith)
        requires
            0 < w <= 0x7fff_ffff,
            0 < h <= 0x7fff_ffff,
    ;
    let pixels: u64 = w as u64 * h as u64;
    assert(pixels == w * h);
    let need: u64 = pixels * 4;
    if (bgra.len() as u64) < need {
        return Err(ImageError::TooShort { w, h, need, got: bgra.len() as u64 });
    }
    let n: usize = pixels as usize;
    let mut rgb: Vec<u8> = Vec::new();
    let mut i: usize = 0;
    while i < n
        invariant
            i <= n,
            4 * n <= bgra@.len() <= usize::MAX,
            rgb@ == rgb_bytes(bgra@, i as int),
        decreases n - i,
    {
        let ghost before = rgb@;
        rgb.push(bgra[4 * i + 2]);
        rgb.push(bgra[4 * i + 1]);
        rgb.push(bgra[4 * i]);
        assert(rgb@ =~= before + seq![
            bgra@[4 * i as int + 2],
            bgra@[4 * i as int + 1],
            bgra@[4 * i as int],
        ]);
        i += 1;
    }
    Ok(rgb)
}

/// Bytes of a compressed PNG holding `bgra`, which is `w * h * 4` bytes of
/// top-down BGRA8.
pub fn encode_bgra_to_png(bgra: &[u8], w: i32, h: i32) -> (r: Result<Vec<u8>, ImageError>)
    ensures
        match refused(bgra@.len(), w, h) {
            Some(e) => r == Err::<Vec<u8>, ImageError>(e),
            None => match png_stream(rgb_bytes(bgra@, w * h), w as u32, h as u32) {
                Ok(bytes) => r matches Ok(v) && v@ == bytes,
                Err(at) => r matches Err(ImageError::Encoding { step, .. }) && step == at,
            },
        },
{
    let rgb = match rgb_of(bgra, w, h) {
        Ok(v) => v,
        Err(e) => {
            return Err(e);
        },
    };
    proof {
        assert(0 < w * h) by (nonlinear_arith)
            requires
                0 < w,
                0 < h,
        ;
        rgb_len(bgra@, w * h);
        assert(3 * w * h == 3 * (w * h)) by (nonlinear_arith);
    }
    match encode_rgb(rgb.as_slice(), w as u32, h as u32) {
        Ok(v) => Ok(v),
        Err((step, cause)) => Err(ImageError::Encoding { step, cause }),
    }
}

/// A picture has positive sides and four bytes for each pixel, and nothing else
/// stands in its way; what it is told otherwise names what it lacks.
pub proof fn a_picture_has_four_bytes_a_pixel(len: nat, w: i32, h: i32)
    ensures
        refused(len, w, h) is None <==> w > 0 && h > 0 && w * h * 4 <= len,
        refused(len, w, h) matches Some(ImageError::Dimensions { w: a, h: b }) ==> a == w && b == h
            && (w <= 0 || h <= 0),
        refused(len, w, h) matches Some(ImageError::TooShort { w: a, h: b, .. }) ==> a == w && b == h
            && w > 0 && h > 0,
{
}

} // verus!
