use vstd::prelude::*;

use crate::color::MaskColor;
use crate::text::str_eq;

verus! {

/// Colour model of a decoded image.
#[derive(Clone, Copy, Debug, PartialEq, Eq, Structural)]
pub enum ImageColor {
    Gray,
    Rgb,
    Cmyk,
}

impl ImageColor {
    /// Bytes per pixel of the colour model.
    pub open spec fn spec_channels(self) -> usize {
        match self {
            ImageColor::Gray => 1,
            ImageColor::Rgb => 3,
            ImageColor::Cmyk => 4,
        }
    }

    /// Bytes per pixel of the colour model: 1 for gray, 3 for RGB, 4 for CMYK.
    pub fn channels(&self) -> (r: usize)
        ensures
            r == self.spec_channels(),
    {
        match self {
            ImageColor::Gray => 1,
            ImageColor::Rgb => 3,
            ImageColor::Cmyk => 4,
        }
    }
}

/// Why an image stream could not be decoded for redaction.
#[derive(Clone, Copy, Debug, PartialEq, Eq, Structural)]
pub enum ImageError {
    MissingWidth,
    MissingHeight,
    NegativeSize,
    UnsupportedBitsPerComponent,
    MultipleFilters,
    JpegDecodeFailed,
    MissingJpegInfo,
    JpegSizeMismatch,
    UnsupportedJpegPixelFormat,
    UnsupportedColorSpace,
    MissingColorSpace,
    DecompressFailed,
    UnsupportedPredictorBitDepth,
    PredictorFailed,
    DataTooShort,
    UnsupportedFilter,
}

/// Decoding settings of a `DecodeParms` dictionary: each entry when it is
/// a number (read as an integer).
pub struct PredictorParams {
    pub predictor: Option<i64>,
    pub colors: Option<i64>,
    pub columns: Option<i64>,
    pub bits_per_component: Option<i64>,
}

/// What image decoding reads from an image XObject stream: its
/// dictionary's `Width`, `Height` and `BitsPerComponent` (when numbers,
/// read as integers), `ColorSpace` (when a name), the stream's filter
/// names, `DecodeParms` (when a dictionary), and the raw stream bytes.
pub struct ImageStreamInfo {
    pub width: Option<i64>,
    pub height: Option<i64>,
    pub bits_per_component: Option<i64>,
    pub color_space: Option<String>,
    pub filters: Vec<String>,
    pub decode_parms: Option<PredictorParams>,
    pub content: Vec<u8>,
}

/// A decoded image: `width * height` pixels of `color.channels()` bytes
/// each, row by row from the top.
pub struct DecodedImage {
    pub width: usize,
    pub height: usize,
    pub color: ImageColor,
    pub pixels: Vec<u8>,
}

/// Width and height of the image, once the header checks pass: both must
/// be present, the bit depth (8 when absent, cut to a byte) must be 8,
/// there must be at most one filter, and neither size may be negative.
pub open spec fn spec_header(info: &ImageStreamInfo) -> Result<(usize, usize), ImageError> {
    match (info.width, info.height) {
        (None, _) => Err(ImageError::MissingWidth),
        (Some(_), None) => Err(ImageError::MissingHeight),
        (Some(w), Some(h)) => {
            let bpc = match info.bits_per_component {
                Some(b) => b,
                None => 8i64,
            };
            if bpc as u8 != 8 {
                Err(ImageError::UnsupportedBitsPerComponent)
            } else if info.filters@.len() > 1 {
                Err(ImageError::MultipleFilters)
            } else if w < 0 || h < 0 {
                Err(ImageError::NegativeSize)
            } else {
                Ok((w as usize, h as usize))
            }
        },
    }
}

/// Checks an image stream's header; gives its width and height.
pub fn image_header(info: &ImageStreamInfo) -> (r: Result<(usize, usize), ImageError>)
    ensures
        r == spec_header(info),
{
    let w = match info.width {
        Some(w) => w,
        None => return Err(ImageError::MissingWidth),
    };
    let h = match info.height {
        Some(h) => h,
        None => return Err(ImageError::MissingHeight),
    };
    let bpc: i64 = match info.bits_per_component {
        Some(b) => b,
        None => 8,
    };
    if bpc as u8 != 8 {
        return Err(ImageError::UnsupportedBitsPerComponent);
    }
    if info.filters.len() > 1 {
        return Err(ImageError::MultipleFilters);
    }
    if w < 0 || h < 0 {
        return Err(ImageError::NegativeSize);
    }
    Ok((w as usize, h as usize))
}

/// Colour model of a JPEG image, from the bytes per pixel of the layout
/// that the decoder reports (1: 8-bit gray, 2: 16-bit gray, 3: RGB,
/// 4: CMYK); 16-bit gray is refused. `ColorSpace`, when given, must agree.
pub open spec fn spec_jpeg_color(pixel_bytes: usize, color_space: Option<Seq<char>>) -> Result<
    ImageColor,
    ImageError,
> {
    let color = if pixel_bytes == 1 {
        Some(ImageColor::Gray)
    } else if pixel_bytes == 3 {
        Some(ImageColor::Rgb)
    } else if pixel_bytes == 4 {
        Some(ImageColor::Cmyk)
    } else {
        None
    };
    match color {
        None => Err(ImageError::UnsupportedJpegPixelFormat),
        Some(c) => match color_space {
            None => Ok(c),
            Some(cs) => {
                if (cs == "DeviceGray"@ && c == ImageColor::Gray) || (cs == "DeviceRGB"@ && c
                    == ImageColor::Rgb) || (cs == "DeviceCMYK"@ && c == ImageColor::Cmyk) {
                    Ok(c)
                } else {
                    Err(ImageError::UnsupportedColorSpace)
                }
            },
        },
    }
}

/// Colour model of a JPEG image.
pub fn jpeg_color(pixel_bytes: usize, color_space: Option<&str>) -> (r: Result<ImageColor, ImageError>)
    ensures
        r == spec_jpeg_color(
            pixel_bytes,
            match color_space {
                Some(s) => Some(s@),
                None => None,
            },
        ),
{
    let color = if pixel_bytes == 1 {
        ImageColor::Gray
    } else if pixel_bytes == 3 {
        ImageColor::Rgb
    } else if pixel_bytes == 4 {
        ImageColor::Cmyk
    } else {
        return Err(ImageError::UnsupportedJpegPixelFormat);
    };
    match color_space {
        None => Ok(color),
        Some(cs) => {
            let agrees = match color {
                ImageColor::Gray => str_eq(cs, "DeviceGray"),
                ImageColor::Rgb => str_eq(cs, "DeviceRGB"),
                ImageColor::Cmyk => str_eq(cs, "DeviceCMYK"),
            };
            if agrees {
                Ok(color)
            } else {
                Err(ImageError::UnsupportedColorSpace)
            }
        },
    }
}

/// Colour model of an uncompressed or Flate-compressed image, from its
/// `ColorSpace`, which must be one of the three device spaces.
pub open spec fn spec_flate_color(color_space: Option<Seq<char>>) -> Result<ImageColor, ImageError> {
    match color_space {
        None => Err(ImageError::MissingColorSpace),
        Some(cs) => {
            if cs == "DeviceGray"@ {
                Ok(ImageColor::Gray)
            } else if cs == "DeviceRGB"@ {
                Ok(ImageColor::Rgb)
            } else if cs == "DeviceCMYK"@ {
                Ok(ImageColor::Cmyk)
            } else {
                Err(ImageError::UnsupportedColorSpace)
            }
        },
    }
}

/// Colour model of an uncompressed or Flate-compressed image.
pub fn flate_color(color_space: Option<&str>) -> (r: Result<ImageColor, ImageError>)
    ensures
        r == spec_flate_color(
            match color_space {
                Some(s) => Some(s@),
                None => None,
            },
        ),
{
    match color_space {
        None => Err(ImageError::MissingColorSpace),
        Some(cs) => {
            if str_eq(cs, "DeviceGray") {
                Ok(ImageColor::Gray)
            } else if str_eq(cs, "DeviceRGB") {
                Ok(ImageColor::Rgb)
            } else if str_eq(cs, "DeviceCMYK") {
                Ok(ImageColor::Cmyk)
            } else {
                Err(ImageError::UnsupportedColorSpace)
            }
        },
    }
}

/// The PNG predictor that `DecodeParms` asks to undo, as (bytes per
/// pixel, pixels per row): only for `Predictor` 10 to 15 (1 when absent).
/// `Colors` defaults to the colour model's channels, `Columns` to the
/// image width, and `BitsPerComponent` (8 when absent) must be 8.
pub open spec fn spec_predictor(parms: Option<PredictorParams>, channels: usize, width: usize) -> Result<
    Option<(usize, usize)>,
    ImageError,
> {
    match parms {
        None => Ok(None),
        Some(p) => {
            let predictor = match p.predictor {
                Some(v) => v,
                None => 1i64,
            };
            if !(10 <= predictor <= 15) {
                Ok(None)
            } else {
                let colors = match p.colors {
                    Some(v) => v,
                    None => channels as i64,
                } as usize;
                let columns = match p.columns {
                    Some(v) => v,
                    None => width as i64,
                } as usize;
                let bits = match p.bits_per_component {
                    Some(v) => v,
                    None => 8i64,
                } as usize;
                if bits != 8 {
                    Err(ImageError::UnsupportedPredictorBitDepth)
                } else {
                    Ok(Some((((colors * bits) / 8) as usize, columns)))
                }
            }
        },
    }
}

/// Working out the predictor settings does not overflow: where a
/// predictor of 8-bit depth is asked for, the colour count times the bit
/// depth fits in a `usize`.
pub open spec fn predictor_fits(parms: Option<PredictorParams>, channels: usize) -> bool {
    match parms {
        None => true,
        Some(p) => {
            let predictor = match p.predictor {
                Some(v) => v,
                None => 1i64,
            };
            let colors = match p.colors {
                Some(v) => v,
                None => channels as i64,
            } as usize;
            let bits = match p.bits_per_component {
                Some(v) => v,
                None => 8i64,
            } as usize;
            (10 <= predictor <= 15 && bits == 8) ==> colors * 8 <= usize::MAX
        },
    }
}

/// The predictor settings of a Flate-compressed image.
pub fn predictor_settings(parms: &Option<PredictorParams>, channels: usize, width: usize) -> (r: Result<
    Option<(usize, usize)>,
    ImageError,
>)
    requires
        predictor_fits(*parms, channels),
    ensures
        r == spec_predictor(*parms, channels, width),
{
    match parms {
        None => Ok(None),
        Some(p) => {
            let predictor: i64 = match p.predictor {
                Some(v) => v,
                None => 1,
            };
            if !(10 <= predictor && predictor <= 15) {
                return Ok(None);
            }
            let colors: usize = match p.colors {
                Some(v) => v,
                None => channels as i64,
            } as usize;
            let columns: usize = match p.columns {
                Some(v) => v,
                None => width as i64,
            } as usize;
            let bits: usize = match p.bits_per_component {
                Some(v) => v,
                None => 8,
            } as usize;
            if bits != 8 {
                return Err(ImageError::UnsupportedPredictorBitDepth);
            }
            Ok(Some((colors * bits / 8, columns)))
        },
    }
}

/// The pixels of an image: the first `width * height * channels` bytes of
/// the data, which must hold at least that many.
pub open spec fn spec_finish(width: usize, height: usize, color: ImageColor, data: Seq<u8>) -> Result<
    (usize, usize, ImageColor, Seq<u8>),
    ImageError,
> {
    let expected = width * height * color.spec_channels();
    if data.len() < expected {
        Err(ImageError::DataTooShort)
    } else {
        Ok((width, height, color, data.take(expected)))
    }
}

/// Cuts decoded data to the image's pixels.
pub fn finish_pixels(width: usize, height: usize, color: ImageColor, data: Vec<u8>) -> (r: Result<
    DecodedImage,
    ImageError,
>)
    requires
        width * height * color.spec_channels() <= usize::MAX,
    ensures
        match (r, spec_finish(width, height, color, data@)) {
            (Ok(img), Ok((w, h, c, px))) => img.width == w && img.height == h && img.color == c
                && img.pixels@ == px,
            (Err(e), Err(f)) => e == f,
            _ => false,
        },
{
    let channels = color.channels();
    assert(width * height <= usize::MAX) by (nonlinear_arith)
        requires
            width * height * channels <= usize::MAX,
            channels >= 1,
    ;
    let expected = width * height * channels;
    if data.len() < expected {
        return Err(ImageError::DataTooShort);
    }
    let mut pixels = data;
    pixels.truncate(expected);
    Ok(DecodedImage { width, height, color, pixels })
}

/// What `jpeg_decoder::Decoder::decode` gives for a byte stream: the
/// pixel bytes and, from `Decoder::info`, the width, height and bytes per
/// pixel of the frame (`None` when decoding fails).
/// Decoding goes the same way on every machine: the decoder is built
/// with its `platform_independent` feature.
pub uninterp spec fn jpeg_decoding(data: Seq<u8>) -> Option<(Seq<u8>, Option<(u16, u16, usize)>)>;

/// What reading a `flate2::read::ZlibDecoder` over a byte stream to its
/// end gives (`None` when reading fails).
pub uninterp spec fn zlib_inflation(data: Seq<u8>) -> Option<Seq<u8>>;

/// What `lopdf::filters::png::decode_frame` gives for data filtered with
/// PNG row predictors (`None` when it fails).
pub uninterp spec fn png_unfiltering(data: Seq<u8>, bytes_per_pixel: usize, pixels_per_row: usize) -> Option<Seq<u8>>;

/// Decodes a JPEG stream with `jpeg_decoder::Decoder::decode`, then asks
/// `Decoder::info` for the frame's size and `PixelFormat::pixel_bytes`.
/// The result is named, not described: it is whatever the decoder gives
/// for these bytes. The decoder is built with its `platform_independent`
/// feature, so it takes its portable IDCT and colour conversion on every
/// machine and the result depends on the bytes alone. The number of pixel
/// bytes is not stated here; the caller checks it.
#[verifier::external_body]
fn decode_jpeg(data: &[u8]) -> (r: Option<(Vec<u8>, Option<(u16, u16, usize)>)>)
    ensures
        jpeg_decoding(data@) == match r {
            Some((px, info)) => Some((px@, info)),
            None => None,
        },
{
    let mut decoder = jpeg_decoder::Decoder::new(data);
    match decoder.decode() {
        Ok(pixels) => {
            let info = match decoder.info() {
                Some(i) => Some((i.width, i.height, i.pixel_format.pixel_bytes())),
                None => None,
            };
            Some((pixels, info))
        },
        Err(_) => None,
    }
}

/// Inflates zlib data by reading a `flate2::read::ZlibDecoder` to its end
/// (`std::io::Read::read_to_end`). The result is named, not described.
#[verifier::external_body]
fn inflate_zlib(data: &[u8]) -> (r: Option<Vec<u8>>)
    ensures
        zlib_inflation(data@) == match r {
            Some(v) => Some(v@),
            None => None,
        },
{
    let mut decoder = flate2::read::ZlibDecoder::new(data);
    let mut out = Vec::new();
    match std::io::Read::read_to_end(&mut decoder, &mut out) {
        Ok(_) => Some(out),
        Err(_) => None,
    }
}

/// Undoes PNG row predictors with `lopdf::filters::png::decode_frame`,
/// which multiplies the two sizes and allocates a row buffer of that
/// many bytes (hence the bound: `vec!` panics above `isize::MAX`). The
/// result is named, not described.
#[verifier::external_body]
fn unfilter_png(data: &[u8], bytes_per_pixel: usize, pixels_per_row: usize) -> (r: Option<Vec<u8>>)
    requires
        bytes_per_pixel * pixels_per_row <= isize::MAX,
    ensures
        png_unfiltering(data@, bytes_per_pixel, pixels_per_row) == match r {
            Some(v) => Some(v@),
            None => None,
        },
{
    match lopdf::filters::png::decode_frame(data, bytes_per_pixel, pixels_per_row) {
        Ok(v) => Some(v),
        Err(_) => None,
    }
}

/// The stream's filter name: its only filter, or empty when it has none.
pub open spec fn spec_filter(info: &ImageStreamInfo) -> Seq<char> {
    if info.filters@.len() == 0 {
        Seq::empty()
    } else {
        info.filters@[0]@
    }
}

/// The stream's `ColorSpace` name, if it has one.
pub open spec fn spec_color_space(info: &ImageStreamInfo) -> Option<Seq<char>> {
    match info.color_space {
        Some(s) => Some(s@),
        None => None,
    }
}

/// What decoding an image stream gives: (width, height, colour model,
/// pixels), or why it cannot be decoded. A `DCTDecode` stream is decoded
/// as JPEG, whose pixel bytes must number width x height x channels; a
/// `FlateDecode` stream is inflated, an unfiltered one taken
/// as it is, and either then has its PNG predictor undone and is cut to
/// size; every other filter is refused.
pub open spec fn spec_decode_image(info: &ImageStreamInfo) -> Result<(usize, usize, ImageColor, Seq<u8>), ImageError> {
    match spec_header(info) {
        Err(e) => Err(e),
        Ok((w, h)) => {
            let filter = spec_filter(info);
            if filter == "DCTDecode"@ {
                match jpeg_decoding(info.content@) {
                    None => Err(ImageError::JpegDecodeFailed),
                    Some((_, None)) => Err(ImageError::MissingJpegInfo),
                    Some((px, Some((jw, jh, pb)))) => match spec_jpeg_color(pb, spec_color_space(info)) {
                        Err(e) => Err(e),
                        Ok(c) => if px.len() == jw as int * jh as int * c.spec_channels() {
                            Ok((jw as usize, jh as usize, c, px))
                        } else {
                            Err(ImageError::JpegSizeMismatch)
                        },
                    },
                }
            } else if filter == "FlateDecode"@ || filter.len() == 0 {
                let data = if filter.len() == 0 {
                    Some(info.content@)
                } else {
                    zlib_inflation(info.content@)
                };
                match data {
                    None => Err(ImageError::DecompressFailed),
                    Some(d) => match spec_flate_color(spec_color_space(info)) {
                        Err(e) => Err(e),
                        Ok(c) => match spec_predictor(info.decode_parms, c.spec_channels(), w) {
                            Err(e) => Err(e),
                            Ok(None) => spec_finish(w, h, c, d),
                            Ok(Some((bpp, cols))) => match png_unfiltering(d, bpp, cols) {
                                None => Err(ImageError::PredictorFailed),
                                Some(d2) => spec_finish(w, h, c, d2),
                            },
                        },
                    },
                }
            } else {
                Err(ImageError::UnsupportedFilter)
            }
        },
    }
}

/// Decoding an image stream stays within machine limits: along the path
/// that decoding takes, the predictor settings and the pixel count fit in
/// a `usize`, and the predictor's row size in an `isize`.
pub open spec fn decode_image_fits(info: &ImageStreamInfo) -> bool {
    match spec_header(info) {
        Err(_) => true,
        Ok((w, h)) => {
            let filter = spec_filter(info);
            if filter != "DCTDecode"@ && (filter == "FlateDecode"@ || filter.len() == 0) {
                let data = if filter.len() == 0 {
                    Some(info.content@)
                } else {
                    zlib_inflation(info.content@)
                };
                match (data, spec_flate_color(spec_color_space(info))) {
                    (Some(d), Ok(c)) => {
                        &&& predictor_fits(info.decode_parms, c.spec_channels())
                        &&& match spec_predictor(info.decode_parms, c.spec_channels(), w) {
                            Ok(None) => w * h * c.spec_channels() <= usize::MAX,
                            Ok(Some((bpp, cols))) => {
                                &&& bpp * cols <= isize::MAX
                                &&& png_unfiltering(d, bpp, cols) is Some ==> w * h
                                    * c.spec_channels() <= usize::MAX
                            },
                            Err(_) => true,
                        }
                    },
                    _ => true,
                }
            } else {
                true
            }
        },
    }
}

/// Whether a decoded image is the (width, height, colour, pixels)
/// outcome `s`, or fails as `s` does.
pub open spec fn decoded_as(
    r: Result<DecodedImage, ImageError>,
    s: Result<(usize, usize, ImageColor, Seq<u8>), ImageError>,
) -> bool {
    match (r, s) {
        (Ok(img), Ok((w, h, c, px))) => img.width == w && img.height == h && img.color == c
            && img.pixels@ == px,
        (Err(e), Err(f)) => e == f,
        _ => false,
    }
}

/// An uncompressed or Flate-compressed image keeps the size its
/// dictionary gives: when it decodes, its width is the dictionary's
/// `Width` and its height the dictionary's `Height`.
pub proof fn law_flate_image_size(info: &ImageStreamInfo)
    ensures
        spec_filter(info) != "DCTDecode"@ ==> (spec_decode_image(info) matches Ok((w, h, _, _)) ==> (
        info.width matches Some(dw) && info.height matches Some(dh) && w == dw as usize && h
            == dh as usize)),
{
}

/// Whether working out the predictor settings stays within `usize`
/// arithmetic (see `predictor_fits`).
pub fn predictor_fits_check(parms: &Option<PredictorParams>, channels: usize) -> (r: bool)
    ensures
        r == predictor_fits(*parms, channels),
{
    match parms {
        None => true,
        Some(p) => {
            let predictor: i64 = match p.predictor {
                Some(v) => v,
                None => 1,
            };
            let colors: usize = match p.colors {
                Some(v) => v,
                None => channels as i64,
            } as usize;
            let bits: usize = match p.bits_per_component {
                Some(v) => v,
                None => 8,
            } as usize;
            if 10 <= predictor && predictor <= 15 && bits == 8 {
                colors.checked_mul(8).is_some()
            } else {
                true
            }
        },
    }
}

/// Decodes an image XObject stream for redaction; `None` when decoding
/// would go past machine limits (see `decode_image_fits`).
pub fn try_decode_image(info: &ImageStreamInfo) -> (r: Option<Result<DecodedImage, ImageError>>)
    ensures
        match r {
            None => !decode_image_fits(info),
            Some(x) => decode_image_fits(info) && decoded_as(x, spec_decode_image(info)),
        },
        r matches Some(Ok(img)) ==> img.pixels@.len() == img.width * img.height
            * img.color.spec_channels(),
        match r {
            Some(Ok(img)) => spec_filter(info) != "DCTDecode"@ ==> (info.width matches Some(dw)
                && info.height matches Some(dh) && img.width == dw as usize && img.height == dh
                as usize),
            _ => true,
        },
{
    proof {
        law_flate_image_size(info);
    }
    let (width, height) = match image_header(info) {
        Ok(d) => d,
        Err(e) => return Some(Err(e)),
    };
    let color_space: Option<&str> = match &info.color_space {
        Some(s) => Some(s.as_str()),
        None => None,
    };
    let filter: &str = if info.filters.len() == 0 {
        ""
    } else {
        info.filters[0].as_str()
    };
    proof {
        reveal_strlit("");
    }
    assert(filter@ == spec_filter(info));
    assert(spec_header(info) == Ok::<(usize, usize), ImageError>((width, height)));
    if str_eq(filter, "DCTDecode") {
        let (pixels, frame) = match decode_jpeg(info.content.as_slice()) {
            Some(d) => d,
            None => return Some(Err(ImageError::JpegDecodeFailed)),
        };
        let (jw, jh, pixel_bytes) = match frame {
            Some(f) => f,
            None => return Some(Err(ImageError::MissingJpegInfo)),
        };
        let color = match jpeg_color(pixel_bytes, color_space) {
            Ok(c) => c,
            Err(e) => return Some(Err(e)),
        };
        let channels = color.channels();
        assert(jw as u64 * jh as u64 <= 65535 * 65535) by (nonlinear_arith)
            requires
                jw <= 65535,
                jh <= 65535,
        ;
        let area: u64 = jw as u64 * jh as u64;
        assert(area * channels <= 65535 * 65535 * 4) by (nonlinear_arith)
            requires
                area <= 65535 * 65535,
                channels <= 4,
        ;
        let expected: u64 = area * channels as u64;
        if pixels.len() as u64 != expected {
            return Some(Err(ImageError::JpegSizeMismatch));
        }
        Some(Ok(DecodedImage { width: jw as usize, height: jh as usize, color, pixels }))
    } else if str_eq(filter, "FlateDecode") || filter.is_empty() {
        let data: Vec<u8> = if filter.is_empty() {
            info.content.clone()
        } else {
            match inflate_zlib(info.content.as_slice()) {
                Some(d) => d,
                None => return Some(Err(ImageError::DecompressFailed)),
            }
        };
        let color = match flate_color(color_space) {
            Ok(c) => c,
            Err(e) => return Some(Err(e)),
        };
        let channels = color.channels();
        if !predictor_fits_check(&info.decode_parms, channels) {
            return None;
        }
        let settings = match predictor_settings(&info.decode_parms, channels, width) {
            Ok(s) => s,
            Err(e) => return Some(Err(e)),
        };
        let raw = match settings {
            None => data,
            Some((bpp, columns)) => {
                let row_bytes = match bpp.checked_mul(columns) {
                    Some(n) => n,
                    None => return None,
                };
                if row_bytes > isize::MAX as usize {
                    return None;
                }
                match unfilter_png(data.as_slice(), bpp, columns) {
                    Some(raw) => raw,
                    None => return Some(Err(ImageError::PredictorFailed)),
                }
            },
        };
        let fits = match width.checked_mul(height) {
            Some(area) => area.checked_mul(channels).is_some(),
            None => false,
        };
        if !fits {
            proof {
                if width * height <= usize::MAX {
                    assert(width * height * channels > usize::MAX);
                } else {
                    assert(width * height * channels >= width * height) by (nonlinear_arith)
                        requires
                            channels >= 1,
                    ;
                }
            }
            return None;
        }
        Some(finish_pixels(width, height, color, raw))
    } else {
        Some(Err(ImageError::UnsupportedFilter))
    }
}

/// Decodes an image XObject stream for redaction.
pub fn decode_image_stream(info: &ImageStreamInfo) -> (r: Result<DecodedImage, ImageError>)
    requires
        decode_image_fits(info),
    ensures
        decoded_as(r, spec_decode_image(info)),
        r matches Ok(img) ==> img.pixels@.len() == img.width * img.height * img.color.spec_channels(),
{
    match try_decode_image(info) {
        Some(r) => r,
        None => {
            assert(false);
            Err(ImageError::UnsupportedFilter)
        },
    }
}

/// The pixel rectangle `[x0, x1) x [y0, y1)` that a mask covers, given
/// the covered span in pixel units (as whole numbers, outward-rounded),
/// cut to the image; `None` when it lies outside the image or is empty.
pub open spec fn spec_pixel_bounds(x0: int, x1: int, y0: int, y1: int, width: int, height: int) -> Option<
    (int, int, int, int),
> {
    if x1 <= 0 || y1 <= 0 || x0 >= width || y0 >= height {
        None
    } else {
        let cx0 = if x0 < 0 { 0 } else { x0 };
        let cx1 = if x1 > width { width } else { x1 };
        let cy0 = if y0 < 0 { 0 } else { y0 };
        let cy1 = if y1 > height { height } else { y1 };
        if cx0 >= cx1 || cy0 >= cy1 {
            None
        } else {
            Some((cx0, cy0, cx1, cy1))
        }
    }
}

/// Whether pixel (px, py) lies in the rectangle `r` (x0, y0, x1, y1),
/// ends excluded.
pub open spec fn in_rect(r: Option<(int, int, int, int)>, px: int, py: int) -> bool {
    match r {
        Some((a, b, c, d)) => a <= px < c && b <= py < d,
        None => false,
    }
}

/// A rectangle of `usize` corners with its corners as integers.
pub open spec fn rect_int(r: Option<(usize, usize, usize, usize)>) -> Option<(int, int, int, int)> {
    match r {
        Some((a, b, c, d)) => Some((a as int, b as int, c as int, d as int)),
        None => None,
    }
}

/// The pixel rectangle of a mask is exactly its span cut to the image: a
/// pixel of the image is in the rectangle if and only if the span covers
/// it, and the rectangle lies within the image. So a span that overlaps
/// the image always gives a rectangle, ending at the image's edge where
/// it reaches past it.
pub proof fn law_pixel_bounds_exact(x0: int, x1: int, y0: int, y1: int, width: int, height: int)
    requires
        width >= 0,
        height >= 0,
    ensures
        forall|px: int, py: int|
            0 <= px < width && 0 <= py < height ==> (#[trigger] in_rect(
                spec_pixel_bounds(x0, x1, y0, y1, width, height),
                px,
                py,
            ) <==> (x0 <= px < x1 && y0 <= py < y1)),
        spec_pixel_bounds(x0, x1, y0, y1, width, height) matches Some((a, b, c, d)) ==> 0 <= a < c
            <= width && 0 <= b < d <= height,
{
}

/// Cuts a mask's pixel span to the image: (x0, y0, x1, y1) with
/// `x0 < x1 <= width` and `y0 < y1 <= height`, or `None`.
pub fn pixel_bounds(x0: isize, x1: isize, y0: isize, y1: isize, width: usize, height: usize) -> (r: Option<
    (usize, usize, usize, usize),
>)
    requires
        width <= isize::MAX,
        height <= isize::MAX,
    ensures
        match (r, spec_pixel_bounds(x0 as int, x1 as int, y0 as int, y1 as int, width as int, height as int)) {
            (Some((a, b, c, d)), Some((sa, sb, sc, sd))) => a == sa && b == sb && c == sc && d == sd,
            (None, None) => true,
            _ => false,
        },
        r matches Some((a, b, c, d)) ==> a < c <= width && b < d <= height,
        forall|px: int, py: int|
            0 <= px < width && 0 <= py < height ==> (#[trigger] in_rect(rect_int(r), px, py) <==> (x0
                <= px < x1 && y0 <= py < y1)),
{
    proof {
        law_pixel_bounds_exact(x0 as int, x1 as int, y0 as int, y1 as int, width as int, height as int);
    }
    let w = width as isize;
    let h = height as isize;
    if x1 <= 0 || y1 <= 0 || x0 >= w || y0 >= h {
        return None;
    }
    let cx0 = if x0 < 0 { 0 } else { x0 };
    let cx1 = if x1 > w { w } else { x1 };
    let cy0 = if y0 < 0 { 0 } else { y0 };
    let cy1 = if y1 > h { h } else { y1 };
    if cx0 >= cx1 || cy0 >= cy1 {
        return None;
    }
    let r = Some((cx0 as usize, cy0 as usize, cx1 as usize, cy1 as usize));
    assert(rect_int(r) == spec_pixel_bounds(x0 as int, x1 as int, y0 as int, y1 as int, width as int, height as int));
    r
}

/// The pixel bytes after pixel (px, py) of an image `width` pixels wide
/// is given the colour `fill` (its first `channels` bytes).
pub open spec fn spec_fill_pixel(
    pixels: Seq<u8>,
    width: int,
    channels: int,
    px: int,
    py: int,
    fill: Seq<u8>,
) -> Seq<u8> {
    let start = (py * width + px) * channels;
    Seq::new(
        pixels.len(),
        |i: int|
            if start <= i < start + channels {
                fill[i - start]
            } else {
                pixels[i]
            },
    )
}

/// Paints one pixel of a row-major image of colour model `color` with
/// the pixel value `fill`.
pub fn fill_pixel(pixels: &mut Vec<u8>, width: usize, color: ImageColor, px: usize, py: usize, fill: &[u8])
    requires
        px < width,
        (py * width + px + 1) * color.spec_channels() <= old(pixels)@.len(),
        color.spec_channels() <= fill@.len(),
    ensures
        final(pixels)@ == spec_fill_pixel(
            old(pixels)@,
            width as int,
            color.spec_channels() as int,
            px as int,
            py as int,
            fill@,
        ),
{
    let channels = color.channels();
    let len = pixels.len();
    assert(py * width + px + 1 <= len && (py * width + px) * channels + channels == (py * width
        + px + 1) * channels) by (nonlinear_arith)
        requires
            (py * width + px + 1) * channels <= len,
            channels >= 1,
            py >= 0,
            width >= 0,
            px >= 0,
    ;
    assert(py * width <= len) by (nonlinear_arith)
        requires
            py * width + px + 1 <= len,
            px >= 0,
    ;
    assert((py * width + px) * channels <= len) by (nonlinear_arith)
        requires
            (py * width + px) * channels + channels <= len,
            channels >= 1,
    ;
    let start = (py * width + px) * channels;
    let ghost before = pixels@;
    let mut c: usize = 0;
    while c < channels
        invariant
            start + channels <= pixels@.len(),
            pixels@.len() == len,
            before.len() == len,
            channels <= fill@.len(),
            c <= channels,
            forall|i: int|
                0 <= i < pixels@.len() ==> pixels@[i] == if start <= i < start + c {
                    fill@[i - start]
                } else {
                    before[i]
                },
        decreases channels - c,
    {
        pixels.set(start + c, fill[c]);
        c = c + 1;
    }
    assert(pixels@ =~= spec_fill_pixel(before, width as int, channels as int, px as int, py as int, fill@));
}

/// Positions `0..k` of `colors` whose colour is `c`, in order.
pub open spec fn indices_of(colors: Seq<MaskColor>, c: MaskColor, k: int) -> Seq<usize>
    decreases k,
{
    if k <= 0 {
        Seq::empty()
    } else if colors[k - 1] == c {
        indices_of(colors, c, k - 1).push((k - 1) as usize)
    } else {
        indices_of(colors, c, k - 1)
    }
}

/// The order in which masks are painted into an image: every white mask
/// (in the given order), then every black mask, so that black wins where
/// they overlap.
pub open spec fn spec_paint_order(colors: Seq<MaskColor>) -> Seq<usize> {
    indices_of(colors, MaskColor::White, colors.len() as int) + indices_of(
        colors,
        MaskColor::Black,
        colors.len() as int,
    )
}

/// Positions of the masks of colour `c`, in order.
fn positions_of(colors: &[MaskColor], c: MaskColor) -> (r: Vec<usize>)
    ensures
        r@ == indices_of(colors@, c, colors@.len() as int),
{
    let mut out: Vec<usize> = Vec::new();
    let mut i: usize = 0;
    while i < colors.len()
        invariant
            i <= colors@.len(),
            out@ == indices_of(colors@, c, i as int),
        decreases colors.len() - i,
    {
        if colors[i] == c {
            out.push(i);
        }
        i = i + 1;
    }
    out
}

/// The order in which masks of the given colours are painted into an
/// image: white ones first, then black ones, each in mask order.
pub fn paint_order(colors: &[MaskColor]) -> (r: Vec<usize>)
    ensures
        r@ == spec_paint_order(colors@),
{
    let mut order = positions_of(colors, MaskColor::White);
    let mut blacks = positions_of(colors, MaskColor::Black);
    order.append(&mut blacks);
    order
}

/// The positions of colour `c` among the first `k` masks: each is below
/// `k` and has colour `c`, and every such position is among them.
proof fn lemma_indices_of(colors: Seq<MaskColor>, c: MaskColor, k: int)
    requires
        0 <= k <= colors.len(),
        colors.len() <= usize::MAX,
    ensures
        forall|j: int|
            0 <= j < indices_of(colors, c, k).len() ==> #[trigger] indices_of(colors, c, k)[j] < k
                && colors[indices_of(colors, c, k)[j] as int] == c,
        forall|i: int| 0 <= i < k && colors[i] == c ==> indices_of(colors, c, k).contains(i as usize),
    decreases k,
{
    if k > 0 {
        lemma_indices_of(colors, c, k - 1);
        let before = indices_of(colors, c, k - 1);
        let now = indices_of(colors, c, k);
        assert forall|i: int| 0 <= i < k && colors[i] == c implies now.contains(i as usize) by {
            if i < k - 1 {
                let j = choose|j: int| 0 <= j < before.len() && before[j] == i as usize;
                assert(now[j] == before[j]);
            } else {
                assert(now[now.len() - 1] == i as usize);
            }
        }
    }
}

/// Black wins where masks overlap: in the order masks are painted into
/// an image, every mask comes once, and no white mask comes after a
/// black one.
pub proof fn law_black_painted_last(colors: Seq<MaskColor>)
    requires
        colors.len() <= usize::MAX,
    ensures
        forall|i: usize| i < colors.len() ==> #[trigger] spec_paint_order(colors).contains(i),
        forall|a: int|
            0 <= a < spec_paint_order(colors).len() ==> #[trigger] spec_paint_order(colors)[a]
                < colors.len(),
        forall|a: int, b: int|
            0 <= a < b < spec_paint_order(colors).len() && colors[spec_paint_order(colors)[a] as int]
                == MaskColor::Black ==> colors[spec_paint_order(colors)[b] as int]
                == MaskColor::Black,
{
    let n = colors.len() as int;
    lemma_indices_of(colors, MaskColor::White, n);
    lemma_indices_of(colors, MaskColor::Black, n);
    let w = indices_of(colors, MaskColor::White, n);
    let bl = indices_of(colors, MaskColor::Black, n);
    let o = spec_paint_order(colors);
    assert forall|i: usize| i < n implies #[trigger] o.contains(i) by {
        if colors[i as int] == MaskColor::White {
            assert(w.contains(i as int as usize));
            let j = choose|j: int| 0 <= j < w.len() && w[j] == i;
            assert(o[j] == i);
        } else {
            assert(bl.contains(i as int as usize));
            let j = choose|j: int| 0 <= j < bl.len() && bl[j] == i;
            assert(o[w.len() + j] == i);
        }
    }
    assert forall|a: int| 0 <= a < o.len() implies #[trigger] o[a] < n by {
        if a < w.len() {
            assert(o[a] == w[a]);
        } else {
            assert(o[a] == bl[a - w.len()]);
        }
    }
    assert forall|a: int, b: int|
        0 <= a < b < o.len() && colors[o[a] as int] == MaskColor::Black implies colors[o[b] as int]
        == MaskColor::Black by {
        if a < w.len() {
            assert(o[a] == w[a]);
        } else {
            assert(o[b] == bl[b - w.len()]);
        }
    }
}

} // verus!
