use std::io::Write;

use masking_tool::color::MaskColor;
use masking_tool::image::{
    decode_image_stream, fill_pixel, finish_pixels, flate_color, image_header, jpeg_color,
    paint_order, pixel_bounds, predictor_fits_check, predictor_settings, try_decode_image,
    ImageColor, ImageError, ImageStreamInfo, PredictorParams,
};

fn info(
    width: i64,
    height: i64,
    color_space: Option<&str>,
    filters: &[&str],
    content: Vec<u8>,
) -> ImageStreamInfo {
    ImageStreamInfo {
        width: Some(width),
        height: Some(height),
        bits_per_component: Some(8),
        color_space: color_space.map(|s| s.to_string()),
        filters: filters.iter().map(|s| s.to_string()).collect(),
        decode_parms: None,
        content,
    }
}

fn zlib(data: &[u8]) -> Vec<u8> {
    let mut enc = flate2::write::ZlibEncoder::new(Vec::new(), flate2::Compression::default());
    enc.write_all(data).unwrap();
    enc.finish().unwrap()
}

fn segment(out: &mut Vec<u8>, marker: u8, payload: &[u8]) {
    out.push(0xFF);
    out.push(marker);
    let len = payload.len() + 2;
    out.push((len >> 8) as u8);
    out.push((len & 0xFF) as u8);
    out.extend_from_slice(payload);
}

/// A baseline JPEG of an 8x8 gray image whose every pixel is 128, with the
/// standard luminance Huffman tables and a quantisation table of ones.
fn gray_jpeg_8x8() -> Vec<u8> {
    let dc_bits = [0u8, 1, 5, 1, 1, 1, 1, 1, 1, 0, 0, 0, 0, 0, 0, 0];
    let ac_bits = [0u8, 2, 1, 3, 3, 2, 4, 3, 5, 5, 4, 4, 0, 0, 1, 0x7D];
    let ac_vals: [u8; 162] = [
        0x01, 0x02, 0x03, 0x00, 0x04, 0x11, 0x05, 0x12, 0x21, 0x31, 0x41, 0x06, 0x13, 0x51, 0x61,
        0x07, 0x22, 0x71, 0x14, 0x32, 0x81, 0x91, 0xA1, 0x08, 0x23, 0x42, 0xB1, 0xC1, 0x15, 0x52,
        0xD1, 0xF0, 0x24, 0x33, 0x62, 0x72, 0x82, 0x09, 0x0A, 0x16, 0x17, 0x18, 0x19, 0x1A, 0x25,
        0x26, 0x27, 0x28, 0x29, 0x2A, 0x34, 0x35, 0x36, 0x37, 0x38, 0x39, 0x3A, 0x43, 0x44, 0x45,
        0x46, 0x47, 0x48, 0x49, 0x4A, 0x53, 0x54, 0x55, 0x56, 0x57, 0x58, 0x59, 0x5A, 0x63, 0x64,
        0x65, 0x66, 0x67, 0x68, 0x69, 0x6A, 0x73, 0x74, 0x75, 0x76, 0x77, 0x78, 0x79, 0x7A, 0x83,
        0x84, 0x85, 0x86, 0x87, 0x88, 0x89, 0x8A, 0x92, 0x93, 0x94, 0x95, 0x96, 0x97, 0x98, 0x99,
        0x9A, 0xA2, 0xA3, 0xA4, 0xA5, 0xA6, 0xA7, 0xA8, 0xA9, 0xAA, 0xB2, 0xB3, 0xB4, 0xB5, 0xB6,
        0xB7, 0xB8, 0xB9, 0xBA, 0xC2, 0xC3, 0xC4, 0xC5, 0xC6, 0xC7, 0xC8, 0xC9, 0xCA, 0xD2, 0xD3,
        0xD4, 0xD5, 0xD6, 0xD7, 0xD8, 0xD9, 0xDA, 0xE1, 0xE2, 0xE3, 0xE4, 0xE5, 0xE6, 0xE7, 0xE8,
        0xE9, 0xEA, 0xF1, 0xF2, 0xF3, 0xF4, 0xF5, 0xF6, 0xF7, 0xF8, 0xF9, 0xFA,
    ];
    let mut out = vec![0xFF, 0xD8];
    let mut dqt = vec![0u8];
    dqt.extend_from_slice(&[1u8; 64]);
    segment(&mut out, 0xDB, &dqt);
    segment(&mut out, 0xC0, &[8, 0, 8, 0, 8, 1, 1, 0x11, 0]);
    let mut dht_dc = vec![0x00u8];
    dht_dc.extend_from_slice(&dc_bits);
    dht_dc.extend((0u8..12).collect::<Vec<u8>>());
    segment(&mut out, 0xC4, &dht_dc);
    let mut dht_ac = vec![0x10u8];
    dht_ac.extend_from_slice(&ac_bits);
    dht_ac.extend_from_slice(&ac_vals);
    segment(&mut out, 0xC4, &dht_ac);
    segment(&mut out, 0xDA, &[1, 1, 0x00, 0, 63, 0]);
    // DC difference 0 (code 00), end of block (code 1010), padded with ones.
    out.push(0x2B);
    out.push(0xFF);
    out.push(0xD9);
    out
}

#[test]
fn channels_per_colour_model() {
    assert_eq!(ImageColor::Gray.channels(), 1);
    assert_eq!(ImageColor::Rgb.channels(), 3);
    assert_eq!(ImageColor::Cmyk.channels(), 4);
}

#[test]
fn header_needs_width_and_height() {
    let mut i = info(2, 3, Some("DeviceGray"), &[], vec![]);
    assert_eq!(image_header(&i), Ok((2, 3)));
    i.height = None;
    assert_eq!(image_header(&i), Err(ImageError::MissingHeight));
    i.width = None;
    assert_eq!(image_header(&i), Err(ImageError::MissingWidth));
}

#[test]
fn header_bit_depth_must_be_eight() {
    let mut i = info(2, 3, Some("DeviceGray"), &[], vec![]);
    i.bits_per_component = None;
    assert_eq!(image_header(&i), Ok((2, 3)));
    i.bits_per_component = Some(16);
    assert_eq!(image_header(&i), Err(ImageError::UnsupportedBitsPerComponent));
    i.bits_per_component = Some(1);
    assert_eq!(image_header(&i), Err(ImageError::UnsupportedBitsPerComponent));
    // The depth is cut to a byte before it is compared.
    i.bits_per_component = Some(264);
    assert_eq!(image_header(&i), Ok((2, 3)));
}

#[test]
fn header_refuses_several_filters() {
    let i = info(2, 3, Some("DeviceGray"), &["FlateDecode", "DCTDecode"], vec![]);
    assert_eq!(image_header(&i), Err(ImageError::MultipleFilters));
}

#[test]
fn jpeg_colour_models() {
    assert_eq!(jpeg_color(1, None), Ok(ImageColor::Gray));
    assert_eq!(jpeg_color(3, None), Ok(ImageColor::Rgb));
    assert_eq!(jpeg_color(4, None), Ok(ImageColor::Cmyk));
    assert_eq!(jpeg_color(2, None), Err(ImageError::UnsupportedJpegPixelFormat));
    assert_eq!(jpeg_color(3, Some("DeviceRGB")), Ok(ImageColor::Rgb));
    assert_eq!(jpeg_color(1, Some("DeviceGray")), Ok(ImageColor::Gray));
    assert_eq!(jpeg_color(4, Some("DeviceCMYK")), Ok(ImageColor::Cmyk));
    assert_eq!(jpeg_color(3, Some("DeviceGray")), Err(ImageError::UnsupportedColorSpace));
    assert_eq!(jpeg_color(1, Some("ICCBased")), Err(ImageError::UnsupportedColorSpace));
}

#[test]
fn flate_colour_models() {
    assert_eq!(flate_color(Some("DeviceGray")), Ok(ImageColor::Gray));
    assert_eq!(flate_color(Some("DeviceRGB")), Ok(ImageColor::Rgb));
    assert_eq!(flate_color(Some("DeviceCMYK")), Ok(ImageColor::Cmyk));
    assert_eq!(flate_color(Some("Indexed")), Err(ImageError::UnsupportedColorSpace));
    assert_eq!(flate_color(None), Err(ImageError::MissingColorSpace));
}

#[test]
fn predictor_settings_defaults_and_limits() {
    assert_eq!(predictor_settings(&None, 3, 10), Ok(None));
    let none_asked = Some(PredictorParams {
        predictor: None,
        colors: None,
        columns: None,
        bits_per_component: None,
    });
    assert_eq!(predictor_settings(&none_asked, 3, 10), Ok(None));
    let tiff = Some(PredictorParams {
        predictor: Some(2),
        colors: None,
        columns: None,
        bits_per_component: Some(16),
    });
    assert_eq!(predictor_settings(&tiff, 3, 10), Ok(None));
    let png = Some(PredictorParams {
        predictor: Some(12),
        colors: None,
        columns: None,
        bits_per_component: None,
    });
    assert_eq!(predictor_settings(&png, 3, 10), Ok(Some((3, 10))));
    let explicit = Some(PredictorParams {
        predictor: Some(15),
        colors: Some(4),
        columns: Some(7),
        bits_per_component: Some(8),
    });
    assert_eq!(predictor_settings(&explicit, 1, 10), Ok(Some((4, 7))));
    let deep = Some(PredictorParams {
        predictor: Some(10),
        colors: None,
        columns: None,
        bits_per_component: Some(16),
    });
    assert_eq!(
        predictor_settings(&deep, 1, 10),
        Err(ImageError::UnsupportedPredictorBitDepth)
    );
}

#[test]
fn predictor_colour_count_overflow_is_detected() {
    let huge = Some(PredictorParams {
        predictor: Some(12),
        colors: Some(i64::MAX),
        columns: None,
        bits_per_component: None,
    });
    assert!(!predictor_fits_check(&huge, 1));
    let wrapped = Some(PredictorParams {
        predictor: Some(12),
        colors: Some(-1),
        columns: None,
        bits_per_component: None,
    });
    assert!(!predictor_fits_check(&wrapped, 1));
    assert!(predictor_fits_check(&None, 1));
    let small = Some(PredictorParams {
        predictor: Some(12),
        colors: Some(3),
        columns: None,
        bits_per_component: None,
    });
    assert!(predictor_fits_check(&small, 1));
}

#[test]
fn finish_pixels_cuts_to_size() {
    let img = finish_pixels(2, 1, ImageColor::Rgb, vec![1, 2, 3, 4, 5, 6, 7, 8]).unwrap();
    assert_eq!(img.width, 2);
    assert_eq!(img.height, 1);
    assert_eq!(img.color, ImageColor::Rgb);
    assert_eq!(img.pixels, vec![1, 2, 3, 4, 5, 6]);
    assert!(matches!(
        finish_pixels(2, 2, ImageColor::Gray, vec![1, 2, 3]),
        Err(ImageError::DataTooShort)
    ));
}

#[test]
fn uncompressed_gray_image() {
    let i = info(2, 2, Some("DeviceGray"), &[], vec![10, 20, 30, 40, 50]);
    let img = decode_image_stream(&i).unwrap();
    assert_eq!((img.width, img.height), (2, 2));
    assert_eq!(img.color, ImageColor::Gray);
    assert_eq!(img.pixels, vec![10, 20, 30, 40]);
}

#[test]
fn flate_rgb_image_is_inflated() {
    let raw: Vec<u8> = (0u8..12).collect();
    let i = info(2, 2, Some("DeviceRGB"), &["FlateDecode"], zlib(&raw));
    let img = decode_image_stream(&i).unwrap();
    assert_eq!(img.color, ImageColor::Rgb);
    assert_eq!(img.pixels, raw);
}

#[test]
fn flate_image_with_png_predictor() {
    // Two rows of two gray pixels: row 0 unfiltered, row 1 "Up".
    let filtered = vec![0u8, 10, 20, 2, 1, 1];
    let mut i = info(2, 2, Some("DeviceGray"), &["FlateDecode"], zlib(&filtered));
    i.decode_parms = Some(PredictorParams {
        predictor: Some(12),
        colors: None,
        columns: None,
        bits_per_component: None,
    });
    let img = decode_image_stream(&i).unwrap();
    assert_eq!(img.pixels, vec![10, 20, 11, 21]);
}

#[test]
fn bad_predictor_data_fails() {
    let filtered = vec![9u8, 10, 20];
    let mut i = info(2, 1, Some("DeviceGray"), &[], filtered);
    i.decode_parms = Some(PredictorParams {
        predictor: Some(10),
        colors: Some(1),
        columns: Some(2),
        bits_per_component: Some(8),
    });
    assert!(matches!(decode_image_stream(&i), Err(ImageError::PredictorFailed)));
}

#[test]
fn corrupt_flate_data_fails() {
    let i = info(1, 1, Some("DeviceGray"), &["FlateDecode"], vec![1, 2, 3, 4]);
    assert!(matches!(decode_image_stream(&i), Err(ImageError::DecompressFailed)));
}

#[test]
fn flate_image_colour_space_errors() {
    let missing = info(1, 1, None, &["FlateDecode"], zlib(&[0]));
    assert!(matches!(decode_image_stream(&missing), Err(ImageError::MissingColorSpace)));
    let indexed = info(1, 1, Some("Indexed"), &[], vec![0]);
    assert!(matches!(decode_image_stream(&indexed), Err(ImageError::UnsupportedColorSpace)));
}

#[test]
fn short_image_data_fails() {
    let i = info(4, 4, Some("DeviceRGB"), &["FlateDecode"], zlib(&[0u8; 10]));
    assert!(matches!(decode_image_stream(&i), Err(ImageError::DataTooShort)));
}

#[test]
fn other_filters_are_refused() {
    let i = info(1, 1, Some("DeviceGray"), &["LZWDecode"], vec![0]);
    assert!(matches!(decode_image_stream(&i), Err(ImageError::UnsupportedFilter)));
    let jpx = info(1, 1, Some("DeviceGray"), &["JPXDecode"], vec![0]);
    assert!(matches!(decode_image_stream(&jpx), Err(ImageError::UnsupportedFilter)));
}

#[test]
fn header_errors_come_first() {
    let mut i = info(1, 1, Some("DeviceGray"), &["LZWDecode"], vec![0]);
    i.width = None;
    assert!(matches!(decode_image_stream(&i), Err(ImageError::MissingWidth)));
}

#[test]
fn jpeg_image_is_decoded() {
    let i = info(8, 8, Some("DeviceGray"), &["DCTDecode"], gray_jpeg_8x8());
    let img = decode_image_stream(&i).unwrap();
    assert_eq!((img.width, img.height), (8, 8));
    assert_eq!(img.color, ImageColor::Gray);
    assert_eq!(img.pixels, vec![128u8; 64]);
}

#[test]
fn jpeg_size_comes_from_the_frame() {
    // The dictionary's size is only checked to be present.
    let i = info(100, 1, None, &["DCTDecode"], gray_jpeg_8x8());
    let img = decode_image_stream(&i).unwrap();
    assert_eq!((img.width, img.height), (8, 8));
}

#[test]
fn jpeg_colour_space_must_agree() {
    let i = info(8, 8, Some("DeviceRGB"), &["DCTDecode"], gray_jpeg_8x8());
    assert!(matches!(decode_image_stream(&i), Err(ImageError::UnsupportedColorSpace)));
}

#[test]
fn corrupt_jpeg_fails() {
    let i = info(8, 8, Some("DeviceGray"), &["DCTDecode"], vec![0, 1, 2, 3]);
    assert!(matches!(decode_image_stream(&i), Err(ImageError::JpegDecodeFailed)));
}

#[test]
fn oversized_image_is_not_decoded() {
    let i = info(i64::MAX, 4, Some("DeviceRGB"), &[], vec![0]);
    assert!(try_decode_image(&i).is_none());
    let ok = info(1, 1, Some("DeviceGray"), &[], vec![7]);
    assert!(matches!(try_decode_image(&ok), Some(Ok(_))));
}

#[test]
fn pixel_bounds_are_cut_to_the_image() {
    assert_eq!(pixel_bounds(-3, 5, 2, 20, 10, 10), Some((0, 2, 5, 10)));
    assert_eq!(pixel_bounds(1, 2, 3, 4, 10, 10), Some((1, 3, 2, 4)));
    assert_eq!(pixel_bounds(0, 10, 0, 10, 10, 10), Some((0, 0, 10, 10)));
}

#[test]
fn pixel_bounds_outside_or_empty() {
    assert_eq!(pixel_bounds(-5, 0, 0, 5, 10, 10), None);
    assert_eq!(pixel_bounds(10, 12, 0, 5, 10, 10), None);
    assert_eq!(pixel_bounds(0, 5, -2, 0, 10, 10), None);
    assert_eq!(pixel_bounds(0, 5, 10, 11, 10, 10), None);
    assert_eq!(pixel_bounds(4, 4, 0, 5, 10, 10), None);
    assert_eq!(pixel_bounds(6, 3, 0, 5, 10, 10), None);
    assert_eq!(pixel_bounds(0, 1, 0, 1, 0, 0), None);
}

#[test]
fn fill_pixel_paints_one_pixel() {
    let mut px = vec![9u8; 12];
    fill_pixel(&mut px, 2, ImageColor::Rgb, 1, 1, &[1, 2, 3]);
    assert_eq!(px, vec![9, 9, 9, 9, 9, 9, 9, 9, 9, 1, 2, 3]);
    let mut gray = vec![5u8; 4];
    fill_pixel(&mut gray, 2, ImageColor::Gray, 0, 1, &[0, 77]);
    assert_eq!(gray, vec![5, 5, 0, 5]);
    let mut cmyk = vec![0u8; 8];
    fill_pixel(&mut cmyk, 2, ImageColor::Cmyk, 0, 0, &[0, 0, 0, 255]);
    assert_eq!(cmyk, vec![0, 0, 0, 255, 0, 0, 0, 0]);
}

#[test]
fn white_masks_are_painted_before_black_ones() {
    let colors = [
        MaskColor::Black,
        MaskColor::White,
        MaskColor::Black,
        MaskColor::White,
    ];
    assert_eq!(paint_order(&colors), vec![1, 3, 0, 2]);
    assert_eq!(paint_order(&[]), Vec::<usize>::new());
    assert_eq!(paint_order(&[MaskColor::White, MaskColor::White]), vec![0, 1]);
}

#[test]
fn black_paints_over_white_on_overlap() {
    let colors = [MaskColor::Black, MaskColor::White];
    let fills = [[0u8], [255u8]];
    let mut pixels = vec![100u8];
    for i in paint_order(&colors) {
        fill_pixel(&mut pixels, 1, ImageColor::Gray, 0, 0, &fills[i]);
    }
    assert_eq!(pixels, vec![0]);
}

#[test]
fn decoded_images_hold_exactly_their_pixels() {
    let cases = vec![
        info(8, 8, Some("DeviceGray"), &["DCTDecode"], gray_jpeg_8x8()),
        info(2, 2, Some("DeviceRGB"), &["FlateDecode"], zlib(&[1u8; 20])),
        info(1, 2, Some("DeviceCMYK"), &[], vec![3u8; 9]),
    ];
    for i in cases {
        let img = decode_image_stream(&i).unwrap();
        assert_eq!(img.pixels.len(), img.width * img.height * img.color.channels());
    }
}

#[test]
fn negative_sizes_are_refused() {
    let i = info(-1, 2, Some("DeviceGray"), &[], vec![0u8; 4]);
    assert_eq!(image_header(&i), Err(ImageError::NegativeSize));
    assert!(matches!(decode_image_stream(&i), Err(ImageError::NegativeSize)));
    assert!(matches!(try_decode_image(&i), Some(Err(ImageError::NegativeSize))));
    let h = info(2, -3, Some("DeviceGray"), &["DCTDecode"], gray_jpeg_8x8());
    assert!(matches!(decode_image_stream(&h), Err(ImageError::NegativeSize)));
    let zero = info(0, 0, Some("DeviceGray"), &[], vec![]);
    let img = decode_image_stream(&zero).unwrap();
    assert!(img.pixels.is_empty());
}
