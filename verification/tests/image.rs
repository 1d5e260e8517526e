//! The PNG encoder.
use chibipop::image::{encode_bgra_to_png, rgb_of, ImageError, PngStep};

/// Decode with the same crate's reader: RGB8 rows, no interlace.
fn decode(bytes: &[u8]) -> (u32, u32, Vec<u8>) {
    let mut reader = png::Decoder::new(std::io::Cursor::new(bytes)).read_info().unwrap();
    let mut buf = vec![0u8; reader.output_buffer_size().unwrap()];
    let info = reader.next_frame(&mut buf).unwrap();
    assert_eq!(png::ColorType::Rgb, info.color_type);
    assert_eq!(png::BitDepth::Eight, info.bit_depth);
    buf.truncate(info.buffer_size());
    (info.width, info.height, buf)
}

#[test]
fn a_single_red_pixel_survives_the_bgra_to_rgb_swap() {
    // BGRA: blue 0, green 0, red 255, alpha junk.
    let png = encode_bgra_to_png(&[0, 0, 0xff, 0x00], 1, 1).unwrap();
    assert_eq!((1, 1, vec![0xff, 0, 0]), decode(&png));
}

#[test]
fn every_pixel_of_a_multi_row_image_survives_a_round_trip() {
    let (w, h) = (200i32, 120i32);
    let bgra: Vec<u8> = (0..(w * h * 4)).map(|i| (i % 251) as u8).collect();
    let png = encode_bgra_to_png(&bgra, w, h).unwrap();
    let (dw, dh, rgb) = decode(&png);
    assert_eq!((w as u32, h as u32), (dw, dh));
    assert_eq!((w * h * 3) as usize, rgb.len());
    for (src, dst) in bgra.chunks_exact(4).zip(rgb.chunks_exact(3)) {
        assert_eq!(&[src[2], src[1], src[0]][..], dst, "BGR -> RGB");
    }
}

#[test]
fn the_encoded_stream_is_compressed_not_stored() {
    // 320 KB of flat pixels: a stored-deflate writer emits them all,
    // any real compressor flattens them to nothing.
    let (w, h) = (400i32, 200i32);
    let png = encode_bgra_to_png(&vec![0x40u8; (w * h * 4) as usize], w, h).unwrap();
    assert!(
        png.len() < (w * h * 3) as usize / 100,
        "a uniform {w}x{h} picture encoded to {} bytes",
        png.len()
    );
}

#[test]
fn a_buffer_too_short_for_the_dimensions_is_refused() {
    let e = encode_bgra_to_png(&[0, 0, 0, 0], 4, 4).unwrap_err();
    assert!(e.message().contains("needs 64 bytes"), "{}", e.message());
}

#[test]
fn a_buffer_longer_than_the_dimensions_encodes_only_the_picture() {
    let bgra = vec![0u8; 4 * 4 * 4 + 999];
    let png = encode_bgra_to_png(&bgra, 4, 4).unwrap();
    assert_eq!((4, 4, vec![0u8; 4 * 4 * 3]), decode(&png));
}

#[test]
fn an_empty_or_negative_region_is_refused() {
    assert!(encode_bgra_to_png(&[], 0, 4).is_err());
    assert!(encode_bgra_to_png(&[], 4, 0).is_err());
    assert!(encode_bgra_to_png(&[], -4, 4).is_err());
}

#[test]
fn red_and_blue_change_places_and_alpha_goes() {
    let bgra = [1, 2, 3, 255, 4, 5, 6, 0, 9, 9];
    assert_eq!(rgb_of(&bgra, 2, 1).unwrap(), vec![3, 2, 1, 6, 5, 4]);
}

#[test]
fn every_refusal_says_what_is_wrong() {
    assert_eq!(
        rgb_of(&[], -4, 0).unwrap_err().message(),
        "a PNG needs positive dimensions, not -4x0"
    );
    assert_eq!(
        rgb_of(&[0; 7], 1, 2).unwrap_err().message(),
        "1x2 needs 8 bytes of BGRA, got 7"
    );
    assert!(rgb_of(&[0; 7], i32::MAX, i32::MAX).is_err());
}

#[test]
fn an_encoder_that_refuses_is_told_by_its_step() {
    for (step, want) in [
        (PngStep::Header, "writing the PNG header"),
        (PngStep::Data, "compressing the PNG"),
        (PngStep::Close, "closing the PNG"),
    ] {
        let cause = png::EncodingError::from(std::io::Error::other("full"));
        assert_eq!(want, ImageError::Encoding { step, cause }.message());
    }
}
