use placard::canvas::{Canvas, Color};
use placard::format::{format_for_extension, format_for_path, ImageFormat};
use placard::png;
use placard::webp;

#[test]
fn encodes_a_solid_color_canvas() {
    let mut canvas = Canvas::new(4, 4);
    canvas.fill(Color::rgba(10, 20, 30, 255));
    let bytes = webp::encode(&canvas).expect("should encode");
    assert_eq!(&bytes[0..4], b"RIFF");
    assert_eq!(&bytes[8..12], b"WEBP");
    assert_eq!(&bytes[12..16], b"VP8L");
}

#[test]
fn riff_size_field_matches_actual_payload() {
    let mut canvas = Canvas::new(10, 3);
    canvas.fill(Color::rgba(1, 2, 3, 255));
    let bytes = webp::encode(&canvas).expect("should encode");
    let riff_size = u32::from_le_bytes(bytes[4..8].try_into().unwrap()) as usize;
    assert_eq!(riff_size, bytes.len() - 8);
}

#[test]
fn rejects_oversized_dimensions() {
    let canvas = Canvas::new(20000, 1);
    assert!(webp::encode(&canvas).is_err());
}

#[test]
fn rejects_zero_sized_canvas() {
    let canvas = Canvas::new(0, 5);
    assert!(webp::encode(&canvas).is_err());
}

#[test]
fn encodes_a_multi_color_checkerboard() {
    let mut canvas = Canvas::new(9, 5);
    for y in 0..5 {
        for x in 0..9 {
            let on = (x + y) % 2 == 0;
            let c = if on {
                Color::rgba(200, 30, 90, 255)
            } else {
                Color::rgba(10, 220, 40, 128)
            };
            canvas.set_pixel(x, y, c);
        }
    }
    let bytes = webp::encode(&canvas).expect("should encode");
    assert_eq!(&bytes[0..4], b"RIFF");
}

#[test]
fn webp_error_messages_name_the_problem() {
    assert_eq!(
        webp::encode(&Canvas::new(0, 5)).unwrap_err(),
        "cannot encode a zero-sized canvas as WebP"
    );
    assert_eq!(
        webp::encode(&Canvas::new(20000, 1)).unwrap_err(),
        "canvas 20000x1 exceeds VP8L's maximum dimension of 16384px per side"
    );
}

#[test]
fn webp_header_carries_the_dimensions_and_alpha_hint() {
    let mut canvas = Canvas::new(3, 2);
    canvas.fill(Color::rgba(5, 6, 7, 255));
    let bytes = webp::encode(&canvas).unwrap();
    let data_len = u32::from_le_bytes(bytes[16..20].try_into().unwrap()) as usize;
    assert_eq!(bytes.len(), 20 + data_len + (data_len & 1));
    assert_eq!(bytes[20], 0x2F);
    let bits = u32::from_le_bytes(bytes[21..25].try_into().unwrap());
    assert_eq!(bits & 0x3FFF, 2);
    assert_eq!((bits >> 14) & 0x3FFF, 1);
    assert_eq!((bits >> 28) & 1, 0);
    canvas.set_pixel(0, 0, Color::rgba(5, 6, 7, 10));
    let bytes = webp::encode(&canvas).unwrap();
    let bits = u32::from_le_bytes(bytes[21..25].try_into().unwrap());
    assert_eq!((bits >> 28) & 1, 1);
}

#[test]
fn png_starts_with_signature_and_header() {
    let canvas = Canvas::new(2, 3);
    let bytes = png::encode(&canvas);
    assert_eq!(&bytes[0..8], &[0x89, b'P', b'N', b'G', 0x0D, 0x0A, 0x1A, 0x0A]);
    assert_eq!(&bytes[8..16], &[0, 0, 0, 13, b'I', b'H', b'D', b'R']);
    assert_eq!(&bytes[16..24], &[0, 0, 0, 2, 0, 0, 0, 3]);
    assert_eq!(&bytes[bytes.len() - 12..bytes.len() - 8], &[0, 0, 0, 0]);
    assert_eq!(&bytes[bytes.len() - 8..bytes.len() - 4], b"IEND");
}

#[test]
fn png_streaming_and_buffered_encodings_agree() {
    let mut canvas = Canvas::new(7, 5);
    canvas.fill(Color::rgba(1, 2, 3, 4));
    canvas.set_pixel(3, 2, Color::rgb(200, 100, 50));
    let mut streamed = Vec::new();
    png::encode_to_writer(&canvas, &mut streamed);
    assert_eq!(streamed, png::encode(&canvas));
}

#[test]
fn canvas_pixels_round_trip() {
    let mut canvas = Canvas::new(3, 3);
    canvas.set_pixel(1, 2, Color::rgba(9, 8, 7, 6));
    assert_eq!(canvas.get_pixel(1, 2), Color::rgba(9, 8, 7, 6));
    assert_eq!(canvas.get_pixel(0, 0), Color::rgba(0, 0, 0, 0));
    canvas.set_pixel(5, 5, Color::rgb(1, 1, 1));
    assert_eq!(canvas.pixels().len(), 36);
    assert_eq!(&canvas.pixels()[4 * 7..4 * 8], &[9, 8, 7, 6]);
}

#[test]
fn recognizes_extensions_case_insensitively() {
    assert_eq!(ImageFormat::from_extension("png"), Some(ImageFormat::Png));
    assert_eq!(ImageFormat::from_extension("PNG"), Some(ImageFormat::Png));
    assert_eq!(ImageFormat::from_extension("webp"), Some(ImageFormat::Webp));
    assert_eq!(ImageFormat::from_extension("WebP"), Some(ImageFormat::Webp));
    assert_eq!(ImageFormat::from_extension("jpg"), None);
}

#[test]
fn formats_name_their_extension_and_content_type() {
    assert_eq!(ImageFormat::Png.extension(), "png");
    assert_eq!(ImageFormat::Webp.extension(), "webp");
    assert_eq!(ImageFormat::Png.content_type(), "image/png");
    assert_eq!(ImageFormat::Webp.content_type(), "image/webp");
    assert_eq!(ImageFormat::DEFAULT, ImageFormat::Webp);
    let canvas = Canvas::new(1, 1);
    assert_eq!(ImageFormat::Png.encode(&canvas).unwrap(), png::encode(&canvas));
    assert_eq!(ImageFormat::Webp.encode(&canvas).unwrap(), webp::encode(&canvas).unwrap());
}

/// The whole PNG built the plain way: every filtered scanline in one
/// buffer, zlib-framed as stored blocks into a second one, then chunked.
fn reference_encode(canvas: &Canvas) -> Vec<u8> {
    fn reference_zlib_stored(data: &[u8]) -> Vec<u8> {
        let mut out = vec![0x78, 0x01];
        if data.is_empty() {
            out.push(0x01);
            out.extend_from_slice(&0u16.to_le_bytes());
            out.extend_from_slice(&0xFFFFu16.to_le_bytes());
        } else {
            let mut offset = 0;
            while offset < data.len() {
                let end = (offset + png::MAX_STORED_BLOCK).min(data.len());
                let chunk = &data[offset..end];
                out.push(if end == data.len() { 0x01 } else { 0x00 });
                let len = chunk.len() as u16;
                out.extend_from_slice(&len.to_le_bytes());
                out.extend_from_slice(&(!len).to_le_bytes());
                out.extend_from_slice(chunk);
                offset = end;
            }
        }
        let mut a = 1u32;
        let mut b = 0u32;
        placard::adler32::adler32_update(&mut a, &mut b, data);
        out.extend_from_slice(&((b << 16) | a).to_be_bytes());
        out
    }

    fn reference_write_chunk(out: &mut Vec<u8>, chunk_type: &[u8; 4], data: &[u8]) {
        out.extend_from_slice(&(data.len() as u32).to_be_bytes());
        let start = out.len();
        out.extend_from_slice(chunk_type);
        out.extend_from_slice(data);
        let mut crc = 0xFFFFFFFFu32;
        placard::crc32::crc32_update(&mut crc, &out[start..]);
        out.extend_from_slice(&(crc ^ 0xFFFFFFFF).to_be_bytes());
    }

    let width = canvas.width() as usize;
    let height = canvas.height() as usize;
    let stride = width * 4;
    let pixels = canvas.pixels();
    let mut raw = Vec::with_capacity(height * (stride + 1));
    for y in 0..height {
        raw.push(0);
        raw.extend_from_slice(&pixels[y * stride..(y + 1) * stride]);
    }
    let mut ihdr = Vec::new();
    ihdr.extend_from_slice(&canvas.width().to_be_bytes());
    ihdr.extend_from_slice(&canvas.height().to_be_bytes());
    ihdr.extend_from_slice(&[8, 6, 0, 0, 0]);

    let mut out = vec![0x89, b'P', b'N', b'G', 0x0D, 0x0A, 0x1A, 0x0A];
    reference_write_chunk(&mut out, b"IHDR", &ihdr);
    reference_write_chunk(&mut out, b"IDAT", &reference_zlib_stored(&raw));
    reference_write_chunk(&mut out, b"IEND", &[]);
    out
}

/// Alternating opaque and half-transparent cells. Each is painted onto a
/// fresh, fully transparent canvas, where compositing leaves the color as
/// it is, so each cell is set directly.
fn checkerboard_canvas(width: u32, height: u32) -> Canvas {
    let mut canvas = Canvas::new(width, height);
    for y in 0..height {
        for x in 0..width {
            let c = if (x + y) % 2 == 0 {
                Color::rgba(200, 30, 90, 255)
            } else {
                Color::rgba(10, 220, 40, 128)
            };
            canvas.set_pixel(x, y, c);
        }
    }
    canvas
}

#[test]
fn streaming_encoder_matches_reference_for_small_canvas() {
    let canvas = checkerboard_canvas(5, 7);
    assert_eq!(png::encode(&canvas), reference_encode(&canvas));
}

#[test]
fn streaming_encoder_matches_reference_for_1x1_canvas() {
    let canvas = checkerboard_canvas(1, 1);
    assert_eq!(png::encode(&canvas), reference_encode(&canvas));
}

#[test]
fn streaming_encoder_matches_reference_across_stored_block_boundary() {
    // 4004 bytes a row: 17 rows with their filter bytes cross the
    // 65535-byte stored-block boundary.
    let canvas = checkerboard_canvas(1001, 17);
    assert_eq!(png::encode(&canvas), reference_encode(&canvas));
}

#[test]
fn streaming_encoder_matches_reference_for_wide_thin_canvas() {
    let canvas = checkerboard_canvas(3000, 1);
    assert_eq!(png::encode(&canvas), reference_encode(&canvas));
}

#[test]
fn format_for_path_defaults_to_webp_when_unrecognized() {
    assert_eq!(format_for_path("out.png"), ImageFormat::Png);
    assert_eq!(format_for_path("out.webp"), ImageFormat::Webp);
    assert_eq!(format_for_path("out"), ImageFormat::Webp);
    assert_eq!(format_for_path("out.dat"), ImageFormat::Webp);
}

#[test]
fn format_follows_the_file_name_not_the_directories() {
    assert_eq!(format_for_path("renders.png/badge"), ImageFormat::Webp);
    assert_eq!(format_for_path("dir/badge.PNG"), ImageFormat::Png);
    assert_eq!(format_for_path(".png"), ImageFormat::Webp);
    assert_eq!(format_for_extension(Some("Png")), ImageFormat::Png);
    assert_eq!(format_for_extension(Some("gif")), ImageFormat::Webp);
    assert_eq!(format_for_extension(None), ImageFormat::Webp);
}

fn patterned(width: u32, height: u32, seed: u32) -> Canvas {
    let mut canvas = Canvas::new(width, height);
    for y in 0..height {
        for x in 0..width {
            let v = (x * 7 + y * 13 + seed) % 5;
            canvas.set_pixel(x, y, Color::rgba((v * 50) as u8, (255 - v * 40) as u8, 9, 255));
        }
    }
    canvas
}

#[test]
fn webp_encodings_of_different_images_differ() {
    let a = patterned(9, 7, 0);
    let mut b = patterned(9, 7, 0);
    b.set_pixel(8, 6, Color::rgba(1, 2, 3, 4));
    let ea = webp::encode(&a).unwrap();
    assert_eq!(ea, webp::encode(&patterned(9, 7, 0)).unwrap());
    assert_ne!(ea, webp::encode(&b).unwrap());
    assert_ne!(ea, webp::encode(&patterned(9, 7, 1)).unwrap());
    assert_ne!(
        webp::encode(&patterned(6, 4, 3)).unwrap(),
        webp::encode(&patterned(4, 6, 3)).unwrap()
    );
}

#[test]
fn webp_encoding_is_deterministic() {
    let a = patterned(13, 5, 2);
    assert_eq!(webp::encode(&a).unwrap(), webp::encode(&patterned(13, 5, 2)).unwrap());
}
