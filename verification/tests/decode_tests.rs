use pngdec::checksum::{adler32, crc32, crc32_pair};
use pngdec::decode;
use pngdec::error::{ErrorKind, PngError};
use pngdec::filter::unfilter;
use pngdec::header::{interpret_header, ImageHeader};
use pngdec::inflate::inflate;
use pngdec::palette::build_palette;
use pngdec::pixels::{DecodedImage, Pixel};

fn be32(v: u32) -> Vec<u8> {
    vec![(v >> 24) as u8, (v >> 16) as u8, (v >> 8) as u8, v as u8]
}

fn chunk(ctype: &[u8], data: &[u8]) -> Vec<u8> {
    let mut out = Vec::new();
    out.extend_from_slice(&be32(data.len() as u32));
    out.extend_from_slice(ctype);
    out.extend_from_slice(data);
    let crc = crc32_pair(ctype, data);
    out.extend_from_slice(&be32(crc));
    out
}

fn png_stream(chunks: &[Vec<u8>]) -> Vec<u8> {
    let mut out = vec![137u8, 80, 78, 71, 13, 10, 26, 10];
    for c in chunks {
        out.extend_from_slice(c);
    }
    out.extend_from_slice(&chunk(b"IEND", &[]));
    out
}

fn ihdr(w: u32, h: u32, depth: u8, color_type: u8, interlace: u8) -> Vec<u8> {
    let mut d = Vec::new();
    d.extend_from_slice(&be32(w));
    d.extend_from_slice(&be32(h));
    d.push(depth);
    d.push(color_type);
    d.push(0);
    d.push(0);
    d.push(interlace);
    d
}

/// DEFLATE body (no zlib header) of one stored block plus the Adler trailer.
fn deflate_stored(payload: &[u8]) -> Vec<u8> {
    let mut out = Vec::new();
    out.push(0x01); // BFINAL=1, BTYPE=00
    let len = payload.len() as u16;
    out.push(len as u8);
    out.push((len >> 8) as u8);
    let nlen = !len;
    out.push(nlen as u8);
    out.push((nlen >> 8) as u8);
    out.extend_from_slice(payload);
    out.extend_from_slice(&be32(adler32(payload)));
    out
}

fn zlib_stored(payload: &[u8]) -> Vec<u8> {
    let mut out = vec![0x78u8, 0x01];
    out.extend_from_slice(&deflate_stored(payload));
    out
}

fn png_with_idat(header: Vec<u8>, extra: &[Vec<u8>], payload: &[u8]) -> Vec<u8> {
    let mut chunks = vec![chunk(b"IHDR", &header)];
    for e in extra {
        chunks.push(e.clone());
    }
    chunks.push(chunk(b"IDAT", &zlib_stored(payload)));
    png_stream(&chunks)
}

fn push_bits_lsb(out: &mut Vec<u8>, nbits: &mut usize, v: u32, n: u32) {
    let mut k = 0u32;
    while k < n {
        if *nbits % 8 == 0 {
            out.push(0);
        }
        let bit = (v >> k) & 1;
        let idx = *nbits / 8;
        out[idx] |= (bit as u8) << (*nbits % 8);
        *nbits += 1;
        k += 1;
    }
}

/// Huffman codes go out most significant bit first.
fn push_code_msb(out: &mut Vec<u8>, nbits: &mut usize, code: u32, n: u32) {
    let mut k = n;
    while k > 0 {
        k -= 1;
        push_bits_lsb(out, nbits, (code >> k) & 1, 1);
    }
}

/// DEFLATE body of one fixed-Huffman block encoding literal bytes < 144.
fn deflate_fixed(payload: &[u8]) -> Vec<u8> {
    let mut out = Vec::new();
    let mut nbits = 0usize;
    push_bits_lsb(&mut out, &mut nbits, 1, 1); // BFINAL
    push_bits_lsb(&mut out, &mut nbits, 1, 2); // BTYPE=01
    for &b in payload {
        assert!(b < 144);
        push_code_msb(&mut out, &mut nbits, 0x30 + b as u32, 8);
    }
    push_code_msb(&mut out, &mut nbits, 0, 7); // end of block (symbol 256)
    out.extend_from_slice(&be32(adler32(payload)));
    out
}

/// DEFLATE body of one dynamic-Huffman block encoding a payload made of the
/// bytes 0 and 65 only: literal/length code lengths are 65 -> 1 bit,
/// 0 and 256 -> 2 bits.
fn deflate_dynamic(payload: &[u8]) -> Vec<u8> {
    let mut out = Vec::new();
    let mut nbits = 0usize;
    push_bits_lsb(&mut out, &mut nbits, 1, 1); // BFINAL
    push_bits_lsb(&mut out, &mut nbits, 2, 2); // BTYPE=10
    push_bits_lsb(&mut out, &mut nbits, 0, 5); // HLIT  = 257
    push_bits_lsb(&mut out, &mut nbits, 0, 5); // HDIST = 1
    push_bits_lsb(&mut out, &mut nbits, 14, 4); // HCLEN = 18
    // Code-length-code lengths in the fixed permuted order
    // [16,17,18,0,8,7,9,6,10,5,11,4,12,3,13,2,14,1,15]: the code-length
    // symbols 0, 1 and 2 get lengths 1, 2 and 2.
    let clens = [0u32, 0, 0, 1, 0, 0, 0, 0, 0, 0, 0, 0, 0, 0, 0, 2, 0, 2];
    for &c in clens.iter() {
        push_bits_lsb(&mut out, &mut nbits, c, 3);
    }
    // Canonical code-length codes: 0 -> "0", 1 -> "10", 2 -> "11".
    // 257 literal/length lengths: symbol 0 gets 2, symbol 65 gets 1,
    // symbol 256 gets 2; then one zero distance length.
    for sym in 0..257u32 {
        if sym == 0 || sym == 256 {
            push_code_msb(&mut out, &mut nbits, 3, 2); // "11" = code-length 2
        } else if sym == 65 {
            push_code_msb(&mut out, &mut nbits, 2, 2); // "10" = code-length 1
        } else {
            push_code_msb(&mut out, &mut nbits, 0, 1); // "0" = code-length 0
        }
    }
    push_code_msb(&mut out, &mut nbits, 0, 1); // one zero distance length
    // Literal codes: 65 -> "0"; 0 -> "10"; 256 -> "11".
    for &b in payload {
        if b == 65 {
            push_code_msb(&mut out, &mut nbits, 0, 1);
        } else {
            assert!(b == 0);
            push_code_msb(&mut out, &mut nbits, 2, 2);
        }
    }
    push_code_msb(&mut out, &mut nbits, 3, 2); // end of block
    out.extend_from_slice(&be32(adler32(payload)));
    out
}

fn grid(img: &DecodedImage) -> Vec<Vec<Pixel>> {
    img.pixels.clone()
}

// Scenario: a 1x1 RGBA image with bit depth 8, filter None and the pixel
// (255, 0, 0, 128) decodes to exactly that tuple.
#[test]
fn rgba_single_pixel() {
    let bytes = png_with_idat(ihdr(1, 1, 8, 6, 0), &[], &[0, 255, 0, 0, 128]);
    let img = decode(&bytes).unwrap();
    assert_eq!(img.width, 1);
    assert_eq!(img.height, 1);
    assert_eq!(grid(&img), vec![vec![Pixel::Rgba(255, 0, 0, 128)]]);
}

// Scenario: a 2x2 indexed image, bit depth 2, with a 4-entry palette and
// packed two-bit indices decodes to the palette colors in row-major order.
#[test]
fn indexed_two_by_two() {
    let plte = chunk(b"PLTE", &[0, 0, 0, 255, 0, 0, 0, 255, 0, 0, 0, 255]);
    // Row 0 holds indices 0,1; row 1 holds indices 2,3; bits MSB-first.
    let bytes = png_with_idat(ihdr(2, 2, 2, 3, 0), &[plte], &[0, 0b0001_0000, 0, 0b1011_0000]);
    let img = decode(&bytes).unwrap();
    assert_eq!(
        grid(&img),
        vec![
            vec![Pixel::Rgb(0, 0, 0), Pixel::Rgb(255, 0, 0)],
            vec![Pixel::Rgb(0, 255, 0), Pixel::Rgb(0, 0, 255)],
        ]
    );
}

// A single corrupted byte in any chunk's CRC field fails with BadCrc and no
// decoded image.
#[test]
fn corrupted_crc_anywhere() {
    let bytes = png_with_idat(ihdr(1, 1, 8, 6, 0), &[], &[0, 255, 0, 0, 128]);
    assert!(decode(&bytes).is_ok());
    // CRC of IHDR: bytes 8..12 are the length, 12..16 the type, 16..29 the
    // data, 29..33 the CRC. The IDAT and IEND CRCs are the last 4 bytes
    // before each following chunk; corrupt every byte of each CRC field.
    let ihdr_crc = 8 + 4 + 4 + 13;
    for p in ihdr_crc..ihdr_crc + 4 {
        let mut bad = bytes.clone();
        bad[p] ^= 0x5A;
        assert_eq!(decode(&bad), Err(PngError::BadCrc));
    }
    let iend_crc = bytes.len() - 4;
    for p in iend_crc..iend_crc + 4 {
        let mut bad = bytes.clone();
        bad[p] ^= 0x01;
        assert_eq!(decode(&bad), Err(PngError::BadCrc));
    }
}

// A stream with interlace_method = 1 fails as an unsupported feature before
// any pixel processing: the image data here is garbage that would fail
// inflation, yet the header error is what surfaces.
#[test]
fn interlaced_rejected_before_pixels() {
    let mut chunks = vec![chunk(b"IHDR", &ihdr(1, 1, 8, 6, 1))];
    chunks.push(chunk(b"IDAT", &[0xFF, 0xFF, 0xFF]));
    let bytes = png_stream(&chunks);
    let err = decode(&bytes).unwrap_err();
    assert_eq!(err, PngError::UnsupportedFeature);
    assert_eq!(err.kind(), ErrorKind::UnsupportedFeatureError);
}

// Stored, fixed-Huffman and dynamic-Huffman encodings of the same bytes
// inflate to identical output.
#[test]
fn three_block_types_agree() {
    let payload = [0u8, 65, 65, 65];
    let a = inflate(&deflate_stored(&payload)).unwrap();
    let b = inflate(&deflate_fixed(&payload)).unwrap();
    let c = inflate(&deflate_dynamic(&payload)).unwrap();
    assert_eq!(a, payload.to_vec());
    assert_eq!(a, b);
    assert_eq!(a, c);
}

// The same bytes carried by the three block types decode to the same image.
#[test]
fn three_block_types_same_image() {
    let payload = [0u8, 65, 65, 65]; // filter None + three gray pixels
    let header = ihdr(3, 1, 8, 0, 0);
    let mut imgs = Vec::new();
    for body in [
        deflate_stored(&payload),
        deflate_fixed(&payload),
        deflate_dynamic(&payload),
    ] {
        let mut z = vec![0x78u8, 0x01];
        z.extend_from_slice(&body);
        let chunks = vec![chunk(b"IHDR", &header), chunk(b"IDAT", &z)];
        imgs.push(decode(&png_stream(&chunks)).unwrap());
    }
    let expected = vec![vec![Pixel::Gray(65), Pixel::Gray(65), Pixel::Gray(65)]];
    for img in imgs {
        assert_eq!(grid(&img), expected);
    }
}

// An indexed image referencing a palette index at or past the palette
// length fails with PaletteIndexOutOfRange.
#[test]
fn palette_index_out_of_range() {
    let plte = chunk(b"PLTE", &[1, 2, 3]); // one entry
    let bytes = png_with_idat(ihdr(1, 1, 8, 3, 0), &[plte], &[0, 1]);
    assert_eq!(decode(&bytes), Err(PngError::PaletteIndexOutOfRange));
}

// Round trip: filtering a scanline and unfiltering it returns the original,
// for each of the five filter types.
#[test]
fn filter_round_trip_all_types() {
    // A 2x2 RGB image with bit depth 8: stride 6, bpp 3. Row 0 is stored
    // with filter None so that row 1's previous row is known.
    let row0 = [5u8, 9, 0, 77, 128, 200];
    let row1 = [1u8, 2, 250, 3, 255, 10];
    let bpp = 3usize;
    let header = interpret_header(&ihdr(2, 2, 8, 2, 0)).unwrap();
    for ft in 0u8..5 {
        // Filter row1 against row0 exactly as an encoder would.
        let mut filtered = Vec::new();
        for x in 0..row1.len() {
            let left = if x >= bpp { row1[x - bpp] as i32 } else { 0 };
            let up = row0[x] as i32;
            let ul = if x >= bpp { row0[x - bpp] as i32 } else { 0 };
            let pred = match ft {
                0 => 0,
                1 => left,
                2 => up,
                3 => (left + up) / 2,
                _ => {
                    let p = left + up - ul;
                    let pa = (p - left).abs();
                    let pb = (p - up).abs();
                    let pc = (p - ul).abs();
                    if pa <= pb && pa <= pc {
                        left
                    } else if pb <= pc {
                        up
                    } else {
                        ul
                    }
                }
            };
            filtered.push((row1[x] as i32 - pred).rem_euclid(256) as u8);
        }
        let mut data = vec![0u8];
        data.extend_from_slice(&row0);
        data.push(ft);
        data.extend_from_slice(&filtered);
        let rows = unfilter(&data, &header).unwrap();
        assert_eq!(rows[0], row0.to_vec());
        assert_eq!(rows[1], row1.to_vec(), "filter type {}", ft);
    }
}

// Encode-then-decode returns the original pixels for every valid
// (color_type, bit_depth) combination; each stream is built with stored
// blocks and filter None.
#[test]
fn all_color_depth_combinations() {
    // Gray, depth 1: 2x2, pixels 1,0 / 0,1.
    let img = decode(&png_with_idat(ihdr(2, 2, 1, 0, 0), &[], &[0, 0x80, 0, 0x40])).unwrap();
    assert_eq!(
        grid(&img),
        vec![
            vec![Pixel::Gray(1), Pixel::Gray(0)],
            vec![Pixel::Gray(0), Pixel::Gray(1)],
        ]
    );
    // Gray, depth 2: samples 3, 1.
    let img = decode(&png_with_idat(ihdr(2, 1, 2, 0, 0), &[], &[0, 0b1101_0000])).unwrap();
    assert_eq!(grid(&img), vec![vec![Pixel::Gray(3), Pixel::Gray(1)]]);
    // Gray, depth 4: samples 10, 5.
    let img = decode(&png_with_idat(ihdr(2, 1, 4, 0, 0), &[], &[0, 0xA5])).unwrap();
    assert_eq!(grid(&img), vec![vec![Pixel::Gray(10), Pixel::Gray(5)]]);
    // Gray, depth 8.
    let img = decode(&png_with_idat(ihdr(2, 1, 8, 0, 0), &[], &[0, 7, 200])).unwrap();
    assert_eq!(grid(&img), vec![vec![Pixel::Gray(7), Pixel::Gray(200)]]);
    // Gray, depth 16: big-endian sample.
    let img = decode(&png_with_idat(ihdr(1, 1, 16, 0, 0), &[], &[0, 0x12, 0x34])).unwrap();
    assert_eq!(grid(&img), vec![vec![Pixel::Gray(0x1234)]]);
    // RGB, depth 8.
    let img = decode(&png_with_idat(ihdr(1, 1, 8, 2, 0), &[], &[0, 10, 20, 30])).unwrap();
    assert_eq!(grid(&img), vec![vec![Pixel::Rgb(10, 20, 30)]]);
    // RGB, depth 16.
    let img = decode(&png_with_idat(ihdr(1, 1, 16, 2, 0), &[], &[0, 1, 2, 3, 4, 5, 6])).unwrap();
    assert_eq!(grid(&img), vec![vec![Pixel::Rgb(0x0102, 0x0304, 0x0506)]]);
    // Indexed, depths 1, 2, 4 and 8.
    let pal2 = chunk(b"PLTE", &[9, 8, 7, 1, 2, 3]);
    let img = decode(&png_with_idat(ihdr(2, 1, 1, 3, 0), &[pal2.clone()], &[0, 0x80])).unwrap();
    assert_eq!(grid(&img), vec![vec![Pixel::Rgb(1, 2, 3), Pixel::Rgb(9, 8, 7)]]);
    let img = decode(&png_with_idat(ihdr(1, 1, 2, 3, 0), &[pal2.clone()], &[0, 0b0100_0000]))
        .unwrap();
    assert_eq!(grid(&img), vec![vec![Pixel::Rgb(1, 2, 3)]]);
    let img = decode(&png_with_idat(ihdr(1, 1, 4, 3, 0), &[pal2.clone()], &[0, 0x10])).unwrap();
    assert_eq!(grid(&img), vec![vec![Pixel::Rgb(1, 2, 3)]]);
    let img = decode(&png_with_idat(ihdr(1, 1, 8, 3, 0), &[pal2.clone()], &[0, 0])).unwrap();
    assert_eq!(grid(&img), vec![vec![Pixel::Rgb(9, 8, 7)]]);
    // Gray+alpha, depths 8 and 16.
    let img = decode(&png_with_idat(ihdr(1, 1, 8, 4, 0), &[], &[0, 100, 50])).unwrap();
    assert_eq!(grid(&img), vec![vec![Pixel::GrayAlpha(100, 50)]]);
    let img = decode(&png_with_idat(ihdr(1, 1, 16, 4, 0), &[], &[0, 0, 1, 0, 2])).unwrap();
    assert_eq!(grid(&img), vec![vec![Pixel::GrayAlpha(1, 2)]]);
    // RGBA, depths 8 and 16.
    let img = decode(&png_with_idat(ihdr(1, 1, 8, 6, 0), &[], &[0, 1, 2, 3, 4])).unwrap();
    assert_eq!(grid(&img), vec![vec![Pixel::Rgba(1, 2, 3, 4)]]);
    let img = decode(
        &png_with_idat(ihdr(1, 1, 16, 6, 0), &[], &[0, 0, 1, 0, 2, 0, 3, 0, 4]),
    )
    .unwrap();
    assert_eq!(grid(&img), vec![vec![Pixel::Rgba(1, 2, 3, 4)]]);
}

// A stream mixing block types: a non-final stored block, then a final
// fixed-Huffman block, inflating to the concatenation of both payloads.
#[test]
fn mixed_stored_and_fixed_blocks() {
    let mut body = Vec::new();
    body.push(0x00); // BFINAL=0, BTYPE=00
    body.push(2);
    body.push(0); // LEN = 2
    body.push(0xFD);
    body.push(0xFF); // NLEN = !2
    body.push(1);
    body.push(2);
    let mut nbits = body.len() * 8;
    push_bits_lsb(&mut body, &mut nbits, 1, 1); // BFINAL
    push_bits_lsb(&mut body, &mut nbits, 1, 2); // BTYPE=01
    push_code_msb(&mut body, &mut nbits, 0x30 + 3, 8); // literal 3
    push_code_msb(&mut body, &mut nbits, 0, 7); // end of block
    body.extend_from_slice(&be32(adler32(&[1, 2, 3])));
    assert_eq!(inflate(&body).unwrap(), vec![1u8, 2, 3]);
}

#[test]
fn multiple_idat_chunks_concatenate() {
    // The zlib stream of a 2x1 gray image split across two IDAT chunks.
    let z = zlib_stored(&[0, 7, 200]);
    let (a, b) = z.split_at(4);
    let chunks = vec![
        chunk(b"IHDR", &ihdr(2, 1, 8, 0, 0)),
        chunk(b"IDAT", a),
        chunk(b"IDAT", b),
    ];
    let img = decode(&png_stream(&chunks)).unwrap();
    assert_eq!(grid(&img), vec![vec![Pixel::Gray(7), Pixel::Gray(200)]]);
}

#[test]
fn ancillary_chunks_ignored() {
    let chunks = vec![
        chunk(b"IHDR", &ihdr(1, 1, 8, 0, 0)),
        chunk(b"tEXt", &[1, 2, 3]),
        chunk(b"IDAT", &zlib_stored(&[0, 42])),
    ];
    let img = decode(&png_stream(&chunks)).unwrap();
    assert_eq!(grid(&img), vec![vec![Pixel::Gray(42)]]);
}

#[test]
fn signature_mismatch() {
    let mut bytes = png_with_idat(ihdr(1, 1, 8, 0, 0), &[], &[0, 1]);
    bytes[0] = 0;
    assert_eq!(decode(&bytes), Err(PngError::SignatureMismatch));
    assert_eq!(decode(&[137, 80]), Err(PngError::SignatureMismatch));
}

#[test]
fn truncated_chunk() {
    let mut bytes = png_with_idat(ihdr(1, 1, 8, 0, 0), &[], &[0, 1]);
    bytes.truncate(bytes.len() - 6);
    assert_eq!(decode(&bytes), Err(PngError::TruncatedChunk));
}

#[test]
fn unsupported_critical_chunk() {
    let chunks = vec![
        chunk(b"IHDR", &ihdr(1, 1, 8, 0, 0)),
        chunk(b"ABCD", &[1]),
        chunk(b"IDAT", &zlib_stored(&[0, 1])),
    ];
    assert_eq!(
        decode(&png_stream(&chunks)),
        Err(PngError::UnsupportedCriticalChunk)
    );
}

#[test]
fn missing_header() {
    let chunks = vec![chunk(b"IDAT", &zlib_stored(&[0, 1]))];
    assert_eq!(decode(&png_stream(&chunks)), Err(PngError::MissingHeader));
    let none: Vec<Vec<u8>> = Vec::new();
    assert_eq!(decode(&png_stream(&none)), Err(PngError::MissingHeader));
}

#[test]
fn malformed_palette() {
    let plte = chunk(b"PLTE", &[1, 2, 3, 4]);
    let bytes = png_with_idat(ihdr(1, 1, 8, 3, 0), &[plte], &[0, 0]);
    assert_eq!(decode(&bytes), Err(PngError::MalformedPalette));
    assert_eq!(
        build_palette(&[0u8; 769]).unwrap_err(),
        PngError::MalformedPalette
    );
}

#[test]
fn missing_palette() {
    let bytes = png_with_idat(ihdr(1, 1, 8, 3, 0), &[], &[0, 0]);
    assert_eq!(decode(&bytes), Err(PngError::MissingPalette));
}

#[test]
fn invalid_depth_color_pairing() {
    let bytes = png_with_idat(ihdr(1, 1, 16, 3, 0), &[], &[0, 0]);
    assert_eq!(decode(&bytes), Err(PngError::UnsupportedFeature));
    let bytes = png_with_idat(ihdr(1, 1, 4, 2, 0), &[], &[0, 0]);
    assert_eq!(decode(&bytes), Err(PngError::UnsupportedFeature));
    let bytes = png_with_idat(ihdr(0, 1, 8, 0, 0), &[], &[0, 0]);
    assert_eq!(decode(&bytes), Err(PngError::UnsupportedFeature));
}

#[test]
fn unsupported_compression_method() {
    let chunks = vec![
        chunk(b"IHDR", &ihdr(1, 1, 8, 0, 0)),
        chunk(b"IDAT", &[0x77, 0x01, 0x01]),
    ];
    assert_eq!(
        decode(&png_stream(&chunks)),
        Err(PngError::UnsupportedCompression)
    );
}

#[test]
fn invalid_block_type() {
    assert_eq!(inflate(&[0x07]), Err(PngError::InvalidBlockType));
}

#[test]
fn block_length_mismatch() {
    let mut body = deflate_stored(&[9]);
    body[3] ^= 0xFF; // break NLEN
    assert_eq!(inflate(&body), Err(PngError::BlockLengthMismatch));
}

#[test]
fn checksum_mismatch() {
    let mut body = deflate_stored(&[1, 2, 3]);
    let n = body.len();
    body[n - 1] ^= 1;
    assert_eq!(inflate(&body), Err(PngError::ChecksumMismatch));
}

#[test]
fn invalid_huffman_code() {
    // A dynamic block announcing 287 literal codes is rejected.
    let mut out = Vec::new();
    let mut nbits = 0usize;
    push_bits_lsb(&mut out, &mut nbits, 1, 1);
    push_bits_lsb(&mut out, &mut nbits, 2, 2);
    push_bits_lsb(&mut out, &mut nbits, 30, 5); // HLIT = 287
    push_bits_lsb(&mut out, &mut nbits, 0, 5);
    push_bits_lsb(&mut out, &mut nbits, 0, 4);
    assert_eq!(inflate(&out), Err(PngError::InvalidHuffmanCode));
}

#[test]
fn invalid_back_reference() {
    // A fixed-Huffman block that starts with a length/distance pair: there
    // is no output yet, so any distance is too far back.
    let mut out = Vec::new();
    let mut nbits = 0usize;
    push_bits_lsb(&mut out, &mut nbits, 1, 1);
    push_bits_lsb(&mut out, &mut nbits, 1, 2);
    push_code_msb(&mut out, &mut nbits, 1, 7); // symbol 257: length 3
    push_code_msb(&mut out, &mut nbits, 0, 5); // distance symbol 0: distance 1
    assert_eq!(inflate(&out), Err(PngError::InvalidBackReference));
}

#[test]
fn invalid_filter_type() {
    let bytes = png_with_idat(ihdr(1, 1, 8, 0, 0), &[], &[5, 1]);
    assert_eq!(decode(&bytes), Err(PngError::InvalidFilterType));
}

#[test]
fn truncated_scanline() {
    let bytes = png_with_idat(ihdr(2, 2, 8, 0, 0), &[], &[0, 1, 2]);
    assert_eq!(decode(&bytes), Err(PngError::TruncatedScanline));
}

#[test]
fn up_and_average_filters_decode() {
    // 1x2 gray image: row 0 is 100; row 1 uses the Up filter with delta 55.
    let bytes = png_with_idat(ihdr(1, 2, 8, 0, 0), &[], &[0, 100, 2, 55]);
    let img = decode(&bytes).unwrap();
    assert_eq!(
        grid(&img),
        vec![vec![Pixel::Gray(100)], vec![Pixel::Gray(155)]]
    );
}

#[test]
fn crc32_known_values() {
    assert_eq!(crc32(&[]), 0);
    assert_eq!(crc32(b"123456789"), 0xCBF43926);
    assert_eq!(crc32_pair(b"1234", b"56789"), 0xCBF43926);
}

#[test]
fn adler32_known_values() {
    assert_eq!(adler32(&[]), 1);
    assert_eq!(adler32(b"Wikipedia"), 0x11E60398);
}

#[test]
fn header_fields_parsed() {
    let h = interpret_header(&ihdr(640, 480, 8, 6, 0)).unwrap();
    assert_eq!(
        h,
        ImageHeader {
            width: 640,
            height: 480,
            bit_depth: 8,
            color_type: 6,
            compression_method: 0,
            filter_method: 0,
            interlace_method: 0,
        }
    );
    assert!(interpret_header(&[1, 2, 3]).is_err());
}

#[test]
fn palette_entries_in_order() {
    let p = build_palette(&[1, 2, 3, 4, 5, 6]).unwrap();
    assert_eq!(p.entries, vec![(1, 2, 3), (4, 5, 6)]);
}
