use bc7_codec::decode::decode_block_bc7;

fn check_block(pitch: usize, compressed_block: &[u8], expected_output: &[u8], name: &str) {
    let mut decoded = [0u8; 64];
    decode_block_bc7(compressed_block, &mut decoded, pitch);

    for y in 0..4 {
        let start = y * pitch;
        let end = start + pitch;
        assert_eq!(
            &decoded[start..end],
            &expected_output[start..end],
            "{}: Mismatch at row {}",
            name,
            y
        );
    }
}

#[test]
fn test_bc7_block_0() {
    let compressed_block = [
        0x40, 0xAF, 0xF6, 0xB, 0xFD, 0x2E, 0xFF, 0xFF, 0x11, 0x71, 0x10, 0xA1, 0x21, 0xF2, 0x33,
        0x73,
    ];
    let expected_output = [
        0xBD, 0xBF, 0xBF, 0xFF, 0xBD, 0xBD, 0xBD, 0xFF, 0xBD, 0xBF, 0xBF, 0xFF, 0xBD, 0xBD, 0xBD,
        0xFF, 0xBD, 0xBD, 0xBD, 0xFF, 0xBC, 0xBB, 0xB9, 0xFF, 0xBB, 0xB9, 0xB7, 0xFF, 0xBB, 0xB9,
        0xB7, 0xFF, 0xBB, 0xB9, 0xB7, 0xFF, 0xB9, 0xB1, 0xAC, 0xFF, 0x0, 0x0, 0x0, 0x0, 0x0, 0x0,
        0x0, 0x0, 0x0, 0x0, 0x0, 0x0, 0x0, 0x0, 0x0, 0x0, 0x0, 0x0, 0x0, 0x0, 0x0, 0x0, 0x0, 0x0,
    ];
    check_block(8, &compressed_block, &expected_output, "BC7 block 0");
}

#[test]
fn test_bc7_block_1() {
    let compressed_block = [
        0xC0, 0x8C, 0xEF, 0xA2, 0xBB, 0xDC, 0xFE, 0x7F, 0x6C, 0x55, 0x6A, 0x34, 0x4F, 0x0, 0x5D,
        0x0,
    ];
    let expected_output = [
        0x50, 0x4A, 0x48, 0xFE, 0x50, 0x4A, 0x48, 0xFE, 0x64, 0x5D, 0x59, 0xFE, 0x50, 0x4A, 0x48,
        0xFE, 0x7C, 0x74, 0x6E, 0xFE, 0x46, 0x41, 0x3F, 0xFE, 0x72, 0x6A, 0x65, 0xFE, 0x4A, 0x45,
        0x43, 0xFE, 0x32, 0x2E, 0x2E, 0xFE, 0x32, 0x2E, 0x2E, 0xFE, 0x0, 0x0, 0x0, 0x0, 0x0, 0x0,
        0x0, 0x0, 0x0, 0x0, 0x0, 0x0, 0x0, 0x0, 0x0, 0x0, 0x0, 0x0, 0x0, 0x0, 0x0, 0x0, 0x0, 0x0,
    ];
    check_block(8, &compressed_block, &expected_output, "BC7 block 1");
}

#[test]
fn decode_first_texels_of_fixture() {
    let compressed_block = [
        0x40, 0xAF, 0xF6, 0x0B, 0xFD, 0x2E, 0xFF, 0xFF, 0x11, 0x71, 0x10, 0xA1, 0x21, 0xF2, 0x33,
        0x73,
    ];
    let mut decoded = [0u8; 64];
    decode_block_bc7(&compressed_block, &mut decoded, 8);
    assert_eq!(
        &decoded[0..8],
        &[0xBD, 0xBF, 0xBF, 0xFF, 0xBD, 0xBD, 0xBD, 0xFF]
    );
}

#[test]
fn decode_is_deterministic() {
    let compressed_block = [
        0xC0, 0x8C, 0xEF, 0xA2, 0xBB, 0xDC, 0xFE, 0x7F, 0x6C, 0x55, 0x6A, 0x34, 0x4F, 0x00, 0x5D,
        0x00,
    ];
    let mut first = [7u8; 64];
    let mut second = [7u8; 64];
    decode_block_bc7(&compressed_block, &mut first, 16);
    decode_block_bc7(&compressed_block, &mut second, 16);
    assert_eq!(first, second);
}

#[test]
fn block_without_mode_marker_decodes_to_zero() {
    // The low byte has no set bit; the other 120 bits are arbitrary.
    let compressed_block = [
        0x00, 0xFF, 0x13, 0x9C, 0x42, 0x77, 0x01, 0xEE, 0x25, 0x80, 0x5A, 0xC3, 0x99, 0x04, 0xD6,
        0x6B,
    ];
    let mut decoded = [9u8; 64];
    decode_block_bc7(&compressed_block, &mut decoded, 16);
    assert_eq!(decoded, [0u8; 64]);
}
