use bc7_codec::bits::{put_bits, BitStream};
use bc7_codec::dispatch::{aligned_slot_size, settings_words, DispatchPlanner};
use bc7_codec::settings::BC7Settings;
use bc7_codec::tables::{get_pattern, get_pattern_mask, get_skips, get_unquant_value};
use bc7_codec::variant::CompressionVariant;
use bc7_codec::CodecError;

fn words_to_bytes(data: &[u32; 5]) -> [u8; 16] {
    let mut out = [0u8; 16];
    for i in 0..4 {
        let w = data[i];
        out[i * 4] = w as u8;
        out[i * 4 + 1] = (w >> 8) as u8;
        out[i * 4 + 2] = (w >> 16) as u8;
        out[i * 4 + 3] = (w >> 24) as u8;
    }
    out
}

#[test]
fn bit_writer_reader_round_trip() {
    // Widths from 1 to 32 bits, 128 bits in total, written then read back
    // in the same order reproduce every value.
    let fields: [(u32, u32); 10] = [
        (1, 1),
        (3, 0b101),
        (7, 0x5A),
        (4, 0xC),
        (9, 0x1F3),
        (16, 0xBEEF),
        (32, 0xDEAD_BEEF),
        (24, 0xABCDEF),
        (31, 0x4000_0001),
        (1, 1),
    ];
    let total: u32 = fields.iter().map(|f| f.0).sum();
    assert_eq!(total, 128);
    let mut data = [0u32; 5];
    let mut pos = 0u32;
    for &(w, v) in fields.iter() {
        put_bits(&mut data, &mut pos, w, v);
    }
    assert_eq!(pos, 128);
    let bytes = words_to_bytes(&data);
    let mut stream = BitStream::new(&bytes);
    for &(w, v) in fields.iter() {
        assert_eq!(stream.read_bits(w), v);
    }
}

#[test]
fn bit_writer_reader_round_trip_short() {
    let mut data = [0u32; 5];
    let mut pos = 0u32;
    put_bits(&mut data, &mut pos, 5, 0b10110);
    put_bits(&mut data, &mut pos, 2, 0b01);
    put_bits(&mut data, &mut pos, 30, 0x2345_6789);
    let bytes = words_to_bytes(&data);
    let mut stream = BitStream::new(&bytes);
    assert_eq!(stream.read_bits(5), 0b10110);
    assert_eq!(stream.read_bits(2), 0b01);
    assert_eq!(stream.read_bits(30), 0x2345_6789);
}

#[test]
fn unquant_weight_tables() {
    assert_eq!(get_unquant_value(2, 0), 0);
    assert_eq!(get_unquant_value(2, 1), 21);
    assert_eq!(get_unquant_value(2, 2), 43);
    assert_eq!(get_unquant_value(2, 3), 64);
    assert_eq!(get_unquant_value(3, 4), 37);
    assert_eq!(get_unquant_value(4, 15), 64);
    assert_eq!(get_unquant_value(4, 7), 30);
}

#[test]
fn pattern_and_skip_tables() {
    assert_eq!(get_pattern(0), 0x50505050);
    assert_eq!(get_pattern(127), 0x2A4A5254);
    assert_eq!(get_pattern_mask(0, 0), 0x0000_3333);
    assert_eq!(get_pattern_mask(0, 1), 0x0000_CCCC);
    let skips = get_skips(0);
    assert_eq!(skips, [0, 15, 0]);
    let skips2 = get_skips(64);
    assert_eq!(skips2, [0, 3, 15]);
}

#[test]
fn blocks_byte_size_rounds_up() {
    let variant = CompressionVariant::BC7(BC7Settings::opaque_basic());
    assert_eq!(variant.blocks_byte_size(4, 4), 16);
    assert_eq!(variant.blocks_byte_size(8, 8), 64);
    assert_eq!(variant.blocks_byte_size(5, 4), 32);
    assert_eq!(variant.blocks_byte_size(9, 9), 144);
    assert_eq!(variant.bytes_per_row(16), 64);
    assert_eq!(variant.bytes_per_row(17), 80);
}

#[test]
fn settings_presets_have_expected_shape() {
    let s = BC7Settings::opaque_ultra_fast();
    assert_eq!(s.channels, 3);
    assert_eq!(s.mode_selection, [0, 0, 0, 1]);
    assert_eq!(s.skip_mode2, 1);
    let a = BC7Settings::alpha_slow();
    assert_eq!(a.channels, 4);
    assert_eq!(a.fast_skip_threshold_mode7, 64);
    let words = settings_words(&a);
    assert_eq!(words[0], 4);
    assert_eq!(words[18], 4);
    assert_eq!(words[12], 0);
}

#[test]
fn planner_validates_and_plans() {
    let variant = CompressionVariant::BC7(BC7Settings::alpha_basic());
    let mut planner = DispatchPlanner::new();
    assert_eq!(
        planner.add_compression_task(variant, 10, 8, 1 << 20, true, 0, 0),
        Err(CodecError::InvalidDimensions)
    );
    assert_eq!(
        planner.add_compression_task(variant, 8, 8, 1 << 20, true, 2, 0),
        Err(CodecError::InvalidDimensions)
    );
    assert_eq!(
        planner.add_compression_task(variant, 8, 8, 1 << 20, false, 0, 0),
        Err(CodecError::InvalidBufferSize)
    );
    assert_eq!(
        planner.add_compression_task(variant, 8, 8, 63, true, 0, 0),
        Err(CodecError::InvalidBufferSize)
    );
    assert_eq!(
        planner.add_compression_task(variant, 8, 8, 1 << 20, true, 4, 16),
        Ok(())
    );
    assert_eq!(
        planner.add_compression_task(variant, 16, 16, 1 << 20, true, 0, 0),
        Ok(())
    );
    let planned = planner.plan(256, 256);
    assert_eq!(planned.len(), 2);
    assert_eq!(planned[0].uniform_offset, 0);
    assert_eq!(planned[1].uniform_offset, 256);
    assert_eq!(planned[0].uniforms, [8, 8, 4, 4]);
    assert_eq!(planned[1].groups_x, 1);
    assert_eq!(planned[1].groups_y, 1);
}

#[test]
fn aligned_slot_sizes() {
    assert_eq!(aligned_slot_size(16, 256), 256);
    assert_eq!(aligned_slot_size(76, 32), 96);
    assert_eq!(aligned_slot_size(256, 256), 256);
    assert_eq!(aligned_slot_size(1, 1), 1);
}
