use bc7_codec::decode::decompress_blocks_as_rgba8;
use bc7_codec::encode::{compress_rgba8, BlockCompressorBC7};
use bc7_codec::settings::BC7Settings;
use bc7_codec::variant::CompressionVariant;
use bc7_codec::CodecError;

/// A small deterministic pseudorandom byte stream.
fn prng_bytes(len: usize, seed: u32) -> Vec<u8> {
    let mut state = seed;
    let mut out = Vec::with_capacity(len);
    for _ in 0..len {
        state = state.wrapping_mul(1664525).wrapping_add(1013904223);
        out.push((state >> 24) as u8);
    }
    out
}

fn total_squared_error(a: &[u8], b: &[u8]) -> u64 {
    assert_eq!(a.len(), b.len());
    let mut sum = 0u64;
    for i in 0..a.len() {
        let d = (a[i] as i64) - (b[i] as i64);
        sum += (d * d) as u64;
    }
    sum
}

#[test]
fn round_trip_zero_image_is_exact() {
    let width = 8u32;
    let height = 8u32;
    let pixels = vec![0u8; (width * height * 4) as usize];
    let settings = BC7Settings::alpha_basic();
    let variant = CompressionVariant::BC7(settings);
    let mut blocks = vec![0u8; 4 * 16];
    compress_rgba8(variant, &pixels, &mut blocks, width, height, width * 4).unwrap();
    let mut out = vec![1u8; (width * height * 4) as usize];
    decompress_blocks_as_rgba8(variant, width, height, &blocks, &mut out).unwrap();
    assert_eq!(pixels, out);
}

#[test]
fn round_trip_random_image_error_is_bounded() {
    let width = 8u32;
    let height = 8u32;
    let pixels = prng_bytes((width * height * 4) as usize, 12345);
    let settings = BC7Settings::alpha_basic();
    let variant = CompressionVariant::BC7(settings);
    let mut blocks = vec![0u8; 4 * 16];
    compress_rgba8(variant, &pixels, &mut blocks, width, height, width * 4).unwrap();
    let mut out = vec![0u8; (width * height * 4) as usize];
    decompress_blocks_as_rgba8(variant, width, height, &blocks, &mut out).unwrap();
    for i in 0..pixels.len() {
        let d = (pixels[i] as i32 - out[i] as i32).unsigned_abs();
        assert!(d <= 255, "channel difference out of byte range");
    }
    // Lossy, but far better than the trivial all-zero reconstruction.
    let err = total_squared_error(&pixels, &out);
    let trivial = total_squared_error(&pixels, &vec![0u8; pixels.len()]);
    assert!(err < trivial / 4, "error {} not far below trivial {}", err, trivial);
}

#[test]
fn reported_error_matches_reconstruction() {
    // Drive the per-block compressor directly so its reported best error
    // can be held against the decoder's actual reconstruction.
    let width = 4usize;
    let pixels = prng_bytes(4 * 4 * 4, 77);
    let settings = BC7Settings::alpha_slow();
    let mut compressor = BlockCompressorBC7::new(&settings);
    compressor.load_block_interleaved_rgba(&pixels, 0, 0, width * 4);
    compressor.compute_opaque_err();
    compressor.compress_block_bc7_core();
    let reported = compressor.best_error();
    let mut blocks = vec![0u8; 16];
    compressor.store_data(&mut blocks, 1, 0, 0);
    let variant = CompressionVariant::BC7(settings);
    let mut out = vec![0u8; 64];
    decompress_blocks_as_rgba8(variant, 4, 4, &blocks, &mut out).unwrap();
    let actual = total_squared_error(&pixels, &out);
    assert_eq!(
        actual, reported,
        "reconstruction error {} differs from reported {}",
        actual, reported
    );
}

#[test]
fn slow_preset_error_not_above_basic() {
    // Both presets enable the same mode groups; the slow one searches a
    // superset of candidates and refines more.
    let width = 8u32;
    let height = 8u32;
    let pixels = prng_bytes((width * height * 4) as usize, 999);
    let mut total = [0u64; 2];
    for (slot, settings) in [BC7Settings::alpha_basic(), BC7Settings::alpha_slow()]
        .iter()
        .enumerate()
    {
        let variant = CompressionVariant::BC7(*settings);
        let mut blocks = vec![0u8; 4 * 16];
        compress_rgba8(variant, &pixels, &mut blocks, width, height, width * 4).unwrap();
        let mut out = vec![0u8; (width * height * 4) as usize];
        decompress_blocks_as_rgba8(variant, width, height, &blocks, &mut out).unwrap();
        total[slot] = total_squared_error(&pixels, &out);
    }
    assert!(
        total[1] <= total[0],
        "slow preset error {} above basic preset error {}",
        total[1],
        total[0]
    );
}

#[test]
fn compress_rejects_bad_dimensions() {
    let settings = BC7Settings::opaque_basic();
    let variant = CompressionVariant::BC7(settings);
    let pixels = vec![255u8; 5 * 8 * 4];
    let mut blocks = vec![0u8; 64];
    let r = compress_rgba8(variant, &pixels, &mut blocks, 5, 8, 20);
    assert_eq!(r, Err(CodecError::InvalidDimensions));
    let r2 = compress_rgba8(variant, &pixels, &mut blocks, 8, 6, 32);
    assert_eq!(r2, Err(CodecError::InvalidDimensions));
}

#[test]
fn compress_rejects_small_buffers() {
    let settings = BC7Settings::opaque_basic();
    let variant = CompressionVariant::BC7(settings);
    let pixels = vec![255u8; 8 * 8 * 4];
    let mut blocks = vec![0u8; 63];
    let r = compress_rgba8(variant, &pixels, &mut blocks, 8, 8, 32);
    assert_eq!(r, Err(CodecError::InvalidBufferSize));
    let mut blocks_ok = vec![0u8; 64];
    let small = vec![255u8; 10];
    let r2 = compress_rgba8(variant, &small, &mut blocks_ok, 8, 8, 32);
    assert_eq!(r2, Err(CodecError::InvalidBufferSize));
}

#[test]
fn compress_rejects_bad_settings() {
    let mut settings = BC7Settings::opaque_basic();
    settings.fast_skip_threshold_mode1 = 65;
    let variant = CompressionVariant::BC7(settings);
    let pixels = vec![255u8; 8 * 8 * 4];
    let mut blocks = vec![0u8; 64];
    let r = compress_rgba8(variant, &pixels, &mut blocks, 8, 8, 32);
    assert_eq!(r, Err(CodecError::InvalidSettings));
}

#[test]
fn decompress_rejects_bad_sizes() {
    let settings = BC7Settings::opaque_basic();
    let variant = CompressionVariant::BC7(settings);
    let blocks = vec![0u8; 64];
    let mut out = vec![0u8; 8 * 8 * 4];
    assert_eq!(
        decompress_blocks_as_rgba8(variant, 7, 8, &blocks, &mut out),
        Err(CodecError::InvalidDimensions)
    );
    let mut short_out = vec![0u8; 8 * 8 * 4 - 1];
    assert_eq!(
        decompress_blocks_as_rgba8(variant, 8, 8, &blocks, &mut short_out),
        Err(CodecError::InvalidBufferSize)
    );
    let short_blocks = vec![0u8; 63];
    assert_eq!(
        decompress_blocks_as_rgba8(variant, 8, 8, &short_blocks, &mut out),
        Err(CodecError::InvalidBufferSize)
    );
}

#[test]
fn opaque_preset_round_trip_keeps_alpha_near_opaque() {
    let width = 4u32;
    let height = 4u32;
    let mut pixels = prng_bytes((width * height * 4) as usize, 4242);
    for i in 0..16 {
        pixels[i * 4 + 3] = 255;
    }
    let settings = BC7Settings::opaque_ultra_fast();
    let variant = CompressionVariant::BC7(settings);
    let mut blocks = vec![0u8; 16];
    compress_rgba8(variant, &pixels, &mut blocks, width, height, width * 4).unwrap();
    let mut out = vec![0u8; (width * height * 4) as usize];
    decompress_blocks_as_rgba8(variant, width, height, &blocks, &mut out).unwrap();
    for i in 0..16 {
        // Mode 6 stores alpha explicitly at seven bits plus a p-bit whose
        // value is chosen by the color channels, so a fully opaque input
        // can reconstruct one step below full opacity.
        assert!(out[i * 4 + 3] >= 254);
    }
}
