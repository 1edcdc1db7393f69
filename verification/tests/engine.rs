use qoi_recover::cache::{add_hash_and_last, color_hash, lookup};
use qoi_recover::chunk::{Chunk, QoiError};
use qoi_recover::engine::{apply_chunk, reconstruct, wrap_channel};

#[test]
fn hash_exact_values() {
    // (3r + 5g + 7b + 11a) mod 64
    assert_eq!(color_hash(0, 0, 0, 0), 0);
    assert_eq!(color_hash(0, 0, 0, 255), 53);
    assert_eq!(color_hash(1, 2, 3, 4), 14);
    assert_eq!(color_hash(10, 20, 30, 255), (30 + 100 + 210 + 2805) % 64);
}

#[test]
fn hash_always_in_range() {
    for r in [0u8, 1, 63, 64, 127, 128, 254, 255] {
        for g in [0u8, 85, 170, 255] {
            for b in [0u8, 85, 170, 255] {
                for a in [0u8, 85, 170, 255] {
                    assert!(color_hash(r, g, b, a) < 64);
                }
            }
        }
    }
}

#[test]
fn store_updates_slot_and_last() {
    let mut cache = [(0u8, 0u8, 0u8, 0u8); 64];
    let mut last = (0u8, 0u8, 0u8, 255u8);
    add_hash_and_last(1, 2, 3, 4, &mut cache, &mut last);
    assert_eq!(last, (1, 2, 3, 4));
    assert_eq!(cache[14], (1, 2, 3, 4));
    // every other slot untouched
    for (i, slot) in cache.iter().enumerate() {
        if i != 14 {
            assert_eq!(*slot, (0, 0, 0, 0));
        }
    }
}

#[test]
fn lookup_reads_slot_or_fails() {
    let mut cache = [(0u8, 0u8, 0u8, 0u8); 64];
    let mut last = (0u8, 0u8, 0u8, 255u8);
    add_hash_and_last(1, 2, 3, 4, &mut cache, &mut last);
    assert_eq!(lookup(&cache, 14), Ok((1, 2, 3, 4)));
    assert_eq!(lookup(&cache, 0), Ok((0, 0, 0, 0)));
    assert_eq!(lookup(&cache, 64), Err(QoiError::IndexOutOfRange));
    assert_eq!(lookup(&cache, usize::MAX), Err(QoiError::IndexOutOfRange));
}

#[test]
fn literal_then_run() {
    // a literal then a run of three: four copies of the same pixel, 16 bytes
    let chunks = vec![Chunk::Literal(10, 20, 30, 255), Chunk::Run(3)];
    let out = reconstruct(&chunks, 0).unwrap();
    assert_eq!(out.len(), 16);
    assert_eq!(
        out,
        vec![10, 20, 30, 255, 10, 20, 30, 255, 10, 20, 30, 255, 10, 20, 30, 255]
    );
}

#[test]
fn literal_rgb_copies_default_alpha() {
    let chunks = vec![Chunk::LiteralRgb(5, 5, 5)];
    let out = reconstruct(&chunks, 0).unwrap();
    assert_eq!(out, vec![5, 5, 5, 255]);
}

#[test]
fn small_diff_wraps_around() {
    // previous pixel (255,0,0,255), dr = +1: red wraps to 0
    let chunks = vec![Chunk::Literal(255, 0, 0, 255), Chunk::SmallDiff(1, 0, 0)];
    let out = reconstruct(&chunks, 0).unwrap();
    assert_eq!(out, vec![255, 0, 0, 255, 0, 0, 0, 255]);
}

#[test]
fn small_diff_negative_wraps_around() {
    // previous pixel (0,0,0,255), dg = -2: green wraps to 254
    let chunks = vec![Chunk::Literal(0, 0, 0, 255), Chunk::SmallDiff(0, -2, 0)];
    let out = reconstruct(&chunks, 0).unwrap();
    assert_eq!(out, vec![0, 0, 0, 255, 0, 254, 0, 255]);
}

#[test]
fn luma_diff_applies_green_to_all_channels() {
    // dr = drdg + dg = 12, dg = 10, db = dbdg + dg = 7
    let chunks = vec![
        Chunk::Literal(100, 100, 100, 200),
        Chunk::LumaDiff(2, 10, -3),
    ];
    let out = reconstruct(&chunks, 0).unwrap();
    assert_eq!(out, vec![100, 100, 100, 200, 112, 110, 107, 200]);
}

#[test]
fn run_of_zero_is_a_no_op() {
    let chunks = vec![Chunk::Literal(1, 2, 3, 4), Chunk::Run(0)];
    let out = reconstruct(&chunks, 0).unwrap();
    assert_eq!(out, vec![1, 2, 3, 4]);
}

#[test]
fn run_before_any_literal_repeats_default_pixel() {
    let chunks = vec![Chunk::Run(2)];
    let out = reconstruct(&chunks, 0).unwrap();
    assert_eq!(out, vec![0, 0, 0, 255, 0, 0, 0, 255]);
}

#[test]
fn index_ref_returns_cached_pixel() {
    // (1,2,3,4) hashes to slot 14
    let chunks = vec![
        Chunk::Literal(1, 2, 3, 4),
        Chunk::Literal(5, 6, 7, 8),
        Chunk::IndexRef(14),
    ];
    let out = reconstruct(&chunks, 0).unwrap();
    assert_eq!(out, vec![1, 2, 3, 4, 5, 6, 7, 8, 1, 2, 3, 4]);
}

#[test]
fn collision_evicts_and_index_ref_sees_new_pixel() {
    // (26,0,0,0) also hashes to slot 14 and silently evicts (1,2,3,4);
    // the re-emitted pixel still hashes to the slot it was read from
    let chunks = vec![
        Chunk::Literal(1, 2, 3, 4),
        Chunk::Literal(26, 0, 0, 0),
        Chunk::IndexRef(14),
    ];
    assert_eq!(color_hash(26, 0, 0, 0), 14);
    let out = reconstruct(&chunks, 0).unwrap();
    assert_eq!(&out[8..12], &[26, 0, 0, 0]);
    assert_eq!(color_hash(out[8], out[9], out[10], out[11]), 14);
}

#[test]
fn index_out_of_range_is_an_error() {
    let chunks = vec![Chunk::Literal(1, 2, 3, 4), Chunk::IndexRef(64)];
    assert_eq!(reconstruct(&chunks, 0), Err(QoiError::IndexOutOfRange));
    let chunks = vec![Chunk::IndexRef(255)];
    assert_eq!(reconstruct(&chunks, 0), Err(QoiError::IndexOutOfRange));
}

#[test]
fn discard_drops_state_and_pixels() {
    // the discarded literal leaves no pixel, no cache entry and no previous
    // pixel behind: the second literal is decoded against the default state
    let chunks = vec![Chunk::Literal(10, 20, 30, 255), Chunk::Literal(1, 2, 3, 4)];
    let out = reconstruct(&chunks, 1).unwrap();
    assert_eq!(out, vec![1, 2, 3, 4]);
}

#[test]
fn discard_is_independent_of_dropped_content() {
    let a = vec![Chunk::Literal(10, 20, 30, 255), Chunk::LiteralRgb(9, 9, 9)];
    let b = vec![Chunk::Literal(200, 1, 2, 3), Chunk::LiteralRgb(9, 9, 9)];
    // either way the literal-RGB chunk takes its alpha from the default 255
    assert_eq!(reconstruct(&a, 1).unwrap(), vec![9, 9, 9, 255]);
    assert_eq!(reconstruct(&a, 1), reconstruct(&b, 1));
}

#[test]
fn discard_past_the_end_yields_empty_buffer() {
    let chunks = vec![Chunk::Literal(10, 20, 30, 255), Chunk::Run(3)];
    let out = reconstruct(&chunks, 5).unwrap();
    assert!(out.is_empty());
}

#[test]
fn pixel_count_sums_over_chunks() {
    // one per literal / literal-RGB / index chunk, n per run of n
    let chunks = vec![
        Chunk::Literal(1, 2, 3, 4),
        Chunk::Run(62),
        Chunk::LiteralRgb(7, 7, 7),
        Chunk::IndexRef(14),
        Chunk::SmallDiff(1, 1, 1),
        Chunk::Run(0),
    ];
    let out = reconstruct(&chunks, 0).unwrap();
    assert_eq!(out.len() / 4, 1 + 62 + 1 + 1 + 1 + 0);
}

#[test]
fn wrap_channel_exact_values() {
    assert_eq!(wrap_channel(255, 1), 0);
    assert_eq!(wrap_channel(0, -1), 255);
    assert_eq!(wrap_channel(0, -128), 128);
    assert_eq!(wrap_channel(200, 127), 71);
    assert_eq!(wrap_channel(100, 0), 100);
}

#[test]
fn apply_chunk_updates_state_in_place() {
    let mut cache = [(0u8, 0u8, 0u8, 0u8); 64];
    let mut last = (0u8, 0u8, 0u8, 255u8);
    let mut out: Vec<u8> = Vec::new();
    apply_chunk(&Chunk::Literal(1, 2, 3, 4), &mut cache, &mut last, &mut out).unwrap();
    assert_eq!(last, (1, 2, 3, 4));
    assert_eq!(cache[14], (1, 2, 3, 4));
    assert_eq!(out, vec![1, 2, 3, 4]);
    let err = apply_chunk(&Chunk::IndexRef(99), &mut cache, &mut last, &mut out);
    assert_eq!(err, Err(QoiError::IndexOutOfRange));
    // a failing step leaves everything untouched
    assert_eq!(last, (1, 2, 3, 4));
    assert_eq!(out, vec![1, 2, 3, 4]);
}
