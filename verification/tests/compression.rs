use turbo_rag::compression::{compression_ratio, CompressionInfo};

#[test]
fn compression_ratios() {
    assert_eq!(compression_ratio(768, 4).whole(), 8);
    assert_eq!(compression_ratio(1536, 2).whole(), 16);
}

#[test]
fn compression_ratios_correct() {
    assert_eq!(CompressionInfo::compute(768, 4).ratio.whole(), 8);
    assert_eq!(CompressionInfo::compute(1536, 2).ratio.whole(), 16);
    assert_eq!(CompressionInfo::compute(384, 4).ratio.whole(), 8);
}

#[test]
fn print_compression_table() {
    let rows = CompressionInfo::table();
    assert_eq!(rows.len(), 8);
    let shapes: Vec<(usize, usize)> = rows.iter().map(|r| (r.dim, r.bits)).collect();
    assert_eq!(
        shapes,
        vec![
            (384, 2),
            (384, 4),
            (768, 2),
            (768, 4),
            (1024, 2),
            (1024, 4),
            (1536, 2),
            (1536, 4)
        ]
    );
    for r in rows {
        println!("{:<8} {:<6} {:<8}", r.dim, r.bits, r.ratio.whole());
    }
}

#[test]
fn sizes_in_bytes_are_rounded_up() {
    let info = CompressionInfo::compute(768, 4);
    assert_eq!(info.original_bytes_per_vec, 3072);
    assert_eq!(info.compressed_bytes_per_vec, 384);
    assert_eq!(CompressionInfo::compute(3, 3).compressed_bytes_per_vec, 2);
    assert_eq!(CompressionInfo::compute(8, 2).compressed_bytes_per_vec, 2);
    assert_eq!(CompressionInfo::compute(0, 4).compressed_bytes_per_vec, 0);
}
