use server_tools::byte_size::format_bytes;

/// A size printed through `f64` and `{:.2}`, which `format_bytes` must reproduce.
fn float_formatted(n: u64) -> String {
    const KB: u64 = 1024;
    const MB: u64 = KB * 1024;
    const GB: u64 = MB * 1024;
    if n >= GB {
        format!("{:.2} GiB", n as f64 / GB as f64)
    } else if n >= MB {
        format!("{:.2} MiB", n as f64 / MB as f64)
    } else if n >= KB {
        format!("{:.2} KiB", n as f64 / KB as f64)
    } else {
        format!("{n} B")
    }
}

#[test]
fn plain_bytes_below_one_kib() {
    assert_eq!(format_bytes(0), "0 B");
    assert_eq!(format_bytes(7), "7 B");
    assert_eq!(format_bytes(1023), "1023 B");
}

#[test]
fn units_switch_at_powers_of_1024() {
    assert_eq!(format_bytes(1024), "1.00 KiB");
    assert_eq!(format_bytes(1536), "1.50 KiB");
    assert_eq!(format_bytes(1048575), "1024.00 KiB");
    assert_eq!(format_bytes(1048576), "1.00 MiB");
    assert_eq!(format_bytes(1073741824), "1.00 GiB");
    assert_eq!(format_bytes(5 * 1073741824 + 536870912), "5.50 GiB");
}

#[test]
fn exact_half_hundredth_rounds_to_even() {
    // 1152 / 1024 = 1.125 exactly: the tie goes to the even neighbour 1.12.
    assert_eq!(format_bytes(1152), "1.12 KiB");
    assert_eq!(format_bytes(1152), float_formatted(1152));
    // 1.375 -> 1.38
    assert_eq!(format_bytes(1408), "1.38 KiB");
}

#[test]
fn matches_float_formatting_for_small_counts() {
    for n in 0..70_000u64 {
        assert_eq!(format_bytes(n), float_formatted(n), "n = {n}");
    }
}

#[test]
fn matches_float_formatting_near_unit_edges() {
    let mut samples = Vec::new();
    for base in [1u64 << 20, 1u64 << 30, 1u64 << 40, 1u64 << 53, 1u64 << 60] {
        for d in 0..3000u64 {
            samples.push(base - d.min(base));
            samples.push(base + d);
        }
    }
    for n in samples {
        assert_eq!(format_bytes(n), float_formatted(n), "n = {n}");
    }
}

#[test]
fn matches_float_formatting_for_large_counts() {
    let mut x: u64 = 0x9E37_79B9_7F4A_7C15;
    for _ in 0..200_000 {
        x ^= x << 13;
        x ^= x >> 7;
        x ^= x << 17;
        for n in [x, x >> 11, x >> 23, x >> 33, x >> 45] {
            assert_eq!(format_bytes(n), float_formatted(n), "n = {n}");
        }
    }
    for n in [u64::MAX, u64::MAX - 1, u64::MAX - 1024, (1u64 << 53) + 1, (1u64 << 54) + 2, (1u64 << 54) + 6] {
        assert_eq!(format_bytes(n), float_formatted(n), "n = {n}");
    }
}

#[test]
fn rate_text_uses_the_same_units() {
    assert_eq!(format!("{}/s", format_bytes(2048)), "2.00 KiB/s");
}
