use shelltools::size::human_size;

fn float_reference(bytes: u64) -> String {
    let units = ["B", "KB", "MB", "GB", "TB"];
    let mut size = bytes as f64;
    let mut unit = 0;
    while size >= 1024.0 && unit < units.len() - 1 {
        size /= 1024.0;
        unit += 1;
    }
    format!("{:.1} {}", size, units[unit])
}

#[test]
fn exact_examples() {
    assert_eq!(human_size(0), "0.0 B");
    assert_eq!(human_size(1023), "1023.0 B");
    assert_eq!(human_size(1024), "1.0 KB");
    assert_eq!(human_size(1536), "1.5 KB");
    assert_eq!(human_size(1280), "1.2 KB");
    assert_eq!(human_size(1792), "1.8 KB");
    assert_eq!(human_size(1048575), "1024.0 KB");
    assert_eq!(human_size(1048576), "1.0 MB");
    assert_eq!(human_size(1024u64.pow(4)), "1.0 TB");
    assert_eq!(human_size(u64::MAX), "16777216.0 TB");
}

#[test]
fn agrees_with_float_formatting_on_boundaries() {
    let mut values: Vec<u64> = Vec::new();
    for e in 0..64u32 {
        let p = 1u64 << e;
        for d in [0u64, 1, 2, 3, 255, 256, 511, 512, 513, 1023] {
            values.push(p.wrapping_add(d));
            values.push(p.wrapping_sub(d));
        }
    }
    for k in 0..5000u64 {
        values.push(k);
        values.push(k * 256 + 1024);
        values.push(k * 1_048_576 / 10 + 1_048_576);
    }
    values.push(u64::MAX);
    values.push(u64::MAX - 1024);
    values.push((1u64 << 53) + 1);
    values.push((1u64 << 53) + 3);
    for v in values {
        assert_eq!(human_size(v), float_reference(v), "bytes = {}", v);
    }
}

#[test]
fn agrees_with_float_formatting_on_pseudo_random_values() {
    let mut x: u64 = 0x9E37_79B9_7F4A_7C15;
    for _ in 0..200_000 {
        x ^= x << 13;
        x ^= x >> 7;
        x ^= x << 17;
        for shift in [0u32, 11, 23, 37, 50] {
            let v = x >> shift;
            assert_eq!(human_size(v), float_reference(v), "bytes = {}", v);
        }
    }
}
