use torrent_meta::utils::human_size;

fn by_floats(bytes: u64) -> String {
    let units: [(u64, &str); 3] = [(1024 * 1024 * 1024, "GiB"), (1024 * 1024, "MiB"), (1024, "KiB")];
    for (unit, name) in units {
        if bytes >= unit {
            return if bytes % unit == 0 {
                format!("{} {}", bytes / unit, name)
            } else {
                format!("{:.2} {}", bytes as f64 / unit as f64, name)
            };
        }
    }
    format!("{} B", bytes)
}

#[test]
fn sizes_are_shown_in_the_largest_unit() {
    assert_eq!(human_size(0), "0 B");
    assert_eq!(human_size(100), "100 B");
    assert_eq!(human_size(1023), "1023 B");
    assert_eq!(human_size(1024), "1 KiB");
    assert_eq!(human_size(1536), "1.50 KiB");
    assert_eq!(human_size(65536), "64 KiB");
    assert_eq!(human_size(1048576), "1 MiB");
    assert_eq!(human_size(1073741824), "1 GiB");
    assert_eq!(human_size(1610612736), "1.50 GiB");
}

#[test]
fn a_tie_goes_to_the_even_hundredth() {
    assert_eq!(human_size(1152), "1.12 KiB");
    assert_eq!(human_size(1408), "1.38 KiB");
    assert_eq!(human_size(1152), by_floats(1152));
    assert_eq!(human_size(1408), by_floats(1408));
}

#[test]
fn sizes_agree_with_formatting_of_doubles() {
    let mut n: u64 = 1;
    let mut seed: u64 = 0x2545_f491_4f6c_dd1d;
    for _ in 0..20000 {
        seed ^= seed << 13;
        seed ^= seed >> 7;
        seed ^= seed << 17;
        n = seed >> (seed % 64);
        assert_eq!(human_size(n), by_floats(n), "for {}", n);
    }
    for shift in 0..64u32 {
        for delta in 0..40u64 {
            let base: u64 = 1u64 << shift;
            let m = base.wrapping_add(delta * 128);
            assert_eq!(human_size(m), by_floats(m), "for {}", m);
            let m = base.wrapping_sub(delta);
            assert_eq!(human_size(m), by_floats(m), "for {}", m);
        }
    }
    assert_eq!(human_size(n), by_floats(n));
    assert_eq!(human_size(u64::MAX), by_floats(u64::MAX));
}

#[test]
fn sizes_beyond_53_bits_round_as_doubles_do() {
    let start: u64 = (1u64 << 53) + (1u64 << 27) / 25;
    for k in 0..5000u64 {
        let n = start + k * 5368709 + k;
        assert_eq!(human_size(n), by_floats(n), "for {}", n);
    }
    for k in 0..5000u64 {
        let n = u64::MAX - k * 10737418;
        assert_eq!(human_size(n), by_floats(n), "for {}", n);
    }
}
