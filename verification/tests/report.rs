use compress_estimate::report::{
    best_value, classify, human_size, parse_budget, EntropyBand, Scale, Verdict,
};
use compress_estimate::stats::Histogram;

#[test]
fn sizes() {
    assert_eq!(human_size(0), "0 B");
    assert_eq!(human_size(1536), "1.50 KB");
    assert_eq!(human_size(18 << 30), "18.00 GB");
}

/// The size as the formatting machinery of floating-point numbers has it.
fn formatted(bytes: u64) -> String {
    let units = ["B", "KB", "MB", "GB", "TB", "PB"];
    if bytes < 1024 {
        return format!("{bytes} B");
    }
    let mut v = bytes as f64;
    let mut u = 0;
    while v >= 1024.0 && u < units.len() - 1 {
        v /= 1024.0;
        u += 1;
    }
    format!("{v:.2} {}", units[u])
}

#[test]
fn sizes_agree_with_formatting() {
    // Ties in the last decimal, unit borders, and numbers that a double
    // cannot hold.
    for bytes in [
        1, 9, 10, 999, 1023, 1024, 1152, 1408, 1664, 1920, 1029, 1034, 1_048_575, 1_048_576,
        1_048_063, 12_345_678, 1_073_741_823, 1_099_511_627_775, 1_125_899_906_842_623,
        1_125_899_906_842_624, 9_007_199_254_740_993, 1_152_921_504_606_846_975, u64::MAX - 1,
        u64::MAX,
    ] {
        assert_eq!(human_size(bytes), formatted(bytes), "{bytes}");
    }
    let mut x = 0x2545_F491_4F6C_DD1Du64;
    for i in 0..2000u32 {
        x ^= x << 13;
        x ^= x >> 7;
        x ^= x << 17;
        let bytes = x >> (i % 64);
        assert_eq!(human_size(bytes), formatted(bytes), "{bytes}");
    }
}

#[test]
fn budget_parsing() {
    let bytes = |s: &str| -> Option<u64> {
        let (end, scale) = parse_budget(s.as_bytes())?;
        let n: f64 = s[..end].trim().parse().ok()?;
        match scale {
            Scale::Bytes(unit) => Some((n * unit as f64) as u64),
            Scale::Percent => None,
        }
    };
    assert_eq!(bytes("64MB").unwrap(), 64 << 20);
    assert_eq!(bytes("1024").unwrap(), 1024);
    assert!(bytes("bogus").is_none());
}

#[test]
fn budget_units() {
    assert_eq!(parse_budget(b"500K"), Some((3, Scale::Bytes(1 << 10))));
    assert_eq!(parse_budget(b"1.5 gb"), Some((4, Scale::Bytes(1 << 30))));
    assert_eq!(parse_budget(b"2mB"), Some((1, Scale::Bytes(1 << 20))));
    assert_eq!(parse_budget(b"0.1%"), Some((3, Scale::Percent)));
    assert_eq!(parse_budget(b""), Some((0, Scale::Bytes(1))));
    assert_eq!(parse_budget(b"5T"), None);
    assert_eq!(parse_budget(b"5MBs"), None);
    assert_eq!(parse_budget(b"5M B"), None);
    assert_eq!(parse_budget(b"5B"), None);
}

#[test]
fn verdicts() {
    let of = |r: f64| Verdict::from_ratio(r.to_bits());
    assert_eq!(of(3.0), Verdict::High);
    assert_eq!(of(f64::INFINITY), Verdict::High);
    assert_eq!(of(2.999), Verdict::Good);
    assert_eq!(of(1.75), Verdict::Good);
    assert_eq!(of(1.7499), Verdict::Moderate);
    assert_eq!(of(1.15), Verdict::Moderate);
    assert_eq!(of(1.1499), Verdict::Low);
    assert_eq!(of(0.0), Verdict::Low);
    assert_eq!(of(-5.0), Verdict::Low);
    assert_eq!(of(f64::NAN), Verdict::Low);
    assert_eq!(Verdict::High.label(), "💡 High Compressibility");
    assert_eq!(
        Verdict::Low.label(),
        "⚠️  Low Compressibility — likely already compressed"
    );
}

#[test]
fn data_classes() {
    let hist = |data: &[u8]| {
        let mut h = Histogram::default();
        h.add(data);
        h
    };
    let text = hist(b"id,name\n1,alice\n2,bob\n");
    assert_eq!(classify(&text, EntropyBand::Medium), "Structured text/data");
    assert_eq!(
        classify(&text, EntropyBand::High),
        "High-entropy data (encrypted or already compressed)"
    );
    assert_eq!(classify(&text, EntropyBand::Low), "Highly repetitive data");
    // One NUL in twenty is not yet binary; a little more is.
    let mut few = vec![b'x'; 19];
    few.push(0);
    assert_eq!(classify(&hist(&few), EntropyBand::Medium), "Structured text/data");
    few[0] = 0;
    assert_eq!(classify(&hist(&few), EntropyBand::Medium), "Binary data");
    assert_eq!(classify(&hist(&[200; 10]), EntropyBand::Medium), "Mixed binary data");
    // Exactly nine in ten printable is not enough.
    let mut nine = vec![b'x'; 9];
    nine.push(200);
    assert_eq!(classify(&hist(&nine), EntropyBand::Medium), "Mixed binary data");
}

#[test]
fn best_value_is_the_knee() {
    assert_eq!(best_value(&[], true), None);
    assert_eq!(best_value(&[7], true), Some(0));
    assert_eq!(best_value(&[9, 1], true), Some(1));
    assert_eq!(best_value(&[1, 9], false), Some(0));
    assert_eq!(best_value(&[0, 5, 3], false), Some(1));
    // The first of equally high points.
    assert_eq!(best_value(&[-2, 4, 4, -2], true), Some(1));
    assert_eq!(best_value(&[0, 0, 0], true), Some(0));
}
