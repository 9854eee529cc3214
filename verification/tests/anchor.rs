use compress_estimate::backends::zstd::anchor::{
    fraction_of, real_fraction, AnchorFit, Correction,
};

fn fit(points: &[(i32, f64)]) -> AnchorFit {
    AnchorFit::fit(points.iter().map(|p| (p.0, p.1.to_bits())).collect())
}

fn delta(f: &AnchorFit, level: i32) -> f64 {
    match f.delta(level) {
        Correction::Zero => 0.0,
        Correction::At(gap) => f64::from_bits(gap),
        Correction::Between(lo, hi) => {
            let (a, b) = (f64::from_bits(lo.1), f64::from_bits(hi.1));
            let t = (level - lo.0) as f64 / (hi.0 - lo.0) as f64;
            a + t * (b - a)
        }
    }
}

#[test]
fn single_anchor_is_family_constant() {
    let f = fit(&[(3, 0.1)]);
    // Same family (dfast): the constant shift applies.
    assert!((delta(&f, 4) - 0.1).abs() < 1e-12);
    // Other families are uncorrected.
    assert_eq!(delta(&f, 10), 0.0);
    assert_eq!(delta(&f, 19), 0.0);
}

#[test]
fn two_anchors_interpolate_within_family() {
    let f = fit(&[(5, 0.1), (11, 0.3)]);
    assert!((delta(&f, 5) - 0.1).abs() < 1e-12);
    assert!((delta(&f, 11) - 0.3).abs() < 1e-12);
    assert!((delta(&f, 8) - 0.2).abs() < 1e-12);
    // Flat outside the anchor range.
    assert!((delta(&f, 12) - 0.3).abs() < 1e-12);
    assert!((delta(&f, 5) - 0.1).abs() < 1e-12);
}

#[test]
fn families_are_isolated() {
    let f = fit(&[(1, 0.1), (3, -0.3)]);
    assert!((delta(&f, 2) - 0.1).abs() < 1e-12);
    assert!((delta(&f, 3) - -0.3).abs() < 1e-12);
    assert_eq!(delta(&f, 7), 0.0);
}

#[test]
fn real_fraction_zeros() {
    let data = vec![0u8; 100_000];
    let f = real_fraction(&data, 3).unwrap();
    let f = f.part as f64 / f.whole as f64;
    assert!(f < 0.01, "fraction {f}");
}

#[test]
fn real_fraction_is_what_zstd_makes() {
    let data: Vec<u8> = b"a line of text that repeats, more or less; ".repeat(50);
    for level in [1, 3, 19] {
        let f = real_fraction(&data, level).unwrap();
        let out = zstd::bulk::compress(&data, level).unwrap();
        assert_eq!(f.part, out.len() as u64);
        assert_eq!(f.whole, data.len() as u64);
        assert!(f.part < f.whole);
    }
    assert!(real_fraction(&[], 3).is_none());
}

#[test]
fn fraction_of_outcomes() {
    let f = fraction_of(Ok(vec![1, 2, 3]), 10).unwrap();
    assert_eq!((f.part, f.whole), (3, 10));
    let failed = std::io::Error::new(std::io::ErrorKind::Other, "no memory");
    assert!(fraction_of(Err(failed), 10).is_none());
}

#[test]
fn points_in_any_order() {
    let f = fit(&[(12, 0.5), (5, 0.1), (8, 0.2)]);
    let levels: Vec<i32> = f.points.iter().map(|p| p.0).collect();
    assert_eq!(levels, vec![5, 8, 12]);
    assert_eq!(
        f.delta(9),
        Correction::Between((8, 0.2f64.to_bits()), (12, 0.5f64.to_bits()))
    );
    assert_eq!(f.delta(5), Correction::At(0.1f64.to_bits()));
    assert!(!f.is_identity());
    assert!(AnchorFit::identity().is_identity());
    assert_eq!(AnchorFit::identity().delta(5), Correction::Zero);
}
