use compress_estimate::stats::Histogram;

#[test]
fn histograms_count_and_merge() {
    let mut a = Histogram::default();
    a.add(&[0u8; 1024]);
    assert_eq!(a.distinct(), 1);
    let mut b = Histogram::default();
    let data: Vec<u8> = (0..=255).collect();
    b.add(&data);
    assert_eq!(b.distinct(), 256);
    // 95 printable characters and four kinds of whitespace.
    assert_eq!(b.printable_count(), 99);
    a.merge(&b);
    assert_eq!(a.total, 1280);
    assert_eq!(a.counts[0], 1025);
    assert_eq!(a.counts.iter().sum::<u64>(), a.total);
    assert_eq!(Histogram::default().distinct(), 0);
}
