use compress_estimate::backends::zstd::levels::{
    family_of, params_for, Family, Strategy, MAX_LEVEL, MIN_LEVEL,
};

#[test]
fn level_params_sane() {
    for l in MIN_LEVEL..=MAX_LEVEL {
        let p = params_for(l);
        assert!(p.window_log >= 10 && p.window_log <= 27);
    }
}

#[test]
fn depth_tiers_monotonic_in_family() {
    // Within the lazy2 family, higher level never means shallower search.
    let mut prev = 0;
    for level in 8..=12 {
        let t = params_for(level).depth_tier();
        assert!(t >= prev);
        prev = t;
    }
}

#[test]
fn depth_tier_values() {
    assert_eq!(params_for(1).depth_tier(), 0);
    assert_eq!(params_for(5).depth_tier(), 3);
    assert_eq!(params_for(10).depth_tier(), 5);
    assert_eq!(params_for(22).depth_tier(), 6);
}

#[test]
fn levels_out_of_range_are_clamped() {
    assert_eq!(params_for(-7).window_log, params_for(1).window_log);
    assert_eq!(params_for(99).window_log, 27);
    assert_eq!(params_for(99).strategy, Strategy::Btultra2);
}

#[test]
fn families_of_levels() {
    let families: Vec<Family> = [1, 2, 3, 4, 5, 12, 13, 15, 16, 22]
        .iter()
        .map(|&l| family_of(l))
        .collect();
    assert_eq!(
        families,
        vec![
            Family::Fast,
            Family::Fast,
            Family::Dfast,
            Family::Dfast,
            Family::Lazy,
            Family::Lazy,
            Family::Btlazy2,
            Family::Btlazy2,
            Family::Bt,
            Family::Bt,
        ]
    );
}

#[test]
fn lazy_depths() {
    assert_eq!(Strategy::Greedy.lazy_depth(), 0);
    assert_eq!(Strategy::Lazy.lazy_depth(), 1);
    assert_eq!(Strategy::Btultra2.lazy_depth(), 2);
}
