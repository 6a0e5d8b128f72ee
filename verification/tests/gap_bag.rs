use typey_birb::luck::{NextGapBag, NextGapKind};

fn count_kind(kinds: &[NextGapKind], k: NextGapKind) -> usize {
    kinds.iter().filter(|x| **x == k).count()
}

fn assert_balanced(kinds: &[NextGapKind]) {
    assert_eq!(kinds.len(), 8);
    assert_eq!(count_kind(kinds, NextGapKind::VerySmall), 1);
    assert_eq!(count_kind(kinds, NextGapKind::Small), 2);
    assert_eq!(count_kind(kinds, NextGapKind::Medium), 2);
    assert_eq!(count_kind(kinds, NextGapKind::Large), 2);
    assert_eq!(count_kind(kinds, NextGapKind::VeryLarge), 1);
}

#[test]
fn bag_balance_fresh() {
    let bag = NextGapBag::new(500, 4700, 3000);
    assert_balanced(bag.kinds());
    assert_eq!(bag.drawn(), 0);
}

#[test]
fn bag_balance_across_cycles() {
    let mut bag = NextGapBag::new(500, 4700, 3000);
    for expected in 1..=8 {
        bag.next();
        assert_eq!(bag.drawn(), expected);
        // the bag itself never changes mid-cycle
        assert_balanced(bag.kinds());
    }
    // the ninth draw reshuffles and starts a new cycle
    bag.next();
    assert_eq!(bag.drawn(), 1);
    assert_balanced(bag.kinds());
}

#[test]
fn no_early_extreme() {
    for _ in 0..50 {
        let bag = NextGapBag::new(0, 1000, 500);
        let kinds = bag.kinds();
        assert!(!matches!(kinds[0], NextGapKind::Large | NextGapKind::VeryLarge));
        assert!(!matches!(kinds[1], NextGapKind::Large | NextGapKind::VeryLarge));
    }
}

#[test]
fn range_containment() {
    let mut bag = NextGapBag::new(500, 4700, 3000);
    for _ in 0..200 {
        let v = bag.next();
        assert!((500..=4700).contains(&v));
    }
}

#[test]
fn range_containment_narrow() {
    let mut bag = NextGapBag::new(10, 12, 11);
    for _ in 0..100 {
        let v = bag.next();
        assert!((10..=12).contains(&v));
    }
}

#[test]
fn degenerate_range_is_constant() {
    let mut bag = NextGapBag::new(7, 7, 7);
    for _ in 0..20 {
        assert_eq!(bag.next(), 7);
    }
}

#[test]
fn tier_fractions() {
    assert_eq!(NextGapKind::VerySmall.to_range(), (1, 2));
    assert_eq!(NextGapKind::Small.to_range(), (2, 3));
    assert_eq!(NextGapKind::Medium.to_range(), (3, 4));
    assert_eq!(NextGapKind::Large.to_range(), (4, 6));
    assert_eq!(NextGapKind::VeryLarge.to_range(), (6, 10));
}

#[test]
fn bag_order_is_shuffled() {
    // If shuffling handed its input back unchanged, every bag would keep the
    // fixed build order; ten independent bags all doing so is implausible.
    let fresh = [
        NextGapKind::VerySmall,
        NextGapKind::Small,
        NextGapKind::Small,
        NextGapKind::Medium,
        NextGapKind::Medium,
        NextGapKind::Large,
        NextGapKind::Large,
        NextGapKind::VeryLarge,
    ];
    let mut any_different = false;
    for _ in 0..10 {
        let bag = NextGapBag::new(0, 1000, 500);
        if bag.kinds().as_slice() != &fresh[..] {
            any_different = true;
        }
    }
    assert!(any_different);
}

#[test]
fn first_draw_steps_from_seed() {
    // From the middle of a wide range, the first draw must move at least one
    // tenth of the span away from the seed and stay within the range.
    for _ in 0..20 {
        let mut bag = NextGapBag::new(0, 10000, 5000);
        let v = bag.next();
        let dist = v.abs_diff(5000);
        assert!(dist >= 1000, "step of {dist} is below the smallest tier");
        assert!(v <= 10000);
    }
}
