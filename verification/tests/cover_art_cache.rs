use pawse::cover_art_cache::{
    capacity_for_peak_visible, capacity_for_visible, CoverLru, LARGE_COVER_MAX_CAPACITY,
    LARGE_COVER_MIN_CAPACITY,
};

#[test]
fn capacity_always_outgrows_what_is_on_screen() {
    for visible in [
        1usize,
        12,
        24,
        50,
        84,
        220,
        400,
        LARGE_COVER_MAX_CAPACITY,
        LARGE_COVER_MAX_CAPACITY * 2,
        usize::MAX - 1,
    ] {
        let capacity = capacity_for_visible(visible);
        assert!(
            capacity > visible,
            "{visible} visible tiles would thrash against a capacity of {capacity}"
        );
    }
}

#[test]
fn capacity_stays_between_its_bounds() {
    assert_eq!(capacity_for_visible(0), LARGE_COVER_MIN_CAPACITY);
    assert_eq!(capacity_for_visible(100), LARGE_COVER_MAX_CAPACITY.min(300));
}

#[test]
fn a_measuring_pass_cannot_shrink_the_capacity() {
    let mut peak = 0;
    let scrolling = capacity_for_peak_visible(&mut peak, 30);
    let measuring = capacity_for_peak_visible(&mut peak, 1);
    assert_eq!(measuring, scrolling);
}

#[test]
fn capacity_still_grows_with_a_bigger_viewport() {
    let mut peak = 0;
    let small = capacity_for_peak_visible(&mut peak, 30);
    let large = capacity_for_peak_visible(&mut peak, 120);
    assert!(large > small);
}

#[test]
fn capacity_is_three_screens_within_bounds() {
    assert_eq!(capacity_for_visible(10), 32);
    assert_eq!(capacity_for_visible(11), 33);
    assert_eq!(capacity_for_visible(171), 512);
    assert_eq!(capacity_for_visible(600), 601);
    assert_eq!(capacity_for_visible(usize::MAX), usize::MAX);
}

fn seeded(capacity: usize, ids: &[i64]) -> CoverLru {
    let mut cache = CoverLru::with_large_capacity(capacity);
    for id in ids {
        assert!(cache.insert_large(*id, &[]).is_empty());
    }
    cache
}

#[test]
fn a_racing_insert_keeps_the_copy_views_already_hold() {
    let mut cache = seeded(4, &[7]);
    assert!(cache.insert_large(7, &[]).is_empty());
    assert_eq!(cache.entries().len(), 1);
    assert!(cache.holds_large(7));
}

#[test]
fn eviction_picks_the_least_recently_used() {
    let cache = seeded(8, &[2, 3, 1]);
    assert_eq!(cache.coldest_evictable(&[]), Some(2));
}

#[test]
fn eviction_skips_covers_a_view_still_holds() {
    let cache = seeded(8, &[2, 3, 1]);
    assert_eq!(cache.coldest_evictable(&[2]), Some(3));
}

#[test]
fn nothing_is_evicted_while_every_cover_is_in_use() {
    let mut cache = seeded(8, &[1, 2]);
    let dropped = cache.set_large_capacity(1, &[1, 2]);
    assert!(dropped.is_empty());
    assert_eq!(cache.coldest_evictable(&[1, 2]), None);
    assert_eq!(cache.entries().len(), 2);
}

#[test]
fn touching_a_cover_makes_it_the_newest() {
    let mut cache = seeded(8, &[1, 2, 3]);
    assert!(cache.touch_large(1));
    assert!(!cache.touch_large(9));
    assert_eq!(cache.coldest_evictable(&[]), Some(2));
}

#[test]
fn an_insert_over_capacity_drops_the_coldest_free_cover() {
    let mut cache = seeded(2, &[1, 2]);
    assert_eq!(cache.insert_large(3, &[1]), vec![2]);
    assert!(cache.holds_large(1) && cache.holds_large(3) && !cache.holds_large(2));
    assert_eq!(cache.set_large_capacity(0, &[]), vec![1]);
    assert_eq!(cache.capacity(), 1);
    assert_eq!(cache.clear(), vec![3]);
    assert!(cache.entries().is_empty());
}
