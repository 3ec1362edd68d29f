use gameoflife::universe::morton::interleave_with_zeros;
use gameoflife::universe::morton::morton2;
use gameoflife::universe::morton::unravel;
use gameoflife::universe::morton::unravel_point;
use gameoflife::universe::morton::MortonCache;
use gameoflife::universe::morton::MortonSpace;

#[test]
fn interleave_spreads_bits() {
    assert_eq!(interleave_with_zeros(0), 0);
    assert_eq!(interleave_with_zeros(1), 1);
    assert_eq!(interleave_with_zeros(5), 17);
    assert_eq!(interleave_with_zeros(0b1111), 0b0101_0101);
    assert_eq!(interleave_with_zeros(0xffff), 0x5555_5555);
}

#[test]
fn interleave_largest_coordinate() {
    assert_eq!(interleave_with_zeros(0xffff_ffff), 0x5555_5555_5555_5555);
}

#[test]
fn unravel_gathers_even_bits() {
    assert_eq!(unravel(0), 0);
    assert_eq!(unravel(9), 1);
    assert_eq!(unravel(17), 5);
    assert_eq!(unravel(0b1010), 0);
    assert_eq!(unravel(usize::MAX), 0xffff_ffff);
}

#[test]
fn morton_known_values() {
    assert_eq!(morton2(0, 0), 0);
    assert_eq!(morton2(1, 0), 1);
    assert_eq!(morton2(0, 1), 2);
    assert_eq!(morton2(1, 1), 3);
    assert_eq!(morton2(1, 2), 9);
    assert_eq!(morton2(2, 1), 6);
    assert_eq!(morton2(7, 7), 63);
    assert_eq!(morton2(15, 0), 0b0101_0101);
}

#[test]
fn morton_round_trip() {
    for x in 0..40 {
        for y in 0..40 {
            assert_eq!(unravel_point(morton2(x, y)), (x, y));
        }
    }
    for i in 0..4096 {
        let (x, y) = unravel_point(i);
        assert_eq!(morton2(x, y), i);
    }
}

#[test]
fn morton_covers_a_block_exactly() {
    let mut seen = vec![false; 256];
    for x in 0..16 {
        for y in 0..16 {
            let i = morton2(x, y);
            assert!(i < 256);
            assert!(!seen[i]);
            seen[i] = true;
        }
    }
}

#[test]
fn morton_space_caches() {
    let mut space = MortonSpace::new(16, 16);
    assert!(!space.valid(3, 5));
    assert_eq!(space.morton2(3, 5), morton2(3, 5));
    assert!(!space.valid(3, 5));
    assert_eq!(space.morton2_cache(3, 5), morton2(3, 5));
    assert!(space.valid(3, 5));
    assert_eq!(space.morton2_cache(3, 5), morton2(3, 5));
    assert_eq!(space.morton2(3, 5), morton2(3, 5));
    assert_eq!(space.morton2_cache(15, 15), 255);
}

#[test]
fn morton_cache_starts_empty() {
    let cache = MortonCache::default();
    assert!(cache.map.is_empty());
}
