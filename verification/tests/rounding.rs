use subwash::rounding::gib_hundredths;
use subwash::rounding::percent_of;

fn share(used: u64, total: u64) -> u64 {
    format!("{:.0}", (used as f64 / total as f64 * 100.0).clamp(0.0, 999.0)).parse().unwrap()
}

fn hundredths(bytes: u64) -> u64 {
    format!("{:.2}", bytes as f64 / 1073741824.0).replace('.', "").parse().unwrap()
}

#[test]
fn small_shares_agree_with_floating_point() {
    for total in 1..400u64 {
        for used in 0..800u64 {
            assert_eq!(percent_of(used, total), share(used, total));
        }
    }
}

#[test]
fn shares_in_the_middle_go_to_the_even_side() {
    assert_eq!(percent_of(1, 200), 0);
    assert_eq!(percent_of(3, 200), 2);
    assert_eq!(percent_of(5, 200), 2);
    assert_eq!(percent_of(1, 8), 12);
    assert_eq!(percent_of(3, 8), 38);
}

#[test]
fn large_shares_stop_short_of_a_thousand() {
    assert_eq!(percent_of(10, 1), 999);
    assert_eq!(percent_of(u64::MAX, 1), 999);
    assert_eq!(percent_of(9985, 1000), share(9985, 1000));
    assert_eq!(percent_of(9994, 1000), 999);
    assert_eq!(percent_of(9996, 1000), 999);
    assert_eq!(percent_of(u64::MAX, u64::MAX), 100);
    assert_eq!(percent_of(0, u64::MAX), 0);
    assert_eq!(percent_of(1, u64::MAX), 0);
}

#[test]
fn sizes_near_powers_of_two_agree_with_floating_point() {
    for power in 0..64u32 {
        let middle = 1u64 << power;
        for step in 0..300u64 {
            for bytes in [middle.saturating_add(step), middle.saturating_sub(step)] {
                assert_eq!(gib_hundredths(bytes), hundredths(bytes));
            }
        }
    }
    assert_eq!(gib_hundredths(u64::MAX), hundredths(u64::MAX));
}

#[test]
fn shares_near_powers_of_two_agree_with_floating_point() {
    for high in 0..64u32 {
        for low in 0..64u32 {
            for step in 0..6u64 {
                let used = (1u64 << high).wrapping_sub(step);
                let total = (1u64 << low).saturating_add(step * 3);
                assert_eq!(percent_of(used, total), share(used, total));
            }
        }
    }
}
