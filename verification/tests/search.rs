use std::cell::Cell;
use std::rc::Rc;

use hdrfix::search::Ordering;
use hdrfix::search::SCALE_ONE;
use hdrfix::search::SEARCH_TOLERANCE;
use hdrfix::search::binary_search;
use hdrfix::search::close_enough;

#[test]
fn close_enough_orders_with_tolerance() {
    assert_eq!(close_enough(5, 5), Ordering::Equal);
    assert_eq!(close_enough(0, SEARCH_TOLERANCE - 1), Ordering::Equal);
    assert_eq!(close_enough(0, SEARCH_TOLERANCE), Ordering::Less);
    assert_eq!(close_enough(SEARCH_TOLERANCE, 0), Ordering::Greater);
    assert_eq!(close_enough(SCALE_ONE, 0), Ordering::Greater);
}

#[test]
fn search_settles_within_tolerance_of_a_monotone_target() {
    // the probed quantity is the probe itself; the target sits strictly
    // inside the bracket
    let target = 700_000u32;
    let res = binary_search(0, SCALE_ONE, |x| close_enough(x, target));
    let distance = if res.mid >= target {
        res.mid - target
    } else {
        target - res.mid
    };
    assert!(res.matched);
    assert!(distance < SEARCH_TOLERANCE);
    assert!(res.lo <= res.mid && res.mid <= res.hi);
}

#[test]
fn search_collapses_upward_when_every_probe_reads_low() {
    let res = binary_search(0, SCALE_ONE, |_x| Ordering::Less);
    assert!(!res.matched);
    assert!(res.hi - res.lo < SEARCH_TOLERANCE);
    assert_eq!(res.hi, SCALE_ONE);
}

#[test]
fn search_collapses_downward_when_every_probe_reads_high() {
    let res = binary_search(0, SCALE_ONE, |_x| Ordering::Greater);
    assert!(!res.matched);
    assert!(res.hi - res.lo < SEARCH_TOLERANCE);
    assert_eq!(res.lo, 0);
}

#[test]
fn search_returns_the_midpoint_of_the_final_bracket() {
    let res = binary_search(0, SCALE_ONE, |x| close_enough(x, 123_456));
    assert_eq!(res.mid, res.lo + (res.hi - res.lo) / 2);
}

#[test]
fn search_on_a_collapsed_bracket_returns_at_once() {
    let res = binary_search(10, 10, |_x| Ordering::Less);
    assert!(!res.matched);
    assert_eq!(res.mid, 10);
}

#[test]
fn search_consults_the_comparator_on_a_wide_bracket() {
    let probes = Rc::new(Cell::new(0u32));
    let counter = probes.clone();
    let res = binary_search(0, SCALE_ONE, move |x| {
        counter.set(counter.get() + 1);
        close_enough(x, 300_000)
    });
    assert!(probes.get() >= 1);
    assert!(res.matched);
}
