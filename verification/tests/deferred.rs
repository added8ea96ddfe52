use std::cell::Cell;
use std::rc::Rc;

use hdrfix::deferred::Lazy;
use hdrfix::deferred::ResolvedLevel;
use hdrfix::histogram::Histogram;
use hdrfix::histogram::PERCENT_SCALE;
use hdrfix::levels::Level;

#[test]
fn force_builds_exactly_once() {
    let builds = Rc::new(Cell::new(0u32));
    let counter = builds.clone();
    let mut lazy = Lazy::new(move || {
        counter.set(counter.get() + 1);
        Histogram::new(&vec![3, 1, 2])
    });
    assert_eq!(builds.get(), 0);
    lazy.force();
    assert_eq!(builds.get(), 1);
    lazy.force();
    lazy.force();
    assert_eq!(builds.get(), 1);
}

#[test]
fn scalar_levels_never_build_the_histogram() {
    let builds = Rc::new(Cell::new(0u32));
    let counter = builds.clone();
    let mut lazy = Lazy::new(move || {
        counter.set(counter.get() + 1);
        Histogram::new(&vec![5])
    });
    let lo = lazy.level(Level::Scalar(0));
    let hi = lazy.level(Level::Scalar(1_000_000));
    assert_eq!(lo, ResolvedLevel::Absolute(0));
    assert_eq!(hi, ResolvedLevel::Absolute(1_000_000));
    assert_eq!(builds.get(), 0);
}

#[test]
fn percentile_levels_build_once_and_query() {
    let builds = Rc::new(Cell::new(0u32));
    let counter = builds.clone();
    let samples: Vec<u32> = vec![10, 20, 30, 40, 50, 60, 70, 80, 90, 100];
    let mut lazy = Lazy::new(move || {
        counter.set(counter.get() + 1);
        Histogram::new(&samples)
    });
    let lo = lazy.level(Level::Percentile(10 * PERCENT_SCALE as i64));
    let hi = lazy.level(Level::Percentile(90 * PERCENT_SCALE as i64));
    assert_eq!(lo, ResolvedLevel::Luma(10));
    assert_eq!(hi, ResolvedLevel::Luma(90));
    assert_eq!(builds.get(), 1);
}

#[test]
fn mixed_levels_build_only_for_the_percentile() {
    let builds = Rc::new(Cell::new(0u32));
    let counter = builds.clone();
    let mut lazy = Lazy::new(move || {
        counter.set(counter.get() + 1);
        Histogram::new(&vec![4, 8])
    });
    assert_eq!(lazy.level(Level::Scalar(250_000)), ResolvedLevel::Absolute(250_000));
    assert_eq!(builds.get(), 0);
    assert_eq!(
        lazy.level(Level::Percentile(100 * PERCENT_SCALE as i64)),
        ResolvedLevel::Luma(8)
    );
    assert_eq!(builds.get(), 1);
}
