use vstd::prelude::*;
use crate::histogram::Histogram;
use crate::histogram::PERCENT_MAX;
use crate::levels::Level;

verus! {

/// A single-computation cache: the wrapped builder runs at most once,
/// the first time the value is demanded, and not at all if it never is.
#[verifier::reject_recursive_types(T)]
pub struct Lazy<T, F> where F: FnOnce() -> T {
    pub value: Option<T>,
    pub func: Option<F>,
}

impl<T, F> Lazy<T, F> where F: FnOnce() -> T {
    /// The value can still be demanded: it is cached already, or the
    /// builder is still available.
    pub open spec fn primed(self) -> bool {
        self.value is Some || self.func is Some
    }

    /// Demanding the value now would run the builder.
    pub open spec fn demands_build(self) -> bool {
        self.value is None
    }

    /// What one demand guarantees about the state change: afterwards the
    /// value exists, and a demand that found a cached value changed
    /// nothing at all.
    pub open spec fn forced_from(self, pre: Self) -> bool {
        &&& self.value is Some
        &&& (pre.value is Some ==> self == pre)
        &&& (pre.value is None ==> self.func is None)
    }

    /// Wraps a builder; nothing is computed yet.
    pub fn new(func: F) -> (r: Self)
        ensures
            r.value is None,
            r.func == Some(func),
            r.primed(),
    {
        Lazy { value: None, func: Some(func) }
    }

    /// Demands the value: the first demand runs the builder and caches
    /// its result, any later demand reuses the cache untouched.
    pub fn force(&mut self)
        requires
            old(self).primed(),
            old(self).value is None ==> call_requires(old(self).func->Some_0, ()),
        ensures
            final(self).forced_from(*old(self)),
            old(self).value is None ==> call_ensures(
                old(self).func->Some_0,
                (),
                final(self).value->Some_0,
            ),
    {
        if self.value.is_none() {
            let func = self.func.take().unwrap();
            let v = func();
            self.value = Some(v);
        }
    }

    /// The builder runs at most once over any chain of demands: after
    /// the first demand the value exists, so no later demand builds.
    pub proof fn lemma_builds_at_most_once(s0: Self, s1: Self, s2: Self)
        requires
            s1.forced_from(s0),
            s2.forced_from(s1),
        ensures
            !s1.demands_build(),
            s2.value == s1.value,
    {
    }
}

/// A level resolved to a concrete quantity: either the absolute value it
/// was configured with, or the luminance key its percentile rank selected
/// from the histogram.
#[derive(Clone, Copy, Debug, PartialEq, Eq, Structural)]
pub enum ResolvedLevel {
    /// Micro-units, as configured.
    Absolute(i64),
    /// A luminance key drawn from the histogram.
    Luma(u32),
}

impl<F> Lazy<Histogram, F> where F: FnOnce() -> Histogram {
    /// Resolves a level against the deferred histogram.  An absolute
    /// level is returned as it stands and leaves the cache untouched —
    /// the histogram is never built for it.  A percentile level demands
    /// the histogram — on a cold cache the one the builder computes —
    /// and queries it.
    pub fn level(&mut self, level: Level) -> (r: ResolvedLevel)
        requires
            old(self).primed(),
            old(self).value is Some ==> old(self).value->Some_0.wf(),
            old(self).func is Some ==> call_requires(old(self).func->Some_0, ()),
            old(self).func is Some ==> (forall|h: Histogram|
                call_ensures(old(self).func->Some_0, (), h) ==> h.wf()),
            level matches Level::Percentile(p) ==> 0 <= p <= PERCENT_MAX,
        ensures
            match level {
                Level::Scalar(v) => r == ResolvedLevel::Absolute(v) && *final(self) == *old(self),
                Level::Percentile(p) => {
                    &&& final(self).forced_from(*old(self))
                    &&& old(self).value is None ==> call_ensures(
                        old(self).func->Some_0,
                        (),
                        final(self).value->Some_0,
                    )
                    &&& final(self).value->Some_0.wf()
                    &&& r == ResolvedLevel::Luma(final(self).value->Some_0.spec_percentile(p as int))
                },
            },
    {
        match level {
            Level::Scalar(val) => ResolvedLevel::Absolute(val),
            Level::Percentile(val) => {
                self.force();
                match &self.value {
                    Option::Some(h) => ResolvedLevel::Luma(h.percentile(val as u64)),
                    Option::None => {
                        // force always leaves a value behind
                        proof {
                            assert(false);
                        }
                        ResolvedLevel::Absolute(0)
                    },
                }
            },
        }
    }
}

} // verus!
