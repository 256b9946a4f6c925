//! Counters: ever-increasing unsigned metrics.
use vstd::prelude::*;
use crate::collection::{Collection, MAX_METRICS};
use crate::name::{Name, identity_of};
use crate::value::{RawType, Value};

verus! {

/// A handle to an ever-increasing counter of a [`Collection`].
#[derive(Clone, Copy, Debug)]
pub struct Counter {
    index: usize,
}

impl Counter {
    /// The index of the counter in its collection.
    pub closed spec fn index(&self) -> int {
        self.index as int
    }

    /// Registers a new counter named `name`, starting at zero.
    pub fn new<N: Name>(coll: &mut Collection, name: &N) -> (r: Counter)
        requires
            old(coll).wf(),
            old(coll).len() < MAX_METRICS,
        ensures
            final(coll).wf(),
            r.index() == old(coll).len(),
            final(coll).grows_from(old(coll)),
            final(coll).identity(r.index()) == identity_of(name.labels()),
            final(coll).kind(r.index()) == RawType::Counter,
    {
        let index = coll.register(name, RawType::Counter);
        Counter { index }
    }

    /// Increases the counter by `val`, wrapping around at 2^64.
    pub fn incr(&self, coll: &mut Collection, val: u64)
        requires
            old(coll).wf(),
            old(coll).holds(self.index(), RawType::Counter),
        ensures
            final(coll).wf(),
            final(coll).same_layout(old(coll)),
            final(coll).word(self.index()) == old(coll).word(self.index()).wrapping_add(val),
            final(coll).same_words_except(old(coll), self.index()),
            final(coll).is_exported() ==> final(coll).region_bytes()
                == old(coll).region_after_store(self.index(), old(coll).word(self.index()).wrapping_add(val)),
    {
        let w = coll.load(self.index);
        coll.store(self.index, w.wrapping_add(val));
    }

    /// The current value of the counter, wherever it lives.
    pub fn get(&self, coll: &Collection) -> (r: u64)
        requires
            coll.wf(),
            coll.holds(self.index(), RawType::Counter),
        ensures
            r == coll.word(self.index()),
    {
        coll.load(self.index)
    }
}

impl Value for Counter {
    open spec fn kind(&self) -> RawType {
        RawType::Counter
    }

    fn raw_type(&self) -> (r: RawType) {
        RawType::Counter
    }

    fn raw_size(&self) -> (r: usize) {
        8
    }
}

} // verus!
