//! Integer gauges: signed 64-bit levels.
use vstd::prelude::*;
use crate::collection::{Collection, MAX_METRICS};
use crate::name::{Name, identity_of};
use crate::value::{LevelKind, RawType, Value};

verus! {

/// A handle to a signed integer gauge of a [`Collection`]. Its word holds the
/// gauge in two's complement.
#[derive(Clone, Copy, Debug)]
pub struct Integer {
    index: usize,
}

impl Integer {
    /// The index of the gauge in its collection.
    pub closed spec fn index(&self) -> int {
        self.index as int
    }

    /// Registers a new integer gauge named `name`, starting at zero.
    pub fn new<N: Name>(coll: &mut Collection, name: &N) -> (r: Integer)
        requires
            old(coll).wf(),
            old(coll).len() < MAX_METRICS,
        ensures
            final(coll).wf(),
            r.index() == old(coll).len(),
            final(coll).grows_from(old(coll)),
            final(coll).identity(r.index()) == identity_of(name.labels()),
            final(coll).kind(r.index()) == RawType::Level(LevelKind::Signed),
    {
        let index = coll.register(name, RawType::Level(LevelKind::Signed));
        Integer { index }
    }

    /// Increases the gauge by `val`, wrapping around.
    pub fn incr(&self, coll: &mut Collection, val: i64)
        requires
            old(coll).wf(),
            old(coll).holds(self.index(), RawType::Level(LevelKind::Signed)),
        ensures
            final(coll).wf(),
            final(coll).same_layout(old(coll)),
            final(coll).word(self.index()) == old(coll).word(self.index()).wrapping_add(val as u64),
            final(coll).same_words_except(old(coll), self.index()),
            final(coll).is_exported() ==> final(coll).region_bytes()
                == old(coll).region_after_store(self.index(), old(coll).word(self.index()).wrapping_add(val as u64)),
    {
        let w = coll.load(self.index);
        coll.store(self.index, w.wrapping_add(val as u64));
    }

    /// Decreases the gauge by `val`, wrapping around.
    pub fn decr(&self, coll: &mut Collection, val: i64)
        requires
            old(coll).wf(),
            old(coll).holds(self.index(), RawType::Level(LevelKind::Signed)),
        ensures
            final(coll).wf(),
            final(coll).same_layout(old(coll)),
            final(coll).word(self.index()) == old(coll).word(self.index()).wrapping_sub(val as u64),
            final(coll).same_words_except(old(coll), self.index()),
            final(coll).is_exported() ==> final(coll).region_bytes()
                == old(coll).region_after_store(self.index(), old(coll).word(self.index()).wrapping_sub(val as u64)),
    {
        let w = coll.load(self.index);
        coll.store(self.index, w.wrapping_sub(val as u64));
    }

    /// Replaces the value of the gauge.
    pub fn set(&self, coll: &mut Collection, val: i64)
        requires
            old(coll).wf(),
            old(coll).holds(self.index(), RawType::Level(LevelKind::Signed)),
        ensures
            final(coll).wf(),
            final(coll).same_layout(old(coll)),
            final(coll).word(self.index()) == val as u64,
            final(coll).same_words_except(old(coll), self.index()),
            final(coll).is_exported() ==> final(coll).region_bytes()
                == old(coll).region_after_store(self.index(), val as u64),
    {
        coll.store(self.index, val as u64);
    }

    /// The current value of the gauge, wherever it lives.
    pub fn get(&self, coll: &Collection) -> (r: i64)
        requires
            coll.wf(),
            coll.holds(self.index(), RawType::Level(LevelKind::Signed)),
        ensures
            r == coll.word(self.index()) as i64,
    {
        coll.load(self.index) as i64
    }
}

impl Value for Integer {
    open spec fn kind(&self) -> RawType {
        RawType::Level(LevelKind::Signed)
    }

    fn raw_type(&self) -> (r: RawType) {
        RawType::Level(LevelKind::Signed)
    }

    fn raw_size(&self) -> (r: usize) {
        8
    }
}

} // verus!
