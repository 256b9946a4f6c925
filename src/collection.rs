//! The registry of exported values and their redirection between a private
//! slot and a slot of the shared region.
use vstd::prelude::*;
use memmap2::MmapMut;
use crate::name::{Name, identity_of, is_identity_text, identity};
use crate::region::{mapped_bytes, word_at, with_word, lemma_with_word, read_word, write_word, region_len, SLOT_SIZE};
use crate::value::RawType;

verus! {

/// The most metrics one collection holds: keeps the region size within a
/// 32-bit `usize`.
pub const MAX_METRICS: usize = 0x1000_0000;

/// Where the reads and writes of a value currently land.
#[derive(Clone, Copy, Debug, PartialEq, Eq, Structural)]
pub enum Target {
    /// The value's own private slot.
    Local,
    /// The slot at this byte offset of the shared region.
    Mapped(usize),
}

/// One exported cell: its type, its private slot and its current target.
#[derive(Clone, Copy, Debug)]
pub struct Slot {
    raw_type: RawType,
    local: u64,
    target: Target,
}

/// A set of metrics, each with a canonical identity, in registration order,
/// and the shared region they are exported to, if any.
pub struct Collection {
    identities: Vec<Vec<u8>>,
    values: Vec<Slot>,
    region: Option<MmapMut>,
}

/// Two slots of the region that share no byte.
pub open spec fn disjoint(a: int, b: int) -> bool {
    a + 8 <= b || b + 8 <= a
}

impl Collection {
    /// Number of metrics.
    pub closed spec fn len(&self) -> nat {
        self.values@.len()
    }

    /// Canonical identity of metric `i`.
    pub closed spec fn identity(&self, i: int) -> Seq<u8> {
        self.identities@[i]@
    }

    /// Type of metric `i`.
    pub closed spec fn kind(&self, i: int) -> RawType {
        self.values@[i].raw_type
    }

    /// Where metric `i` currently reads and writes.
    pub closed spec fn target(&self, i: int) -> Target {
        self.values@[i].target
    }

    /// Whether a shared region is attached.
    pub closed spec fn is_exported(&self) -> bool {
        self.region.is_some()
    }

    /// The bytes of the attached region.
    pub closed spec fn region_bytes(&self) -> Seq<u8> {
        mapped_bytes(self.region.unwrap())
    }

    /// The 64-bit word that metric `i` currently holds, wherever it lives.
    pub closed spec fn word(&self, i: int) -> u64 {
        match self.values@[i].target {
            Target::Local => self.values@[i].local,
            Target::Mapped(off) => word_at(mapped_bytes(self.region.unwrap()), off as int),
        }
    }

    /// Well-formedness: one identity per value, a bounded count, and every
    /// mapped target a slot inside the region that no other value shares.
    pub closed spec fn wf(&self) -> bool {
        &&& self.identities@.len() == self.values@.len()
        &&& self.len() <= MAX_METRICS
        &&& self.is_exported() ==> self.region_bytes().len() <= usize::MAX
        &&& forall|i: int| 0 <= i < self.len() ==> is_identity_text(#[trigger] self.identity(i))
        &&& forall|i: int|
            0 <= i < self.len() ==> match #[trigger] self.target(i) {
                Target::Local => true,
                Target::Mapped(off) => self.is_exported() && off + 8 <= self.region_bytes().len(),
            }
        &&& forall|i: int, j: int|
            0 <= i < self.len() && 0 <= j < self.len() && i != j ==> match (
                #[trigger] self.target(i),
                #[trigger] self.target(j),
            ) {
                (Target::Mapped(a), Target::Mapped(b)) => disjoint(a as int, b as int),
                _ => true,
            }
    }

    /// `self` and `other` hold the same metrics, with the same targets.
    pub open spec fn same_layout(&self, other: &Collection) -> bool {
        &&& self.len() == other.len()
        &&& self.is_exported() == other.is_exported()
        &&& self.is_exported() ==> self.region_bytes().len() == other.region_bytes().len()
        &&& forall|i: int| 0 <= i < self.len() ==> #[trigger] self.identity(i) == other.identity(i)
        &&& forall|i: int| 0 <= i < self.len() ==> #[trigger] self.kind(i) == other.kind(i)
        &&& forall|i: int| 0 <= i < self.len() ==> #[trigger] self.target(i) == other.target(i)
    }

    /// `self` and `other` hold the same identities and types.
    pub open spec fn same_metrics(&self, other: &Collection) -> bool {
        &&& self.len() == other.len()
        &&& forall|i: int| 0 <= i < self.len() ==> #[trigger] self.identity(i) == other.identity(i)
        &&& forall|i: int| 0 <= i < self.len() ==> #[trigger] self.kind(i) == other.kind(i)
    }

    /// The identities of all metrics, in order.
    pub open spec fn ids(&self) -> Seq<Seq<u8>> {
        Seq::new(self.len(), |i: int| self.identity(i))
    }

    /// The types of all metrics, in order.
    pub open spec fn kinds(&self) -> Seq<RawType> {
        Seq::new(self.len(), |i: int| self.kind(i))
    }

    /// Metric `i` exists and has type `t`.
    pub open spec fn holds(&self, i: int, t: RawType) -> bool {
        0 <= i < self.len() && self.kind(i) == t
    }

    /// `self` is `prev` with one more metric at the end, which lives in its
    /// private slot and holds zero; nothing else changed.
    pub open spec fn grows_from(&self, prev: &Collection) -> bool {
        &&& self.len() == prev.len() + 1
        &&& self.target(prev.len() as int) == Target::Local
        &&& self.word(prev.len() as int) == 0
        &&& self.is_exported() == prev.is_exported()
        &&& self.is_exported() ==> self.region_bytes() == prev.region_bytes()
        &&& forall|i: int| 0 <= i < prev.len() ==> #[trigger] self.identity(i) == prev.identity(i)
        &&& forall|i: int| 0 <= i < prev.len() ==> #[trigger] self.kind(i) == prev.kind(i)
        &&& forall|i: int| 0 <= i < prev.len() ==> #[trigger] self.target(i) == prev.target(i)
        &&& forall|i: int| 0 <= i < prev.len() ==> #[trigger] self.word(i) == prev.word(i)
    }

    /// `self` and `other` hold the same metrics at the same places with the
    /// same words.
    pub open spec fn same_state(&self, other: &Collection) -> bool {
        &&& self.same_layout(other)
        &&& forall|i: int| 0 <= i < self.len() ==> #[trigger] self.word(i) == other.word(i)
    }

    /// The region after storing `w` as the word of metric `i`: its slot holds
    /// `w` and no other byte changes; a local metric leaves the region as it is.
    pub open spec fn region_after_store(&self, i: int, w: u64) -> Seq<u8> {
        match self.target(i) {
            Target::Mapped(off) => with_word(self.region_bytes(), off as int, w),
            Target::Local => self.region_bytes(),
        }
    }

    /// Every word but the one of metric `k` is the same in `self` and `other`.
    pub open spec fn same_words_except(&self, other: &Collection, k: int) -> bool {
        forall|i: int| 0 <= i < self.len() && i != k ==> #[trigger] self.word(i) == other.word(i)
    }

    /// An empty collection that exports nothing.
    pub fn new() -> (r: Collection)
        ensures
            r.wf(),
            r.len() == 0,
            !r.is_exported(),
    {
        Collection { identities: Vec::new(), values: Vec::new(), region: None }
    }

    /// A well-formed collection holds at most [`MAX_METRICS`] metrics, each
    /// named by a canonical identity.
    pub proof fn lemma_len_bound(&self)
        requires
            self.wf(),
        ensures
            self.len() <= MAX_METRICS,
            forall|i: int| 0 <= i < self.len() ==> is_identity_text(#[trigger] self.identity(i)),
    {
    }

    /// A collection that exports nothing keeps every metric in its private
    /// slot.
    pub proof fn lemma_unexported_is_local(&self)
        requires
            self.wf(),
            !self.is_exported(),
        ensures
            forall|i: int| 0 <= i < self.len() ==> #[trigger] self.target(i) == Target::Local,
    {
        assert forall|i: int| 0 <= i < self.len() implies #[trigger] self.target(i) == Target::Local by {
            match self.target(i) {
                Target::Local => {},
                Target::Mapped(_) => {},
            }
        }
    }

    /// Number of metrics.
    pub fn count(&self) -> (r: usize)
        ensures
            r == self.len(),
    {
        self.values.len()
    }

    /// Whether a shared region is attached.
    pub fn exported(&self) -> (r: bool)
        ensures
            r == self.is_exported(),
    {
        self.region.is_some()
    }

    /// Adds a metric of type `raw_type` named `name`, with value zero in its
    /// private slot, and returns its index.
    pub fn register<N: Name>(&mut self, name: &N, raw_type: RawType) -> (r: usize)
        requires
            old(self).wf(),
            old(self).len() < MAX_METRICS,
        ensures
            final(self).wf(),
            r == old(self).len(),
            final(self).grows_from(old(self)),
            final(self).identity(r as int) == identity_of(name.labels()),
            final(self).kind(r as int) == raw_type,
    {
        let id = identity(name);
        let r = self.values.len();
        self.identities.push(id);
        self.values.push(Slot { raw_type, local: 0, target: Target::Local });
        proof {
            assert(self.identity(r as int) == id@);
            assert forall|i: int, j: int|
                0 <= i < self.len() && 0 <= j < self.len() && i != j implies match (
                    #[trigger] self.target(i),
                    #[trigger] self.target(j),
                ) {
                    (Target::Mapped(a), Target::Mapped(b)) => disjoint(a as int, b as int),
                    _ => true,
                } by {
                if i < r && j < r {
                    assert(self.target(i) == old(self).target(i));
                    assert(self.target(j) == old(self).target(j));
                }
            }
            assert forall|i: int| 0 <= i < self.len() implies is_identity_text(
                #[trigger] self.identity(i),
            ) by {
                if i < r {
                    assert(self.identity(i) == old(self).identity(i));
                }
            }
            assert forall|i: int| 0 <= i < self.len() implies match #[trigger] self.target(i) {
                Target::Local => true,
                Target::Mapped(off) => self.is_exported() && off + 8 <= self.region_bytes().len(),
            } by {
                if i < r {
                    assert(self.target(i) == old(self).target(i));
                }
            }
            assert forall|i: int| 0 <= i < old(self).len() implies {
                &&& #[trigger] self.identity(i) == old(self).identity(i)
                &&& self.kind(i) == old(self).kind(i)
                &&& self.target(i) == old(self).target(i)
                &&& self.word(i) == old(self).word(i)
            } by {
                assert(self.values@[i] == old(self).values@[i]);
            }
        }
        r
    }

    /// The identity of metric `i`.
    pub fn identity_at(&self, i: usize) -> (r: &Vec<u8>)
        requires
            self.wf(),
            i < self.len(),
        ensures
            r@ == self.identity(i as int),
    {
        &self.identities[i]
    }

    /// The type of metric `i`.
    pub fn kind_at(&self, i: usize) -> (r: RawType)
        requires
            i < self.len(),
        ensures
            r == self.kind(i as int),
    {
        self.values[i].raw_type
    }

    /// Where metric `i` currently reads and writes.
    pub fn target_at(&self, i: usize) -> (r: Target)
        requires
            i < self.len(),
        ensures
            r == self.target(i as int),
    {
        self.values[i].target
    }

    /// The word that metric `i` currently holds.
    pub fn load(&self, i: usize) -> (r: u64)
        requires
            self.wf(),
            i < self.len(),
        ensures
            r == self.word(i as int),
    {
        match self.values[i].target {
            Target::Local => self.values[i].local,
            Target::Mapped(off) => {
                assert(self.target(i as int) == Target::Mapped(off));
                match &self.region {
                    Some(m) => read_word(m, off),
                    None => 0,
                }
            },
        }
    }

    /// Stores `w` as the word of metric `i`, wherever it currently lives.
    pub fn store(&mut self, i: usize, w: u64)
        requires
            old(self).wf(),
            i < old(self).len(),
        ensures
            final(self).wf(),
            final(self).same_layout(old(self)),
            final(self).word(i as int) == w,
            final(self).same_words_except(old(self), i as int),
            final(self).is_exported() ==> final(self).region_bytes() == old(self).region_after_store(
                i as int,
                w,
            ),
    {
        match self.values[i].target {
            Target::Local => {
                self.values[i].local = w;
                assert forall|k: int| 0 <= k < self.len() implies #[trigger] self.identity(k)
                    == old(self).identity(k) by {}
                assert forall|k: int| 0 <= k < self.len() implies #[trigger] self.target(k)
                    == old(self).target(k) by {}
                assert forall|k: int|
                    0 <= k < self.len() && k != i implies #[trigger] self.word(k) == old(self).word(
                        k,
                    ) by {
                    assert(self.values@[k] == old(self).values@[k]);
                }
            },
            Target::Mapped(off) => {
                assert(old(self).target(i as int) == Target::Mapped(off));
                let ghost before = mapped_bytes(self.region.unwrap());
                match &mut self.region {
                    Some(m) => write_word(m, off, w),
                    None => {},
                }
                proof {
                    lemma_with_word(before, off as int, w);
                    assert forall|k: int| 0 <= k < self.len() implies #[trigger] self.identity(k)
                        == old(self).identity(k) by {}
                    assert forall|k: int| 0 <= k < self.len() implies #[trigger] self.target(k)
                        == old(self).target(k) by {}
                    assert forall|k: int|
                        0 <= k < self.len() && k != i implies #[trigger] self.word(k)
                        == old(self).word(k) by {
                        assert(self.target(k) == old(self).target(k));
                        assert(self.target(i as int) == old(self).target(i as int));
                    }
                    }
            },
        }
    }

    fn set_value(&mut self, j: usize, v: Slot)
        requires
            j < old(self).values@.len(),
        ensures
            final(self).values@ == old(self).values@.update(j as int, v),
            final(self).identities@ == old(self).identities@,
            final(self).region == old(self).region,
    {
        self.values.set(j, v);
    }

    /// Redirects every metric to its slot `offsets[i]` of `region`, which
    /// becomes the attached region, without copying: each metric takes the
    /// word that its slot holds.
    pub(crate) fn adopt(&mut self, region: MmapMut, offsets: &Vec<usize>)
        requires
            old(self).wf(),
            offsets@.len() == old(self).len(),
            mapped_bytes(region).len() <= usize::MAX,
            forall|j: int| 0 <= j < offsets@.len() ==> #[trigger] offsets@[j] + 8 <= mapped_bytes(region).len(),
            forall|a: int, b: int|
                0 <= a < offsets@.len() && 0 <= b < offsets@.len() && a != b ==> disjoint(
                    #[trigger] offsets@[a] as int,
                    #[trigger] offsets@[b] as int,
                ),
        ensures
            final(self).wf(),
            final(self).same_metrics(old(self)),
            final(self).is_exported(),
            final(self).region_bytes() == mapped_bytes(region),
            forall|i: int|
                0 <= i < old(self).len() ==> #[trigger] final(self).target(i) == Target::Mapped(offsets@[i]),
            forall|i: int|
                0 <= i < old(self).len() ==> #[trigger] final(self).word(i) == word_at(mapped_bytes(region), offsets@[i] as int),
    {
        self.region = Some(region);
        let n = self.values.len();
        let mut j: usize = 0;
        while j < n
            invariant
                j <= n == self.values@.len() == old(self).len(),
                offsets@.len() == n,
                self.identities@ == old(self).identities@,
                self.region == Some(region),
                forall|i: int| 0 <= i < n ==> #[trigger] self.kind(i) == old(self).kind(i),
                forall|i: int| 0 <= i < j ==> #[trigger] self.target(i) == Target::Mapped(offsets@[i]),
            decreases n - j,
        {
            let v = Slot { raw_type: self.values[j].raw_type, local: self.values[j].local, target: Target::Mapped(offsets[j]) };
            let ghost prev = *self;
            self.set_value(j, v);
            assert forall|i: int| 0 <= i < n implies #[trigger] self.kind(i) == old(self).kind(i) by {
                assert(self.kind(i) == prev.kind(i));
            }
            assert forall|i: int| 0 <= i <= j implies #[trigger] self.target(i) == Target::Mapped(offsets@[i]) by {
                if i < j {
                    assert(self.target(i) == prev.target(i));
                }
            }
            j = j + 1;
        }
        proof {
            assert forall|i: int| 0 <= i < self.len() implies #[trigger] self.identity(i)
                == old(self).identity(i) by {}
            assert forall|i: int| 0 <= i < self.len() implies #[trigger] self.word(i)
                == word_at(mapped_bytes(region), offsets@[i] as int) by {
                assert(self.target(i) == Target::Mapped(offsets@[i]));
            }
        }
    }

    /// Copies the word of every metric `i` into the slot at `8 * i` of
    /// `region`, then redirects the metric there and attaches `region`:
    /// every metric keeps its word and now lives in the shared region.
    /// Returns `false`, and changes nothing, if `region` is too small to hold
    /// every slot.
    pub fn attach(&mut self, region: MmapMut) -> (r: bool)
        requires
            old(self).wf(),
        ensures
            final(self).wf(),
            final(self).same_metrics(old(self)),
            r == (8 * old(self).len() <= mapped_bytes(region).len()),
            !r ==> final(self).same_state(old(self)) && final(self).is_exported() == old(self).is_exported()
                && (final(self).is_exported() ==> final(self).region_bytes() == old(self).region_bytes()),
            r ==> final(self).is_exported(),
            r ==> final(self).region_bytes().len() == mapped_bytes(region).len(),
            r ==> forall|i: int|
                0 <= i < old(self).len() ==> #[trigger] final(self).target(i) == Target::Mapped(
                    (8 * i) as usize,
                ),
            r ==> forall|i: int|
                0 <= i < old(self).len() ==> #[trigger] final(self).word(i) == old(self).word(i),
            r ==> forall|i: int|
                0 <= i < old(self).len() ==> word_at(final(self).region_bytes(), 8 * i) == #[trigger] old(self).word(i),
    {
        proof {
            self.lemma_len_bound();
        }
        let size = region_len(&region);
        if self.values.len() > size / SLOT_SIZE {
            return false;
        }
        let mut region = region;
        let ghost size = mapped_bytes(region).len();
        let n = self.values.len();
        let mut offsets: Vec<usize> = Vec::new();
        let mut j: usize = 0;
        while j < n
            invariant
                j <= n == self.len(),
                self.wf(),
                8 * n <= mapped_bytes(region).len() <= usize::MAX,
                mapped_bytes(region).len() == size,
                offsets@.len() == j,
                forall|i: int| 0 <= i < j ==> #[trigger] offsets@[i] == 8 * i,
                forall|i: int| 0 <= i < j ==> word_at(mapped_bytes(region), 8 * i) == #[trigger] self.word(i),
            decreases n - j,
        {
            let w = self.load(j);
            let ghost before = mapped_bytes(region);
            write_word(&mut region, j * SLOT_SIZE, w);
            proof {
                lemma_with_word(before, 8 * j, w);
                assert forall|i: int| 0 <= i < j implies word_at(mapped_bytes(region), 8 * i)
                    == #[trigger] self.word(i) by {
                    assert(word_at(mapped_bytes(region), 8 * i) == word_at(before, 8 * i));
                }
            }
            offsets.push(j * SLOT_SIZE);
            j = j + 1;
        }
        self.adopt(region, &offsets);
        true
    }

    /// Redirects every metric back to its private slot, carrying over the
    /// word it holds, and hands back the region it detached from, if any.
    pub fn detach(&mut self) -> (r: Option<MmapMut>)
        requires
            old(self).wf(),
        ensures
            r is Some == old(self).is_exported(),
            r is Some ==> mapped_bytes(r.unwrap()) == old(self).region_bytes(),
            final(self).wf(),
            final(self).same_metrics(old(self)),
            !final(self).is_exported(),
            forall|i: int| 0 <= i < old(self).len() ==> #[trigger] final(self).target(i) == Target::Local,
            forall|i: int| 0 <= i < old(self).len() ==> #[trigger] final(self).word(i) == old(self).word(i),
    {
        let n = self.values.len();
        let mut j: usize = 0;
        while j < n
            invariant
                j <= n == self.len() == old(self).len(),
                self.wf(),
                self.same_metrics(old(self)),
                self.region == old(self).region,
                forall|i: int| 0 <= i < j ==> #[trigger] self.target(i) == Target::Local,
                forall|i: int| 0 <= i < n ==> #[trigger] self.word(i) == old(self).word(i),
            decreases n - j,
        {
            let w = self.load(j);
            let ghost prev = *self;
            let v = Slot { raw_type: self.values[j].raw_type, local: w, target: Target::Local };
            self.set_value(j, v);
            proof {
                assert forall|k: int| 0 <= k < self.len() implies #[trigger] self.identity(k)
                    == prev.identity(k) by {}
                assert forall|k: int| 0 <= k < self.len() implies #[trigger] self.kind(k)
                    == prev.kind(k) by {}
                assert forall|k: int| 0 <= k < self.len() && k != j implies #[trigger] self.target(k)
                    == prev.target(k) by {}
                assert forall|k: int| 0 <= k < self.len() implies #[trigger] self.word(k)
                    == prev.word(k) by {
                    if k != j {
                        assert(self.values@[k] == prev.values@[k]);
                    }
                }
                assert(self.target(j as int) == Target::Local);
                assert(self.wf());
            }
            j = j + 1;
        }
        let ghost before = *self;
        let r = self.region.take();
        proof {
            assert forall|k: int| 0 <= k < self.len() implies #[trigger] self.identity(k)
                == old(self).identity(k) by {
                assert(self.identity(k) == before.identity(k));
            }
            assert forall|k: int| 0 <= k < self.len() implies #[trigger] self.kind(k)
                == old(self).kind(k) by {
                assert(self.kind(k) == before.kind(k));
            }
            assert forall|k: int| 0 <= k < self.len() implies #[trigger] self.target(k)
                == Target::Local by {
                assert(self.target(k) == before.target(k));
            }
            assert forall|k: int| 0 <= k < self.len() implies #[trigger] self.word(k)
                == old(self).word(k) by {
                assert(self.target(k) == before.target(k));
                assert(before.word(k) == old(self).word(k));
            }
        }
        r
    }
}

} // verus!
