//! The shared region: a read-write mapping of the values file.
use vstd::prelude::*;
use vstd::bytes::{spec_u64_from_le_bytes, spec_u64_to_le_bytes, u64_from_le_bytes, u64_to_le_bytes};
use memmap2::MmapMut;

verus! {

/// memmap2's writable mapping of a file, held opaque: what it holds is known
/// only through [`mapped_bytes`].
#[verifier::external_type_specification]
#[verifier::external_body]
pub struct ExMmapMut(memmap2::MmapMut);

/// The bytes that a mapping currently holds. While a collection holds a
/// mapping it is the only writer of it: readers of the file only read.
pub uninterp spec fn mapped_bytes(m: MmapMut) -> Seq<u8>;

/// Relies on `<MmapMut as Deref>::deref`: a slice over the whole mapping.
#[verifier::external_body]
pub(crate) fn region_len(m: &MmapMut) -> (r: usize)
    ensures
        r == mapped_bytes(*m).len(),
{
    m.len()
}

/// Relies on `<MmapMut as Deref>::deref`: byte `i` of the mapping.
#[verifier::external_body]
fn read_byte(m: &MmapMut, i: usize) -> (r: u8)
    requires
        i < mapped_bytes(*m).len(),
    ensures
        r == mapped_bytes(*m)[i as int],
{
    m[i]
}

/// Relies on `<MmapMut as DerefMut>::deref_mut`: stores byte `i` of the
/// mapping and leaves the others and the length as they were.
#[verifier::external_body]
fn write_byte(m: &mut MmapMut, i: usize, b: u8)
    requires
        i < mapped_bytes(*old(m)).len(),
    ensures
        mapped_bytes(*final(m)) == mapped_bytes(*old(m)).update(i as int, b),
{
    m[i] = b;
}

/// Size in bytes of one numeric slot.
pub const SLOT_SIZE: usize = 8;

/// The word stored little-endian in the slot at `off`.
pub open spec fn word_at(bytes: Seq<u8>, off: int) -> u64 {
    spec_u64_from_le_bytes(bytes.subrange(off, off + 8))
}

/// `bytes` with the slot at `off` holding `w`.
pub open spec fn with_word(bytes: Seq<u8>, off: int, w: u64) -> Seq<u8> {
    bytes.subrange(0, off) + spec_u64_to_le_bytes(w) + bytes.subrange(off + 8, bytes.len() as int)
}

/// Storing a word changes no byte outside its slot, and reads back as stored.
pub proof fn lemma_with_word(bytes: Seq<u8>, off: int, w: u64)
    requires
        0 <= off,
        off + 8 <= bytes.len(),
    ensures
        with_word(bytes, off, w).len() == bytes.len(),
        word_at(with_word(bytes, off, w), off) == w,
        forall|o: int|
            0 <= o && o + 8 <= bytes.len() && (o + 8 <= off || off + 8 <= o) ==>
                #[trigger] word_at(with_word(bytes, off, w), o) == word_at(bytes, o),
{
    vstd::bytes::lemma_auto_spec_u64_to_from_le_bytes();
    let nb = with_word(bytes, off, w);
    assert(nb.subrange(off, off + 8) =~= spec_u64_to_le_bytes(w));
    assert forall|o: int|
        0 <= o && o + 8 <= bytes.len() && (o + 8 <= off || off + 8 <= o) implies
            #[trigger] word_at(nb, o) == word_at(bytes, o) by {
        assert(nb.subrange(o, o + 8) =~= bytes.subrange(o, o + 8));
    }
}

/// Reads the word in the slot at `off`.
pub(crate) fn read_word(m: &MmapMut, off: usize) -> (r: u64)
    requires
        off + 8 <= mapped_bytes(*m).len() <= usize::MAX,
    ensures
        r == word_at(mapped_bytes(*m), off as int),
{
    let mut buf: Vec<u8> = Vec::new();
    let mut i: usize = 0;
    while i < SLOT_SIZE
        invariant
            i <= 8,
            off + 8 <= mapped_bytes(*m).len() <= usize::MAX,
            buf@ =~= mapped_bytes(*m).subrange(off as int, off + i),
        decreases 8 - i,
    {
        let b = read_byte(m, off + i);
        buf.push(b);
        i = i + 1;
    }
    u64_from_le_bytes(buf.as_slice())
}

/// Stores `w` in the slot at `off`.
pub(crate) fn write_word(m: &mut MmapMut, off: usize, w: u64)
    requires
        off + 8 <= mapped_bytes(*old(m)).len() <= usize::MAX,
    ensures
        mapped_bytes(*final(m)) == with_word(mapped_bytes(*old(m)), off as int, w),
{
    let bs = u64_to_le_bytes(w);
    let ghost start = mapped_bytes(*m);
    let mut i: usize = 0;
    while i < SLOT_SIZE
        invariant
            i <= 8,
            bs@ == spec_u64_to_le_bytes(w),
            bs@.len() == 8,
            off + 8 <= start.len() <= usize::MAX,
            mapped_bytes(*m).len() == start.len(),
            forall|k: int|
                0 <= k < start.len() ==> #[trigger] mapped_bytes(*m)[k] == if off <= k < off + i {
                    bs@[k - off]
                } else {
                    start[k]
                },
        decreases 8 - i,
    {
        write_byte(m, off + i, bs[i]);
        i = i + 1;
    }
    assert(mapped_bytes(*m) =~= with_word(start, off as int, w));
}

} // verus!
