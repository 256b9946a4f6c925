//! What holds between publishing, the metadata it writes, and recovery.
use vstd::prelude::*;
use crate::collection::{Collection, Target};
use crate::layout::{
    region_size, meta_text, meta_bodies, lemma_meta_lines, lemma_fields_of_line,
    lemma_type_words_distinct,
};
use crate::meta::{MetaError, line_fields, meta_body};
use crate::name::is_identity_text;
use crate::read::{Scan, scan_line, scan_lines, scan_start, lookup, is_first_named, recovery_plan, lemma_lookup};
use crate::value::{RawType, main_type_word, suffix_word};

verus! {

/// The sizes that `lines` declare, added up in order; `None` if a line has
/// no readable size.
pub open spec fn replay(lines: Seq<Seq<u8>>) -> Option<nat>
    decreases lines.len(),
{
    if lines.len() == 0 {
        Some(0)
    } else {
        match (line_fields(lines[0]), replay(lines.drop_first())) {
            (Ok(f), Some(rest)) => Some(f.1 + rest),
            _ => None,
        }
    }
}

proof fn lemma_replay_bodies(c: &Collection, i: int)
    requires
        c.wf(),
        0 <= i <= c.len(),
    ensures
        replay(meta_bodies(c).subrange(i, c.len() as int)) == Some((8 * (c.len() - i)) as nat),
    decreases c.len() - i,
{
    c.lemma_len_bound();
    let ls = meta_bodies(c).subrange(i, c.len() as int);
    if i < c.len() {
        lemma_fields_of_line(c.identity(i), c.kind(i));
        assert(ls.drop_first() =~= meta_bodies(c).subrange(i + 1, c.len() as int));
        lemma_replay_bodies(c, i + 1);
    }
}

/// Publishing sizes the values file in whole pages, at least as large as all
/// slots together, and the lines of the metadata text, read back in order,
/// declare exactly the bytes of those slots.
pub proof fn lemma_publish_accounts(c: &Collection)
    requires
        c.wf(),
    ensures
        region_size(8 * c.len()) % 4096 == 0,
        region_size(8 * c.len()) >= 8 * c.len(),
        replay(crate::meta::lines_of(meta_text(c))) == Some(8 * c.len()),
{
    let p = 8 * c.len();
    if p > 0 {
        assert(((p + 4095) / 4096) * 4096 >= p && ((p + 4095) / 4096) * 4096 % 4096 == 0)
            by (nonlinear_arith);
    }
    lemma_meta_lines(c);
    lemma_replay_bodies(c, 0);
    assert(meta_bodies(c).subrange(0, c.len() as int) =~= meta_bodies(c));
}

/// How scanning a line that publishing wrote acts on the scan.
proof fn lemma_scan_published_line(
    id: Seq<u8>,
    t: RawType,
    region_len: nat,
    ids: Seq<Seq<u8>>,
    kinds: Seq<RawType>,
    st: Scan,
)
    requires
        is_identity_text(id),
        st.offset + 8 <= region_len,
    ensures
        scan_line(meta_body(id, t, 8), region_len, ids, kinds, st) == match lookup(ids, id) {
            None => Ok::<Scan, MetaError>(Scan { offset: st.offset + 8, extra: st.extra + 1, ..st }),
            Some(j) => if st.taken[j] {
                Ok(Scan { offset: st.offset + 8, extra: st.extra + 1, ..st })
            } else if kinds[j] == t {
                Ok(
                    Scan {
                        offset: st.offset + 8,
                        taken: st.taken.update(j, true),
                        offsets: st.offsets.update(j, st.offset as int),
                        ..st
                    },
                )
            } else {
                Ok(
                    Scan {
                        offset: st.offset + 8,
                        taken: st.taken.update(j, true),
                        wrong_type: st.wrong_type + 1,
                        ..st
                    },
                )
            },
        },
{
    lemma_fields_of_line(id, t);
    crate::layout::lemma_type_words(t);
    match lookup(ids, id) {
        Some(j) => {
            if main_type_word(t) == main_type_word(kinds[j]) && suffix_word(t) == suffix_word(kinds[j]) {
                lemma_type_words_distinct(t, kinds[j]);
            }
        },
        None => {},
    }
}

/// No two metrics of `c` share an identity.
pub open spec fn distinct_ids(c: &Collection) -> bool {
    forall|a: int, b: int|
        0 <= a < c.len() && 0 <= b < c.len() && a != b ==> #[trigger] c.identity(a) != #[trigger] c.identity(b)
}

/// Scanning the lines of `old_c` against metrics of the same identities in
/// order: every line claims its own metric, and only type changes count.
proof fn lemma_scan_same_ids(old_c: &Collection, kinds: Seq<RawType>, region_len: nat, i: int, st: Scan)
    requires
        old_c.wf(),
        distinct_ids(old_c),
        kinds.len() == old_c.len(),
        0 <= i <= old_c.len(),
        region_len >= 8 * old_c.len(),
        st.offset == 8 * i,
        st.extra == 0,
        st.taken == Seq::new(old_c.len(), |j: int| j < i),
        st.offsets.len() == old_c.len(),
        forall|j: int| 0 <= j < i && kinds[j] == old_c.kind(j) ==> #[trigger] st.offsets[j] == 8 * j,
        (st.wrong_type == 0) == (forall|j: int| 0 <= j < i ==> #[trigger] kinds[j] == old_c.kind(j)),
    ensures
        match scan_lines(meta_bodies(old_c).subrange(i, old_c.len() as int), region_len, old_c.ids(), kinds, st) {
            Ok(fin) => {
                &&& fin.extra == 0
                &&& fin.offsets.len() == old_c.len()
                &&& fin.taken == Seq::new(old_c.len(), |j: int| true)
                &&& forall|j: int|
                    0 <= j < old_c.len() && kinds[j] == old_c.kind(j) ==> #[trigger] fin.offsets[j] == 8 * j
                &&& (fin.wrong_type == 0) == (forall|j: int| 0 <= j < old_c.len() ==> #[trigger] kinds[j] == old_c.kind(j))
            },
            Err(_) => false,
        },
    decreases old_c.len() - i,
{
    old_c.lemma_len_bound();
    let n = old_c.len() as int;
    let ls = meta_bodies(old_c).subrange(i, n);
    let ids = old_c.ids();
    if i == n {
        assert(st.taken =~= Seq::new(old_c.len(), |j: int| true));
    } else {
        assert(ls[0] == meta_body(old_c.identity(i), old_c.kind(i), 8));
        assert(ls.drop_first() =~= meta_bodies(old_c).subrange(i + 1, n));
        assert forall|k: int| 0 <= k < i implies ids[k] != old_c.identity(i) by {
            assert(old_c.identity(k) != old_c.identity(i));
        }
        assert(is_first_named(ids, old_c.identity(i), i));
        lemma_lookup(ids, old_c.identity(i), i);
        lemma_scan_published_line(old_c.identity(i), old_c.kind(i), region_len, ids, kinds, st);
        let next = scan_line(ls[0], region_len, ids, kinds, st).unwrap();
        assert(next.taken =~= Seq::new(old_c.len(), |j: int| j < i + 1));
        if kinds[i] == old_c.kind(i) {
            assert forall|j: int| 0 <= j < i + 1 && kinds[j] == old_c.kind(j) implies #[trigger] next.offsets[j] == 8 * j by {}
        }
        lemma_scan_same_ids(old_c, kinds, region_len, i + 1, next);
    }
}

/// Recovery right after a publish, by metrics of the same distinct
/// identities and types in the same order, adopts every metric at the slot
/// that publishing gave it.
pub proof fn lemma_recovery_adopts_published(old_c: &Collection, new_c: &Collection, region_len: nat)
    requires
        old_c.wf(),
        distinct_ids(old_c),
        new_c.wf(),
        new_c.same_metrics(old_c),
        region_len >= 8 * old_c.len(),
    ensures
        recovery_plan(meta_text(old_c), region_len, new_c.ids(), new_c.kinds()) == Ok::<_, MetaError>(
            Some(Seq::new(old_c.len(), |i: int| 8 * i)),
        ),
{
    assert forall|i: int| 0 <= i < old_c.len() implies #[trigger] new_c.identity(i) == old_c.identity(i)
        && new_c.kinds()[i] == old_c.kind(i) by {
        assert(new_c.identity(i) == old_c.identity(i));
    }
    lemma_same_ids_plan(old_c, new_c, region_len);
    match scan_lines(meta_bodies(old_c), region_len, old_c.ids(), new_c.kinds(), scan_start(old_c.len())) {
        Ok(fin) => {
            assert forall|j: int| 0 <= j < old_c.len() implies #[trigger] new_c.kinds()[j] == old_c.kind(j) by {
                assert(new_c.identity(j) == old_c.identity(j));
            }
            assert forall|j: int| 0 <= j < old_c.len() implies #[trigger] fin.offsets[j] == 8 * j by {
                assert(new_c.kinds()[j] == old_c.kind(j));
            }
            assert(fin.offsets =~= Seq::new(old_c.len(), |i: int| 8 * i));
        },
        Err(_) => {},
    }
}

proof fn lemma_same_ids_plan(old_c: &Collection, new_c: &Collection, region_len: nat)
    requires
        old_c.wf(),
        distinct_ids(old_c),
        new_c.len() == old_c.len(),
        forall|i: int| 0 <= i < old_c.len() ==> #[trigger] new_c.identity(i) == old_c.identity(i),
        region_len >= 8 * old_c.len(),
    ensures
        new_c.ids() == old_c.ids(),
        match scan_lines(meta_bodies(old_c), region_len, old_c.ids(), new_c.kinds(), scan_start(old_c.len())) {
            Ok(fin) => {
                &&& fin.extra == 0
                &&& fin.offsets.len() == old_c.len()
                &&& fin.taken == Seq::new(old_c.len(), |j: int| true)
                &&& forall|j: int|
                    0 <= j < old_c.len() && new_c.kinds()[j] == old_c.kind(j) ==> #[trigger] fin.offsets[j] == 8 * j
                &&& (fin.wrong_type == 0) == (forall|j: int| 0 <= j < old_c.len() ==> #[trigger] new_c.kinds()[j] == old_c.kind(j))
                &&& recovery_plan(meta_text(old_c), region_len, new_c.ids(), new_c.kinds()) == if fin.wrong_type == 0 {
                    Ok::<_, MetaError>(Some(fin.offsets))
                } else {
                    Ok(None)
                }
            },
            Err(_) => false,
        },
{
    assert(new_c.ids() =~= old_c.ids());
    lemma_meta_lines(old_c);
    let st = scan_start(old_c.len());
    assert(st.taken =~= Seq::new(old_c.len(), |j: int| j < 0));
    assert(meta_bodies(old_c).subrange(0, old_c.len() as int) =~= meta_bodies(old_c));
    lemma_scan_same_ids(old_c, new_c.kinds(), region_len, 0, st);
}

/// Recovery after a publish, by metrics of the same identities in the same
/// order of which one has changed type, adopts nothing.
pub proof fn lemma_recovery_rejects_type_change(old_c: &Collection, new_c: &Collection, region_len: nat, k: int)
    requires
        old_c.wf(),
        new_c.wf(),
        new_c.len() == old_c.len(),
        forall|i: int| 0 <= i < old_c.len() ==> #[trigger] new_c.identity(i) == old_c.identity(i),
        0 <= k < old_c.len(),
        new_c.kind(k) != old_c.kind(k),
        region_len >= 8 * old_c.len(),
    ensures
        recovery_plan(meta_text(old_c), region_len, new_c.ids(), new_c.kinds()) == Ok::<
            Option<Seq<int>>,
            MetaError,
        >(None),
{
    if distinct_ids(old_c) {
        lemma_same_ids_plan(old_c, new_c, region_len);
        assert(new_c.kinds()[k] != old_c.kind(k));
    } else {
        let (a, b) = choose|a: int, b: int|
            0 <= a < old_c.len() && 0 <= b < old_c.len() && a != b && #[trigger] old_c.identity(a)
                == #[trigger] old_c.identity(b);
        let (a, b) = if a < b { (a, b) } else { (b, a) };
        assert(new_c.identity(a) == new_c.identity(b));
        lemma_recovery_rejects_repeated_identity(new_c, meta_text(old_c), region_len, a, b);
        lemma_meta_lines(old_c);
        let ids = new_c.ids();
        assert(ids =~= old_c.ids()) by {
            assert forall|i: int| 0 <= i < ids.len() implies ids[i] == old_c.ids()[i] by {
                assert(new_c.identity(i) == old_c.identity(i));
            }
        }
        assert(meta_bodies(old_c).subrange(0, old_c.len() as int) =~= meta_bodies(old_c));
        lemma_scan_any(old_c, ids, new_c.kinds(), region_len, 0, scan_start(new_c.len()));
    }
}

/// Scanning never claims metric `b` when an earlier metric `a` has the same
/// identity: an identity looks up only the first metric of that name.
proof fn lemma_scan_skips_shadowed(
    lines: Seq<Seq<u8>>,
    region_len: nat,
    ids: Seq<Seq<u8>>,
    kinds: Seq<RawType>,
    st: Scan,
    a: int,
    b: int,
)
    requires
        0 <= a < b < ids.len(),
        ids[a] == ids[b],
        st.taken.len() == ids.len(),
        !st.taken[b],
    ensures
        match scan_lines(lines, region_len, ids, kinds, st) {
            Ok(fin) => !fin.taken[b],
            Err(_) => true,
        },
    decreases lines.len(),
{
    if lines.len() > 0 {
        match scan_line(lines[0], region_len, ids, kinds, st) {
            Ok(next) => {
                match line_fields(lines[0]) {
                    Ok((kind, size, suffix, rest)) => match rest {
                        Some(r) => match lookup(ids, crate::meta::trim(r)) {
                            Some(j) => {
                                assert(is_first_named(ids, crate::meta::trim(r), j));
                                if j == b {
                                    assert(ids[a] != crate::meta::trim(r));
                                }
                            },
                            None => {},
                        },
                        None => {},
                    },
                    Err(_) => {},
                }
                assert(next.taken.len() == ids.len() && !next.taken[b]);
                lemma_scan_skips_shadowed(lines.drop_first(), region_len, ids, kinds, next, a, b);
            },
            Err(_) => {},
        }
    }
}

/// Recovery adopts nothing for metrics of which two share an identity: an
/// identity looks up only the first of them, so the other is never claimed.
pub proof fn lemma_recovery_rejects_repeated_identity(
    c: &Collection,
    meta: Seq<u8>,
    region_len: nat,
    a: int,
    b: int,
)
    requires
        0 <= a < b < c.len(),
        c.identity(a) == c.identity(b),
    ensures
        recovery_plan(meta, region_len, c.ids(), c.kinds()) is Err || recovery_plan(
            meta,
            region_len,
            c.ids(),
            c.kinds(),
        ) == Ok::<Option<Seq<int>>, MetaError>(None),
{
    let ids = c.ids();
    let st = scan_start(c.len());
    lemma_scan_skips_shadowed(crate::meta::lines_of(meta), region_len, ids, c.kinds(), st, a, b);
}

/// Some metric of `c` before index `i` is named `id`.
pub open spec fn named_before(c: &Collection, i: int, id: Seq<u8>) -> bool {
    exists|k: int| 0 <= k < i && #[trigger] c.identity(k) == id
}

/// Scanning the lines of `old_c` against any metrics: a line claims only a
/// metric of its own identity, and a line that names no current metric
/// counts as extra.
proof fn lemma_scan_any(
    old_c: &Collection,
    ids: Seq<Seq<u8>>,
    kinds: Seq<RawType>,
    region_len: nat,
    i: int,
    st: Scan,
)
    requires
        old_c.wf(),
        0 <= i <= old_c.len(),
        region_len >= 8 * old_c.len(),
        st.offset == 8 * i,
        st.taken.len() == ids.len(),
        forall|j: int| 0 <= j < ids.len() && #[trigger] st.taken[j] ==> named_before(old_c, i, ids[j]),
        (exists|k: int| 0 <= k < i && !ids.contains(#[trigger] old_c.identity(k))) ==> st.extra > 0,
    ensures
        match scan_lines(meta_bodies(old_c).subrange(i, old_c.len() as int), region_len, ids, kinds, st) {
            Ok(fin) => {
                &&& fin.taken.len() == ids.len()
                &&& forall|j: int|
                    0 <= j < ids.len() && #[trigger] fin.taken[j] ==> named_before(old_c, old_c.len() as int, ids[j])
                &&& (exists|k: int| 0 <= k < old_c.len() && !ids.contains(#[trigger] old_c.identity(k)))
                    ==> fin.extra > 0
            },
            Err(_) => false,
        },
    decreases old_c.len() - i,
{
    old_c.lemma_len_bound();
    let n = old_c.len() as int;
    let ls = meta_bodies(old_c).subrange(i, n);
    if i < n {
        let id = old_c.identity(i);
        assert(ls[0] == meta_body(id, old_c.kind(i), 8));
        assert(ls.drop_first() =~= meta_bodies(old_c).subrange(i + 1, n));
        lemma_scan_published_line(id, old_c.kind(i), region_len, ids, kinds, st);
        let next = scan_line(ls[0], region_len, ids, kinds, st).unwrap();
        match lookup(ids, id) {
            Some(j) => {
                assert(is_first_named(ids, id, j));
                assert(ids.contains(id));
            },
            None => {},
        }
        assert forall|j: int| 0 <= j < ids.len() && #[trigger] next.taken[j] implies named_before(
            old_c,
            i + 1,
            ids[j],
        ) by {
            if st.taken[j] {
                let k = choose|k: int| 0 <= k < i && #[trigger] old_c.identity(k) == ids[j];
                assert(old_c.identity(k) == ids[j]);
            } else {
                assert(old_c.identity(i) == ids[j]);
            }
        }
        if exists|k: int| 0 <= k < i + 1 && !ids.contains(#[trigger] old_c.identity(k)) {
            let k = choose|k: int| 0 <= k < i + 1 && !ids.contains(#[trigger] old_c.identity(k));
            if k < i {
                assert(st.extra > 0);
            }
        }
        lemma_scan_any(old_c, ids, kinds, region_len, i + 1, next);
    }
}

/// Recovery after a publish adopts nothing when the metrics differ in
/// identity from those published: one of them was not published, or one of
/// those published is gone.
pub proof fn lemma_recovery_rejects_drift(old_c: &Collection, new_c: &Collection, region_len: nat)
    requires
        old_c.wf(),
        new_c.wf(),
        region_len >= 8 * old_c.len(),
        (exists|j: int| 0 <= j < new_c.len() && !old_c.ids().contains(#[trigger] new_c.identity(j)))
            || (exists|k: int| 0 <= k < old_c.len() && !new_c.ids().contains(#[trigger] old_c.identity(k))),
    ensures
        recovery_plan(meta_text(old_c), region_len, new_c.ids(), new_c.kinds()) == Ok::<
            Option<Seq<int>>,
            MetaError,
        >(None),
{
    lemma_meta_lines(old_c);
    let ids = new_c.ids();
    let st = scan_start(new_c.len());
    assert(meta_bodies(old_c).subrange(0, old_c.len() as int) =~= meta_bodies(old_c));
    lemma_scan_any(old_c, ids, new_c.kinds(), region_len, 0, st);
    match scan_lines(meta_bodies(old_c), region_len, ids, new_c.kinds(), st) {
        Ok(fin) => {
            if exists|j: int| 0 <= j < new_c.len() && !old_c.ids().contains(#[trigger] new_c.identity(j)) {
                let j = choose|j: int| 0 <= j < new_c.len() && !old_c.ids().contains(#[trigger] new_c.identity(j));
                if fin.taken[j] {
                    assert(named_before(old_c, old_c.len() as int, ids[j]));
                    let k = choose|k: int| 0 <= k < old_c.len() && #[trigger] old_c.identity(k) == ids[j];
                    assert(old_c.ids()[k] == new_c.identity(j));
                }
                assert(!fin.taken[j]);
            } else {
                let k = choose|k: int| 0 <= k < old_c.len() && !new_c.ids().contains(#[trigger] old_c.identity(k));
                assert(fin.extra > 0);
            }
        },
        Err(_) => {},
    }
}

/// After a release every metric reads and writes its private slot, and goes
/// on doing so through any later update: updates keep the layout, and a
/// collection that exports nothing has no metric in a shared region.
pub proof fn lemma_released_stays_local(released: &Collection, later: &Collection)
    requires
        released.wf(),
        !released.is_exported(),
        later.wf(),
        later.same_layout(released),
    ensures
        !later.is_exported(),
        forall|i: int| 0 <= i < later.len() ==> #[trigger] later.target(i) == Target::Local,
{
    later.lemma_unexported_is_local();
}

} // verus!
