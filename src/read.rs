//! Deciding whether a previous process's values file can be adopted.
use vstd::prelude::*;
use memmap2::MmapMut;
use crate::region::{mapped_bytes, region_len, word_at};
use crate::collection::{Collection, Target, disjoint};
use crate::meta::{
    MetaError, line_fields, lines_of, pad_word, trim, bytes_eq, split_at_byte,
    parse_usize, trim_bytes, find_from, copy_range, find_byte, line_end, strip_cr,
};
use crate::value::{RawType, main_type_word, suffix_word};

verus! {

/// What a scan of the metadata has found so far.
pub struct Scan {
    /// Bytes of the values file that the lines read so far describe.
    pub offset: nat,
    /// Per current metric: whether a line has claimed it.
    pub taken: Seq<bool>,
    /// Per current metric: the offset of the slot that a line gave it.
    pub offsets: Seq<int>,
    /// Lines whose identity names no current metric, or one that an earlier
    /// line already claimed.
    pub extra: nat,
    /// Lines whose recorded type, suffix or size differ from the metric's.
    pub wrong_type: nat,
}

/// The scan before any line.
pub open spec fn scan_start(n: nat) -> Scan {
    Scan {
        offset: 0,
        taken: Seq::new(n, |j: int| false),
        offsets: Seq::new(n, |j: int| 0),
        extra: 0,
        wrong_type: 0,
    }
}

/// `j` is the first current metric named `id`.
pub open spec fn is_first_named(ids: Seq<Seq<u8>>, id: Seq<u8>, j: int) -> bool {
    &&& 0 <= j < ids.len()
    &&& ids[j] == id
    &&& forall|i: int| 0 <= i < j ==> ids[i] != id
}

/// The current metric that identity `id` looks up: the first one of that
/// name, if any. A later metric of the same name is never looked up.
pub open spec fn lookup(ids: Seq<Seq<u8>>, id: Seq<u8>) -> Option<int> {
    if exists|j: int| is_first_named(ids, id, j) {
        Some(choose|j: int| is_first_named(ids, id, j))
    } else {
        None
    }
}

/// A slot recorded as `kind`, `size` bytes and `suffix` fits a metric of type `t`.
pub open spec fn fits(kind: Seq<u8>, size: nat, suffix: Option<Seq<u8>>, t: RawType) -> bool {
    kind == main_type_word(t) && suffix == suffix_word(t) && size == 8
}

/// The effect of one metadata line on the scan, against the current metrics
/// `ids` / `kinds` and a values file of `region_len` bytes.
pub open spec fn scan_line(
    line: Seq<u8>,
    region_len: nat,
    ids: Seq<Seq<u8>>,
    kinds: Seq<RawType>,
    st: Scan,
) -> Result<Scan, MetaError> {
    match line_fields(line) {
        Err(e) => Err(e),
        Ok((kind, size, suffix, rest)) => {
            let next = st.offset + size;
            if next > region_len {
                Err(MetaError::OutOfRange)
            } else if kind == pad_word() {
                Ok(Scan { offset: next, ..st })
            } else {
                match rest {
                    None => Err(MetaError::NoDescription),
                    Some(r) => match lookup(ids, trim(r)) {
                        None => Ok(Scan { offset: next, extra: st.extra + 1, ..st }),
                        Some(j) => if st.taken[j] {
                            Ok(Scan { offset: next, extra: st.extra + 1, ..st })
                        } else if fits(kind, size, suffix, kinds[j]) {
                            Ok(
                                Scan {
                                    offset: next,
                                    taken: st.taken.update(j, true),
                                    offsets: st.offsets.update(j, st.offset as int),
                                    ..st
                                },
                            )
                        } else {
                            Ok(
                                Scan {
                                    offset: next,
                                    taken: st.taken.update(j, true),
                                    wrong_type: st.wrong_type + 1,
                                    ..st
                                },
                            )
                        },
                    },
                }
            }
        },
    }
}

/// The scan over `lines`, in order, stopping at the first malformed one.
pub open spec fn scan_lines(
    lines: Seq<Seq<u8>>,
    region_len: nat,
    ids: Seq<Seq<u8>>,
    kinds: Seq<RawType>,
    st: Scan,
) -> Result<Scan, MetaError>
    decreases lines.len(),
{
    if lines.len() == 0 {
        Ok(st)
    } else {
        match scan_line(lines[0], region_len, ids, kinds, st) {
            Err(e) => Err(e),
            Ok(next) => scan_lines(lines.drop_first(), region_len, ids, kinds, next),
        }
    }
}

/// Whether the previous layout `meta` over a values file of `region_len`
/// bytes can be adopted by the current metrics, matched by identity: an
/// error for a malformed file; `None` unless no identity repeats among the
/// lines or among the current metrics, every line names a current metric of
/// the same type, and every current metric is named; else each metric's
/// offset.
pub open spec fn recovery_plan(meta: Seq<u8>, region_len: nat, ids: Seq<Seq<u8>>, kinds: Seq<RawType>) -> Result<Option<Seq<int>>, MetaError> {
    match scan_lines(lines_of(meta), region_len, ids, kinds, scan_start(ids.len())) {
        Err(e) => Err(e),
        Ok(st) => if st.extra == 0 && st.wrong_type == 0 && (forall|j: int| 0 <= j < ids.len() ==> #[trigger] st.taken[j]) {
            Ok(Some(st.offsets))
        } else {
            Ok(None)
        },
    }
}


pub proof fn lemma_lookup(ids: Seq<Seq<u8>>, id: Seq<u8>, j: int)
    requires
        is_first_named(ids, id, j),
    ensures
        lookup(ids, id) == Some(j),
{
    let c = choose|j: int| is_first_named(ids, id, j);
    assert(is_first_named(ids, id, c));
    if c < j {
        assert(ids[c] != id);
    } else if j < c {
        assert(ids[j] != id);
    }
}

pub proof fn lemma_lookup_none(ids: Seq<Seq<u8>>, id: Seq<u8>)
    requires
        forall|i: int| 0 <= i < ids.len() ==> ids[i] != id,
    ensures
        lookup(ids, id) is None,
{
    if exists|j: int| is_first_named(ids, id, j) {
        let j = choose|j: int| is_first_named(ids, id, j);
        assert(ids[j] != id);
    }
}

/// The state of a scan, as the executable code holds it.
pub struct Progress {
    offset: usize,
    taken: Vec<bool>,
    offsets: Vec<usize>,
    extra: bool,
    wrong_type: bool,
}

impl Progress {
    /// `self` holds `st` for `n` current metrics and a values file of
    /// `region_len` bytes, and the slots given so far lie in the file without
    /// overlapping whenever no line had a wrong type.
    pub closed spec fn models(&self, st: Scan, n: nat, region_len: nat) -> bool {
        &&& self.offset == st.offset
        &&& st.offset <= region_len
        &&& self.taken@ == st.taken
        &&& st.taken.len() == n
        &&& st.offsets.len() == n
        &&& self.offsets@.len() == n
        &&& forall|j: int| 0 <= j < n ==> self.offsets@[j] as int == #[trigger] st.offsets[j]
        &&& self.extra == (st.extra > 0)
        &&& self.wrong_type == (st.wrong_type > 0)
        &&& st.wrong_type == 0 ==> forall|j: int|
            0 <= j < n && #[trigger] st.taken[j] ==> st.offsets[j] + 8 <= st.offset
        &&& st.wrong_type == 0 ==> forall|a: int, b: int|
            0 <= a < n && 0 <= b < n && a != b && #[trigger] st.taken[a] && #[trigger] st.taken[b]
                ==> disjoint(st.offsets[a], st.offsets[b])
    }
}

/// The metric of `coll` that identity `id` looks up.
fn find_named(coll: &Collection, id: &Vec<u8>) -> (r: Option<usize>)
    requires
        coll.wf(),
    ensures
        match r {
            Some(j) => lookup(coll.ids(), id@) == Some(j as int),
            None => lookup(coll.ids(), id@) is None,
        },
        r is Some ==> r.unwrap() < coll.len(),
{
    let n = coll.count();
    let mut j: usize = 0;
    while j < n
        invariant
            j <= n == coll.len(),
            coll.wf(),
            forall|i: int| 0 <= i < j ==> coll.ids()[i] != id@,
        decreases n - j,
    {
        if bytes_eq(coll.identity_at(j), id) {
            proof {
                lemma_lookup(coll.ids(), id@, j as int);
            }
            return Some(j);
        }
        j = j + 1;
    }
    proof {
        lemma_lookup_none(coll.ids(), id@);
    }
    None
}

/// Applies one metadata line to the scan.
fn scan_step(
    coll: &Collection,
    line: &Vec<u8>,
    region_len: usize,
    p: &mut Progress,
    Ghost(st): Ghost<Scan>,
) -> (r: Result<(), MetaError>)
    requires
        coll.wf(),
        old(p).models(st, coll.len(), region_len as nat),
    ensures
        match scan_line(line@, region_len as nat, coll.ids(), coll.kinds(), st) {
            Err(e) => r == Err::<(), MetaError>(e),
            Ok(next) => r is Ok && final(p).models(next, coll.len(), region_len as nat),
        },
{
    let (head, rest) = split_at_byte(line, ':' as u8);
    let (kind, after_kind) = split_at_byte(&head, ' ' as u8);
    let r1 = match after_kind {
        None => {
            return Err(MetaError::UnsizedType);
        },
        Some(r1) => r1,
    };
    let (size_field, after_size) = split_at_byte(&r1, ' ' as u8);
    let size = match parse_usize(&size_field) {
        None => {
            return Err(MetaError::BadSize);
        },
        Some(size) => size,
    };
    let suffix = match after_size {
        None => None,
        Some(r2) => Some(split_at_byte(&r2, ' ' as u8).0),
    };
    let ghost fields = (kind@, size as nat, match &suffix {
        Some(s) => Some(s@),
        None => None,
    }, match &rest {
        Some(s) => Some(s@),
        None => None,
    });
    assert(line_fields(line@) == Ok::<_, MetaError>(fields));
    if size > region_len - p.offset {
        return Err(MetaError::OutOfRange);
    }
    let next = p.offset + size;
    let pad = vec!['p' as u8, 'a' as u8, 'd' as u8];
    assert(pad@ =~= pad_word());
    if bytes_eq(&kind, &pad) {
        p.offset = next;
        return Ok(());
    }
    let rest = match rest {
        None => {
            return Err(MetaError::NoDescription);
        },
        Some(rest) => rest,
    };
    let id = trim_bytes(&rest);
    match find_named(coll, &id) {
        None => {
            p.offset = next;
            p.extra = true;
            Ok(())
        },
        Some(j) => {
            if p.taken[j] {
                p.offset = next;
                p.extra = true;
                return Ok(());
            }
            let t = coll.kind_at(j);
            let main = t.main_type_bytes();
            let want_suffix = t.suffix_bytes();
            let same_suffix = match (&suffix, &want_suffix) {
                (Some(a), Some(b)) => bytes_eq(a, b),
                (None, None) => true,
                _ => false,
            };
            let ghost old_offset = p.offset as int;
            if bytes_eq(&kind, &main) && same_suffix && size == 8 {
                p.taken.set(j, true);
                p.offsets.set(j, p.offset);
                p.offset = next;
                proof {
                    assert(fits(kind@, size as nat, fields.2, coll.kinds()[j as int]));
                    assert(lookup(coll.ids(), trim(fields.3.unwrap())) == Some(j as int));
                    let nx = Scan {
                        offset: next as nat,
                        taken: st.taken.update(j as int, true),
                        offsets: st.offsets.update(j as int, old_offset),
                        ..st
                    };
                    assert(scan_line(line@, region_len as nat, coll.ids(), coll.kinds(), st) == Ok::<Scan, MetaError>(nx));
                    assert(p.taken@ =~= nx.taken);
                    assert(p.models(nx, coll.len(), region_len as nat));
                }
            } else {
                p.taken.set(j, true);
                p.offset = next;
                p.wrong_type = true;
                proof {
                    assert(!fits(kind@, size as nat, fields.2, coll.kinds()[j as int]));
                    assert(lookup(coll.ids(), trim(fields.3.unwrap())) == Some(j as int));
                    let nx = Scan {
                        offset: next as nat,
                        taken: st.taken.update(j as int, true),
                        wrong_type: st.wrong_type + 1,
                        ..st
                    };
                    assert(scan_line(line@, region_len as nat, coll.ids(), coll.kinds(), st) == Ok::<Scan, MetaError>(nx));
                    assert(p.taken@ =~= nx.taken);
                    assert(p.models(nx, coll.len(), region_len as nat));
                }
            }
            Ok(())
        },
    }
}


/// The first line of a non-empty text, and the rest of its lines.
proof fn lemma_lines_unfold(t: Seq<u8>, k: int)
    requires
        t.len() > 0,
        0 <= k <= t.len(),
        k == line_end(t),
    ensures
        k < t.len() ==> lines_of(t) == seq![strip_cr(t.subrange(0, k))] + lines_of(
            t.subrange(k + 1, t.len() as int),
        ),
        k == t.len() ==> lines_of(t) == seq![strip_cr(t)],
{
}

/// Scanning a first line and then the rest.
proof fn lemma_scan_unfold(
    l: Seq<u8>,
    rest: Seq<Seq<u8>>,
    region_len: nat,
    ids: Seq<Seq<u8>>,
    kinds: Seq<RawType>,
    st: Scan,
)
    ensures
        scan_lines(seq![l] + rest, region_len, ids, kinds, st) == match scan_line(
            l,
            region_len,
            ids,
            kinds,
            st,
        ) {
            Err(e) => Err(e),
            Ok(next) => scan_lines(rest, region_len, ids, kinds, next),
        },
{
    assert((seq![l] + rest)[0] == l);
    assert((seq![l] + rest).drop_first() =~= rest);
}

/// Scanning the lines of `meta[pos..]`: its first line, which ends at `end`,
/// then the lines after it.
proof fn lemma_next_line(
    meta: Seq<u8>,
    pos: int,
    end: int,
    line: Seq<u8>,
    region_len: nat,
    ids: Seq<Seq<u8>>,
    kinds: Seq<RawType>,
    st: Scan,
)
    requires
        0 <= pos < end <= meta.len() || 0 <= pos == end < meta.len(),
        end < meta.len() ==> find_byte(meta.subrange(pos, meta.len() as int), '\n' as u8) == Some(
            end - pos,
        ),
        end == meta.len() ==> find_byte(meta.subrange(pos, meta.len() as int), '\n' as u8) is None,
        line == strip_cr(meta.subrange(pos, end)),
    ensures
        scan_lines(lines_of(meta.subrange(pos, meta.len() as int)), region_len, ids, kinds, st)
            == match scan_line(line, region_len, ids, kinds, st) {
            Err(e) => Err(e),
            Ok(next) => scan_lines(
                lines_of(meta.subrange(if end < meta.len() { end + 1 } else { end }, meta.len() as int)),
                region_len,
                ids,
                kinds,
                next,
            ),
        },
{
    let t = meta.subrange(pos, meta.len() as int);
    let k = end - pos;
    assert(line_end(t) == k);
    lemma_lines_unfold(t, k);
    assert(t.subrange(0, k) == meta.subrange(pos, end));
    if end < meta.len() {
        assert(t.subrange(k + 1, t.len() as int) == meta.subrange(end + 1, meta.len() as int));
        lemma_scan_unfold(line, lines_of(t.subrange(k + 1, t.len() as int)), region_len, ids, kinds, st);
    } else {
        assert(t.subrange(0, k) == t);
        assert(meta.subrange(end, meta.len() as int) =~= Seq::<u8>::empty());
        assert(lines_of(Seq::<u8>::empty()) =~= Seq::<Seq<u8>>::empty());
        assert(seq![line] =~= seq![line] + Seq::<Seq<u8>>::empty());
        lemma_scan_unfold(line, Seq::<Seq<u8>>::empty(), region_len, ids, kinds, st);
    }
}

/// Scans the metadata `meta` of a values file of `region_len` bytes against
/// the metrics of `coll`, and gives each metric its slot if the previous
/// layout can be adopted as a whole.
pub fn plan_recovery(coll: &Collection, meta: &Vec<u8>, region_len: usize) -> (r: Result<
    Option<Vec<usize>>,
    MetaError,
>)
    requires
        coll.wf(),
    ensures
        match recovery_plan(meta@, region_len as nat, coll.ids(), coll.kinds()) {
            Err(e) => r == Err::<Option<Vec<usize>>, MetaError>(e),
            Ok(None) => r == Ok::<Option<Vec<usize>>, MetaError>(None),
            Ok(Some(offs)) => {
                &&& r is Ok
                &&& r.unwrap() is Some
                &&& r.unwrap().unwrap()@.len() == offs.len()
                &&& forall|j: int|
                    0 <= j < offs.len() ==> #[trigger] r.unwrap().unwrap()@[j] as int == offs[j]
            },
        },
        r is Ok && r.unwrap() is Some ==> {
            let v = r.unwrap().unwrap()@;
            &&& v.len() == coll.len()
            &&& forall|j: int| 0 <= j < v.len() ==> #[trigger] v[j] + 8 <= region_len
            &&& forall|a: int, b: int|
                0 <= a < v.len() && 0 <= b < v.len() && a != b ==> disjoint(
                    #[trigger] v[a] as int,
                    #[trigger] v[b] as int,
                )
        },
{
    let n = coll.count();
    let ghost ids = coll.ids();
    let ghost kinds = coll.kinds();
    let mut taken: Vec<bool> = Vec::new();
    let mut offsets: Vec<usize> = Vec::new();
    let mut j: usize = 0;
    while j < n
        invariant
            j <= n,
            taken@ == Seq::new(j as nat, |i: int| false),
            offsets@.len() == j,
            forall|i: int| 0 <= i < j ==> offsets@[i] == 0,
        decreases n - j,
    {
        taken.push(false);
        offsets.push(0);
        j = j + 1;
        assert(taken@ =~= Seq::new(j as nat, |i: int| false));
    }
    let mut p = Progress { offset: 0, taken, offsets, extra: false, wrong_type: false };
    let ghost mut st = scan_start(n as nat);
    assert(p.models(st, n as nat, region_len as nat));
    let len = meta.len();
    let mut pos: usize = 0;
    assert(meta@.subrange(0, len as int) == meta@);
    while pos < len
        invariant
            pos <= len == meta@.len(),
            n == coll.len(),
            ids == coll.ids(),
            kinds == coll.kinds(),
            coll.wf(),
            p.models(st, n as nat, region_len as nat),
            scan_lines(lines_of(meta@), region_len as nat, ids, kinds, scan_start(n as nat))
                == scan_lines(
                lines_of(meta@.subrange(pos as int, len as int)),
                region_len as nat,
                ids,
                kinds,
                st,
            ),
        decreases len - pos,
    {
        let ghost t = meta@.subrange(pos as int, len as int);
        let end = match find_from(meta, pos, '\n' as u8) {
            Some(k) => k,
            None => len,
        };
        let mut line = copy_range(meta, pos, end);
        if line.len() > 0 && line[line.len() - 1] == '\r' as u8 {
            line.pop();
        }
        let next_pos = if end < len {
            end + 1
        } else {
            len
        };
        proof {
            lemma_next_line(meta@, pos as int, end as int, line@, region_len as nat, ids, kinds, st);
        }
        match scan_step(coll, &line, region_len, &mut p, Ghost(st)) {
            Err(e) => {
                return Err(e);
            },
            Ok(()) => {},
        }
        proof {
            st = scan_line(line@, region_len as nat, ids, kinds, st).unwrap();
        }
        pos = next_pos;
    }
    assert(meta@.subrange(pos as int, len as int) =~= Seq::<u8>::empty());
    assert(lines_of(Seq::<u8>::empty()) =~= Seq::<Seq<u8>>::empty());
    if p.extra || p.wrong_type {
        return Ok(None);
    }
    let mut j: usize = 0;
    while j < n
        invariant
            j <= n == coll.len(),
            p.models(st, n as nat, region_len as nat),
            forall|i: int| 0 <= i < j ==> #[trigger] st.taken[i],
            ids == coll.ids(),
            kinds == coll.kinds(),
            scan_lines(lines_of(meta@), region_len as nat, ids, kinds, scan_start(n as nat)) == Ok::<
                Scan,
                MetaError,
            >(st),
        decreases n - j,
    {
        if !p.taken[j] {
            assert(!st.taken[j as int]);
            return Ok(None);
        }
        j = j + 1;
    }
    proof {
        assert(st.wrong_type == 0 && st.extra == 0);
        let v = p.offsets@;
        assert forall|j: int| 0 <= j < v.len() implies #[trigger] v[j] + 8 <= region_len by {
            assert(st.taken[j]);
            assert(v[j] as int == st.offsets[j]);
        }
        assert forall|a: int, b: int|
            0 <= a < v.len() && 0 <= b < v.len() && a != b implies disjoint(
                #[trigger] v[a] as int,
                #[trigger] v[b] as int,
            ) by {
            assert(st.taken[a] && st.taken[b]);
            assert(v[a] as int == st.offsets[a]);
            assert(v[b] as int == st.offsets[b]);
        }
    }
    Ok(Some(p.offsets))
}

/// Adopts the values file `region` described by `meta` if its layout is that
/// of the metrics of `coll`: each metric then reads and writes its old slot,
/// whose bytes it takes as they are. Returns whether it did; on `false` or an
/// error `coll` is unchanged and `region` is unmapped.
pub fn read_and_map(coll: &mut Collection, meta: &Vec<u8>, region: MmapMut) -> (r: Result<bool, MetaError>)
    requires
        old(coll).wf(),
    ensures
        final(coll).wf(),
        final(coll).same_metrics(old(coll)),
        match recovery_plan(meta@, mapped_bytes(region).len(), old(coll).ids(), old(coll).kinds()) {
            Err(e) => r == Err::<bool, MetaError>(e) && final(coll).same_state(old(coll)),
            Ok(None) => r == Ok::<bool, MetaError>(false) && final(coll).same_state(old(coll)),
            Ok(Some(offs)) => {
                &&& r == Ok::<bool, MetaError>(true)
                &&& final(coll).is_exported()
                &&& final(coll).region_bytes() == mapped_bytes(region)
                &&& forall|i: int|
                    0 <= i < offs.len() ==> #[trigger] final(coll).target(i) == Target::Mapped(
                        offs[i] as usize,
                    )
                &&& forall|i: int|
                    0 <= i < offs.len() ==> #[trigger] final(coll).word(i) == word_at(mapped_bytes(region), offs[i])
            },
        },
{
    let rl = region_len(&region);
    match plan_recovery(coll, meta, rl) {
        Err(e) => Err(e),
        Ok(None) => Ok(false),
        Ok(Some(offs)) => {
            coll.adopt(region, &offs);
            Ok(true)
        },
    }
}

} // verus!
