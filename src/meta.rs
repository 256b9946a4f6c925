//! The metadata text: one line per slot, `<main_type> <size>[ <suffix>]: <identity>`.
use vstd::prelude::*;
use crate::value::{RawType, main_type_word, suffix_word};

verus! {

/// Why a metadata file cannot describe the values file beside it.
#[derive(Clone, Copy, Debug, PartialEq, Eq, Structural)]
pub enum MetaError {
    /// A line has no size field.
    UnsizedType,
    /// A size field is not a decimal number that fits in `usize`.
    BadSize,
    /// A slot would end past the end of the values file.
    OutOfRange,
    /// A line that is not padding has no `:` before its identity.
    NoDescription,
}

/// The ASCII code of decimal digit `d`.
pub open spec fn digit(d: nat) -> u8 {
    (d + 48) as u8
}

/// The decimal representation of `n`, with no leading zero.
pub open spec fn decimal(n: nat) -> Seq<u8>
    decreases n,
{
    if n < 10 {
        seq![digit(n)]
    } else {
        decimal(n / 10).push(digit(n % 10))
    }
}

/// The type part of a metadata line: main type, size, and suffix if any.
pub open spec fn type_field(t: RawType, size: nat) -> Seq<u8> {
    let suffix = match suffix_word(t) {
        Some(s) => seq![' ' as u8] + s,
        None => Seq::<u8>::empty(),
    };
    main_type_word(t) + seq![' ' as u8] + decimal(size) + suffix
}

/// The metadata line that describes a slot of `size` bytes holding a metric
/// of type `t` named by `id`, without its newline.
pub open spec fn meta_body(id: Seq<u8>, t: RawType, size: nat) -> Seq<u8> {
    type_field(t, size) + seq![':' as u8, ' ' as u8] + id
}

/// The metadata line of a slot, newline included.
pub open spec fn meta_line(id: Seq<u8>, t: RawType, size: nat) -> Seq<u8> {
    meta_body(id, t, size).push('\n' as u8)
}

/// The main type word that marks padding.
pub open spec fn pad_word() -> Seq<u8> {
    seq!['p' as u8, 'a' as u8, 'd' as u8]
}

/// Writes the decimal representation of `n`.
pub fn decimal_bytes(n: usize) -> (r: Vec<u8>)
    ensures
        r@ == decimal(n as nat),
    decreases n,
{
    if n < 10 {
        let mut v: Vec<u8> = Vec::new();
        v.push((n as u8) + 48);
        v
    } else {
        let mut v = decimal_bytes(n / 10);
        v.push(((n % 10) as u8) + 48);
        v
    }
}

/// Appends `tail` to `buf`.
pub fn append(buf: &mut Vec<u8>, tail: &Vec<u8>)
    ensures
        final(buf)@ == old(buf)@ + tail@,
{
    let mut i: usize = 0;
    while i < tail.len()
        invariant
            i <= tail@.len(),
            buf@ == old(buf)@ + tail@.subrange(0, i as int),
        decreases tail@.len() - i,
    {
        buf.push(tail[i]);
        i = i + 1;
        assert(tail@.subrange(0, i as int) == tail@.subrange(0, i - 1).push(tail@[i - 1]));
    }
    assert(tail@.subrange(0, tail@.len() as int) == tail@);
}

/// Writes the metadata line of one slot.
pub fn write_line(buf: &mut Vec<u8>, id: &Vec<u8>, t: RawType, size: usize)
    ensures
        final(buf)@ == old(buf)@ + meta_line(id@, t, size as nat),
{
    let main = t.main_type_bytes();
    append(buf, &main);
    buf.push(' ' as u8);
    let digits = decimal_bytes(size);
    append(buf, &digits);
    match t.suffix_bytes() {
        Some(suffix) => {
            buf.push(' ' as u8);
            append(buf, &suffix);
        },
        None => {},
    }
    buf.push(':' as u8);
    buf.push(' ' as u8);
    append(buf, id);
    buf.push('\n' as u8);
    proof {
        assert(buf@ =~= old(buf)@ + meta_line(id@, t, size as nat));
    }
}


/// `k` is the position of the first byte `b` of `s`.
pub open spec fn is_first(s: Seq<u8>, b: u8, k: int) -> bool {
    &&& 0 <= k < s.len()
    &&& s[k] == b
    &&& forall|i: int| 0 <= i < k ==> s[i] != b
}

/// The position of the first byte `b` of `s`, if any.
pub open spec fn find_byte(s: Seq<u8>, b: u8) -> Option<int> {
    if exists|k: int| is_first(s, b, k) {
        Some(choose|k: int| is_first(s, b, k))
    } else {
        None
    }
}

pub proof fn lemma_find_byte(s: Seq<u8>, b: u8, k: int)
    requires
        is_first(s, b, k),
    ensures
        find_byte(s, b) == Some(k),
{
    let c = choose|k: int| is_first(s, b, k);
    assert(is_first(s, b, c));
    if c < k {
        assert(s[c] != b);
    } else if k < c {
        assert(s[k] != b);
    }
}

pub proof fn lemma_find_none(s: Seq<u8>, b: u8)
    requires
        forall|i: int| 0 <= i < s.len() ==> s[i] != b,
    ensures
        find_byte(s, b) is None,
{
    if exists|k: int| is_first(s, b, k) {
        let k = choose|k: int| is_first(s, b, k);
        assert(s[k] != b);
    }
}

/// `s` cut at its first byte `b`: what comes before it, and what comes after
/// it if there is one.
pub open spec fn split_first(s: Seq<u8>, b: u8) -> (Seq<u8>, Option<Seq<u8>>) {
    match find_byte(s, b) {
        Some(k) => (s.subrange(0, k), Some(s.subrange(k + 1, s.len() as int))),
        None => (s, None),
    }
}

/// Where the first line of `t` ends: at its first newline, or at its end.
pub open spec fn line_end(t: Seq<u8>) -> int {
    match find_byte(t, '\n' as u8) {
        Some(k) => k,
        None => t.len() as int,
    }
}

/// A line without the carriage return that may end it.
pub open spec fn strip_cr(l: Seq<u8>) -> Seq<u8> {
    if l.len() > 0 && l.last() == '\r' as u8 {
        l.drop_last()
    } else {
        l
    }
}

/// The lines of `t`: split at each newline, a carriage return before it
/// dropped, and no empty line after a final newline.
pub open spec fn lines_of(t: Seq<u8>) -> Seq<Seq<u8>>
    decreases t.len(),
{
    if t.len() == 0 {
        Seq::empty()
    } else {
        let k = line_end(t);
        if 0 <= k < t.len() {
            seq![strip_cr(t.subrange(0, k))] + lines_of(t.subrange(k + 1, t.len() as int))
        } else {
            seq![strip_cr(t)]
        }
    }
}

/// ASCII whitespace.
pub open spec fn is_space(b: u8) -> bool {
    b == 32 || (9 <= b && b <= 13)
}

pub open spec fn trim_start(s: Seq<u8>) -> Seq<u8>
    decreases s.len(),
{
    if s.len() > 0 && is_space(s[0]) {
        trim_start(s.drop_first())
    } else {
        s
    }
}

pub open spec fn trim_end(s: Seq<u8>) -> Seq<u8>
    decreases s.len(),
{
    if s.len() > 0 && is_space(s.last()) {
        trim_end(s.drop_last())
    } else {
        s
    }
}

/// `s` without its leading and trailing ASCII whitespace.
pub open spec fn trim(s: Seq<u8>) -> Seq<u8> {
    trim_end(trim_start(s))
}

pub open spec fn is_digit(b: u8) -> bool {
    48 <= b && b <= 57
}

/// The number that the decimal digits `s` write.
pub open spec fn digits_value(s: Seq<u8>) -> nat
    decreases s.len(),
{
    if s.len() == 0 {
        0
    } else {
        digits_value(s.drop_last()) * 10 + (s.last() - 48) as nat
    }
}

/// `s` read as a decimal `usize`: one or more digits, and no overflow.
pub open spec fn parse_decimal(s: Seq<u8>) -> Option<nat> {
    if s.len() > 0 && (forall|i: int| 0 <= i < s.len() ==> is_digit(#[trigger] s[i]))
        && digits_value(s) <= usize::MAX {
        Some(digits_value(s))
    } else {
        None
    }
}

/// The fields of a metadata line: main type, size, suffix, and what follows
/// the first `:`; or why the line has no size.
pub open spec fn line_fields(line: Seq<u8>) -> Result<(Seq<u8>, nat, Option<Seq<u8>>, Option<Seq<u8>>), MetaError> {
    let (head, rest) = split_first(line, ':' as u8);
    let (kind, after_kind) = split_first(head, ' ' as u8);
    match after_kind {
        None => Err(MetaError::UnsizedType),
        Some(r1) => {
            let (size_field, after_size) = split_first(r1, ' ' as u8);
            match parse_decimal(size_field) {
                None => Err(MetaError::BadSize),
                Some(size) => {
                    let suffix = match after_size {
                        None => None,
                        Some(r2) => Some(split_first(r2, ' ' as u8).0),
                    };
                    Ok((kind, size, suffix, rest))
                },
            }
        },
    }
}

pub proof fn lemma_digits_prefix(s: Seq<u8>, j: int)
    requires
        0 <= j <= s.len(),
    ensures
        digits_value(s) >= digits_value(s.subrange(0, j)),
    decreases s.len(),
{
    if j < s.len() {
        lemma_digits_prefix(s.drop_last(), j);
        assert(s.drop_last().subrange(0, j) == s.subrange(0, j));
    } else {
        assert(s.subrange(0, j) == s);
    }
}

/// Whether `a` and `b` hold the same bytes.
pub fn bytes_eq(a: &Vec<u8>, b: &Vec<u8>) -> (r: bool)
    ensures
        r == (a@ == b@),
{
    if a.len() != b.len() {
        return false;
    }
    let mut i: usize = 0;
    while i < a.len()
        invariant
            i <= a@.len() == b@.len(),
            forall|k: int| 0 <= k < i ==> a@[k] == b@[k],
        decreases a@.len() - i,
    {
        if a[i] != b[i] {
            return false;
        }
        i = i + 1;
    }
    assert(a@ =~= b@);
    true
}

/// Copies `v[lo..hi]`.
pub fn copy_range(v: &Vec<u8>, lo: usize, hi: usize) -> (r: Vec<u8>)
    requires
        lo <= hi <= v@.len(),
    ensures
        r@ == v@.subrange(lo as int, hi as int),
{
    let mut r: Vec<u8> = Vec::new();
    let mut i = lo;
    while i < hi
        invariant
            lo <= i <= hi <= v@.len(),
            r@ == v@.subrange(lo as int, i as int),
        decreases hi - i,
    {
        r.push(v[i]);
        i = i + 1;
        assert(v@.subrange(lo as int, i as int) == v@.subrange(lo as int, i - 1).push(v@[i - 1]));
    }
    r
}

/// The position of the first byte `b` of `v[from..]`, counted from `from`.
pub fn find_from(v: &Vec<u8>, from: usize, b: u8) -> (r: Option<usize>)
    requires
        from <= v@.len(),
    ensures
        match find_byte(v@.subrange(from as int, v@.len() as int), b) {
            Some(k) => r == Some((from + k) as usize),
            None => r is None,
        },
        r is Some ==> from <= r.unwrap() < v@.len(),
{
    let ghost s = v@.subrange(from as int, v@.len() as int);
    let mut i = from;
    while i < v.len()
        invariant
            from <= i <= v@.len(),
            s == v@.subrange(from as int, v@.len() as int),
            forall|k: int| 0 <= k < i - from ==> s[k] != b,
        decreases v@.len() - i,
    {
        if v[i] == b {
            proof {
                lemma_find_byte(s, b, i - from);
            }
            return Some(i);
        }
        i = i + 1;
    }
    proof {
        lemma_find_none(s, b);
    }
    None
}

/// Splits `v` at its first byte `b`.
pub fn split_at_byte(v: &Vec<u8>, b: u8) -> (r: (Vec<u8>, Option<Vec<u8>>))
    ensures
        r.0@ == split_first(v@, b).0,
        r.1 is Some == split_first(v@, b).1 is Some,
        r.1 is Some ==> r.1.unwrap()@ == split_first(v@, b).1.unwrap(),
{
    let n = v.len();
    assert(v@.subrange(0, n as int) == v@);
    match find_from(v, 0, b) {
        Some(k) => (copy_range(v, 0, k), Some(copy_range(v, k + 1, n))),
        None => (copy_range(v, 0, n), None),
    }
}

/// `v` without leading and trailing ASCII whitespace.
pub fn trim_bytes(v: &Vec<u8>) -> (r: Vec<u8>)
    ensures
        r@ == trim(v@),
{
    let mut a: usize = 0;
    assert(v@.subrange(0, v@.len() as int) == v@);
    while a < v.len() && (v[a] == 32 || (9 <= v[a] && v[a] <= 13))
        invariant
            a <= v@.len(),
            trim_start(v@) == trim_start(v@.subrange(a as int, v@.len() as int)),
        decreases v@.len() - a,
    {
        assert(v@.subrange(a as int, v@.len() as int).drop_first() == v@.subrange(a + 1, v@.len() as int));
        a = a + 1;
    }
    assert(v@.subrange(0, v@.len() as int) == v@);
    let ghost start = v@.subrange(a as int, v@.len() as int);
    assert(trim_start(v@) == start);
    let mut b: usize = v.len();
    while b > a && (v[b - 1] == 32 || (9 <= v[b - 1] && v[b - 1] <= 13))
        invariant
            a <= b <= v@.len(),
            start == v@.subrange(a as int, v@.len() as int),
            trim_end(start) == trim_end(v@.subrange(a as int, b as int)),
        decreases b,
    {
        assert(v@.subrange(a as int, b as int).drop_last() == v@.subrange(a as int, b - 1));
        b = b - 1;
    }
    copy_range(v, a, b)
}

/// Reads `v` as a decimal `usize`.
pub fn parse_usize(v: &Vec<u8>) -> (r: Option<usize>)
    ensures
        match parse_decimal(v@) {
            Some(n) => r == Some(n as usize),
            None => r is None,
        },
{
    if v.len() == 0 {
        return None;
    }
    let mut acc: u128 = 0;
    let mut i: usize = 0;
    while i < v.len()
        invariant
            i <= v@.len(),
            forall|k: int| 0 <= k < i ==> is_digit(#[trigger] v@[k]),
            acc == digits_value(v@.subrange(0, i as int)),
            acc <= usize::MAX,
        decreases v@.len() - i,
    {
        let c = v[i];
        if c < 48 || c > 57 {
            return None;
        }
        let d = (c - 48) as u128;
        proof {
            assert(v@.subrange(0, i + 1).drop_last() == v@.subrange(0, i as int));
        }
        let next = acc * 10 + d;
        if next > usize::MAX as u128 {
            proof {
                lemma_digits_prefix(v@, i + 1);
            }
            return None;
        }
        acc = next;
        i = i + 1;
    }
    assert(v@.subrange(0, v@.len() as int) == v@);
    Some(acc as usize)
}

} // verus!
