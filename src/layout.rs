//! Where each metric's slot lies, how large the values file is, and what the
//! metadata file says of it.
use vstd::prelude::*;
use crate::collection::Collection;
use crate::meta::{
    meta_line, meta_body, write_line, type_field, line_fields, is_first, lemma_find_byte,
    lemma_find_none, parse_decimal, digits_value, trim, trim_start, trim_end, decimal, lines_of,
    line_end, pad_word,
};
use crate::name::is_identity_text;
use crate::value::{RawType, LevelKind, main_type_word, suffix_word};
use crate::region::SLOT_SIZE;

verus! {

/// Size of a page of the values file.
pub const PAGE_SIZE: usize = 4096;

/// Size of the values file for `payload` bytes of slots: whole pages, and at
/// least one.
pub open spec fn region_size(payload: nat) -> nat {
    if payload == 0 {
        4096
    } else {
        ((payload + 4095) / 4096) * 4096
    }
}

/// The metadata lines of `c`, one per metric in order, without newlines.
pub open spec fn meta_bodies(c: &Collection) -> Seq<Seq<u8>> {
    Seq::new(c.len(), |i: int| meta_body(c.identity(i), c.kind(i), 8))
}

/// The metadata text of `c`: one line per metric in order.
pub open spec fn meta_text(c: &Collection) -> Seq<u8> {
    Seq::new(c.len(), |i: int| meta_line(c.identity(i), c.kind(i), 8)).flatten()
}

/// Every byte of a type word is a lower-case ASCII letter.
pub open spec fn is_word(s: Seq<u8>) -> bool {
    forall|i: int| 0 <= i < s.len() ==> 97 <= #[trigger] s[i] <= 122
}

pub proof fn lemma_type_words(t: RawType)
    ensures
        is_word(main_type_word(t)),
        main_type_word(t).len() > 0,
        main_type_word(t) != pad_word(),
        suffix_word(t) is Some ==> is_word(suffix_word(t).unwrap()),
{
    match t {
        RawType::Level(k) => {
            assert(main_type_word(t).len() != pad_word().len());
            match k {
                LevelKind::Signed => {},
                LevelKind::Float => {},
            }
        },
        RawType::Counter => {
            assert(main_type_word(t).len() != pad_word().len());
        },
        RawType::State => {
            assert(main_type_word(t).len() != pad_word().len());
        },
    }
}

/// The main type and the suffix of a metadata line tell the type apart.
pub proof fn lemma_type_words_distinct(a: RawType, b: RawType)
    requires
        main_type_word(a) == main_type_word(b),
        suffix_word(a) == suffix_word(b),
    ensures
        a == b,
{
    let ma = main_type_word(a);
    let mb = main_type_word(b);
    match (a, b) {
        (RawType::Counter, RawType::State) => {
            assert(ma.len() != mb.len());
        },
        (RawType::State, RawType::Counter) => {
            assert(ma.len() != mb.len());
        },
        (RawType::Level(_), RawType::Counter) => {
            assert(ma.len() != mb.len());
        },
        (RawType::Counter, RawType::Level(_)) => {
            assert(ma.len() != mb.len());
        },
        (RawType::Level(_), RawType::State) => {
            assert(ma[0] != mb[0]);
        },
        (RawType::State, RawType::Level(_)) => {
            assert(ma[0] != mb[0]);
        },
        (RawType::Level(x), RawType::Level(y)) => {
            if x != y {
                assert(suffix_word(a).unwrap().len() != suffix_word(b).unwrap().len());
            }
        },
        _ => {},
    }
}

/// A published metadata line reads back as its main type, an 8-byte size,
/// its suffix, and the identity after the first `:`.
pub proof fn lemma_fields_of_line(id: Seq<u8>, t: RawType)
    requires
        is_identity_text(id),
    ensures
        line_fields(meta_body(id, t, 8)) == Ok::<_, crate::meta::MetaError>(
            (main_type_word(t), 8nat, suffix_word(t), Some(seq![' ' as u8] + id)),
        ),
        trim(seq![' ' as u8] + id) == id,
{
    lemma_type_words(t);
    let main = main_type_word(t);
    let sp = match suffix_word(t) {
        Some(s) => seq![' ' as u8] + s,
        None => Seq::<u8>::empty(),
    };
    assert(decimal(8) =~= seq![56u8]);
    let tf = type_field(t, 8);
    assert(tf =~= main + seq![' ' as u8, 56u8] + sp);
    let body = meta_body(id, t, 8);
    assert forall|i: int| 0 <= i < tf.len() implies #[trigger] tf[i] != ':' as u8 by {
        if i >= main.len() + 2 {
            let k = i - main.len() - 2;
            assert(tf[i] == sp[k]);
            if k > 0 {
                assert(sp[k] == suffix_word(t).unwrap()[k - 1]);
            }
        }
    }
    assert(is_first(body, ':' as u8, tf.len() as int));
    lemma_find_byte(body, ':' as u8, tf.len() as int);
    assert(body.subrange(0, tf.len() as int) =~= tf);
    assert(body.subrange(tf.len() as int + 1, body.len() as int) =~= seq![' ' as u8] + id);
    assert(is_first(tf, ' ' as u8, main.len() as int));
    lemma_find_byte(tf, ' ' as u8, main.len() as int);
    assert(tf.subrange(0, main.len() as int) =~= main);
    let r1 = tf.subrange(main.len() as int + 1, tf.len() as int);
    assert(r1 =~= seq![56u8] + sp);
    assert(digits_value(seq![56u8]) == 8) by {
        assert(seq![56u8].drop_last() =~= Seq::<u8>::empty());
        assert(digits_value(Seq::<u8>::empty()) == 0);
        assert(seq![56u8].last() == 56u8);
    }
    assert(parse_decimal(seq![56u8]) == Some(8nat));
    match suffix_word(t) {
        Some(s) => {
            assert(is_first(r1, ' ' as u8, 1));
            lemma_find_byte(r1, ' ' as u8, 1);
            assert(r1.subrange(0, 1) =~= seq![56u8]);
            assert(r1.subrange(2, r1.len() as int) =~= s);
            assert forall|i: int| 0 <= i < s.len() implies s[i] != ' ' as u8 by {}
            lemma_find_none(s, ' ' as u8);
        },
        None => {
            assert(r1 =~= seq![56u8]);
            lemma_find_none(r1, ' ' as u8);
        },
    }
    let sid = seq![' ' as u8] + id;
    assert(sid.drop_first() =~= id);
    assert(trim_start(id) == id);
    assert(trim_start(sid) == id);
    assert(id.last() == '}' as u8);
    assert(trim_end(id) == id);
}

/// Splitting lines that each end with one newline gives them back.
pub proof fn lemma_lines_of_joined(lines: Seq<Seq<u8>>, bodies: Seq<Seq<u8>>)
    requires
        lines.len() == bodies.len(),
        forall|i: int| 0 <= i < lines.len() ==> #[trigger] lines[i] == bodies[i].push('\n' as u8),
        forall|i: int|
            0 <= i < bodies.len() ==> (#[trigger] bodies[i]).len() > 0 && bodies[i].last() != '\r' as u8
                && forall|k: int| 0 <= k < bodies[i].len() ==> bodies[i][k] != '\n' as u8,
    ensures
        lines_of(lines.flatten()) == bodies,
    decreases lines.len(),
{
    if lines.len() == 0 {
        assert(lines_of(lines.flatten()) =~= bodies);
    } else {
        let b = bodies[0];
        let rest = lines.drop_first();
        let text = lines.flatten();
        assert(text == lines[0] + rest.flatten());
        assert(lines[0] == b.push('\n' as u8));
        assert(is_first(text, '\n' as u8, b.len() as int));
        lemma_find_byte(text, '\n' as u8, b.len() as int);
        assert(line_end(text) == b.len());
        assert(text.subrange(0, b.len() as int) =~= b);
        assert(text.subrange(b.len() as int + 1, text.len() as int) =~= rest.flatten());
        lemma_lines_of_joined(rest, bodies.drop_first());
        assert(lines_of(text) =~= seq![b] + bodies.drop_first());
        assert(seq![b] + bodies.drop_first() =~= bodies);
    }
}

/// The metadata text of `c` splits into one line per metric.
pub proof fn lemma_meta_lines(c: &Collection)
    requires
        c.wf(),
    ensures
        lines_of(meta_text(c)) == meta_bodies(c),
{
    c.lemma_len_bound();
    let lines = Seq::new(c.len(), |i: int| meta_line(c.identity(i), c.kind(i), 8));
    let bodies = meta_bodies(c);
    assert forall|i: int|
        0 <= i < bodies.len() implies (#[trigger] bodies[i]).len() > 0 && bodies[i].last() != '\r' as u8
            && forall|k: int| 0 <= k < bodies[i].len() ==> bodies[i][k] != '\n' as u8 by {
        let id = c.identity(i);
        let t = c.kind(i);
        lemma_type_words(t);
        assert(is_identity_text(id));
        let tf = type_field(t, 8);
        let sp = match suffix_word(t) {
            Some(s) => seq![' ' as u8] + s,
            None => Seq::<u8>::empty(),
        };
        assert(decimal(8) =~= seq![56u8]);
        assert(tf =~= main_type_word(t) + seq![' ' as u8, 56u8] + sp);
        assert forall|k: int| 0 <= k < bodies[i].len() implies bodies[i][k] != '\n' as u8 by {
            if k < tf.len() {
                if k >= main_type_word(t).len() + 2 {
                    let m = k - main_type_word(t).len() - 2;
                    if m > 0 {
                        assert(sp[m] == suffix_word(t).unwrap()[m - 1]);
                    }
                }
            } else if k >= tf.len() + 2 {
                assert(bodies[i][k] == id[k - tf.len() - 2]);
            }
        }
    }
    lemma_lines_of_joined(lines, bodies);
}

impl Collection {
    /// Size of the values file for these metrics: their slots rounded up to
    /// whole pages, and at least one page.
    pub fn values_size(&self) -> (r: usize)
        requires
            self.wf(),
        ensures
            r == region_size(8 * self.len()),
    {
        proof {
            self.lemma_len_bound();
        }
        let payload = self.count() * SLOT_SIZE;
        if payload == 0 {
            PAGE_SIZE
        } else {
            assert((payload + 4095) / 4096 * 4096 <= payload + 4095) by (nonlinear_arith);
            (payload + 4095) / PAGE_SIZE * PAGE_SIZE
        }
    }

    /// The metadata text that describes the layout of [`Collection::attach`]:
    /// one line per metric, in order, for its 8-byte slot.
    pub fn metadata(&self) -> (r: Vec<u8>)
        requires
            self.wf(),
        ensures
            r@ == meta_text(self),
    {
        let n = self.count();
        let mut buf: Vec<u8> = Vec::new();
        let mut i: usize = 0;
        let ghost lines = Seq::new(n as nat, |k: int| meta_line(self.identity(k), self.kind(k), 8));
        assert(lines.subrange(0, 0).flatten() =~= Seq::<u8>::empty());
        while i < n
            invariant
                i <= n == self.len(),
                self.wf(),
                lines == Seq::new(n as nat, |k: int| meta_line(self.identity(k), self.kind(k), 8)),
                buf@ == lines.subrange(0, i as int).flatten(),
            decreases n - i,
        {
            write_line(&mut buf, self.identity_at(i), self.kind_at(i), SLOT_SIZE);
            proof {
                lines.subrange(0, i as int).lemma_flatten_push(lines[i as int]);
                assert(lines.subrange(0, i + 1) =~= lines.subrange(0, i as int).push(lines[i as int]));
            }
            i = i + 1;
        }
        assert(lines.subrange(0, n as int) =~= lines);
        buf
    }
}

} // verus!
