//! Names of metrics and their canonical identity strings.
use vstd::prelude::*;

verus! {

/// The canonical identity of a label set: its pairs as one JSON object,
/// with sorted keys and no whitespace.
pub uninterp spec fn identity_of(labels: Seq<(Seq<char>, Seq<char>)>) -> Seq<u8>;

/// What every canonical identity looks like: it opens with `{`, closes with
/// `}` and holds no newline byte.
pub open spec fn is_identity_text(s: Seq<u8>) -> bool {
    &&& s.len() >= 2
    &&& s[0] == '{' as u8
    &&& s[s.len() - 1] == '}' as u8
    &&& forall|i: int| 0 <= i < s.len() ==> s[i] != '\n' as u8
}

pub open spec fn label_view(p: (String, String)) -> (Seq<char>, Seq<char>) {
    (p.0@, p.1@)
}

/// The name of a metric: a set of key/value labels.
pub trait Name {
    /// The labels, in order.
    spec fn labels(&self) -> Seq<(Seq<char>, Seq<char>)>;

    /// The labels, in order.
    fn pairs(&self) -> (r: Vec<(String, String)>)
        ensures
            r@.map_values(|p: (String, String)| label_view(p)) == self.labels(),
    ;
}

/// A name held as a list of key/value labels.
pub struct Labels {
    pairs: Vec<(String, String)>,
}

impl Labels {
    /// A name made of the given labels.
    pub fn new(pairs: Vec<(String, String)>) -> (r: Labels)
        ensures
            r.labels() == pairs@.map_values(|p: (String, String)| label_view(p)),
    {
        Labels { pairs }
    }
}

impl Name for Labels {
    closed spec fn labels(&self) -> Seq<(Seq<char>, Seq<char>)> {
        self.pairs@.map_values(|p: (String, String)| label_view(p))
    }

    fn pairs(&self) -> (r: Vec<(String, String)>) {
        let mut r: Vec<(String, String)> = Vec::new();
        let mut i: usize = 0;
        while i < self.pairs.len()
            invariant
                i <= self.pairs@.len(),
                r@.len() == i,
                forall|k: int| 0 <= k < i ==> label_view(#[trigger] r@[k]) == label_view(self.pairs@[k]),
            decreases self.pairs@.len() - i,
        {
            let p = &self.pairs[i];
            r.push((p.0.clone(), p.1.clone()));
            i = i + 1;
        }
        assert(r@.map_values(|p: (String, String)| label_view(p)) =~= self.labels());
        r
    }
}

/// The canonical identity string of `name`, as UTF-8 bytes.
pub fn identity<N: Name>(name: &N) -> (r: Vec<u8>)
    ensures
        r@ == identity_of(name.labels()),
        is_identity_text(r@),
{
    let pairs = name.pairs();
    encode_labels(&pairs)
}

/// Relies on `serde_json::to_vec` applied to a `serde_json::Map` of string
/// values: compact JSON whose keys come out sorted (the map is ordered unless
/// serde_json's `preserve_order` feature is on, and it is not), opened by `{`,
/// closed by `}`, with every control character escaped. It cannot fail on a
/// map with string keys.
#[verifier::external_body]
fn encode_labels(pairs: &Vec<(String, String)>) -> (r: Vec<u8>)
    ensures
        r@ == identity_of(pairs@.map_values(|p: (String, String)| label_view(p))),
        is_identity_text(r@),
{
    let map: serde_json::Map<String, serde_json::Value> = pairs
        .iter()
        .map(|p| (p.0.clone(), serde_json::Value::String(p.1.clone())))
        .collect();
    serde_json::to_vec(&map).unwrap_or_default()
}

} // verus!
