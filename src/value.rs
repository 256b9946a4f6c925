use vstd::prelude::*;

verus! {

/// A kind of level (gauge) metric.
#[derive(Clone, Copy, Debug, PartialEq, Eq, Structural)]
pub enum LevelKind {
    /// Signed integer gauge.
    Signed,
    /// Floating point gauge.
    Float,
}

/// The type of a metric as it is recorded in the metadata file.
#[derive(Clone, Copy, Debug, PartialEq, Eq, Structural)]
pub enum RawType {
    /// A level (gauge) metric.
    Level(LevelKind),
    /// An ever-increasing counter.
    Counter,
    /// A string value.
    State,
}

/// A value stored in a collection: what it is, and how many bytes its slot
/// takes in the values file.
pub trait Value {
    /// The type of the value.
    spec fn kind(&self) -> RawType;

    /// The type of the value as recorded in the metadata file.
    fn raw_type(&self) -> (r: RawType)
        ensures
            r == self.kind(),
    ;

    /// Size in bytes of the value's slot.
    fn raw_size(&self) -> (r: usize)
        ensures
            r == 8,
    ;
}

/// The main type word of a metadata line, as bytes.
pub open spec fn main_type_word(t: RawType) -> Seq<u8> {
    match t {
        RawType::Level(_) => seq!['l' as u8, 'e' as u8, 'v' as u8, 'e' as u8, 'l' as u8],
        RawType::Counter => seq!['c' as u8, 'o' as u8, 'u' as u8, 'n' as u8, 't' as u8, 'e' as u8, 'r' as u8],
        RawType::State => seq!['s' as u8, 't' as u8, 'a' as u8, 't' as u8, 'e' as u8],
    }
}

/// The type suffix of a metadata line, as bytes; only levels have one.
pub open spec fn suffix_word(t: RawType) -> Option<Seq<u8>> {
    match t {
        RawType::Level(LevelKind::Signed) => Some(seq!['s' as u8, 'i' as u8, 'g' as u8, 'n' as u8, 'e' as u8, 'd' as u8]),
        RawType::Level(LevelKind::Float) => Some(seq!['f' as u8, 'l' as u8, 'o' as u8, 'a' as u8, 't' as u8]),
        _ => None,
    }
}

/// The main type word as text.
pub open spec fn main_type_text(t: RawType) -> Seq<char> {
    match t {
        RawType::Level(_) => "level"@,
        RawType::Counter => "counter"@,
        RawType::State => "state"@,
    }
}

/// The type suffix as text.
pub open spec fn suffix_text(t: RawType) -> Option<Seq<char>> {
    match t {
        RawType::Level(LevelKind::Signed) => Some("signed"@),
        RawType::Level(LevelKind::Float) => Some("float"@),
        _ => None,
    }
}

impl RawType {
    /// Returns the JSON-friendly name of the type.
    pub fn as_json_str(&self) -> (r: &'static str)
        ensures
            r@ == main_type_text(*self),
    {
        match *self {
            RawType::Level(_) => "level",
            RawType::Counter => "counter",
            RawType::State => "state",
        }
    }

    /// Returns the main type of the value as written in the metadata file.
    pub fn main_type(&self) -> (r: &'static str)
        ensures
            r@ == main_type_text(*self),
    {
        match *self {
            RawType::Level(_) => "level",
            RawType::Counter => "counter",
            RawType::State => "state",
        }
    }

    /// Returns the type suffix of the value as written in the metadata file.
    pub fn type_suffix(&self) -> (r: Option<&'static str>)
        ensures
            r.is_some() == suffix_text(*self).is_some(),
            r.is_some() ==> r.unwrap()@ == suffix_text(*self).unwrap(),
    {
        match *self {
            RawType::Level(LevelKind::Signed) => Some("signed"),
            RawType::Level(LevelKind::Float) => Some("float"),
            RawType::Counter => None,
            RawType::State => None,
        }
    }

    /// The type suffix as bytes, for writing and reading metadata.
    pub fn suffix_bytes(&self) -> (r: Option<Vec<u8>>)
        ensures
            r is Some == suffix_word(*self) is Some,
            r is Some ==> r.unwrap()@ == suffix_word(*self).unwrap(),
    {
        match *self {
            RawType::Level(LevelKind::Signed) => {
                let v = vec!['s' as u8, 'i' as u8, 'g' as u8, 'n' as u8, 'e' as u8, 'd' as u8];
                assert(v@ =~= suffix_word(*self).unwrap());
                Some(v)
            },
            RawType::Level(LevelKind::Float) => {
                let v = vec!['f' as u8, 'l' as u8, 'o' as u8, 'a' as u8, 't' as u8];
                assert(v@ =~= suffix_word(*self).unwrap());
                Some(v)
            },
            _ => None,
        }
    }

    /// The main type word as bytes, for writing metadata.
    pub fn main_type_bytes(&self) -> (r: Vec<u8>)
        ensures
            r@ == main_type_word(*self),
    {
        let r = match *self {
            RawType::Level(_) => vec!['l' as u8, 'e' as u8, 'v' as u8, 'e' as u8, 'l' as u8],
            RawType::Counter => vec!['c' as u8, 'o' as u8, 'u' as u8, 'n' as u8, 't' as u8, 'e' as u8, 'r' as u8],
            RawType::State => vec!['s' as u8, 't' as u8, 'a' as u8, 't' as u8, 'e' as u8],
        };
        proof {
            assert(r@ =~= main_type_word(*self));
        }
        r
    }
}

} // verus!
