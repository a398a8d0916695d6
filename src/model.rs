//! The values that an encoded message body holds, the errors of encoding, and
//! their mathematical models.
use vstd::prelude::*;

verus! {

/// The primitive kinds of the bus's type system that an argument can name.
#[derive(Clone, Copy, Debug, PartialEq, Eq, Structural)]
pub enum ScalarKind {
    Int16,
    Uint16,
    Int32,
    Uint32,
    Int64,
    Uint64,
    Byte,
    /// A double-precision float; carried as its checked text, which the
    /// transport converts to a number.
    Double,
    Boolean,
    Str,
    ObjectPath,
    Signature,
}

/// One primitive value.
#[derive(Clone, Debug, PartialEq)]
pub enum Scalar {
    Int16(i16),
    Uint16(u16),
    Int32(i32),
    Uint32(u32),
    Int64(i64),
    Uint64(u64),
    Byte(u8),
    Double(String),
    Boolean(bool),
    Str(String),
    ObjectPath(String),
    Signature(String),
}

/// The model of a [`Scalar`]: text as a sequence of characters.
pub enum ScalarModel {
    Int16(i16),
    Uint16(u16),
    Int32(i32),
    Uint32(u32),
    Int64(i64),
    Uint64(u64),
    Byte(u8),
    Double(Seq<char>),
    Boolean(bool),
    Str(Seq<char>),
    ObjectPath(Seq<char>),
    Signature(Seq<char>),
}

impl View for Scalar {
    type V = ScalarModel;

    open spec fn view(&self) -> ScalarModel {
        match self {
            Scalar::Int16(v) => ScalarModel::Int16(*v),
            Scalar::Uint16(v) => ScalarModel::Uint16(*v),
            Scalar::Int32(v) => ScalarModel::Int32(*v),
            Scalar::Uint32(v) => ScalarModel::Uint32(*v),
            Scalar::Int64(v) => ScalarModel::Int64(*v),
            Scalar::Uint64(v) => ScalarModel::Uint64(*v),
            Scalar::Byte(v) => ScalarModel::Byte(*v),
            Scalar::Double(s) => ScalarModel::Double(s@),
            Scalar::Boolean(b) => ScalarModel::Boolean(*b),
            Scalar::Str(s) => ScalarModel::Str(s@),
            Scalar::ObjectPath(s) => ScalarModel::ObjectPath(s@),
            Scalar::Signature(s) => ScalarModel::Signature(s@),
        }
    }
}

/// One key and its value in a dictionary field.
#[derive(Clone, Debug, PartialEq)]
pub struct DictEntry {
    pub key: String,
    pub value: Scalar,
}

/// One field of a message body.
#[derive(Clone, Debug, PartialEq)]
pub enum Field {
    Scalar(Scalar),
    /// Elements of one kind, in order.
    Array(ScalarKind, Vec<Scalar>),
    /// String keys, each once, with values of one kind.
    Dict(ScalarKind, Vec<DictEntry>),
}

/// The model of a [`Field`].
pub enum FieldModel {
    Scalar(ScalarModel),
    Array(ScalarKind, Seq<ScalarModel>),
    Dict(ScalarKind, Map<Seq<char>, ScalarModel>),
}

/// No key occurs twice among `s`.
pub open spec fn keys_unique(s: Seq<DictEntry>) -> bool {
    forall|i: int, j: int|
        0 <= i < s.len() && 0 <= j < s.len() && #[trigger] s[i].key@ == #[trigger] s[j].key@
            ==> i == j
}

/// Whether some entry of `s` has key `k`.
pub open spec fn has_key(s: Seq<DictEntry>, k: Seq<char>) -> bool {
    exists|i: int| 0 <= i < s.len() && #[trigger] s[i].key@ == k
}

/// The mapping that the entries `s` hold.
pub open spec fn entries_map(s: Seq<DictEntry>) -> Map<Seq<char>, ScalarModel> {
    Map::new(
        |k: Seq<char>| has_key(s, k),
        |k: Seq<char>| s[choose|i: int| 0 <= i < s.len() && #[trigger] s[i].key@ == k].value@,
    )
}

/// Overwriting the entry that holds a key keeps keys unique and maps that key
/// to the new value.
pub proof fn lemma_entries_set(s: Seq<DictEntry>, i: int, e: DictEntry)
    requires
        keys_unique(s),
        0 <= i < s.len(),
        s[i].key@ == e.key@,
    ensures
        keys_unique(s.update(i, e)),
        entries_map(s.update(i, e)) == entries_map(s).insert(e.key@, e.value@),
{
    let t = s.update(i, e);
    assert(forall|j: int| 0 <= j < s.len() ==> #[trigger] t[j].key@ == s[j].key@);
    assert(keys_unique(t));
    let a = entries_map(t);
    let b = entries_map(s).insert(e.key@, e.value@);
    assert forall|k: Seq<char>| a.dom().contains(k) <==> b.dom().contains(k) by {
        if has_key(s, k) {
            let j = choose|j: int| 0 <= j < s.len() && #[trigger] s[j].key@ == k;
            assert(t[j].key@ == k);
        }
        if has_key(t, k) {
            let j = choose|j: int| 0 <= j < t.len() && #[trigger] t[j].key@ == k;
            assert(s[j].key@ == k);
        }
    }
    assert forall|k: Seq<char>| a.dom().contains(k) implies a[k] == b[k] by {
        let j = choose|j: int| 0 <= j < t.len() && #[trigger] t[j].key@ == k;
        if k == e.key@ {
            assert(t[i].key@ == k);
        } else {
            assert(s[j].key@ == k);
            let j2 = choose|j2: int| 0 <= j2 < s.len() && #[trigger] s[j2].key@ == k;
            assert(s[j2].key@ == s[j].key@);
        }
    }
    assert(a =~= b);
}

/// Adding an entry for a new key keeps keys unique and maps that key to its
/// value.
pub proof fn lemma_entries_push(s: Seq<DictEntry>, e: DictEntry)
    requires
        keys_unique(s),
        !has_key(s, e.key@),
    ensures
        keys_unique(s.push(e)),
        entries_map(s.push(e)) == entries_map(s).insert(e.key@, e.value@),
{
    let t = s.push(e);
    assert(forall|j: int| 0 <= j < s.len() ==> #[trigger] t[j] == s[j]);
    assert(keys_unique(t));
    let a = entries_map(t);
    let b = entries_map(s).insert(e.key@, e.value@);
    assert forall|k: Seq<char>| a.dom().contains(k) <==> b.dom().contains(k) by {
        if has_key(s, k) {
            let j = choose|j: int| 0 <= j < s.len() && #[trigger] s[j].key@ == k;
            assert(t[j].key@ == k);
        }
        if k == e.key@ {
            assert(t[s.len() as int].key@ == k);
        }
        if has_key(t, k) && k != e.key@ {
            let j = choose|j: int| 0 <= j < t.len() && #[trigger] t[j].key@ == k;
            assert(s[j].key@ == k);
        }
    }
    assert forall|k: Seq<char>| a.dom().contains(k) implies a[k] == b[k] by {
        let j = choose|j: int| 0 <= j < t.len() && #[trigger] t[j].key@ == k;
        if k == e.key@ {
            assert(t[s.len() as int].key@ == k);
        } else {
            assert(s[j].key@ == k);
            let j2 = choose|j2: int| 0 <= j2 < s.len() && #[trigger] s[j2].key@ == k;
            assert(s[j2].key@ == s[j].key@);
        }
    }
    assert(a =~= b);
}

/// Stores `value` under `key`: an existing entry for the key is overwritten,
/// else a new entry is added.
pub fn insert_entry(entries: &mut Vec<DictEntry>, key: String, value: Scalar)
    requires
        keys_unique(old(entries)@),
    ensures
        keys_unique(final(entries)@),
        entries_map(final(entries)@) == entries_map(old(entries)@).insert(key@, value@),
{
    let ghost start = entries@;
    let mut i: usize = 0;
    while i < entries.len()
        invariant
            entries@ == start,
            old(entries)@ == start,
            keys_unique(start),
            i <= start.len(),
            forall|j: int| 0 <= j < i ==> #[trigger] start[j].key@ != key@,
        decreases entries.len() - i,
    {
        if entries[i].key == key {
            let e = DictEntry { key, value };
            proof {
                lemma_entries_set(start, i as int, e);
            }
            entries.set(i, e);
            assert(entries@ == start.update(i as int, e));
            return;
        }
        i = i + 1;
    }
    let e = DictEntry { key, value };
    proof {
        lemma_entries_push(start, e);
    }
    entries.push(e);
}

impl View for Field {
    type V = FieldModel;

    open spec fn view(&self) -> FieldModel {
        match self {
            Field::Scalar(s) => FieldModel::Scalar(s@),
            Field::Array(k, v) => FieldModel::Array(*k, v@.map_values(|e: Scalar| e@)),
            Field::Dict(k, v) => FieldModel::Dict(*k, entries_map(v@)),
        }
    }
}

impl Field {
    /// A dictionary field holds each key once.
    pub open spec fn well_formed(&self) -> bool {
        match self {
            Field::Dict(_, v) => keys_unique(v@),
            _ => true,
        }
    }
}

/// A message body: its fields in order.
#[derive(Clone, Debug, PartialEq)]
pub struct Body {
    pub fields: Vec<Field>,
}

impl View for Body {
    type V = Seq<FieldModel>;

    open spec fn view(&self) -> Seq<FieldModel> {
        self.fields@.map_values(|f: Field| f@)
    }
}

impl Body {
    pub open spec fn well_formed(&self) -> bool {
        forall|i: int| 0 <= i < self.fields@.len() ==> #[trigger] self.fields@[i].well_formed()
    }
}

/// Why a value's text was not accepted for its kind.
#[derive(Clone, Copy, Debug, PartialEq, Eq, Structural)]
pub enum ValueCause {
    NotANumber,
    OutOfRange,
    NotABoolean,
    InvalidObjectPath,
    InvalidSignature,
}

/// Why a list of arguments could not be encoded.
#[derive(Clone, Debug, PartialEq)]
pub enum EncodeError {
    /// The argument has no `:` after its type.
    MalformedToken(String),
    /// The type before the first `:` is not known.
    UnsupportedType(String),
    /// The text does not denote a value of the kind.
    InvalidValue { kind: ScalarKind, raw: String, cause: ValueCause },
    /// An array's payload has no `:` after its element type.
    InvalidArraySpec(String),
    UnsupportedArrayElementType(String),
    /// A dictionary's payload lacks the `key:value:pairs` shape.
    InvalidDictSpec(String),
    /// A dictionary's list has an odd number of items.
    OddPairCount(String),
    UnsupportedDictTypes(String, String),
}

/// The model of an [`EncodeError`].
pub enum ErrorModel {
    MalformedToken(Seq<char>),
    UnsupportedType(Seq<char>),
    InvalidValue { kind: ScalarKind, raw: Seq<char>, cause: ValueCause },
    InvalidArraySpec(Seq<char>),
    UnsupportedArrayElementType(Seq<char>),
    InvalidDictSpec(Seq<char>),
    OddPairCount(Seq<char>),
    UnsupportedDictTypes(Seq<char>, Seq<char>),
}

impl View for EncodeError {
    type V = ErrorModel;

    open spec fn view(&self) -> ErrorModel {
        match self {
            EncodeError::MalformedToken(s) => ErrorModel::MalformedToken(s@),
            EncodeError::UnsupportedType(s) => ErrorModel::UnsupportedType(s@),
            EncodeError::InvalidValue { kind, raw, cause } => ErrorModel::InvalidValue {
                kind: *kind,
                raw: raw@,
                cause: *cause,
            },
            EncodeError::InvalidArraySpec(s) => ErrorModel::InvalidArraySpec(s@),
            EncodeError::UnsupportedArrayElementType(s) => ErrorModel::UnsupportedArrayElementType(
                s@,
            ),
            EncodeError::InvalidDictSpec(s) => ErrorModel::InvalidDictSpec(s@),
            EncodeError::OddPairCount(s) => ErrorModel::OddPairCount(s@),
            EncodeError::UnsupportedDictTypes(k, v) => ErrorModel::UnsupportedDictTypes(k@, v@),
        }
    }
}

} // verus!
