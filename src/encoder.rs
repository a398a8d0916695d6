//! Turns `type:value` arguments into the fields of a message body.
use vstd::prelude::*;
use crate::bus_text::{is_object_path, signature_valid, object_path_accepts, signature_accepts};
use crate::float_text::{float_text, is_float_text};
use crate::model::{
    Body, DictEntry, EncodeError, ErrorModel, Field, FieldModel, ScalarKind, Scalar, ScalarModel,
    ValueCause, entries_map, insert_entry, keys_unique,
};
use crate::number::{decimal_value, parse_decimal, DecimalError};
use crate::text::{chars_of, find, is_word, split_all, split_bounds, split_once, trim, trimmed};

verus! {

/// The scalar kind that a type tag names; `bool` and `boolean` are one kind.
pub open spec fn kind_of_tag(t: Seq<char>) -> Option<ScalarKind> {
    if t == "int32"@ {
        Some(ScalarKind::Int32)
    } else if t == "uint32"@ {
        Some(ScalarKind::Uint32)
    } else if t == "int64"@ {
        Some(ScalarKind::Int64)
    } else if t == "uint64"@ {
        Some(ScalarKind::Uint64)
    } else if t == "int16"@ {
        Some(ScalarKind::Int16)
    } else if t == "uint16"@ {
        Some(ScalarKind::Uint16)
    } else if t == "byte"@ {
        Some(ScalarKind::Byte)
    } else if t == "double"@ {
        Some(ScalarKind::Double)
    } else if t == "boolean"@ || t == "bool"@ {
        Some(ScalarKind::Boolean)
    } else if t == "signature"@ {
        Some(ScalarKind::Signature)
    } else if t == "objpath"@ {
        Some(ScalarKind::ObjectPath)
    } else if t == "string"@ {
        Some(ScalarKind::Str)
    } else {
        None
    }
}

/// The integer that `t` denotes, if it lies in `lo..=hi`.
pub open spec fn integer_of(t: Seq<char>, signed: bool, lo: int, hi: int) -> Result<int, ValueCause> {
    match decimal_value(t, signed) {
        None => Err(ValueCause::NotANumber),
        Some(v) => if lo <= v <= hi {
            Ok(v)
        } else {
            Err(ValueCause::OutOfRange)
        },
    }
}

/// The value of kind `k` that the text `t` denotes, or why there is none.
pub open spec fn scalar_of(k: ScalarKind, t: Seq<char>) -> Result<ScalarModel, ValueCause> {
    match k {
        ScalarKind::Int16 => match integer_of(t, true, i16::MIN as int, i16::MAX as int) {
            Ok(v) => Ok(ScalarModel::Int16(v as i16)),
            Err(c) => Err(c),
        },
        ScalarKind::Uint16 => match integer_of(t, false, 0, u16::MAX as int) {
            Ok(v) => Ok(ScalarModel::Uint16(v as u16)),
            Err(c) => Err(c),
        },
        ScalarKind::Int32 => match integer_of(t, true, i32::MIN as int, i32::MAX as int) {
            Ok(v) => Ok(ScalarModel::Int32(v as i32)),
            Err(c) => Err(c),
        },
        ScalarKind::Uint32 => match integer_of(t, false, 0, u32::MAX as int) {
            Ok(v) => Ok(ScalarModel::Uint32(v as u32)),
            Err(c) => Err(c),
        },
        ScalarKind::Int64 => match integer_of(t, true, i64::MIN as int, i64::MAX as int) {
            Ok(v) => Ok(ScalarModel::Int64(v as i64)),
            Err(c) => Err(c),
        },
        ScalarKind::Uint64 => match integer_of(t, false, 0, u64::MAX as int) {
            Ok(v) => Ok(ScalarModel::Uint64(v as u64)),
            Err(c) => Err(c),
        },
        ScalarKind::Byte => match integer_of(t, false, 0, u8::MAX as int) {
            Ok(v) => Ok(ScalarModel::Byte(v as u8)),
            Err(c) => Err(c),
        },
        ScalarKind::Double => if float_text(t) {
            Ok(ScalarModel::Double(t))
        } else {
            Err(ValueCause::NotANumber)
        },
        ScalarKind::Boolean => if t == "true"@ {
            Ok(ScalarModel::Boolean(true))
        } else if t == "false"@ {
            Ok(ScalarModel::Boolean(false))
        } else {
            Err(ValueCause::NotABoolean)
        },
        ScalarKind::Str => Ok(ScalarModel::Str(t)),
        ScalarKind::ObjectPath => if is_object_path(t) {
            Ok(ScalarModel::ObjectPath(t))
        } else {
            Err(ValueCause::InvalidObjectPath)
        },
        ScalarKind::Signature => if signature_valid(t) {
            Ok(ScalarModel::Signature(t))
        } else {
            Err(ValueCause::InvalidSignature)
        },
    }
}

/// The model of a scalar parse's outcome.
pub open spec fn scalar_outcome(r: Result<Scalar, ValueCause>) -> Result<ScalarModel, ValueCause> {
    match r {
        Ok(v) => Ok(v@),
        Err(c) => Err(c),
    }
}

/// The scalar kind that the tag `t` names.
pub fn kind_from_tag(t: &[char]) -> (r: Option<ScalarKind>)
    ensures
        r == kind_of_tag(t@),
{
    if is_word(t, "int32") {
        Some(ScalarKind::Int32)
    } else if is_word(t, "uint32") {
        Some(ScalarKind::Uint32)
    } else if is_word(t, "int64") {
        Some(ScalarKind::Int64)
    } else if is_word(t, "uint64") {
        Some(ScalarKind::Uint64)
    } else if is_word(t, "int16") {
        Some(ScalarKind::Int16)
    } else if is_word(t, "uint16") {
        Some(ScalarKind::Uint16)
    } else if is_word(t, "byte") {
        Some(ScalarKind::Byte)
    } else if is_word(t, "double") {
        Some(ScalarKind::Double)
    } else if is_word(t, "boolean") || is_word(t, "bool") {
        Some(ScalarKind::Boolean)
    } else if is_word(t, "signature") {
        Some(ScalarKind::Signature)
    } else if is_word(t, "objpath") {
        Some(ScalarKind::ObjectPath)
    } else if is_word(t, "string") {
        Some(ScalarKind::Str)
    } else {
        None
    }
}

/// Reads `t` as decimal integer text in `lo..=hi`.
fn read_integer(t: &[char], signed: bool, lo: i128, hi: i128) -> (r: Result<i128, ValueCause>)
    requires
        -(u64::MAX as int) <= lo <= hi <= u64::MAX,
    ensures
        match r {
            Ok(v) => integer_of(t@, signed, lo as int, hi as int) == Ok::<int, ValueCause>(v as int),
            Err(c) => integer_of(t@, signed, lo as int, hi as int) == Err::<int, ValueCause>(c),
        },
{
    match parse_decimal(t, signed) {
        Ok(v) => if lo <= v && v <= hi {
            Ok(v)
        } else {
            Err(ValueCause::OutOfRange)
        },
        Err(DecimalError::Malformed) => Err(ValueCause::NotANumber),
        Err(DecimalError::TooLarge) => Err(ValueCause::OutOfRange),
    }
}

/// Reads the text `s` as a value of kind `k`: the one entry point for bare
/// arguments, array elements and dictionary items alike.
pub fn parse_scalar(k: ScalarKind, s: &str) -> (r: Result<Scalar, ValueCause>)
    ensures
        scalar_outcome(r) == scalar_of(k, s@),
{
    let cs = chars_of(s);
    let t = cs.as_slice();
    match k {
        ScalarKind::Int16 => match read_integer(t, true, -32768, 32767) {
            Ok(v) => Ok(Scalar::Int16(v as i16)),
            Err(c) => Err(c),
        },
        ScalarKind::Uint16 => match read_integer(t, false, 0, 65535) {
            Ok(v) => Ok(Scalar::Uint16(v as u16)),
            Err(c) => Err(c),
        },
        ScalarKind::Int32 => match read_integer(t, true, -2147483648, 2147483647) {
            Ok(v) => Ok(Scalar::Int32(v as i32)),
            Err(c) => Err(c),
        },
        ScalarKind::Uint32 => match read_integer(t, false, 0, 4294967295) {
            Ok(v) => Ok(Scalar::Uint32(v as u32)),
            Err(c) => Err(c),
        },
        ScalarKind::Int64 => match read_integer(t, true, -9223372036854775808, 9223372036854775807) {
            Ok(v) => Ok(Scalar::Int64(v as i64)),
            Err(c) => Err(c),
        },
        ScalarKind::Uint64 => match read_integer(t, false, 0, 18446744073709551615) {
            Ok(v) => Ok(Scalar::Uint64(v as u64)),
            Err(c) => Err(c),
        },
        ScalarKind::Byte => match read_integer(t, false, 0, 255) {
            Ok(v) => Ok(Scalar::Byte(v as u8)),
            Err(c) => Err(c),
        },
        ScalarKind::Double => if is_float_text(t) {
            Ok(Scalar::Double(s.to_owned()))
        } else {
            Err(ValueCause::NotANumber)
        },
        ScalarKind::Boolean => if is_word(t, "true") {
            Ok(Scalar::Boolean(true))
        } else if is_word(t, "false") {
            Ok(Scalar::Boolean(false))
        } else {
            Err(ValueCause::NotABoolean)
        },
        ScalarKind::Str => Ok(Scalar::Str(s.to_owned())),
        ScalarKind::ObjectPath => if object_path_accepts(s) {
            Ok(Scalar::ObjectPath(s.to_owned()))
        } else {
            Err(ValueCause::InvalidObjectPath)
        },
        ScalarKind::Signature => if signature_accepts(s) {
            Ok(Scalar::Signature(s.to_owned()))
        } else {
            Err(ValueCause::InvalidSignature)
        },
    }
}

/// The elements of kind `k` read from the first `n` pieces of `p`, each
/// trimmed; the first piece that fails stops the reading.
pub open spec fn elements_prefix(k: ScalarKind, p: Seq<Seq<char>>, n: nat) -> Result<
    Seq<ScalarModel>,
    ErrorModel,
>
    decreases n,
{
    if n == 0 {
        Ok(Seq::empty())
    } else {
        match elements_prefix(k, p, (n - 1) as nat) {
            Err(e) => Err(e),
            Ok(vs) => match scalar_of(k, trim(p[n - 1])) {
                Ok(v) => Ok(vs.push(v)),
                Err(c) => Err(ErrorModel::InvalidValue { kind: k, raw: trim(p[n - 1]), cause: c }),
            },
        }
    }
}

proof fn lemma_elements_err_stays(k: ScalarKind, p: Seq<Seq<char>>, n: nat, m: nat)
    requires
        n <= m,
        elements_prefix(k, p, n) is Err,
    ensures
        elements_prefix(k, p, m) == elements_prefix(k, p, n),
    decreases m - n,
{
    if m > n {
        lemma_elements_err_stays(k, p, n, (m - 1) as nat);
    }
}

/// The elements of kind `k` in the comma-separated list `t`.
pub open spec fn elements_of(k: ScalarKind, t: Seq<char>) -> Result<Seq<ScalarModel>, ErrorModel> {
    elements_prefix(k, split_all(t, ','), split_all(t, ',').len())
}

/// The mapping read from the first `n` key/value pairs of `p`, each item
/// trimmed; a later key overwrites an earlier equal one.
pub open spec fn pairs_prefix(k: ScalarKind, p: Seq<Seq<char>>, n: nat) -> Result<
    Map<Seq<char>, ScalarModel>,
    ErrorModel,
>
    decreases n,
{
    if n == 0 {
        Ok(Map::empty())
    } else {
        match pairs_prefix(k, p, (n - 1) as nat) {
            Err(e) => Err(e),
            Ok(m) => match scalar_of(k, trim(p[2 * n - 1])) {
                Ok(v) => Ok(m.insert(trim(p[2 * n - 2]), v)),
                Err(c) => Err(
                    ErrorModel::InvalidValue { kind: k, raw: trim(p[2 * n - 1]), cause: c },
                ),
            },
        }
    }
}

/// The value kinds that a dictionary accepts.
pub open spec fn dict_value_kind(t: Seq<char>) -> Option<ScalarKind> {
    match kind_of_tag(t) {
        Some(k) => if k == ScalarKind::ObjectPath || k == ScalarKind::Signature {
            None
        } else {
            Some(k)
        },
        None => None,
    }
}

/// The field that an array payload `element_type:v1,v2,...` denotes.
pub open spec fn array_field_of(rest: Seq<char>) -> Result<FieldModel, ErrorModel> {
    match split_once(rest, ':') {
        None => Err(ErrorModel::InvalidArraySpec(rest)),
        Some((et, values)) => match kind_of_tag(et) {
            None => Err(ErrorModel::UnsupportedArrayElementType(et)),
            Some(k) => match elements_of(k, values) {
                Ok(vs) => Ok(FieldModel::Array(k, vs)),
                Err(e) => Err(e),
            },
        },
    }
}

/// The field that a dictionary payload `key_type:value_type:k1,v1,...`
/// denotes.
pub open spec fn dict_field_of(rest: Seq<char>) -> Result<FieldModel, ErrorModel> {
    match split_once(rest, ':') {
        None => Err(ErrorModel::InvalidDictSpec(rest)),
        Some((kt, more)) => match split_once(more, ':') {
            None => Err(ErrorModel::InvalidDictSpec(rest)),
            Some((vt, pairs)) => {
                let p = split_all(pairs, ',');
                if p.len() % 2 != 0 {
                    Err(ErrorModel::OddPairCount(rest))
                } else if kt != "string"@ || dict_value_kind(vt) is None {
                    Err(ErrorModel::UnsupportedDictTypes(kt, vt))
                } else {
                    let k = dict_value_kind(vt)->Some_0;
                    match pairs_prefix(k, p, p.len() / 2) {
                        Ok(m) => Ok(FieldModel::Dict(k, m)),
                        Err(e) => Err(e),
                    }
                }
            },
        },
    }
}

/// The field that one argument `tag:payload` denotes.
pub open spec fn field_of(t: Seq<char>) -> Result<FieldModel, ErrorModel> {
    match split_once(t, ':') {
        None => Err(ErrorModel::MalformedToken(t)),
        Some((tag, rest)) => if tag == "array"@ {
            array_field_of(rest)
        } else if tag == "dict"@ {
            dict_field_of(rest)
        } else {
            match kind_of_tag(tag) {
                None => Err(ErrorModel::UnsupportedType(tag)),
                Some(k) => match scalar_of(k, rest) {
                    Ok(v) => Ok(FieldModel::Scalar(v)),
                    Err(c) => Err(ErrorModel::InvalidValue { kind: k, raw: rest, cause: c }),
                },
            }
        },
    }
}

/// The body that the arguments `ts` denote, in order, or the first error.
pub open spec fn body_of(ts: Seq<Seq<char>>) -> Result<Seq<FieldModel>, ErrorModel>
    decreases ts.len(),
{
    if ts.len() == 0 {
        Ok(Seq::empty())
    } else {
        match body_of(ts.drop_last()) {
            Err(e) => Err(e),
            Ok(fs) => match field_of(ts.last()) {
                Ok(f) => Ok(fs.push(f)),
                Err(e) => Err(e),
            },
        }
    }
}

/// The texts of a list of arguments.
pub open spec fn texts(args: Seq<&str>) -> Seq<Seq<char>> {
    args.map_values(|s: &str| s@)
}

pub open spec fn field_outcome(r: Result<Field, EncodeError>) -> Result<FieldModel, ErrorModel> {
    match r {
        Ok(f) => Ok(f@),
        Err(e) => Err(e@),
    }
}

pub open spec fn body_outcome(r: Result<Body, EncodeError>) -> Result<Seq<FieldModel>, ErrorModel> {
    match r {
        Ok(b) => Ok(b@),
        Err(e) => Err(e@),
    }
}

/// `s` split at the first `c`.
pub fn split_first<'a>(s: &'a str, c: char) -> (r: Option<(&'a str, &'a str)>)
    ensures
        match r {
            Some((a, b)) => split_once(s@, c) == Some((a@, b@)),
            None => split_once(s@, c) is None,
        },
{
    let cs = chars_of(s);
    let sl = cs.as_slice();
    assert(sl@ == s@);
    match find(sl, c) {
        None => None,
        Some(i) => {
            let n = cs.len();
            assert(i < n);
            assert(s@.take(i as int) =~= s@.subrange(0, i as int));
            assert(s@.skip(i + 1) =~= s@.subrange(i + 1, s@.len() as int));
            Some((s.substring_char(0, i), s.substring_char(i + 1, n)))
        },
    }
}

/// The elements of kind `k` in the comma-separated list `values`.
pub fn parse_elements(k: ScalarKind, values: &str) -> (r: Result<Vec<Scalar>, EncodeError>)
    ensures
        match r {
            Ok(v) => elements_of(k, values@) == Ok::<Seq<ScalarModel>, ErrorModel>(
                v@.map_values(|e: Scalar| e@),
            ),
            Err(e) => elements_of(k, values@) == Err::<Seq<ScalarModel>, ErrorModel>(e@),
        },
{
    let cs = chars_of(values);
    let sl = cs.as_slice();
    assert(sl@ == values@);
    let bounds = split_bounds(sl, ',');
    let ghost p = split_all(values@, ',');
    let mut out: Vec<Scalar> = Vec::new();
    assert(out@.map_values(|e: Scalar| e@) =~= Seq::<ScalarModel>::empty());
    let mut j: usize = 0;
    while j < bounds.len()
        invariant
            cs@ == values@,
            p == split_all(values@, ','),
            bounds@.len() == p.len(),
            forall|i: int|
                0 <= i < bounds@.len() ==> #[trigger] bounds@[i].0 <= bounds@[i].1 <= cs@.len()
                    && cs@.subrange(bounds@[i].0 as int, bounds@[i].1 as int) == p[i],
            j <= bounds@.len(),
            elements_prefix(k, p, j as nat) == Ok::<Seq<ScalarModel>, ErrorModel>(
                out@.map_values(|e: Scalar| e@),
            ),
        decreases bounds.len() - j,
    {
        let (a, b) = bounds[j];
        let piece = values.substring_char(a, b);
        let t = trimmed(piece);
        match parse_scalar(k, t) {
            Ok(v) => {
                let ghost prev = out@;
                out.push(v);
                assert(out@.map_values(|e: Scalar| e@) =~= prev.map_values(|e: Scalar| e@).push(
                    v@,
                ));
            },
            Err(c) => {
                proof {
                    lemma_elements_err_stays(k, p, j as nat + 1, p.len());
                }
                return Err(EncodeError::InvalidValue { kind: k, raw: t.to_owned(), cause: c });
            },
        }
        j = j + 1;
    }
    Ok(out)
}

proof fn lemma_pairs_err_stays(k: ScalarKind, p: Seq<Seq<char>>, n: nat, m: nat)
    requires
        n <= m,
        pairs_prefix(k, p, n) is Err,
    ensures
        pairs_prefix(k, p, m) == pairs_prefix(k, p, n),
    decreases m - n,
{
    if m > n {
        lemma_pairs_err_stays(k, p, n, (m - 1) as nat);
    }
}

/// The mapping held by the comma-separated key/value list `pairs`, with
/// values of kind `k`.
pub fn parse_pairs(k: ScalarKind, pairs: &str) -> (r: Result<Vec<DictEntry>, EncodeError>)
    requires
        split_all(pairs@, ',').len() % 2 == 0,
    ensures
        match r {
            Ok(v) => keys_unique(v@) && pairs_prefix(
                k,
                split_all(pairs@, ','),
                split_all(pairs@, ',').len() / 2,
            ) == Ok::<Map<Seq<char>, ScalarModel>, ErrorModel>(entries_map(v@)),
            Err(e) => pairs_prefix(k, split_all(pairs@, ','), split_all(pairs@, ',').len() / 2)
                == Err::<Map<Seq<char>, ScalarModel>, ErrorModel>(e@),
        },
{
    let cs = chars_of(pairs);
    let sl = cs.as_slice();
    assert(sl@ == pairs@);
    let bounds = split_bounds(sl, ',');
    let ghost p = split_all(pairs@, ',');
    let half = bounds.len() / 2;
    let mut out: Vec<DictEntry> = Vec::new();
    assert(entries_map(out@) =~= Map::<Seq<char>, ScalarModel>::empty());
    let mut j: usize = 0;
    while j < half
        invariant
            cs@ == pairs@,
            p == split_all(pairs@, ','),
            bounds@.len() == p.len(),
            half == p.len() / 2,
            p.len() % 2 == 0,
            bounds@.len() <= usize::MAX,
            forall|i: int|
                0 <= i < bounds@.len() ==> #[trigger] bounds@[i].0 <= bounds@[i].1 <= cs@.len()
                    && cs@.subrange(bounds@[i].0 as int, bounds@[i].1 as int) == p[i],
            j <= half,
            keys_unique(out@),
            pairs_prefix(k, p, j as nat) == Ok::<Map<Seq<char>, ScalarModel>, ErrorModel>(
                entries_map(out@),
            ),
        decreases half - j,
    {
        let (ka, kb) = bounds[2 * j];
        let (va, vb) = bounds[2 * j + 1];
        let key = trimmed(pairs.substring_char(ka, kb));
        let t = trimmed(pairs.substring_char(va, vb));
        match parse_scalar(k, t) {
            Ok(v) => {
                insert_entry(&mut out, key.to_owned(), v);
            },
            Err(c) => {
                proof {
                    lemma_pairs_err_stays(k, p, j as nat + 1, half as nat);
                }
                return Err(EncodeError::InvalidValue { kind: k, raw: t.to_owned(), cause: c });
            },
        }
        j = j + 1;
    }
    Ok(out)
}

/// The number of pieces of `s` split at every comma.
fn piece_count(s: &str) -> (r: usize)
    ensures
        r == split_all(s@, ',').len(),
{
    let cs = chars_of(s);
    let sl = cs.as_slice();
    assert(sl@ == s@);
    split_bounds(sl, ',').len()
}

/// Whether the tag `s` is exactly `word`.
fn tag_is(s: &str, word: &str) -> (r: bool)
    ensures
        r == (s@ == word@),
{
    let cs = chars_of(s);
    is_word(cs.as_slice(), word)
}

/// The scalar kind that the tag `s` names.
fn kind_of(s: &str) -> (r: Option<ScalarKind>)
    ensures
        r == kind_of_tag(s@),
{
    let cs = chars_of(s);
    kind_from_tag(cs.as_slice())
}

/// Reads an array payload `element_type:v1,v2,...`.
pub fn parse_array_field(rest: &str) -> (r: Result<Field, EncodeError>)
    ensures
        field_outcome(r) == array_field_of(rest@),
        r matches Ok(f) ==> f.well_formed(),
{
    match split_first(rest, ':') {
        None => Err(EncodeError::InvalidArraySpec(rest.to_owned())),
        Some((et, values)) => match kind_of(et) {
            None => Err(EncodeError::UnsupportedArrayElementType(et.to_owned())),
            Some(k) => match parse_elements(k, values) {
                Ok(v) => Ok(Field::Array(k, v)),
                Err(e) => Err(e),
            },
        },
    }
}

/// Reads a dictionary payload `key_type:value_type:k1,v1,k2,v2,...`.
pub fn parse_dict_field(rest: &str) -> (r: Result<Field, EncodeError>)
    ensures
        field_outcome(r) == dict_field_of(rest@),
        r matches Ok(f) ==> f.well_formed(),
{
    match split_first(rest, ':') {
        None => Err(EncodeError::InvalidDictSpec(rest.to_owned())),
        Some((kt, more)) => match split_first(more, ':') {
            None => Err(EncodeError::InvalidDictSpec(rest.to_owned())),
            Some((vt, pairs)) => {
                if piece_count(pairs) % 2 != 0 {
                    return Err(EncodeError::OddPairCount(rest.to_owned()));
                }
                let vk = match kind_of(vt) {
                    Some(ScalarKind::ObjectPath) | Some(ScalarKind::Signature) | None => None,
                    Some(k) => Some(k),
                };
                if !tag_is(kt, "string") || vk.is_none() {
                    return Err(EncodeError::UnsupportedDictTypes(kt.to_owned(), vt.to_owned()));
                }
                let k = vk.unwrap();
                match parse_pairs(k, pairs) {
                    Ok(v) => Ok(Field::Dict(k, v)),
                    Err(e) => Err(e),
                }
            },
        },
    }
}

/// Reads one argument `tag:payload` as a field.
pub fn parse_field(arg: &str) -> (r: Result<Field, EncodeError>)
    ensures
        field_outcome(r) == field_of(arg@),
        r matches Ok(f) ==> f.well_formed(),
{
    match split_first(arg, ':') {
        None => Err(EncodeError::MalformedToken(arg.to_owned())),
        Some((tag, rest)) => {
            if tag_is(tag, "array") {
                parse_array_field(rest)
            } else if tag_is(tag, "dict") {
                parse_dict_field(rest)
            } else {
                match kind_of(tag) {
                    None => Err(EncodeError::UnsupportedType(tag.to_owned())),
                    Some(k) => match parse_scalar(k, rest) {
                        Ok(v) => Ok(Field::Scalar(v)),
                        Err(c) => Err(
                            EncodeError::InvalidValue { kind: k, raw: rest.to_owned(), cause: c },
                        ),
                    },
                }
            }
        },
    }
}

proof fn lemma_body_err_stays(ts: Seq<Seq<char>>, n: int)
    requires
        0 <= n <= ts.len(),
        body_of(ts.take(n)) is Err,
    ensures
        body_of(ts) == body_of(ts.take(n)),
    decreases ts.len() - n,
{
    if n < ts.len() {
        assert(ts.take(n + 1).drop_last() =~= ts.take(n));
        lemma_body_err_stays(ts, n + 1);
    } else {
        assert(ts.take(n) =~= ts);
    }
}

/// Encodes the arguments, each `type:value`, as a message body whose fields
/// stand in the order of the arguments; the first argument that cannot be
/// read stops the encoding with its error.
pub fn build_body(args: Vec<&str>) -> (r: Result<Body, EncodeError>)
    ensures
        body_outcome(r) == body_of(texts(args@)),
        r matches Ok(b) ==> b.well_formed(),
{
    let ghost ts = texts(args@);
    let mut fields: Vec<Field> = Vec::new();
    let mut i: usize = 0;
    assert(ts.take(0) =~= Seq::<Seq<char>>::empty());
    assert(fields@.map_values(|f: Field| f@) =~= Seq::<FieldModel>::empty());
    while i < args.len()
        invariant
            ts == texts(args@),
            i <= args@.len(),
            body_of(ts.take(i as int)) == Ok::<Seq<FieldModel>, ErrorModel>(
                fields@.map_values(|f: Field| f@),
            ),
            forall|j: int| 0 <= j < fields@.len() ==> #[trigger] fields@[j].well_formed(),
        decreases args.len() - i,
    {
        assert(ts.take(i as int + 1).drop_last() =~= ts.take(i as int));
        assert(ts.take(i as int + 1).last() == args@[i as int]@);
        match parse_field(args[i]) {
            Ok(f) => {
                let ghost prev = fields@;
                fields.push(f);
                assert(fields@.map_values(|f: Field| f@) =~= prev.map_values(|f: Field| f@).push(
                    f@,
                ));
            },
            Err(e) => {
                proof {
                    lemma_body_err_stays(ts, i as int + 1);
                }
                return Err(e);
            },
        }
        i = i + 1;
    }
    assert(ts.take(i as int) =~= ts);
    Ok(Body { fields })
}

} // verus!
