//! Properties of the encoding as a whole, proved of its model.
use vstd::prelude::*;
use crate::encoder::{
    body_of, dict_value_kind, elements_prefix, field_of, kind_of_tag, pairs_prefix,
    scalar_of, body_outcome, texts,
};
use crate::model::{Body, EncodeError, ErrorModel, FieldModel, ScalarKind};
use crate::text::{lemma_split_once_at, split_all, trim};

verus! {

/// `tag:payload` as one argument.
pub open spec fn token(tag: Seq<char>, payload: Seq<char>) -> Seq<char> {
    tag + seq![':'] + payload
}

/// The characters of `t` are all other than `c`.
pub open spec fn lacks(t: Seq<char>, c: char) -> bool {
    forall|j: int| 0 <= j < t.len() ==> t[j] != c
}

/// A scalar type tag holds no `:` and is neither `array` nor `dict`.
pub proof fn lemma_scalar_tag(tag: Seq<char>)
    requires
        kind_of_tag(tag) is Some,
    ensures
        lacks(tag, ':'),
        tag != "array"@,
        tag != "dict"@,
{
    reveal_strlit("int32");
    reveal_strlit("uint32");
    reveal_strlit("int64");
    reveal_strlit("uint64");
    reveal_strlit("int16");
    reveal_strlit("uint16");
    reveal_strlit("byte");
    reveal_strlit("double");
    reveal_strlit("boolean");
    reveal_strlit("bool");
    reveal_strlit("signature");
    reveal_strlit("objpath");
    reveal_strlit("string");
    reveal_strlit("array");
    reveal_strlit("dict");
    assert(tag.len() != 5 || tag[0] != 'a');
    assert(tag.len() != 4 || tag[0] != 'd');
}

proof fn lemma_body_single(t: Seq<char>)
    ensures
        body_of(seq![t]) == match field_of(t) {
            Ok(f) => Ok(seq![f]),
            Err(e) => Err::<Seq<FieldModel>, ErrorModel>(e),
        },
{
    assert(seq![t].drop_last() =~= Seq::<Seq<char>>::empty());
    assert(body_of(Seq::<Seq<char>>::empty()) == Ok::<Seq<FieldModel>, ErrorModel>(Seq::empty()));
    assert(seq![t].last() == t);
    assert(Seq::<FieldModel>::empty().push(field_of(t)->Ok_0) =~= seq![field_of(t)->Ok_0]);
}

/// A bare argument `K:V` whose value reads as kind `K` encodes as a body of
/// one field: that value.
pub proof fn law_scalar_argument_ok(tag: Seq<char>, v: Seq<char>)
    requires
        kind_of_tag(tag) is Some,
        scalar_of(kind_of_tag(tag)->Some_0, v) is Ok,
    ensures
        body_of(seq![token(tag, v)]) == Ok::<Seq<FieldModel>, ErrorModel>(
            seq![FieldModel::Scalar(scalar_of(kind_of_tag(tag)->Some_0, v)->Ok_0)],
        ),
{
    lemma_scalar_tag(tag);
    lemma_split_once_at(tag, v, ':');
    lemma_body_single(token(tag, v));
}

/// A bare argument `K:V` whose value does not read as kind `K` fails with an
/// invalid-value error naming the kind and the text.
pub proof fn law_scalar_argument_err(tag: Seq<char>, v: Seq<char>)
    requires
        kind_of_tag(tag) is Some,
        scalar_of(kind_of_tag(tag)->Some_0, v) is Err,
    ensures
        body_of(seq![token(tag, v)]) == Err::<Seq<FieldModel>, ErrorModel>(
            ErrorModel::InvalidValue {
                kind: kind_of_tag(tag)->Some_0,
                raw: v,
                cause: scalar_of(kind_of_tag(tag)->Some_0, v)->Err_0,
            },
        ),
{
    lemma_scalar_tag(tag);
    lemma_split_once_at(tag, v, ':');
    lemma_body_single(token(tag, v));
}

/// An argument whose tag is neither a scalar kind nor `array` nor `dict`
/// fails with an unsupported-type error naming the tag.
pub proof fn law_unknown_tag(tag: Seq<char>, v: Seq<char>)
    requires
        lacks(tag, ':'),
        kind_of_tag(tag) is None,
        tag != "array"@,
        tag != "dict"@,
    ensures
        body_of(seq![token(tag, v)]) == Err::<Seq<FieldModel>, ErrorModel>(
            ErrorModel::UnsupportedType(tag),
        ),
{
    lemma_split_once_at(tag, v, ':');
    lemma_body_single(token(tag, v));
}

proof fn lemma_elements_all_ok(k: ScalarKind, p: Seq<Seq<char>>, n: nat)
    requires
        n <= p.len(),
        forall|i: int| 0 <= i < n ==> #[trigger] scalar_of(k, trim(p[i])) is Ok,
    ensures
        elements_prefix(k, p, n) is Ok,
        elements_prefix(k, p, n)->Ok_0.len() == n,
        forall|i: int|
            0 <= i < n ==> #[trigger] elements_prefix(k, p, n)->Ok_0[i] == scalar_of(
                k,
                trim(p[i]),
            )->Ok_0,
    decreases n,
{
    if n > 0 {
        lemma_elements_all_ok(k, p, (n - 1) as nat);
        assert(scalar_of(k, trim(p[n - 1])) is Ok);
    }
}

proof fn lemma_elements_one_err(k: ScalarKind, p: Seq<Seq<char>>, n: nat, i: int)
    requires
        0 <= i < n <= p.len(),
        scalar_of(k, trim(p[i])) is Err,
    ensures
        elements_prefix(k, p, n) is Err,
    decreases n,
{
    if i < n - 1 {
        lemma_elements_one_err(k, p, (n - 1) as nat, i);
    }
}

/// An array argument `array:K:v1,...,vn` whose items, trimmed of white
/// space, all read as kind `K` encodes as an array of those n values in
/// order; if any item does not read, the argument fails as a whole.
pub proof fn law_array_argument(et: Seq<char>, values: Seq<char>)
    requires
        kind_of_tag(et) is Some,
    ensures
        ({
            let k = kind_of_tag(et)->Some_0;
            let p = split_all(values, ',');
            let f = field_of(token("array"@, token(et, values)));
            &&& (forall|i: int| 0 <= i < p.len() ==> #[trigger] scalar_of(k, trim(p[i])) is Ok)
                ==> (f matches Ok(FieldModel::Array(k2, vs)) && k2 == k && vs.len() == p.len()
                && forall|i: int|
                0 <= i < p.len() ==> #[trigger] vs[i] == scalar_of(k, trim(p[i]))->Ok_0)
            &&& (exists|i: int| 0 <= i < p.len() && #[trigger] scalar_of(k, trim(p[i])) is Err)
                ==> f is Err
        }),
{
    let k = kind_of_tag(et)->Some_0;
    let p = split_all(values, ',');
    reveal_strlit("array");
    reveal_strlit("dict");
    lemma_scalar_tag(et);
    lemma_split_once_at("array"@, token(et, values), ':');
    lemma_split_once_at(et, values, ':');
    if forall|i: int| 0 <= i < p.len() ==> #[trigger] scalar_of(k, trim(p[i])) is Ok {
        lemma_elements_all_ok(k, p, p.len());
    }
    if exists|i: int| 0 <= i < p.len() && #[trigger] scalar_of(k, trim(p[i])) is Err {
        let i = choose|i: int| 0 <= i < p.len() && #[trigger] scalar_of(k, trim(p[i])) is Err;
        lemma_elements_one_err(k, p, p.len(), i);
    }
}

/// A dictionary argument `dict:KT:VT:items` whose item list has an odd
/// length fails with an odd-pair-count error.
pub proof fn law_dict_odd_count(kt: Seq<char>, vt: Seq<char>, pairs: Seq<char>)
    requires
        lacks(kt, ':'),
        lacks(vt, ':'),
        split_all(pairs, ',').len() % 2 == 1,
    ensures
        field_of(token("dict"@, token(kt, token(vt, pairs)))) == Err::<FieldModel, ErrorModel>(
            ErrorModel::OddPairCount(token(kt, token(vt, pairs))),
        ),
{
    reveal_strlit("array");
    reveal_strlit("dict");
    lemma_split_once_at("dict"@, token(kt, token(vt, pairs)), ':');
    lemma_split_once_at(kt, token(vt, pairs), ':');
    lemma_split_once_at(vt, pairs, ':');
}

/// A dictionary argument with an even item list but a key type other than
/// `string`, or a value type that dictionaries do not take, fails with an
/// unsupported-types error naming both, whatever its items hold.
pub proof fn law_dict_unsupported_types(kt: Seq<char>, vt: Seq<char>, pairs: Seq<char>)
    requires
        lacks(kt, ':'),
        lacks(vt, ':'),
        split_all(pairs, ',').len() % 2 == 0,
        kt != "string"@ || dict_value_kind(vt) is None,
    ensures
        field_of(token("dict"@, token(kt, token(vt, pairs)))) == Err::<FieldModel, ErrorModel>(
            ErrorModel::UnsupportedDictTypes(kt, vt),
        ),
{
    reveal_strlit("array");
    reveal_strlit("dict");
    lemma_split_once_at("dict"@, token(kt, token(vt, pairs)), ':');
    lemma_split_once_at(kt, token(vt, pairs), ':');
    lemma_split_once_at(vt, pairs, ':');
}

/// In a dictionary read from key/value items, a key maps to the value of
/// the last pair that holds it.
pub proof fn law_dict_last_pair_wins(k: ScalarKind, p: Seq<Seq<char>>, n: nat, i: int)
    requires
        2 * n <= p.len(),
        0 <= i < n,
        pairs_prefix(k, p, n) is Ok,
        forall|j: int| i < j < n ==> trim(#[trigger] p[2 * j]) != trim(p[2 * i]),
    ensures
        pairs_prefix(k, p, n)->Ok_0.contains_key(trim(p[2 * i])),
        pairs_prefix(k, p, n)->Ok_0[trim(p[2 * i])] == scalar_of(k, trim(p[2 * i + 1]))->Ok_0,
    decreases n,
{
    if i < n - 1 {
        law_dict_last_pair_wins(k, p, (n - 1) as nat, i);
        assert(trim(p[2 * (n - 1)]) != trim(p[2 * i]));
    }
}

/// An encoded body holds one field per argument, each the field that its
/// argument alone gives, in the arguments' order; it is had whenever every
/// argument reads, and never when one does not.
pub proof fn law_fields_in_order(ts: Seq<Seq<char>>)
    ensures
        body_of(ts) matches Ok(fs) ==> (fs.len() == ts.len() && forall|i: int|
            0 <= i < ts.len() ==> #[trigger] field_of(ts[i]) == Ok::<FieldModel, ErrorModel>(
                fs[i],
            )),
        body_of(ts) is Ok <==> forall|i: int| 0 <= i < ts.len() ==> #[trigger] field_of(ts[i]) is Ok,
    decreases ts.len(),
{
    if ts.len() > 0 {
        let u = ts.drop_last();
        law_fields_in_order(u);
        assert(forall|i: int| 0 <= i < u.len() ==> u[i] == ts[i]);
        if !(body_of(ts) is Ok) {
            if body_of(u) is Err {
                let i = choose|i: int| 0 <= i < u.len() && !(#[trigger] field_of(u[i]) is Ok);
                assert(field_of(ts[i]) is Err);
            } else {
                assert(field_of(ts[ts.len() - 1]) is Err);
            }
        }
    }
}

/// Encoding the same arguments twice gives the same outcome: the encoding
/// keeps no state between calls.
pub proof fn law_encoding_repeatable(
    args: Seq<&str>,
    r1: Result<Body, EncodeError>,
    r2: Result<Body, EncodeError>,
)
    requires
        body_outcome(r1) == body_of(texts(args)),
        body_outcome(r2) == body_of(texts(args)),
    ensures
        body_outcome(r1) == body_outcome(r2),
{
}

} // verus!
