//! The header fields a downloader sends: which of the browser's fields are
//! forwarded, and the `HeaderMap` that holds them.
use vstd::prelude::*;
use vstd::utf8::encode_utf8;
use reqwest::header::{HeaderMap, HeaderValue};

verus! {

#[verifier::external_type_specification]
#[verifier::external_body]
#[verifier::reject_recursive_types(T)]
pub struct ExHeaderMap<T>(HeaderMap<T>);

#[verifier::external_type_specification]
#[verifier::external_body]
pub struct ExHeaderValue(HeaderValue);

/// The fields a `HeaderMap` holds: each name (in lower case) with its values.
pub uninterp spec fn header_map_fields(map: HeaderMap<HeaderValue>) -> Map<Seq<u8>, Seq<Seq<u8>>>;

/// `u8::to_ascii_lowercase`.
pub open spec fn lower_byte(b: u8) -> u8 {
    if 65 <= b <= 90 {
        (b + 32) as u8
    } else {
        b
    }
}

/// A byte that a header name may hold (an RFC 9110 `tchar`).
pub open spec fn is_tchar(b: u8) -> bool {
    ||| 48 <= b <= 57
    ||| 65 <= b <= 90
    ||| 97 <= b <= 122
    ||| b == 33 || b == 35 || b == 36 || b == 37 || b == 38 || b == 39 || b == 42
    ||| b == 43 || b == 45 || b == 46 || b == 94 || b == 95 || b == 96 || b == 124
    ||| b == 126
}

/// `HeaderName::from_str` accepts these bytes: 1 to 65535 `tchar`s.
pub open spec fn valid_header_name(b: Seq<u8>) -> bool {
    &&& 1 <= b.len() <= 65535
    &&& forall|i: int| 0 <= i < b.len() ==> is_tchar(#[trigger] b[i])
}

/// `HeaderValue::from_str` accepts these bytes: none is a control character
/// other than tab.
pub open spec fn valid_header_value(b: Seq<u8>) -> bool {
    forall|i: int| 0 <= i < b.len() ==> ((32 <= #[trigger] b[i] && b[i] != 127) || b[i] == 9)
}

/// The name under which `HeaderName::from_str` files a field: its bytes in
/// lower case.
pub open spec fn field_key(name: Seq<u8>) -> Seq<u8> {
    name.map_values(|b: u8| lower_byte(b))
}

/// A map with at most this many names takes one more: the source of
/// `HeaderMap::try_insert` shows that it can only refuse a name when its
/// table would grow past 32768 slots, which needs more names than this.
pub open spec fn header_map_room() -> nat {
    6553
}

/// The fields of an empty map.
pub open spec fn no_fields() -> Map<Seq<u8>, Seq<Seq<u8>>> {
    Map::empty()
}

/// `HeaderMap::new`: an empty map.
#[verifier::external_body]
pub(crate) fn new_header_map() -> (m: HeaderMap<HeaderValue>)
    ensures
        header_map_fields(m) == no_fields(),
{
    HeaderMap::new()
}

/// `HeaderMap::try_insert` of the field `name: value`, both given as text and
/// converted by `HeaderName::from_str` and `HeaderValue::from_str`. When it
/// succeeds (`true`) the field (named by `name` in lower case) holds `value`
/// alone; when the map refuses to grow (`false`) its fields are unchanged. It
/// succeeds whenever the map has at most `header_map_room()` names; above
/// that, whether it succeeds depends on the map's internal table, which this
/// contract does not state.
#[verifier::external_body]
pub(crate) fn try_insert_header(map: &mut HeaderMap<HeaderValue>, name: &str, value: &str) -> (ok: bool)
    requires
        valid_header_name(encode_utf8(name@)),
        valid_header_value(encode_utf8(value@)),
        header_map_fields(*old(map)).dom().finite(),
    ensures
        ok ==> header_map_fields(*final(map)) == header_map_fields(*old(map)).insert(
            field_key(encode_utf8(name@)),
            seq![encode_utf8(value@)],
        ),
        !ok ==> header_map_fields(*final(map)) == header_map_fields(*old(map)),
        header_map_fields(*old(map)).dom().len() <= header_map_room() ==> ok,
{
    let name = <reqwest::header::HeaderName as std::str::FromStr>::from_str(name).unwrap();
    let value = HeaderValue::from_str(value).unwrap();
    map.try_insert(name, value).is_ok()
}

/// `[u8]::eq_ignore_ascii_case`.
pub open spec fn same_ignoring_case(a: Seq<u8>, b: Seq<u8>) -> bool {
    &&& a.len() == b.len()
    &&& forall|i: int| 0 <= i < a.len() ==> lower_byte(#[trigger] a[i]) == lower_byte(b[i])
}

pub fn bytes_eq_ignore_ascii_case(a: &[u8], b: &[u8]) -> (r: bool)
    ensures
        r == same_ignoring_case(a@, b@),
{
    if a.len() != b.len() {
        return false;
    }
    let mut i: usize = 0;
    while i < a.len()
        invariant
            a@.len() == b@.len(),
            i <= a@.len(),
            forall|k: int| 0 <= k < i ==> lower_byte(#[trigger] a@[k]) == lower_byte(b@[k]),
        decreases a@.len() - i,
    {
        let x = if 65 <= a[i] && a[i] <= 90 { a[i] + 32 } else { a[i] };
        let y = if 65 <= b[i] && b[i] <= 90 { b[i] + 32 } else { b[i] };
        if x != y {
            return false;
        }
        i = i + 1;
    }
    true
}

/// `host`
pub open spec fn host_name() -> Seq<u8> {
    seq![104u8, 111, 115, 116]
}

/// `content-length`
pub open spec fn content_length_name() -> Seq<u8> {
    seq![99u8, 111, 110, 116, 101, 110, 116, 45, 108, 101, 110, 103, 116, 104]
}

/// `transfer-encoding`
pub open spec fn transfer_encoding_name() -> Seq<u8> {
    seq![116u8, 114, 97, 110, 115, 102, 101, 114, 45, 101, 110, 99, 111, 100, 105, 110, 103]
}

/// Whether a browser header named `name` is passed on to the server: all are,
/// but `Host`, `Content-Length` and `Transfer-Encoding` in any case.
pub open spec fn forwarded(name: Seq<u8>) -> bool {
    &&& !same_ignoring_case(name, host_name())
    &&& !same_ignoring_case(name, content_length_name())
    &&& !same_ignoring_case(name, transfer_encoding_name())
}

pub fn is_forwarded(name: &str) -> (r: bool)
    ensures
        r == forwarded(encode_utf8(name@)),
{
    let host: Vec<u8> = vec![104u8, 111, 115, 116];
    let content_length: Vec<u8> = vec![99u8, 111, 110, 116, 101, 110, 116, 45, 108, 101, 110, 103, 116, 104];
    let transfer_encoding: Vec<u8> = vec![116u8, 114, 97, 110, 115, 102, 101, 114, 45, 101, 110, 99, 111, 100, 105, 110, 103];
    assert(host@ =~= host_name());
    assert(content_length@ =~= content_length_name());
    assert(transfer_encoding@ =~= transfer_encoding_name());
    let b = name.as_bytes();
    !bytes_eq_ignore_ascii_case(b, host.as_slice()) && !bytes_eq_ignore_ascii_case(
        b,
        content_length.as_slice(),
    ) && !bytes_eq_ignore_ascii_case(b, transfer_encoding.as_slice())
}

/// Whether the pair at index `i` goes into the map (all do unless only
/// forwarded browser headers are kept).
pub open spec fn kept(pairs: Seq<(String, String)>, forward_only: bool, i: int) -> bool {
    !forward_only || forwarded(encode_utf8(pairs[i].0@))
}

/// Whether every kept pair is a valid header field.
pub open spec fn pairs_valid(pairs: Seq<(String, String)>, forward_only: bool) -> bool {
    forall|i: int|
        0 <= i < pairs.len() && #[trigger] kept(pairs, forward_only, i) ==> valid_header_name(
            encode_utf8(pairs[i].0@),
        ) && valid_header_value(encode_utf8(pairs[i].1@))
}

/// The fields of the map built by inserting the kept pairs in order.
pub open spec fn fold_fields(pairs: Seq<(String, String)>, forward_only: bool) -> Map<
    Seq<u8>,
    Seq<Seq<u8>>,
>
    decreases pairs.len(),
{
    if pairs.len() == 0 {
        Map::empty()
    } else {
        let prev = fold_fields(pairs.drop_last(), forward_only);
        if kept(pairs, forward_only, pairs.len() - 1) {
            prev.insert(
                field_key(encode_utf8(pairs.last().0@)),
                seq![encode_utf8(pairs.last().1@)],
            )
        } else {
            prev
        }
    }
}

proof fn lemma_fold_fields_finite(pairs: Seq<(String, String)>, forward_only: bool)
    ensures
        fold_fields(pairs, forward_only).dom().finite(),
        fold_fields(pairs, forward_only).dom().len() <= pairs.len(),
    decreases pairs.len(),
{
    if pairs.len() > 0 {
        lemma_fold_fields_finite(pairs.drop_last(), forward_only);
    }
}

/// Whether `build_header_map` accepts `pairs`.
pub fn can_build_header_map(pairs: &Vec<(String, String)>, forward_only: bool) -> (r: bool)
    ensures
        r == pairs_valid(pairs@, forward_only),
{
    let mut i: usize = 0;
    while i < pairs.len()
        invariant
            i <= pairs@.len(),
            forall|k: int|
                0 <= k < i && #[trigger] kept(pairs@, forward_only, k) ==> valid_header_name(
                    encode_utf8(pairs@[k].0@),
                ) && valid_header_value(encode_utf8(pairs@[k].1@)),
        decreases pairs@.len() - i,
    {
        let name = pairs[i].0.as_str();
        let value = pairs[i].1.as_str();
        if !forward_only || is_forwarded(name) {
            if !name_ok(name.as_bytes()) || !value_ok(value.as_bytes()) {
                assert(kept(pairs@, forward_only, i as int));
                return false;
            }
        }
        i = i + 1;
    }
    true
}

fn name_ok(b: &[u8]) -> (r: bool)
    ensures
        r == valid_header_name(b@),
{
    if b.len() == 0 || b.len() > 65535 {
        return false;
    }
    let mut i: usize = 0;
    while i < b.len()
        invariant
            i <= b@.len(),
            forall|k: int| 0 <= k < i ==> is_tchar(#[trigger] b@[k]),
        decreases b@.len() - i,
    {
        let c = b[i];
        let ok = (48 <= c && c <= 57) || (65 <= c && c <= 90) || (97 <= c && c <= 122) || c == 33
            || c == 35 || c == 36 || c == 37 || c == 38 || c == 39 || c == 42 || c == 43 || c
            == 45 || c == 46 || c == 94 || c == 95 || c == 96 || c == 124 || c == 126;
        if !ok {
            assert(!is_tchar(b@[i as int]));
            return false;
        }
        i = i + 1;
    }
    true
}

fn value_ok(b: &[u8]) -> (r: bool)
    ensures
        r == valid_header_value(b@),
{
    let mut i: usize = 0;
    while i < b.len()
        invariant
            i <= b@.len(),
            forall|k: int| 0 <= k < i ==> ((32 <= #[trigger] b@[k] && b@[k] != 127) || b@[k] == 9),
        decreases b@.len() - i,
    {
        let c = b[i];
        if !((32 <= c && c != 127) || c == 9) {
            return false;
        }
        i = i + 1;
    }
    true
}

/// The `HeaderMap` that inserts, in order, the pairs of `pairs` (only the
/// forwarded browser headers when `forward_only`); a later pair replaces an
/// earlier one whose name differs from it only in case. `None` when the map
/// refuses to grow, which needs more than `header_map_room()` pairs.
pub fn build_header_map(pairs: &Vec<(String, String)>, forward_only: bool) -> (r: Option<HeaderMap<HeaderValue>>)
    requires
        pairs_valid(pairs@, forward_only),
    ensures
        r matches Some(m) ==> header_map_fields(m) == fold_fields(pairs@, forward_only),
        r is None ==> pairs@.len() > header_map_room(),
{
    let mut m = new_header_map();
    let mut i: usize = 0;
    assert(pairs@.take(0) =~= Seq::<(String, String)>::empty());
    while i < pairs.len()
        invariant
            i <= pairs@.len(),
            pairs_valid(pairs@, forward_only),
            header_map_fields(m) == fold_fields(pairs@.take(i as int), forward_only),
        decreases pairs@.len() - i,
    {
        proof {
            lemma_fold_fields_finite(pairs@.take(i as int), forward_only);
            assert(pairs@.take(i + 1).drop_last() =~= pairs@.take(i as int));
            assert(pairs@.take(i + 1).last() == pairs@[i as int]);
            assert(kept(pairs@.take(i + 1), forward_only, i as int) == kept(pairs@, forward_only, i as int));
        }
        let name = pairs[i].0.as_str();
        let value = pairs[i].1.as_str();
        if !forward_only || is_forwarded(name) {
            assert(kept(pairs@, forward_only, i as int));
            if !try_insert_header(&mut m, name, value) {
                return None;
            }
        }
        i = i + 1;
    }
    assert(pairs@.take(i as int) =~= pairs@);
    Some(m)
}

/// Proof that a name is in the built map exactly when some kept pair carries
/// it (in any case), and that it then holds the value of the last such pair.
pub proof fn lemma_fold_fields_holds(pairs: Seq<(String, String)>, forward_only: bool, key: Seq<u8>)
    ensures
        fold_fields(pairs, forward_only).dom().contains(key) <==> exists|i: int|
            0 <= i < pairs.len() && #[trigger] kept(pairs, forward_only, i) && field_key(
                encode_utf8(pairs[i].0@),
            ) == key,
        forall|i: int|
            0 <= i < pairs.len() && #[trigger] kept(pairs, forward_only, i) && field_key(
                encode_utf8(pairs[i].0@),
            ) == key && (forall|j: int|
                i < j < pairs.len() && kept(pairs, forward_only, j) ==> field_key(
                    encode_utf8(pairs[j].0@),
                ) != key) ==> fold_fields(pairs, forward_only)[key] == seq![
                encode_utf8(pairs[i].1@),
            ],
    decreases pairs.len(),
{
    if pairs.len() > 0 {
        let init = pairs.drop_last();
        let n = pairs.len() - 1;
        lemma_fold_fields_holds(init, forward_only, key);
        assert forall|i: int| 0 <= i < n implies #[trigger] kept(pairs, forward_only, i) == kept(
            init,
            forward_only,
            i,
        ) && pairs[i] == init[i] by {}
        if fold_fields(pairs, forward_only).dom().contains(key) {
            if !(kept(pairs, forward_only, n) && field_key(encode_utf8(pairs[n].0@)) == key) {
                let i = choose|i: int|
                    0 <= i < init.len() && #[trigger] kept(init, forward_only, i) && field_key(
                        encode_utf8(init[i].0@),
                    ) == key;
                assert(kept(pairs, forward_only, i));
            }
        }
        if exists|i: int|
            0 <= i < pairs.len() && #[trigger] kept(pairs, forward_only, i) && field_key(
                encode_utf8(pairs[i].0@),
            ) == key {
            let i = choose|i: int|
                0 <= i < pairs.len() && #[trigger] kept(pairs, forward_only, i) && field_key(
                    encode_utf8(pairs[i].0@),
                ) == key;
            if i < n {
                assert(kept(init, forward_only, i));
            }
        }
        assert forall|i: int|
            0 <= i < pairs.len() && #[trigger] kept(pairs, forward_only, i) && field_key(
                encode_utf8(pairs[i].0@),
            ) == key && (forall|j: int|
                i < j < pairs.len() && kept(pairs, forward_only, j) ==> field_key(
                    encode_utf8(pairs[j].0@),
                ) != key) implies fold_fields(pairs, forward_only)[key] == seq![
            encode_utf8(pairs[i].1@),
        ] by {
            if i < n {
                assert(kept(init, forward_only, i));
                assert forall|j: int|
                    i < j < init.len() && kept(init, forward_only, j) implies field_key(
                    encode_utf8(init[j].0@),
                ) != key by {
                    assert(kept(pairs, forward_only, j));
                }
            }
        }
    }
}

/// Proof that a browser header is dropped exactly when its name, in lower
/// case, is `host`, `content-length` or `transfer-encoding`; every other name
/// is forwarded.
pub proof fn lemma_forwarded_iff_not_hop_name(name: Seq<u8>)
    ensures
        forwarded(name) <==> (field_key(name) != host_name() && field_key(name)
            != content_length_name() && field_key(name) != transfer_encoding_name()),
{
    let k = field_key(name);
    assert forall|hop: Seq<u8>|
        (hop == host_name() || hop == content_length_name() || hop == transfer_encoding_name())
        implies (same_ignoring_case(name, hop) <==> k == hop) by {
        if same_ignoring_case(name, hop) {
            assert forall|j: int| 0 <= j < hop.len() implies k[j] == hop[j] by {
                assert(lower_byte(name[j]) == lower_byte(hop[j]));
            }
            assert(k =~= hop);
        }
        if k == hop {
            assert forall|j: int| 0 <= j < name.len() implies lower_byte(#[trigger] name[j])
                == lower_byte(hop[j]) by {
                assert(k[j] == lower_byte(name[j]));
            }
        }
    }
}

/// Proof that every browser header whose name is not `host`,
/// `content-length` or `transfer-encoding` (in any case) reaches the map of
/// forwarded headers, with its value, unless a later pair of the same name
/// (in any case) replaces it.
pub proof fn lemma_other_headers_reach_the_map(pairs: Seq<(String, String)>, i: int)
    requires
        0 <= i < pairs.len(),
        ({
            let k = field_key(encode_utf8(pairs[i].0@));
            k != host_name() && k != content_length_name() && k != transfer_encoding_name()
        }),
        forall|j: int|
            i < j < pairs.len() ==> field_key(encode_utf8(#[trigger] pairs[j].0@)) != field_key(
                encode_utf8(pairs[i].0@),
            ),
    ensures
        fold_fields(pairs, true).dom().contains(field_key(encode_utf8(pairs[i].0@))),
        fold_fields(pairs, true)[field_key(encode_utf8(pairs[i].0@))] == seq![
            encode_utf8(pairs[i].1@),
        ],
{
    let key = field_key(encode_utf8(pairs[i].0@));
    lemma_forwarded_iff_not_hop_name(encode_utf8(pairs[i].0@));
    assert(kept(pairs, true, i));
    lemma_fold_fields_holds(pairs, true, key);
}

/// Proof that a map of forwarded browser headers never holds `host`,
/// `content-length` or `transfer-encoding`.
pub proof fn lemma_forwarding_drops_hop_fields(pairs: Seq<(String, String)>)
    ensures
        !fold_fields(pairs, true).dom().contains(host_name()),
        !fold_fields(pairs, true).dom().contains(content_length_name()),
        !fold_fields(pairs, true).dom().contains(transfer_encoding_name()),
{
    lemma_fold_fields_holds(pairs, true, host_name());
    lemma_fold_fields_holds(pairs, true, content_length_name());
    lemma_fold_fields_holds(pairs, true, transfer_encoding_name());
    assert forall|i: int| 0 <= i < pairs.len() && #[trigger] kept(pairs, true, i) implies ({
        let k = field_key(encode_utf8(pairs[i].0@));
        k != host_name() && k != content_length_name() && k != transfer_encoding_name()
    }) by {
        let name = encode_utf8(pairs[i].0@);
        let k = field_key(name);
        if k == host_name() {
            assert forall|j: int| 0 <= j < name.len() implies lower_byte(#[trigger] name[j])
                == lower_byte(host_name()[j]) by {
                assert(k[j] == lower_byte(name[j]));
            }
        }
        if k == content_length_name() {
            assert forall|j: int| 0 <= j < name.len() implies lower_byte(#[trigger] name[j])
                == lower_byte(content_length_name()[j]) by {
                assert(k[j] == lower_byte(name[j]));
            }
        }
        if k == transfer_encoding_name() {
            assert forall|j: int| 0 <= j < name.len() implies lower_byte(#[trigger] name[j])
                == lower_byte(transfer_encoding_name()[j]) by {
                assert(k[j] == lower_byte(name[j]));
            }
        }
    }
}

/// The position of the first pair named exactly `name`, at or after `i`.
pub open spec fn name_index_from(pairs: Seq<(String, String)>, name: Seq<char>, i: int) -> Option<
    int,
>
    decreases pairs.len() - i,
{
    if i < 0 || i >= pairs.len() {
        None
    } else if pairs[i].0@ == name {
        Some(i)
    } else {
        name_index_from(pairs, name, i + 1)
    }
}

/// The position of the pair named exactly `name`.
pub open spec fn name_index(pairs: Seq<(String, String)>, name: Seq<char>) -> Option<int> {
    name_index_from(pairs, name, 0)
}

/// The value of the pair named exactly `name`, as a map with `String` keys
/// gives it.
pub open spec fn pair_value(pairs: Seq<(String, String)>, name: Seq<char>) -> Option<Seq<char>> {
    match name_index(pairs, name) {
        Some(i) => Some(pairs[i].1@),
        None => None,
    }
}

/// Whether no name occurs twice, as in a map with `String` keys.
pub open spec fn names_distinct(pairs: Seq<(String, String)>) -> bool {
    forall|i: int, j: int| 0 <= i < j < pairs.len() ==> pairs[i].0@ != pairs[j].0@
}

pub proof fn lemma_name_index_from(pairs: Seq<(String, String)>, name: Seq<char>, i: int)
    requires
        0 <= i,
    ensures
        match name_index_from(pairs, name, i) {
            Some(j) => i <= j < pairs.len() && pairs[j].0@ == name && forall|k: int|
                i <= k < j ==> pairs[k].0@ != name,
            None => forall|k: int| i <= k < pairs.len() ==> pairs[k].0@ != name,
        },
    decreases pairs.len() - i,
{
    if i < pairs.len() && pairs[i].0@ != name {
        lemma_name_index_from(pairs, name, i + 1);
    }
}

/// The pairs as text.
pub open spec fn pairs_view(pairs: Seq<(String, String)>) -> Seq<(Seq<char>, Seq<char>)> {
    pairs.map_values(|p: (String, String)| (p.0@, p.1@))
}

/// The pairs, as text, after `HashMap::insert(name, value)`.
pub open spec fn set_view(pairs: Seq<(String, String)>, name: Seq<char>, value: Seq<char>) -> Seq<
    (Seq<char>, Seq<char>),
> {
    match name_index(pairs, name) {
        Some(i) => pairs_view(pairs).update(i, (name, value)),
        None => pairs_view(pairs).push((name, value)),
    }
}

/// A copy of `pairs`.
pub fn copy_pairs(pairs: &Vec<(String, String)>) -> (r: Vec<(String, String)>)
    ensures
        r@ == pairs@,
{
    let mut r: Vec<(String, String)> = Vec::new();
    let mut i: usize = 0;
    while i < pairs.len()
        invariant
            i <= pairs@.len(),
            r@ == pairs@.take(i as int),
        decreases pairs@.len() - i,
    {
        let name = pairs[i].0.clone();
        let value = pairs[i].1.clone();
        r.push((name, value));
        assert(pairs@.take(i + 1) =~= pairs@.take(i as int).push(pairs@[i as int]));
        i = i + 1;
    }
    assert(pairs@.take(i as int) =~= pairs@);
    r
}

/// `HashMap::insert(name, value)`: the pair named `name` takes `value`, or the
/// pair is added at the end when there is none.
pub fn set_pair(pairs: &mut Vec<(String, String)>, name: String, value: String)
    ensures
        match name_index(old(pairs)@, name@) {
            Some(i) => final(pairs)@ == old(pairs)@.update(i, (old(pairs)@[i].0, value)),
            None => final(pairs)@ == old(pairs)@.push((name, value)),
        },
        pairs_view(final(pairs)@) == set_view(old(pairs)@, name@, value@),
{
    proof {
        lemma_name_index_from(old(pairs)@, name@, 0);
    }
    let ghost before = pairs@;
    let ghost name_v = name@;
    let ghost value_v = value@;
    let mut i: usize = 0;
    while i < pairs.len()
        invariant
            i <= pairs@.len(),
            pairs@ == old(pairs)@,
            pairs@ == before,
            name_v == name@,
            value_v == value@,
            name_index(pairs@, name@) == name_index_from(pairs@, name@, i as int),
        decreases pairs@.len() - i,
    {
        if pairs[i].0 == name {
            let kept_name = pairs[i].0.clone();
            assert(name_index(before, name_v) == Some(i as int));
            pairs.set(i, (kept_name, value));
            assert(pairs_view(pairs@) =~= set_view(before, name_v, value_v));
            return;
        }
        i = i + 1;
    }
    pairs.push((name, value));
    assert(pairs_view(pairs@) =~= set_view(before, name_v, value_v));
}

/// Proof that `set_pair` keeps every name at most once.
pub proof fn lemma_set_pair_keeps_names_distinct(
    before: Seq<(String, String)>,
    after: Seq<(String, String)>,
    name: String,
    value: String,
)
    requires
        names_distinct(before),
        match name_index(before, name@) {
            Some(i) => after == before.update(i, (before[i].0, value)),
            None => after == before.push((name, value)),
        },
    ensures
        names_distinct(after),
{
    lemma_name_index_from(before, name@, 0);
    match name_index(before, name@) {
        Some(i) => {
            assert forall|k: int| 0 <= k < after.len() && k != i implies after[k] == before[k] by {}
        },
        None => {
            assert forall|k: int| 0 <= k < before.len() implies after[k] == before[k] by {}
        },
    }
}

/// Whether no name occurs twice in `pairs`.
pub fn headers_distinct(pairs: &Vec<(String, String)>) -> (r: bool)
    ensures
        r == names_distinct(pairs@),
{
    let mut j: usize = 0;
    while j < pairs.len()
        invariant
            j <= pairs@.len(),
            forall|a: int, b: int| 0 <= a < b < j ==> pairs@[a].0@ != pairs@[b].0@,
        decreases pairs@.len() - j,
    {
        let mut i: usize = 0;
        while i < j
            invariant
                i <= j < pairs@.len(),
                forall|a: int, b: int| 0 <= a < b < j ==> pairs@[a].0@ != pairs@[b].0@,
                forall|a: int| 0 <= a < i ==> pairs@[a].0@ != pairs@[j as int].0@,
            decreases j - i,
        {
            if pairs[i].0 == pairs[j].0 {
                return false;
            }
            i = i + 1;
        }
        j = j + 1;
    }
    true
}

/// Proof that after `set_pair` the map reads back `value` under `name`, holds
/// what it held under every other name, and still has no name twice.
pub proof fn lemma_set_pair_reads_back(
    before: Seq<(String, String)>,
    after: Seq<(String, String)>,
    name: String,
    value: String,
    other: Seq<char>,
)
    requires
        names_distinct(before),
        match name_index(before, name@) {
            Some(i) => after == before.update(i, (before[i].0, value)),
            None => after == before.push((name, value)),
        },
        other != name@,
    ensures
        names_distinct(after),
        pair_value(after, name@) == Some(value@),
        pair_value(after, other) == pair_value(before, other),
{
    lemma_set_pair_keeps_names_distinct(before, after, name, value);
    lemma_name_index_from(before, name@, 0);
    lemma_name_index_from(before, other, 0);
    lemma_name_index_from(after, name@, 0);
    lemma_name_index_from(after, other, 0);
    match name_index(before, name@) {
        Some(i) => {
            assert(after[i].0@ == name@);
            assert forall|k: int| 0 <= k < after.len() && k != i implies after[k] == before[k] by {}
        },
        None => {
            assert(after[before.len() as int].0@ == name@);
            assert forall|k: int| 0 <= k < before.len() implies after[k] == before[k] by {}
        },
    }
}

} // verus!
