//! Bencode serialization: integers, byte strings, lists and dictionaries in
//! the BitTorrent wire format, with a strict recursive-descent parser.
//!
//! Dictionaries are kept as key-ordered pair lists; the constructor inserts
//! keys in sorted order, so encoding is deterministic.  The parser is
//! canonical: a parsed value re-serializes to exactly the bytes it consumed.

use vstd::prelude::*;
use crate::error::BencodeError;

verus! {

broadcast use vstd::std_specs::vec::group_vec_axioms;

/// A bencode value: integer, byte string, list, or dictionary of
/// key-ordered pairs.
#[derive(Debug, PartialEq)]
pub enum BencodeValue {
    Integer(i64),
    ByteString(Vec<u8>),
    List(Vec<BencodeValue>),
    Dictionary(Vec<(Vec<u8>, BencodeValue)>),
}

/// The decimal digits of a nonnegative number, most significant first.
pub open spec fn dec_rep(n: int) -> Seq<u8>
    recommends
        0 <= n,
    decreases n,
{
    if n < 10 {
        seq![(48 + n) as u8]
    } else {
        dec_rep(n / 10) + seq![(48 + n % 10) as u8]
    }
}

/// The decimal form of a signed number.
pub open spec fn int_bytes(i: int) -> Seq<u8> {
    if i < 0 {
        seq![45u8] + dec_rep(-i)
    } else {
        dec_rep(i)
    }
}

/// The bencode serialization of a value.
pub open spec fn bencode_bytes(v: BencodeValue) -> Seq<u8>
    decreases v,
{
    match v {
        BencodeValue::Integer(i) => seq![105u8] + int_bytes(i as int) + seq![101u8],
        BencodeValue::ByteString(s) => dec_rep(s@.len() as int) + seq![58u8] + s@,
        BencodeValue::List(l) => seq![108u8] + bencode_seq_bytes(l@) + seq![101u8],
        BencodeValue::Dictionary(d) => seq![100u8] + bencode_pairs_bytes(d@) + seq![101u8],
    }
}

/// The concatenated serializations of a list's items.
pub open spec fn bencode_seq_bytes(l: Seq<BencodeValue>) -> Seq<u8>
    decreases l,
{
    if l.len() == 0 {
        Seq::empty()
    } else {
        bencode_bytes(l[0]) + bencode_seq_bytes(l.drop_first())
    }
}

/// The concatenated serializations of a dictionary's pairs, each key as a
/// byte string followed by its value.
pub open spec fn bencode_pairs_bytes(d: Seq<(Vec<u8>, BencodeValue)>) -> Seq<u8>
    decreases d,
{
    if d.len() == 0 {
        Seq::empty()
    } else {
        dec_rep(d[0].0@.len() as int) + seq![58u8] + d[0].0@ + bencode_bytes(d[0].1)
            + bencode_pairs_bytes(d.drop_first())
    }
}

/// The pair list of a dictionary value; empty for any other value.
pub open spec fn dict_pairs(v: BencodeValue) -> Seq<(Vec<u8>, BencodeValue)> {
    match v {
        BencodeValue::Dictionary(d) => d@,
        _ => Seq::empty(),
    }
}

/// Whether one of a pair list's values is the given value.
pub open spec fn pairs_values_contain(d: Seq<(Vec<u8>, BencodeValue)>, v: BencodeValue) -> bool {
    exists|j: int| 0 <= j < d.len() && (#[trigger] d[j]).1 == v
}

/// Canonical form: every dictionary anywhere in the value keeps its keys
/// strictly ascending.
pub open spec fn value_canonical(v: BencodeValue) -> bool
    decreases v,
{
    match v {
        BencodeValue::Integer(i) => true,
        BencodeValue::ByteString(s) => true,
        BencodeValue::List(l) => forall|i: int|
            0 <= i < l@.len() ==> value_canonical(#[trigger] l@[i]),
        BencodeValue::Dictionary(d) => dict_keys_sorted(d@) && forall|i: int|
            0 <= i < d@.len() ==> value_canonical((#[trigger] d@[i]).1),
    }
}

/// One dictionary pair of the file wrapper: the key as a byte string,
/// then the value.
pub open spec fn file_pair_bytes(key: Seq<u8>, v: BencodeValue) -> Seq<u8> {
    dec_rep(key.len() as int) + seq![58u8] + key + bencode_bytes(v)
}

/// The exact serialization of the file wrapper: a dictionary holding, in
/// key order, the content, the creation stamp, the format name, the
/// metadata when present, and the version.
pub open spec fn file_format_bytes(
    content: BencodeValue,
    metadata: Option<BencodeValue>,
    stamp: i64,
) -> Seq<u8> {
    let content_part = file_pair_bytes(
        seq![99u8, 111u8, 110u8, 116u8, 101u8, 110u8, 116u8],
        content,
    );
    let created_part = dec_rep(7) + seq![58u8] + seq![99u8, 114u8, 101u8, 97u8, 116u8, 101u8, 100u8]
        + seq![105u8] + int_bytes(stamp as int) + seq![101u8];
    let format_part = dec_rep(6) + seq![58u8] + seq![102u8, 111u8, 114u8, 109u8, 97u8, 116u8]
        + dec_rep(7) + seq![58u8] + seq![98u8, 101u8, 110u8, 99u8, 111u8, 100u8, 101u8];
    let metadata_part = match metadata {
        Some(m) => file_pair_bytes(
            seq![109u8, 101u8, 116u8, 97u8, 100u8, 97u8, 116u8, 97u8],
            m,
        ),
        None => Seq::<u8>::empty(),
    };
    let version_part = dec_rep(7) + seq![58u8] + seq![118u8, 101u8, 114u8, 115u8, 105u8, 111u8,
        110u8] + seq![105u8] + dec_rep(1) + seq![101u8];
    seq![100u8] + content_part + created_part + format_part + metadata_part + version_part
        + seq![101u8]
}

/// The value of the last pair carrying the given key, or nothing when no
/// pair does.
pub open spec fn last_value_of(d: Seq<(Vec<u8>, BencodeValue)>, key: Seq<u8>) -> Option<
    BencodeValue,
>
    decreases d.len(),
{
    if d.len() == 0 {
        None
    } else if d.last().0@ == key {
        Some(d.last().1)
    } else {
        last_value_of(d.drop_last(), key)
    }
}

/// Byte-lexicographic strict order on keys.
pub open spec fn lex_lt(a: Seq<u8>, b: Seq<u8>) -> bool
    decreases a.len(),
{
    if b.len() == 0 {
        false
    } else if a.len() == 0 {
        true
    } else if a[0] != b[0] {
        a[0] < b[0]
    } else {
        lex_lt(a.drop_first(), b.drop_first())
    }
}

/// Keys strictly ascending in byte-lexicographic order.
pub open spec fn dict_keys_sorted(d: Seq<(Vec<u8>, BencodeValue)>) -> bool {
    forall|i: int, j: int|
        0 <= i < j < d.len() ==> lex_lt((#[trigger] d[i]).0@, (#[trigger] d[j]).0@)
}

/// Byte-lexicographic order is a strict total order: any two keys are
/// ordered one way, the other, or equal.
pub proof fn lemma_lex_trichotomy(a: Seq<u8>, b: Seq<u8>)
    ensures
        lex_lt(a, b) || lex_lt(b, a) || a == b,
    decreases a.len(),
{
    if b.len() == 0 {
        if a.len() == 0 {
            assert(a =~= b);
        }
    } else if a.len() == 0 {
    } else if a[0] == b[0] {
        let ta = a.drop_first();
        let tb = b.drop_first();
        lemma_lex_trichotomy(ta, tb);
        if !lex_lt(ta, tb) && !lex_lt(tb, ta) {
            assert(ta == tb);
            assert(ta.len() == tb.len());
            assert forall|k: int| 0 <= k < a.len() implies a[k] == b[k] by {
                if k > 0 {
                    assert(ta[k - 1] == a[k]);
                    assert(tb[k - 1] == b[k]);
                }
            }
            assert(a =~= b);
        }
    }
}

/// Byte-lexicographic order is transitive.
pub proof fn lemma_lex_transitive(a: Seq<u8>, b: Seq<u8>, c: Seq<u8>)
    requires
        lex_lt(a, b),
        lex_lt(b, c),
    ensures
        lex_lt(a, c),
    decreases a.len(),
{
    if a.len() == 0 {
    } else {
        if a[0] == b[0] && b[0] == c[0] {
            lemma_lex_transitive(a.drop_first(), b.drop_first(), c.drop_first());
        }
    }
}

impl BencodeValue {
    /// Build an integer value.
    pub fn integer(value: i64) -> (r: BencodeValue)
        ensures
            r == BencodeValue::Integer(value),
    {
        BencodeValue::Integer(value)
    }

    /// Build a byte-string value.
    pub fn byte_string(value: Vec<u8>) -> (r: BencodeValue)
        ensures
            r == BencodeValue::ByteString(value),
    {
        BencodeValue::ByteString(value)
    }

    /// Build a byte-string value from text.
    pub fn string(value: &str) -> (r: BencodeValue)
        ensures
            r is ByteString && r->ByteString_0@ == vstd::utf8::encode_utf8(value@),
    {
        let bytes = value.as_bytes();
        BencodeValue::ByteString(vstd::slice::slice_to_vec(bytes))
    }

    /// Build a list value.
    pub fn list(value: Vec<BencodeValue>) -> (r: BencodeValue)
        ensures
            r == BencodeValue::List(value),
    {
        BencodeValue::List(value)
    }

    /// Build a dictionary value: the pairs are inserted in key order, a
    /// repeated key replacing the earlier entry.
    pub fn dictionary(value: Vec<(Vec<u8>, BencodeValue)>) -> (r: BencodeValue)
        ensures
            r is Dictionary,
            dict_keys_sorted(dict_pairs(r)),
            (forall|i: int|
                0 <= i < value@.len() ==> value_canonical((#[trigger] value@[i]).1))
                ==> value_canonical(r),
    {
        let ghost all_canonical = forall|i: int|
            0 <= i < value@.len() ==> value_canonical((#[trigger] value@[i]).1);
        let mut pairs: Vec<(Vec<u8>, BencodeValue)> = Vec::new();
        let mut rest = value;
        while rest.len() > 0
            invariant
                dict_keys_sorted(pairs@),
                all_canonical ==> forall|i: int|
                    0 <= i < rest@.len() ==> value_canonical((#[trigger] rest@[i]).1),
                all_canonical ==> forall|i: int|
                    0 <= i < pairs@.len() ==> value_canonical((#[trigger] pairs@[i]).1),
            decreases rest@.len(),
        {
            let ghost pre_rest = rest@;
            let ghost pre_pairs = pairs@;
            let (k, v) = rest.remove(0);
            insert_pair(&mut pairs, k, v);
            proof {
                if all_canonical {
                    assert forall|i: int|
                        0 <= i < pairs@.len() implies value_canonical(
                        (#[trigger] pairs@[i]).1,
                    ) by {
                        if pairs@[i].1 == v {
                        } else {
                            assert(pairs_values_contain(pre_pairs, pairs@[i].1));
                            let j = choose|j: int|
                                0 <= j < pre_pairs.len() && (#[trigger] pre_pairs[j]).1
                                    == pairs@[i].1;
                        }
                    }
                    assert forall|i: int|
                        0 <= i < rest@.len() implies value_canonical(
                        (#[trigger] rest@[i]).1,
                    ) by {
                        assert(rest@[i] == pre_rest[i + 1]);
                    }
                }
            }
        }
        BencodeValue::Dictionary(pairs)
    }

    /// The integer content, when this is an integer.
    pub fn as_integer(&self) -> (r: Option<i64>)
        ensures
            match r {
                Some(i) => self is Integer && self->Integer_0 == i,
                None => !(self is Integer),
            },
    {
        match self {
            BencodeValue::Integer(i) => Some(*i),
            _ => None,
        }
    }

    /// The byte-string content, when this is a byte string.
    pub fn as_byte_string(&self) -> (r: Option<&Vec<u8>>)
        ensures
            match r {
                Some(s) => self is ByteString && self->ByteString_0@ == s@,
                None => !(self is ByteString),
            },
    {
        match self {
            BencodeValue::ByteString(s) => Some(s),
            _ => None,
        }
    }

    /// The content decoded as UTF-8 text, when this is a byte string holding
    /// valid UTF-8.
    pub fn as_string(&self) -> (r: Option<String>)
        ensures
            match r {
                Some(s) => self is ByteString && vstd::utf8::encode_utf8(s@)
                    == self->ByteString_0@,
                None => !(self is ByteString) || !vstd::utf8::valid_utf8(self->ByteString_0@),
            },
    {
        match self {
            BencodeValue::ByteString(s) => {
                let copy = clone_bytes(s);
                let ghost gb = copy@;
                match crate::hashing::string_from_utf8(copy) {
                    Some(text) => {
                        proof {
                            vstd::utf8::decode_utf8_encode_utf8(gb);
                        }
                        Some(text)
                    },
                    None => None,
                }
            },
            _ => None,
        }
    }

    /// The item list, when this is a list.
    pub fn as_list(&self) -> (r: Option<&Vec<BencodeValue>>)
        ensures
            match r {
                Some(l) => self is List && self->List_0@ == l@,
                None => !(self is List),
            },
    {
        match self {
            BencodeValue::List(l) => Some(l),
            _ => None,
        }
    }

    /// The pair list, when this is a dictionary.
    pub fn as_dictionary(&self) -> (r: Option<&Vec<(Vec<u8>, BencodeValue)>>)
        ensures
            match r {
                Some(d) => self is Dictionary && self->Dictionary_0@ == d@,
                None => !(self is Dictionary),
            },
    {
        match self {
            BencodeValue::Dictionary(d) => Some(d),
            _ => None,
        }
    }

    /// The value stored under a text key, when this is a dictionary holding
    /// that key.
    pub fn get_dict_value(&self, key: &str) -> (r: Option<&BencodeValue>)
        ensures
            match r {
                Some(v) => exists|i: int|
                    0 <= i < dict_pairs(*self).len() && (#[trigger] dict_pairs(*self)[i]).0@
                        == vstd::utf8::encode_utf8(key@) && dict_pairs(*self)[i].1 == *v,
                None => forall|i: int|
                    0 <= i < dict_pairs(*self).len() ==> (#[trigger] dict_pairs(*self)[i]).0@
                        != vstd::utf8::encode_utf8(key@),
            },
    {
        match self {
            BencodeValue::Dictionary(d) => {
                let kb = key.as_bytes();
                let n = d.len();
                let mut i: usize = 0;
                while i < n
                    invariant
                        i <= n,
                        n == d@.len(),
                        dict_pairs(*self) == d@,
                        kb@ == vstd::utf8::encode_utf8(key@),
                        forall|m: int| 0 <= m < i ==> (#[trigger] d@[m]).0@ != kb@,
                    decreases n - i,
                {
                    if crate::tcf::bytes_equal(d[i].0.as_slice(), kb) {
                        proof {
                            assert((#[trigger] dict_pairs(*self)[i as int]).0@
                                == vstd::utf8::encode_utf8(key@));
                        }
                        return Some(&d[i].1);
                    }
                    i = i + 1;
                }
                None
            },
            _ => None,
        }
    }

    /// The exact serialized size of this value in bytes, saturating at the
    /// machine's address-space limit.
    pub fn encoded_size(&self) -> (r: usize)
        ensures
            r as int == vstd::math::min(bencode_bytes(*self).len() as int, usize::MAX as int),
        decreases *self, 0int,
    {
        match self {
            BencodeValue::Integer(i) => {
                let digits = int_digit_count(*i);
                proof {
                    crate::bencode::lemma_int_bytes_len(*i as int);
                    assert(*self == BencodeValue::Integer(*i));
                    assert(bencode_bytes(*self).len() == 2 + int_bytes(*i as int).len());
                }
                2 + digits
            },
            BencodeValue::ByteString(s) => {
                let digits = len_digit_count(s.len());
                proof {
                    crate::bencode::lemma_dec_rep_len_bound(s@.len() as int);
                }
                let r = sat_add(sat_add(digits, 1), s.len());
                proof {
                    assert(bencode_bytes(*self).len() == dec_rep(s@.len() as int).len() + 1
                        + s@.len());
                    assert(r as int == vstd::math::min(
                        bencode_bytes(*self).len() as int,
                        usize::MAX as int,
                    ));
                }
                r
            },
            BencodeValue::List(l) => {
                let inner = Self::encoded_size_seq(l, 0);
                let r = sat_add(2, inner);
                proof {
                    assert(l@.skip(0) =~= l@);
                    assert(bencode_bytes(*self).len() == 2 + bencode_seq_bytes(l@).len());
                    assert(r as int == vstd::math::min(
                        bencode_bytes(*self).len() as int,
                        usize::MAX as int,
                    ));
                }
                r
            },
            BencodeValue::Dictionary(d) => {
                let inner = Self::encoded_size_pairs(d, 0);
                let r = sat_add(2, inner);
                proof {
                    assert(d@.skip(0) =~= d@);
                    assert(bencode_bytes(*self).len() == 2 + bencode_pairs_bytes(d@).len());
                    assert(r as int == vstd::math::min(
                        bencode_bytes(*self).len() as int,
                        usize::MAX as int,
                    ));
                }
                r
            },
        }
    }

    /// Serialized size of a list's items from an index on, saturating.
    fn encoded_size_seq(l: &Vec<BencodeValue>, from: usize) -> (r: usize)
        requires
            from <= l@.len(),
        ensures
            r as int == vstd::math::min(
                bencode_seq_bytes(l@.skip(from as int)).len() as int,
                usize::MAX as int,
            ),
        decreases *l, l@.len() - from,
    {
        if from == l.len() {
            proof {
                assert(l@.skip(from as int) =~= Seq::<BencodeValue>::empty());
            }
            0
        } else {
            let head = l[from].encoded_size();
            let rest = Self::encoded_size_seq(l, from + 1);
            proof {
                assert(l@.skip(from as int).drop_first() =~= l@.skip(from as int + 1));
                assert(l@.skip(from as int)[0] == l@[from as int]);
            }
            sat_add(head, rest)
        }
    }

    /// Serialized size of a dictionary's pairs from an index on, saturating.
    fn encoded_size_pairs(d: &Vec<(Vec<u8>, BencodeValue)>, from: usize) -> (r: usize)
        requires
            from <= d@.len(),
        ensures
            r as int == vstd::math::min(
                bencode_pairs_bytes(d@.skip(from as int)).len() as int,
                usize::MAX as int,
            ),
        decreases *d, d@.len() - from,
    {
        if from == d.len() {
            proof {
                assert(d@.skip(from as int) =~= Seq::<(Vec<u8>, BencodeValue)>::empty());
            }
            0
        } else {
            let key_digits = len_digit_count(d[from].0.len());
            proof {
                crate::bencode::lemma_dec_rep_len_bound(d@[from as int].0@.len() as int);
            }
            let key_part = sat_add(sat_add(key_digits, 1), d[from].0.len());
            let val_part = d[from].1.encoded_size();
            let rest = Self::encoded_size_pairs(d, from + 1);
            proof {
                assert(d@.skip(from as int).drop_first() =~= d@.skip(from as int + 1));
                assert(d@.skip(from as int)[0] == d@[from as int]);
            }
            sat_add(sat_add(key_part, val_part), rest)
        }
    }
}

/// Saturating addition on sizes.
fn sat_add(a: usize, b: usize) -> (r: usize)
    ensures
        r as int == vstd::math::min(a as int + b as int, usize::MAX as int),
{
    if a > usize::MAX - b {
        usize::MAX
    } else {
        a + b
    }
}

/// Copy a byte vector.
fn clone_bytes(a: &Vec<u8>) -> (r: Vec<u8>)
    ensures
        r@ == a@,
{
    vstd::slice::slice_to_vec(a.as_slice())
}

/// Number of decimal digits in the serialized form of a signed number,
/// plus one for a sign when negative.
fn int_digit_count(i: i64) -> (r: usize)
    ensures
        r as int == int_bytes(i as int).len(),
{
    let mag: u64 = if i < 0 {
        (-(i as i128)) as u64
    } else {
        i as u64
    };
    let digits = u64_digit_count(mag);
    proof {
        lemma_dec_rep_len_bound(mag as int);
        if i < 0 {
            assert(int_bytes(i as int).len() == 1 + dec_rep(-(i as int)).len());
        }
    }
    if i < 0 {
        digits + 1
    } else {
        digits
    }
}

/// Number of decimal digits of a length.
fn len_digit_count(n: usize) -> (r: usize)
    ensures
        r as int == dec_rep(n as int).len(),
{
    u64_digit_count(n as u64)
}

/// Number of decimal digits of a nonnegative number.
fn u64_digit_count(n: u64) -> (r: usize)
    ensures
        r as int == dec_rep(n as int).len(),
    decreases n,
{
    if n < 10 {
        1
    } else {
        let rest = u64_digit_count(n / 10);
        proof {
            lemma_dec_rep_len_bound(n as int / 10);
        }
        rest + 1
    }
}

/// Insert a pair into a key-ordered pair list, replacing an equal key and
/// keeping the keys strictly ascending.
fn insert_pair(pairs: &mut Vec<(Vec<u8>, BencodeValue)>, key: Vec<u8>, value: BencodeValue)
    requires
        dict_keys_sorted(old(pairs)@),
    ensures
        dict_keys_sorted(final(pairs)@),
        forall|i: int|
            0 <= i < final(pairs)@.len() ==> (#[trigger] final(pairs)@[i]).1 == value
                || pairs_values_contain(old(pairs)@, final(pairs)@[i].1),
{
    let ghost gkey = key@;
    let n = pairs.len();
    let mut i: usize = 0;
    while i < n
        invariant
            i <= n,
            n == pairs@.len(),
            pairs@ == old(pairs)@,
            gkey == key@,
            dict_keys_sorted(pairs@),
            forall|k: int| 0 <= k < i ==> lex_lt((#[trigger] pairs@[k]).0@, gkey),
        decreases n - i,
    {
        let c = lex_compare(pairs[i].0.as_slice(), key.as_slice());
        if c == 0 {
            let ghost pre = pairs@;
            pairs.set(i, (key, value));
            proof {
                assert forall|a: int, b: int| 0 <= a < b < pairs@.len() implies lex_lt(
                    (#[trigger] pairs@[a]).0@,
                    (#[trigger] pairs@[b]).0@,
                ) by {
                    assert(pre[i as int].0@ == gkey);
                    assert(lex_lt(pre[a].0@, pre[b].0@));
                }
            }
            return ;
        }
        if c > 0 {
            proof {
                lemma_lex_trichotomy(pairs@[i as int].0@, gkey);
            }
            let ghost pre = pairs@;
            pairs.insert(i, (key, value));
            proof {
                assert(lex_lt(gkey, pre[i as int].0@));
                assert forall|a: int, b: int| 0 <= a < b < pairs@.len() implies lex_lt(
                    (#[trigger] pairs@[a]).0@,
                    (#[trigger] pairs@[b]).0@,
                ) by {
                    if a < i && b == i {
                        assert(pairs@[a] == pre[a]);
                    } else if a == i && b > i {
                        assert(pairs@[b] == pre[b - 1]);
                        if b - 1 > i {
                            lemma_lex_transitive(gkey, pre[i as int].0@, pre[b - 1].0@);
                        }
                    } else if a < i && b > i {
                        assert(pairs@[a] == pre[a]);
                        assert(pairs@[b] == pre[b - 1]);
                        if b - 1 == a {
                        } else {
                            assert(lex_lt(pre[a].0@, pre[b - 1].0@));
                        }
                    } else if b < i {
                        assert(pairs@[a] == pre[a]);
                        assert(pairs@[b] == pre[b]);
                    } else if a > i {
                        assert(pairs@[a] == pre[a - 1]);
                        assert(pairs@[b] == pre[b - 1]);
                    }
                }
            }
            return ;
        }
        i = i + 1;
    }
    let ghost pre = pairs@;
    pairs.push((key, value));
    proof {
        assert forall|a: int, b: int| 0 <= a < b < pairs@.len() implies lex_lt(
            (#[trigger] pairs@[a]).0@,
            (#[trigger] pairs@[b]).0@,
        ) by {
            if b < pre.len() {
                assert(pairs@[a] == pre[a]);
                assert(pairs@[b] == pre[b]);
            } else {
                assert(pairs@[a] == pre[a]);
                assert(pairs@[b].0@ == gkey);
            }
        }
    }
}

/// Compare two byte strings lexicographically: negative, zero or positive as
/// the first is smaller, equal or greater.
fn lex_compare(a: &[u8], b: &[u8]) -> (r: i32)
    ensures
        r == 0 <==> a@ == b@,
        r < 0 <==> lex_lt(a@, b@),
{
    let an = a.len();
    let bn = b.len();
    let mut i: usize = 0;
    proof {
        assert(a@.skip(0) =~= a@);
        assert(b@.skip(0) =~= b@);
    }
    while i < an && i < bn
        invariant
            i <= an,
            i <= bn,
            an == a@.len(),
            bn == b@.len(),
            forall|k: int| 0 <= k < i ==> a@[k] == b@[k],
            lex_lt(a@, b@) == lex_lt(a@.skip(i as int), b@.skip(i as int)),
        decreases an - i,
    {
        proof {
            assert(a@.skip(i as int).drop_first() =~= a@.skip(i as int + 1));
            assert(b@.skip(i as int).drop_first() =~= b@.skip(i as int + 1));
            assert(a@.skip(i as int)[0] == a@[i as int]);
            assert(b@.skip(i as int)[0] == b@[i as int]);
        }
        if a[i] < b[i] {
            proof {
                assert(lex_lt(a@.skip(i as int), b@.skip(i as int)));
                assert(a@[i as int] != b@[i as int]);
            }
            return -1;
        }
        if a[i] > b[i] {
            proof {
                assert(!lex_lt(a@.skip(i as int), b@.skip(i as int)));
                assert(a@[i as int] != b@[i as int]);
            }
            return 1;
        }
        i = i + 1;
    }
    if an == bn {
        proof {
            assert(a@ =~= b@);
            assert(b@.skip(i as int).len() == 0);
            assert(!lex_lt(a@.skip(i as int), b@.skip(i as int)));
        }
        0
    } else if an < bn {
        proof {
            assert(a@.skip(i as int).len() == 0);
            assert(b@.skip(i as int).len() > 0);
            assert(lex_lt(a@.skip(i as int), b@.skip(i as int)));
            assert(a@.len() != b@.len());
        }
        -1
    } else {
        proof {
            assert(b@.skip(i as int).len() == 0);
            assert(!lex_lt(a@.skip(i as int), b@.skip(i as int)));
            assert(a@.len() != b@.len());
        }
        1
    }
}

/// Powers of ten.
pub open spec fn pow10(j: nat) -> int
    decreases j,
{
    if j == 0 {
        1
    } else {
        10 * pow10((j - 1) as nat)
    }
}

/// A number below the j-th power of ten has at most j decimal digits.
pub proof fn lemma_dec_rep_len_below(n: int, j: nat)
    requires
        0 <= n,
        1 <= j,
        n < pow10(j),
    ensures
        dec_rep(n).len() <= j,
    decreases j,
{
    if n >= 10 {
        assert(pow10(j) == 10 * pow10((j - 1) as nat));
        vstd::arithmetic::div_mod::lemma_div_is_ordered(n, pow10(j) - 1, 10);
        assert((10 * pow10((j - 1) as nat) - 1) / 10 == pow10((j - 1) as nat) - 1) by {
            vstd::arithmetic::div_mod::lemma_fundamental_div_mod_converse(
                10 * pow10((j - 1) as nat) - 1,
                10,
                pow10((j - 1) as nat) - 1,
                9,
            );
            assert(10 * pow10((j - 1) as nat) - 1 == (pow10((j - 1) as nat) - 1) * 10 + 9)
                by (nonlinear_arith);
        }
        lemma_dec_rep_len_below(n / 10, (j - 1) as nat);
    }
}

/// Any count that fits in 64 bits has at most 20 decimal digits.
pub proof fn lemma_dec_rep_len_bound(n: int)
    requires
        0 <= n <= 0xffff_ffff_ffff_ffff,
    ensures
        dec_rep(n).len() <= 20,
{
    reveal_with_fuel(pow10, 21);
    assert(pow10(20) == 100000000000000000000);
    lemma_dec_rep_len_below(n, 20);
}

/// The numeric value of a run of decimal digit bytes, most significant
/// first.
pub open spec fn digits_value(s: Seq<u8>) -> int
    decreases s.len(),
{
    if s.len() == 0 {
        0
    } else {
        digits_value(s.drop_last()) * 10 + (s.last() - 48)
    }
}

/// The decimal form of a nonnegative number is a nonempty digit run whose
/// first digit is zero only for zero itself.
pub proof fn lemma_dec_rep_digits(n: int)
    requires
        0 <= n,
    ensures
        dec_rep(n).len() >= 1,
        forall|i: int| 0 <= i < dec_rep(n).len() ==> 48 <= #[trigger] dec_rep(n)[i] <= 57,
        dec_rep(n)[0] == 48 <==> n == 0,
    decreases n,
{
    if n >= 10 {
        lemma_dec_rep_digits(n / 10);
        assert(dec_rep(n) == dec_rep(n / 10) + seq![(48 + n % 10) as u8]);
        assert forall|i: int| 0 <= i < dec_rep(n).len() implies 48 <= #[trigger] dec_rep(
            n,
        )[i] <= 57 by {
            if i < dec_rep(n / 10).len() {
                assert(dec_rep(n)[i] == dec_rep(n / 10)[i]);
            } else {
                assert(dec_rep(n)[i] == (48 + n % 10) as u8);
            }
        }
        assert(dec_rep(n)[0] == dec_rep(n / 10)[0]);
        assert(n / 10 >= 1) by {
            vstd::arithmetic::div_mod::lemma_div_is_ordered(10, n, 10);
            assert(10int / 10int == 1);
        }
    }
}

/// Reading the decimal form of a number back gives the number.
pub proof fn lemma_digits_value_dec_rep(n: int)
    requires
        0 <= n,
    ensures
        digits_value(dec_rep(n)) == n,
    decreases n,
{
    if n < 10 {
        assert(dec_rep(n) == seq![(48 + n) as u8]);
        assert(dec_rep(n).drop_last() =~= Seq::<u8>::empty());
        assert(dec_rep(n).last() == (48 + n) as u8);
        assert((48 + n) as u8 - 48 == n);
        assert(digits_value(dec_rep(n)) == digits_value(Seq::<u8>::empty()) * 10 + n);
    } else {
        lemma_digits_value_dec_rep(n / 10);
        assert(dec_rep(n) == dec_rep(n / 10) + seq![(48 + n % 10) as u8]);
        assert(dec_rep(n).drop_last() =~= dec_rep(n / 10));
        assert(dec_rep(n).last() == (48 + n % 10) as u8);
        assert((48 + n % 10) as u8 - 48 == n % 10);
        vstd::arithmetic::div_mod::lemma_fundamental_div_mod(n, 10);
    }
}

/// A decimal run sitting in a byte sequence: the digits of `m` followed by
/// the end of the sequence or a byte that is no digit.
pub open spec fn digit_run_at(data: Seq<u8>, pos: int, m: int) -> bool {
    &&& 0 <= m
    &&& 0 <= pos
    &&& pos + dec_rep(m).len() <= data.len()
    &&& data.subrange(pos, pos + dec_rep(m).len() as int) == dec_rep(m)
    &&& (pos + dec_rep(m).len() == data.len() || !(48 <= data[pos + dec_rep(m).len()] <= 57))
}

/// At one position only one number's decimal run can sit: the runs would be
/// prefixes of one another, and a digit would stand where a terminator must.
pub proof fn lemma_digit_run_unique(data: Seq<u8>, pos: int, m1: int, m2: int)
    requires
        digit_run_at(data, pos, m1),
        digit_run_at(data, pos, m2),
    ensures
        m1 == m2,
{
    lemma_dec_rep_digits(m1);
    lemma_dec_rep_digits(m2);
    let a = dec_rep(m1);
    let b = dec_rep(m2);
    if a.len() < b.len() {
        assert(data[pos + a.len() as int] == data.subrange(
            pos,
            pos + b.len() as int,
        )[a.len() as int]);
        assert(data[pos + a.len() as int] == b[a.len() as int]);
        assert(false);
    }
    if b.len() < a.len() {
        assert(data[pos + b.len() as int] == data.subrange(
            pos,
            pos + a.len() as int,
        )[b.len() as int]);
        assert(data[pos + b.len() as int] == a[b.len() as int]);
        assert(false);
    }
    assert(a =~= b);
    lemma_digits_value_dec_rep(m1);
    lemma_digits_value_dec_rep(m2);
}

/// The value read from a front part of a decimal run never exceeds the
/// number itself.
pub proof fn lemma_dec_rep_prefix_value(n: int, j: int)
    requires
        0 <= n,
        0 <= j <= dec_rep(n).len(),
    ensures
        0 <= digits_value(dec_rep(n).take(j)) <= n,
    decreases dec_rep(n).len() - j,
{
    lemma_dec_rep_digits(n);
    if j == dec_rep(n).len() {
        assert(dec_rep(n).take(j) =~= dec_rep(n));
        lemma_digits_value_dec_rep(n);
    } else {
        lemma_dec_rep_prefix_value(n, j + 1);
        assert(dec_rep(n).take(j + 1).drop_last() =~= dec_rep(n).take(j));
        assert(dec_rep(n).take(j + 1).last() == dec_rep(n)[j]);
        let vj = digits_value(dec_rep(n).take(j));
        let d = dec_rep(n)[j] - 48;
        assert(digits_value(dec_rep(n).take(j + 1)) == vj * 10 + d);
        assert(0 <= d <= 9);
    }
}

/// A value's serialization sitting in a byte sequence at a position, in
/// canonical form.
pub open spec fn value_at(data: Seq<u8>, pos: int, v: BencodeValue) -> bool {
    &&& value_canonical(v)
    &&& 0 <= pos
    &&& pos + bencode_bytes(v).len() <= data.len()
    &&& data.subrange(pos, pos + bencode_bytes(v).len() as int) == bencode_bytes(v)
}

/// A serialization is at least two bytes and its first byte names the
/// variant: `i` an integer, `l` a list, `d` a dictionary, a digit a byte
/// string; it is never the terminator `e`.
pub proof fn lemma_bencode_first_byte(v: BencodeValue)
    ensures
        bencode_bytes(v).len() >= 2,
        v is Integer ==> bencode_bytes(v)[0] == 105,
        v is List ==> bencode_bytes(v)[0] == 108,
        v is Dictionary ==> bencode_bytes(v)[0] == 100,
        v is ByteString ==> 48 <= bencode_bytes(v)[0] <= 57,
        bencode_bytes(v)[0] != 101,
{
    match v {
        BencodeValue::Integer(i) => {
            assert(bencode_bytes(v) == seq![105u8] + int_bytes(i as int) + seq![101u8]);
            assert(bencode_bytes(v)[0] == 105);
        },
        BencodeValue::ByteString(s) => {
            lemma_dec_rep_digits(s@.len() as int);
            assert(bencode_bytes(v) == dec_rep(s@.len() as int) + seq![58u8] + s@);
            assert(bencode_bytes(v)[0] == dec_rep(s@.len() as int)[0]);
        },
        BencodeValue::List(l) => {
            assert(bencode_bytes(v) == seq![108u8] + bencode_seq_bytes(l@) + seq![101u8]);
            assert(bencode_bytes(v)[0] == 108);
        },
        BencodeValue::Dictionary(d) => {
            assert(bencode_bytes(v) == seq![100u8] + bencode_pairs_bytes(d@) + seq![101u8]);
            assert(bencode_bytes(v)[0] == 100);
        },
    }
}

/// A serialization starting with a digit is a byte string's: its length
/// run ends at a colon, and the body follows.
proof fn lemma_value_at_digit_is_string(data: Seq<u8>, pos: int, v: BencodeValue)
    requires
        value_at(data, pos, v),
        48 <= data[pos] <= 57,
    ensures
        v is ByteString,
        digit_run_at(data, pos, v->ByteString_0@.len() as int),
        bencode_bytes(v).len() == dec_rep(v->ByteString_0@.len() as int).len() + 1
            + v->ByteString_0@.len(),
        data[pos + dec_rep(v->ByteString_0@.len() as int).len() as int] == 58,
{
    lemma_bencode_first_byte(v);
    let bb = bencode_bytes(v);
    assert(data[pos] == data.subrange(pos, pos + bb.len() as int)[0]);
    assert(bb[0] == data[pos]);
    if !(v is ByteString) {
        assert(false);
    }
    let sv = v->ByteString_0@;
    let dl = dec_rep(sv.len() as int).len() as int;
    lemma_dec_rep_digits(sv.len() as int);
    assert(bb == dec_rep(sv.len() as int) + seq![58u8] + sv);
    assert(data.subrange(pos, pos + dl) =~= dec_rep(sv.len() as int)) by {
        assert forall|j: int| 0 <= j < dl implies #[trigger] data.subrange(pos, pos + dl)[j]
            == dec_rep(sv.len() as int)[j] by {
            assert(data.subrange(pos, pos + bb.len() as int)[j] == bb[j]);
            assert(bb[j] == dec_rep(sv.len() as int)[j]);
        }
    }
    assert(data[pos + dl] == data.subrange(pos, pos + bb.len() as int)[dl]);
    assert(bb[dl] == 58);
}

/// A serialization starting with `i` is an integer's: an optional sign,
/// the digit run of the magnitude, and the terminator `e`.
proof fn lemma_value_at_i_is_integer(data: Seq<u8>, pos: int, v: BencodeValue)
    requires
        value_at(data, pos, v),
        data[pos] == 105,
    ensures
        v is Integer,
        v->Integer_0 >= 0 ==> {
            &&& data[pos + 1] != 45
            &&& digit_run_at(data, pos + 1, v->Integer_0 as int)
            &&& bencode_bytes(v).len() == 2 + dec_rep(v->Integer_0 as int).len()
            &&& data[pos + 1 + dec_rep(v->Integer_0 as int).len() as int] == 101
        },
        v->Integer_0 < 0 ==> {
            &&& data[pos + 1] == 45
            &&& digit_run_at(data, pos + 2, -(v->Integer_0 as int))
            &&& bencode_bytes(v).len() == 3 + dec_rep(-(v->Integer_0 as int)).len()
            &&& data[pos + 2 + dec_rep(-(v->Integer_0 as int)).len() as int] == 101
        },
{
    lemma_bencode_first_byte(v);
    let bb = bencode_bytes(v);
    assert(data[pos] == data.subrange(pos, pos + bb.len() as int)[0]);
    assert(bb[0] == data[pos]);
    if !(v is Integer) {
        assert(false);
    }
    let i = v->Integer_0 as int;
    assert(bb == seq![105u8] + int_bytes(i) + seq![101u8]);
    if i >= 0 {
        let dl = dec_rep(i).len() as int;
        lemma_dec_rep_digits(i);
        assert(int_bytes(i) == dec_rep(i));
        assert(bb.len() == 2 + dl);
        assert forall|j: int| 0 <= j < dl implies #[trigger] data.subrange(
            pos + 1,
            pos + 1 + dl,
        )[j] == dec_rep(i)[j] by {
            assert(data.subrange(pos, pos + bb.len() as int)[j + 1] == bb[j + 1]);
            assert(bb[j + 1] == dec_rep(i)[j]);
        }
        assert(data.subrange(pos + 1, pos + 1 + dl) =~= dec_rep(i));
        assert(data[pos + 1 + dl] == data.subrange(pos, pos + bb.len() as int)[1 + dl]);
        assert(bb[1 + dl] == 101);
        assert(data[pos + 1] == data.subrange(pos, pos + bb.len() as int)[1]);
        assert(bb[1] == dec_rep(i)[0]);
    } else {
        let dl = dec_rep(-i).len() as int;
        lemma_dec_rep_digits(-i);
        assert(int_bytes(i) == seq![45u8] + dec_rep(-i));
        assert(bb.len() == 3 + dl);
        assert(data[pos + 1] == data.subrange(pos, pos + bb.len() as int)[1]);
        assert(bb[1] == 45);
        assert forall|j: int| 0 <= j < dl implies #[trigger] data.subrange(
            pos + 2,
            pos + 2 + dl,
        )[j] == dec_rep(-i)[j] by {
            assert(data.subrange(pos, pos + bb.len() as int)[j + 2] == bb[j + 2]);
            assert(bb[j + 2] == dec_rep(-i)[j]);
        }
        assert(data.subrange(pos + 2, pos + 2 + dl) =~= dec_rep(-i));
        assert(data[pos + 2 + dl] == data.subrange(pos, pos + bb.len() as int)[2 + dl]);
        assert(bb[2 + dl] == 101);
    }
}

/// A window of a matching window of a byte sequence matches the same
/// window of the contained bytes.
proof fn lemma_nested_subrange(data: Seq<u8>, pos: int, whole: Seq<u8>, a: int, b: int)
    requires
        0 <= pos,
        pos + whole.len() <= data.len(),
        data.subrange(pos, pos + whole.len() as int) == whole,
        0 <= a <= b <= whole.len(),
    ensures
        data.subrange(pos + a, pos + b) == whole.subrange(a, b),
{
    assert(data.subrange(pos + a, pos + b) =~= whole.subrange(a, b)) by {
        assert forall|j: int| 0 <= j < b - a implies #[trigger] data.subrange(
            pos + a,
            pos + b,
        )[j] == whole.subrange(a, b)[j] by {
            assert(data.subrange(pos, pos + whole.len() as int)[a + j] == whole[a + j]);
        }
    }
}

/// A list's serialization splits at any index into the serializations of
/// the front part and the back part.
proof fn lemma_seq_bytes_concat(l: Seq<BencodeValue>, k: int)
    requires
        0 <= k <= l.len(),
    ensures
        bencode_seq_bytes(l) == bencode_seq_bytes(l.take(k)) + bencode_seq_bytes(l.skip(k)),
    decreases k,
{
    if k == 0 {
        assert(l.take(0) =~= Seq::<BencodeValue>::empty());
        assert(l.skip(0) =~= l);
        assert(bencode_seq_bytes(l) =~= bencode_seq_bytes(l.take(0)) + bencode_seq_bytes(
            l.skip(0),
        ));
    } else {
        lemma_seq_bytes_concat(l, k - 1);
        lemma_bencode_seq_push(l.take(k - 1), l[k - 1]);
        assert(l.take(k) =~= l.take(k - 1).push(l[k - 1]));
        assert(l.skip(k - 1).len() > 0);
        assert(l.skip(k - 1)[0] == l[k - 1]);
        assert(l.skip(k - 1).drop_first() =~= l.skip(k));
        assert(bencode_seq_bytes(l.skip(k - 1)) == bencode_bytes(l[k - 1]) + bencode_seq_bytes(
            l.skip(k),
        ));
        assert(bencode_seq_bytes(l) =~= bencode_seq_bytes(l.take(k)) + bencode_seq_bytes(
            l.skip(k),
        ));
    }
}

/// A dictionary's pair serialization splits at any index into the
/// serializations of the front pairs and the back pairs.
proof fn lemma_pairs_bytes_concat(d: Seq<(Vec<u8>, BencodeValue)>, k: int)
    requires
        0 <= k <= d.len(),
    ensures
        bencode_pairs_bytes(d) == bencode_pairs_bytes(d.take(k)) + bencode_pairs_bytes(
            d.skip(k),
        ),
    decreases k,
{
    if k == 0 {
        assert(d.take(0) =~= Seq::<(Vec<u8>, BencodeValue)>::empty());
        assert(d.skip(0) =~= d);
        assert(bencode_pairs_bytes(d) =~= bencode_pairs_bytes(d.take(0)) + bencode_pairs_bytes(
            d.skip(0),
        ));
    } else {
        lemma_pairs_bytes_concat(d, k - 1);
        lemma_bencode_pairs_push(d.take(k - 1), d[k - 1]);
        assert(d.take(k) =~= d.take(k - 1).push(d[k - 1]));
        assert(d.skip(k - 1).len() > 0);
        assert(d.skip(k - 1)[0] == d[k - 1]);
        assert(d.skip(k - 1).drop_first() =~= d.skip(k));
        assert(bencode_pairs_bytes(d.skip(k - 1)) == dec_rep(d[k - 1].0@.len() as int) + seq![
            58u8,
        ] + d[k - 1].0@ + bencode_bytes(d[k - 1].1) + bencode_pairs_bytes(d.skip(k)));
        assert(bencode_pairs_bytes(d) =~= bencode_pairs_bytes(d.take(k)) + bencode_pairs_bytes(
            d.skip(k),
        ));
    }
}

/// Inside a dictionary's serialization, after the front pairs the next
/// key sits as a byte string and its value follows, both in canonical
/// position.
proof fn lemma_dict_pair_at(data: Seq<u8>, pos: int, v: BencodeValue, q: int, k: int)
    requires
        value_at(data, pos, v),
        data[pos] == 100,
        0 <= k < dict_pairs(v).len(),
        q == pos + 1 + bencode_pairs_bytes(dict_pairs(v).take(k)).len(),
    ensures
        ({
            let d = dict_pairs(v);
            let ks = BencodeValue::ByteString(d[k].0);
            let kl = bencode_bytes(ks).len() as int;
            let vl = bencode_bytes(d[k].1).len() as int;
            &&& value_at(data, q, ks)
            &&& value_at(data, q + kl, d[k].1)
            &&& q + kl + vl == pos + 1 + bencode_pairs_bytes(d.take(k + 1)).len()
            &&& q + kl + vl <= pos + bencode_bytes(v).len() - 1
        }),
{
    lemma_bencode_first_byte(v);
    let d = dict_pairs(v);
    let bb = bencode_bytes(v);
    lemma_pairs_bytes_concat(d, k);
    assert(bb == seq![100u8] + bencode_pairs_bytes(d) + seq![101u8]);
    assert(d.skip(k).len() > 0);
    assert(d.skip(k)[0] == d[k]);
    assert(d.skip(k).drop_first() =~= d.skip(k + 1));
    let ks = BencodeValue::ByteString(d[k].0);
    assert(bencode_bytes(ks) == dec_rep(d[k].0@.len() as int) + seq![58u8] + d[k].0@);
    assert(bencode_pairs_bytes(d.skip(k)) == dec_rep(d[k].0@.len() as int) + seq![58u8] + d[
        k
    ].0@ + bencode_bytes(d[k].1) + bencode_pairs_bytes(d.skip(k + 1)));
    let kl = bencode_bytes(ks).len() as int;
    let vl = bencode_bytes(d[k].1).len() as int;
    let a = q - pos;
    assert(a + kl + vl <= bb.len() - 1);
    lemma_nested_subrange(data, pos, bb, a, a + kl);
    assert(bb.subrange(a, a + kl) =~= bencode_bytes(ks)) by {
        assert forall|j: int| 0 <= j < kl implies #[trigger] bb.subrange(a, a + kl)[j]
            == bencode_bytes(ks)[j] by {
            assert(bb[a + j] == bencode_pairs_bytes(d)[a - 1 + j]);
            assert(bencode_pairs_bytes(d)[a - 1 + j] == bencode_pairs_bytes(d.skip(k))[j]);
        }
    }
    lemma_nested_subrange(data, pos, bb, a + kl, a + kl + vl);
    assert(bb.subrange(a + kl, a + kl + vl) =~= bencode_bytes(d[k].1)) by {
        assert forall|j: int| 0 <= j < vl implies #[trigger] bb.subrange(
            a + kl,
            a + kl + vl,
        )[j] == bencode_bytes(d[k].1)[j] by {
            assert(bb[a + kl + j] == bencode_pairs_bytes(d)[a - 1 + kl + j]);
            assert(bencode_pairs_bytes(d)[a - 1 + kl + j] == bencode_pairs_bytes(d.skip(k))[kl
                + j]);
        }
    }
    lemma_bencode_pairs_push(d.take(k), d[k]);
    assert(d.take(k + 1) =~= d.take(k).push(d[k]));
    assert(bencode_pairs_bytes(d.take(k + 1)) == bencode_pairs_bytes(d.take(k)) + dec_rep(d[
        k
    ].0@.len() as int) + seq![58u8] + d[k].0@ + bencode_bytes(d[k].1));
}

/// The serialized form of a 64-bit signed number is at most 21 bytes.
pub proof fn lemma_int_bytes_len(i: int)
    requires
        -0x8000_0000_0000_0000 <= i <= 0x7fff_ffff_ffff_ffff,
    ensures
        int_bytes(i).len() <= 21,
        i < 0 ==> int_bytes(i).len() == 1 + dec_rep(-i).len(),
        i >= 0 ==> int_bytes(i).len() == dec_rep(i).len(),
{
    if i < 0 {
        lemma_dec_rep_len_bound(-i);
    } else {
        lemma_dec_rep_len_bound(i);
    }
}


/// Encoder and decoder for the bencode wire format.
pub struct BencodeCodec;

impl BencodeCodec {
    /// Serialize a value.  Canonical bencode keeps every dictionary's keys
    /// sorted, which the `dictionary` constructor guarantees.
    pub fn encode(value: &BencodeValue) -> (r: Result<Vec<u8>, BencodeError>)
        requires
            value_canonical(*value),
        ensures
            match r {
                Ok(out) => out@ == bencode_bytes(*value),
                Err(e) => false,
            },
    {
        let mut out: Vec<u8> = Vec::new();
        let _ = Self::encode_to_writer(value, &mut out);
        Ok(out)
    }

    /// Serialize a value onto the end of a byte buffer.  Canonical bencode
    /// keeps every dictionary's keys sorted, which the `dictionary`
    /// constructor guarantees.
    pub fn encode_to_writer(value: &BencodeValue, writer: &mut Vec<u8>) -> (r: Result<
        (),
        BencodeError,
    >)
        requires
            value_canonical(*value),
        ensures
            r is Ok,
            final(writer)@ == old(writer)@ + bencode_bytes(*value),
        decreases *value, 0int,
    {
        match value {
            BencodeValue::Integer(i) => {
                writer.push(105);
                write_int(*i, writer);
                writer.push(101);
                proof {
                    assert(writer@ =~= old(writer)@ + bencode_bytes(*value));
                }
            },
            BencodeValue::ByteString(s) => {
                write_usize_digits(s.len(), writer);
                writer.push(58);
                append_bytes(writer, s);
                proof {
                    assert(writer@ =~= old(writer)@ + bencode_bytes(*value));
                }
            },
            BencodeValue::List(l) => {
                writer.push(108);
                Self::encode_seq(l, 0, writer);
                writer.push(101);
                proof {
                    assert(l@.skip(0) =~= l@);
                    assert(writer@ =~= old(writer)@ + bencode_bytes(*value));
                }
            },
            BencodeValue::Dictionary(d) => {
                writer.push(100);
                Self::encode_pairs(d, 0, writer);
                writer.push(101);
                proof {
                    assert(d@.skip(0) =~= d@);
                    assert(writer@ =~= old(writer)@ + bencode_bytes(*value));
                }
            },
        }
        Ok(())
    }

    /// Serialize a list's items from an index on.
    fn encode_seq(l: &Vec<BencodeValue>, from: usize, writer: &mut Vec<u8>)
        requires
            from <= l@.len(),
            forall|i: int| 0 <= i < l@.len() ==> value_canonical(#[trigger] l@[i]),
        ensures
            final(writer)@ == old(writer)@ + bencode_seq_bytes(l@.skip(from as int)),
        decreases *l, l@.len() - from,
    {
        if from == l.len() {
            proof {
                assert(l@.skip(from as int) =~= Seq::<BencodeValue>::empty());
                assert(writer@ =~= old(writer)@ + bencode_seq_bytes(l@.skip(from as int)));
            }
            return ;
        }
        let _ = Self::encode_to_writer(&l[from], writer);
        Self::encode_seq(l, from + 1, writer);
        proof {
            assert(l@.skip(from as int).drop_first() =~= l@.skip(from as int + 1));
            assert(l@.skip(from as int)[0] == l@[from as int]);
            assert(writer@ =~= old(writer)@ + bencode_seq_bytes(l@.skip(from as int)));
        }
    }

    /// Serialize a dictionary's pairs from an index on.
    fn encode_pairs(d: &Vec<(Vec<u8>, BencodeValue)>, from: usize, writer: &mut Vec<u8>)
        requires
            from <= d@.len(),
            forall|i: int| 0 <= i < d@.len() ==> value_canonical((#[trigger] d@[i]).1),
        ensures
            final(writer)@ == old(writer)@ + bencode_pairs_bytes(d@.skip(from as int)),
        decreases *d, d@.len() - from,
    {
        if from == d.len() {
            proof {
                assert(d@.skip(from as int) =~= Seq::<(Vec<u8>, BencodeValue)>::empty());
                assert(writer@ =~= old(writer)@ + bencode_pairs_bytes(d@.skip(from as int)));
            }
            return ;
        }
        write_usize_digits(d[from].0.len(), writer);
        writer.push(58);
        append_bytes(writer, &d[from].0);
        let _ = Self::encode_to_writer(&d[from].1, writer);
        Self::encode_pairs(d, from + 1, writer);
        proof {
            assert(d@.skip(from as int).drop_first() =~= d@.skip(from as int + 1));
            assert(d@.skip(from as int)[0] == d@[from as int]);
            assert(writer@ =~= old(writer)@ + bencode_pairs_bytes(d@.skip(from as int)));
        }
    }

    /// Parse the first bencode value of the input.  A parsed value
    /// re-serializes to exactly the bytes it consumed; and on the full
    /// serialization of any canonical value the parse succeeds, with a
    /// value that serializes back to the whole input.
    pub fn decode(data: &[u8]) -> (r: Result<BencodeValue, BencodeError>)
        ensures
            match r {
                Ok(v) => exists|p: int|
                    0 < p <= data@.len() && bencode_bytes(v) == #[trigger] data@.take(p),
                Err(e) => true,
            },
            forall|v: BencodeValue|
                value_canonical(v) && #[trigger] bencode_bytes(v) == data@ ==> r is Ok
                    && bencode_bytes(r->Ok_0) == data@,
    {
        let r = Self::decode_value(data, 0);
        proof {
            assert forall|v: BencodeValue|
                value_canonical(v) && #[trigger] bencode_bytes(v) == data@ implies r is Ok
                    && bencode_bytes(r->Ok_0.0) == data@ by {
                assert(data@.subrange(0, bencode_bytes(v).len() as int) =~= data@);
                assert(value_at(data@, 0, v));
                assert(r->Ok_0.1 == bencode_bytes(v).len());
                assert(data@.subrange(0, r->Ok_0.1 as int) =~= data@);
            }
        }
        match r {
            Ok((v, p)) => {
                proof {
                    assert(data@.subrange(0, p as int) =~= data@.take(p as int));
                }
                Ok(v)
            },
            Err(e) => Err(e),
        }
    }

    /// Parse one value starting at `pos`, returning it with the position
    /// just past its serialization.
    pub fn decode_value(data: &[u8], pos: usize) -> (r: Result<(BencodeValue, usize), BencodeError>)
        requires
            pos <= data@.len(),
        ensures
            match r {
                Ok((v, p)) => {
                    &&& pos < p <= data@.len()
                    &&& bencode_bytes(v) == data@.subrange(pos as int, p as int)
                    &&& (data@[pos as int] == 105 ==> v is Integer)
                    &&& (data@[pos as int] == 108 ==> v is List)
                    &&& (data@[pos as int] == 100 ==> v is Dictionary)
                    &&& (48 <= data@[pos as int] <= 57 ==> v is ByteString)
                },
                Err(e) => true,
            },
            forall|v: BencodeValue|
                #[trigger] value_at(data@, pos as int, v) ==> r is Ok && r->Ok_0.1 == pos
                    + bencode_bytes(v).len(),
        decreases data@.len() - pos, 1int,
    {
        if pos >= data.len() {
            proof {
                assert forall|v: BencodeValue|
                    #[trigger] value_at(data@, pos as int, v) implies false by {
                    lemma_bencode_first_byte(v);
                }
            }
            return Err(BencodeError::UnexpectedEof);
        }
        let tag = data[pos];
        proof {
            assert forall|v: BencodeValue|
                #[trigger] value_at(data@, pos as int, v) implies bencode_bytes(v)[0]
                    == tag by {
                assert(data@[pos as int] == data@.subrange(
                    pos as int,
                    pos as int + bencode_bytes(v).len() as int,
                )[0]);
            }
        }
        if tag == 105 {
            Self::decode_integer(data, pos)
        } else if tag == 108 {
            Self::decode_list(data, pos)
        } else if tag == 100 {
            Self::decode_dictionary(data, pos)
        } else if 48 <= tag && tag <= 57 {
            Self::decode_byte_string(data, pos)
        } else {
            proof {
                assert forall|v: BencodeValue|
                    #[trigger] value_at(data@, pos as int, v) implies false by {
                    lemma_bencode_first_byte(v);
                }
            }
            Err(BencodeError::InvalidFormat(String::new()))
        }
    }

    /// Parse an integer: `i`, an optional sign, canonical digits, `e`.
    fn decode_integer(data: &[u8], pos: usize) -> (r: Result<(BencodeValue, usize), BencodeError>)
        requires
            pos < data@.len(),
            data@[pos as int] == 105,
        ensures
            match r {
                Ok((v, p)) => pos < p <= data@.len() && v is Integer && bencode_bytes(
                    v,
                ) == data@.subrange(pos as int, p as int),
                Err(e) => true,
            },
            forall|v: BencodeValue|
                #[trigger] value_at(data@, pos as int, v) ==> r is Ok && r->Ok_0.1 == pos
                    + bencode_bytes(v).len(),
    {
        let n = data.len();
        let mut q = pos + 1;
        let neg = q < n && data[q] == 45;
        if neg {
            q = q + 1;
        }
        let parsed = parse_digits(data, q);
        proof {
            assert forall|v: BencodeValue|
                #[trigger] value_at(data@, pos as int, v) implies parsed is Ok && ({
                    let i = v->Integer_0 as int;
                    let m = if i >= 0 { i } else { -i };
                    &&& (neg <==> i < 0)
                    &&& parsed->Ok_0.0 == m
                    &&& parsed->Ok_0.1 == q + dec_rep(m).len()
                    &&& q + dec_rep(m).len() < data@.len()
                    &&& data@[q + dec_rep(m).len() as int] == 101
                    &&& pos + bencode_bytes(v).len() == q + dec_rep(m).len() + 1
                }) by {
                lemma_value_at_i_is_integer(data@, pos as int, v);
                let i = v->Integer_0 as int;
                if i >= 0 {
                    lemma_dec_rep_digits(i);
                    assert(data@[pos as int + 1] == dec_rep(i)[0]);
                }
            }
        }
        let (mag, end) = match parsed {
            Ok(pair) => pair,
            Err(e) => {
                return Err(e);
            },
        };
        if neg && mag == 0 {
            proof {
                assert forall|v: BencodeValue|
                    #[trigger] value_at(data@, pos as int, v) implies false by {
                    lemma_value_at_i_is_integer(data@, pos as int, v);
                }
            }
            return Err(BencodeError::InvalidInteger(String::new()));
        }
        if neg && mag > 0x8000_0000_0000_0000u64 {
            proof {
                assert forall|v: BencodeValue|
                    #[trigger] value_at(data@, pos as int, v) implies false by {
                    lemma_value_at_i_is_integer(data@, pos as int, v);
                }
            }
            return Err(BencodeError::InvalidInteger(String::new()));
        }
        if !neg && mag > 0x7fff_ffff_ffff_ffffu64 {
            proof {
                assert forall|v: BencodeValue|
                    #[trigger] value_at(data@, pos as int, v) implies false by {
                    lemma_value_at_i_is_integer(data@, pos as int, v);
                }
            }
            return Err(BencodeError::InvalidInteger(String::new()));
        }
        if end >= data.len() {
            proof {
                assert forall|v: BencodeValue|
                    #[trigger] value_at(data@, pos as int, v) implies false by {
                    lemma_value_at_i_is_integer(data@, pos as int, v);
                }
            }
            return Err(BencodeError::UnexpectedEof);
        }
        if data[end] != 101 {
            proof {
                assert forall|v: BencodeValue|
                    #[trigger] value_at(data@, pos as int, v) implies false by {
                    lemma_value_at_i_is_integer(data@, pos as int, v);
                }
            }
            return Err(BencodeError::InvalidInteger(String::new()));
        }
        let value: i64 = if neg {
            (-(mag as i128)) as i64
        } else {
            mag as i64
        };
        proof {
            if neg {
                assert(int_bytes(value as int) =~= seq![45u8] + dec_rep(mag as int));
            }
            assert(bencode_bytes(BencodeValue::Integer(value)) =~= data@.subrange(
                pos as int,
                end as int + 1,
            ));
            assert forall|v: BencodeValue|
                #[trigger] value_at(data@, pos as int, v) implies end + 1 == pos
                    + bencode_bytes(v).len() by {
                lemma_value_at_i_is_integer(data@, pos as int, v);
            }
        }
        Ok((BencodeValue::Integer(value), end + 1))
    }

    /// Parse a byte string: canonical length digits, `:`, the bytes.
    fn decode_byte_string(data: &[u8], pos: usize) -> (r: Result<
        (BencodeValue, usize),
        BencodeError,
    >)
        requires
            pos < data@.len(),
            48 <= data@[pos as int] <= 57,
        ensures
            match r {
                Ok((v, p)) => pos < p <= data@.len() && v is ByteString && bencode_bytes(
                    v,
                ) == data@.subrange(pos as int, p as int),
                Err(e) => true,
            },
            forall|v: BencodeValue|
                #[trigger] value_at(data@, pos as int, v) ==> r is Ok && r->Ok_0.1 == pos
                    + bencode_bytes(v).len(),
    {
        let n = data.len();
        let parsed = parse_digits(data, pos);
        proof {
            assert forall|v: BencodeValue|
                #[trigger] value_at(data@, pos as int, v) implies parsed is Ok
                    && parsed->Ok_0.0 == v->ByteString_0@.len() && parsed->Ok_0.1 == pos
                    + dec_rep(v->ByteString_0@.len() as int).len() by {
                lemma_value_at_digit_is_string(data@, pos as int, v);
                assert(v->ByteString_0@.len() <= n);
            }
        }
        let (length, end) = match parsed {
            Ok(pair) => pair,
            Err(e) => {
                return Err(e);
            },
        };
        if end >= data.len() {
            proof {
                assert forall|v: BencodeValue|
                    #[trigger] value_at(data@, pos as int, v) implies false by {
                    lemma_value_at_digit_is_string(data@, pos as int, v);
                }
            }
            return Err(BencodeError::UnexpectedEof);
        }
        if data[end] != 58 {
            proof {
                assert forall|v: BencodeValue|
                    #[trigger] value_at(data@, pos as int, v) implies false by {
                    lemma_value_at_digit_is_string(data@, pos as int, v);
                }
            }
            return Err(BencodeError::InvalidStringLength(String::new()));
        }
        let body = end + 1;
        if length > (data.len() - body) as u64 {
            proof {
                assert forall|v: BencodeValue|
                    #[trigger] value_at(data@, pos as int, v) implies false by {
                    lemma_value_at_digit_is_string(data@, pos as int, v);
                }
            }
            return Err(BencodeError::UnexpectedEof);
        }
        let blen = length as usize;
        let bytes = vstd::slice::slice_to_vec(
            vstd::slice::slice_subrange(data, body, body + blen),
        );
        proof {
            assert(bencode_bytes(BencodeValue::ByteString(bytes)) =~= data@.subrange(
                pos as int,
                body as int + blen as int,
            ));
            assert forall|v: BencodeValue|
                #[trigger] value_at(data@, pos as int, v) implies body + blen == pos
                    + bencode_bytes(v).len() by {
                lemma_value_at_digit_is_string(data@, pos as int, v);
            }
        }
        Ok((BencodeValue::ByteString(bytes), body + blen))
    }

    /// Parse a list: `l`, the items, `e`.
    fn decode_list(data: &[u8], pos: usize) -> (r: Result<(BencodeValue, usize), BencodeError>)
        requires
            pos < data@.len(),
            data@[pos as int] == 108,
        ensures
            match r {
                Ok((v, p)) => pos < p <= data@.len() && v is List && bencode_bytes(
                    v,
                ) == data@.subrange(pos as int, p as int),
                Err(e) => true,
            },
            forall|v: BencodeValue|
                #[trigger] value_at(data@, pos as int, v) ==> r is Ok && r->Ok_0.1 == pos
                    + bencode_bytes(v).len(),
        decreases data@.len() - pos, 0int,
    {
        let n = data.len();
        let mut items: Vec<BencodeValue> = Vec::new();
        let mut q = pos + 1;
        proof {
            assert(bencode_seq_bytes(items@) =~= data@.subrange(pos as int + 1, q as int));
            assert forall|v: BencodeValue|
                #[trigger] value_at(data@, pos as int, v) implies exists|k: int|
                0 <= k <= v->List_0@.len() && q == pos + 1 + #[trigger] bencode_seq_bytes(
                    v->List_0@.take(k),
                ).len() by {
                assert(v->List_0@.take(0) =~= Seq::<BencodeValue>::empty());
                assert(bencode_seq_bytes(v->List_0@.take(0)).len() == 0);
            }
        }
        while q < data.len() && data[q] != 101
            invariant
                pos < q <= data@.len(),
                n == data@.len(),
                pos < data@.len(),
                data@[pos as int] == 108,
                bencode_seq_bytes(items@) == data@.subrange(pos as int + 1, q as int),
                forall|v: BencodeValue|
                    #[trigger] value_at(data@, pos as int, v) ==> exists|k: int|
                        0 <= k <= v->List_0@.len() && q == pos + 1
                            + #[trigger] bencode_seq_bytes(v->List_0@.take(k)).len(),
            decreases data@.len() - q,
        {
            proof {
                assert forall|v: BencodeValue|
                    #[trigger] value_at(data@, pos as int, v) implies exists|w: BencodeValue|
                    #[trigger] value_at(data@, q as int, w) by {
                    lemma_bencode_first_byte(v);
                    let l = v->List_0@;
                    let bb = bencode_bytes(v);
                    let k = choose|k: int|
                        0 <= k <= l.len() && q == pos + 1 + #[trigger] bencode_seq_bytes(
                            l.take(k),
                        ).len();
                    lemma_seq_bytes_concat(l, k);
                    assert(bb == seq![108u8] + bencode_seq_bytes(l) + seq![101u8]);
                    if k == l.len() {
                        assert(l.take(k) =~= l);
                        assert(q == pos + bb.len() - 1);
                        assert(data@[q as int] == data@.subrange(
                            pos as int,
                            pos + bb.len() as int,
                        )[bb.len() - 1]);
                        assert(data@[q as int] == 101);
                        assert(false);
                    }
                    assert(l.skip(k).len() > 0);
                    assert(l.skip(k)[0] == l[k]);
                    assert(l.skip(k).drop_first() =~= l.skip(k + 1));
                    assert(bencode_seq_bytes(l.skip(k)) == bencode_bytes(l[k])
                        + bencode_seq_bytes(l.skip(k + 1)));
                    let a = q - pos;
                    let ib = bencode_bytes(l[k]);
                    assert(a + ib.len() <= bb.len());
                    lemma_nested_subrange(data@, pos as int, bb, a, a + ib.len() as int);
                    assert(bb.subrange(a, a + ib.len() as int) =~= ib) by {
                        assert forall|j: int| 0 <= j < ib.len() implies #[trigger] bb.subrange(
                            a,
                            a + ib.len() as int,
                        )[j] == ib[j] by {
                            assert(bencode_seq_bytes(l)[a - 1 + j] == bb[a + j]);
                            assert(bencode_seq_bytes(l) == bencode_seq_bytes(l.take(k))
                                + bencode_seq_bytes(l.skip(k)));
                        }
                    }
                    assert(value_canonical(l[k]));
                    assert(value_at(data@, q as int, l[k]));
                }
            }
            let item = match Self::decode_value(data, q) {
                Ok(pair) => pair,
                Err(e) => {
                    proof {
                        assert forall|v: BencodeValue|
                            #[trigger] value_at(data@, pos as int, v) implies false by {
                            let w = choose|w: BencodeValue|
                                #[trigger] value_at(data@, q as int, w);
                            assert(value_at(data@, q as int, w));
                        }
                    }
                    return Err(e);
                },
            };
            let (v, p) = item;
            let ghost pre = items@;
            let ghost oldq = q as int;
            items.push(v);
            proof {
                lemma_bencode_seq_push(pre, v);
                assert(bencode_seq_bytes(items@) =~= data@.subrange(pos as int + 1, p as int));
            }
            q = p;
            proof {
                assert forall|ov: BencodeValue|
                    #[trigger] value_at(data@, pos as int, ov) implies exists|k: int|
                    0 <= k <= ov->List_0@.len() && q == pos + 1 + #[trigger] bencode_seq_bytes(
                        ov->List_0@.take(k),
                    ).len() by {
                    lemma_bencode_first_byte(ov);
                    let l = ov->List_0@;
                    let bb = bencode_bytes(ov);
                    let k = choose|k: int|
                        0 <= k <= l.len() && oldq == pos + 1 + #[trigger] bencode_seq_bytes(
                            l.take(k),
                        ).len();
                    lemma_seq_bytes_concat(l, k);
                    assert(bb == seq![108u8] + bencode_seq_bytes(l) + seq![101u8]);
                    if k == l.len() {
                        assert(l.take(k) =~= l);
                        assert(data@[oldq] == data@.subrange(
                            pos as int,
                            pos + bb.len() as int,
                        )[bb.len() - 1]);
                        assert(false);
                    }
                    assert(l.skip(k)[0] == l[k]);
                    assert(l.skip(k).drop_first() =~= l.skip(k + 1));
                    assert(bencode_seq_bytes(l.skip(k)) == bencode_bytes(l[k])
                        + bencode_seq_bytes(l.skip(k + 1)));
                    let a = oldq - pos;
                    let ib = bencode_bytes(l[k]);
                    lemma_nested_subrange(data@, pos as int, bb, a, a + ib.len() as int);
                    assert(bb.subrange(a, a + ib.len() as int) =~= ib) by {
                        assert forall|j: int| 0 <= j < ib.len() implies #[trigger] bb.subrange(
                            a,
                            a + ib.len() as int,
                        )[j] == ib[j] by {
                            assert(bencode_seq_bytes(l)[a - 1 + j] == bb[a + j]);
                        }
                    }
                    assert(value_at(data@, oldq, l[k]));
                    assert(p == oldq + ib.len());
                    lemma_bencode_seq_push(l.take(k), l[k]);
                    assert(l.take(k + 1) =~= l.take(k).push(l[k]));
                    assert(bencode_seq_bytes(l.take(k + 1)).len() == bencode_seq_bytes(
                        l.take(k),
                    ).len() + ib.len());
                    assert(q == pos + 1 + bencode_seq_bytes(l.take(k + 1)).len());
                }
            }
        }
        if q >= data.len() {
            proof {
                assert forall|v: BencodeValue|
                    #[trigger] value_at(data@, pos as int, v) implies false by {
                    lemma_bencode_first_byte(v);
                    let l = v->List_0@;
                    let bb = bencode_bytes(v);
                    let k = choose|k: int|
                        0 <= k <= l.len() && q == pos + 1 + #[trigger] bencode_seq_bytes(
                            l.take(k),
                        ).len();
                    lemma_seq_bytes_concat(l, k);
                    assert(bencode_seq_bytes(l).len() >= bencode_seq_bytes(l.take(k)).len());
                    assert(q <= pos + bb.len() - 1);
                    assert(pos + bb.len() <= data@.len());
                    assert(false);
                }
            }
            return Err(BencodeError::UnexpectedEof);
        }
        proof {
            assert(bencode_bytes(BencodeValue::List(items)) =~= data@.subrange(
                pos as int,
                q as int + 1,
            ));
            assert forall|v: BencodeValue|
                #[trigger] value_at(data@, pos as int, v) implies q + 1 == pos + bencode_bytes(
                    v,
                ).len() by {
                lemma_bencode_first_byte(v);
                let l = v->List_0@;
                let bb = bencode_bytes(v);
                let k = choose|k: int|
                    0 <= k <= l.len() && q == pos + 1 + #[trigger] bencode_seq_bytes(
                        l.take(k),
                    ).len();
                lemma_seq_bytes_concat(l, k);
                assert(bb == seq![108u8] + bencode_seq_bytes(l) + seq![101u8]);
                if k < l.len() {
                    assert(l.skip(k)[0] == l[k]);
                    assert(l.skip(k).drop_first() =~= l.skip(k + 1));
                    assert(bencode_seq_bytes(l.skip(k)) == bencode_bytes(l[k])
                        + bencode_seq_bytes(l.skip(k + 1)));
                    let a = q - pos;
                    let ib = bencode_bytes(l[k]);
                    lemma_bencode_first_byte(l[k]);
                    assert(data@[q as int] == data@.subrange(
                        pos as int,
                        pos + bb.len() as int,
                    )[a]);
                    assert(bb[a] == bencode_seq_bytes(l)[a - 1]);
                    assert(bencode_seq_bytes(l)[a - 1] == ib[0]);
                    assert(false);
                }
                assert(l.take(k) =~= l);
            }
        }
        Ok((BencodeValue::List(items), q + 1))
    }

    /// Parse a dictionary: `d`, byte-string keys each followed by a value,
    /// `e`.  Pairs keep the order they have in the input.
    fn decode_dictionary(data: &[u8], pos: usize) -> (r: Result<
        (BencodeValue, usize),
        BencodeError,
    >)
        requires
            pos < data@.len(),
            data@[pos as int] == 100,
        ensures
            match r {
                Ok((v, p)) => pos < p <= data@.len() && v is Dictionary && bencode_bytes(
                    v,
                ) == data@.subrange(pos as int, p as int),
                Err(e) => true,
            },
            forall|v: BencodeValue|
                #[trigger] value_at(data@, pos as int, v) ==> r is Ok && r->Ok_0.1 == pos
                    + bencode_bytes(v).len(),
        decreases data@.len() - pos, 0int,
    {
        let n = data.len();
        let mut pairs: Vec<(Vec<u8>, BencodeValue)> = Vec::new();
        let mut q = pos + 1;
        proof {
            assert(bencode_pairs_bytes(pairs@) =~= data@.subrange(pos as int + 1, q as int));
            assert forall|v: BencodeValue|
                #[trigger] value_at(data@, pos as int, v) implies exists|k: int|
                0 <= k <= dict_pairs(v).len() && q == pos + 1 + #[trigger] bencode_pairs_bytes(
                    dict_pairs(v).take(k),
                ).len() by {
                assert(dict_pairs(v).take(0) =~= Seq::<(Vec<u8>, BencodeValue)>::empty());
                assert(bencode_pairs_bytes(dict_pairs(v).take(0)).len() == 0);
            }
        }
        while q < data.len() && data[q] != 101
            invariant
                pos < q <= data@.len(),
                n == data@.len(),
                pos < data@.len(),
                data@[pos as int] == 100,
                bencode_pairs_bytes(pairs@) == data@.subrange(pos as int + 1, q as int),
                forall|v: BencodeValue|
                    #[trigger] value_at(data@, pos as int, v) ==> exists|k: int|
                        0 <= k <= dict_pairs(v).len() && q == pos + 1
                            + #[trigger] bencode_pairs_bytes(dict_pairs(v).take(k)).len(),
            decreases data@.len() - q,
        {
            proof {
                assert forall|v: BencodeValue|
                    #[trigger] value_at(data@, pos as int, v) implies exists|w: BencodeValue|
                    #[trigger] value_at(data@, q as int, w) && 48 <= data@[q as int] <= 57 by {
                    lemma_bencode_first_byte(v);
                    let d = dict_pairs(v);
                    let bb = bencode_bytes(v);
                    let k = choose|k: int|
                        0 <= k <= d.len() && q == pos + 1 + #[trigger] bencode_pairs_bytes(
                            d.take(k),
                        ).len();
                    if k == d.len() {
                        assert(d.take(k) =~= d);
                        assert(bb == seq![100u8] + bencode_pairs_bytes(d) + seq![101u8]);
                        assert(data@[q as int] == data@.subrange(
                            pos as int,
                            pos + bb.len() as int,
                        )[bb.len() - 1]);
                        assert(false);
                    }
                    lemma_dict_pair_at(data@, pos as int, v, q as int, k);
                    let ks = BencodeValue::ByteString(d[k].0);
                    lemma_bencode_first_byte(ks);
                    assert(data@[q as int] == data@.subrange(
                        q as int,
                        q + bencode_bytes(ks).len() as int,
                    )[0]);
                    assert(value_at(data@, q as int, ks));
                }
            }
            let keyr = match Self::decode_value(data, q) {
                Ok(pair) => pair,
                Err(e) => {
                    proof {
                        assert forall|v: BencodeValue|
                            #[trigger] value_at(data@, pos as int, v) implies false by {
                            let w = choose|w: BencodeValue|
                                #[trigger] value_at(data@, q as int, w) && 48 <= data@[
                                    q as int
                                ] <= 57;
                            assert(value_at(data@, q as int, w));
                        }
                    }
                    return Err(e);
                },
            };
            let (kv, kp) = keyr;
            let ghost gkv = kv;
            let key = match kv {
                BencodeValue::ByteString(k) => k,
                _ => {
                    proof {
                        assert forall|v: BencodeValue|
                            #[trigger] value_at(data@, pos as int, v) implies false by {
                            let w = choose|w: BencodeValue|
                                #[trigger] value_at(data@, q as int, w) && 48 <= data@[
                                    q as int
                                ] <= 57;
                            assert(value_at(data@, q as int, w));
                        }
                    }
                    return Err(BencodeError::InvalidFormat(String::new()));
                },
            };
            proof {
                assert(bencode_bytes(gkv) =~= dec_rep(key@.len() as int) + seq![58u8] + key@);
            }
            if kp >= data.len() {
                proof {
                    assert forall|v: BencodeValue|
                        #[trigger] value_at(data@, pos as int, v) implies false by {
                        lemma_bencode_first_byte(v);
                        let d = dict_pairs(v);
                        let k = choose|k: int|
                            0 <= k <= d.len() && q == pos + 1 + #[trigger] bencode_pairs_bytes(
                                d.take(k),
                            ).len();
                        if k == d.len() {
                            assert(d.take(k) =~= d);
                            let bb = bencode_bytes(v);
                            assert(bb == seq![100u8] + bencode_pairs_bytes(d) + seq![101u8]);
                            assert(q == pos + bb.len() - 1);
                            assert(data@[q as int] == data@.subrange(
                                pos as int,
                                pos + bb.len() as int,
                            )[bb.len() - 1]);
                            assert(false);
                        }
                        lemma_dict_pair_at(data@, pos as int, v, q as int, k);
                        let ks = BencodeValue::ByteString(d[k].0);
                        assert(value_at(data@, q as int, ks));
                        assert(kp == q + bencode_bytes(ks).len());
                    }
                }
                return Err(BencodeError::UnexpectedEof);
            }
            proof {
                assert forall|v: BencodeValue|
                    #[trigger] value_at(data@, pos as int, v) implies exists|w: BencodeValue|
                    #[trigger] value_at(data@, kp as int, w) by {
                    lemma_bencode_first_byte(v);
                    let d = dict_pairs(v);
                    let k = choose|k: int|
                        0 <= k <= d.len() && q == pos + 1 + #[trigger] bencode_pairs_bytes(
                            d.take(k),
                        ).len();
                    if k == d.len() {
                        assert(d.take(k) =~= d);
                        let bb = bencode_bytes(v);
                        assert(bb == seq![100u8] + bencode_pairs_bytes(d) + seq![101u8]);
                        assert(q == pos + bb.len() - 1);
                        assert(data@[q as int] == data@.subrange(
                            pos as int,
                            pos + bb.len() as int,
                        )[bb.len() - 1]);
                        assert(false);
                    }
                    lemma_dict_pair_at(data@, pos as int, v, q as int, k);
                    let ks = BencodeValue::ByteString(d[k].0);
                    assert(value_at(data@, q as int, ks));
                    assert(kp == q + bencode_bytes(ks).len());
                    assert(value_at(data@, kp as int, d[k].1));
                }
            }
            let valr = match Self::decode_value(data, kp) {
                Ok(pair) => pair,
                Err(e) => {
                    proof {
                        assert forall|v: BencodeValue|
                            #[trigger] value_at(data@, pos as int, v) implies false by {
                            let w = choose|w: BencodeValue|
                                #[trigger] value_at(data@, kp as int, w);
                            assert(value_at(data@, kp as int, w));
                        }
                    }
                    return Err(e);
                },
            };
            let (vv, vp) = valr;
            let ghost pre = pairs@;
            let ghost gkey = key@;
            let ghost gval = vv;
            pairs.push((key, vv));
            proof {
                assert(pairs@[pre.len() as int].0@ == gkey);
                assert(pairs@[pre.len() as int].1 == gval);
                assert(bencode_bytes(gval) == data@.subrange(kp as int, vp as int));
                assert(dec_rep(gkey.len() as int) + seq![58u8] + gkey == data@.subrange(
                    q as int,
                    kp as int,
                ));
                lemma_bencode_pairs_push(pre, pairs@[pre.len() as int]);
                assert(pre.push(pairs@[pre.len() as int]) =~= pairs@);
                assert(bencode_pairs_bytes(pairs@) == bencode_pairs_bytes(pre) + dec_rep(
                    gkey.len() as int,
                ) + seq![58u8] + gkey + bencode_bytes(gval));
                assert(bencode_pairs_bytes(pre) + (dec_rep(gkey.len() as int) + seq![58u8]
                    + gkey) =~= data@.subrange(pos as int + 1, kp as int));
                assert(bencode_pairs_bytes(pre) + dec_rep(gkey.len() as int) + seq![58u8] + gkey
                    =~= bencode_pairs_bytes(pre) + (dec_rep(gkey.len() as int) + seq![58u8]
                    + gkey));
                assert(bencode_pairs_bytes(pre) + dec_rep(gkey.len() as int) + seq![58u8] + gkey
                    == data@.subrange(pos as int + 1, kp as int));
                assert(bencode_pairs_bytes(pairs@) == data@.subrange(
                    pos as int + 1,
                    kp as int,
                ) + bencode_bytes(gval));
                assert(data@.subrange(pos as int + 1, kp as int) + data@.subrange(
                    kp as int,
                    vp as int,
                ) =~= data@.subrange(pos as int + 1, vp as int));
                assert(bencode_pairs_bytes(pairs@) =~= data@.subrange(pos as int + 1, vp as int));
            }
            let ghost oldq = q as int;
            q = vp;
            proof {
                assert forall|ov: BencodeValue|
                    #[trigger] value_at(data@, pos as int, ov) implies exists|k: int|
                    0 <= k <= dict_pairs(ov).len() && q == pos + 1
                        + #[trigger] bencode_pairs_bytes(dict_pairs(ov).take(k)).len() by {
                    let d = dict_pairs(ov);
                    let k = choose|k: int|
                        0 <= k <= d.len() && oldq == pos + 1 + #[trigger] bencode_pairs_bytes(
                            d.take(k),
                        ).len();
                    lemma_bencode_first_byte(ov);
                    if k == d.len() {
                        assert(d.take(k) =~= d);
                        let bb = bencode_bytes(ov);
                        assert(bb == seq![100u8] + bencode_pairs_bytes(d) + seq![101u8]);
                        assert(oldq == pos + bb.len() - 1);
                        assert(data@[oldq] == data@.subrange(
                            pos as int,
                            pos + bb.len() as int,
                        )[bb.len() - 1]);
                        assert(false);
                    }
                    lemma_dict_pair_at(data@, pos as int, ov, oldq, k);
                    let ks = BencodeValue::ByteString(d[k].0);
                    assert(value_at(data@, oldq, ks));
                    assert(kp == oldq + bencode_bytes(ks).len());
                    assert(value_at(data@, kp as int, d[k].1));
                    assert(vp == kp + bencode_bytes(d[k].1).len());
                    assert(q == pos + 1 + bencode_pairs_bytes(d.take(k + 1)).len());
                }
            }
        }
        if q >= data.len() {
            proof {
                assert forall|v: BencodeValue|
                    #[trigger] value_at(data@, pos as int, v) implies false by {
                    lemma_bencode_first_byte(v);
                    let d = dict_pairs(v);
                    let bb = bencode_bytes(v);
                    let k = choose|k: int|
                        0 <= k <= d.len() && q == pos + 1 + #[trigger] bencode_pairs_bytes(
                            d.take(k),
                        ).len();
                    lemma_pairs_bytes_concat(d, k);
                    assert(bencode_pairs_bytes(d).len() >= bencode_pairs_bytes(
                        d.take(k),
                    ).len());
                    assert(q <= pos + bb.len() - 1);
                    assert(pos + bb.len() <= data@.len());
                    assert(false);
                }
            }
            return Err(BencodeError::UnexpectedEof);
        }
        proof {
            assert(bencode_bytes(BencodeValue::Dictionary(pairs)) =~= data@.subrange(
                pos as int,
                q as int + 1,
            ));
            assert forall|v: BencodeValue|
                #[trigger] value_at(data@, pos as int, v) implies q + 1 == pos + bencode_bytes(
                    v,
                ).len() by {
                lemma_bencode_first_byte(v);
                let d = dict_pairs(v);
                let bb = bencode_bytes(v);
                let k = choose|k: int|
                    0 <= k <= d.len() && q == pos + 1 + #[trigger] bencode_pairs_bytes(
                        d.take(k),
                    ).len();
                if k < d.len() {
                    lemma_dict_pair_at(data@, pos as int, v, q as int, k);
                    let ks = BencodeValue::ByteString(d[k].0);
                    lemma_bencode_first_byte(ks);
                    assert(data@[q as int] == data@.subrange(
                        q as int,
                        q + bencode_bytes(ks).len() as int,
                    )[0]);
                    assert(false);
                }
                assert(d.take(k) =~= d);
            }
        }
        Ok((BencodeValue::Dictionary(pairs), q + 1))
    }
}

/// Append the decimal digits of a nonnegative number.
fn write_u64_digits(n: u64, out: &mut Vec<u8>)
    ensures
        final(out)@ == old(out)@ + dec_rep(n as int),
    decreases n,
{
    if n < 10 {
        out.push(48 + n as u8);
        proof {
            assert(out@ =~= old(out)@ + dec_rep(n as int));
        }
    } else {
        write_u64_digits(n / 10, out);
        out.push(48 + (n % 10) as u8);
        proof {
            assert(out@ =~= old(out)@ + dec_rep(n as int));
        }
    }
}

/// Append the decimal digits of a length.
fn write_usize_digits(n: usize, out: &mut Vec<u8>)
    ensures
        final(out)@ == old(out)@ + dec_rep(n as int),
{
    write_u64_digits(n as u64, out);
}

/// Append the decimal form of a signed number.
fn write_int(i: i64, out: &mut Vec<u8>)
    ensures
        final(out)@ == old(out)@ + int_bytes(i as int),
{
    if i < 0 {
        out.push(45);
        let mag: u64 = (-(i as i128)) as u64;
        write_u64_digits(mag, out);
        proof {
            assert(out@ =~= old(out)@ + int_bytes(i as int));
        }
    } else {
        write_u64_digits(i as u64, out);
    }
}

/// Append a byte vector.
fn append_bytes(out: &mut Vec<u8>, bytes: &Vec<u8>)
    ensures
        final(out)@ == old(out)@ + bytes@,
{
    let mut copy = clone_bytes(bytes);
    out.append(&mut copy);
}

/// Parse a canonical run of decimal digits starting at `pos`: at least one
/// digit, no leading zero unless the number is zero itself, no overflow.
fn parse_digits(data: &[u8], pos: usize) -> (r: Result<(u64, usize), BencodeError>)
    requires
        pos <= data@.len(),
    ensures
        match r {
            Ok((n, p)) => pos < p <= data@.len() && dec_rep(n as int) == data@.subrange(
                pos as int,
                p as int,
            ),
            Err(e) => true,
        },
        forall|m: int|
            m <= u64::MAX && #[trigger] digit_run_at(data@, pos as int, m) ==> r is Ok
                && r->Ok_0.0 == m && r->Ok_0.1 == pos + dec_rep(m).len(),
{
    if pos >= data.len() {
        proof {
            assert forall|m: int|
                m <= u64::MAX && #[trigger] digit_run_at(data@, pos as int, m) implies false by {
                lemma_dec_rep_digits(m);
            }
        }
        return Err(BencodeError::UnexpectedEof);
    }
    if !(48 <= data[pos] && data[pos] <= 57) {
        proof {
            assert forall|m: int|
                m <= u64::MAX && #[trigger] digit_run_at(data@, pos as int, m) implies false by {
                lemma_dec_rep_digits(m);
                assert(data@[pos as int] == dec_rep(m)[0]);
            }
        }
        return Err(BencodeError::InvalidInteger(String::new()));
    }
    let first = data[pos] - 48;
    let mut acc: u64 = first as u64;
    let mut q = pos + 1;
    proof {
        assert(dec_rep(acc as int) =~= data@.subrange(pos as int, q as int));
    }
    if first == 0 {
        proof {
            assert forall|m: int|
                m <= u64::MAX && #[trigger] digit_run_at(data@, pos as int, m) implies m == 0
                    && dec_rep(m).len() == 1 by {
                lemma_dec_rep_digits(m);
                assert(data@[pos as int] == dec_rep(m)[0]);
            }
        }
        // a leading zero is only the number zero itself
        return Ok((0, q));
    }
    while q < data.len() && 48 <= data[q] && data[q] <= 57
        invariant
            pos < q <= data@.len(),
            1 <= acc,
            dec_rep(acc as int) == data@.subrange(pos as int, q as int),
        decreases data@.len() - q,
    {
        let d = (data[q] - 48) as u64;
        if acc > (u64::MAX - d) / 10 {
            proof {
                lemma_dec_rep_digits(acc as int);
                lemma_digits_value_dec_rep(acc as int);
                assert(dec_rep(acc as int).len() == q - pos);
                assert forall|m: int|
                    m <= u64::MAX && #[trigger] digit_run_at(
                        data@,
                        pos as int,
                        m,
                    ) implies false by {
                    lemma_dec_rep_digits(m);
                    let el = dec_rep(m).len() as int;
                    if pos + el <= q {
                        assert(pos + el < data@.len());
                        if pos + el < q {
                            assert(data@[pos + el] == data@.subrange(pos as int, q as int)[el]);
                            assert(data@[pos + el] == dec_rep(acc as int)[el]);
                            assert(48 <= dec_rep(acc as int)[el] <= 57);
                        } else {
                            assert(pos + el == q);
                            assert(48 <= data@[q as int] <= 57);
                        }
                        assert(false);
                    }
                    assert(q < pos + el);
                    assert(data@.subrange(pos as int, q as int) =~= dec_rep(m).take(
                        q as int - pos,
                    )) by {
                        assert forall|j: int| 0 <= j < q - pos implies data@.subrange(
                            pos as int,
                            q as int,
                        )[j] == dec_rep(m)[j] by {
                            assert(dec_rep(m)[j] == data@.subrange(pos as int, pos + el)[j]);
                        }
                    }
                    assert(digits_value(dec_rep(m).take(q as int - pos)) == acc as int);
                    assert(dec_rep(m).take(q as int - pos + 1).drop_last() =~= dec_rep(m).take(
                        q as int - pos,
                    ));
                    assert(dec_rep(m)[q as int - pos] == data@.subrange(pos as int, pos + el)[q
                        as int - pos]);
                    assert(dec_rep(m)[q as int - pos] == data@[q as int]);
                    assert(digits_value(dec_rep(m).take(q as int - pos + 1)) == acc as int * 10
                        + d as int);
                    lemma_dec_rep_prefix_value(m, q as int - pos + 1);
                    assert(acc as int * 10 + d as int <= m);
                    vstd::arithmetic::div_mod::lemma_fundamental_div_mod(
                        u64::MAX as int - d as int,
                        10,
                    );
                    assert(acc as int * 10 + d as int > u64::MAX);
                }
            }
            return Err(BencodeError::InvalidInteger(String::new()));
        }
        proof {
            vstd::arithmetic::div_mod::lemma_fundamental_div_mod_converse(
                acc as int * 10 + d as int,
                10,
                acc as int,
                d as int,
            );
            assert(acc as int * 10 + d as int == acc as int * 10 + d as int);
        }
        let ghost pre_acc = acc as int;
        acc = acc * 10 + d;
        proof {
            assert(acc as int / 10 == pre_acc && acc as int % 10 == d as int);
            assert(dec_rep(acc as int) =~= data@.subrange(pos as int, q as int + 1));
        }
        q = q + 1;
    }
    proof {
        lemma_dec_rep_digits(acc as int);
        assert(dec_rep(acc as int).len() == q - pos);
        assert(digit_run_at(data@, pos as int, acc as int));
        assert forall|m: int|
            m <= u64::MAX && #[trigger] digit_run_at(data@, pos as int, m) implies m
                == acc as int by {
            lemma_digit_run_unique(data@, pos as int, m, acc as int);
        }
    }
    Ok((acc, q))
}

/// Appending an item appends its serialization.
proof fn lemma_bencode_seq_push(l: Seq<BencodeValue>, v: BencodeValue)
    ensures
        bencode_seq_bytes(l.push(v)) == bencode_seq_bytes(l) + bencode_bytes(v),
    decreases l.len(),
{
    assert(bencode_seq_bytes(Seq::<BencodeValue>::empty()) =~= Seq::<u8>::empty());
    if l.len() == 0 {
        assert(l.push(v)[0] == v);
        assert(l.push(v).drop_first() =~= Seq::<BencodeValue>::empty());
        assert(bencode_seq_bytes(l.push(v).drop_first()) == Seq::<u8>::empty());
        assert(bencode_seq_bytes(l) == Seq::<u8>::empty());
        assert(bencode_seq_bytes(l.push(v)) =~= bencode_seq_bytes(l) + bencode_bytes(v));
    } else {
        lemma_bencode_seq_push(l.drop_first(), v);
        assert(l.push(v).drop_first() =~= l.drop_first().push(v));
        assert(bencode_seq_bytes(l.push(v).drop_first()) == bencode_seq_bytes(
            l.drop_first().push(v),
        ));
        assert(l.push(v)[0] == l[0]);
        assert(bencode_seq_bytes(l) == bencode_bytes(l[0]) + bencode_seq_bytes(l.drop_first()));
        assert(bencode_seq_bytes(l.push(v)) =~= bencode_seq_bytes(l) + bencode_bytes(v));
    }
}

/// Appending a pair appends its serialization.
proof fn lemma_bencode_pairs_push(d: Seq<(Vec<u8>, BencodeValue)>, pair: (Vec<u8>, BencodeValue))
    ensures
        bencode_pairs_bytes(d.push(pair)) == bencode_pairs_bytes(d) + dec_rep(
            pair.0@.len() as int,
        ) + seq![58u8] + pair.0@ + bencode_bytes(pair.1),
    decreases d.len(),
{
    assert(bencode_pairs_bytes(Seq::<(Vec<u8>, BencodeValue)>::empty()) =~= Seq::<u8>::empty());
    if d.len() == 0 {
        assert(d.push(pair)[0] == pair);
        assert(d.push(pair).drop_first() =~= Seq::<(Vec<u8>, BencodeValue)>::empty());
        assert(bencode_pairs_bytes(d.push(pair).drop_first()) == Seq::<u8>::empty());
        assert(bencode_pairs_bytes(d) == Seq::<u8>::empty());
        assert(bencode_pairs_bytes(d.push(pair)) =~= bencode_pairs_bytes(d) + dec_rep(
            pair.0@.len() as int,
        ) + seq![58u8] + pair.0@ + bencode_bytes(pair.1));
    } else {
        lemma_bencode_pairs_push(d.drop_first(), pair);
        assert(d.push(pair).drop_first() =~= d.drop_first().push(pair));
        assert(bencode_pairs_bytes(d.push(pair).drop_first()) == bencode_pairs_bytes(
            d.drop_first().push(pair),
        ));
        assert(d.push(pair)[0] == d[0]);
        assert(bencode_pairs_bytes(d.push(pair)) =~= bencode_pairs_bytes(d) + dec_rep(
            pair.0@.len() as int,
        ) + seq![58u8] + pair.0@ + bencode_bytes(pair.1));
    }
}


/// Relies on std::time::SystemTime: seconds since the Unix epoch; nothing is
/// promised of the value, which depends on the clock.
#[verifier::external_body]
fn unix_time_seconds() -> (r: u64) {
    std::time::SystemTime::now().duration_since(std::time::UNIX_EPOCH).map(
        |d| d.as_secs(),
    ).unwrap_or(0)
}

impl BencodeCodec {
    /// Wrap a value in the bencode file format: a dictionary carrying the
    /// content, optional metadata, the format name, a version and a
    /// creation timestamp.
    #[verifier::rlimit(80)]
    pub fn create_file_format(content: BencodeValue, metadata: Option<BencodeValue>) -> (r: Result<
        Vec<u8>,
        BencodeError,
    >)
        requires
            value_canonical(content),
            metadata matches Some(m) ==> value_canonical(m),
        ensures
            match r {
                Ok(out) => exists|stamp: i64|
                    0 <= stamp && out@ == #[trigger] file_format_bytes(content, metadata, stamp),
                Err(e) => false,
            },
    {
        let now = unix_time_seconds();
        let stamp: i64 = if now > 0x7fff_ffff_ffff_ffffu64 {
            i64::MAX
        } else {
            now as i64
        };
        let content_key = str_bytes("content");
        let created_key = str_bytes("created");
        let format_key = str_bytes("format");
        let metadata_key = str_bytes("metadata");
        let version_key = str_bytes("version");
        let format_value = BencodeValue::string("bencode");
        let ghost ckey = seq![99u8, 111u8, 110u8, 116u8, 101u8, 110u8, 116u8];
        let ghost rkey = seq![99u8, 114u8, 101u8, 97u8, 116u8, 101u8, 100u8];
        let ghost fkey = seq![102u8, 111u8, 114u8, 109u8, 97u8, 116u8];
        let ghost mkey = seq![109u8, 101u8, 116u8, 97u8, 100u8, 97u8, 116u8, 97u8];
        let ghost vkey = seq![118u8, 101u8, 114u8, 115u8, 105u8, 111u8, 110u8];
        proof {
            reveal_strlit("content");
            reveal_strlit("created");
            reveal_strlit("format");
            reveal_strlit("metadata");
            reveal_strlit("version");
            reveal_strlit("bencode");
            vstd::utf8::is_ascii_chars_encode_utf8("content"@);
            vstd::utf8::is_ascii_chars_encode_utf8("created"@);
            vstd::utf8::is_ascii_chars_encode_utf8("format"@);
            vstd::utf8::is_ascii_chars_encode_utf8("metadata"@);
            vstd::utf8::is_ascii_chars_encode_utf8("version"@);
            vstd::utf8::is_ascii_chars_encode_utf8("bencode"@);
            assert(content_key@ =~= ckey);
            assert(created_key@ =~= rkey);
            assert(format_key@ =~= fkey);
            assert(metadata_key@ =~= mkey);
            assert(version_key@ =~= vkey);
            assert(format_value->ByteString_0@ =~= seq![98u8, 101u8, 110u8, 99u8, 111u8, 100u8,
                101u8]);
            assert(lex_lt(ckey.drop_first(), rkey.drop_first()));
            assert(ckey.drop_first() =~= seq![111u8, 110u8, 116u8, 101u8, 110u8, 116u8]);
            assert(rkey.drop_first() =~= seq![114u8, 101u8, 97u8, 116u8, 101u8, 100u8]);
            assert(lex_lt(ckey, rkey));
            assert(lex_lt(ckey, fkey));
            assert(lex_lt(ckey, mkey));
            assert(lex_lt(ckey, vkey));
            assert(lex_lt(rkey, fkey));
            assert(lex_lt(rkey, mkey));
            assert(lex_lt(rkey, vkey));
            assert(lex_lt(fkey, mkey));
            assert(lex_lt(fkey, vkey));
            assert(lex_lt(mkey, vkey));
        }
        let mut pairs: Vec<(Vec<u8>, BencodeValue)> = Vec::new();
        pairs.push((content_key, content));
        pairs.push((created_key, BencodeValue::Integer(stamp)));
        pairs.push((format_key, format_value));
        match metadata {
            Some(meta) => {
                pairs.push((metadata_key, meta));
            },
            None => {},
        }
        pairs.push((version_key, BencodeValue::Integer(1)));
        let ghost gpairs = pairs@;
        proof {
            assert(dict_keys_sorted(gpairs));
            assert(forall|i: int|
                0 <= i < gpairs.len() ==> value_canonical((#[trigger] gpairs[i]).1));
        }
        let file_value = BencodeValue::Dictionary(pairs);
        let r = Self::encode(&file_value);
        proof {
            let out = r->Ok_0;
            let d0 = gpairs;
            let d1 = d0.drop_first();
            let d2 = d1.drop_first();
            let d3 = d2.drop_first();
            let d4 = d3.drop_first();
            let content_part = file_pair_bytes(ckey, content);
            let created_part = dec_rep(7) + seq![58u8] + rkey + seq![105u8] + int_bytes(
                stamp as int,
            ) + seq![101u8];
            let format_part = dec_rep(6) + seq![58u8] + fkey + dec_rep(7) + seq![58u8] + seq![
                98u8,
                101u8,
                110u8,
                99u8,
                111u8,
                100u8,
                101u8,
            ];
            let version_part = dec_rep(7) + seq![58u8] + vkey + seq![105u8] + dec_rep(1) + seq![
                101u8,
            ];
            assert(bencode_bytes(BencodeValue::Integer(stamp)) =~= seq![105u8] + int_bytes(
                stamp as int,
            ) + seq![101u8]);
            assert(format_value->ByteString_0@.len() == 7);
            assert(bencode_bytes(format_value) =~= dec_rep(7) + seq![58u8] + seq![
                98u8,
                101u8,
                110u8,
                99u8,
                111u8,
                100u8,
                101u8,
            ]);
            if metadata is Some {
                let m = metadata->0;
                let metadata_part = file_pair_bytes(mkey, m);
                let d5 = d4.drop_first();
                assert(d1[0] == gpairs[1]);
                assert(d2[0] == gpairs[2]);
                assert(d3[0] == gpairs[3]);
                assert(d4[0] == gpairs[4]);
                assert(d5.len() == 0);
                assert(bencode_pairs_bytes(d5) == Seq::<u8>::empty());
                assert(bencode_bytes(BencodeValue::Integer(1i64)) =~= seq![105u8] + dec_rep(1)
                    + seq![101u8]);
                assert(bencode_pairs_bytes(d4) =~= version_part);
                assert(bencode_pairs_bytes(d3) =~= metadata_part + version_part);
                assert(bencode_pairs_bytes(d2) =~= format_part + metadata_part + version_part);
                assert(bencode_pairs_bytes(d1) =~= created_part + format_part + metadata_part
                    + version_part);
                assert(bencode_pairs_bytes(d0) =~= content_part + created_part + format_part
                    + metadata_part + version_part);
            } else {
                assert(d1[0] == gpairs[1]);
                assert(d2[0] == gpairs[2]);
                assert(d3[0] == gpairs[3]);
                assert(d4.len() == 0);
                assert(bencode_pairs_bytes(d4) == Seq::<u8>::empty());
                assert(bencode_bytes(BencodeValue::Integer(1i64)) =~= seq![105u8] + dec_rep(1)
                    + seq![101u8]);
                assert(bencode_pairs_bytes(d3) =~= version_part);
                assert(bencode_pairs_bytes(d2) =~= format_part + version_part);
                assert(bencode_pairs_bytes(d1) =~= created_part + format_part + version_part);
                assert(bencode_pairs_bytes(d0) =~= content_part + created_part + format_part
                    + version_part);
            }
            assert(out@ =~= file_format_bytes(content, metadata, stamp));
            assert(0 <= stamp && out@ == file_format_bytes(content, metadata, stamp));
        }
        r
    }

    /// Unwrap a bencode file: parse it, require a dictionary, and take out
    /// the content and the metadata, each being the value of the last pair
    /// carrying its key.
    pub fn parse_file_format(data: &[u8]) -> (r: Result<
        (BencodeValue, Option<BencodeValue>),
        BencodeError,
    >)
        ensures
            match r {
                Ok(cm) => {
                    &&& data@.len() > 0 && data@[0] == 100
                    &&& exists|p: int, v: BencodeValue|
                        #![trigger data@.take(p), bencode_bytes(v)]
                        {
                            &&& 0 < p <= data@.len()
                            &&& bencode_bytes(v) == data@.take(p)
                            &&& v is Dictionary
                            &&& last_value_of(
                                dict_pairs(v),
                                seq![99u8, 111u8, 110u8, 116u8, 101u8, 110u8, 116u8],
                            ) == Some(cm.0)
                            &&& last_value_of(
                                dict_pairs(v),
                                seq![109u8, 101u8, 116u8, 97u8, 100u8, 97u8, 116u8, 97u8],
                            ) == cm.1
                        }
                },
                Err(e) => true,
            },
    {
        let file_value = match Self::decode(data) {
            Ok(v) => v,
            Err(e) => {
                return Err(e);
            },
        };
        let ghost gv = file_value;
        let mut pairs = match file_value {
            BencodeValue::Dictionary(d) => d,
            _ => {
                return Err(BencodeError::InvalidFormat(String::new()));
            },
        };
        let ghost gpairs = pairs@;
        proof {
            let p = choose|p: int|
                0 < p <= data@.len() && bencode_bytes(gv) == #[trigger] data@.take(p);
            assert(bencode_bytes(gv)[0] == 100);
            assert(data@.take(p)[0] == data@[0]);
        }
        let mut content: Option<BencodeValue> = None;
        let mut metadata: Option<BencodeValue> = None;
        let content_key = str_bytes("content");
        let metadata_key = str_bytes("metadata");
        let ghost ckey = seq![99u8, 111u8, 110u8, 116u8, 101u8, 110u8, 116u8];
        let ghost mkey = seq![109u8, 101u8, 116u8, 97u8, 100u8, 97u8, 116u8, 97u8];
        proof {
            reveal_strlit("content");
            reveal_strlit("metadata");
            vstd::utf8::is_ascii_chars_encode_utf8("content"@);
            vstd::utf8::is_ascii_chars_encode_utf8("metadata"@);
            assert(content_key@ =~= ckey);
            assert(metadata_key@ =~= mkey);
            assert(gpairs.take(0) =~= Seq::<(Vec<u8>, BencodeValue)>::empty());
        }
        let ghost mut k: int = 0;
        while pairs.len() > 0
            invariant
                0 <= k <= gpairs.len(),
                pairs@ == gpairs.skip(k),
                content_key@ == ckey,
                metadata_key@ == mkey,
                ckey == seq![99u8, 111u8, 110u8, 116u8, 101u8, 110u8, 116u8],
                mkey == seq![109u8, 101u8, 116u8, 97u8, 100u8, 97u8, 116u8, 97u8],
                content == last_value_of(gpairs.take(k), ckey),
                metadata == last_value_of(gpairs.take(k), mkey),
            decreases pairs@.len(),
        {
            let (key, v) = pairs.remove(0);
            proof {
                assert(gpairs.skip(k)[0] == gpairs[k]);
                assert(gpairs.skip(k).drop_first() =~= gpairs.skip(k + 1));
            }
            if crate::tcf::bytes_equal(key.as_slice(), content_key.as_slice()) {
                content = Some(v);
            } else if crate::tcf::bytes_equal(key.as_slice(), metadata_key.as_slice()) {
                metadata = Some(v);
            }
            proof {
                assert(ckey.len() == 7 && mkey.len() == 8);
                assert(ckey != mkey);
                assert(gpairs.take(k + 1).drop_last() =~= gpairs.take(k));
                assert(gpairs.take(k + 1).last() == gpairs[k]);
                k = k + 1;
            }
        }
        proof {
            assert(gpairs.skip(k).len() == 0);
            assert(gpairs.take(k) =~= gpairs);
        }
        match content {
            Some(c) => {
                proof {
                    assert(dict_pairs(gv) == gpairs);
                }
                Ok((c, metadata))
            },
            None => Err(BencodeError::InvalidFormat(String::new())),
        }
    }
}

/// The UTF-8 bytes of a literal key.
fn str_bytes(s: &str) -> (r: Vec<u8>)
    ensures
        r@ == vstd::utf8::encode_utf8(s@),
{
    vstd::slice::slice_to_vec(s.as_bytes())
}


impl BencodeValue {
    /// A human-readable rendering: integers in decimal, byte strings quoted
    /// when they are text and summarized otherwise, lists bracketed,
    /// dictionaries braced.
    pub fn display_string(&self) -> (r: String)
        decreases *self, 0int,
    {
        let mut out = String::new();
        match self {
            BencodeValue::Integer(i) => {
                let mut digits: Vec<u8> = Vec::new();
                write_int(*i, &mut digits);
                push_ascii(&mut out, digits);
            },
            BencodeValue::ByteString(s) => {
                let copy = clone_bytes(s);
                match crate::hashing::string_from_utf8(copy) {
                    Some(text) => {
                        out.append("\u{22}");
                        out.append(text.as_str());
                        out.append("\u{22}");
                    },
                    None => {
                        out.append("<");
                        let mut digits: Vec<u8> = Vec::new();
                        write_usize_digits(s.len(), &mut digits);
                        push_ascii(&mut out, digits);
                        out.append(" bytes>");
                    },
                }
            },
            BencodeValue::List(l) => {
                out.append("[");
                let inner = Self::display_seq(l, 0);
                out.append(inner.as_str());
                out.append("]");
            },
            BencodeValue::Dictionary(d) => {
                out.append("{");
                let inner = Self::display_pairs(d, 0);
                out.append(inner.as_str());
                out.append("}");
            },
        }
        out
    }

    /// Comma-separated renderings of a list's items from an index on.
    fn display_seq(l: &Vec<BencodeValue>, from: usize) -> (r: String)
        requires
            from <= l@.len(),
        decreases *l, l@.len() - from,
    {
        let mut out = String::new();
        if from == l.len() {
            return out;
        }
        if from > 0 {
            out.append(", ");
        }
        let head = l[from].display_string();
        out.append(head.as_str());
        let rest = Self::display_seq(l, from + 1);
        out.append(rest.as_str());
        out
    }

    /// Comma-separated renderings of a dictionary's pairs from an index on.
    fn display_pairs(d: &Vec<(Vec<u8>, BencodeValue)>, from: usize) -> (r: String)
        requires
            from <= d@.len(),
        decreases *d, d@.len() - from,
    {
        let mut out = String::new();
        if from == d.len() {
            return out;
        }
        if from > 0 {
            out.append(", ");
        }
        let key = clone_bytes(&d[from].0);
        let klen = key.len();
        match crate::hashing::string_from_utf8(key) {
            Some(text) => {
                out.append("\u{22}");
                out.append(text.as_str());
                out.append("\u{22}");
            },
            None => {
                out.append("<");
                let mut digits: Vec<u8> = Vec::new();
                write_usize_digits(klen, &mut digits);
                push_ascii(&mut out, digits);
                out.append(" bytes>");
            },
        }
        out.append(": ");
        let val = d[from].1.display_string();
        out.append(val.as_str());
        let rest = Self::display_pairs(d, from + 1);
        out.append(rest.as_str());
        out
    }
}

/// Append ASCII bytes to a string; non-text bytes are dropped.
fn push_ascii(out: &mut String, bytes: Vec<u8>) {
    match crate::hashing::string_from_utf8(bytes) {
        Some(text) => {
            out.append(text.as_str());
        },
        None => {},
    }
}

} // verus!
