//! Identifier arithmetic: 160-bit identifiers written as 40 lowercase hex
//! characters, their XOR distance and the bucket index it gives.

use crate::errors::Error;
use crate::text::push_char;
use vstd::prelude::*;
use vstd::std_specs::bits::{axiom_u8_leading_zeros, u8_leading_zeros};
use vstd::string::*;
use vstd::utf8::is_ascii_chars;

verus! {

/// The number of bytes of an identifier.
pub const ID_BYTES: usize = 20;

/// The number of hex characters of an identifier.
pub const ID_CHARS: usize = 40;

/// The number of bits of an identifier.
pub const ID_BITS: usize = 160;

/// Whether `c` is a lowercase hex digit.
pub open spec fn is_hex_digit(c: char) -> bool {
    ('0' <= c <= '9') || ('a' <= c <= 'f')
}

/// The value of the lowercase hex digit `c`.
pub open spec fn hex_value(c: char) -> int {
    if '0' <= c <= '9' {
        c as int - '0' as int
    } else {
        c as int - 'a' as int + 10
    }
}

/// The lowercase hex digit of value `v`, for `v` below 16.
pub open spec fn hex_digit(v: int) -> char {
    if v < 10 {
        ('0' as int + v) as char
    } else {
        ('a' as int + v - 10) as char
    }
}

/// Whether `s` is an identifier in text form: exactly 40 lowercase hex characters.
pub open spec fn is_node_id(s: Seq<char>) -> bool {
    &&& s.len() == 40
    &&& forall|i: int| 0 <= i < 40 ==> is_hex_digit(#[trigger] s[i])
}

/// The 20 bytes that the identifier `s` writes, most significant first.
pub open spec fn id_bytes(s: Seq<char>) -> Seq<u8> {
    Seq::new(20, |i: int| (hex_value(s[2 * i]) * 16 + hex_value(s[2 * i + 1])) as u8)
}

/// The text form of the identifier made of the bytes `b`.
pub open spec fn id_text(b: Seq<u8>) -> Seq<char> {
    Seq::new(
        2 * b.len(),
        |i: int|
            if i % 2 == 0 {
                hex_digit(b[i / 2] as int / 16)
            } else {
                hex_digit(b[i / 2] as int % 16)
            },
    )
}

/// The XOR distance of two identifiers, as 20 bytes, most significant first.
pub open spec fn xor_distance(a: Seq<u8>, b: Seq<u8>) -> Seq<u8> {
    Seq::new(20, |i: int| a[i] ^ b[i])
}

/// The unsigned integer that the bytes `d` write, most significant first.
pub open spec fn distance_value(d: Seq<u8>) -> nat
    decreases d.len(),
{
    if d.len() == 0 {
        0
    } else {
        256 * distance_value(d.drop_last()) + d.last() as nat
    }
}

/// Bit `k` of the identifier `id`, counted from the most significant end.
pub open spec fn id_bit(id: Seq<u8>, k: int) -> bool {
    (id[k / 8] >> ((7 - k % 8) as u8)) & 1u8 == 1u8
}

/// How many zero bits stand before the first set bit of `d`; eight times its
/// length where no bit is set.
pub open spec fn leading_zero_bits(d: Seq<u8>) -> nat
    decreases d.len(),
{
    if d.len() == 0 {
        0
    } else if d.first() == 0 {
        8 + leading_zero_bits(d.drop_first())
    } else {
        u8_leading_zeros(d.first()) as nat
    }
}

/// The bucket that `other` falls into in the routing table of `local`: the
/// number of leading zero bits of their distance. It is 160 where the two
/// are the same.
pub open spec fn bucket_index_spec(local: Seq<u8>, other: Seq<u8>) -> nat {
    leading_zero_bits(xor_distance(local, other))
}

/// The bucket of the identifier `other`, given in text form, for the local
/// identifier `local`, given in text form.
pub open spec fn bucket_of(local: Seq<char>, other: Seq<char>) -> nat {
    bucket_index_spec(id_bytes(local), id_bytes(other))
}

/// Whether `k` is the first position, from the most significant end, at
/// which the bits of `a` and `b` differ.
pub open spec fn is_first_differing_bit(a: Seq<u8>, b: Seq<u8>, k: int) -> bool {
    &&& 0 <= k < 160
    &&& id_bit(a, k) != id_bit(b, k)
    &&& forall|j: int| 0 <= j < k ==> id_bit(a, j) == id_bit(b, j)
}

proof fn lemma_xor_bits(x: u8, y: u8, s: u8)
    requires
        s < 8,
    ensures
        (((x ^ y) >> s) & 1u8 != 0u8) == (((x >> s) & 1u8 == 1u8) != ((y >> s) & 1u8 == 1u8)),
        (x ^ y == 0) == (x == y),
        x ^ y == y ^ x,
        x ^ x == 0,
{
    assert((((x ^ y) >> s) & 1u8 != 0u8) == (((x >> s) & 1u8 == 1u8) != ((y >> s) & 1u8 == 1u8)))
        by (bit_vector)
        requires
            s < 8,
    ;
    assert((x ^ y == 0) == (x == y)) by (bit_vector);
    assert(x ^ y == y ^ x) by (bit_vector);
    assert(x ^ x == 0) by (bit_vector);
}

proof fn lemma_leading_zero_bits_skip(d: Seq<u8>, i: int)
    requires
        0 <= i <= d.len(),
        forall|j: int| 0 <= j < i ==> d[j] == 0,
    ensures
        leading_zero_bits(d) == 8 * i + leading_zero_bits(d.skip(i)),
    decreases i,
{
    if i == 0 {
        assert(d.skip(0) =~= d);
    } else {
        let rest = d.drop_first();
        assert forall|j: int| 0 <= j < i - 1 implies rest[j] == 0 by {
            assert(rest[j] == d[j + 1]);
        }
        lemma_leading_zero_bits_skip(rest, i - 1);
        assert(rest.skip(i - 1) =~= d.skip(i));
    }
}

/// The bucket index of two distinct identifiers is the position of the first
/// bit in which they differ.
pub proof fn lemma_bucket_index_is_first_differing_bit(a: Seq<u8>, b: Seq<u8>)
    requires
        a.len() == 20,
        b.len() == 20,
        a != b,
    ensures
        is_first_differing_bit(a, b, bucket_index_spec(a, b) as int),
{
    let d = xor_distance(a, b);
    let i = choose|i: int| 0 <= i < 20 && d[i] != 0 && forall|j: int| 0 <= j < i ==> d[j] == 0;
    assert(0 <= i < 20 && d[i] != 0 && forall|j: int| 0 <= j < i ==> d[j] == 0) by {
        lemma_first_nonzero_exists(a, b, 0);
    }
    lemma_leading_zero_bits_skip(d, i);
    assert(d.skip(i).first() == d[i]);
    let x = d[i];
    let lz = u8_leading_zeros(x);
    axiom_u8_leading_zeros(x);
    let k = 8 * i + lz;
    assert(bucket_index_spec(a, b) == k);
    assert(k / 8 == i && k % 8 == lz as int);
    let s = (7 - lz) as u8;
    lemma_xor_bits(a[i], b[i], s);
    assert(id_bit(a, k) != id_bit(b, k));
    assert forall|j: int| 0 <= j < k implies id_bit(a, j) == id_bit(b, j) by {
        let q = j / 8;
        let t = (7 - j % 8) as u8;
        lemma_xor_bits(a[q], b[q], t);
        if q < i {
            assert(d[q] == 0);
        } else {
            assert(q == i);
            assert(8 - lz <= t < 8);
            assert((x >> t) & 1u8 == 0u8);
        }
    }
}

proof fn lemma_first_nonzero_exists(a: Seq<u8>, b: Seq<u8>, from: int)
    requires
        a.len() == 20,
        b.len() == 20,
        0 <= from <= 20,
        forall|j: int| 0 <= j < from ==> xor_distance(a, b)[j] == 0,
        a != b,
    ensures
        exists|i: int|
            0 <= i < 20 && xor_distance(a, b)[i] != 0 && forall|j: int|
                0 <= j < i ==> xor_distance(a, b)[j] == 0,
    decreases 20 - from,
{
    let d = xor_distance(a, b);
    if from == 20 {
        assert forall|j: int| 0 <= j < 20 implies a[j] == b[j] by {
            assert(d[j] == 0);
            lemma_xor_bits(a[j], b[j], 0);
        }
        assert(a =~= b);
    } else if d[from] != 0 {
        assert(0 <= from < 20 && d[from] != 0 && forall|j: int| 0 <= j < from ==> d[j] == 0);
    } else {
        lemma_first_nonzero_exists(a, b, from + 1);
    }
}

/// The bucket index of two identifiers is below 160 exactly when they differ.
pub proof fn lemma_bucket_index_range(a: Seq<u8>, b: Seq<u8>)
    requires
        a.len() == 20,
        b.len() == 20,
    ensures
        bucket_index_spec(a, b) <= 160,
        bucket_index_spec(a, b) == 160 <==> a == b,
{
    let d = xor_distance(a, b);
    if a == b {
        assert forall|j: int| 0 <= j < 20 implies d[j] == 0 by {
            lemma_xor_bits(a[j], b[j], 0);
        }
        lemma_leading_zero_bits_skip(d, 20);
        assert(d.skip(20) =~= Seq::<u8>::empty());
    } else {
        lemma_bucket_index_is_first_differing_bit(a, b);
    }
}

/// The distance is symmetric, and the distance of an identifier to itself is zero.
pub proof fn lemma_distance_symmetric(a: Seq<u8>, b: Seq<u8>)
    requires
        a.len() == 20,
        b.len() == 20,
    ensures
        xor_distance(a, b) == xor_distance(b, a),
        distance_value(xor_distance(a, b)) == distance_value(xor_distance(b, a)),
        distance_value(xor_distance(a, a)) == 0,
        forall|i: int| 0 <= i < 20 ==> xor_distance(a, a)[i] == 0,
{
    assert forall|i: int| 0 <= i < 20 implies xor_distance(a, b)[i] == xor_distance(b, a)[i] by {
        lemma_xor_bits(a[i], b[i], 0);
    }
    assert(xor_distance(a, b) =~= xor_distance(b, a));
    assert forall|i: int| 0 <= i < 20 implies xor_distance(a, a)[i] == 0 by {
        lemma_xor_bits(a[i], a[i], 0);
    }
    lemma_zero_value(xor_distance(a, a));
}

proof fn lemma_zero_value(d: Seq<u8>)
    requires
        forall|i: int| 0 <= i < d.len() ==> d[i] == 0,
    ensures
        distance_value(d) == 0,
    decreases d.len(),
{
    if d.len() > 0 {
        lemma_zero_value(d.drop_last());
    }
}

/// Distinct identifiers are at a distance above zero, and two identifiers at
/// the same distance from a third are the same.
pub proof fn lemma_distance_separates(t: Seq<u8>, a: Seq<u8>, b: Seq<u8>)
    requires
        t.len() == 20,
        a.len() == 20,
        b.len() == 20,
    ensures
        distance_value(xor_distance(t, a)) == distance_value(xor_distance(t, b)) <==> a == b,
{
    let da = xor_distance(t, a);
    let db = xor_distance(t, b);
    if distance_value(da) == distance_value(db) {
        lemma_value_injective(da, db);
        assert forall|i: int| 0 <= i < 20 implies a[i] == b[i] by {
            assert(da[i] == db[i]);
            let x = t[i];
            let y = a[i];
            let z = b[i];
            assert(x ^ y == x ^ z ==> y == z) by (bit_vector);
        }
        assert(a =~= b);
    }
}

/// Two byte strings of one length that write the same integer are the same.
pub proof fn lemma_value_injective(x: Seq<u8>, y: Seq<u8>)
    requires
        x.len() == y.len(),
        distance_value(x) == distance_value(y),
    ensures
        x == y,
    decreases x.len(),
{
    if x.len() > 0 {
        lemma_value_injective(x.drop_last(), y.drop_last());
        assert(x =~= x.drop_last().push(x.last()));
        assert(y =~= y.drop_last().push(y.last()));
    }
}

/// Comparing two byte strings of one length from the most significant end,
/// the first position at which they differ orders their values.
proof fn lemma_value_order(x: Seq<u8>, y: Seq<u8>, k: int)
    requires
        x.len() == y.len(),
        0 <= k < x.len(),
        forall|j: int| 0 <= j < k ==> x[j] == y[j],
        x[k] < y[k],
    ensures
        distance_value(x) < distance_value(y),
    decreases x.len(),
{
    let n = x.len() as int;
    if k == n - 1 {
        assert(x.drop_last() =~= y.drop_last());
    } else {
        lemma_value_order(x.drop_last(), y.drop_last(), k);
    }
}

/// Two identifiers in text form that write the same bytes are the same.
pub proof fn lemma_id_bytes_injective(a: Seq<char>, b: Seq<char>)
    requires
        is_node_id(a),
        is_node_id(b),
        id_bytes(a) == id_bytes(b),
    ensures
        a == b,
{
    assert forall|j: int| 0 <= j < 40 implies a[j] == b[j] by {
        let i = j / 2;
        assert(id_bytes(a)[i] == id_bytes(b)[i]);
        assert(is_hex_digit(a[2 * i]) && is_hex_digit(a[2 * i + 1]));
        assert(is_hex_digit(b[2 * i]) && is_hex_digit(b[2 * i + 1]));
        let high_a = hex_value(a[2 * i]);
        let low_a = hex_value(a[2 * i + 1]);
        let high_b = hex_value(b[2 * i]);
        let low_b = hex_value(b[2 * i + 1]);
        assert(0 <= high_a < 16 && 0 <= low_a < 16 && 0 <= high_b < 16 && 0 <= low_b < 16);
        assert(id_bytes(a)[i] == (high_a * 16 + low_a) as u8);
        assert(id_bytes(b)[i] == (high_b * 16 + low_b) as u8);
        assert(((high_a * 16 + low_a) as u8) as int == high_a * 16 + low_a);
        assert(((high_b * 16 + low_b) as u8) as int == high_b * 16 + low_b);
        assert(high_a * 16 + low_a == high_b * 16 + low_b);
        assert(high_a == high_b && low_a == low_b);
        assert(a[2 * i] as int == b[2 * i] as int);
        assert(a[2 * i + 1] as int == b[2 * i + 1] as int);
    }
    assert(a =~= b);
}

/// The value of an identifier given in text form, as an unsigned integer.
pub open spec fn id_value(id: Seq<char>) -> nat {
    distance_value(id_bytes(id))
}

/// The distance of two identifiers given in text form, as an unsigned integer.
pub open spec fn distance_between(a: Seq<char>, b: Seq<char>) -> nat {
    distance_value(xor_distance(id_bytes(a), id_bytes(b)))
}

/// The byte that two lowercase hex digits write.
fn hex_pair(high: u8, low: u8) -> (r: Option<u8>)
    ensures
        match r {
            Some(v) => is_hex_digit(high as char) && is_hex_digit(low as char) && v as int
                == hex_value(high as char) * 16 + hex_value(low as char),
            None => !is_hex_digit(high as char) || !is_hex_digit(low as char),
        },
{
    let h: u8 = if high >= 48 && high <= 57 {
        high - 48
    } else if high >= 97 && high <= 102 {
        high - 87
    } else {
        return None;
    };
    let l: u8 = if low >= 48 && low <= 57 {
        low - 48
    } else if low >= 97 && low <= 102 {
        low - 87
    } else {
        return None;
    };
    Some(h * 16 + l)
}

/// Reads an identifier in text form: exactly 40 lowercase hex characters.
pub fn sha1_to_bytes(sha1: &str) -> (r: Result<[u8; 20], Error>)
    ensures
        match r {
            Ok(bytes) => is_node_id(sha1@) && bytes@ == id_bytes(sha1@),
            Err(e) => e == Error::InvalidId && !is_node_id(sha1@),
        },
{
    if !sha1.is_ascii() {
        proof {
            if is_node_id(sha1@) {
                assert forall|i: int| 0 <= i < sha1@.len() implies '\0' <= #[trigger] sha1@[i]
                    <= '\u{7f}' by {
                    assert(is_hex_digit(sha1@[i]));
                }
            }
        }
        return Err(Error::InvalidId);
    }
    proof {
        is_ascii_spec_bytes(sha1);
    }
    let text = sha1.as_bytes();
    if text.len() != 40 {
        return Err(Error::InvalidId);
    }
    let mut bytes: [u8; 20] = [0; 20];
    let mut i: usize = 0;
    while i < 20
        invariant
            i <= 20,
            text@.len() == 40,
            sha1@.len() == 40,
            is_ascii_chars(sha1@),
            forall|j: int| 0 <= j < 40 ==> text@[j] == #[trigger] sha1@[j] as u8,
            forall|j: int| 0 <= j < 2 * i ==> is_hex_digit(#[trigger] sha1@[j]),
            forall|j: int| 0 <= j < i ==> bytes@[j] == #[trigger] id_bytes(sha1@)[j],
        decreases 20 - i,
    {
        let high = text[2 * i];
        let low = text[2 * i + 1];
        proof {
            let ch = sha1@[2 * i];
            let cl = sha1@[2 * i + 1];
            assert('\0' <= ch <= '\u{7f}' && '\0' <= cl <= '\u{7f}');
            assert(high as char == ch && low as char == cl);
        }
        match hex_pair(high, low) {
            Some(v) => {
                bytes[i] = v;
            },
            None => {
                return Err(Error::InvalidId);
            },
        }
        i = i + 1;
    }
    assert(bytes@ =~= id_bytes(sha1@));
    Ok(bytes)
}

/// The bytes of an identifier that is known to be one.
pub(crate) fn id_bytes_of(id: &str) -> (bytes: [u8; 20])
    requires
        is_node_id(id@),
    ensures
        bytes@ == id_bytes(id@),
{
    match sha1_to_bytes(id) {
        Ok(bytes) => bytes,
        Err(_) => [0; 20],
    }
}

/// Whether the identifier `a` is below the identifier `b` as an unsigned integer.
pub fn id_below(a: &[u8; 20], b: &[u8; 20]) -> (r: bool)
    ensures
        r == (distance_value(a@) < distance_value(b@)),
{
    let mut i: usize = 0;
    while i < 20
        invariant
            i <= 20,
            forall|j: int| 0 <= j < i ==> a@[j] == b@[j],
        decreases 20 - i,
    {
        if a[i] < b[i] {
            proof {
                lemma_value_order(a@, b@, i as int);
            }
            return true;
        }
        if a[i] > b[i] {
            proof {
                lemma_value_order(b@, a@, i as int);
            }
            return false;
        }
        i = i + 1;
    }
    assert(a@ =~= b@);
    false
}

/// The lowercase hex digit of `v`.
fn hex_char(v: u8) -> (c: char)
    requires
        v < 16,
    ensures
        c == hex_digit(v as int),
        is_hex_digit(c),
        hex_value(c) == v,
{
    if v < 10 {
        (48 + v) as char
    } else {
        (87 + v) as char
    }
}

/// Writes an identifier in text form.
pub fn bytes_to_sha1(bytes: &[u8; 20]) -> (sha1: String)
    ensures
        sha1@ == id_text(bytes@),
        is_node_id(sha1@),
        id_bytes(sha1@) == bytes@,
{
    let mut sha1 = String::new();
    let mut i: usize = 0;
    while i < 20
        invariant
            i <= 20,
            sha1@.len() == 2 * i,
            forall|j: int| 0 <= j < 2 * i ==> sha1@[j] == #[trigger] id_text(bytes@)[j],
            forall|j: int| 0 <= j < 2 * i ==> is_hex_digit(#[trigger] sha1@[j]),
            forall|j: int|
                0 <= j < i ==> bytes@[j] as int == hex_value(sha1@[2 * j]) * 16 + hex_value(
                    #[trigger] sha1@[2 * j + 1],
                ),
        decreases 20 - i,
    {
        let b = bytes[i];
        let high = hex_char(b / 16);
        let low = hex_char(b % 16);
        push_char(&mut sha1, high);
        push_char(&mut sha1, low);
        i = i + 1;
    }
    assert(sha1@ =~= id_text(bytes@));
    assert(id_bytes(sha1@) =~= bytes@);
    sha1
}

/// The XOR distance of two identifiers.
pub fn distance_to_node(node_id_a: &[u8; 20], node_id_b: &[u8; 20]) -> (distance: [u8; 20])
    ensures
        distance@ == xor_distance(node_id_a@, node_id_b@),
{
    let mut distance: [u8; 20] = [0; 20];
    let mut i: usize = 0;
    while i < 20
        invariant
            i <= 20,
            forall|j: int| 0 <= j < i ==> distance@[j] == node_id_a@[j] ^ node_id_b@[j],
        decreases 20 - i,
    {
        distance[i] = node_id_a[i] ^ node_id_b[i];
        i = i + 1;
    }
    assert(distance@ =~= xor_distance(node_id_a@, node_id_b@));
    distance
}

/// The XOR distance of two identifiers given in text form. Fails with
/// `InvalidId` where either is not 40 lowercase hex characters.
pub fn calculate_xor_distance(node_id: &str, target_id: &str) -> (r: Result<[u8; 20], Error>)
    ensures
        match r {
            Ok(distance) => is_node_id(node_id@) && is_node_id(target_id@) && distance@
                == xor_distance(id_bytes(node_id@), id_bytes(target_id@)),
            Err(e) => e == Error::InvalidId && !(is_node_id(node_id@) && is_node_id(target_id@)),
        },
{
    let node_id_bytes = match sha1_to_bytes(node_id) {
        Ok(bytes) => bytes,
        Err(e) => {
            return Err(e);
        },
    };
    let target_id_bytes = match sha1_to_bytes(target_id) {
        Ok(bytes) => bytes,
        Err(e) => {
            return Err(e);
        },
    };
    Ok(distance_to_node(&node_id_bytes, &target_id_bytes))
}

/// The bucket that `other` falls into in the routing table of `local`: the
/// position, from the most significant end, of the first bit in which the two
/// differ. Fails with `SameId` where they are the same.
pub fn bucket_index(local: &[u8; 20], other: &[u8; 20]) -> (r: Result<usize, Error>)
    ensures
        match r {
            Ok(index) => local@ != other@ && index == bucket_index_spec(local@, other@) && index
                < 160 && is_first_differing_bit(local@, other@, index as int),
            Err(e) => e == Error::SameId && local@ == other@,
        },
{
    let ghost d = xor_distance(local@, other@);
    let mut i: usize = 0;
    while i < 20
        invariant
            i <= 20,
            d == xor_distance(local@, other@),
            forall|j: int| 0 <= j < i ==> d[j] == 0,
        decreases 20 - i,
    {
        let x = local[i] ^ other[i];
        if x != 0 {
            proof {
                lemma_leading_zero_bits_skip(d, i as int);
                assert(d.skip(i as int).first() == x);
                axiom_u8_leading_zeros(x);
                lemma_xor_bits(local@[i as int], other@[i as int], 0);
                lemma_bucket_index_is_first_differing_bit(local@, other@);
            }
            let zeros = x.leading_zeros() as usize;
            return Ok(8 * i + zeros);
        }
        i = i + 1;
    }
    proof {
        assert forall|j: int| 0 <= j < 20 implies local@[j] == other@[j] by {
            assert(d[j] == 0);
            lemma_xor_bits(local@[j], other@[j], 0);
        }
        assert(local@ =~= other@);
    }
    Err(Error::SameId)
}

/// Whether `a` is strictly closer to `target` than `b` is, by XOR distance.
pub fn is_closer(target: &[u8; 20], a: &[u8; 20], b: &[u8; 20]) -> (r: bool)
    ensures
        r == (distance_value(xor_distance(target@, a@)) < distance_value(
            xor_distance(target@, b@),
        )),
{
    let ghost da = xor_distance(target@, a@);
    let ghost db = xor_distance(target@, b@);
    let mut i: usize = 0;
    while i < 20
        invariant
            i <= 20,
            da == xor_distance(target@, a@),
            db == xor_distance(target@, b@),
            forall|j: int| 0 <= j < i ==> da[j] == db[j],
        decreases 20 - i,
    {
        let x = target[i] ^ a[i];
        let y = target[i] ^ b[i];
        if x < y {
            proof {
                lemma_value_order(da, db, i as int);
            }
            return true;
        }
        if x > y {
            proof {
                lemma_value_order(db, da, i as int);
            }
            return false;
        }
        i = i + 1;
    }
    assert(da =~= db);
    false
}

} // verus!
