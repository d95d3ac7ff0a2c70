use crate::constants::{ID_LENGTH, RT_BCKT_SIZE};
use crate::error::KadError;
use vstd::prelude::*;
use vstd::utf8::encode_utf8;

verus! {

/// A 160-bit node identifier, most significant byte first.
#[derive(Debug, Clone, Copy, Eq, Hash, Ord)]
pub struct KademliaID {
    pub id: [u8; 20],
}

impl View for KademliaID {
    type V = Seq<u8>;

    open spec fn view(&self) -> Seq<u8> {
        self.id@
    }
}

/// Byte-wise XOR of two identifiers.
pub open spec fn xor_seq(a: Seq<u8>, b: Seq<u8>) -> Seq<u8> {
    Seq::new(a.len(), |i: int| a[i] ^ b[i])
}

/// Lexicographic order over bytes: the first differing byte decides.
pub open spec fn lex_lt(a: Seq<u8>, b: Seq<u8>) -> bool {
    exists|i: int|
        0 <= i < a.len() && i < b.len() && a[i] < b[i] && (forall|k: int|
            0 <= k < i ==> a[k] == b[k])
}

/// The bit at position `p`, counted from the most significant bit (0) of
/// the first byte.
pub open spec fn bit_at(s: Seq<u8>, p: int) -> bool {
    (s[p / 8] >> ((7 - p % 8) as u8)) & 1u8 == 1u8
}

/// Position of the first set bit at or after `p`, or `8 * s.len()` when
/// there is none.
pub open spec fn first_set_bit_from(s: Seq<u8>, p: int) -> int
    decreases 8 * s.len() - p,
{
    if p < 0 || p >= 8 * s.len() {
        8 * s.len() as int
    } else if bit_at(s, p) {
        p
    } else {
        first_set_bit_from(s, p + 1)
    }
}

/// The bucket that `id` falls into relative to `me`: the position of the
/// most significant set bit of their distance; 0 when the two are equal.
pub open spec fn bucket_index_of(me: Seq<u8>, id: Seq<u8>) -> int {
    let f = first_set_bit_from(xor_seq(me, id), 0);
    if f >= 8 * me.len() as int {
        0
    } else {
        f
    }
}

/// The value of a byte string read as a big-endian number.
pub open spec fn be_value(s: Seq<u8>) -> nat
    decreases s.len(),
{
    if s.len() == 0 {
        0
    } else {
        be_value(s.drop_last()) * 256 + s.last() as nat
    }
}

/// The lowercase hexadecimal digit for a value below 16.
pub open spec fn hex_digit(n: u8) -> char {
    if n < 10 {
        ((n + 48) as u8) as char
    } else {
        ((n + 87) as u8) as char
    }
}

/// The value of a hexadecimal digit of either case, if `c` is one.
pub open spec fn hex_value(c: char) -> Option<u8> {
    let v = c as u32;
    if 48 <= v <= 57 {
        Some((v - 48) as u8)
    } else if 97 <= v <= 102 {
        Some((v - 87) as u8)
    } else if 65 <= v <= 70 {
        Some((v - 55) as u8)
    } else {
        None
    }
}

/// Two lowercase hexadecimal digits per byte, high nibble first.
pub open spec fn hex_of(s: Seq<u8>) -> Seq<char> {
    Seq::new(
        2 * s.len(),
        |i: int|
            if i % 2 == 0 {
                hex_digit(s[i / 2] >> 4u8)
            } else {
                hex_digit(s[i / 2] & 15u8)
            },
    )
}

/// Whether `s` is the textual form of an identifier: exactly 40 hexadecimal
/// digits.
pub open spec fn is_hex_id(s: Seq<char>) -> bool {
    s.len() == 2 * ID_LENGTH && forall|i: int| 0 <= i < s.len() ==> hex_value(s[i]) is Some
}

/// The bytes that a well-formed textual identifier denotes.
pub open spec fn decode_hex_id(s: Seq<char>) -> Seq<u8> {
    Seq::new(
        ID_LENGTH as nat,
        |j: int| (hex_value(s[2 * j])->0 * 16 + hex_value(s[2 * j + 1])->0) as u8,
    )
}

/// The byte of a bucket probe that holds bit `k`: the bits of `s` above `k`,
/// bit `k` flipped, and the bits of `x` below it.
pub open spec fn probe_byte(s: u8, x: u8, k: u8) -> u8 {
    (s & !(0xffu8 >> k)) | ((s ^ (0x80u8 >> k)) & (0x80u8 >> k)) | (x & (0x7fu8 >> k))
}

proof fn lemma_probe_byte(s: u8, x: u8, k: u8, q: u8)
    requires
        k < 8,
        q <= k,
    ensures
        q < k ==> (((probe_byte(s, x, k) >> (7 - q) as u8) & 1u8 == 1u8) == ((s >> (7 - q) as u8)
            & 1u8 == 1u8)),
        q == k ==> (((probe_byte(s, x, k) >> (7 - q) as u8) & 1u8 == 1u8) != ((s >> (7 - q) as u8)
            & 1u8 == 1u8)),
{
    let r = probe_byte(s, x, k);
    assert(r == (s & !(0xffu8 >> k)) | ((s ^ (0x80u8 >> k)) & (0x80u8 >> k)) | (x & (0x7fu8 >> k)));
    assert(q < k ==> (((r >> (7 - q) as u8) & 1u8 == 1u8) == ((s >> (7 - q) as u8) & 1u8 == 1u8)))
        by (bit_vector)
        requires
            k < 8,
            r == (s & !(0xffu8 >> k)) | ((s ^ (0x80u8 >> k)) & (0x80u8 >> k)) | (x & (0x7fu8 >> k)),
    ;
    assert(q == k ==> (((r >> (7 - q) as u8) & 1u8 == 1u8) != ((s >> (7 - q) as u8) & 1u8 == 1u8)))
        by (bit_vector)
        requires
            k < 8,
            r == (s & !(0xffu8 >> k)) | ((s ^ (0x80u8 >> k)) & (0x80u8 >> k)) | (x & (0x7fu8 >> k)),
    ;
}

/// A bit of a byte-wise XOR is set exactly where the operands differ.
pub proof fn lemma_xor_bit(a: Seq<u8>, b: Seq<u8>, p: int)
    requires
        a.len() == b.len(),
        0 <= p < 8 * a.len(),
    ensures
        bit_at(xor_seq(a, b), p) == (bit_at(a, p) != bit_at(b, p)),
{
    let x = a[p / 8];
    let y = b[p / 8];
    let n = (7 - p % 8) as u8;
    assert(xor_seq(a, b)[p / 8] == x ^ y);
    assert((((x ^ y) >> n) & 1u8 == 1u8) == (((x >> n) & 1u8 == 1u8) != ((y >> n) & 1u8 == 1u8)))
        by (bit_vector);
}

/// Scanning for the first set bit skips a run of clear bits.
pub proof fn lemma_first_set_skip(s: Seq<u8>, start: int, p: int)
    requires
        0 <= start <= p <= 8 * s.len(),
        forall|q: int| start <= q < p ==> !bit_at(s, q),
    ensures
        first_set_bit_from(s, start) == first_set_bit_from(s, p),
    decreases p - start,
{
    if start < p {
        lemma_first_set_skip(s, start + 1, p);
    }
}

/// An identifier that agrees with `me` on every bit above position `i` and
/// differs at `i` lies in bucket `i` of `me`.
pub proof fn lemma_bucket_of_generated(me: Seq<u8>, id: Seq<u8>, i: int)
    requires
        me.len() == ID_LENGTH,
        id.len() == ID_LENGTH,
        0 <= i < RT_BCKT_SIZE,
        forall|p: int| 0 <= p < i ==> bit_at(id, p) == bit_at(me, p),
        bit_at(id, i) != bit_at(me, i),
    ensures
        bucket_index_of(me, id) == i,
{
    let d = xor_seq(me, id);
    assert forall|q: int| 0 <= q < i implies !bit_at(d, q) by {
        lemma_xor_bit(me, id, q);
    }
    lemma_xor_bit(me, id, i);
    lemma_first_set_skip(d, 0, i);
}

/// Relies on `rand::random`: twenty bytes drawn from the thread-local
/// generator, of which nothing is promised.
#[verifier::external_body]
fn random_bytes() -> (r: [u8; 20]) {
    rand::random()
}

/// The bytes of a probe for bucket `i` of `me`: the bytes of `me` above the
/// one holding bit `i`, that byte as `probe_byte` makes it, and the bytes of
/// `noise` below it.
pub open spec fn probe_bytes(me: Seq<u8>, noise: Seq<u8>, i: int) -> Seq<u8> {
    Seq::new(
        ID_LENGTH as nat,
        |j: int|
            if j < i / 8 {
                me[j]
            } else if j == i / 8 {
                probe_byte(me[j], noise[j], (i % 8) as u8)
            } else {
                noise[j]
            },
    )
}

/// SHA-256 digest of a byte string.
pub uninterp spec fn sha256_of(data: Seq<u8>) -> Seq<u8>;

/// The identifier under which a payload is stored: its SHA-256 digest cut to
/// the identifier width.
pub open spec fn content_id(data: Seq<u8>) -> Seq<u8> {
    sha256_of(data).take(ID_LENGTH as int)
}

/// Relies on `sha2::Sha256::digest`: the 32-byte SHA-256 digest of `data`,
/// which depends on the bytes alone.
#[verifier::external_body]
fn sha256(data: &[u8]) -> (r: [u8; 32])
    ensures
        r@ == sha256_of(data@),
{
    <sha2::Sha256 as sha2::Digest>::digest(data).into()
}

/// Relies on `String::push`: appends one character.
#[verifier::external_body]
pub(crate) fn push_char(s: &mut String, c: char)
    ensures
        final(s)@ == old(s)@.push(c),
{
    s.push(c)
}

fn hex_digit_exec(n: u8) -> (c: char)
    requires
        n < 16,
    ensures
        c == hex_digit(n),
{
    if n < 10 {
        (n + 48) as char
    } else {
        (n + 87) as char
    }
}

fn hex_value_exec(c: char) -> (r: Option<u8>)
    ensures
        r == hex_value(c),
{
    let v = c as u32;
    if 48 <= v && v <= 57 {
        Some((v - 48) as u8)
    } else if 97 <= v && v <= 102 {
        Some((v - 87) as u8)
    } else if 65 <= v && v <= 70 {
        Some((v - 55) as u8)
    } else {
        None
    }
}

impl KademliaID {
    /// A fresh identifier of twenty random bytes.
    pub fn new() -> (r: Self) {
        let id = random_bytes();
        Self { id }
    }

    /// A random identifier in bucket `bucket_index` of `self`: it keeps the
    /// bits of `self` above that position, flips the bit there, and has
    /// random bits below it.
    pub fn generate_random_id_in_bucket(&self, bucket_index: usize) -> (r: Self)
        requires
            bucket_index < RT_BCKT_SIZE,
        ensures
            forall|p: int| 0 <= p < bucket_index ==> bit_at(r@, p) == bit_at(self@, p),
            bit_at(r@, bucket_index as int) != bit_at(self@, bucket_index as int),
            bucket_index_of(self@, r@) == bucket_index,
    {
        self.id_in_bucket(bucket_index, random_bytes())
    }

    /// The identifier in bucket `bucket_index` of `self` whose bits below
    /// that position are those of `noise`.
    pub fn id_in_bucket(&self, bucket_index: usize, noise: [u8; 20]) -> (r: Self)
        requires
            bucket_index < RT_BCKT_SIZE,
        ensures
            r@ == probe_bytes(self@, noise@, bucket_index as int),
            forall|p: int| 0 <= p < bucket_index ==> bit_at(r@, p) == bit_at(self@, p),
            bit_at(r@, bucket_index as int) != bit_at(self@, bucket_index as int),
            bucket_index_of(self@, r@) == bucket_index,
    {
        let mut id: [u8; 20] = self.id;
        let byte_index = bucket_index / 8;
        let k = (bucket_index % 8) as u8;
        let mut j: usize = byte_index + 1;
        while j < ID_LENGTH
            invariant
                byte_index < j <= ID_LENGTH,
                id@.len() == ID_LENGTH,
                forall|m: int| 0 <= m <= byte_index ==> id@[m] == self@[m],
                forall|m: int| byte_index < m < j ==> id@[m] == noise@[m],
            decreases ID_LENGTH - j,
        {
            id[j] = noise[j];
            j += 1;
        }
        let s = self.id[byte_index];
        id[byte_index] = (s & !(0xffu8 >> k)) | ((s ^ (0x80u8 >> k)) & (0x80u8 >> k)) | (
        noise[byte_index] & (0x7fu8 >> k));
        assert(id@[byte_index as int] == probe_byte(s, noise[byte_index as int], k));
        let r = KademliaID { id };
        proof {
            assert forall|p: int| 0 <= p < bucket_index implies bit_at(r@, p) == bit_at(
                self@,
                p,
            ) by {
                if p / 8 == byte_index as int {
                    lemma_probe_byte(s, noise[byte_index as int], k, (p % 8) as u8);
                }
            }
            lemma_probe_byte(s, noise[byte_index as int], k, k);
            let bi = bucket_index as int;
            assert(bi / 8 == byte_index as int && bi % 8 == k as int);
            assert(r@[bi / 8] == probe_byte(s, noise[byte_index as int], k));
            assert(self@[bi / 8] == s);
            lemma_bucket_of_generated(self@, r@, bucket_index as int);
            assert(r@ =~= probe_bytes(self@, noise@, bucket_index as int));
        }
        r
    }

    /// The content address of `data`: its SHA-256 digest cut to twenty
    /// bytes.
    pub fn from_data(data: &str) -> (r: Self)
        ensures
            r@ == content_id(encode_utf8(data@)),
    {
        let digest = sha256(data.as_bytes());
        let mut id: [u8; 20] = [0u8; 20];
        let mut i: usize = 0;
        while i < ID_LENGTH
            invariant
                i <= ID_LENGTH,
                id@.len() == ID_LENGTH,
                digest@.len() == 32,
                forall|k: int| 0 <= k < i ==> id@[k] == digest@[k],
            decreases ID_LENGTH - i,
        {
            id[i] = digest[i];
            i += 1;
        }
        let r = KademliaID { id };
        assert(r@ =~= digest@.take(ID_LENGTH as int));
        r
    }

    /// Parses 40 hexadecimal digits of either case.
    pub fn from_hex(hex: String) -> (r: Result<KademliaID, KadError>)
        ensures
            is_hex_id(hex@) ==> (r matches Ok(k) && k@ == decode_hex_id(hex@)),
            !is_hex_id(hex@) ==> r == Err::<KademliaID, KadError>(KadError::MalformedIdentifier),
    {
        let s = hex.as_str();
        let n = s.unicode_len();
        if n != 2 * ID_LENGTH {
            return Err(KadError::MalformedIdentifier);
        }
        let mut id: [u8; 20] = [0u8; 20];
        let mut j: usize = 0;
        while j < ID_LENGTH
            invariant
                j <= ID_LENGTH,
                s@ == hex@,
                hex@.len() == 2 * ID_LENGTH,
                id@.len() == ID_LENGTH,
                forall|i: int| 0 <= i < 2 * j ==> hex_value(hex@[i]) is Some,
                forall|k: int| 0 <= k < j ==> id@[k] == decode_hex_id(hex@)[k],
            decreases ID_LENGTH - j,
        {
            let hi = hex_value_exec(s.get_char(2 * j));
            let lo = hex_value_exec(s.get_char(2 * j + 1));
            match (hi, lo) {
                (Some(h), Some(l)) => {
                    id[j] = h * 16 + l;
                },
                _ => {
                    return Err(KadError::MalformedIdentifier);
                },
            }
            j += 1;
        }
        let r = KademliaID { id };
        assert(r@ =~= decode_hex_id(hex@));
        Ok(r)
    }

    /// The identifier as 40 lowercase hexadecimal digits.
    pub fn to_hex(&self) -> (r: String)
        ensures
            r@ == hex_of(self@),
    {
        let mut out = String::new();
        let mut j: usize = 0;
        while j < ID_LENGTH
            invariant
                j <= ID_LENGTH,
                self@.len() == ID_LENGTH,
                out@ =~= hex_of(self@.take(j as int)),
            decreases ID_LENGTH - j,
        {
            let b = self.id[j];
            proof {
                assert(b >> 4u8 < 16u8) by (bit_vector);
                assert(b & 15u8 < 16u8) by (bit_vector);
            }
            push_char(&mut out, hex_digit_exec(b >> 4));
            push_char(&mut out, hex_digit_exec(b & 15));
            assert(self@.take(j as int + 1) =~= self@.take(j as int).push(b));
            assert(out@ =~= hex_of(self@.take(j as int + 1)));
            j += 1;
        }
        assert(self@.take(ID_LENGTH as int) =~= self@);
        out
    }

    /// The identifier whose bytes are `id`.
    pub fn with_id(id: [u8; 20]) -> (r: Self)
        ensures
            r.id == id,
    {
        Self { id }
    }

    /// The XOR distance between `self` and `other`.
    pub fn distance(&self, other: &KademliaID) -> (r: KademliaID)
        ensures
            r@ == xor_seq(self@, other@),
    {
        let mut id: [u8; 20] = [0u8; 20];
        let mut i: usize = 0;
        while i < ID_LENGTH
            invariant
                i <= ID_LENGTH,
                id@.len() == ID_LENGTH,
                self@.len() == ID_LENGTH,
                other@.len() == ID_LENGTH,
                forall|k: int| 0 <= k < i ==> id@[k] == self@[k] ^ other@[k],
            decreases ID_LENGTH - i,
        {
            id[i] = self.id[i] ^ other.id[i];
            i += 1;
        }
        let r = KademliaID { id };
        assert(r@ =~= xor_seq(self@, other@));
        r
    }

    /// Whether all bytes of the two identifiers match.
    pub fn equals(&self, other: &KademliaID) -> (r: bool)
        ensures
            r == (self@ == other@),
    {
        let mut i: usize = 0;
        while i < ID_LENGTH
            invariant
                i <= ID_LENGTH,
                self@.len() == ID_LENGTH,
                other@.len() == ID_LENGTH,
                forall|k: int| 0 <= k < i ==> self@[k] == other@[k],
            decreases ID_LENGTH - i,
        {
            if self.id[i] != other.id[i] {
                return false;
            }
            i += 1;
        }
        assert(self@ =~= other@);
        true
    }

    /// Whether `self` orders before `other`: the first differing byte decides.
    pub fn less(&self, other: &KademliaID) -> (r: bool)
        ensures
            r == lex_lt(self@, other@),
    {
        let mut i: usize = 0;
        while i < ID_LENGTH
            invariant
                i <= ID_LENGTH,
                self@.len() == ID_LENGTH,
                other@.len() == ID_LENGTH,
                forall|k: int| 0 <= k < i ==> self@[k] == other@[k],
            decreases ID_LENGTH - i,
        {
            if self.id[i] != other.id[i] {
                let r = self.id[i] < other.id[i];
                proof {
                    if lex_lt(self@, other@) {
                        let j = choose|j: int|
                            0 <= j < self@.len() && j < other@.len() && self@[j] < other@[j]
                                && (forall|k: int| 0 <= k < j ==> self@[k] == other@[k]);
                        if j > i {
                            assert(self@[i as int] == other@[i as int]);
                        }
                    }
                }
                return r;
            }
            i += 1;
        }
        false
    }
}

/// The distance from an identifier to itself is zero.
pub proof fn lemma_distance_to_self_is_zero(a: Seq<u8>)
    ensures
        xor_seq(a, a) == Seq::new(a.len(), |i: int| 0u8),
        be_value(xor_seq(a, a)) == 0,
    decreases a.len(),
{
    assert forall|i: int| 0 <= i < a.len() implies xor_seq(a, a)[i] == 0u8 by {
        let x = a[i];
        assert(x ^ x == 0u8) by (bit_vector);
    }
    assert(xor_seq(a, a) =~= Seq::new(a.len(), |i: int| 0u8));
    if a.len() > 0 {
        lemma_distance_to_self_is_zero(a.drop_last());
        assert(xor_seq(a, a).drop_last() =~= xor_seq(a.drop_last(), a.drop_last()));
    }
}

/// The distance is symmetric.
pub proof fn lemma_distance_symmetric(a: Seq<u8>, b: Seq<u8>)
    requires
        a.len() == b.len(),
    ensures
        xor_seq(a, b) == xor_seq(b, a),
{
    assert forall|i: int| 0 <= i < a.len() implies xor_seq(a, b)[i] == xor_seq(b, a)[i] by {
        let x = a[i];
        let y = b[i];
        assert(x ^ y == y ^ x) by (bit_vector);
    }
    assert(xor_seq(a, b) =~= xor_seq(b, a));
}

proof fn lemma_xor_le_sum(x: Seq<u8>, y: Seq<u8>)
    requires
        x.len() == y.len(),
    ensures
        be_value(xor_seq(x, y)) <= be_value(x) + be_value(y),
    decreases x.len(),
{
    if x.len() > 0 {
        let d = xor_seq(x, y);
        lemma_xor_le_sum(x.drop_last(), y.drop_last());
        assert(d.drop_last() =~= xor_seq(x.drop_last(), y.drop_last()));
        let a = x.last();
        let b = y.last();
        let a16 = a as u16;
        let b16 = b as u16;
        assert((a ^ b) as u16 == a16 ^ b16) by (bit_vector)
            requires
                a16 == a as u16,
                b16 == b as u16,
        ;
        assert(a16 ^ b16 <= a16 + b16) by (bit_vector)
            requires
                a16 < 256,
                b16 < 256,
        ;
        let p = be_value(d.drop_last());
        let q = be_value(x.drop_last()) + be_value(y.drop_last());
        assert(p * 256 <= q * 256) by (nonlinear_arith)
            requires
                p <= q,
        ;
    }
}

/// The triangle inequality of the XOR metric, reading each distance as a
/// big-endian number: `d(a, c) <= d(a, b) + d(b, c)`.
pub proof fn lemma_distance_triangle(a: Seq<u8>, b: Seq<u8>, c: Seq<u8>)
    requires
        a.len() == b.len(),
        b.len() == c.len(),
    ensures
        be_value(xor_seq(a, c)) <= be_value(xor_seq(a, b)) + be_value(xor_seq(b, c)),
{
    assert forall|i: int| 0 <= i < a.len() implies xor_seq(a, c)[i] == xor_seq(
        xor_seq(a, b),
        xor_seq(b, c),
    )[i] by {
        let x = a[i];
        let y = b[i];
        let z = c[i];
        assert(x ^ z == (x ^ y) ^ (y ^ z)) by (bit_vector);
    }
    assert(xor_seq(a, c) =~= xor_seq(xor_seq(a, b), xor_seq(b, c)));
    lemma_xor_le_sum(xor_seq(a, b), xor_seq(b, c));
}

/// Distances to one target differ for different identifiers.
pub proof fn lemma_xor_injective(t: Seq<u8>, a: Seq<u8>, b: Seq<u8>)
    requires
        t.len() == a.len(),
        a.len() == b.len(),
        xor_seq(t, a) == xor_seq(t, b),
    ensures
        a == b,
{
    assert forall|i: int| 0 <= i < a.len() implies a[i] == b[i] by {
        let x = t[i];
        let y = a[i];
        let z = b[i];
        assert(xor_seq(t, a)[i] == t[i] ^ a[i]);
        assert(xor_seq(t, b)[i] == t[i] ^ b[i]);
        assert(xor_seq(t, a)[i] == xor_seq(t, b)[i]);
        assert(x ^ y == x ^ z);
        assert(y == z) by (bit_vector)
            requires
                x ^ y == x ^ z,
        ;
    }
    assert(a =~= b);
}

/// Decoding the hexadecimal form of an identifier gives the identifier back.
pub proof fn lemma_hex_round_trip(x: Seq<u8>)
    requires
        x.len() == ID_LENGTH,
    ensures
        is_hex_id(hex_of(x)),
        decode_hex_id(hex_of(x)) == x,
{
    let h = hex_of(x);
    assert forall|n: u8| n < 16 implies hex_value(#[trigger] hex_digit(n)) == Some(n) by {
        if n < 10 {
            assert(((n + 48) as u8) as char as u32 == n + 48);
        } else {
            assert(((n + 87) as u8) as char as u32 == n + 87);
        }
    }
    assert forall|i: int| 0 <= i < h.len() implies hex_value(h[i]) is Some by {
        let b = x[i / 2];
        assert(b >> 4u8 < 16u8) by (bit_vector);
        assert(b & 15u8 < 16u8) by (bit_vector);
    }
    assert forall|j: int| 0 <= j < ID_LENGTH implies decode_hex_id(h)[j] == x[j] by {
        let b = x[j];
        assert(b >> 4u8 < 16u8) by (bit_vector);
        assert(b & 15u8 < 16u8) by (bit_vector);
        assert((2 * j) / 2 == j && (2 * j + 1) / 2 == j && (2 * j) % 2 == 0 && (2 * j + 1) % 2
            == 1);
        let hi = b >> 4u8;
        let lo = b & 15u8;
        assert(hi as u16 * 16 + lo as u16 == b as u16) by (bit_vector)
            requires
                hi == b >> 4u8,
                lo == b & 15u8,
        ;
    }
    assert(decode_hex_id(h) =~= x);
}

/// Hashing the same payload twice gives the same identifier.
pub proof fn lemma_content_id_deterministic(a: Seq<u8>, b: Seq<u8>)
    requires
        a == b,
    ensures
        content_id(a) == content_id(b),
{
}

/// Scanning from `i` for a differing byte settles the order of `a` and `b`.
proof fn lemma_lex_scan(a: Seq<u8>, b: Seq<u8>, i: int)
    requires
        a.len() == b.len(),
        0 <= i <= a.len(),
        forall|k: int| 0 <= k < i ==> a[k] == b[k],
    ensures
        a == b || lex_lt(a, b) || lex_lt(b, a),
    decreases a.len() - i,
{
    if i == a.len() {
        assert(a =~= b);
    } else if a[i] == b[i] {
        lemma_lex_scan(a, b, i + 1);
    } else if a[i] < b[i] {
        assert(lex_lt(a, b));
    } else {
        assert(lex_lt(b, a));
    }
}

/// Any two byte strings of one length are equal or ordered one way.
pub proof fn lemma_lex_total(a: Seq<u8>, b: Seq<u8>)
    requires
        a.len() == b.len(),
    ensures
        a == b || lex_lt(a, b) || lex_lt(b, a),
{
    lemma_lex_scan(a, b, 0);
}

/// The byte order is a strict order: irreflexive, asymmetric and
/// transitive.
pub proof fn lemma_lex_strict_order(a: Seq<u8>, b: Seq<u8>, c: Seq<u8>)
    ensures
        !lex_lt(a, a),
        lex_lt(a, b) ==> !lex_lt(b, a),
        lex_lt(a, b) && lex_lt(b, c) ==> lex_lt(a, c),
{
    if lex_lt(a, b) {
        let i = choose|i: int|
            0 <= i < a.len() && i < b.len() && a[i] < b[i] && (forall|k: int|
                0 <= k < i ==> a[k] == b[k]);
        if lex_lt(b, a) {
            let j = choose|j: int|
                0 <= j < b.len() && j < a.len() && b[j] < a[j] && (forall|k: int|
                    0 <= k < j ==> b[k] == a[k]);
            if i < j {
                assert(b[i] == a[i]);
            } else if j < i {
                assert(a[j] == b[j]);
            }
        }
        if lex_lt(b, c) {
            let j = choose|j: int|
                0 <= j < b.len() && j < c.len() && b[j] < c[j] && (forall|k: int|
                    0 <= k < j ==> b[k] == c[k]);
            let m = if i < j {
                i
            } else {
                j
            };
            assert(a[m] < c[m]);
            assert(forall|k: int| 0 <= k < m ==> a[k] == c[k]);
        }
    }
}

/// On byte strings of one length the byte order is the order of their
/// big-endian values, so "nearer" means the same under both readings of a
/// distance.
pub proof fn lemma_lex_is_numeric(a: Seq<u8>, b: Seq<u8>)
    requires
        a.len() == b.len(),
    ensures
        lex_lt(a, b) <==> be_value(a) < be_value(b),
    decreases a.len(),
{
    if a.len() == 0 {
        assert(!lex_lt(a, b));
    } else {
        let a1 = a.drop_last();
        let b1 = b.drop_last();
        let n = a.len() - 1;
        lemma_lex_is_numeric(a1, b1);
        lemma_lex_total(a1, b1);
        let va = be_value(a1);
        let vb = be_value(b1);
        let la = a.last() as nat;
        let lb = b.last() as nat;
        if a1 == b1 {
            assert forall|k: int| 0 <= k < n implies a[k] == b[k] by {
                assert(a1[k] == b1[k]);
            }
            if la < lb {
                assert(lex_lt(a, b));
            } else if lex_lt(a, b) {
                let i = choose|i: int|
                    0 <= i < a.len() && i < b.len() && a[i] < b[i] && (forall|k: int|
                        0 <= k < i ==> a[k] == b[k]);
                assert(i == n);
            }
        } else if lex_lt(a1, b1) {
            let i = choose|i: int|
                0 <= i < a1.len() && i < b1.len() && a1[i] < b1[i] && (forall|k: int|
                    0 <= k < i ==> a1[k] == b1[k]);
            assert(a[i] == a1[i] && b[i] == b1[i]);
            assert forall|k: int| 0 <= k < i implies a[k] == b[k] by {
                assert(a1[k] == b1[k]);
            }
            assert(lex_lt(a, b));
            assert(va * 256 + la < vb * 256 + lb) by (nonlinear_arith)
                requires
                    va < vb,
                    la < 256,
            ;
        } else {
            let i = choose|i: int|
                0 <= i < b1.len() && i < a1.len() && b1[i] < a1[i] && (forall|k: int|
                    0 <= k < i ==> b1[k] == a1[k]);
            assert(a[i] == a1[i] && b[i] == b1[i]);
            assert forall|k: int| 0 <= k < i implies b[k] == a[k] by {
                assert(b1[k] == a1[k]);
            }
            lemma_lex_is_numeric(b1, a1);
            assert(lex_lt(b, a));
            lemma_lex_strict_order(a, b, a);
            assert(vb * 256 + lb < va * 256 + la) by (nonlinear_arith)
                requires
                    vb < va,
                    lb < 256,
            ;
        }
    }
}

impl PartialEq for KademliaID {
    fn eq(&self, other: &Self) -> (r: bool) {
        self.equals(other)
    }
}

impl vstd::std_specs::cmp::PartialEqSpecImpl for KademliaID {
    open spec fn obeys_eq_spec() -> bool {
        true
    }

    open spec fn eq_spec(&self, other: &KademliaID) -> bool {
        self@ == other@
    }
}

/// The order of identifiers as an `Ordering`.
pub open spec fn id_ordering(a: Seq<u8>, b: Seq<u8>) -> core::cmp::Ordering {
    if lex_lt(a, b) {
        core::cmp::Ordering::Less
    } else if lex_lt(b, a) {
        core::cmp::Ordering::Greater
    } else {
        core::cmp::Ordering::Equal
    }
}

impl PartialOrd for KademliaID {
    fn partial_cmp(&self, other: &Self) -> (r: Option<core::cmp::Ordering>) {
        if self.less(other) {
            Some(core::cmp::Ordering::Less)
        } else if other.less(self) {
            Some(core::cmp::Ordering::Greater)
        } else {
            Some(core::cmp::Ordering::Equal)
        }
    }
}

impl vstd::std_specs::cmp::PartialOrdSpecImpl for KademliaID {
    open spec fn obeys_partial_cmp_spec() -> bool {
        true
    }

    open spec fn partial_cmp_spec(&self, other: &KademliaID) -> Option<core::cmp::Ordering> {
        Some(id_ordering(self@, other@))
    }
}

} // verus!
