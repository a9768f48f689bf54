//! The hash function of the tree: SHA-256, written out in upper-case
//! hexadecimal, and the two ways in which the tree applies it.
//!
//! A digest is a string of 64 hexadecimal digits. A leaf is hashed from the
//! hexadecimal spelling of its item; an internal node is hashed from the
//! digests of its two children, the smaller one first, so that the result does
//! not depend on the order in which the children are given.

use sha2::Digest;
use vstd::prelude::*;
use vstd::string::*;
use vstd::utf8::encode_utf8;

verus! {

/// The SHA-256 digest of a byte string.
///
/// The algorithm is not spelled out: the library only relies on the digest
/// being a fixed function of the bytes.
pub uninterp spec fn sha256(data: Seq<u8>) -> [u8; 32];

/// The number of hexadecimal digits in a digest as the tree stores it.
pub const DIGEST_HEX_LEN: usize = 64;

/// Calls `sha2::Sha256::digest`.
///
/// Trusted: the 32 bytes that come back are the SHA-256 digest of `data`, and
/// depend on nothing but `data`.
#[verifier::external_body]
fn sha256_digest(data: &[u8]) -> (out: [u8; 32])
    ensures
        out == sha256(data@),
{
    sha2::Sha256::digest(data).into()
}

/// The upper-case hexadecimal digit for a value below 16.
pub open spec fn hex_digit(n: int) -> char {
    if n < 10 {
        (48 + n) as u8 as char
    } else {
        (55 + n) as u8 as char
    }
}

/// The bytes of `bytes` in upper-case hexadecimal, two digits for each byte,
/// the high half first.
pub open spec fn hex_upper(bytes: Seq<u8>) -> Seq<char> {
    Seq::new(
        2 * bytes.len(),
        |i: int|
            if i % 2 == 0 {
                hex_digit(bytes[i / 2] as int / 16)
            } else {
                hex_digit(bytes[i / 2] as int % 16)
            },
    )
}

/// Whether `c` is an upper-case hexadecimal digit.
pub open spec fn is_hex_digit(c: char) -> bool {
    ('0' <= c && c <= '9') || ('A' <= c && c <= 'F')
}

/// Whether `s` has the form of a digest: 64 upper-case hexadecimal digits.
pub open spec fn is_digest(s: Seq<char>) -> bool {
    &&& s.len() == DIGEST_HEX_LEN
    &&& forall|i: int| 0 <= i < s.len() ==> is_hex_digit(#[trigger] s[i])
}

/// What is hashed for a leaf: the item in upper-case hexadecimal without a
/// leading zero, as ASCII bytes (`0` is `"0"`, `10` is `"A"`, `255` is `"FF"`).
pub open spec fn leaf_preimage(item: u8) -> Seq<u8> {
    if item < 16 {
        seq![hex_digit(item as int) as u8]
    } else {
        seq![hex_digit(item as int / 16) as u8, hex_digit(item as int % 16) as u8]
    }
}

/// The digest of a leaf that holds `item`.
pub open spec fn leaf_hash(item: u8) -> Seq<char> {
    hex_upper(sha256(leaf_preimage(item))@)
}

/// Whether the bytes of `a` from position `i` on come strictly before those of
/// `b` from position `i` on, in lexicographic order.
pub open spec fn lex_lt_from(a: Seq<u8>, b: Seq<u8>, i: int) -> bool
    decreases a.len() - i,
{
    if i < 0 || i >= b.len() {
        false
    } else if i >= a.len() {
        true
    } else if a[i] != b[i] {
        a[i] < b[i]
    } else {
        lex_lt_from(a, b, i + 1)
    }
}

/// Lexicographic order on byte strings: the order of `str` in Rust.
pub open spec fn lex_lt(a: Seq<u8>, b: Seq<u8>) -> bool {
    lex_lt_from(a, b, 0)
}

/// What is hashed for an internal node: the UTF-8 bytes of the two child
/// digests, the lexicographically smaller digest first.
pub open spec fn pair_preimage(a: Seq<char>, b: Seq<char>) -> Seq<u8> {
    let x = encode_utf8(a);
    let y = encode_utf8(b);
    if lex_lt(y, x) {
        y + x
    } else {
        x + y
    }
}

/// The digest of an internal node whose children have the digests `a` and `b`.
pub open spec fn internal_hash(a: Seq<char>, b: Seq<char>) -> Seq<char> {
    hex_upper(sha256(pair_preimage(a, b))@)
}

/// Thirty-two bytes in hexadecimal have the form of a digest.
pub proof fn lemma_hex_upper_is_digest(bytes: Seq<u8>)
    requires
        bytes.len() == 32,
    ensures
        is_digest(hex_upper(bytes)),
{
    let s = hex_upper(bytes);
    assert forall|i: int| 0 <= i < s.len() implies is_hex_digit(#[trigger] s[i]) by {
        let n = if i % 2 == 0 {
            bytes[i / 2] as int / 16
        } else {
            bytes[i / 2] as int % 16
        };
        assert(0 <= n < 16);
        assert(s[i] == hex_digit(n));
    }
}

/// The digest of a leaf and the digest of an internal node have the form of a
/// digest, whatever is hashed.
pub proof fn lemma_hashes_are_digests(item: u8, a: Seq<char>, b: Seq<char>)
    ensures
        is_digest(leaf_hash(item)),
        is_digest(internal_hash(a, b)),
{
    lemma_hex_upper_is_digest(sha256(leaf_preimage(item))@);
    lemma_hex_upper_is_digest(sha256(pair_preimage(a, b))@);
}

/// Two byte strings of which neither comes before the other agree from
/// position `i` on.
pub proof fn lemma_lex_total_from(a: Seq<u8>, b: Seq<u8>, i: int)
    requires
        0 <= i,
        !lex_lt_from(a, b, i),
        !lex_lt_from(b, a, i),
    ensures
        a.len() == b.len() || (i >= a.len() && i >= b.len()),
        forall|j: int| i <= j < a.len() ==> a[j] == b[j],
    decreases a.len() - i,
{
    if i < a.len() && i < b.len() {
        lemma_lex_total_from(a, b, i + 1);
    }
}

/// The lexicographic order is total: of two different byte strings one comes
/// before the other.
pub proof fn lemma_lex_total(a: Seq<u8>, b: Seq<u8>)
    requires
        !lex_lt(a, b),
        !lex_lt(b, a),
    ensures
        a == b,
{
    lemma_lex_total_from(a, b, 0);
    assert(a =~= b);
}

/// The lexicographic order is asymmetric.
pub proof fn lemma_lex_asymmetric_from(a: Seq<u8>, b: Seq<u8>, i: int)
    requires
        0 <= i,
        lex_lt_from(a, b, i),
    ensures
        !lex_lt_from(b, a, i),
    decreases a.len() - i,
{
    if i < a.len() && i < b.len() && a[i] == b[i] {
        lemma_lex_asymmetric_from(a, b, i + 1);
    }
}

/// The digest of an internal node does not depend on the order of its
/// children.
pub proof fn lemma_internal_hash_symmetric(a: Seq<char>, b: Seq<char>)
    ensures
        pair_preimage(a, b) == pair_preimage(b, a),
        internal_hash(a, b) == internal_hash(b, a),
{
    let x = encode_utf8(a);
    let y = encode_utf8(b);
    if lex_lt(y, x) {
        lemma_lex_asymmetric_from(y, x, 0);
    } else if lex_lt(x, y) {
    } else {
        lemma_lex_total(x, y);
    }
}

/// Whether `a` comes strictly before `b` in lexicographic order.
pub fn bytes_less(a: &[u8], b: &[u8]) -> (less: bool)
    ensures
        less == lex_lt(a@, b@),
{
    let mut i: usize = 0;
    while i < a.len() && i < b.len()
        invariant
            i <= a.len(),
            i <= b.len(),
            lex_lt(a@, b@) == lex_lt_from(a@, b@, i as int),
        decreases a.len() - i,
    {
        if a[i] != b[i] {
            return a[i] < b[i];
        }
        i = i + 1;
    }
    i < b.len()
}

/// The upper-case hexadecimal digit for `n`, as a string of one character.
fn hex_digit_str(n: u8) -> (s: &'static str)
    requires
        n < 16,
    ensures
        s@ == seq![hex_digit(n as int)],
{
    proof {
        reveal_strlit("0");
        reveal_strlit("1");
        reveal_strlit("2");
        reveal_strlit("3");
        reveal_strlit("4");
        reveal_strlit("5");
        reveal_strlit("6");
        reveal_strlit("7");
        reveal_strlit("8");
        reveal_strlit("9");
        reveal_strlit("A");
        reveal_strlit("B");
        reveal_strlit("C");
        reveal_strlit("D");
        reveal_strlit("E");
        reveal_strlit("F");
    }
    let s = match n {
        0 => "0",
        1 => "1",
        2 => "2",
        3 => "3",
        4 => "4",
        5 => "5",
        6 => "6",
        7 => "7",
        8 => "8",
        9 => "9",
        10 => "A",
        11 => "B",
        12 => "C",
        13 => "D",
        14 => "E",
        _ => "F",
    };
    assert(s@ =~= seq![hex_digit(n as int)]);
    s
}

/// Writes `bytes` in upper-case hexadecimal.
pub fn to_hex(bytes: &[u8]) -> (hex: String)
    ensures
        hex@ == hex_upper(bytes@),
{
    let mut hex = String::new();
    let mut i: usize = 0;
    while i < bytes.len()
        invariant
            i <= bytes.len(),
            hex@ == hex_upper(bytes@.take(i as int)),
        decreases bytes.len() - i,
    {
        let b: u8 = bytes[i];
        let ghost before = hex@;
        hex.append(hex_digit_str(b / 16));
        hex.append(hex_digit_str(b % 16));
        proof {
            let done = bytes@.take(i as int);
            let next = bytes@.take(i as int + 1);
            assert forall|k: int| 0 <= k < 2 * next.len() implies hex@[k] == hex_upper(next)[k] by {
                if k < 2 * i {
                    assert(hex@[k] == before[k]);
                    assert(next[k / 2] == done[k / 2]);
                } else {
                    assert(next[k / 2] == b);
                }
            }
            assert(hex@ =~= hex_upper(next));
        }
        i = i + 1;
    }
    assert(bytes@.take(i as int) =~= bytes@);
    hex
}

/// The ASCII code of the upper-case hexadecimal digit for `n`.
fn hex_digit_byte(n: u8) -> (b: u8)
    requires
        n < 16,
    ensures
        b == hex_digit(n as int) as u8,
{
    if n < 10 {
        48 + n
    } else {
        55 + n
    }
}

/// The digest of a leaf that holds `item`.
pub fn hash_leaf(item: u8) -> (hash: String)
    ensures
        hash@ == leaf_hash(item),
        is_digest(hash@),
{
    proof {
        lemma_hashes_are_digests(item, Seq::empty(), Seq::empty());
    }
    let mut preimage: Vec<u8> = Vec::new();
    if item >= 16 {
        preimage.push(hex_digit_byte(item / 16));
    }
    preimage.push(hex_digit_byte(item % 16));
    assert(preimage@ =~= leaf_preimage(item));
    let digest = sha256_digest(preimage.as_slice());
    to_hex(digest.as_slice())
}

/// Appends the bytes of `src` to `dst`.
fn append_bytes(dst: &mut Vec<u8>, src: &[u8])
    ensures
        final(dst)@ == old(dst)@ + src@,
{
    let mut i: usize = 0;
    while i < src.len()
        invariant
            i <= src.len(),
            dst@ == old(dst)@ + src@.take(i as int),
        decreases src.len() - i,
    {
        dst.push(src[i]);
        assert(src@.take(i as int + 1) =~= src@.take(i as int).push(src@[i as int]));
        assert(dst@ =~= old(dst)@ + src@.take(i as int + 1));
        i = i + 1;
    }
    assert(src@.take(i as int) =~= src@);
}

/// The digest of an internal node whose children have the digests `a` and
/// `b`, in either order.
pub fn hash_pair(a: &str, b: &str) -> (hash: String)
    ensures
        hash@ == internal_hash(a@, b@),
        is_digest(hash@),
{
    proof {
        lemma_hashes_are_digests(0, a@, b@);
    }
    let x = a.as_bytes();
    let y = b.as_bytes();
    let mut preimage: Vec<u8> = Vec::new();
    if bytes_less(y, x) {
        append_bytes(&mut preimage, y);
        append_bytes(&mut preimage, x);
    } else {
        append_bytes(&mut preimage, x);
        append_bytes(&mut preimage, y);
    }
    assert(preimage@ =~= pair_preimage(a@, b@));
    let digest = sha256_digest(preimage.as_slice());
    to_hex(digest.as_slice())
}

/// Whether the digest `a` comes strictly after the digest `b`, in the order of
/// `str`: lexicographic on the UTF-8 bytes.
pub fn digest_greater(a: &str, b: &str) -> (greater: bool)
    ensures
        greater == lex_lt(encode_utf8(b@), encode_utf8(a@)),
{
    bytes_less(b.as_bytes(), a.as_bytes())
}

} // verus!
