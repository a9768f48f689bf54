//! Tampering with a path. A path with one element changed can only still be
//! accepted if SHA-256 gives two different byte strings the same digest.

use crate::hash::{
    hex_digit, hex_upper, internal_hash, is_digest, leaf_hash, lemma_hashes_are_digests,
    lemma_internal_hash_symmetric, pair_preimage, sha256, DIGEST_HEX_LEN,
};
use crate::path::{accepts, replay};
use crate::theorems::{lemma_build_wf, lemma_path_of_digests, theorem_inclusion};
use crate::tree::build;
use vstd::prelude::*;
use vstd::utf8::{encode_utf8, encode_utf8_decode_utf8, is_ascii_chars_encode_utf8};

verus! {

/// Whether there are two different byte strings with the same SHA-256 digest.
pub open spec fn sha256_collides() -> bool {
    exists|x: Seq<u8>, y: Seq<u8>| #![trigger sha256(x), sha256(y)] x != y && sha256(x) == sha256(y)
}

/// The number of bytes of a string in UTF-8.
pub open spec fn utf8_len(s: Seq<char>) -> nat {
    encode_utf8(s).len()
}

/// Whether every element of the path takes 64 bytes in UTF-8.
pub open spec fn fixed_width(path: Seq<Seq<char>>) -> bool {
    forall|j: int| 0 <= j < path.len() ==> utf8_len(#[trigger] path[j]) == DIGEST_HEX_LEN
}

/// Different values below 16 have different hexadecimal digits.
pub proof fn lemma_hex_digit_injective(m: int, n: int)
    requires
        0 <= m < 16,
        0 <= n < 16,
        hex_digit(m) == hex_digit(n),
    ensures
        m == n,
{
    assert(hex_digit(m) as int == if m < 10 {
        48 + m
    } else {
        55 + m
    });
    assert(hex_digit(n) as int == if n < 10 {
        48 + n
    } else {
        55 + n
    });
}

/// Different byte strings are different in hexadecimal.
pub proof fn lemma_hex_upper_injective(x: Seq<u8>, y: Seq<u8>)
    requires
        hex_upper(x) == hex_upper(y),
    ensures
        x == y,
{
    assert(hex_upper(x).len() == 2 * x.len());
    assert(hex_upper(y).len() == 2 * y.len());
    assert forall|i: int| 0 <= i < x.len() implies x[i] == y[i] by {
        let a = x[i] as int;
        let b = y[i] as int;
        assert(hex_upper(x)[2 * i] == hex_digit(a / 16));
        assert(hex_upper(y)[2 * i] == hex_digit(b / 16));
        assert(hex_upper(x)[2 * i + 1] == hex_digit(a % 16));
        assert(hex_upper(y)[2 * i + 1] == hex_digit(b % 16));
        lemma_hex_digit_injective(a / 16, b / 16);
        lemma_hex_digit_injective(a % 16, b % 16);
    }
    assert(x =~= y);
}

/// Different strings have different UTF-8 bytes.
pub proof fn lemma_utf8_injective(a: Seq<char>, b: Seq<char>)
    requires
        encode_utf8(a) == encode_utf8(b),
    ensures
        a == b,
{
    encode_utf8_decode_utf8(a);
    encode_utf8_decode_utf8(b);
}

/// A digest takes 64 bytes in UTF-8.
pub proof fn lemma_digest_width(s: Seq<char>)
    requires
        is_digest(s),
    ensures
        utf8_len(s) == DIGEST_HEX_LEN,
{
    is_ascii_chars_encode_utf8(s);
}

/// Combined with the same digest, two different digests of the same width
/// give different bytes to hash.
pub proof fn lemma_pair_preimage_injective(a: Seq<char>, b: Seq<char>, c: Seq<char>)
    requires
        utf8_len(a) == utf8_len(b),
        utf8_len(a) == utf8_len(c),
        b != c,
    ensures
        pair_preimage(a, b) != pair_preimage(a, c),
{
    let x = encode_utf8(a);
    let y = encode_utf8(b);
    let z = encode_utf8(c);
    let n = x.len() as int;
    if y == z {
        lemma_utf8_injective(b, c);
    }
    let p = pair_preimage(a, b);
    let q = pair_preimage(a, c);
    if p == q {
        assert((x + y).subrange(0, n) =~= x);
        assert((x + y).subrange(n, 2 * n) =~= y);
        assert((y + x).subrange(0, n) =~= y);
        assert((y + x).subrange(n, 2 * n) =~= x);
        assert((x + z).subrange(0, n) =~= x);
        assert((x + z).subrange(n, 2 * n) =~= z);
        assert((z + x).subrange(0, n) =~= z);
        assert((z + x).subrange(n, 2 * n) =~= x);
        assert(p.subrange(0, n) == q.subrange(0, n));
        assert(p.subrange(n, 2 * n) == q.subrange(n, 2 * n));
        assert(y == z);
    }
}

/// Where combining one digest with two different digests of the same width
/// gives the same digest, SHA-256 collides.
pub proof fn lemma_internal_hash_collision(a: Seq<char>, b: Seq<char>, c: Seq<char>)
    requires
        utf8_len(a) == utf8_len(b),
        utf8_len(a) == utf8_len(c),
        b != c,
        internal_hash(a, b) == internal_hash(a, c),
    ensures
        sha256_collides(),
{
    let p = pair_preimage(a, b);
    let q = pair_preimage(a, c);
    lemma_pair_preimage_injective(a, b, c);
    lemma_hex_upper_injective(sha256(p)@, sha256(q)@);
    assert(sha256(p) =~= sha256(q));
    assert(p != q && sha256(p) == sha256(q));
}

/// Replaying a path of elements of the fixed width leads to a digest of that
/// width.
pub proof fn lemma_replay_width(path: Seq<Seq<char>>)
    requires
        path.len() >= 1,
        fixed_width(path),
    ensures
        utf8_len(replay(path)) == DIGEST_HEX_LEN,
{
    if path.len() == 1 {
        assert(utf8_len(path[0]) == DIGEST_HEX_LEN);
    } else {
        lemma_hashes_are_digests(0, replay(path.drop_last()), path.last());
        lemma_digest_width(replay(path));
    }
}

/// Two paths of the fixed width that differ in the element at `k` only lead,
/// from any length beyond `k` on, to different digests, unless SHA-256
/// collides.
pub proof fn lemma_replay_diverges(
    path: Seq<Seq<char>>,
    tampered: Seq<Seq<char>>,
    k: int,
    n: int,
)
    requires
        fixed_width(path),
        fixed_width(tampered),
        tampered.len() == path.len(),
        0 <= k < n <= path.len(),
        forall|j: int| 0 <= j < path.len() && j != k ==> tampered[j] == path[j],
        tampered[k] != path[k],
    ensures
        replay(path.take(n)) != replay(tampered.take(n)) || sha256_collides(),
    decreases n,
{
    let honest = path.take(n);
    let forged = tampered.take(n);
    if n == 1 {
        assert(honest[0] == path[0]);
        assert(forged[0] == tampered[0]);
    } else {
        assert(honest.drop_last() =~= path.take(n - 1));
        assert(forged.drop_last() =~= tampered.take(n - 1));
        assert(honest.last() == path[n - 1]);
        assert(forged.last() == tampered[n - 1]);
        let before = replay(path.take(n - 1));
        let forged_before = replay(tampered.take(n - 1));
        assert(fixed_width(path.take(n - 1)));
        assert(fixed_width(tampered.take(n - 1)));
        lemma_replay_width(path.take(n - 1));
        lemma_replay_width(tampered.take(n - 1));
        assert(utf8_len(path[n - 1]) == DIGEST_HEX_LEN);
        assert(utf8_len(tampered[n - 1]) == DIGEST_HEX_LEN);
        if n == k + 1 {
            assert(path.take(k) =~= tampered.take(k));
            if replay(honest) == replay(forged) {
                lemma_internal_hash_collision(before, path[k], tampered[k]);
            }
        } else {
            lemma_replay_diverges(path, tampered, k, n - 1);
            if before != forged_before && replay(honest) == replay(forged) {
                let sibling = path[n - 1];
                lemma_internal_hash_symmetric(before, sibling);
                lemma_internal_hash_symmetric(forged_before, sibling);
                lemma_internal_hash_collision(sibling, before, forged_before);
            }
        }
    }
}

/// Tamper sensitivity. Take a path of digests that is accepted for a root
/// digest, and change one of its elements into another string of the same
/// width, as flipping a bit does. The changed path is accepted for that root
/// digest only if SHA-256 collides.
pub proof fn theorem_tamper(
    path: Seq<Seq<char>>,
    tampered: Seq<Seq<char>>,
    k: int,
    root_hash: Seq<char>,
)
    requires
        forall|j: int| 0 <= j < path.len() ==> is_digest(#[trigger] path[j]),
        accepts(path, root_hash),
        tampered.len() == path.len(),
        0 <= k < path.len(),
        forall|j: int| 0 <= j < path.len() && j != k ==> tampered[j] == path[j],
        tampered[k] != path[k],
        utf8_len(tampered[k]) == DIGEST_HEX_LEN,
    ensures
        accepts(tampered, root_hash) ==> sha256_collides(),
{
    assert forall|j: int| 0 <= j < path.len() implies utf8_len(#[trigger] path[j])
        == DIGEST_HEX_LEN by {
        lemma_digest_width(path[j]);
    }
    assert forall|j: int| 0 <= j < tampered.len() implies utf8_len(#[trigger] tampered[j])
        == DIGEST_HEX_LEN by {
        if j != k {
            assert(tampered[j] == path[j]);
            lemma_digest_width(path[j]);
        }
    }
    lemma_replay_diverges(path, tampered, k, path.len() as int);
    assert(path.take(path.len() as int) =~= path);
    assert(tampered.take(path.len() as int) =~= tampered);
}

/// Tamper sensitivity, for the paths of a tree. Take the path that the tree
/// over a sequence of items has for one of them, and change one of its
/// elements into another string of the same width. The changed path is
/// accepted for the root digest of the tree only if SHA-256 collides.
pub proof fn theorem_tamper_in_tree(items: Seq<u8>, i: int, tampered: Seq<Seq<char>>, k: int)
    requires
        0 <= i < items.len(),
        tampered.len() == build(items).path_to(leaf_hash(items[i]))->0.len(),
        0 <= k < tampered.len(),
        forall|j: int|
            0 <= j < tampered.len() && j != k ==> tampered[j] == build(items).path_to(
                leaf_hash(items[i]),
            )->0[j],
        tampered[k] != build(items).path_to(leaf_hash(items[i]))->0[k],
        utf8_len(tampered[k]) == DIGEST_HEX_LEN,
    ensures
        accepts(tampered, build(items).hash()) ==> sha256_collides(),
{
    let tree = build(items);
    let target = leaf_hash(items[i]);
    theorem_inclusion(items, i);
    lemma_build_wf(items);
    lemma_path_of_digests(tree, target);
    theorem_tamper(tree.path_to(target)->0, tampered, k, tree.hash());
}

} // verus!
