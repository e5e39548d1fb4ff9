//! Ordering of names.
//!
//! Names are ordered as Rust orders strings: lexicographically by the bytes
//! of their UTF-8 encoding.

use vstd::prelude::*;
use vstd::utf8::char_is_scalar;
use vstd::utf8::char_u32_cast;
use vstd::utf8::decode_utf8;
use vstd::utf8::encode_scalar;
use vstd::utf8::encode_utf8;
use vstd::utf8::encode_utf8_decode_utf8;
use vstd::utf8::has_width_1_encoding;
use vstd::utf8::is_ascii_chars;
use vstd::utf8::is_ascii_chars_encode_utf8;
use vstd::utf8::leading_byte_width_2;
use vstd::utf8::leading_byte_width_3;
use vstd::utf8::leading_byte_width_4;

verus! {

/// The first index at or after `i` where `a` and `b` stop agreeing: either
/// one of them ends there or their bytes differ.
pub open spec fn mismatch(a: Seq<u8>, b: Seq<u8>, i: int) -> int
    decreases a.len() - i,
{
    if 0 <= i < a.len() && i < b.len() && a[i] == b[i] {
        mismatch(a, b, i + 1)
    } else {
        i
    }
}

/// Strict lexicographic order on byte strings: at the first place where the
/// two stop agreeing, `a` has ended or holds the smaller byte.
pub open spec fn bytes_lt(a: Seq<u8>, b: Seq<u8>) -> bool {
    let k = mismatch(a, b, 0);
    k < b.len() && (k >= a.len() || a[k] < b[k])
}

/// Strict order on names: the byte order of their UTF-8 encodings.
pub open spec fn name_lt(a: Seq<char>, b: Seq<char>) -> bool {
    bytes_lt(encode_utf8(a), encode_utf8(b))
}

/// A sequence of names in strictly ascending order, so without repeats.
pub open spec fn sorted_names(s: Seq<Seq<char>>) -> bool {
    forall|i: int, j: int| 0 <= i < j < s.len() ==> name_lt(#[trigger] s[i], #[trigger] s[j])
}

/// The views of a vector of strings.
pub open spec fn names_of(v: Seq<String>) -> Seq<Seq<char>> {
    Seq::new(v.len(), |i: int| v[i]@)
}

/// What `mismatch` returns, stated without recursion.
pub proof fn lemma_mismatch(a: Seq<u8>, b: Seq<u8>, i: int)
    requires
        0 <= i <= a.len(),
        i <= b.len(),
    ensures
        i <= mismatch(a, b, i) <= a.len(),
        mismatch(a, b, i) <= b.len(),
        forall|j: int| i <= j < mismatch(a, b, i) ==> a[j] == b[j],
        mismatch(a, b, i) < a.len() && mismatch(a, b, i) < b.len() ==> a[mismatch(a, b, i)]
            != b[mismatch(a, b, i)],
    decreases a.len() - i,
{
    if i < a.len() && i < b.len() && a[i] == b[i] {
        lemma_mismatch(a, b, i + 1);
    }
}

/// An index up to which `a` and `b` agree, and at which they stop agreeing,
/// is the first mismatch.
pub proof fn lemma_mismatch_is(a: Seq<u8>, b: Seq<u8>, k: int)
    requires
        0 <= k <= a.len(),
        k <= b.len(),
        forall|j: int| 0 <= j < k ==> a[j] == b[j],
        k < a.len() && k < b.len() ==> a[k] != b[k],
    ensures
        mismatch(a, b, 0) == k,
{
    lemma_mismatch(a, b, 0);
}

/// No byte string is below itself.
pub proof fn lemma_bytes_lt_irreflexive(a: Seq<u8>)
    ensures
        !bytes_lt(a, a),
{
    lemma_mismatch_is(a, a, a.len() as int);
}

/// The byte order is transitive.
pub proof fn lemma_bytes_lt_transitive(a: Seq<u8>, b: Seq<u8>, c: Seq<u8>)
    requires
        bytes_lt(a, b),
        bytes_lt(b, c),
    ensures
        bytes_lt(a, c),
{
    lemma_mismatch(a, b, 0);
    lemma_mismatch(b, c, 0);
    let k1 = mismatch(a, b, 0);
    let k2 = mismatch(b, c, 0);
    let k = if k1 <= k2 { k1 } else { k2 };
    lemma_mismatch_is(a, c, k);
}

/// Two byte strings are equal or one is below the other.
pub proof fn lemma_bytes_lt_total(a: Seq<u8>, b: Seq<u8>)
    ensures
        a == b || bytes_lt(a, b) || bytes_lt(b, a),
{
    lemma_mismatch(a, b, 0);
    let k = mismatch(a, b, 0);
    lemma_mismatch_is(b, a, k);
    if k == a.len() && k == b.len() {
        assert(a =~= b);
    }
}

/// No name is below itself.
pub proof fn lemma_name_lt_irreflexive(a: Seq<char>)
    ensures
        !name_lt(a, a),
{
    lemma_bytes_lt_irreflexive(encode_utf8(a));
}

/// A name is not both below and above another.
pub proof fn lemma_name_lt_asymmetric(a: Seq<char>, b: Seq<char>)
    requires
        name_lt(a, b),
    ensures
        !name_lt(b, a),
        a != b,
{
    if name_lt(b, a) {
        lemma_name_lt_transitive(a, b, a);
    }
    lemma_name_lt_irreflexive(a);
}

/// The order on names is transitive.
pub proof fn lemma_name_lt_transitive(a: Seq<char>, b: Seq<char>, c: Seq<char>)
    requires
        name_lt(a, b),
        name_lt(b, c),
    ensures
        name_lt(a, c),
{
    lemma_bytes_lt_transitive(encode_utf8(a), encode_utf8(b), encode_utf8(c));
}

/// Two names are equal or one is below the other.
pub proof fn lemma_name_lt_total(a: Seq<char>, b: Seq<char>)
    ensures
        a == b || name_lt(a, b) || name_lt(b, a),
{
    lemma_bytes_lt_total(encode_utf8(a), encode_utf8(b));
    if encode_utf8(a) == encode_utf8(b) {
        encode_utf8_decode_utf8(a);
        encode_utf8_decode_utf8(b);
        assert(decode_utf8(encode_utf8(a)) == decode_utf8(encode_utf8(b)));
    }
}

/// Every byte is below 128.
pub open spec fn ascii_bytes(s: Seq<u8>) -> bool {
    forall|i: int| 0 <= i < s.len() ==> #[trigger] s[i] < 128
}

/// A text whose encoding holds only bytes below 128 is made of ASCII
/// characters, and its encoding holds one byte for each of them.
pub proof fn lemma_ascii_text(text: Seq<char>)
    requires
        ascii_bytes(encode_utf8(text)),
    ensures
        is_ascii_chars(text),
        encode_utf8(text).len() == text.len(),
        forall|i: int| 0 <= i < text.len() ==> #[trigger] encode_utf8(text)[i] == text[i] as u8,
    decreases text.len(),
{
    if text.len() > 0 {
        let scalar = text[0] as u32;
        let head = encode_scalar(scalar);
        let rest = text.drop_first();
        let tail = encode_utf8(rest);
        let all = encode_utf8(text);
        assert(all == head + tail);
        char_is_scalar(text[0]);
        assert(all[0] == head[0]);
        assert(all[0] < 128);
        assert(leading_byte_width_2(scalar) >= 128 && leading_byte_width_3(scalar) >= 128
            && leading_byte_width_4(scalar) >= 128) by (bit_vector);
        assert(has_width_1_encoding(scalar));
        assert forall|i: int| 0 <= i < tail.len() implies #[trigger] tail[i] < 128 by {
            assert(all[i + 1] == tail[i]);
        }
        lemma_ascii_text(rest);
        char_u32_cast(text[0], scalar);
        assert forall|i: int| 0 <= i < text.len() implies '\0' <= #[trigger] text[i]
            <= '\u{7f}' by {
            if i > 0 {
                assert(rest[i - 1] == text[i]);
            }
        }
        is_ascii_chars_encode_utf8(text);
    }
}

/// Says whether `a` comes strictly before `b`.
pub fn name_less(a: &str, b: &str) -> (r: bool)
    ensures
        r == name_lt(a@, b@),
{
    let x = a.as_bytes();
    let y = b.as_bytes();
    let mut i: usize = 0;
    while i < x.len() && i < y.len() && x[i] == y[i]
        invariant
            i <= x@.len(),
            i <= y@.len(),
            mismatch(x@, y@, 0) == mismatch(x@, y@, i as int),
        decreases x@.len() - i,
    {
        i += 1;
    }
    i < y.len() && (i >= x.len() || x[i] < y[i])
}

/// Says whether `a` and `b` are the same name.
pub fn name_equal(a: &str, b: &str) -> (r: bool)
    ensures
        r == (a@ == b@),
{
    let x = a.as_bytes();
    let y = b.as_bytes();
    if x.len() != y.len() {
        return false;
    }
    let mut i: usize = 0;
    while i < x.len()
        invariant
            i <= x@.len(),
            x@.len() == y@.len(),
            x@ == encode_utf8(a@),
            y@ == encode_utf8(b@),
            forall|j: int| 0 <= j < i ==> x@[j] == y@[j],
        decreases x@.len() - i,
    {
        if x[i] != y[i] {
            return false;
        }
        i += 1;
    }
    proof {
        assert(x@ =~= y@);
        encode_utf8_decode_utf8(a@);
        encode_utf8_decode_utf8(b@);
    }
    true
}

} // verus!
