//! The grammar of semantic version texts.
//!
//! A version text is `MAJOR.MINOR.PATCH`, optionally followed by `-` and a
//! pre-release tag, optionally followed by `+` and build metadata. The three
//! numbers are decimal numerals without leading zeros that fit in 64 bits.
//! A tag is a list of identifiers separated by dots, each a non-empty run of
//! ASCII letters, digits and hyphens; in a pre-release tag an identifier made
//! of digits alone has no leading zero. The grammar is stated over the bytes
//! of the text's UTF-8 encoding.

use vstd::prelude::*;
use vstd::utf8::encode_utf8;
use vstd::utf8::is_ascii_chars;
use crate::text::ascii_bytes;
use crate::text::lemma_ascii_text;

verus! {

pub const DOT: u8 = 46;

pub const DASH: u8 = 45;

pub const PLUS: u8 = 43;

pub const ZERO: u8 = 48;

/// The three numbers of a version.
#[derive(Clone, Copy, Debug, PartialEq, Eq, Structural)]
pub struct CoreVersion {
    pub major: u64,
    pub minor: u64,
    pub patch: u64,
}

/// An ASCII decimal digit.
pub open spec fn is_digit(b: u8) -> bool {
    48 <= b <= 57
}

/// A byte that may stand in an identifier: an ASCII letter, a digit or a hyphen.
pub open spec fn is_ident_byte(b: u8) -> bool {
    is_digit(b) || 65 <= b <= 90 || 97 <= b <= 122 || b == DASH
}

/// The first index at or after `i` that holds `c`, or the length of `s` when
/// there is none.
pub open spec fn first_at(s: Seq<u8>, c: u8, i: int) -> int
    decreases s.len() - i,
{
    if 0 <= i < s.len() && s[i] != c {
        first_at(s, c, i + 1)
    } else {
        i
    }
}

/// What a byte adds to a decimal numeral; a byte that is no digit adds nothing.
pub open spec fn digit_value(b: u8) -> nat {
    if is_digit(b) {
        (b - 48) as nat
    } else {
        0
    }
}

/// The number that a run of digits writes in base ten.
pub open spec fn decimal(s: Seq<u8>) -> nat
    decreases s.len(),
{
    if s.len() == 0 {
        0
    } else {
        decimal(s.drop_last()) * 10 + digit_value(s.last())
    }
}

/// A numeral: one digit or more, no leading zero, a value within 64 bits.
pub open spec fn is_numeral(s: Seq<u8>) -> bool {
    &&& s.len() > 0
    &&& forall|i: int| 0 <= i < s.len() ==> is_digit(#[trigger] s[i])
    &&& (s.len() > 1 ==> s[0] != ZERO)
    &&& decimal(s) <= u64::MAX
}

/// The value of a numeral, and nothing for any other text.
pub open spec fn numeral_value(s: Seq<u8>) -> Option<u64> {
    if is_numeral(s) {
        Some(decimal(s) as u64)
    } else {
        None
    }
}

/// One identifier of a tag. With `strict`, an identifier of digits alone
/// has no leading zero.
pub open spec fn is_identifier(s: Seq<u8>, strict: bool) -> bool {
    &&& s.len() > 0
    &&& forall|i: int| 0 <= i < s.len() ==> is_ident_byte(#[trigger] s[i])
    &&& (strict && s.len() > 1 && s[0] == ZERO ==> exists|i: int|
        0 <= i < s.len() && !is_digit(#[trigger] s[i]))
}

/// A tag: identifiers separated by single dots.
pub open spec fn is_identifier_list(s: Seq<u8>, strict: bool) -> bool
    decreases s.len(),
{
    let d = first_at(s, DOT, 0);
    if 0 <= d < s.len() {
        is_identifier(s.take(d), strict) && is_identifier_list(s.skip(d + 1), strict)
    } else {
        is_identifier(s, strict)
    }
}

/// The three numbers of `MAJOR.MINOR.PATCH`.
pub open spec fn parse_core(core: Seq<u8>) -> Option<CoreVersion> {
    let d1 = first_at(core, DOT, 0);
    let rest = core.skip(d1 + 1);
    let d2 = first_at(rest, DOT, 0);
    let major = numeral_value(core.take(d1));
    let minor = numeral_value(rest.take(d2));
    let patch = numeral_value(rest.skip(d2 + 1));
    if d1 < core.len() && d2 < rest.len() && major is Some && minor is Some && patch is Some {
        Some(CoreVersion { major: major->0, minor: minor->0, patch: patch->0 })
    } else {
        None
    }
}

/// The numbers of a well-formed version text, and nothing for any other
/// text. Build metadata starts after the first `+`; before it, the
/// pre-release tag starts after the first `-`.
pub open spec fn parse_bytes(s: Seq<u8>) -> Option<CoreVersion> {
    let p = first_at(s, PLUS, 0);
    let main = s.take(p);
    let h = first_at(main, DASH, 0);
    let pre_ok = h < main.len() ==> is_identifier_list(main.skip(h + 1), true);
    let build_ok = p < s.len() ==> is_identifier_list(s.skip(p + 1), false);
    if pre_ok && build_ok {
        parse_core(main.take(h))
    } else {
        None
    }
}

/// The numbers of a version text, read from its UTF-8 encoding.
pub open spec fn version_of(text: Seq<char>) -> Option<CoreVersion> {
    parse_bytes(encode_utf8(text))
}

/// What `first_at` returns, stated without recursion.
pub proof fn lemma_first_at(s: Seq<u8>, c: u8, i: int)
    requires
        0 <= i <= s.len(),
    ensures
        i <= first_at(s, c, i) <= s.len(),
        forall|j: int| i <= j < first_at(s, c, i) ==> s[j] != c,
        first_at(s, c, i) < s.len() ==> s[first_at(s, c, i)] == c,
    decreases s.len() - i,
{
    if i < s.len() && s[i] != c {
        lemma_first_at(s, c, i + 1);
    }
}

/// A prefix of a run of digits writes a number no greater than the whole run.
pub proof fn lemma_decimal_prefix(s: Seq<u8>, k: int)
    requires
        0 <= k <= s.len(),
    ensures
        decimal(s.take(k)) <= decimal(s),
    decreases s.len(),
{
    if k == s.len() {
        assert(s.take(k) =~= s);
    } else {
        lemma_decimal_prefix(s.drop_last(), k);
        assert(s.drop_last().take(k) =~= s.take(k));
    }
}

/// An index that holds `c`, or is the length, and is preceded by no `c` is
/// the first occurrence.
pub proof fn lemma_first_at_is(s: Seq<u8>, c: u8, k: int)
    requires
        0 <= k <= s.len(),
        forall|j: int| 0 <= j < k ==> s[j] != c,
        k < s.len() ==> s[k] == c,
    ensures
        first_at(s, c, 0) == k,
{
    lemma_first_at(s, c, 0);
}

/// Every byte of a tag is a dot or may stand in an identifier.
pub proof fn lemma_tag_bytes(s: Seq<u8>, strict: bool)
    requires
        is_identifier_list(s, strict),
    ensures
        forall|i: int| 0 <= i < s.len() ==> is_ident_byte(#[trigger] s[i]) || s[i] == DOT,
    decreases s.len(),
{
    let d = first_at(s, DOT, 0);
    lemma_first_at(s, DOT, 0);
    if d < s.len() {
        let head = s.take(d);
        let tail = s.skip(d + 1);
        lemma_tag_bytes(tail, strict);
        assert forall|i: int| 0 <= i < s.len() implies is_ident_byte(#[trigger] s[i]) || s[i]
            == DOT by {
            if i < d {
                assert(head[i] == s[i]);
            } else if i > d {
                assert(tail[i - d - 1] == s[i]);
            }
        }
    }
}

/// The text `a.b.c`, followed by `-` and `pre` if there is a pre-release
/// tag, followed by `+` and `build` if there is build metadata.
pub open spec fn version_text(
    a: Seq<u8>,
    b: Seq<u8>,
    c: Seq<u8>,
    pre: Option<Seq<u8>>,
    build: Option<Seq<u8>>,
) -> Seq<u8> {
    a + seq![DOT] + b + seq![DOT] + c + (match pre {
        Some(tag) => seq![DASH] + tag,
        None => Seq::empty(),
    }) + (match build {
        Some(tag) => seq![PLUS] + tag,
        None => Seq::empty(),
    })
}

/// Three numerals joined by dots, with or without well-formed tags, are a
/// version text, and its numbers are the values of the numerals.
pub proof fn lemma_version_text_parses(
    a: Seq<u8>,
    b: Seq<u8>,
    c: Seq<u8>,
    pre: Option<Seq<u8>>,
    build: Option<Seq<u8>>,
)
    requires
        is_numeral(a),
        is_numeral(b),
        is_numeral(c),
        pre is Some ==> is_identifier_list(pre->0, true),
        build is Some ==> is_identifier_list(build->0, false),
    ensures
        parse_bytes(version_text(a, b, c, pre, build)) == Some(
            CoreVersion {
                major: decimal(a) as u64,
                minor: decimal(b) as u64,
                patch: decimal(c) as u64,
            },
        ),
{
    let s = version_text(a, b, c, pre, build);
    let core = a + seq![DOT] + b + seq![DOT] + c;
    let dashed = match pre {
        Some(tag) => seq![DASH] + tag,
        None => Seq::empty(),
    };
    let main = core + dashed;
    if pre is Some {
        lemma_tag_bytes(pre->0, true);
    }
    assert forall|j: int| 0 <= j < core.len() implies is_digit(#[trigger] core[j]) || core[j]
        == DOT by {
        if j < a.len() {
            assert(core[j] == a[j]);
        } else if j == a.len() {
        } else if j < a.len() + 1 + b.len() {
            assert(core[j] == b[j - a.len() - 1]);
        } else if j == a.len() + 1 + b.len() {
        } else {
            assert(core[j] == c[j - a.len() - b.len() - 2]);
        }
    }
    assert forall|j: int| 0 <= j < main.len() implies main[j] != PLUS by {
        if j < core.len() {
            assert(main[j] == core[j]);
        } else if j > core.len() {
            assert(main[j] == pre->0[j - core.len() - 1]);
        }
    }
    assert forall|j: int| 0 <= j < main.len() implies s[j] == main[j] by {}
    lemma_first_at_is(s, PLUS, main.len() as int);
    assert(s.take(main.len() as int) =~= main);
    if build is Some {
        assert(s.skip(main.len() as int + 1) =~= build->0);
    }
    assert forall|j: int| 0 <= j < core.len() implies main[j] != DASH by {
        assert(main[j] == core[j]);
    }
    lemma_first_at_is(main, DASH, core.len() as int);
    assert(main.take(core.len() as int) =~= core);
    if pre is Some {
        assert(main.skip(core.len() as int + 1) =~= pre->0);
    }
    assert forall|j: int| 0 <= j < a.len() implies core[j] != DOT by {
        assert(core[j] == a[j]);
    }
    lemma_first_at_is(core, DOT, a.len() as int);
    let rest = core.skip(a.len() as int + 1);
    assert(rest =~= b + seq![DOT] + c);
    assert(core.take(a.len() as int) =~= a);
    assert forall|j: int| 0 <= j < b.len() implies rest[j] != DOT by {
        assert(rest[j] == b[j]);
    }
    lemma_first_at_is(rest, DOT, b.len() as int);
    assert(rest.take(b.len() as int) =~= b);
    assert(rest.skip(b.len() as int + 1) =~= c);
}

/// Every version text is three numerals joined by dots, with or without
/// well-formed tags.
pub proof fn lemma_version_text_form(s: Seq<u8>)
    requires
        parse_bytes(s) is Some,
    ensures
        exists|a: Seq<u8>, b: Seq<u8>, c: Seq<u8>, pre: Option<Seq<u8>>, build: Option<Seq<u8>>|
            {
                &&& #[trigger] version_text(a, b, c, pre, build) == s
                &&& is_numeral(a)
                &&& is_numeral(b)
                &&& is_numeral(c)
                &&& (pre is Some ==> is_identifier_list(pre->0, true))
                &&& (build is Some ==> is_identifier_list(build->0, false))
            },
{
    let p = first_at(s, PLUS, 0);
    lemma_first_at(s, PLUS, 0);
    let main = s.take(p);
    let h = first_at(main, DASH, 0);
    lemma_first_at(main, DASH, 0);
    let core = main.take(h);
    let d1 = first_at(core, DOT, 0);
    lemma_first_at(core, DOT, 0);
    let rest = core.skip(d1 + 1);
    let d2 = first_at(rest, DOT, 0);
    lemma_first_at(rest, DOT, 0);
    let a = core.take(d1);
    let b = rest.take(d2);
    let c = rest.skip(d2 + 1);
    let pre = if h < main.len() {
        Some(main.skip(h + 1))
    } else {
        None
    };
    let build = if p < s.len() {
        Some(s.skip(p + 1))
    } else {
        None
    };
    assert(rest =~= b + seq![DOT] + c);
    assert(core =~= a + seq![DOT] + rest);
    assert(core =~= a + seq![DOT] + b + seq![DOT] + c);
    let dashed = match pre {
        Some(tag) => seq![DASH] + tag,
        None => Seq::empty(),
    };
    assert(main =~= core + dashed);
    let plussed = match build {
        Some(tag) => seq![PLUS] + tag,
        None => Seq::empty(),
    };
    assert(s =~= main + plussed);
    assert(version_text(a, b, c, pre, build) =~= s);
}

/// A version text is made of ASCII characters, and its encoding holds one
/// byte for each of them.
pub proof fn lemma_version_is_ascii(text: Seq<char>)
    requires
        version_of(text) is Some,
    ensures
        is_ascii_chars(text),
        encode_utf8(text).len() == text.len(),
        forall|i: int| 0 <= i < text.len() ==> #[trigger] encode_utf8(text)[i] == text[i] as u8,
{
    let s = encode_utf8(text);
    lemma_version_text_form(s);
    let (a, b, c, pre, build) = choose|
        a: Seq<u8>,
        b: Seq<u8>,
        c: Seq<u8>,
        pre: Option<Seq<u8>>,
        build: Option<Seq<u8>>,
    |
        {
            &&& #[trigger] version_text(a, b, c, pre, build) == s
            &&& is_numeral(a)
            &&& is_numeral(b)
            &&& is_numeral(c)
            &&& (pre is Some ==> is_identifier_list(pre->0, true))
            &&& (build is Some ==> is_identifier_list(build->0, false))
        };
    let dashed = match pre {
        Some(tag) => seq![DASH] + tag,
        None => Seq::empty(),
    };
    let plussed = match build {
        Some(tag) => seq![PLUS] + tag,
        None => Seq::empty(),
    };
    if pre is Some {
        lemma_tag_bytes(pre->0, true);
    }
    if build is Some {
        lemma_tag_bytes(build->0, false);
    }
    assert(ascii_bytes(a));
    assert(ascii_bytes(b));
    assert(ascii_bytes(c));
    assert(ascii_bytes(dashed));
    assert(ascii_bytes(plussed));
    assert(ascii_bytes(a + seq![DOT]));
    assert(ascii_bytes(a + seq![DOT] + b));
    assert(ascii_bytes(a + seq![DOT] + b + seq![DOT]));
    assert(ascii_bytes(a + seq![DOT] + b + seq![DOT] + c));
    assert(ascii_bytes(a + seq![DOT] + b + seq![DOT] + c + dashed));
    assert(ascii_bytes(a + seq![DOT] + b + seq![DOT] + c + dashed + plussed));
    lemma_ascii_text(text);
}

fn find_byte(b: &[u8], from: usize, to: usize, c: u8) -> (r: usize)
    requires
        from <= to <= b@.len(),
    ensures
        from <= r <= to,
        r - from == first_at(b@.subrange(from as int, to as int), c, 0),
{
    let ghost sub = b@.subrange(from as int, to as int);
    let mut i: usize = from;
    while i < to && b[i] != c
        invariant
            from <= i <= to <= b@.len(),
            sub == b@.subrange(from as int, to as int),
            first_at(sub, c, 0) == first_at(sub, c, i - from),
        decreases to - i,
    {
        assert(sub[i - from] == b@[i as int]);
        i += 1;
    }
    assert(i < to ==> sub[i - from] == b@[i as int]);
    i
}

fn parse_numeral(b: &[u8], from: usize, to: usize) -> (r: Option<u64>)
    requires
        from <= to <= b@.len(),
    ensures
        r == numeral_value(b@.subrange(from as int, to as int)),
{
    let ghost sub = b@.subrange(from as int, to as int);
    if from == to {
        return None;
    }
    if to - from > 1 && b[from] == ZERO {
        assert(sub[0] == b@[from as int]);
        return None;
    }
    let mut value: u64 = 0;
    let mut i: usize = from;
    assert(sub.take(0) =~= Seq::<u8>::empty());
    while i < to
        invariant
            from <= i <= to <= b@.len(),
            from < to,
            sub == b@.subrange(from as int, to as int),
            to - from > 1 ==> sub[0] != ZERO,
            forall|j: int| 0 <= j < i - from ==> is_digit(#[trigger] sub[j]),
            value == decimal(sub.take(i - from)),
        decreases to - i,
    {
        let c = b[i];
        assert(sub[i - from] == c);
        if c < 48 || c > 57 {
            return None;
        }
        let digit: u64 = (c - 48) as u64;
        proof {
            let next = sub.take(i - from + 1);
            assert(next.drop_last() =~= sub.take(i - from));
            assert(next.last() == c);
            assert(decimal(next) == value * 10 + digit);
            lemma_decimal_prefix(sub, i - from + 1);
        }
        let scaled = match value.checked_mul(10) {
            Some(m) => m,
            None => {
                return None;
            },
        };
        let sum = match scaled.checked_add(digit) {
            Some(m) => m,
            None => {
                return None;
            },
        };
        value = sum;
        i += 1;
    }
    assert(sub.take(to - from) =~= sub);
    Some(value)
}

fn scan_identifier(b: &[u8], from: usize, to: usize, strict: bool) -> (r: bool)
    requires
        from <= to <= b@.len(),
    ensures
        r == is_identifier(b@.subrange(from as int, to as int), strict),
{
    let ghost sub = b@.subrange(from as int, to as int);
    if from == to {
        return false;
    }
    let mut all_digits = true;
    let mut i: usize = from;
    while i < to
        invariant
            from <= i <= to <= b@.len(),
            sub == b@.subrange(from as int, to as int),
            forall|j: int| 0 <= j < i - from ==> is_ident_byte(#[trigger] sub[j]),
            all_digits == (forall|j: int| 0 <= j < i - from ==> is_digit(#[trigger] sub[j])),
        decreases to - i,
    {
        let c = b[i];
        assert(sub[i - from] == c);
        let digit = 48 <= c && c <= 57;
        let letter = (65 <= c && c <= 90) || (97 <= c && c <= 122) || c == DASH;
        if !digit && !letter {
            return false;
        }
        if !digit {
            all_digits = false;
        }
        i += 1;
    }
    assert(sub[0] == b@[from as int]);
    !(strict && all_digits && to - from > 1 && b[from] == ZERO)
}

fn scan_identifier_list(b: &[u8], from: usize, to: usize, strict: bool) -> (r: bool)
    requires
        from <= to <= b@.len(),
    ensures
        r == is_identifier_list(b@.subrange(from as int, to as int), strict),
{
    let mut start: usize = from;
    loop
        invariant
            from <= start <= to <= b@.len(),
            is_identifier_list(b@.subrange(from as int, to as int), strict) == is_identifier_list(
                b@.subrange(start as int, to as int),
                strict,
            ),
        decreases to - start,
    {
        let ghost sub = b@.subrange(start as int, to as int);
        let d = find_byte(b, start, to, DOT);
        let ok = scan_identifier(b, start, d, strict);
        proof {
            assert(sub.take(d - start) =~= b@.subrange(start as int, d as int));
            if d < to {
                assert(sub.skip(d - start + 1) =~= b@.subrange(d + 1, to as int));
            } else {
                assert(sub.take(d - start) =~= sub);
            }
        }
        if !ok {
            return false;
        }
        if d == to {
            return true;
        }
        start = d + 1;
    }
}

/// Reads the three numbers of a version text. Returns nothing when the text
/// is not a well-formed version.
pub fn parse_version(text: &str) -> (r: Option<CoreVersion>)
    ensures
        r == version_of(text@),
{
    let b = text.as_bytes();
    let n = b.len();
    let ghost s = b@;
    let p = find_byte(b, 0, n, PLUS);
    let h = find_byte(b, 0, p, DASH);
    let d1 = find_byte(b, 0, h, DOT);
    proof {
        assert(s.subrange(0, n as int) =~= s);
        assert(s.take(p as int) =~= s.subrange(0, p as int));
        assert(s.take(p as int).take(h as int) =~= s.subrange(0, h as int));
        if h < p {
            assert(s.take(p as int).skip(h + 1) =~= s.subrange(h + 1, p as int));
        }
        if p < n {
            assert(s.skip(p + 1) =~= s.subrange(p + 1, n as int));
        }
    }
    if h < p {
        if !scan_identifier_list(b, h + 1, p, true) {
            return None;
        }
    }
    if p < n {
        if !scan_identifier_list(b, p + 1, n, false) {
            return None;
        }
    }
    let ghost core = s.subrange(0, h as int);
    if d1 == h {
        return None;
    }
    let d2 = find_byte(b, d1 + 1, h, DOT);
    proof {
        let rest = core.skip(d1 + 1);
        assert(rest =~= s.subrange(d1 + 1, h as int));
        assert(core.take(d1 as int) =~= s.subrange(0, d1 as int));
        assert(rest.take(d2 - (d1 + 1)) =~= s.subrange(d1 + 1, d2 as int));
        if d2 < h {
            assert(rest.skip(d2 - (d1 + 1) + 1) =~= s.subrange(d2 + 1, h as int));
        }
    }
    if d2 == h {
        return None;
    }
    let major = parse_numeral(b, 0, d1);
    let minor = parse_numeral(b, d1 + 1, d2);
    let patch = parse_numeral(b, d2 + 1, h);
    match (major, minor, patch) {
        (Some(major), Some(minor), Some(patch)) => Some(CoreVersion { major, minor, patch }),
        _ => None,
    }
}

} // verus!
