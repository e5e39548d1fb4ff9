//! Compatibility epochs.
//!
//! Two versions of a package with the same epoch are taken to be compatible
//! and share one catalog entry. From 1.0.0 on the epoch is the major number;
//! below 1.0.0 it is the minor number; and a version `0.0.z` is compatible
//! with nothing but itself, so its epoch is the whole version text.

use vstd::prelude::*;
use vstd::utf8::encode_utf8;
use crate::error::MalformedVersion;
use crate::text::lemma_name_lt_irreflexive;
use crate::text::lemma_name_lt_total;
use crate::text::lemma_name_lt_transitive;
use crate::text::name_equal;
use crate::text::name_less;
use crate::text::name_lt;
use crate::version::decimal;
use crate::version::is_identifier_list;
use crate::version::is_numeral;
use crate::version::lemma_version_text_parses;
use crate::version::parse_version;
use crate::version::version_of;
use crate::version::version_text;

verus! {

/// The compatibility bucket of a version. The variants are declared in
/// ascending order: every `Exact` is below every `Minor`, every `Minor` is
/// below every `Major`.
#[derive(Debug, PartialEq, Eq, PartialOrd, Ord, Hash)]
pub enum Epoch {
    /// A version `0.0.z`, with its full text.
    Exact(String),
    /// A version `0.n.z` with `n` above zero.
    Minor(u64),
    /// A version `n.y.z` with `n` above zero.
    Major(u64),
}

/// The mathematical content of an `Epoch`.
pub enum EpochModel {
    Exact(Seq<char>),
    Minor(u64),
    Major(u64),
}

impl View for Epoch {
    type V = EpochModel;

    open spec fn view(&self) -> EpochModel {
        match self {
            Epoch::Exact(text) => EpochModel::Exact(text@),
            Epoch::Minor(n) => EpochModel::Minor(*n),
            Epoch::Major(n) => EpochModel::Major(*n),
        }
    }
}

/// The epoch of a version text, and nothing for a text that is not a
/// well-formed version.
pub open spec fn epoch_of(text: Seq<char>) -> Option<EpochModel> {
    match version_of(text) {
        None => None,
        Some(v) => Some(
            if v.major > 0 {
                EpochModel::Major(v.major)
            } else if v.minor > 0 {
                EpochModel::Minor(v.minor)
            } else {
                EpochModel::Exact(text)
            },
        ),
    }
}

/// The strict order on epochs: by variant first, then by number, or by text
/// for two `Exact` epochs.
pub open spec fn epoch_lt(a: EpochModel, b: EpochModel) -> bool {
    match (a, b) {
        (EpochModel::Exact(x), EpochModel::Exact(y)) => name_lt(x, y),
        (EpochModel::Exact(_), _) => true,
        (EpochModel::Minor(_), EpochModel::Exact(_)) => false,
        (EpochModel::Minor(x), EpochModel::Minor(y)) => x < y,
        (EpochModel::Minor(_), EpochModel::Major(_)) => true,
        (EpochModel::Major(x), EpochModel::Major(y)) => x < y,
        (EpochModel::Major(_), _) => false,
    }
}

/// No epoch is below itself.
pub proof fn lemma_epoch_lt_irreflexive(a: EpochModel)
    ensures
        !epoch_lt(a, a),
{
    if let EpochModel::Exact(x) = a {
        lemma_name_lt_irreflexive(x);
    }
}

/// The order on epochs is transitive.
pub proof fn lemma_epoch_lt_transitive(a: EpochModel, b: EpochModel, c: EpochModel)
    requires
        epoch_lt(a, b),
        epoch_lt(b, c),
    ensures
        epoch_lt(a, c),
{
    if let (EpochModel::Exact(x), EpochModel::Exact(y), EpochModel::Exact(z)) = (a, b, c) {
        lemma_name_lt_transitive(x, y, z);
    }
}

/// Two epochs are equal or one is below the other.
pub proof fn lemma_epoch_lt_total(a: EpochModel, b: EpochModel)
    ensures
        a == b || epoch_lt(a, b) || epoch_lt(b, a),
{
    if let (EpochModel::Exact(x), EpochModel::Exact(y)) = (a, b) {
        lemma_name_lt_total(x, y);
    }
}

/// From 1.0.0 on, the epoch of a version is its major number, whatever its
/// minor and patch numbers are.
pub proof fn lemma_epoch_from_major(text: Seq<char>)
    requires
        version_of(text) is Some,
        version_of(text)->0.major > 0,
    ensures
        epoch_of(text) == Some(EpochModel::Major(version_of(text)->0.major)),
{
}

/// Below 1.0.0, the epoch of a version with a minor number above zero is that
/// minor number.
pub proof fn lemma_epoch_from_minor(text: Seq<char>)
    requires
        version_of(text) is Some,
        version_of(text)->0.major == 0,
        version_of(text)->0.minor > 0,
    ensures
        epoch_of(text) == Some(EpochModel::Minor(version_of(text)->0.minor)),
{
}

/// A text `a.b.c`, with or without tags, whose first numeral writes a number
/// above zero has the epoch `Major` of that number, whatever `b` and `c` are.
pub proof fn lemma_epoch_of_major_text(
    text: Seq<char>,
    a: Seq<u8>,
    b: Seq<u8>,
    c: Seq<u8>,
    pre: Option<Seq<u8>>,
    build: Option<Seq<u8>>,
)
    requires
        encode_utf8(text) == version_text(a, b, c, pre, build),
        is_numeral(a),
        is_numeral(b),
        is_numeral(c),
        pre is Some ==> is_identifier_list(pre->0, true),
        build is Some ==> is_identifier_list(build->0, false),
        decimal(a) > 0,
    ensures
        epoch_of(text) == Some(EpochModel::Major(decimal(a) as u64)),
{
    lemma_version_text_parses(a, b, c, pre, build);
}

/// A text `a.b.c`, with or without tags, in which `a` writes zero and `b` a
/// number above zero has the epoch `Minor` of that number, whatever `c` is.
pub proof fn lemma_epoch_of_minor_text(
    text: Seq<char>,
    a: Seq<u8>,
    b: Seq<u8>,
    c: Seq<u8>,
    pre: Option<Seq<u8>>,
    build: Option<Seq<u8>>,
)
    requires
        encode_utf8(text) == version_text(a, b, c, pre, build),
        is_numeral(a),
        is_numeral(b),
        is_numeral(c),
        pre is Some ==> is_identifier_list(pre->0, true),
        build is Some ==> is_identifier_list(build->0, false),
        decimal(a) == 0,
        decimal(b) > 0,
    ensures
        epoch_of(text) == Some(EpochModel::Minor(decimal(b) as u64)),
{
    lemma_version_text_parses(a, b, c, pre, build);
}

/// Two versions `0.0.z` have the same epoch only when they are the same text.
pub proof fn lemma_epoch_of_unstable(a: Seq<char>, b: Seq<char>)
    requires
        version_of(a) is Some,
        version_of(a)->0.major == 0,
        version_of(a)->0.minor == 0,
        epoch_of(a) == epoch_of(b),
    ensures
        a == b,
{
}

impl Clone for Epoch {
    fn clone(&self) -> (r: Self)
        ensures
            r@ == self@,
    {
        match self {
            Epoch::Exact(text) => Epoch::Exact(text.clone()),
            Epoch::Minor(n) => Epoch::Minor(*n),
            Epoch::Major(n) => Epoch::Major(*n),
        }
    }
}

impl Epoch {
    /// Classifies a version text. Fails exactly when the text is not a
    /// well-formed semantic version.
    pub fn from_version(text: &str) -> (r: Result<Epoch, MalformedVersion>)
        ensures
            match r {
                Ok(e) => epoch_of(text@) == Some(e@),
                Err(_) => epoch_of(text@) is None,
            },
    {
        match parse_version(text) {
            None => Err(MalformedVersion),
            Some(v) => {
                if v.major > 0 {
                    Ok(Epoch::Major(v.major))
                } else if v.minor > 0 {
                    Ok(Epoch::Minor(v.minor))
                } else {
                    Ok(Epoch::Exact(text.to_owned()))
                }
            },
        }
    }

    /// Says whether two epochs are the same bucket.
    pub fn same(&self, other: &Epoch) -> (r: bool)
        ensures
            r == (self@ == other@),
    {
        match (self, other) {
            (Epoch::Exact(x), Epoch::Exact(y)) => name_equal(x.as_str(), y.as_str()),
            (Epoch::Minor(x), Epoch::Minor(y)) => *x == *y,
            (Epoch::Major(x), Epoch::Major(y)) => *x == *y,
            _ => false,
        }
    }

    /// Says whether this epoch comes strictly before `other`.
    pub fn precedes(&self, other: &Epoch) -> (r: bool)
        ensures
            r == epoch_lt(self@, other@),
    {
        match (self, other) {
            (Epoch::Exact(x), Epoch::Exact(y)) => name_less(x.as_str(), y.as_str()),
            (Epoch::Exact(_), _) => true,
            (Epoch::Minor(_), Epoch::Exact(_)) => false,
            (Epoch::Minor(x), Epoch::Minor(y)) => *x < *y,
            (Epoch::Minor(_), Epoch::Major(_)) => true,
            (Epoch::Major(x), Epoch::Major(y)) => *x < *y,
            (Epoch::Major(_), _) => false,
        }
    }
}

} // verus!
