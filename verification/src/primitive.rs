//! Decision primitive kinds.

use vstd::prelude::*;

use crate::text::{ascii_lowercase, ascii_lowercase_chars, chars_eq_str, trim, trim_str};

verus! {

/// Typed decision primitive kinds supported by Apofasi.
#[derive(Debug, Clone, Copy, PartialEq, Eq, Hash, Structural)]
pub enum DecisionKind {
    /// Discrete label selection among named options.
    Choice,
    /// Ordinal score over an ordered rubric.
    Score,
    /// Calibrated probability that a proposition is true.
    Noul,
}

/// Stable wire name of a kind.
pub open spec fn kind_name(kind: DecisionKind) -> Seq<char> {
    match kind {
        DecisionKind::Choice => "choice"@,
        DecisionKind::Score => "score"@,
        DecisionKind::Noul => "noul"@,
    }
}

/// Dense head-embedding id of a kind.
pub open spec fn kind_id(kind: DecisionKind) -> u8 {
    match kind {
        DecisionKind::Choice => 0,
        DecisionKind::Score => 1,
        DecisionKind::Noul => 2,
    }
}

/// What `DecisionKind::parse` accepts: the wire name after trimming white
/// space and folding ASCII case.
pub open spec fn parse_kind(name: Seq<char>) -> Option<DecisionKind> {
    let key = ascii_lowercase(trim(name));
    if key == "choice"@ {
        Some(DecisionKind::Choice)
    } else if key == "score"@ {
        Some(DecisionKind::Score)
    } else if key == "noul"@ {
        Some(DecisionKind::Noul)
    } else {
        None
    }
}

impl DecisionKind {
    /// Stable wire / config name for this primitive.
    pub fn as_str(self) -> (r: &'static str)
        ensures
            r@ == kind_name(self),
    {
        match self {
            DecisionKind::Choice => "choice",
            DecisionKind::Score => "score",
            DecisionKind::Noul => "noul",
        }
    }

    /// Dense type id used by the decision head embedding.
    pub fn type_id(self) -> (r: u8)
        ensures
            r == kind_id(self),
            r < 3,
    {
        match self {
            DecisionKind::Choice => 0,
            DecisionKind::Score => 1,
            DecisionKind::Noul => 2,
        }
    }

    /// Parse an Apofasi wire name (surrounding white space and ASCII case are ignored).
    pub fn parse(name: &str) -> (r: Option<Self>)
        ensures
            r == parse_kind(name@),
    {
        let trimmed = trim_str(name);
        let key = ascii_lowercase_chars(trimmed.as_slice());
        if chars_eq_str(key.as_slice(), "choice") {
            Some(DecisionKind::Choice)
        } else if chars_eq_str(key.as_slice(), "score") {
            Some(DecisionKind::Score)
        } else if chars_eq_str(key.as_slice(), "noul") {
            Some(DecisionKind::Noul)
        } else {
            None
        }
    }
}

/// Every wire name parses back to its kind.
pub proof fn lemma_kind_name_roundtrip(kind: DecisionKind)
    ensures
        parse_kind(kind_name(kind)) == Some(kind),
{
    reveal_strlit("choice");
    reveal_strlit("score");
    reveal_strlit("noul");
    let s = kind_name(kind);
    assert(trim(s) == s) by {
        assert(!crate::text::is_white_space(s[0]));
        assert(crate::text::trim_start(s) == s);
        assert(!crate::text::is_white_space(s.last()));
    }
    assert(ascii_lowercase(s) =~= s);
}

/// Distinct kinds have distinct wire names and distinct ids.
pub proof fn lemma_kind_names_distinct(a: DecisionKind, b: DecisionKind)
    requires
        a != b,
    ensures
        kind_name(a) != kind_name(b),
        kind_id(a) != kind_id(b),
{
    reveal_strlit("choice");
    reveal_strlit("score");
    reveal_strlit("noul");
    if kind_name(a).len() == kind_name(b).len() {
        assert(kind_name(a)[0] != kind_name(b)[0]);
    }
}

} // verus!
