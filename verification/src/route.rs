//! Routing metadata types: checkpoint identities and route outcomes.

use vstd::prelude::*;

use crate::detect::Detection;
use crate::text::{ascii_lowercase, ascii_lowercase_chars, chars_eq_str, trim, trim_str};

verus! {

/// Named checkpoint identity.
#[derive(Debug, Clone, Copy, PartialEq, Eq, Hash, Structural)]
pub enum CheckpointId {
    /// English ModernBERT-large System-1.
    English,
    /// Multilingual mmBERT-base.
    Multilingual,
    /// Fine-tuned typed-decisions pack.
    TypedDecisions,
}

/// Stable wire name of a checkpoint.
pub open spec fn checkpoint_name(id: CheckpointId) -> Seq<char> {
    match id {
        CheckpointId::English => "english"@,
        CheckpointId::Multilingual => "multilingual"@,
        CheckpointId::TypedDecisions => "typed-decisions"@,
    }
}

/// The names and aliases `CheckpointId::parse` accepts, after trimming white
/// space and folding ASCII case.
pub open spec fn parse_checkpoint(name: Seq<char>) -> Option<CheckpointId> {
    let key = ascii_lowercase(trim(name));
    if key == "english"@ || key == "en"@ || key == "default"@ {
        Some(CheckpointId::English)
    } else if key == "multilingual"@ || key == "multi"@ || key == "ml"@ {
        Some(CheckpointId::Multilingual)
    } else if key == "typed-decisions"@ || key == "typed"@ || key == "typed_decisions"@ || key
        == "decisions"@ {
        Some(CheckpointId::TypedDecisions)
    } else {
        None
    }
}

impl CheckpointId {
    /// Stable wire name.
    pub fn as_str(self) -> (r: &'static str)
        ensures
            r@ == checkpoint_name(self),
    {
        match self {
            CheckpointId::English => "english",
            CheckpointId::Multilingual => "multilingual",
            CheckpointId::TypedDecisions => "typed-decisions",
        }
    }

    /// Parse a name or a common alias.
    pub fn parse(name: &str) -> (r: Option<Self>)
        ensures
            r == parse_checkpoint(name@),
    {
        let trimmed = trim_str(name);
        let key = ascii_lowercase_chars(trimmed.as_slice());
        let k = key.as_slice();
        if chars_eq_str(k, "english") || chars_eq_str(k, "en") || chars_eq_str(k, "default") {
            Some(CheckpointId::English)
        } else if chars_eq_str(k, "multilingual") || chars_eq_str(k, "multi") || chars_eq_str(
            k,
            "ml",
        ) {
            Some(CheckpointId::Multilingual)
        } else if chars_eq_str(k, "typed-decisions") || chars_eq_str(k, "typed") || chars_eq_str(
            k,
            "typed_decisions",
        ) || chars_eq_str(k, "decisions") {
            Some(CheckpointId::TypedDecisions)
        } else {
            None
        }
    }
}

/// Every checkpoint's wire name parses back to that checkpoint.
pub proof fn lemma_checkpoint_name_roundtrip(id: CheckpointId)
    ensures
        parse_checkpoint(checkpoint_name(id)) == Some(id),
{
    reveal_strlit("english");
    reveal_strlit("en");
    reveal_strlit("default");
    reveal_strlit("multilingual");
    reveal_strlit("multi");
    reveal_strlit("ml");
    reveal_strlit("typed-decisions");
    reveal_strlit("typed");
    reveal_strlit("typed_decisions");
    reveal_strlit("decisions");
    let s = checkpoint_name(id);
    assert(trim(s) == s) by {
        assert(!crate::text::is_white_space(s[0]));
        assert(crate::text::trim_start(s) == s);
        assert(!crate::text::is_white_space(s.last()));
    }
    assert(ascii_lowercase(s) =~= s);
    if id == CheckpointId::Multilingual {
        assert(s != "english"@);
        assert(s != "en"@);
        assert(s != "default"@);
    }
    if id == CheckpointId::TypedDecisions {
        assert(s != "english"@);
        assert(s != "en"@);
        assert(s != "default"@);
        assert(s != "multilingual"@);
        assert(s != "multi"@);
        assert(s != "ml"@);
    }
}

/// Outcome of checkpoint selection (no model load).
#[derive(Debug, Clone)]
pub struct RouteDecision {
    /// Selected checkpoint.
    pub model: CheckpointId,
    /// Human-readable reason.
    pub reason: String,
    /// Optional detection evidence.
    pub detection: Option<Detection>,
}

} // verus!
