//! The HuggingFace fast tokenizer (`tokenizers::Tokenizer`) behind the packer:
//! discovery of its special tokens and ordinary encoding.

use tokenizers::Tokenizer;
use vstd::prelude::*;

use crate::error::{Error, Result};
use crate::sequence::{SpecialTokens, Tokenize};
use crate::text::{append_str, chars_of, string_of};

verus! {

/// `tokenizers::Tokenizer`, a fast tokenizer loaded from `tokenizer.json`.
#[verifier::external_type_specification]
#[verifier::external_body]
pub struct ExTokenizer(Tokenizer);

/// The token → id mapping a tokenizer holds: its added tokens, then its
/// model's vocabulary (what `Tokenizer::token_to_id` consults).
pub uninterp spec fn vocabulary(t: Tokenizer) -> Map<Seq<char>, u32>;

/// Id of `token` in a vocabulary, if it holds one.
pub open spec fn vocab_id(v: Map<Seq<char>, u32>, token: Seq<char>) -> Option<u32> {
    if v.dom().contains(token) {
        Some(v[token])
    } else {
        None
    }
}

/// Calls `Tokenizer::token_to_id`: the id the tokenizer's vocabulary holds
/// for the token, if any.
#[verifier::external_body]
fn token_id(inner: &Tokenizer, token: &str) -> (r: Option<u32>)
    ensures
        r == vocab_id(vocabulary(*inner), token@),
{
    inner.token_to_id(token)
}

/// Calls `Tokenizer::encode` without special tokens and takes the ids of the
/// encoding (`Encoding::get_ids`), or the text of the error. What comes back
/// depends on the model loaded into the tokenizer, which is opaque here, so
/// nothing is stated of it.
#[verifier::external_body]
fn encode_ids(inner: &Tokenizer, text: &str) -> (r: std::result::Result<Vec<u32>, String>) {
    match inner.encode(text, false) {
        Ok(encoding) => Ok(encoding.get_ids().to_vec()),
        Err(e) => Err(format!("{e}")),
    }
}

/// Lookup `i` is the first that found its token.
pub open spec fn found_first(found: Seq<Option<u32>>, i: int) -> bool {
    &&& 0 <= i < found.len()
    &&& found[i] is Some
    &&& forall|k: int| 0 <= k < i ==> found[k] is None
}

/// No lookup found its token.
pub open spec fn none_found(found: Seq<Option<u32>>) -> bool {
    forall|k: int| 0 <= k < found.len() ==> found[k] is None
}

/// Position of the first lookup that found its token.
pub open spec fn first_index(found: Seq<Option<u32>>) -> int {
    choose|i: int| found_first(found, i)
}

/// Id given by the first lookup that found its token.
pub open spec fn first_id(found: Seq<Option<u32>>) -> u32 {
    found[first_index(found)]->0
}

/// Mask token spellings, in the order they are tried.
pub open spec fn mask_names() -> Seq<Seq<char>> {
    seq!["[MASK]"@, "<mask>"@]
}

/// Spellings tried for each special role, in order: 0 is CLS/BOS, 1 SEP/EOS,
/// 2 MASK, and any other role PAD.
pub open spec fn role_names(role: int) -> Seq<Seq<char>> {
    if role == 0 {
        seq!["[CLS]"@, "<s>"@, "<bos>"@]
    } else if role == 1 {
        seq!["[SEP]"@, "</s>"@, "<eos>"@]
    } else if role == 2 {
        mask_names()
    } else {
        seq!["[PAD]"@, "<pad>"@]
    }
}

/// The spellings tried for a special role (see [`role_names`]).
pub fn role_spellings(role: usize) -> (r: Vec<&'static str>)
    ensures
        r@.map_values(|n: &str| n@) == role_names(role as int),
{
    let r = if role == 0 {
        vec!["[CLS]", "<s>", "<bos>"]
    } else if role == 1 {
        vec!["[SEP]", "</s>", "<eos>"]
    } else if role == 2 {
        vec!["[MASK]", "<mask>"]
    } else {
        vec!["[PAD]", "<pad>"]
    };
    assert(r@.map_values(|n: &str| n@) =~= role_names(role as int));
    r
}

/// `found` is what looking `names` up in `v` in order gives when the lookups
/// stop at the first name that is found.
pub open spec fn lookup_list(v: Map<Seq<char>, u32>, names: Seq<Seq<char>>, found: Seq<Option<u32>>) -> bool {
    &&& found.len() <= names.len()
    &&& names.len() > 0 ==> found.len() > 0
    &&& forall|k: int| 0 <= k < found.len() ==> #[trigger] found[k] == vocab_id(v, names[k])
    &&& forall|k: int| 0 <= k < found.len() - 1 ==> (#[trigger] found[k]) is None
    &&& found.len() < names.len() ==> found[found.len() - 1] is Some
}

/// What the special roles of vocabulary `v` resolve to: the result of
/// [`lookup_outcome`] on the lookups of each role's spellings.
pub open spec fn specials_outcome(
    v: Map<Seq<char>, u32>,
    outcome: std::result::Result<(SpecialTokens, Seq<char>), Seq<char>>,
) -> bool {
    exists|c: Seq<Option<u32>>, s: Seq<Option<u32>>, m: Seq<Option<u32>>, p: Seq<Option<u32>>|
        #![trigger lookup_list(v, role_names(0), c), lookup_list(v, role_names(1), s), lookup_list(v, role_names(2), m), lookup_list(v, role_names(3), p)]
        lookup_list(v, role_names(0), c) && lookup_list(v, role_names(1), s) && lookup_list(
            v,
            role_names(2),
            m,
        ) && lookup_list(v, role_names(3), p) && outcome == lookup_outcome(c, s, m, p)
}

/// What the lookups of the CLS/BOS, SEP/EOS, MASK and PAD spellings resolve
/// to: the special ids and the mask spelling found, or the message for the
/// first role of which no spelling is known.
pub open spec fn lookup_outcome(
    cls: Seq<Option<u32>>,
    sep: Seq<Option<u32>>,
    mask: Seq<Option<u32>>,
    pad: Seq<Option<u32>>,
) -> std::result::Result<(SpecialTokens, Seq<char>), Seq<char>> {
    if none_found(cls) {
        Err("tokenizer missing CLS/BOS token"@)
    } else if none_found(sep) {
        Err("tokenizer missing SEP/EOS token"@)
    } else if none_found(mask) {
        Err("tokenizer missing MASK token"@)
    } else if none_found(pad) {
        Err("tokenizer missing PAD token"@)
    } else {
        Ok((
            SpecialTokens {
                cls: first_id(cls),
                sep: first_id(sep),
                mask: first_id(mask),
                pad: first_id(pad),
            },
            mask_names()[first_index(mask)],
        ))
    }
}

proof fn lemma_found_first_unique(found: Seq<Option<u32>>, i: int)
    requires
        found_first(found, i),
    ensures
        first_index(found) == i,
        first_id(found) == found[i]->0,
{
    assert(exists|j: int| found_first(found, j));
    let j = first_index(found);
    assert(found_first(found, j));
    if j < i {
        assert(found[j] is None);
    } else if i < j {
        assert(found[i] is None);
    }
}

/// Position and id of the first lookup that found its token, if any.
pub fn pick_first(found: &Vec<Option<u32>>) -> (r: Option<(usize, u32)>)
    ensures
        match r {
            Some((i, id)) => found_first(found@, i as int) && found@[i as int] == Some(id),
            None => none_found(found@),
        },
{
    let mut i: usize = 0;
    while i < found.len()
        invariant
            i <= found.len(),
            forall|k: int| 0 <= k < i ==> found@[k] is None,
        decreases found.len() - i,
    {
        if let Some(id) = found[i] {
            return Some((i, id));
        }
        i = i + 1;
    }
    None
}

fn checkpoint_error(text: &str) -> (e: Error)
    ensures
        e matches Error::Checkpoint(m) && m@ == text@,
{
    Error::Checkpoint(string_of(chars_of(text).as_slice()))
}

/// Special ids and mask spelling from the lookups of each role's spellings,
/// in the order they were tried (`cls`: `[CLS]`, `<s>`, `<bos>`; `sep`:
/// `[SEP]`, `</s>`, `<eos>`; `mask`: `[MASK]`, `<mask>`; `pad`: `[PAD]`,
/// `<pad>`). A role is resolved by its first spelling that was found.
pub fn resolve_from_lookups(
    cls: &Vec<Option<u32>>,
    sep: &Vec<Option<u32>>,
    mask: &Vec<Option<u32>>,
    pad: &Vec<Option<u32>>,
) -> (r: Result<(SpecialTokens, String)>)
    requires
        mask@.len() <= mask_names().len(),
    ensures
        match lookup_outcome(cls@, sep@, mask@, pad@) {
            Ok((sp, name)) => r matches Ok((s, n)) && s == sp && n@ == name,
            Err(m) => r matches Err(Error::Checkpoint(e)) && e@ == m,
        },
        r matches Ok((_, n)) ==> mask_names().contains(n@),
{
    let c = match pick_first(cls) {
        Some((i, id)) => {
            proof { lemma_found_first_unique(cls@, i as int); }
            id
        },
        None => return Err(checkpoint_error("tokenizer missing CLS/BOS token")),
    };
    let s = match pick_first(sep) {
        Some((i, id)) => {
            proof { lemma_found_first_unique(sep@, i as int); }
            id
        },
        None => return Err(checkpoint_error("tokenizer missing SEP/EOS token")),
    };
    let (m, name) = match pick_first(mask) {
        Some((i, id)) => {
            proof { lemma_found_first_unique(mask@, i as int); }
            let name = if i == 0 {
                string_of(chars_of("[MASK]").as_slice())
            } else {
                string_of(chars_of("<mask>").as_slice())
            };
            assert(mask_names()[i as int] == name@);
            (id, name)
        },
        None => return Err(checkpoint_error("tokenizer missing MASK token")),
    };
    let p = match pick_first(pad) {
        Some((i, id)) => {
            proof { lemma_found_first_unique(pad@, i as int); }
            id
        },
        None => return Err(checkpoint_error("tokenizer missing PAD token")),
    };
    Ok((SpecialTokens { cls: c, sep: s, mask: m, pad: p }, name))
}

/// Looks the spellings up in order and stops at the first that is found.
fn lookups(inner: &Tokenizer, names: &Vec<&str>) -> (r: Vec<Option<u32>>)
    ensures
        lookup_list(vocabulary(*inner), names@.map_values(|n: &str| n@), r@),
{
    let ghost v = vocabulary(*inner);
    let ghost nv = names@.map_values(|n: &str| n@);
    let mut found: Vec<Option<u32>> = Vec::new();
    let mut i: usize = 0;
    while i < names.len()
        invariant
            i <= names.len(),
            v == vocabulary(*inner),
            nv == names@.map_values(|n: &str| n@),
            found@.len() == i,
            forall|k: int| 0 <= k < i ==> #[trigger] found@[k] == vocab_id(v, nv[k]),
            forall|k: int| 0 <= k < i ==> (#[trigger] found@[k]) is None,
        decreases names.len() - i,
    {
        let id = token_id(inner, names[i]);
        found.push(id);
        if id.is_some() {
            return found;
        }
        i = i + 1;
    }
    found
}

/// Resolves the special ids of a tokenizer: ModernBERT English spells them
/// `[CLS]`/`[SEP]`/`[MASK]`/`[PAD]`, mmBERT and Gemma-style tokenizers
/// `<s>`/`</s>`/`<mask>`/`<pad>` (or `<bos>`/`<eos>`).
fn resolve_specials(inner: &Tokenizer) -> (r: Result<(SpecialTokens, String)>)
    ensures
        r matches Ok((_, name)) ==> mask_names().contains(name@),
        match r {
            Ok((sp, name)) => specials_outcome(vocabulary(*inner), Ok((sp, name@))),
            Err(e) => e matches Error::Checkpoint(m) && specials_outcome(vocabulary(*inner), Err(m@)),
        },
{
    let cls = lookups(inner, &role_spellings(0));
    let sep = lookups(inner, &role_spellings(1));
    let mask = lookups(inner, &role_spellings(2));
    let pad = lookups(inner, &role_spellings(3));
    let r = resolve_from_lookups(&cls, &sep, &mask, &pad);
    proof {
        let v = vocabulary(*inner);
        assert(lookup_list(v, role_names(0), cls@));
        assert(lookup_list(v, role_names(1), sep@));
        assert(lookup_list(v, role_names(2), mask@));
        assert(lookup_list(v, role_names(3), pad@));
    }
    r
}

/// Fast tokenizer with its resolved special ids.
pub struct HfTokenizer {
    /// The loaded tokenizer.
    pub inner: Tokenizer,
    /// Special token ids used by the packer.
    pub specials: SpecialTokens,
    /// Literal mask token string (stripped before encode).
    pub mask_token: String,
}

impl HfTokenizer {
    /// Wraps a loaded tokenizer, resolving its special ids; fails with a
    /// checkpoint error when a role has none of its spellings.
    pub fn from_tokenizer(inner: Tokenizer) -> (r: Result<HfTokenizer>)
        ensures
            r matches Ok(t) ==> mask_names().contains(t.mask_token@),
            match r {
                Ok(t) => t.inner == inner && specials_outcome(
                    vocabulary(inner),
                    Ok((t.specials, t.mask_token@)),
                ),
                Err(e) => e matches Error::Checkpoint(m) && specials_outcome(
                    vocabulary(inner),
                    Err(m@),
                ),
            },
    {
        match resolve_specials(&inner) {
            Ok((specials, mask_token)) => Ok(HfTokenizer { inner, specials, mask_token }),
            Err(e) => Err(e),
        }
    }
}

/// Message of a tokenizer failure.
pub open spec fn tokenize_message(detail: Seq<char>) -> Seq<char> {
    "tokenize: "@ + detail
}

/// Ids of an encoding, or the inference error that reports why it failed.
pub fn encoding_result(res: std::result::Result<Vec<u32>, String>) -> (r: Result<Vec<u32>>)
    ensures
        match res {
            Ok(ids) => r == Ok::<Vec<u32>, Error>(ids),
            Err(detail) => r matches Err(Error::Infer(m)) && m@ == tokenize_message(detail@),
        },
{
    match res {
        Ok(ids) => Ok(ids),
        Err(detail) => {
            let mut text: Vec<char> = Vec::new();
            append_str(&mut text, "tokenize: ");
            append_str(&mut text, detail.as_str());
            Err(Error::Infer(string_of(text.as_slice())))
        },
    }
}

impl Tokenize for HfTokenizer {
    /// A failure of the fast tokenizer is reported as an inference error
    /// whose message is `tokenize: ` followed by the tokenizer's own text.
    fn encode_ordinary(&self, text: &str) -> (r: Result<Vec<u32>>)
        ensures
            r matches Err(e) ==> (e matches Error::Infer(m) && exists|detail: Seq<char>|
                m@ == #[trigger] tokenize_message(detail)),
    {
        let res = encode_ids(&self.inner, text);
        let ghost before = res;
        let r = encoding_result(res);
        proof {
            if let Err(detail) = before {
                assert(r matches Err(Error::Infer(m)) && m@ == tokenize_message(detail@));
            }
        }
        r
    }
}

} // verus!
