//! Model ids of neural engines.

use vstd::prelude::*;

use crate::error::{Error, Result};
use crate::index_map::{question_at, question_count, question_entries};
use crate::schema::{question_problem, Question, State, SystemOneRequest, TokenUsage};
use crate::sequence::{
    label_views, pack_question, packed, well_packed, PackFault, PackedQuestion, SequenceConfig,
    SpecialTokens, Tokenize,
};
use crate::text::string_of;

verus! {

/// Characters kept in a model id: ASCII letters and digits, `-` and `_`.
pub open spec fn id_char(c: char) -> char {
    if ('a' <= c <= 'z') || ('A' <= c <= 'Z') || ('0' <= c <= '9') || c == '-' || c == '_' {
        c
    } else {
        '-'
    }
}

/// A model name made safe for an id: every other character becomes `-`, and
/// an empty name becomes `neural`.
pub open spec fn sanitized(name: Seq<char>) -> Seq<char> {
    if name.len() == 0 {
        "neural"@
    } else {
        name.map_values(|c: char| id_char(c))
    }
}

/// Make a model name safe for use inside a model id.
pub fn sanitize_id(name: &str) -> (r: String)
    ensures
        r@ == sanitized(name@),
{
    let cs = crate::text::chars_of(name);
    if cs.len() == 0 {
        return String::from_str("neural");
    }
    let mut out: Vec<char> = Vec::new();
    let mut i: usize = 0;
    while i < cs.len()
        invariant
            i <= cs@.len(),
            out@ == cs@.take(i as int).map_values(|c: char| id_char(c)),
        decreases cs@.len() - i,
    {
        let c = cs[i];
        let kept = if ('a' <= c && c <= 'z') || ('A' <= c && c <= 'Z') || ('0' <= c && c <= '9')
            || c == '-' || c == '_' {
            c
        } else {
            '-'
        };
        proof {
            assert(cs@.take(i + 1).map_values(|c: char| id_char(c)) =~= cs@.take(i as int).map_values(
                |c: char| id_char(c),
            ).push(id_char(c)));
        }
        out.push(kept);
        i = i + 1;
    }
    proof {
        assert(cs@.take(cs@.len() as int) =~= cs@);
    }
    string_of(out.as_slice())
}

// ---------------------------------------------------------------------------
// Packing a request
// ---------------------------------------------------------------------------

/// `u32::saturating_add` after truncating `n` to 32 bits (`n as u32`).
pub open spec fn add_tokens(acc: int, n: int) -> int {
    let t = acc + n % 0x1_0000_0000;
    if t > u32::MAX {
        u32::MAX as int
    } else {
        t
    }
}

/// Input tokens billed for packed sequences of the given lengths.
pub open spec fn tokens_of(lens: Seq<int>) -> int
    decreases lens.len(),
{
    if lens.len() == 0 {
        0
    } else {
        add_tokens(tokens_of(lens.drop_last()), lens.last())
    }
}

/// A question that validates and packs.
pub open spec fn packs<T: Tokenize>(
    tok: &T,
    sp: SpecialTokens,
    mask: Seq<char>,
    state: State,
    q: Question,
    cfg: SequenceConfig,
) -> bool {
    question_problem(q) is None && packed(tok, sp, mask, state, q, cfg) is Ok
}

/// Index of the first question, from `i` on, that does not validate or pack.
pub open spec fn first_unpacked<T: Tokenize>(
    tok: &T,
    sp: SpecialTokens,
    mask: Seq<char>,
    state: State,
    qs: Seq<(String, Question)>,
    cfg: SequenceConfig,
    i: int,
) -> Option<int>
    decreases qs.len() - i,
{
    if i < 0 || i >= qs.len() {
        None
    } else if !packs(tok, sp, mask, state, qs[i].1, cfg) {
        Some(i)
    } else {
        first_unpacked(tok, sp, mask, state, qs, cfg, i + 1)
    }
}

/// `pq` is what `pack_question` produces for `q`.
pub open spec fn is_packing_of<T: Tokenize>(
    tok: &T,
    sp: SpecialTokens,
    mask: Seq<char>,
    state: State,
    q: Question,
    cfg: SequenceConfig,
    pq: PackedQuestion,
) -> bool {
    packed(tok, sp, mask, state, q, cfg) matches Ok((ids, markers, labels)) && pq.input_ids@
        == ids && pq.markers@.map_values(|m: usize| m as int) == markers && pq.qtype
        == crate::primitive::kind_id(q.type_) && label_views(pq.option_labels@) == labels
}

/// Sequence lengths of packed questions.
pub open spec fn packed_lens(v: Seq<PackedQuestion>) -> Seq<int> {
    v.map_values(|p: PackedQuestion| p.input_ids@.len() as int)
}

proof fn lemma_first_unpacked_skip<T: Tokenize>(
    tok: &T,
    sp: SpecialTokens,
    mask: Seq<char>,
    state: State,
    qs: Seq<(String, Question)>,
    cfg: SequenceConfig,
    i: int,
)
    requires
        0 <= i <= qs.len(),
        forall|k: int| 0 <= k < i ==> packs(tok, sp, mask, state, #[trigger] qs[k].1, cfg),
    ensures
        first_unpacked(tok, sp, mask, state, qs, cfg, 0) == first_unpacked(
            tok,
            sp,
            mask,
            state,
            qs,
            cfg,
            i,
        ),
    decreases i,
{
    if i > 0 {
        lemma_first_unpacked_skip(tok, sp, mask, state, qs, cfg, i - 1);
    }
}

/// Validate and pack every question of a request, in order, counting input
/// tokens; the first question that fails stops packing with its error (an
/// invalid question carries its id).
#[verifier::rlimit(30)]
pub fn pack_request<T: Tokenize>(
    tok: &T,
    specials: SpecialTokens,
    mask_token: &str,
    request: &SystemOneRequest,
    cfg: SequenceConfig,
) -> (r: Result<(Vec<PackedQuestion>, u32)>)
    ensures
        r matches Ok((v, t)) ==> v@.len() == question_entries(request.questions).len() && t
            == tokens_of(packed_lens(v@)) && forall|i: int|
            0 <= i < v@.len() ==> #[trigger] v@[i].markers@.len() == v@[i].option_labels@.len()
                && well_packed(
                v@[i].input_ids@,
                v@[i].markers@.map_values(|m: usize| m as int),
                specials,
                cfg.max_len,
            ),
        tok.obeys_encoded() ==> ({
            let qs = question_entries(request.questions);
            match first_unpacked(tok, specials, mask_token@, request.state, qs, cfg, 0) {
                None => r matches Ok((v, t)) && v@.len() == qs.len() && (forall|i: int|
                    0 <= i < qs.len() ==> is_packing_of(
                        tok,
                        specials,
                        mask_token@,
                        request.state,
                        #[trigger] qs[i].1,
                        cfg,
                        v@[i],
                    )) && t == tokens_of(packed_lens(v@)),
                Some(i) => r is Err && (question_problem(qs[i].1) matches Some(reason) ==> r matches Err(
                    Error::InvalidQuestion { id, reason: rr },
                ) && id@ == qs[i].0@ && rr@ == reason) && (question_problem(qs[i].1) is None
                    ==> (packed(
                    tok,
                    specials,
                    mask_token@,
                    request.state,
                    qs[i].1,
                    cfg,
                ) matches Err((PackFault::OverBudget, _)) ==> r matches Err(
                    Error::HeadBudgetExceeded { id, head_max_len },
                ) && id@ == qs[i].0@ && head_max_len == cfg.head_max_len)),
            }
        }),
{
    let n = question_count(&request.questions);
    let ghost qs = question_entries(request.questions);
    let mut out: Vec<PackedQuestion> = Vec::new();
    let mut input_tokens: u32 = 0;
    let mut i: usize = 0;
    while i < n
        invariant
            n == qs.len(),
            qs == question_entries(request.questions),
            i <= n,
            out@.len() == i,
            forall|k: int|
                0 <= k < i ==> #[trigger] out@[k].markers@.len() == out@[k].option_labels@.len()
                    && well_packed(
                    out@[k].input_ids@,
                    out@[k].markers@.map_values(|m: usize| m as int),
                    specials,
                    cfg.max_len,
                ),
            tok.obeys_encoded() ==> forall|k: int|
                0 <= k < i ==> packs(tok, specials, mask_token@, request.state, #[trigger] qs[k].1, cfg),
            tok.obeys_encoded() ==> forall|k: int|
                0 <= k < i ==> is_packing_of(
                    tok,
                    specials,
                    mask_token@,
                    request.state,
                    #[trigger] qs[k].1,
                    cfg,
                    out@[k],
                ),
            input_tokens == tokens_of(packed_lens(out@)),
        decreases n - i,
    {
        let (id, question) = question_at(&request.questions, i);
        proof {
            if tok.obeys_encoded() {
                lemma_first_unpacked_skip(tok, specials, mask_token@, request.state, qs, cfg, i as int);
            }
        }
        match question.validate() {
            Ok(()) => {},
            Err(Error::InvalidQuestion { reason, .. }) => {
                return Err(Error::InvalidQuestion { id: id.clone(), reason });
            },
            Err(other) => {
                return Err(other);
            },
        }
        let one = match pack_question(
            tok,
            specials,
            mask_token,
            &request.state,
            id.as_str(),
            question,
            cfg,
        ) {
            Ok(p) => p,
            Err(e) => {
                return Err(e);
            },
        };
        let len = one.input_ids.len();
        let ghost prev = out@;
        input_tokens = input_tokens.saturating_add(len as u32);
        out.push(one);
        proof {
            assert(packed_lens(out@).drop_last() =~= packed_lens(prev));
            assert((len as u32) as int == (len as int) % 0x1_0000_0000) by (bit_vector);
        }
        i = i + 1;
    }
    proof {
        if tok.obeys_encoded() {
            lemma_first_unpacked_skip(tok, specials, mask_token@, request.state, qs, cfg, n as int);
        }
    }
    Ok((out, input_tokens))
}

/// Usage reported for a neural decision: the packed input tokens, and no
/// output tokens (a decision engine generates no text).
pub fn decision_usage(input_tokens: u32) -> (r: TokenUsage)
    ensures
        r.input_tokens == input_tokens,
        r.output_tokens == 0,
{
    TokenUsage { input_tokens, output_tokens: 0 }
}

} // verus!
