//! Sequence packing for typed decision prompts.
//!
//! Format:
//! `[CLS] "{kind} question: {instructions}" [SEP] [MASK] opt0 … [SEP] {state} [SEP]`
//!
//! Tokenization is injected via [`Tokenize`], so packing stays framework-free.

use vstd::prelude::*;

use crate::error::{Error, Result};
use crate::index_map::{option_at, option_count, option_entries};
use crate::primitive::{kind_id, kind_name, DecisionKind};
use crate::schema::{criterion_text, instructions_text, is_invalid_with, json_text, model_text_of, Criteria, Json, Question, State};
use crate::text::{append_chars, append_str, chars_of, decimal, decimal_chars, replace, replaced, string_of};

verus! {

/// Head tokens kept back for the instruction text when options are grouped.
pub const HEAD_INSTRUCTION_RESERVE: usize = 16;

/// Special token ids required by the packer.
#[derive(Debug, Clone, Copy, PartialEq, Eq, Structural)]
pub struct SpecialTokens {
    /// CLS / BOS id.
    pub cls: u32,
    /// SEP id.
    pub sep: u32,
    /// MASK id (option marker).
    pub mask: u32,
    /// PAD id (right-padding for batched encoder forwards).
    pub pad: u32,
}

/// Tokenizer surface used by the packer.
///
/// An implementation proved against [`Tokenize::encoded`] says so through
/// [`Tokenize::obeys_encoded`]; of any other implementation nothing is
/// claimed about the ids it gives.
pub trait Tokenize {
    /// Whether [`Tokenize::encoded`] describes this tokenizer.
    open spec fn obeys_encoded(&self) -> bool {
        false
    }

    /// The ids this tokenizer gives a text, or `None` when it rejects the text.
    open spec fn encoded(&self, text: Seq<char>) -> Option<Seq<u32>> {
        None
    }

    /// Encode raw text without adding special tokens.
    fn encode_ordinary(&self, text: &str) -> (r: Result<Vec<u32>>)
        ensures
            self.obeys_encoded() ==> match self.encoded(text@) {
                Some(ids) => r matches Ok(v) && v@ == ids,
                None => r is Err,
            },
    ;
}

/// Packing configuration (mirrors checkpoint `max_len` / `head_max_len`).
#[derive(Debug, Clone, Copy, PartialEq, Eq, Structural)]
pub struct SequenceConfig {
    /// Total sequence length.
    pub max_len: usize,
    /// Budget for instructions + option markers.
    pub head_max_len: usize,
    /// Per-option token cap before budget rebalance (default 48).
    pub option_cap: usize,
}

impl Default for SequenceConfig {
    fn default() -> (r: Self)
        ensures
            r.max_len == 512 && r.head_max_len == 192 && r.option_cap == 48,
    {
        SequenceConfig { max_len: 512, head_max_len: 192, option_cap: 48 }
    }
}

/// Packed question ready for batching / model input.
#[derive(Debug, Clone, PartialEq, Eq)]
pub struct PackedQuestion {
    /// Token ids including specials.
    pub input_ids: Vec<u32>,
    /// Absolute positions of each `[MASK]` marker.
    pub markers: Vec<usize>,
    /// Dense qtype id.
    pub qtype: u8,
    /// Rendered option labels in marker order (for decoding argmax).
    pub option_labels: Vec<String>,
}

// ---------------------------------------------------------------------------
// Rendering options
// ---------------------------------------------------------------------------

/// Prompt text of one choice option.
pub open spec fn choice_option_text(key: Seq<char>, gloss: Option<Json>) -> Seq<char> {
    match gloss {
        None => key,
        Some(d) => if json_text(d).len() == 0 {
            key
        } else {
            key + ": "@ + json_text(d)
        },
    }
}

/// A noul gloss, or the fallback when it is absent or renders empty.
pub open spec fn noul_gloss(g: Option<Json>, fallback: Seq<char>) -> Seq<char> {
    match g {
        Some(d) => if json_text(d).len() > 0 {
            json_text(d)
        } else {
            fallback
        },
        None => fallback,
    }
}

/// The two noul options, `false` first.
pub open spec fn noul_options(false_gloss: Option<Json>, true_gloss: Option<Json>) -> Seq<
    (Seq<char>, Seq<char>),
> {
    seq![
        ("false"@, "false: "@ + noul_gloss(false_gloss, "no, the statement does not hold"@)),
        ("true"@, "true: "@ + noul_gloss(true_gloss, "yes, the statement holds"@)),
    ]
}

/// Score level `i` as an option.
pub open spec fn score_option(i: int, level: Json) -> (Seq<char>, Seq<char>) {
    (decimal(i as nat), "level "@ + decimal(i as nat) + ": "@ + json_text(level))
}

/// What `render_options` returns: `(label, prompt text)` per option, or the
/// reason the criteria do not match the kind.
pub open spec fn rendered_options(q: Question) -> core::result::Result<
    Seq<(Seq<char>, Seq<char>)>,
    Seq<char>,
> {
    match q.type_ {
        DecisionKind::Choice => match q.criteria {
            Some(Criteria::Choice(opts)) => Ok(
                option_entries(opts).map_values(
                    |e: (String, Option<Json>)| (e.0@, choice_option_text(e.0@, e.1)),
                ),
            ),
            _ => Err("choice criteria missing"@),
        },
        DecisionKind::Score => match q.criteria {
            Some(Criteria::Score(levels)) => Ok(
                Seq::new(levels@.len(), |i: int| score_option(i, levels@[i])),
            ),
            _ => Err("score criteria missing"@),
        },
        DecisionKind::Noul => match q.criteria {
            None => Ok(noul_options(None, None)),
            Some(Criteria::Noul { true_gloss, false_gloss }) => Ok(
                noul_options(false_gloss, true_gloss),
            ),
            Some(_) => Err("noul criteria must be noul glosses or omitted"@),
        },
    }
}

/// Views of rendered option pairs.
pub open spec fn pair_views(v: Seq<(String, String)>) -> Seq<(Seq<char>, Seq<char>)> {
    v.map_values(|p: (String, String)| (p.0@, p.1@))
}

fn invalid_question(reason: &str) -> (e: Error)
    ensures
        is_invalid_with(e, reason@),
{
    Error::InvalidQuestion { id: String::new(), reason: String::from_str(reason) }
}

fn gloss_or(g: &Option<Json>, fallback: &str) -> (r: Vec<char>)
    ensures
        r@ == noul_gloss(*g, fallback@),
{
    match g {
        Some(d) => {
            let t = chars_of(criterion_text(d).as_str());
            if t.len() > 0 {
                t
            } else {
                chars_of(fallback)
            }
        },
        None => chars_of(fallback),
    }
}

/// Render option strings for the decision head prompt.
#[verifier::rlimit(30)]
pub fn render_options(question: &Question) -> (r: Result<Vec<(String, String)>>)
    ensures
        match rendered_options(*question) {
            Ok(s) => r matches Ok(v) && pair_views(v@) == s,
            Err(reason) => r matches Err(e) && is_invalid_with(e, reason),
        },
{
    match question.type_ {
        DecisionKind::Choice => {
            let opts = match &question.criteria {
                Some(Criteria::Choice(opts)) => opts,
                _ => {
                    return Err(invalid_question("choice criteria missing"));
                },
            };
            let n = option_count(opts);
            let ghost entries = option_entries(*opts);
            let ghost expect = entries.map_values(
                |e: (String, Option<Json>)| (e.0@, choice_option_text(e.0@, e.1)),
            );
            let mut out: Vec<(String, String)> = Vec::new();
            let mut i: usize = 0;
            while i < n
                invariant
                    n == entries.len(),
                    entries == option_entries(*opts),
                    expect == entries.map_values(
                        |e: (String, Option<Json>)| (e.0@, choice_option_text(e.0@, e.1)),
                    ),
                    i <= n,
                    pair_views(out@) == expect.take(i as int),
                decreases n - i,
            {
                let (key, gloss) = option_at(opts, i);
                let text = match gloss {
                    None => key.clone(),
                    Some(desc) => {
                        let rendered = chars_of(criterion_text(desc).as_str());
                        if rendered.len() == 0 {
                            key.clone()
                        } else {
                            let mut cs = chars_of(key.as_str());
                            append_str(&mut cs, ": ");
                            append_chars(&mut cs, rendered.as_slice());
                            string_of(cs.as_slice())
                        }
                    },
                };
                let ghost prev = out@;
                out.push((key.clone(), text));
                proof {
                    assert(pair_views(out@) =~= pair_views(prev).push(expect[i as int]));
                    assert(expect.take(i + 1) =~= expect.take(i as int).push(expect[i as int]));
                }
                i = i + 1;
            }
            proof {
                assert(expect.take(n as int) =~= expect);
            }
            Ok(out)
        },
        DecisionKind::Score => {
            let levels = match &question.criteria {
                Some(Criteria::Score(levels)) => levels,
                _ => {
                    return Err(invalid_question("score criteria missing"));
                },
            };
            let ghost expect = Seq::new(levels@.len(), |i: int| score_option(i, levels@[i]));
            let mut out: Vec<(String, String)> = Vec::new();
            let mut i: usize = 0;
            while i < levels.len()
                invariant
                    i <= levels@.len(),
                    expect == Seq::new(levels@.len(), |i: int| score_option(i, levels@[i])),
                    pair_views(out@) == expect.take(i as int),
                decreases levels@.len() - i,
            {
                let label = decimal_chars(i);
                let mut text: Vec<char> = Vec::new();
                append_str(&mut text, "level ");
                append_chars(&mut text, label.as_slice());
                append_str(&mut text, ": ");
                let gloss = criterion_text(&levels[i]);
                append_str(&mut text, gloss.as_str());
                let ghost prev = out@;
                out.push((string_of(label.as_slice()), string_of(text.as_slice())));
                proof {
                    assert(text@ =~= "level "@ + decimal(i as nat) + ": "@ + json_text(
                        levels@[i as int],
                    ));
                    assert(pair_views(out@) =~= pair_views(prev).push(expect[i as int]));
                    assert(expect.take(i + 1) =~= expect.take(i as int).push(expect[i as int]));
                }
                i = i + 1;
            }
            proof {
                assert(expect.take(levels@.len() as int) =~= expect);
            }
            Ok(out)
        },
        DecisionKind::Noul => match &question.criteria {
            None => {
                let absent: Option<Json> = None;
                Ok(noul_pair(&absent, &absent))
            },
            Some(Criteria::Noul { false_gloss, true_gloss }) => Ok(noul_pair(false_gloss, true_gloss)),
            Some(_) => Err(invalid_question("noul criteria must be noul glosses or omitted")),
        },
    }
}

fn noul_pair(false_g: &Option<Json>, true_g: &Option<Json>) -> (r: Vec<(String, String)>)
    ensures
        pair_views(r@) == noul_options(*false_g, *true_g),
{
    let f = gloss_or(false_g, "no, the statement does not hold");
    let t = gloss_or(true_g, "yes, the statement holds");
    let mut ftext: Vec<char> = Vec::new();
    append_str(&mut ftext, "false: ");
    append_chars(&mut ftext, f.as_slice());
    let mut ttext: Vec<char> = Vec::new();
    append_str(&mut ttext, "true: ");
    append_chars(&mut ttext, t.as_slice());
    let mut out: Vec<(String, String)> = Vec::new();
    out.push((String::from_str("false"), string_of(ftext.as_slice())));
    out.push((String::from_str("true"), string_of(ttext.as_slice())));
    proof {
        assert(pair_views(out@) =~= noul_options(*false_g, *true_g));
    }
    out
}

// ---------------------------------------------------------------------------
// Packing specification
// ---------------------------------------------------------------------------

/// A text with every occurrence of the mask token replaced by a space.
pub open spec fn cleaned(text: Seq<char>, mask: Seq<char>) -> Seq<char> {
    replaced(text, mask, " "@)
}

/// The head prompt: `"{kind} question: {instructions}"`.
pub open spec fn head_prompt(q: Question, mask: Seq<char>) -> Seq<char> {
    kind_name(q.type_) + " question: "@ + cleaned(json_text(q.instructions), mask)
}

/// `Vec::truncate`: keep at most `n` entries.
pub open spec fn truncated<A>(s: Seq<A>, n: int) -> Seq<A> {
    if s.len() > n {
        s.take(n)
    } else {
        s
    }
}

/// `usize::saturating_sub` on integers.
pub open spec fn sat_sub(a: int, b: int) -> int {
    if a > b {
        a - b
    } else {
        0
    }
}

/// Option token blocks: `[MASK]` followed by the capped encoding of `" {text}"`.
pub open spec fn option_blocks<T: Tokenize>(
    tok: &T,
    texts: Seq<Seq<char>>,
    mask: Seq<char>,
    mask_id: u32,
    cap: usize,
) -> Option<Seq<Seq<u32>>>
    decreases texts.len(),
{
    if texts.len() == 0 {
        Some(Seq::empty())
    } else {
        match option_blocks(tok, texts.drop_last(), mask, mask_id, cap) {
            None => None,
            Some(prev) => match tok.encoded(" "@ + cleaned(texts.last(), mask)) {
                None => None,
                Some(body) => Some(prev.push(seq![mask_id] + truncated(body, cap as int))),
            },
        }
    }
}

/// Total length of token blocks.
pub open spec fn lens_sum(s: Seq<Seq<u32>>) -> int
    decreases s.len(),
{
    if s.len() == 0 {
        0
    } else {
        lens_sum(s.drop_last()) + s.last().len()
    }
}

/// Token blocks laid end to end.
pub open spec fn concat(s: Seq<Seq<u32>>) -> Seq<u32>
    decreases s.len(),
{
    if s.len() == 0 {
        Seq::empty()
    } else {
        concat(s.drop_last()) + s.last()
    }
}

/// Per-option share when the options crowd out the head: at least 4 tokens.
pub open spec fn option_share(head_max_len: usize, n: nat) -> int {
    let d = if n >= 1 {
        n as int
    } else {
        1
    };
    let per = sat_sub(head_max_len as int, 16) / d;
    if per >= 4 {
        per
    } else {
        4
    }
}

/// Option blocks after rebalancing: when fewer than 16 head tokens remain,
/// every block is cut to an equal share.
pub open spec fn rebalanced(blocks: Seq<Seq<u32>>, head_max_len: usize) -> Seq<Seq<u32>> {
    if sat_sub(head_max_len as int, lens_sum(blocks)) < 16 {
        let per = option_share(head_max_len, blocks.len());
        blocks.map_values(|b: Seq<u32>| truncated(b, per))
    } else {
        blocks
    }
}

/// Head tokens kept: what the options leave of the head budget, at least 8.
pub open spec fn head_keep(blocks: Seq<Seq<u32>>, head_max_len: usize) -> int {
    let left = sat_sub(head_max_len as int, lens_sum(blocks));
    if left >= 8 {
        left
    } else {
        8
    }
}

/// Marker positions: each block's start when the blocks follow `start` tokens.
pub open spec fn marker_positions(start: int, blocks: Seq<Seq<u32>>) -> Seq<int>
    decreases blocks.len(),
{
    if blocks.len() == 0 {
        Seq::empty()
    } else {
        marker_positions(start, blocks.drop_last()).push(start + lens_sum(blocks.drop_last()))
    }
}

/// Markers that still index into a sequence of length `len`.
pub open spec fn markers_below(ms: Seq<int>, len: int) -> Seq<int>
    decreases ms.len(),
{
    if ms.len() == 0 {
        Seq::empty()
    } else if ms.last() < len {
        markers_below(ms.drop_last(), len).push(ms.last())
    } else {
        markers_below(ms.drop_last(), len)
    }
}

/// Why packing fails.
#[derive(Debug, Clone, Copy, PartialEq, Eq, Structural)]
pub enum PackFault {
    /// The question's criteria do not fit its kind.
    Invalid,
    /// The tokenizer rejected a text.
    Tokenizer,
    /// A marker fell past the end of the sequence.
    OverBudget,
}

/// The head and option part, before the state: `[CLS] head [SEP] blocks [SEP]`.
pub open spec fn head_part(sp: SpecialTokens, head: Seq<u32>, blocks: Seq<Seq<u32>>) -> Seq<u32> {
    seq![sp.cls] + head + seq![sp.sep] + concat(blocks) + seq![sp.sep]
}

/// Whole sequence once the state ids are known.
pub open spec fn full_ids(
    sp: SpecialTokens,
    head: Seq<u32>,
    blocks: Seq<Seq<u32>>,
    state_ids: Seq<u32>,
    max_len: usize,
) -> Seq<u32> {
    let front = head_part(sp, head, blocks);
    let room = sat_sub(max_len as int, front.len() + 1int);
    truncated(front + truncated(state_ids, room) + seq![sp.sep], max_len as int)
}

/// What laying out encoded pieces gives: the packed ids and the option
/// markers, or `None` when cutting the sequence to `max_len` leaves fewer
/// markers than the `option_count` options. `raw` are the option blocks as
/// encoded (each `[MASK]` then the option's ids), `head_full` the encoded
/// instructions and `state_ids` the encoded state.
pub open spec fn assembled(
    sp: SpecialTokens,
    head_full: Seq<u32>,
    raw: Seq<Seq<u32>>,
    state_ids: Seq<u32>,
    cfg: SequenceConfig,
    option_count: nat,
) -> Option<(Seq<u32>, Seq<int>)> {
    let blocks = rebalanced(raw, cfg.head_max_len);
    let head = truncated(head_full, head_keep(blocks, cfg.head_max_len));
    let ids = full_ids(sp, head, blocks, state_ids, cfg.max_len);
    let markers = markers_below(marker_positions(head.len() + 2int, blocks), ids.len() as int);
    if markers.len() != option_count {
        None
    } else {
        Some((ids, markers))
    }
}

/// What `pack_question` produces: `(input ids, markers, labels)`, or why it fails
/// (with the reason for an invalid question).
pub open spec fn packed<T: Tokenize>(
    tok: &T,
    sp: SpecialTokens,
    mask: Seq<char>,
    state: State,
    q: Question,
    cfg: SequenceConfig,
) -> core::result::Result<(Seq<u32>, Seq<int>, Seq<Seq<char>>), (PackFault, Seq<char>)> {
    match rendered_options(q) {
        Err(reason) => Err((PackFault::Invalid, reason)),
        Ok(opts) => {
            let labels = opts.map_values(|p: (Seq<char>, Seq<char>)| p.0);
            let texts = opts.map_values(|p: (Seq<char>, Seq<char>)| p.1);
            match tok.encoded(head_prompt(q, mask)) {
                None => Err((PackFault::Tokenizer, Seq::empty())),
                Some(head_full) => {
                    match option_blocks(tok, texts, mask, sp.mask, cfg.option_cap) {
                    None => Err((PackFault::Tokenizer, Seq::empty())),
                    Some(raw) => {
                        let blocks = rebalanced(raw, cfg.head_max_len);
                        let head = truncated(head_full, head_keep(blocks, cfg.head_max_len));
                        match tok.encoded(cleaned(model_text_of(state), mask)) {
                            None => Err((PackFault::Tokenizer, Seq::empty())),
                            Some(state_ids) => {
                                let ids = full_ids(sp, head, blocks, state_ids, cfg.max_len);
                                let markers = markers_below(
                                    marker_positions(head.len() + 2int, blocks),
                                    ids.len() as int,
                                );
                                if markers.len() != labels.len() {
                                    Err((PackFault::OverBudget, Seq::empty()))
                                } else {
                                    Ok((ids, markers, labels))
                                }
                            },
                        }
                    },
                }
                },
            }
        },
    }
}

/// Layout laws of a packed sequence: within `max_len`; `[CLS]` first; every
/// marker inside the sequence on a `[MASK]`, markers strictly increasing, the
/// first one right after the head `[SEP]`; the last token is `[SEP]` unless
/// the sequence was cut at `max_len`.
pub open spec fn well_packed(ids: Seq<u32>, markers: Seq<int>, sp: SpecialTokens, max_len: usize) -> bool {
    &&& ids.len() <= max_len
    &&& ids.len() > 0 ==> ids[0] == sp.cls
    &&& forall|i: int|
        0 <= i < markers.len() ==> 0 <= #[trigger] markers[i] < ids.len() && ids[markers[i]]
            == sp.mask
    &&& forall|i: int, j: int| 0 <= i < j < markers.len() ==> markers[i] < markers[j]
    &&& markers.len() > 0 ==> markers[0] >= 2 && ids[markers[0] - 1] == sp.sep
    &&& ids.len() > 0 ==> (ids.len() == max_len || ids.last() == sp.sep)
}

// ---------------------------------------------------------------------------
// Lemmas on the packing specification
// ---------------------------------------------------------------------------

proof fn lemma_concat_len(s: Seq<Seq<u32>>)
    ensures
        concat(s).len() == lens_sum(s),
    decreases s.len(),
{
    if s.len() > 0 {
        lemma_concat_len(s.drop_last());
    }
}

proof fn lemma_concat_index(s: Seq<Seq<u32>>, i: int, j: int)
    requires
        0 <= i < s.len(),
        0 <= j < s[i].len(),
    ensures
        0 <= lens_sum(s.take(i)) + j < concat(s).len(),
        concat(s)[lens_sum(s.take(i)) + j] == s[i][j],
    decreases s.len(),
{
    lemma_concat_len(s);
    lemma_concat_len(s.drop_last());
    if i == s.len() - 1 {
        assert(s.take(i) =~= s.drop_last());
    } else {
        lemma_concat_index(s.drop_last(), i, j);
        assert(s.drop_last().take(i) =~= s.take(i));
        assert(s.drop_last()[i] == s[i]);
    }
}

proof fn lemma_lens_sum_take_mono(s: Seq<Seq<u32>>, i: int, j: int)
    requires
        0 <= i < j <= s.len(),
        forall|k: int| 0 <= k < s.len() ==> #[trigger] s[k].len() > 0,
    ensures
        lens_sum(s.take(i)) < lens_sum(s.take(j)),
    decreases j - i,
{
    assert(s.take(j).drop_last() =~= s.take(j - 1));
    if i < j - 1 {
        lemma_lens_sum_take_mono(s, i, j - 1);
    }
}

proof fn lemma_marker_positions(start: int, s: Seq<Seq<u32>>)
    ensures
        marker_positions(start, s).len() == s.len(),
        forall|i: int|
            0 <= i < s.len() ==> #[trigger] marker_positions(start, s)[i] == start + lens_sum(
                s.take(i),
            ),
    decreases s.len(),
{
    if s.len() > 0 {
        lemma_marker_positions(start, s.drop_last());
        assert forall|i: int| 0 <= i < s.len() implies #[trigger] marker_positions(start, s)[i]
            == start + lens_sum(s.take(i)) by {
            if i < s.len() - 1 {
                assert(s.drop_last().take(i) =~= s.take(i));
            } else {
                assert(s.take(i) =~= s.drop_last());
            }
        }
    }
}

proof fn lemma_markers_below(ms: Seq<int>, len: int)
    ensures
        markers_below(ms, len).len() <= ms.len(),
        markers_below(ms, len).len() == ms.len() ==> markers_below(ms, len) == ms && forall|i: int|
            0 <= i < ms.len() ==> #[trigger] ms[i] < len,
    decreases ms.len(),
{
    if ms.len() > 0 {
        lemma_markers_below(ms.drop_last(), len);
        if markers_below(ms, len).len() == ms.len() {
            assert(ms.last() < len);
            assert(ms.drop_last().push(ms.last()) =~= ms);
            assert forall|i: int| 0 <= i < ms.len() implies #[trigger] ms[i] < len by {
                if i < ms.len() - 1 {
                    assert(ms[i] == ms.drop_last()[i]);
                }
            }
        }
    }
}

proof fn lemma_option_blocks(
    tok: &impl Tokenize,
    texts: Seq<Seq<char>>,
    mask: Seq<char>,
    mask_id: u32,
    cap: usize,
)
    ensures
        option_blocks(tok, texts, mask, mask_id, cap) matches Some(b) ==> b.len() == texts.len()
            && forall|k: int| 0 <= k < b.len() ==> #[trigger] b[k].len() > 0 && b[k][0] == mask_id,
    decreases texts.len(),
{
    if texts.len() > 0 {
        lemma_option_blocks(tok, texts.drop_last(), mask, mask_id, cap);
    }
}

proof fn lemma_rebalanced(blocks: Seq<Seq<u32>>, head_max_len: usize, mask_id: u32)
    requires
        forall|k: int| 0 <= k < blocks.len() ==> #[trigger] blocks[k].len() > 0 && blocks[k][0]
            == mask_id,
    ensures
        rebalanced(blocks, head_max_len).len() == blocks.len(),
        forall|k: int|
            0 <= k < blocks.len() ==> #[trigger] rebalanced(blocks, head_max_len)[k].len() > 0
                && rebalanced(blocks, head_max_len)[k][0] == mask_id,
{
}

/// The layout laws hold of a sequence assembled from any head, any option
/// blocks that each start with `[MASK]`, and any state ids, whenever no
/// marker was cut off.
#[verifier::rlimit(30)]
pub proof fn lemma_assembled_layout(
    sp: SpecialTokens,
    head: Seq<u32>,
    blocks: Seq<Seq<u32>>,
    state_ids: Seq<u32>,
    max_len: usize,
)
    requires
        forall|k: int| 0 <= k < blocks.len() ==> #[trigger] blocks[k].len() > 0 && blocks[k][0]
            == sp.mask,
    ensures
        ({
            let ids = full_ids(sp, head, blocks, state_ids, max_len);
            let markers = markers_below(marker_positions(head.len() + 2int, blocks), ids.len() as int);
            markers.len() == blocks.len() ==> well_packed(ids, markers, sp, max_len)
        }),
{
    let front = head_part(sp, head, blocks);
    let room = sat_sub(max_len as int, front.len() + 1int);
    let full = front + truncated(state_ids, room) + seq![sp.sep];
    let ids = full_ids(sp, head, blocks, state_ids, max_len);
    let start = head.len() + 2int;
    let positions = marker_positions(start, blocks);
    let markers = markers_below(positions, ids.len() as int);
    lemma_marker_positions(start, blocks);
    lemma_markers_below(positions, ids.len() as int);
    lemma_concat_len(blocks);
    if markers.len() == blocks.len() {
        assert(markers == positions);
        let pre = seq![sp.cls] + head + seq![sp.sep];
        assert(front == pre + concat(blocks) + seq![sp.sep]);
        assert forall|i: int| 0 <= i < markers.len() implies 0 <= #[trigger] markers[i] < ids.len()
            && ids[markers[i]] == sp.mask by {
            lemma_concat_index(blocks, i, 0);
            let off = lens_sum(blocks.take(i));
            assert(markers[i] == start + off);
            assert(front[start + off] == concat(blocks)[off]);
            assert(full[start + off] == front[start + off]);
        }
        assert forall|i: int, j: int| 0 <= i < j < markers.len() implies markers[i] < markers[j] by {
            lemma_lens_sum_take_mono(blocks, i, j);
        }
        if markers.len() > 0 {
            assert(blocks.take(0) =~= Seq::<Seq<u32>>::empty());
            assert(markers[0] == start);
            assert(front[start - 1] == sp.sep);
            assert(full[start - 1] == sp.sep);
        }
        if ids.len() > 0 {
            assert(full[0] == sp.cls);
            if full.len() <= max_len {
                assert(ids == full);
            }
        }
    }
}

/// Layout laws hold of every sequence the packing specification gives.
pub proof fn lemma_packed_layout<T: Tokenize>(
    tok: &T,
    sp: SpecialTokens,
    mask: Seq<char>,
    state: State,
    q: Question,
    cfg: SequenceConfig,
)
    ensures
        packed(tok, sp, mask, state, q, cfg) matches Ok((ids, markers, labels)) ==> markers.len()
            == labels.len() && well_packed(ids, markers, sp, cfg.max_len),
{
    if let Ok(opts) = rendered_options(q) {
        let texts = opts.map_values(|p: (Seq<char>, Seq<char>)| p.1);
        if let Some(head_full) = tok.encoded(head_prompt(q, mask)) {
            lemma_option_blocks(tok, texts, mask, sp.mask, cfg.option_cap);
            if let Some(raw) = option_blocks(tok, texts, mask, sp.mask, cfg.option_cap) {
                let blocks = rebalanced(raw, cfg.head_max_len);
                lemma_rebalanced(raw, cfg.head_max_len, sp.mask);
                let head = truncated(head_full, head_keep(blocks, cfg.head_max_len));
                if let Some(state_ids) = tok.encoded(cleaned(model_text_of(state), mask)) {
                    lemma_assembled_layout(sp, head, blocks, state_ids, cfg.max_len);
                }
            }
        }
    }
}

// ---------------------------------------------------------------------------
// Packing
// ---------------------------------------------------------------------------

/// Views of token blocks.
pub open spec fn block_views(v: Seq<Vec<u32>>) -> Seq<Seq<u32>> {
    v.map_values(|b: Vec<u32>| b@)
}

/// Views of labels.
pub open spec fn label_views(v: Seq<String>) -> Seq<Seq<char>> {
    v.map_values(|l: String| l@)
}

fn encode_chars<T: Tokenize>(tok: &T, text: &[char]) -> (r: Result<Vec<u32>>)
    ensures
        tok.obeys_encoded() ==> match tok.encoded(text@) {
            Some(ids) => r matches Ok(v) && v@ == ids,
            None => r is Err,
        },
{
    let s = string_of(text);
    tok.encode_ordinary(s.as_str())
}

fn prefix_of(v: &Vec<u32>, n: usize) -> (r: Vec<u32>)
    ensures
        r@ == truncated(v@, n as int),
{
    let mut out: Vec<u32> = Vec::new();
    let k = if v.len() > n {
        n
    } else {
        v.len()
    };
    let mut i: usize = 0;
    while i < k
        invariant
            k <= v@.len(),
            i <= k,
            out@ == v@.take(i as int),
        decreases k - i,
    {
        proof {
            assert(v@.take(i + 1) =~= v@.take(i as int).push(v@[i as int]));
        }
        out.push(v[i]);
        i = i + 1;
    }
    proof {
        assert(v@.take(k as int) =~= truncated(v@, n as int));
    }
    out
}

fn append_ids(out: &mut Vec<u32>, ids: &Vec<u32>)
    ensures
        final(out)@ == old(out)@ + ids@,
{
    let ghost start = out@;
    let mut i: usize = 0;
    while i < ids.len()
        invariant
            i <= ids@.len(),
            out@ == start + ids@.take(i as int),
        decreases ids@.len() - i,
    {
        proof {
            assert(start + ids@.take(i + 1) =~= (start + ids@.take(i as int)).push(ids@[i as int]));
        }
        out.push(ids[i]);
        i = i + 1;
    }
    proof {
        assert(ids@.take(ids@.len() as int) =~= ids@);
    }
}

/// `[MASK]` and the capped encoding of `" {cleaned text}"`.
fn option_block<T: Tokenize>(tok: &T, text: &str, mask_str: &str, mask_id: u32, cap: usize) -> (r:
    Result<Vec<u32>>)
    ensures
        tok.obeys_encoded() ==> match tok.encoded(" "@ + cleaned(text@, mask_str@)) {
            Some(body) => r matches Ok(v) && v@ == seq![mask_id] + truncated(body, cap as int),
            None => r is Err,
        },
        r matches Ok(v) ==> v@.len() > 0 && v@[0] == mask_id,
{
    let cleaned_text = replace(text, mask_str, " ");
    let mut prompt: Vec<char> = Vec::new();
    append_str(&mut prompt, " ");
    append_str(&mut prompt, cleaned_text.as_str());
    let body = match encode_chars(tok, prompt.as_slice()) {
        Ok(body) => body,
        Err(e) => {
            return Err(e);
        },
    };
    let capped = prefix_of(&body, cap);
    let mut ids: Vec<u32> = Vec::new();
    ids.push(mask_id);
    append_ids(&mut ids, &capped);
    proof {
        assert(ids@ =~= seq![mask_id] + capped@);
    }
    Ok(ids)
}

proof fn lemma_option_blocks_none(
    tok: &impl Tokenize,
    texts: Seq<Seq<char>>,
    i: int,
    mask: Seq<char>,
    mask_id: u32,
    cap: usize,
)
    requires
        0 <= i <= texts.len(),
        option_blocks(tok, texts.take(i), mask, mask_id, cap) is None,
    ensures
        option_blocks(tok, texts, mask, mask_id, cap) is None,
    decreases texts.len() - i,
{
    if i < texts.len() {
        assert(texts.take(i + 1).drop_last() =~= texts.take(i));
        lemma_option_blocks_none(tok, texts, i + 1, mask, mask_id, cap);
    } else {
        assert(texts.take(i) =~= texts);
    }
}

fn encode_blocks<T: Tokenize>(tok: &T, texts: &Vec<String>, mask_str: &str, mask_id: u32, cap: usize) -> (r: Result<Vec<Vec<u32>>>)
    ensures
        tok.obeys_encoded() ==> match option_blocks(tok, label_views(texts@), mask_str@, mask_id, cap) {
            Some(b) => r matches Ok(v) && block_views(v@) == b,
            None => r is Err,
        },
        r matches Ok(v) ==> v@.len() == texts@.len() && forall|k: int|
            0 <= k < v@.len() ==> #[trigger] block_views(v@)[k].len() > 0 && block_views(v@)[k][0]
                == mask_id,
{
    let ghost tv = label_views(texts@);
    let mut blocks: Vec<Vec<u32>> = Vec::new();
    let mut i: usize = 0;
    proof {
        assert(tv.take(0) =~= Seq::<Seq<char>>::empty());
        assert(block_views(blocks@) =~= Seq::<Seq<u32>>::empty());
    }
    while i < texts.len()
        invariant
            i <= texts@.len(),
            tv == label_views(texts@),
            tok.obeys_encoded() ==> option_blocks(tok, tv.take(i as int), mask_str@, mask_id, cap)
                == Some(block_views(blocks@)),
            blocks@.len() == i,
            forall|k: int|
                0 <= k < blocks@.len() ==> #[trigger] block_views(blocks@)[k].len() > 0
                    && block_views(blocks@)[k][0] == mask_id,
        decreases texts@.len() - i,
    {
        proof {
            assert(tv.take(i + 1).drop_last() =~= tv.take(i as int));
            assert(tv.take(i + 1).last() == texts@[i as int]@);
        }
        match option_block(tok, texts[i].as_str(), mask_str, mask_id, cap) {
            Ok(block) => {
                let ghost prev = blocks@;
                blocks.push(block);
                proof {
                    assert(block_views(blocks@) =~= block_views(prev).push(block@));
                }
            },
            Err(e) => {
                proof {
                    if tok.obeys_encoded() {
                        lemma_option_blocks_none(tok, tv, i + 1, mask_str@, mask_id, cap);
                    }
                }
                return Err(e);
            },
        }
        i = i + 1;
    }
    proof {
        assert(tv.take(texts@.len() as int) =~= tv);
    }
    Ok(blocks)
}

fn blocks_len_sum(blocks: &Vec<Vec<u32>>) -> (r: usize)
    ensures
        r as int == if lens_sum(block_views(blocks@)) <= usize::MAX {
            lens_sum(block_views(blocks@))
        } else {
            usize::MAX as int
        },
{
    let ghost bv = block_views(blocks@);
    let mut total: usize = 0;
    let mut i: usize = 0;
    while i < blocks.len()
        invariant
            i <= blocks@.len(),
            bv == block_views(blocks@),
            total as int == if lens_sum(bv.take(i as int)) <= usize::MAX {
                lens_sum(bv.take(i as int))
            } else {
                usize::MAX as int
            },
        decreases blocks@.len() - i,
    {
        proof {
            assert(bv.take(i + 1).drop_last() =~= bv.take(i as int));
            assert(bv.take(i + 1).last() == blocks@[i as int]@);
        }
        total = total.saturating_add(blocks[i].len());
        i = i + 1;
    }
    proof {
        assert(bv.take(blocks@.len() as int) =~= bv);
    }
    total
}

fn rebalance(blocks: Vec<Vec<u32>>, head_max_len: usize) -> (r: Vec<Vec<u32>>)
    ensures
        block_views(r@) == rebalanced(block_views(blocks@), head_max_len),
{
    let total = blocks_len_sum(&blocks);
    let opt_budget = head_max_len.saturating_sub(total);
    if opt_budget >= 16 {
        return blocks;
    }
    let n = blocks.len();
    let d = if n >= 1 {
        n
    } else {
        1
    };
    let share = head_max_len.saturating_sub(16) / d;
    let per = if share >= 4 {
        share
    } else {
        4
    };
    let ghost bv = block_views(blocks@);
    let mut out: Vec<Vec<u32>> = Vec::new();
    let mut i: usize = 0;
    while i < n
        invariant
            n == blocks@.len(),
            bv == block_views(blocks@),
            per as int == option_share(head_max_len, n as nat),
            i <= n,
            block_views(out@) == bv.take(i as int).map_values(
                |b: Seq<u32>| truncated(b, per as int),
            ),
        decreases n - i,
    {
        let cut = prefix_of(&blocks[i], per);
        let ghost prev = out@;
        out.push(cut);
        proof {
            assert(block_views(out@) =~= block_views(prev).push(cut@));
            assert(bv.take(i + 1).map_values(|b: Seq<u32>| truncated(b, per as int))
                =~= bv.take(i as int).map_values(|b: Seq<u32>| truncated(b, per as int)).push(
                truncated(bv[i as int], per as int),
            ));
        }
        i = i + 1;
    }
    proof {
        assert(bv.take(n as int) =~= bv);
    }
    out
}

/// Labels and prompt texts of rendered options, in order.
fn split_pairs(rendered: &Vec<(String, String)>) -> (r: (Vec<String>, Vec<String>))
    ensures
        label_views(r.0@) == pair_views(rendered@).map_values(|p: (Seq<char>, Seq<char>)| p.0),
        label_views(r.1@) == pair_views(rendered@).map_values(|p: (Seq<char>, Seq<char>)| p.1),
{
    let ghost opts = pair_views(rendered@);
    let mut option_labels: Vec<String> = Vec::new();
    let mut option_texts: Vec<String> = Vec::new();
    let mut i: usize = 0;
    while i < rendered.len()
        invariant
            i <= rendered@.len(),
            opts == pair_views(rendered@),
            label_views(option_labels@) == opts.take(i as int).map_values(
                |p: (Seq<char>, Seq<char>)| p.0,
            ),
            label_views(option_texts@) == opts.take(i as int).map_values(
                |p: (Seq<char>, Seq<char>)| p.1,
            ),
        decreases rendered@.len() - i,
    {
        let ghost pl = option_labels@;
        let ghost pt = option_texts@;
        option_labels.push(rendered[i].0.clone());
        option_texts.push(rendered[i].1.clone());
        proof {
            assert(label_views(option_labels@) =~= label_views(pl).push(opts[i as int].0));
            assert(label_views(option_texts@) =~= label_views(pt).push(opts[i as int].1));
            assert(opts.take(i + 1).map_values(|p: (Seq<char>, Seq<char>)| p.0) =~= opts.take(
                i as int,
            ).map_values(|p: (Seq<char>, Seq<char>)| p.0).push(opts[i as int].0));
            assert(opts.take(i + 1).map_values(|p: (Seq<char>, Seq<char>)| p.1) =~= opts.take(
                i as int,
            ).map_values(|p: (Seq<char>, Seq<char>)| p.1).push(opts[i as int].1));
        }
        i = i + 1;
    }
    proof {
        assert(opts.take(rendered@.len() as int) =~= opts);
    }
    (option_labels, option_texts)
}

/// `[CLS] head [SEP]` followed by the option blocks and a closing `[SEP]`,
/// with each block's start position.
fn assemble_front(specials: SpecialTokens, head: &Vec<u32>, blocks: &Vec<Vec<u32>>) -> (r: (
    Vec<u32>,
    Vec<usize>,
))
    ensures
        r.0@ == head_part(specials, head@, block_views(blocks@)),
        r.1@.map_values(|m: usize| m as int) == marker_positions(
            head@.len() + 2int,
            block_views(blocks@),
        ),
{
    let ghost bv = block_views(blocks@);
    let mut ids: Vec<u32> = Vec::new();
    ids.push(specials.cls);
    append_ids(&mut ids, head);
    ids.push(specials.sep);
    let ghost pre = ids@;
    proof {
        assert(pre =~= seq![specials.cls] + head@ + seq![specials.sep]);
        assert(bv.take(0) =~= Seq::<Seq<u32>>::empty());
    }
    let mut markers: Vec<usize> = Vec::new();
    let mut b: usize = 0;
    while b < blocks.len()
        invariant
            b <= blocks@.len(),
            bv == block_views(blocks@),
            pre == seq![specials.cls] + head@ + seq![specials.sep],
            pre.len() == head@.len() + 2,
            ids@ == pre + concat(bv.take(b as int)),
            markers@.map_values(|m: usize| m as int) == marker_positions(
                head@.len() + 2int,
                bv.take(b as int),
            ),
        decreases blocks@.len() - b,
    {
        proof {
            assert(bv.take(b + 1).drop_last() =~= bv.take(b as int));
            assert(bv.take(b + 1).last() == blocks@[b as int]@);
            lemma_concat_len(bv.take(b as int));
        }
        let ghost pm = markers@;
        markers.push(ids.len());
        append_ids(&mut ids, &blocks[b]);
        proof {
            assert(markers@.map_values(|m: usize| m as int) =~= pm.map_values(
                |m: usize| m as int,
            ).push(pre.len() + lens_sum(bv.take(b as int))));
            assert(ids@ =~= pre + concat(bv.take(b + 1)));
        }
        b = b + 1;
    }
    proof {
        assert(bv.take(blocks@.len() as int) =~= bv);
    }
    ids.push(specials.sep);
    proof {
        assert(ids@ =~= head_part(specials, head@, bv));
    }
    (ids, markers)
}

/// The markers below `len`, in order.
fn markers_within(markers: &Vec<usize>, len: usize) -> (r: Vec<usize>)
    ensures
        r@.map_values(|m: usize| m as int) == markers_below(
            markers@.map_values(|m: usize| m as int),
            len as int,
        ),
{
    let ghost all = markers@.map_values(|m: usize| m as int);
    let mut kept: Vec<usize> = Vec::new();
    let mut m: usize = 0;
    proof {
        assert(all.take(0) =~= Seq::<int>::empty());
    }
    while m < markers.len()
        invariant
            m <= markers@.len(),
            all == markers@.map_values(|m: usize| m as int),
            kept@.map_values(|m: usize| m as int) == markers_below(all.take(m as int), len as int),
        decreases markers@.len() - m,
    {
        proof {
            assert(all.take(m + 1).drop_last() =~= all.take(m as int));
            assert(all.take(m + 1).last() == markers@[m as int] as int);
        }
        if markers[m] < len {
            let ghost pk = kept@;
            kept.push(markers[m]);
            proof {
                assert(kept@.map_values(|m: usize| m as int) =~= pk.map_values(
                    |m: usize| m as int,
                ).push(markers@[m as int] as int));
            }
        }
        m = m + 1;
    }
    proof {
        assert(all.take(markers@.len() as int) =~= all);
    }
    kept
}

/// Lay out an encoded question: rebalance the option blocks, keep what the
/// head budget leaves of the instructions, add the state in the room that is
/// left and cut to `max_len`; fails with `HeadBudgetExceeded` when the cut
/// drops an option marker.
#[verifier::rlimit(30)]
pub fn pack_encoded(
    question_id: &str,
    kind: DecisionKind,
    option_labels: Vec<String>,
    specials: SpecialTokens,
    head_full: &Vec<u32>,
    raw: Vec<Vec<u32>>,
    state_ids: &Vec<u32>,
    cfg: SequenceConfig,
) -> (r: Result<PackedQuestion>)
    ensures
        match assembled(
            specials,
            head_full@,
            block_views(raw@),
            state_ids@,
            cfg,
            option_labels@.len(),
        ) {
            Some((ids, markers)) => r matches Ok(p) && p.input_ids@ == ids && p.markers@.map_values(
                |m: usize| m as int,
            ) == markers && p.qtype == kind_id(kind) && p.option_labels == option_labels,
            None => r matches Err(Error::HeadBudgetExceeded { id, head_max_len }) && id@
                == question_id@ && head_max_len == cfg.head_max_len,
        },
{
    let ghost rv = block_views(raw@);
    let blocks = rebalance(raw, cfg.head_max_len);
    let ghost bv = block_views(blocks@);
    let total = blocks_len_sum(&blocks);
    let left = cfg.head_max_len.saturating_sub(total);
    let keep = if left >= 8 {
        left
    } else {
        8
    };
    proof {
        assert(keep as int == head_keep(bv, cfg.head_max_len));
    }
    let head = prefix_of(head_full, keep);
    let (mut ids, markers) = assemble_front(specials, &head, &blocks);
    let room = cfg.max_len.saturating_sub(ids.len().saturating_add(1));
    let state_kept = prefix_of(state_ids, room);
    append_ids(&mut ids, &state_kept);
    ids.push(specials.sep);
    if ids.len() > cfg.max_len {
        ids.truncate(cfg.max_len);
    }
    proof {
        assert(ids@ =~= full_ids(specials, head@, bv, state_ids@, cfg.max_len));
    }
    let kept = markers_within(&markers, ids.len());
    proof {
        assert(label_views(option_labels@).len() == option_labels@.len());
        assert(kept@.map_values(|m: usize| m as int).len() == kept@.len());
    }
    if kept.len() != option_labels.len() {
        return Err(
            Error::HeadBudgetExceeded {
                id: String::from_str(question_id),
                head_max_len: cfg.head_max_len,
            },
        );
    }
    Ok(PackedQuestion { input_ids: ids, markers: kept, qtype: kind.type_id(), option_labels })
}

/// Pack one question + state into the canonical token layout.
///
/// `mask_token_str` is replaced with a space in instructions, options and
/// state before encoding, so option markers stay unambiguous.
#[verifier::rlimit(30)]
pub fn pack_question<T: Tokenize>(
    tok: &T,
    specials: SpecialTokens,
    mask_token_str: &str,
    state: &State,
    question_id: &str,
    question: &Question,
    cfg: SequenceConfig,
) -> (r: Result<PackedQuestion>)
    ensures
        match rendered_options(*question) {
            Err(reason) => r matches Err(Error::InvalidQuestion { id, reason: rr }) && id@
                == question_id@ && rr@ == reason,
            Ok(opts) => r matches Ok(p) ==> label_views(p.option_labels@) == opts.map_values(
                |o: (Seq<char>, Seq<char>)| o.0,
            ) && p.qtype == kind_id(question.type_),
        },
        tok.obeys_encoded() ==> match packed(tok, specials, mask_token_str@, *state, *question, cfg) {
            Ok((ids, markers, labels)) => r matches Ok(p) && p.input_ids@ == ids
                && p.markers@.map_values(|m: usize| m as int) == markers && p.qtype == kind_id(
                question.type_,
            ) && label_views(p.option_labels@) == labels,
            Err((PackFault::Invalid, reason)) => r matches Err(
                Error::InvalidQuestion { id, reason: rr },
            ) && id@ == question_id@ && rr@ == reason,
            Err((PackFault::Tokenizer, _)) => r is Err,
            Err((PackFault::OverBudget, _)) => r matches Err(
                Error::HeadBudgetExceeded { id, head_max_len },
            ) && id@ == question_id@ && head_max_len == cfg.head_max_len,
        },
        r matches Ok(p) ==> p.markers@.len() == p.option_labels@.len() && well_packed(
            p.input_ids@,
            p.markers@.map_values(|m: usize| m as int),
            specials,
            cfg.max_len,
        ),
        r matches Ok(p) ==> (cfg.max_len >= 1 ==> p.input_ids@.len() > 0 && p.input_ids@[0]
            == specials.cls),
        r matches Ok(p) ==> exists|head: Seq<u32>, blocks: Seq<Seq<u32>>, state_ids: Seq<u32>|
            #[trigger] assembled(specials, head, blocks, state_ids, cfg, p.option_labels@.len())
                == Some((p.input_ids@, p.markers@.map_values(|m: usize| m as int)))
                && blocks.len() == p.option_labels@.len() && forall|k: int|
                0 <= k < blocks.len() ==> #[trigger] blocks[k].len() > 0 && blocks[k][0]
                    == specials.mask,
{
    let rendered = match render_options(question) {
        Ok(v) => v,
        Err(Error::InvalidQuestion { reason, .. }) => {
            return Err(Error::InvalidQuestion { id: String::from_str(question_id), reason });
        },
        Err(other) => {
            return Err(other);
        },
    };
    let (option_labels, option_texts) = split_pairs(&rendered);

    // Head: "{kind} question: {instructions}".
    let ins = instructions_text(&question.instructions);
    let ins_clean = replace(ins.as_str(), mask_token_str, " ");
    let mut head_text: Vec<char> = Vec::new();
    append_str(&mut head_text, question.type_.as_str());
    append_str(&mut head_text, " question: ");
    append_str(&mut head_text, ins_clean.as_str());
    proof {
        assert(head_text@ =~= head_prompt(*question, mask_token_str@));
    }
    let head_full = match encode_chars(tok, head_text.as_slice()) {
        Ok(ids) => ids,
        Err(e) => {
            return Err(e);
        },
    };

    // Option blocks: `[MASK]` then each option's ids.
    let raw = match encode_blocks(tok, &option_texts, mask_token_str, specials.mask, cfg.option_cap) {
        Ok(b) => b,
        Err(e) => {
            return Err(e);
        },
    };
    let ghost rv = block_views(raw@);

    // State segment.
    let state_text = match state.model_text() {
        Ok(t) => t,
        Err(e) => {
            return Err(e);
        },
    };
    let state_clean = replace(state_text.as_str(), mask_token_str, " ");
    let state_chars = chars_of(state_clean.as_str());
    let state_ids = match encode_chars(tok, state_chars.as_slice()) {
        Ok(v) => v,
        Err(e) => {
            return Err(e);
        },
    };
    proof {
        assert(label_views(option_labels@).len() == option_labels@.len());
        assert(label_views(option_texts@).len() == option_texts@.len());
        lemma_rebalanced(rv, cfg.head_max_len, specials.mask);
    }
    let r = pack_encoded(
        question_id,
        question.type_,
        option_labels,
        specials,
        &head_full,
        raw,
        &state_ids,
        cfg,
    );
    proof {
        if r is Ok {
            assert(assembled(specials, head_full@, rv, state_ids@, cfg, rv.len()) is Some);
        }
        let blocks = rebalanced(rv, cfg.head_max_len);
        let head = truncated(head_full@, head_keep(blocks, cfg.head_max_len));
        lemma_marker_positions(head.len() + 2int, blocks);
        lemma_assembled_layout(specials, head, blocks, state_ids@, cfg.max_len);
        if tok.obeys_encoded() {
            lemma_packed_layout(tok, specials, mask_token_str@, *state, *question, cfg);
        }
    }
    r
}

/// Char-level stub tokenizer for tests (not for production): one id per character.
#[derive(Debug, Default, Clone, Copy)]
pub struct ByteTokenizer;

/// The id `ByteTokenizer` gives a character.
pub open spec fn byte_token(c: char) -> u32 {
    ((c as u32) % 50_000 + 16) as u32
}

impl Tokenize for ByteTokenizer {
    open spec fn obeys_encoded(&self) -> bool {
        true
    }

    open spec fn encoded(&self, text: Seq<char>) -> Option<Seq<u32>> {
        Some(text.map_values(|c: char| byte_token(c)))
    }

    fn encode_ordinary(&self, text: &str) -> (r: Result<Vec<u32>>) {
        let cs = chars_of(text);
        let mut out: Vec<u32> = Vec::new();
        let mut i: usize = 0;
        while i < cs.len()
            invariant
                i <= cs@.len(),
                out@ == cs@.take(i as int).map_values(|c: char| byte_token(c)),
            decreases cs@.len() - i,
        {
            proof {
                assert(cs@.take(i + 1).map_values(|c: char| byte_token(c)) =~= cs@.take(
                    i as int,
                ).map_values(|c: char| byte_token(c)).push(byte_token(cs@[i as int])));
            }
            out.push((cs[i] as u32) % 50_000 + 16);
            i = i + 1;
        }
        proof {
            assert(cs@.take(cs@.len() as int) =~= cs@);
        }
        Ok(out)
    }
}

/// A `noul` question renders two options, `false` then `true`. Each option's
/// text is its label, `": "`, and the gloss the criteria give under that
/// same label: the false gloss for `false`, the true gloss for `true` (a
/// string gloss as written, any other JSON in its compact encoding). A gloss
/// that is absent or renders empty reads "no, the statement does not hold"
/// for `false` and "yes, the statement holds" for `true`.
pub proof fn lemma_noul_glosses_follow_labels(q: Question)
    requires
        q.type_ == DecisionKind::Noul,
        q.criteria is None || q.criteria matches Some(Criteria::Noul { .. }),
    ensures
        rendered_options(q) matches Ok(opts) && opts.len() == 2 && opts[0].0 == "false"@
            && opts[1].0 == "true"@,
        ({
            let (fg, tg) = match q.criteria {
                Some(Criteria::Noul { true_gloss, false_gloss }) => (false_gloss, true_gloss),
                _ => (None, None),
            };
            &&& rendered_options(q) matches Ok(opts) && opts[0].1 == "false: "@ + match fg {
                Some(d) => if json_text(d).len() > 0 {
                    json_text(d)
                } else {
                    "no, the statement does not hold"@
                },
                None => "no, the statement does not hold"@,
            }
            &&& rendered_options(q) matches Ok(opts) && opts[1].1 == "true: "@ + match tg {
                Some(d) => if json_text(d).len() > 0 {
                    json_text(d)
                } else {
                    "yes, the statement holds"@
                },
                None => "yes, the statement holds"@,
            }
        }),
{
}

} // verus!
