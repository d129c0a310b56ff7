//! Dependency-free script / language detection for checkpoint routing.
//!
//! Script detection is exact; Latin-language guessing is a best-effort
//! stopword heuristic. Both are pure functions of the text.

use vstd::prelude::*;

use crate::schema::{flat_text_of, State};
use crate::text::{chars_eq_str, chars_of, is_alphabetic, to_lowercase, unicode_alphabetic, unicode_lowercase};

verus! {

/// Detection evidence attached to a route decision.
///
/// The fraction of non-Latin letters is kept as its two counts, so it is exact:
/// `non_latin_letters / letters` (zero when there are no letters).
#[derive(Debug, Clone, PartialEq, Eq)]
pub struct Detection {
    /// Dominant script label (`latin`, `han`, `devanagari`, …) or `unknown`.
    pub script: String,
    /// Letters that are not Latin.
    pub non_latin_letters: usize,
    /// All letters (alphabetic characters).
    pub letters: usize,
    /// Best-effort language code for Latin text (`en`, `de`, …), `und` otherwise.
    pub language: String,
    /// Whether the Latin heuristic believes the text is English.
    pub is_english: bool,
}

// ---------------------------------------------------------------------------
// Script table
// ---------------------------------------------------------------------------

/// Number of non-Latin scripts the detector names.
pub const SCRIPT_COUNT: usize = 13;

/// Code points treated as Latin letters.
pub open spec fn is_latin_cp(cp: u32) -> bool {
    cp < 0x0250 || (0x1E00 <= cp <= 0x1EFF)
}

/// Index of the non-Latin script whose ranges hold `cp`, in table order.
pub open spec fn script_slot_of(cp: u32) -> Option<int> {
    if (0x0370 <= cp <= 0x03FF) || (0x1F00 <= cp <= 0x1FFF) {
        Some(0)
    } else if (0x0400 <= cp <= 0x052F) || (0x2DE0 <= cp <= 0x2DFF) || (0xA640 <= cp <= 0xA69F) {
        Some(1)
    } else if 0x0590 <= cp <= 0x05FF {
        Some(2)
    } else if (0x0600 <= cp <= 0x06FF) || (0x0750 <= cp <= 0x077F) || (0x08A0 <= cp <= 0x08FF)
        || (0xFB50 <= cp <= 0xFDFF) || (0xFE70 <= cp <= 0xFEFF) {
        Some(3)
    } else if (0x0900 <= cp <= 0x097F) || (0xA8E0 <= cp <= 0xA8FF) {
        Some(4)
    } else if 0x0980 <= cp <= 0x09FF {
        Some(5)
    } else if 0x0B80 <= cp <= 0x0BFF {
        Some(6)
    } else if 0x0E00 <= cp <= 0x0E7F {
        Some(7)
    } else if 0x1000 <= cp <= 0x109F {
        Some(8)
    } else if 0x1780 <= cp <= 0x17FF {
        Some(9)
    } else if (0x1100 <= cp <= 0x11FF) || (0x3130 <= cp <= 0x318F) || (0xAC00 <= cp <= 0xD7AF) {
        Some(10)
    } else if (0x3040 <= cp <= 0x309F) || (0x30A0 <= cp <= 0x30FF) || (0x31F0 <= cp <= 0x31FF) {
        Some(11)
    } else if (0x3400 <= cp <= 0x4DBF) || (0x4E00 <= cp <= 0x9FFF) || (0xF900 <= cp <= 0xFAFF) {
        Some(12)
    } else {
        None
    }
}

/// Label of the script at a table index.
pub open spec fn script_label(i: int) -> Seq<char> {
    if i == 0 {
        "greek"@
    } else if i == 1 {
        "cyrillic"@
    } else if i == 2 {
        "hebrew"@
    } else if i == 3 {
        "arabic"@
    } else if i == 4 {
        "devanagari"@
    } else if i == 5 {
        "bengali"@
    } else if i == 6 {
        "tamil"@
    } else if i == 7 {
        "thai"@
    } else if i == 8 {
        "myanmar"@
    } else if i == 9 {
        "khmer"@
    } else if i == 10 {
        "hangul"@
    } else if i == 11 {
        "kana"@
    } else {
        "han"@
    }
}

/// Whether a code point is a Latin letter position.
pub fn is_latin_letter(cp: u32) -> (r: bool)
    ensures
        r == is_latin_cp(cp),
{
    cp < 0x0250 || (0x1E00 <= cp && cp <= 0x1EFF)
}

/// Table index of the non-Latin script holding `cp`.
pub fn script_slot(cp: u32) -> (r: Option<usize>)
    ensures
        match r {
            Some(i) => script_slot_of(cp) == Some(i as int) && i < SCRIPT_COUNT,
            None => script_slot_of(cp) is None,
        },
{
    if (0x0370 <= cp && cp <= 0x03FF) || (0x1F00 <= cp && cp <= 0x1FFF) {
        Some(0)
    } else if (0x0400 <= cp && cp <= 0x052F) || (0x2DE0 <= cp && cp <= 0x2DFF) || (0xA640 <= cp
        && cp <= 0xA69F) {
        Some(1)
    } else if 0x0590 <= cp && cp <= 0x05FF {
        Some(2)
    } else if (0x0600 <= cp && cp <= 0x06FF) || (0x0750 <= cp && cp <= 0x077F) || (0x08A0 <= cp
        && cp <= 0x08FF) || (0xFB50 <= cp && cp <= 0xFDFF) || (0xFE70 <= cp && cp <= 0xFEFF) {
        Some(3)
    } else if (0x0900 <= cp && cp <= 0x097F) || (0xA8E0 <= cp && cp <= 0xA8FF) {
        Some(4)
    } else if 0x0980 <= cp && cp <= 0x09FF {
        Some(5)
    } else if 0x0B80 <= cp && cp <= 0x0BFF {
        Some(6)
    } else if 0x0E00 <= cp && cp <= 0x0E7F {
        Some(7)
    } else if 0x1000 <= cp && cp <= 0x109F {
        Some(8)
    } else if 0x1780 <= cp && cp <= 0x17FF {
        Some(9)
    } else if (0x1100 <= cp && cp <= 0x11FF) || (0x3130 <= cp && cp <= 0x318F) || (0xAC00 <= cp
        && cp <= 0xD7AF) {
        Some(10)
    } else if (0x3040 <= cp && cp <= 0x309F) || (0x30A0 <= cp && cp <= 0x30FF) || (0x31F0 <= cp
        && cp <= 0x31FF) {
        Some(11)
    } else if (0x3400 <= cp && cp <= 0x4DBF) || (0x4E00 <= cp && cp <= 0x9FFF) || (0xF900 <= cp
        && cp <= 0xFAFF) {
        Some(12)
    } else {
        None
    }
}

/// Label of the script at a table index.
pub fn script_name(i: usize) -> (r: &'static str)
    requires
        i < SCRIPT_COUNT,
    ensures
        r@ == script_label(i as int),
{
    if i == 0 {
        "greek"
    } else if i == 1 {
        "cyrillic"
    } else if i == 2 {
        "hebrew"
    } else if i == 3 {
        "arabic"
    } else if i == 4 {
        "devanagari"
    } else if i == 5 {
        "bengali"
    } else if i == 6 {
        "tamil"
    } else if i == 7 {
        "thai"
    } else if i == 8 {
        "myanmar"
    } else if i == 9 {
        "khmer"
    } else if i == 10 {
        "hangul"
    } else if i == 11 {
        "kana"
    } else {
        "han"
    }
}

/// The non-Latin script whose ranges hold `cp`, by label.
pub fn script_of(cp: u32) -> (r: Option<&'static str>)
    ensures
        match r {
            Some(name) => script_slot_of(cp) matches Some(i) && name@ == script_label(i),
            None => script_slot_of(cp) is None,
        },
{
    match script_slot(cp) {
        Some(i) => Some(script_name(i)),
        None => None,
    }
}

// ---------------------------------------------------------------------------
// Script detection
// ---------------------------------------------------------------------------

/// Characters that count as letters.
pub open spec fn letter_count(s: Seq<char>) -> nat
    decreases s.len(),
{
    if s.len() == 0 {
        0
    } else {
        letter_count(s.drop_last()) + if unicode_alphabetic(s.last()) {
            1nat
        } else {
            0nat
        }
    }
}

/// Letters at a Latin code point.
pub open spec fn latin_count(s: Seq<char>) -> nat
    decreases s.len(),
{
    if s.len() == 0 {
        0
    } else {
        latin_count(s.drop_last()) + if unicode_alphabetic(s.last()) && is_latin_cp(
            s.last() as u32,
        ) {
            1nat
        } else {
            0nat
        }
    }
}

/// Non-Latin letters that fall in the script at table index `i`.
pub open spec fn script_count(s: Seq<char>, i: int) -> nat
    decreases s.len(),
{
    if s.len() == 0 {
        0
    } else {
        script_count(s.drop_last(), i) + if unicode_alphabetic(s.last()) && !is_latin_cp(
            s.last() as u32,
        ) && script_slot_of(s.last() as u32) == Some(i) {
            1nat
        } else {
            0nat
        }
    }
}

/// Counts of every named script, in table order.
pub open spec fn script_counts(s: Seq<char>) -> Seq<nat> {
    Seq::new(SCRIPT_COUNT as nat, |i: int| script_count(s, i))
}

/// Index of the first largest entry (0 for an empty sequence).
pub open spec fn first_max_index(c: Seq<nat>) -> int
    decreases c.len(),
{
    if c.len() <= 1 {
        0
    } else {
        let j = first_max_index(c.drop_last());
        if c.last() > c[j] {
            c.len() - 1
        } else {
            j
        }
    }
}

/// The named script with the most letters (earlier in the table on ties), or
/// `unknown` when no letter falls in a named script.
pub open spec fn dominant_script(s: Seq<char>) -> Seq<char> {
    let counts = script_counts(s);
    let best = first_max_index(counts);
    if counts[best] > 0 {
        script_label(best)
    } else {
        "unknown"@
    }
}

/// Script label that `detect_script` reports for a text.
///
/// `unknown` without letters; the dominant named script when at least half of
/// the letters are non-Latin; `latin` otherwise.
pub open spec fn detected_script(s: Seq<char>) -> Seq<char> {
    let letters = letter_count(s);
    let non_latin = letters - latin_count(s);
    if letters == 0 {
        "unknown"@
    } else if 2 * non_latin >= letters {
        dominant_script(s)
    } else {
        "latin"@
    }
}

proof fn lemma_first_max_index(c: Seq<nat>)
    ensures
        c.len() > 0 ==> 0 <= first_max_index(c) < c.len(),
        forall|k: int| 0 <= k < c.len() ==> #[trigger] c[k] <= c[first_max_index(c)],
        forall|k: int| 0 <= k < first_max_index(c) ==> #[trigger] c[k] < c[first_max_index(c)],
    decreases c.len(),
{
    if c.len() > 1 {
        let d = c.drop_last();
        lemma_first_max_index(d);
        assert forall|k: int| 0 <= k < d.len() implies d[k] == c[k] by {}
    }
}

proof fn lemma_latin_le_letters(s: Seq<char>)
    ensures
        latin_count(s) <= letter_count(s),
    decreases s.len(),
{
    if s.len() > 0 {
        lemma_latin_le_letters(s.drop_last());
    }
}

/// A named script needs letters, and Latin letters are among the letters.
pub(crate) proof fn lemma_detected_script_letters(s: Seq<char>)
    ensures
        latin_count(s) <= letter_count(s),
        detected_script(s) != "unknown"@ ==> letter_count(s) > 0,
{
    lemma_latin_le_letters(s);
}

proof fn lemma_counts_le_len(s: Seq<char>)
    ensures
        letter_count(s) <= s.len(),
    decreases s.len(),
{
    if s.len() > 0 {
        lemma_counts_le_len(s.drop_last());
    }
}

/// Every letter of `s` lies at a code point in `lo..=hi`, and there is one.
pub open spec fn letters_within(s: Seq<char>, lo: u32, hi: u32) -> bool {
    &&& letter_count(s) > 0
    &&& forall|k: int|
        0 <= k < s.len() && unicode_alphabetic(#[trigger] s[k]) ==> lo <= (s[k] as u32) <= hi
}

proof fn lemma_single_script_counts(s: Seq<char>, i: int)
    requires
        0 <= i < SCRIPT_COUNT,
        forall|k: int|
            0 <= k < s.len() && unicode_alphabetic(#[trigger] s[k]) ==> script_slot_of(
                s[k] as u32,
            ) == Some(i),
    ensures
        latin_count(s) == 0,
        script_count(s, i) == letter_count(s),
        forall|j: int| j != i ==> #[trigger] script_count(s, j) == 0,
    decreases s.len(),
{
    if s.len() > 0 {
        let d = s.drop_last();
        assert forall|k: int| 0 <= k < d.len() && unicode_alphabetic(#[trigger] d[k]) implies
            script_slot_of(d[k] as u32) == Some(i) by {
            assert(d[k] == s[k]);
        }
        lemma_single_script_counts(d, i);
        let c = s.last();
        if unicode_alphabetic(c) {
            assert(s[s.len() - 1] == c);
            assert(script_slot_of(c as u32) == Some(i));
            assert(!is_latin_cp(c as u32));
        }
        assert forall|j: int| j != i implies #[trigger] script_count(s, j) == 0 by {
            assert(script_count(d, j) == 0);
        }
    }
}

proof fn lemma_single_script_detected(s: Seq<char>, i: int)
    requires
        0 <= i < SCRIPT_COUNT,
        letter_count(s) > 0,
        forall|k: int|
            0 <= k < s.len() && unicode_alphabetic(#[trigger] s[k]) ==> script_slot_of(
                s[k] as u32,
            ) == Some(i),
    ensures
        detected_script(s) == script_label(i),
{
    lemma_single_script_counts(s, i);
    let counts = script_counts(s);
    lemma_first_max_index(counts);
    let best = first_max_index(counts);
    assert(counts[i] == letter_count(s));
    if best != i {
        assert(counts[best] == script_count(s, best));
        assert(counts[best] == 0);
        if best < i {
            assert(counts[i] <= counts[best]);
        } else {
            assert(counts[i] < counts[best]);
        }
    }
}

/// Text whose letters all lie in one script's block is reported under that
/// script's name: Greek `U+0370..U+03FF`, Cyrillic `U+0400..U+052F`, Hebrew
/// `U+0590..U+05FF`, Arabic `U+0600..U+06FF`, Devanagari `U+0900..U+097F`,
/// Bengali `U+0980..U+09FF`, Tamil `U+0B80..U+0BFF`, Thai `U+0E00..U+0E7F`,
/// Myanmar `U+1000..U+109F`, Khmer `U+1780..U+17FF`, Hangul syllables
/// `U+AC00..U+D7AF`, kana `U+3040..U+30FF` and CJK ideographs
/// `U+4E00..U+9FFF`; Latin letters (below `U+0250`) give `latin`.
pub proof fn lemma_single_script_names(s: Seq<char>)
    ensures
        letters_within(s, 0x0370, 0x03FF) ==> detected_script(s) == "greek"@,
        letters_within(s, 0x0400, 0x052F) ==> detected_script(s) == "cyrillic"@,
        letters_within(s, 0x0590, 0x05FF) ==> detected_script(s) == "hebrew"@,
        letters_within(s, 0x0600, 0x06FF) ==> detected_script(s) == "arabic"@,
        letters_within(s, 0x0900, 0x097F) ==> detected_script(s) == "devanagari"@,
        letters_within(s, 0x0980, 0x09FF) ==> detected_script(s) == "bengali"@,
        letters_within(s, 0x0B80, 0x0BFF) ==> detected_script(s) == "tamil"@,
        letters_within(s, 0x0E00, 0x0E7F) ==> detected_script(s) == "thai"@,
        letters_within(s, 0x1000, 0x109F) ==> detected_script(s) == "myanmar"@,
        letters_within(s, 0x1780, 0x17FF) ==> detected_script(s) == "khmer"@,
        letters_within(s, 0xAC00, 0xD7AF) ==> detected_script(s) == "hangul"@,
        letters_within(s, 0x3040, 0x30FF) ==> detected_script(s) == "kana"@,
        letters_within(s, 0x4E00, 0x9FFF) ==> detected_script(s) == "han"@,
        letters_within(s, 0, 0x024F) ==> detected_script(s) == "latin"@,
{
    let table: Seq<(u32, u32, int)> = seq![
        (0x0370u32, 0x03FFu32, 0int),
        (0x0400u32, 0x052Fu32, 1int),
        (0x0590u32, 0x05FFu32, 2int),
        (0x0600u32, 0x06FFu32, 3int),
        (0x0900u32, 0x097Fu32, 4int),
        (0x0980u32, 0x09FFu32, 5int),
        (0x0B80u32, 0x0BFFu32, 6int),
        (0x0E00u32, 0x0E7Fu32, 7int),
        (0x1000u32, 0x109Fu32, 8int),
        (0x1780u32, 0x17FFu32, 9int),
        (0xAC00u32, 0xD7AFu32, 10int),
        (0x3040u32, 0x30FFu32, 11int),
        (0x4E00u32, 0x9FFFu32, 12int),
    ];
    assert forall|t: int| 0 <= t < table.len() && letters_within(s, table[t].0, table[t].1)
        implies detected_script(s) == script_label(table[t].2) by {
        let (lo, hi, i) = table[t];
        assert forall|k: int| 0 <= k < s.len() && unicode_alphabetic(#[trigger] s[k]) implies
            script_slot_of(s[k] as u32) == Some(i) by {
            assert(lo <= (s[k] as u32) <= hi);
        }
        lemma_single_script_detected(s, i);
    }
    if letters_within(s, 0, 0x024F) {
        lemma_all_latin(s);
    }
    assert(table[0].2 == 0 && table[3].2 == 3);
}

proof fn lemma_all_latin(s: Seq<char>)
    requires
        letters_within(s, 0, 0x024F),
    ensures
        detected_script(s) == "latin"@,
{
    lemma_latin_all(s);
}

proof fn lemma_latin_all(s: Seq<char>)
    requires
        forall|k: int|
            0 <= k < s.len() && unicode_alphabetic(#[trigger] s[k]) ==> (s[k] as u32) <= 0x024F,
    ensures
        latin_count(s) == letter_count(s),
    decreases s.len(),
{
    if s.len() > 0 {
        let d = s.drop_last();
        assert forall|k: int| 0 <= k < d.len() && unicode_alphabetic(#[trigger] d[k]) implies (
        d[k] as u32) <= 0x024F by {
            assert(d[k] == s[k]);
        }
        lemma_latin_all(d);
        assert(s[s.len() - 1] == s.last());
    }
}

/// Dominant script of `text`, with the letter counts behind it.
///
/// Returns `(script, non_latin_letters, letters)`.
#[verifier::rlimit(30)]
pub fn detect_script(text: &str) -> (r: (String, usize, usize))
    ensures
        r.0@ == detected_script(text@),
        r.2 == letter_count(text@),
        r.1 == letter_count(text@) - latin_count(text@),
{
    let cs = chars_of(text);
    let n = cs.len();
    let mut counts: Vec<usize> = Vec::new();
    let mut z: usize = 0;
    while z < SCRIPT_COUNT
        invariant
            z <= SCRIPT_COUNT,
            counts@.len() == z,
            forall|j: int| 0 <= j < z ==> counts@[j] == 0,
        decreases SCRIPT_COUNT - z,
    {
        counts.push(0);
        z = z + 1;
    }
    let mut latin: usize = 0;
    let mut letters: usize = 0;
    let mut i: usize = 0;
    while i < n
        invariant
            n == cs@.len(),
            cs@ == text@,
            i <= n,
            counts@.len() == SCRIPT_COUNT,
            letters == letter_count(cs@.take(i as int)),
            latin == latin_count(cs@.take(i as int)),
            forall|j: int|
                0 <= j < SCRIPT_COUNT ==> counts@[j] == script_count(cs@.take(i as int), j),
        decreases n - i,
    {
        let ghost pre = cs@.take(i as int);
        let ghost post = cs@.take(i + 1);
        proof {
            assert(post.drop_last() == pre);
            assert(post.last() == cs@[i as int]);
            lemma_counts_le_len(pre);
            lemma_latin_le_letters(pre);
            assert forall|j: int| 0 <= j < SCRIPT_COUNT implies script_count(pre, j) <= i by {
                lemma_script_le_len(pre, j);
            }
        }
        let ch = cs[i];
        if is_alphabetic(ch) {
            letters = letters + 1;
            let cp = ch as u32;
            if is_latin_letter(cp) {
                latin = latin + 1;
            } else {
                match script_slot(cp) {
                    Some(slot) => {
                        let c = counts[slot];
                        counts.set(slot, c + 1);
                    },
                    None => {},
                }
            }
        }
        i = i + 1;
    }
    proof {
        assert(cs@.take(n as int) == cs@);
        lemma_latin_le_letters(cs@);
    }
    let non_latin = letters - latin;
    if letters == 0 {
        return (String::from_str("unknown"), non_latin, letters);
    }
    if non_latin >= letters - non_latin {
        // First largest count wins; a zero maximum names no script.
        let mut best: usize = 0;
        let mut k: usize = 1;
        while k < SCRIPT_COUNT
            invariant
                1 <= k <= SCRIPT_COUNT,
                counts@.len() == SCRIPT_COUNT,
                forall|j: int|
                    0 <= j < SCRIPT_COUNT ==> counts@[j] == script_count(text@, j),
                best == first_max_index(script_counts(text@).take(k as int)),
                best < k,
            decreases SCRIPT_COUNT - k,
        {
            proof {
                let c = script_counts(text@);
                assert(c.take(k + 1).drop_last() == c.take(k as int));
                assert(c.take(k + 1).last() == c[k as int]);
                assert(c.take(k + 1)[best as int] == c[best as int]);
            }
            if counts[k] > counts[best] {
                best = k;
            }
            k = k + 1;
        }
        proof {
            assert(script_counts(text@).take(SCRIPT_COUNT as int) == script_counts(text@));
        }
        if counts[best] > 0 {
            return (String::from_str(script_name(best)), non_latin, letters);
        } else {
            return (String::from_str("unknown"), non_latin, letters);
        }
    }
    (String::from_str("latin"), non_latin, letters)
}

proof fn lemma_script_le_len(s: Seq<char>, j: int)
    ensures
        script_count(s, j) <= s.len(),
    decreases s.len(),
{
    if s.len() > 0 {
        lemma_script_le_len(s.drop_last(), j);
    }
}

// ---------------------------------------------------------------------------
// Latin language guess
// ---------------------------------------------------------------------------

/// Number of languages with a stopword list (English first).
pub const LANGUAGE_COUNT: usize = 4;

/// Code of the language at a stopword-table index.
pub open spec fn language_code(i: int) -> Seq<char> {
    if i == 0 {
        "en"@
    } else if i == 1 {
        "de"@
    } else if i == 2 {
        "fr"@
    } else {
        "es"@
    }
}

/// Stopwords of the language at a table index.
pub open spec fn stopword_list(i: int) -> Seq<Seq<char>> {
    if i == 0 {
        seq![
            "the"@, "and"@, "is"@, "are"@, "was"@, "were"@, "to"@, "of"@, "in"@, "for"@,
            "with"@, "that"@, "this"@, "it"@, "you"@, "have"@, "has"@, "not"@, "but"@, "on"@,
            "at"@, "be"@, "as"@, "from"@, "will"@, "can"@, "would"@, "there"@, "their"@,
            "what"@, "which"@, "please"@, "we"@, "i"@,
        ]
    } else if i == 1 {
        seq![
            "der"@, "die"@, "das"@, "und"@, "ist"@, "ein"@, "eine"@, "den"@, "dem"@, "nicht"@,
            "mit"@, "für"@, "auf"@, "von"@, "zu"@, "sich"@, "auch"@, "werden"@, "wurde"@,
            "haben"@, "sind"@, "oder"@, "aber"@,
        ]
    } else if i == 2 {
        seq![
            "le"@, "la"@, "les"@, "des"@, "une"@, "est"@, "pour"@, "dans"@, "que"@, "qui"@,
            "avec"@, "sur"@, "pas"@, "plus"@, "nous"@, "vous"@, "cette"@, "mais"@, "sont"@,
            "ont"@, "aux"@, "ce"@,
        ]
    } else {
        seq![
            "el"@, "los"@, "las"@, "que"@, "por"@, "con"@, "para"@, "una"@, "es"@, "se"@,
            "del"@, "como"@, "pero"@, "son"@, "este"@, "esta"@, "todo"@, "muy"@, "hay"@,
            "sus"@,
        ]
    }
}

/// Views of a list of texts.
pub open spec fn views(list: Seq<&'static str>) -> Seq<Seq<char>> {
    list.map_values(|w: &'static str| w@)
}

/// The stopword table: language codes with their lists, English first.
pub fn stopwords() -> (r: Vec<(&'static str, Vec<&'static str>)>)
    ensures
        r@.len() == LANGUAGE_COUNT,
        forall|i: int|
            0 <= i < LANGUAGE_COUNT ==> #[trigger] r@[i].0@ == language_code(i) && views(
                r@[i].1@,
            ) == stopword_list(i),
{
    let en = vec![
        "the", "and", "is", "are", "was", "were", "to", "of", "in", "for", "with", "that", "this",
        "it", "you", "have", "has", "not", "but", "on", "at", "be", "as", "from", "will", "can",
        "would", "there", "their", "what", "which", "please", "we", "i",
    ];
    let de = vec![
        "der", "die", "das", "und", "ist", "ein", "eine", "den", "dem", "nicht", "mit", "für",
        "auf", "von", "zu", "sich", "auch", "werden", "wurde", "haben", "sind", "oder", "aber",
    ];
    let fr = vec![
        "le", "la", "les", "des", "une", "est", "pour", "dans", "que", "qui", "avec", "sur",
        "pas", "plus", "nous", "vous", "cette", "mais", "sont", "ont", "aux", "ce",
    ];
    let es = vec![
        "el", "los", "las", "que", "por", "con", "para", "una", "es", "se", "del", "como", "pero",
        "son", "este", "esta", "todo", "muy", "hay", "sus",
    ];
    proof {
        assert(views(en@) =~= stopword_list(0));
        assert(views(de@) =~= stopword_list(1));
        assert(views(fr@) =~= stopword_list(2));
        assert(views(es@) =~= stopword_list(3));
    }
    let r = vec![("en", en), ("de", de), ("fr", fr), ("es", es)];
    r
}

/// Words of a text: maximal runs of alphabetic characters, scanned left to right.
pub open spec fn words_from(s: Seq<char>, done: Seq<Seq<char>>, cur: Seq<char>) -> Seq<
    Seq<char>,
>
    decreases s.len(),
{
    if s.len() == 0 {
        if cur.len() > 0 {
            done.push(cur)
        } else {
            done
        }
    } else if unicode_alphabetic(s[0]) {
        words_from(s.drop_first(), done, cur.push(s[0]))
    } else {
        words_from(
            s.drop_first(),
            if cur.len() > 0 {
                done.push(cur)
            } else {
                done
            },
            Seq::empty(),
        )
    }
}

/// Words of a text (split on every non-alphabetic character, empties dropped).
pub open spec fn words(s: Seq<char>) -> Seq<Seq<char>> {
    words_from(s, Seq::empty(), Seq::empty())
}

/// How many words (with repetition) belong to a stopword list.
pub open spec fn stop_score(ws: Seq<Seq<char>>, list: Seq<Seq<char>>) -> nat
    decreases ws.len(),
{
    if ws.len() == 0 {
        0
    } else {
        stop_score(ws.drop_last(), list) + if list.contains(ws.last()) {
            1nat
        } else {
            0nat
        }
    }
}

/// Score of each language for a word list.
pub open spec fn language_scores(ws: Seq<Seq<char>>) -> Seq<nat> {
    Seq::new(LANGUAGE_COUNT as nat, |i: int| stop_score(ws, stopword_list(i)))
}

/// Index of the best-scoring language: English unless another language scores
/// strictly higher (earlier languages win ties among the others).
pub open spec fn best_language(scores: Seq<nat>) -> int {
    let j = first_max_index(scores);
    j
}

/// What `guess_latin_language` answers: `(language code, is_english)`.
///
/// No words means English. Otherwise the best-scoring language is English
/// unless it beats English by more than two stopwords.
pub open spec fn guessed_language(text: Seq<char>) -> (Seq<char>, bool) {
    let ws = words(unicode_lowercase(text));
    if ws.len() == 0 {
        ("en"@, true)
    } else {
        let scores = language_scores(ws);
        let best = best_language(scores);
        let is_english = best == 0 || scores[0] + 2 >= scores[best];
        (
            if is_english {
                "en"@
            } else {
                language_code(best)
            },
            is_english,
        )
    }
}

/// Whether `w` is one of the listed words.
fn listed(list: &Vec<&'static str>, w: &[char]) -> (r: bool)
    ensures
        r == views(list@).contains(w@),
{
    let mut j: usize = 0;
    while j < list.len()
        invariant
            j <= list@.len(),
            forall|k: int| 0 <= k < j ==> list@[k]@ != w@,
        decreases list@.len() - j,
    {
        if chars_eq_str(w, list[j]) {
            proof {
                assert(views(list@)[j as int] == w@);
            }
            return true;
        }
        j = j + 1;
    }
    proof {
        if views(list@).contains(w@) {
            let k = choose|k: int| 0 <= k < views(list@).len() && views(list@)[k] == w@;
            assert(list@[k]@ == w@);
        }
    }
    false
}

/// Split lowercase text into its words.
fn split_words(s: &[char]) -> (r: Vec<Vec<char>>)
    ensures
        r@.map_values(|w: Vec<char>| w@) == words(s@),
{
    let mut done: Vec<Vec<char>> = Vec::new();
    let mut cur: Vec<char> = Vec::new();
    let mut i: usize = 0;
    proof {
        assert(s@.skip(0) == s@);
        assert(done@.map_values(|w: Vec<char>| w@) == Seq::<Seq<char>>::empty());
        assert(cur@ == Seq::<char>::empty());
    }
    while i < s.len()
        invariant
            i <= s@.len(),
            words(s@) == words_from(
                s@.skip(i as int),
                done@.map_values(|w: Vec<char>| w@),
                cur@,
            ),
        decreases s@.len() - i,
    {
        proof {
            assert(s@.skip(i as int).drop_first() == s@.skip(i + 1));
            assert(s@.skip(i as int)[0] == s@[i as int]);
        }
        let c = s[i];
        if is_alphabetic(c) {
            cur.push(c);
        } else {
            if cur.len() > 0 {
                let w = cur;
                proof {
                    assert(done@.push(w).map_values(|w: Vec<char>| w@) == done@.map_values(
                        |w: Vec<char>| w@,
                    ).push(w@));
                }
                done.push(w);
            }
            cur = Vec::new();
        }
        i = i + 1;
    }
    proof {
        assert(s@.skip(s@.len() as int).len() == 0);
    }
    if cur.len() > 0 {
        let w = cur;
        proof {
            assert(done@.push(w).map_values(|w: Vec<char>| w@) == done@.map_values(
                |w: Vec<char>| w@,
            ).push(w@));
        }
        done.push(w);
    }
    done
}

/// Best-effort Latin language guess: `(language code, is_english)`.
#[verifier::rlimit(30)]
pub fn guess_latin_language(text: &str) -> (r: (String, bool))
    ensures
        r.0@ == guessed_language(text@).0,
        r.1 == guessed_language(text@).1,
{
    let lower = to_lowercase(text);
    let lower_chars = chars_of(lower.as_str());
    let ws = split_words(lower_chars.as_slice());
    let ghost wsv = ws@.map_values(|w: Vec<char>| w@);
    if ws.len() == 0 {
        return (String::from_str("en"), true);
    }
    let stops = stopwords();
    let mut scores: Vec<usize> = Vec::new();
    let mut l: usize = 0;
    while l < LANGUAGE_COUNT
        invariant
            l <= LANGUAGE_COUNT,
            stops@.len() == LANGUAGE_COUNT,
            forall|i: int|
                0 <= i < LANGUAGE_COUNT ==> #[trigger] stops@[i].0@ == language_code(i) && views(
                    stops@[i].1@,
                ) == stopword_list(i),
            wsv == words(unicode_lowercase(text@)),
            wsv == ws@.map_values(|w: Vec<char>| w@),
            scores@.len() == l,
            forall|i: int| 0 <= i < l ==> scores@[i] == language_scores(wsv)[i],
        decreases LANGUAGE_COUNT - l,
    {
        let list = &stops[l].1;
        proof {
            assert(stops@[l as int].0@ == language_code(l as int));
        }
        let mut score: usize = 0;
        let mut w: usize = 0;
        while w < ws.len()
            invariant
                w <= ws@.len(),
                wsv == ws@.map_values(|w: Vec<char>| w@),
                views(list@) == stopword_list(l as int),
                score == stop_score(wsv.take(w as int), stopword_list(l as int)),
                score <= w,
            decreases ws@.len() - w,
        {
            proof {
                assert(wsv.take(w + 1).drop_last() == wsv.take(w as int));
                assert(wsv.take(w + 1).last() == ws@[w as int]@);
            }
            if listed(list, ws[w].as_slice()) {
                score = score + 1;
            }
            w = w + 1;
        }
        proof {
            assert(wsv.take(ws@.len() as int) == wsv);
        }
        scores.push(score);
        l = l + 1;
    }
    let ghost sc = language_scores(wsv);
    // English is the starting best; only a strictly higher score moves it.
    let mut best: usize = 0;
    let mut k: usize = 1;
    while k < LANGUAGE_COUNT
        invariant
            1 <= k <= LANGUAGE_COUNT,
            scores@.len() == LANGUAGE_COUNT,
            forall|i: int| 0 <= i < LANGUAGE_COUNT ==> scores@[i] == sc[i],
            sc.len() == LANGUAGE_COUNT,
            best == first_max_index(sc.take(k as int)),
            best < k,
        decreases LANGUAGE_COUNT - k,
    {
        proof {
            assert(sc.take(k + 1).drop_last() == sc.take(k as int));
            assert(sc.take(k + 1)[best as int] == sc[best as int]);
        }
        if scores[k] > scores[best] {
            best = k;
        }
        k = k + 1;
    }
    proof {
        assert(sc.take(LANGUAGE_COUNT as int) == sc);
    }
    let en = scores[0];
    let is_english = best == 0 || scores[best] <= en || scores[best] - en <= 2;
    if is_english {
        (String::from_str("en"), true)
    } else {
        proof {
            assert(stops@[best as int].0@ == language_code(best as int));
        }
        (String::from_str(stops[best].0), false)
    }
}

/// What `analyse_text` reports for a text.
pub open spec fn analysis_of(
    text: Seq<char>,
    d: Detection,
) -> bool {
    &&& d.script@ == detected_script(text)
    &&& d.letters == letter_count(text)
    &&& d.non_latin_letters == letter_count(text) - latin_count(text)
    &&& if detected_script(text) == "latin"@ {
        d.language@ == guessed_language(text).0 && d.is_english == guessed_language(text).1
    } else {
        d.language@ == "und"@ && !d.is_english
    }
}

/// Analyse flattened state text for routing.
pub fn analyse_text(text: &str) -> (r: Detection)
    ensures
        analysis_of(text@, r),
{
    let (script, non_latin_letters, letters) = detect_script(text);
    if crate::text::str_eq(script.as_str(), "latin") {
        let (language, is_english) = guess_latin_language(text);
        Detection { script, non_latin_letters, letters, language, is_english }
    } else {
        Detection {
            script,
            non_latin_letters,
            letters,
            language: String::from_str("und"),
            is_english: false,
        }
    }
}

/// Analyse a structured [`State`].
pub fn analyse(state: &State) -> (r: Detection)
    ensures
        analysis_of(flat_text_of(*state), r),
{
    let flat = state.flat_text();
    analyse_text(flat.as_str())
}

} // verus!
