//! Character-level text helpers shared by parsing, detection and packing.
//!
//! Strings are reasoned about through their `Seq<char>` view. A few Unicode
//! tables that std owns (alphabetic, lowercase mapping) are reached through
//! named trusted wrappers; everything else is written and proved here.

use vstd::prelude::*;

verus! {

// ---------------------------------------------------------------------------
// Specifications
// ---------------------------------------------------------------------------

/// The Unicode `White_Space` property, which `char::is_whitespace` tests.
pub open spec fn is_white_space(c: char) -> bool {
    let u = c as u32;
    ||| 0x09 <= u <= 0x0D
    ||| u == 0x20
    ||| u == 0x85
    ||| u == 0xA0
    ||| u == 0x1680
    ||| 0x2000 <= u <= 0x200A
    ||| u == 0x2028
    ||| u == 0x2029
    ||| u == 0x202F
    ||| u == 0x205F
    ||| u == 0x3000
}

/// Drop leading white space.
pub open spec fn trim_start(s: Seq<char>) -> Seq<char>
    decreases s.len(),
{
    if s.len() > 0 && is_white_space(s[0]) {
        trim_start(s.drop_first())
    } else {
        s
    }
}

/// Drop trailing white space.
pub open spec fn trim_end(s: Seq<char>) -> Seq<char>
    decreases s.len(),
{
    if s.len() > 0 && is_white_space(s.last()) {
        trim_end(s.drop_last())
    } else {
        s
    }
}

/// `str::trim`: drop white space at both ends.
pub open spec fn trim(s: Seq<char>) -> Seq<char> {
    trim_end(trim_start(s))
}

/// ASCII lowercase of one character (non-ASCII characters are unchanged).
pub open spec fn ascii_lower(c: char) -> char {
    if 'A' <= c && c <= 'Z' {
        ((c as u32) + 32) as char
    } else {
        c
    }
}

/// `str::to_ascii_lowercase` on a character sequence.
pub open spec fn ascii_lowercase(s: Seq<char>) -> Seq<char> {
    s.map_values(|c: char| ascii_lower(c))
}

/// The decimal digit character for `d < 10`.
pub open spec fn digit_char(d: nat) -> char {
    ((d + 48) as u32) as char
}

/// Decimal rendering of a natural number (no sign, no leading zeros).
pub open spec fn decimal(n: nat) -> Seq<char>
    decreases n,
{
    if n < 10 {
        seq![digit_char(n)]
    } else {
        decimal(n / 10).push(digit_char(n % 10))
    }
}

// ---------------------------------------------------------------------------
// Names for what std computes from Unicode tables
// ---------------------------------------------------------------------------

/// What `char::is_alphabetic` answers (the Unicode `Alphabetic` property).
pub uninterp spec fn unicode_alphabetic(c: char) -> bool;

/// What `char::is_alphanumeric` answers (`Alphabetic` or `Numeric`).
pub uninterp spec fn unicode_alphanumeric(c: char) -> bool;

/// What `str::to_lowercase` returns for a text (full Unicode lowercase mapping).
pub uninterp spec fn unicode_lowercase(s: Seq<char>) -> Seq<char>;

/// What `str::replace` returns: every non-overlapping match of `from`, scanned
/// left to right, replaced by `to`. An empty `from` matches before every
/// character and at the end.
pub open spec fn replaced(s: Seq<char>, from: Seq<char>, to: Seq<char>) -> Seq<char>
    decreases s.len(),
{
    if from.len() == 0 {
        if s.len() == 0 {
            to
        } else {
            to + seq![s[0]] + replaced(s.drop_first(), from, to)
        }
    } else if s.len() < from.len() {
        s
    } else if s.take(from.len() as int) == from {
        to + replaced(s.skip(from.len() as int), from, to)
    } else {
        seq![s[0]] + replaced(s.drop_first(), from, to)
    }
}

/// What the `Debug` format of a `str` writes: the text quoted, with escapes.
pub uninterp spec fn debug_quoted(s: Seq<char>) -> Seq<char>;

/// An ASCII letter.
pub open spec fn ascii_letter(c: char) -> bool {
    ('A' <= c && c <= 'Z') || ('a' <= c && c <= 'z')
}

/// An ASCII decimal digit.
pub open spec fn ascii_digit(c: char) -> bool {
    '0' <= c && c <= '9'
}

/// Every character is ASCII.
pub open spec fn all_ascii(s: Seq<char>) -> bool {
    forall|i: int| 0 <= i < s.len() ==> (s[i] as u32) < 128
}

/// Calls `char::is_alphabetic`; the answer is the named Unicode property,
/// which among ASCII characters holds exactly of the letters.
#[verifier::external_body]
pub(crate) fn is_alphabetic(c: char) -> (r: bool)
    ensures
        r == unicode_alphabetic(c),
        (c as u32) < 128 ==> (r <==> ascii_letter(c)),
{
    c.is_alphabetic()
}

/// Calls `char::is_alphanumeric`; the answer is the named Unicode property,
/// which among ASCII characters holds exactly of the letters and digits.
#[verifier::external_body]
pub(crate) fn is_alphanumeric(c: char) -> (r: bool)
    ensures
        r == unicode_alphanumeric(c),
        (c as u32) < 128 ==> (r <==> (ascii_letter(c) || ascii_digit(c))),
{
    c.is_alphanumeric()
}

/// Calls `str::to_lowercase`; the result is the named Unicode lowercase
/// mapping, which on ASCII text is the ASCII lowercase.
#[verifier::external_body]
pub(crate) fn to_lowercase(s: &str) -> (r: String)
    ensures
        r@ == unicode_lowercase(s@),
        all_ascii(s@) ==> r@ == ascii_lowercase(s@),
{
    s.to_lowercase()
}

/// Writes `s` with the `Debug` format of `str` (quoted and escaped).
#[verifier::external_body]
pub(crate) fn debug_str(s: &str) -> (r: String)
    ensures
        r@ == debug_quoted(s@),
{
    format!("{s:?}")
}

/// Calls `String::push`: the character is appended.
#[verifier::external_body]
pub(crate) fn push_char(s: &mut String, c: char)
    ensures
        final(s)@ == old(s)@.push(c),
{
    s.push(c)
}

// ---------------------------------------------------------------------------
// Proved helpers
// ---------------------------------------------------------------------------

/// `char::is_whitespace`, written out over the `White_Space` table.
pub fn is_whitespace(c: char) -> (r: bool)
    ensures
        r == is_white_space(c),
{
    let u = c as u32;
    (0x09 <= u && u <= 0x0D) || u == 0x20 || u == 0x85 || u == 0xA0 || u == 0x1680 || (0x2000
        <= u && u <= 0x200A) || u == 0x2028 || u == 0x2029 || u == 0x202F || u == 0x205F || u
        == 0x3000
}

/// ASCII lowercase of one character.
pub fn to_ascii_lower(c: char) -> (r: char)
    ensures
        r == ascii_lower(c),
{
    if 'A' <= c && c <= 'Z' {
        let u = c as u32;
        ((u + 32) as u8) as char
    } else {
        c
    }
}

/// The characters of a text, in order.
pub fn chars_of(s: &str) -> (r: Vec<char>)
    ensures
        r@ == s@,
{
    let mut out: Vec<char> = Vec::new();
    for c in it: s.chars()
        invariant
            it.seq() == s@,
            out@ == it.seq().take(it.index() as int),
    {
        proof {
            assert(it.seq().take(it.index() + 1) == it.seq().take(it.index() as int).push(c));
        }
        out.push(c);
    }
    proof {
        assert(s@.take(s@.len() as int) == s@);
    }
    out
}

/// A `String` holding exactly the given characters.
pub fn string_of(cs: &[char]) -> (r: String)
    ensures
        r@ == cs@,
{
    let mut out = String::new();
    let mut i: usize = 0;
    while i < cs.len()
        invariant
            i <= cs@.len(),
            out@ == cs@.take(i as int),
        decreases cs@.len() - i,
    {
        proof {
            assert(cs@.take(i + 1) == cs@.take(i as int).push(cs@[i as int]));
        }
        push_char(&mut out, cs[i]);
        i = i + 1;
    }
    proof {
        assert(cs@.take(cs@.len() as int) == cs@);
    }
    out
}

/// Whether two character sequences are equal.
pub fn chars_eq(a: &[char], b: &[char]) -> (r: bool)
    ensures
        r == (a@ == b@),
{
    if a.len() != b.len() {
        return false;
    }
    let mut i: usize = 0;
    while i < a.len()
        invariant
            a@.len() == b@.len(),
            i <= a@.len(),
            forall|j: int| 0 <= j < i ==> a@[j] == b@[j],
        decreases a@.len() - i,
    {
        if a[i] != b[i] {
            return false;
        }
        i = i + 1;
    }
    proof {
        assert(a@ =~= b@);
    }
    true
}

/// Whether the characters equal a text.
pub fn chars_eq_str(a: &[char], s: &str) -> (r: bool)
    ensures
        r == (a@ == s@),
{
    let b = chars_of(s);
    chars_eq(a, b.as_slice())
}

/// Whether two texts are equal.
pub fn str_eq(a: &str, b: &str) -> (r: bool)
    ensures
        r == (a@ == b@),
{
    let x = chars_of(a);
    let y = chars_of(b);
    chars_eq(x.as_slice(), y.as_slice())
}

proof fn lemma_trim_start_skip(s: Seq<char>, i: int)
    requires
        0 <= i <= s.len(),
        forall|j: int| 0 <= j < i ==> is_white_space(s[j]),
    ensures
        trim_start(s) == trim_start(s.subrange(i, s.len() as int)),
    decreases i,
{
    if i > 0 {
        assert(s.drop_first().subrange(i - 1, s.drop_first().len() as int) =~= s.subrange(
            i,
            s.len() as int,
        ));
        lemma_trim_start_skip(s.drop_first(), i - 1);
    } else {
        assert(s.subrange(0, s.len() as int) =~= s);
    }
}

proof fn lemma_trim_end_skip(s: Seq<char>, k: int)
    requires
        0 <= k <= s.len(),
        forall|j: int| k <= j < s.len() ==> is_white_space(s[j]),
    ensures
        trim_end(s) == trim_end(s.subrange(0, k)),
    decreases s.len() - k,
{
    if k < s.len() {
        assert(s.drop_last().subrange(0, k) =~= s.subrange(0, k));
        lemma_trim_end_skip(s.drop_last(), k);
    } else {
        assert(s.subrange(0, k) =~= s);
    }
}

/// `str::trim` on characters.
pub fn trim_chars(cs: &[char]) -> (r: Vec<char>)
    ensures
        r@ == trim(cs@),
{
    let n = cs.len();
    let mut i: usize = 0;
    while i < n && is_whitespace(cs[i])
        invariant
            n == cs@.len(),
            i <= n,
            forall|j: int| 0 <= j < i ==> is_white_space(cs@[j]),
        decreases n - i,
    {
        i = i + 1;
    }
    let mut k: usize = n;
    while k > i && is_whitespace(cs[k - 1])
        invariant
            n == cs@.len(),
            i <= k <= n,
            forall|j: int| k <= j < n ==> is_white_space(cs@[j]),
        decreases k - i,
    {
        k = k - 1;
    }
    let mut out: Vec<char> = Vec::new();
    let mut p: usize = i;
    while p < k
        invariant
            n == cs@.len(),
            i <= p <= k <= n,
            out@ == cs@.subrange(i as int, p as int),
        decreases k - p,
    {
        proof {
            assert(cs@.subrange(i as int, p + 1) == cs@.subrange(i as int, p as int).push(
                cs@[p as int],
            ));
        }
        out.push(cs[p]);
        p = p + 1;
    }
    proof {
        let s = cs@;
        let mid = s.subrange(i as int, n as int);
        lemma_trim_start_skip(s, i as int);
        // Past the leading run the first character is not white space.
        if i < n {
            assert(!is_white_space(s[i as int]));
            assert(mid[0] == s[i as int]);
            assert(trim_start(mid) == mid);
        } else {
            assert(mid.len() == 0);
            assert(trim_start(mid) == mid);
        }
        assert forall|j: int| (k - i) <= j < mid.len() implies is_white_space(mid[j]) by {
            assert(mid[j] == s[i + j]);
        }
        lemma_trim_end_skip(mid, (k - i) as int);
        let core = mid.subrange(0, (k - i) as int);
        assert(core =~= s.subrange(i as int, k as int));
        if k > i {
            assert(core.last() == s[k - 1]);
            assert(!is_white_space(core.last()));
        }
        assert(trim_end(core) == core);
    }
    out
}

/// `str::trim` on a text, as characters.
pub fn trim_str(s: &str) -> (r: Vec<char>)
    ensures
        r@ == trim(s@),
{
    let cs = chars_of(s);
    trim_chars(cs.as_slice())
}

/// `str::to_ascii_lowercase` on characters.
pub fn ascii_lowercase_chars(cs: &[char]) -> (r: Vec<char>)
    ensures
        r@ == ascii_lowercase(cs@),
{
    let mut out: Vec<char> = Vec::new();
    let mut i: usize = 0;
    while i < cs.len()
        invariant
            i <= cs@.len(),
            out@ == ascii_lowercase(cs@.take(i as int)),
        decreases cs@.len() - i,
    {
        proof {
            assert(ascii_lowercase(cs@.take(i + 1)) =~= ascii_lowercase(cs@.take(i as int)).push(
                ascii_lower(cs@[i as int]),
            ));
        }
        out.push(to_ascii_lower(cs[i]));
        i = i + 1;
    }
    proof {
        assert(cs@.take(cs@.len() as int) =~= cs@);
    }
    out
}

/// Append the characters of `s` to `out`.
pub fn append_str(out: &mut Vec<char>, s: &str)
    ensures
        final(out)@ == old(out)@ + s@,
{
    let cs = chars_of(s);
    append_chars(out, cs.as_slice());
}

/// Append characters to `out`.
pub fn append_chars(out: &mut Vec<char>, cs: &[char])
    ensures
        final(out)@ == old(out)@ + cs@,
{
    let ghost start = out@;
    let mut i: usize = 0;
    while i < cs.len()
        invariant
            i <= cs@.len(),
            out@ == start + cs@.take(i as int),
        decreases cs@.len() - i,
    {
        proof {
            assert(start + cs@.take(i + 1) =~= (start + cs@.take(i as int)).push(cs@[i as int]));
        }
        out.push(cs[i]);
        i = i + 1;
    }
    proof {
        assert(cs@.take(cs@.len() as int) =~= cs@);
    }
}

/// Decimal characters of `n`, appended to `out`.
pub fn push_decimal(out: &mut Vec<char>, n: usize)
    ensures
        final(out)@ == old(out)@ + decimal(n as nat),
    decreases n,
{
    if n < 10 {
        out.push(((n + 48) as u8) as char);
        proof {
            assert(old(out)@ + decimal(n as nat) =~= old(out)@.push(digit_char(n as nat)));
        }
    } else {
        push_decimal(out, n / 10);
        out.push(((n % 10 + 48) as u8) as char);
        proof {
            assert(old(out)@ + decimal(n as nat) =~= (old(out)@ + decimal((n / 10) as nat)).push(
                digit_char((n % 10) as nat),
            ));
        }
    }
}

/// `usize::to_string`, as characters.
pub fn decimal_chars(n: usize) -> (r: Vec<char>)
    ensures
        r@ == decimal(n as nat),
{
    let mut out: Vec<char> = Vec::new();
    push_decimal(&mut out, n);
    proof {
        assert(Seq::<char>::empty() + decimal(n as nat) =~= decimal(n as nat));
    }
    out
}

/// Whether `pat` occurs in `cs` at position `at`.
fn matches_at(cs: &Vec<char>, at: usize, pat: &Vec<char>) -> (r: bool)
    requires
        at + pat@.len() <= cs@.len(),
    ensures
        r == (cs@.skip(at as int).take(pat@.len() as int) == pat@),
{
    let total = cs.len();
    let mut j: usize = 0;
    while j < pat.len()
        invariant
            at + pat@.len() <= cs@.len(),
            total == cs@.len(),
            j <= pat@.len(),
            forall|k: int| 0 <= k < j ==> cs@[at + k] == pat@[k],
        decreases pat@.len() - j,
    {
        if cs[at + j] != pat[j] {
            proof {
                assert(cs@.skip(at as int).take(pat@.len() as int)[j as int] != pat@[j as int]);
            }
            return false;
        }
        j = j + 1;
    }
    proof {
        assert(cs@.skip(at as int).take(pat@.len() as int) =~= pat@);
    }
    true
}

/// `str::replace`: every non-overlapping match of `from`, scanned left to
/// right, replaced by `to` (see [`replaced`]).
pub fn replace(s: &str, from: &str, to: &str) -> (r: String)
    ensures
        r@ == replaced(s@, from@, to@),
{
    let cs = chars_of(s);
    let fs = chars_of(from);
    let ts = chars_of(to);
    let n = cs.len();
    let m = fs.len();
    let mut out: Vec<char> = Vec::new();
    let mut i: usize = 0;
    proof {
        assert(cs@.skip(0) =~= cs@);
        assert(out@ + replaced(cs@, fs@, ts@) =~= replaced(cs@, fs@, ts@));
    }
    if m == 0 {
        while i < n
            invariant
                n == cs@.len(),
                fs@.len() == 0,
                i <= n,
                out@ + replaced(cs@.skip(i as int), fs@, ts@) == replaced(cs@, fs@, ts@),
            decreases n - i,
        {
            proof {
                let rest = cs@.skip(i as int);
                assert(rest.drop_first() =~= cs@.skip(i + 1));
                assert(rest[0] == cs@[i as int]);
                assert(out@ + ts@ + seq![cs@[i as int]] + replaced(cs@.skip(i + 1), fs@, ts@)
                    =~= out@ + (ts@ + seq![rest[0]] + replaced(rest.drop_first(), fs@, ts@)));
            }
            append_chars(&mut out, ts.as_slice());
            out.push(cs[i]);
            i = i + 1;
        }
        proof {
            assert(cs@.skip(n as int) =~= Seq::<char>::empty());
        }
        append_chars(&mut out, ts.as_slice());
    } else {
        while i < n
            invariant
                n == cs@.len(),
                m == fs@.len(),
                m > 0,
                i <= n,
                out@ + replaced(cs@.skip(i as int), fs@, ts@) == replaced(cs@, fs@, ts@),
            decreases n - i,
        {
            let ghost rest = cs@.skip(i as int);
            if n - i >= m && matches_at(&cs, i, &fs) {
                proof {
                    assert(rest.skip(m as int) =~= cs@.skip(i + m));
                    assert(out@ + ts@ + replaced(cs@.skip(i + m), fs@, ts@) =~= out@ + (ts@
                        + replaced(rest.skip(m as int), fs@, ts@)));
                }
                append_chars(&mut out, ts.as_slice());
                i = i + m;
            } else {
                proof {
                    assert(rest.drop_first() =~= cs@.skip(i + 1));
                    assert(rest[0] == cs@[i as int]);
                    if rest.len() < m {
                        assert(rest =~= seq![rest[0]] + rest.drop_first());
                        assert(replaced(rest.drop_first(), fs@, ts@) == rest.drop_first());
                    }
                    assert(out@.push(cs@[i as int]) + replaced(cs@.skip(i + 1), fs@, ts@) =~= out@
                        + (seq![rest[0]] + replaced(rest.drop_first(), fs@, ts@)));
                }
                out.push(cs[i]);
                i = i + 1;
            }
        }
        proof {
            assert(cs@.skip(n as int) =~= Seq::<char>::empty());
            assert(out@ + Seq::<char>::empty() =~= out@);
        }
    }
    string_of(out.as_slice())
}

} // verus!
