//! Temperature buckets for calibration lookups.
//!
//! The entropy confidence and the temperature table hold floating-point
//! values; what is decided here is the bucket a question falls in and which
//! override entry answers for it.

use vstd::prelude::*;

use crate::primitive::{kind_name, DecisionKind};
use crate::text::{append_str, str_eq, string_of};

verus! {

/// Option-count bucket of a temperature key.
pub open spec fn bucket_size(option_count: int) -> Seq<char> {
    if option_count <= 2 {
        "2"@
    } else if option_count <= 5 {
        "3-5"@
    } else if option_count <= 10 {
        "6-10"@
    } else {
        "11+"@
    }
}

/// Temperature lookup key `"{kind}:{size}"`.
pub open spec fn bucket_key(kind: DecisionKind, option_count: int) -> Seq<char> {
    kind_name(kind) + ":"@ + bucket_size(option_count)
}

/// Temperature lookup bucket key (`"{kind}:{size}"`).
pub fn temp_bucket(kind: DecisionKind, option_count: usize) -> (r: String)
    ensures
        r@ == bucket_key(kind, option_count as int),
{
    let size = if option_count <= 2 {
        "2"
    } else if option_count <= 5 {
        "3-5"
    } else if option_count <= 10 {
        "6-10"
    } else {
        "11+"
    };
    let mut text: Vec<char> = Vec::new();
    append_str(&mut text, kind.as_str());
    append_str(&mut text, ":");
    append_str(&mut text, size);
    string_of(text.as_slice())
}

/// Index of the first key equal to `key`, if any.
pub open spec fn first_index_of(keys: Seq<Seq<char>>, key: Seq<char>) -> Option<int>
    decreases keys.len(),
{
    if keys.len() == 0 {
        None
    } else if keys[0] == key {
        Some(0)
    } else {
        match first_index_of(keys.drop_first(), key) {
            Some(i) => Some(i + 1),
            None => None,
        }
    }
}

/// Views of override keys.
pub open spec fn key_views(keys: Seq<String>) -> Seq<Seq<char>> {
    keys.map_values(|k: String| k@)
}

/// Which option-count override answers for a question: the first entry whose
/// key is the question's bucket key. `None` means the per-kind default applies.
pub fn override_index(keys: &[String], kind: DecisionKind, option_count: usize) -> (r: Option<
    usize,
>)
    ensures
        match first_index_of(key_views(keys@), bucket_key(kind, option_count as int)) {
            Some(i) => r matches Some(j) && j == i,
            None => r is None,
        },
{
    let key = temp_bucket(kind, option_count);
    let ghost kv = key_views(keys@);
    let mut i: usize = 0;
    proof {
        assert(kv.skip(0) =~= kv);
    }
    while i < keys.len()
        invariant
            i <= keys@.len(),
            kv == key_views(keys@),
            key@ == bucket_key(kind, option_count as int),
            first_index_of(kv, key@) == match first_index_of(kv.skip(i as int), key@) {
                Some(j) => Some(j + i),
                None => None,
            },
        decreases keys@.len() - i,
    {
        proof {
            assert(kv.skip(i as int).drop_first() =~= kv.skip(i + 1));
            assert(kv.skip(i as int)[0] == keys@[i as int]@);
        }
        if str_eq(keys[i].as_str(), key.as_str()) {
            return Some(i);
        }
        i = i + 1;
    }
    None
}

} // verus!
