//! Messages written by the native MLX forward into caller buffers.

use vstd::prelude::*;

verus! {

/// What `String::from_utf8_lossy` gives for some bytes.
pub uninterp spec fn utf8_lossy(bytes: Seq<u8>) -> Seq<char>;

/// Calls `String::from_utf8_lossy`; the text is named by the bytes.
#[verifier::external_body]
fn decode_lossy(bytes: &[u8]) -> (r: String)
    ensures
        r@ == utf8_lossy(bytes@),
{
    String::from_utf8_lossy(bytes).into_owned()
}

/// Bytes of a C string buffer: everything before the first NUL, or the whole
/// buffer when it has none.
pub open spec fn c_string_bytes(buf: Seq<u8>) -> Seq<u8>
    decreases buf.len(),
{
    if buf.len() == 0 || buf[0] == 0 {
        Seq::empty()
    } else {
        seq![buf[0]] + c_string_bytes(buf.drop_first())
    }
}

proof fn lemma_c_string_bytes(buf: Seq<u8>, end: int)
    requires
        0 <= end <= buf.len(),
        forall|k: int| 0 <= k < end ==> buf[k] != 0,
        end == buf.len() || buf[end] == 0,
    ensures
        c_string_bytes(buf) == buf.take(end),
    decreases end,
{
    if end == 0 {
        assert(buf.take(0) =~= Seq::<u8>::empty());
    } else {
        lemma_c_string_bytes(buf.drop_first(), end - 1);
        assert(buf.take(end) =~= seq![buf[0]] + buf.drop_first().take(end - 1));
    }
}

/// Text of a NUL-terminated message buffer (invalid UTF-8 replaced).
pub fn c_message(buf: &[u8]) -> (r: String)
    ensures
        r@ == utf8_lossy(c_string_bytes(buf@)),
{
    let mut end: usize = 0;
    while end < buf.len() && buf[end] != 0
        invariant
            end <= buf@.len(),
            forall|k: int| 0 <= k < end ==> buf@[k] != 0,
        decreases buf@.len() - end,
    {
        end = end + 1;
    }
    proof {
        lemma_c_string_bytes(buf@, end as int);
    }
    let mut head: Vec<u8> = Vec::new();
    let mut i: usize = 0;
    while i < end
        invariant
            end <= buf@.len(),
            i <= end,
            head@ == buf@.take(i as int),
        decreases end - i,
    {
        proof {
            assert(buf@.take(i + 1) =~= buf@.take(i as int).push(buf@[i as int]));
        }
        head.push(buf[i]);
        i = i + 1;
    }
    decode_lossy(head.as_slice())
}

} // verus!
