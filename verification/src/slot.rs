//! The slot decoder: reading one record out of a fixed-width slot.
//!
//! A slot is a window of exactly `slot_width` bytes holding one
//! NUL-terminated text record followed by don't-care padding. The record is
//! the bytes strictly before the first NUL, decoded as text with best-effort
//! substitution for invalid byte sequences.

use vstd::prelude::*;
use vstd::utf8::{decode_utf8, valid_utf8};

use crate::error::PipelineError;

verus! {

/// The slot holds at least one NUL byte.
pub open spec fn has_nul(s: Seq<u8>) -> bool {
    exists|i: int| 0 <= i < s.len() && s[i] == 0
}

/// `i` is the position of the first NUL byte of `s`.
pub open spec fn is_first_nul(s: Seq<u8>, i: int) -> bool {
    &&& 0 <= i < s.len()
    &&& s[i] == 0
    &&& forall|j: int| 0 <= j < i ==> s[j] != 0
}

/// The position of the first NUL byte of `s` (meaningful only when
/// `has_nul(s)` holds).
pub open spec fn nul_pos(s: Seq<u8>) -> int {
    choose|i: int| is_first_nul(s, i)
}

pub proof fn lemma_first_nul_exists(s: Seq<u8>)
    requires
        has_nul(s),
    ensures
        is_first_nul(s, nul_pos(s)),
    decreases s.len(),
{
    let w = choose|i: int| 0 <= i < s.len() && s[i] == 0;
    if s[0] == 0 {
        assert(is_first_nul(s, 0));
    } else {
        let t = s.subrange(1, s.len() as int);
        assert(t[w - 1] == 0);
        lemma_first_nul_exists(t);
        let j = nul_pos(t);
        assert(s[j + 1] == 0);
        assert(forall|k: int| 0 <= k < j + 1 ==> s[k] == t[k - 1] || k == 0);
        assert(is_first_nul(s, j + 1));
    }
}

pub proof fn lemma_first_nul_unique(s: Seq<u8>, i: int, j: int)
    requires
        is_first_nul(s, i),
        is_first_nul(s, j),
    ensures
        i == j,
{
}

/// What the bytes of a slot or record decode to under best-effort
/// (lossy) UTF-8 decoding. The decoding is a function of the bytes alone;
/// on valid UTF-8 it agrees with `decode_utf8`.
pub uninterp spec fn lossy_utf8(bytes: Seq<u8>) -> Seq<char>;

/// Relies on `String::from_utf8_lossy`: the result depends on the bytes
/// alone; invalid sequences are substituted, never rejected, and valid
/// UTF-8 input is decoded unchanged.
#[verifier::external_body]
fn utf8_lossy(bytes: &[u8]) -> (r: String)
    ensures
        r@ == lossy_utf8(bytes@),
        valid_utf8(bytes@) ==> r@ == decode_utf8(bytes@),
{
    String::from_utf8_lossy(bytes).into_owned()
}

/// The record held by a slot: the text before its first NUL byte
/// (meaningful only when `has_nul(slot)` holds).
pub open spec fn spec_record(slot: Seq<u8>) -> Seq<char> {
    lossy_utf8(slot.take(nul_pos(slot)))
}

/// Position of the first NUL byte of `slot`, or `None` if there is none.
pub fn find_nul(slot: &[u8]) -> (r: Option<usize>)
    ensures
        match r {
            Some(i) => is_first_nul(slot@, i as int),
            None => !has_nul(slot@),
        },
{
    let n: usize = slot.len();
    let mut i: usize = 0;
    while i < n
        invariant
            0 <= i <= n == slot@.len(),
            forall|j: int| 0 <= j < i ==> slot@[j] != 0,
        decreases n - i,
    {
        if slot[i] == 0 {
            return Some(i);
        }
        i += 1;
    }
    None
}

/// Decode the record held by one full slot: the bytes strictly before the
/// first NUL, as best-effort text. A slot with no NUL byte anywhere is
/// malformed and yields `MissingTerminator`.
pub fn decode_slot(slot: &[u8]) -> (r: Result<String, PipelineError>)
    ensures
        has_nul(slot@) ==> (r matches Ok(s) && s@ == spec_record(slot@)),
        !has_nul(slot@) ==> r == Err::<String, PipelineError>(PipelineError::MissingTerminator),
{
    match find_nul(slot) {
        None => Err(PipelineError::MissingTerminator),
        Some(i) => {
            proof {
                lemma_first_nul_exists(slot@);
                lemma_first_nul_unique(slot@, i as int, nul_pos(slot@));
            }
            let prefix: &[u8] = &slot[0..i];
            assert(prefix@ == slot@.take(nul_pos(slot@)));
            Ok(utf8_lossy(prefix))
        },
    }
}

} // verus!
