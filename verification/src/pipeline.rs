//! The streaming pipeline: slot-wise decoding composed with the dictionary
//! builder, run to completion or to the first error.
//!
//! Errors surface in consumption order: a malformed slot or a key overflow
//! at some record preempts everything discovered later, and a trailing
//! partial slot is only discovered after every full slot before it was
//! consumed.

use vstd::arithmetic::div_mod::lemma_fundamental_div_mod;
use vstd::prelude::*;

use crate::builder::{lemma_builder_fits_width, DictBuilder, DictionaryColumn, KeyWidth};
use crate::dict::{lemma_keys_len_and_range, lemma_uniques_len_monotone, spec_keys, spec_uniques};
use crate::error::PipelineError;
use crate::slot::{decode_slot, has_nul, spec_record};

verus! {

/// How many full slots of width `w` the input holds.
pub open spec fn full_slots(bytes: Seq<u8>, w: int) -> int {
    bytes.len() as int / w
}

/// The bytes of slot `i`.
pub open spec fn slot_at(bytes: Seq<u8>, w: int, i: int) -> Seq<u8> {
    bytes.subrange(i * w, i * w + w)
}

/// Every slot strictly before slot `n` holds a NUL byte.
pub open spec fn slots_ok_to(bytes: Seq<u8>, w: int, n: int) -> bool {
    forall|i: int| 0 <= i < n ==> has_nul(slot_at(bytes, w, i))
}

/// The records of the first `n` slots, in input order.
pub open spec fn slot_records(bytes: Seq<u8>, w: int, n: int) -> Seq<Seq<char>> {
    Seq::new(n as nat, |i: int| spec_record(slot_at(bytes, w, i)))
}

/// The records of the first `n` slots, as dictionary-builder inputs (the
/// slot format has no nulls, so every input is present).
pub open spec fn slot_inputs(bytes: Seq<u8>, w: int, n: int) -> Seq<Option<Seq<char>>> {
    Seq::new(n as nat, |i: int| Some(spec_record(slot_at(bytes, w, i))))
}

/// Decode every slot of `bytes` into its record, in input order. Succeeds
/// exactly when the input length is a multiple of `slot_width` and every
/// slot holds a NUL byte; a slot without one fails the run before a
/// trailing partial slot is discovered.
pub fn nts2strings_lossy(bytes: &[u8], slot_width: usize) -> (r: Result<Vec<String>, PipelineError>)
    requires
        slot_width > 0,
    ensures
        r is Ok <==> (bytes@.len() as int % (slot_width as int) == 0 && slots_ok_to(
            bytes@,
            slot_width as int,
            full_slots(bytes@, slot_width as int),
        )),
        r matches Ok(v) ==> v.deep_view() == slot_records(
            bytes@,
            slot_width as int,
            full_slots(bytes@, slot_width as int),
        ) && v@.len() * slot_width == bytes@.len(),
        r is Err ==> r->Err_0 == (if !slots_ok_to(
            bytes@,
            slot_width as int,
            full_slots(bytes@, slot_width as int),
        ) {
            PipelineError::MissingTerminator
        } else {
            PipelineError::TruncatedSlot
        }),
{
    let ghost w = slot_width as int;
    let n: usize = bytes.len();
    let full: usize = n / slot_width;
    proof {
        lemma_fundamental_div_mod(n as int, w);
        assert(n as int % w >= 0) by (nonlinear_arith)
            requires
                w > 0,
        ;
        assert(w * (n as int / w) == (n as int / w) * w) by (nonlinear_arith);
    }
    let mut out: Vec<String> = Vec::new();
    let mut i: usize = 0;
    while i < full
        invariant
            slot_width > 0,
            n == bytes@.len(),
            w == slot_width as int,
            full as int == full_slots(bytes@, w),
            (full as int) * w <= n as int,
            i <= full,
            slots_ok_to(bytes@, w, i as int),
            out.deep_view() == slot_records(bytes@, w, i as int),
        decreases full - i,
    {
        proof {
            assert(0 <= (i as int) * w && (i as int) * w + w <= (full as int) * w)
                by (nonlinear_arith)
                requires
                    0 <= (i as int) < full as int,
                    w > 0,
            ;
        }
        let start: usize = i * slot_width;
        let slot: &[u8] = &bytes[start..start + slot_width];
        proof {
            assert(slot@ =~= slot_at(bytes@, w, i as int));
        }
        match decode_slot(slot) {
            Err(e) => {
                proof {
                    assert(!has_nul(slot_at(bytes@, w, i as int)));
                }
                return Err(e);
            },
            Ok(s) => {
                proof {
                    assert(out.deep_view().len() == i as int);
                    assert(out@.len() == i as int);
                    assert(s@ == spec_record(slot_at(bytes@, w, i as int)));
                }
                out.push(s);
                proof {
                    assert forall|j: int| 0 <= j < i as int + 1 implies out.deep_view()[j]
                        == slot_records(bytes@, w, i as int + 1)[j] by {
                        assert(out.deep_view()[j] == out@[j].deep_view());
                        if j < i as int {
                            assert(slot_records(bytes@, w, i as int)[j] == spec_record(
                                slot_at(bytes@, w, j),
                            ));
                        }
                    }
                    assert(out.deep_view() =~= slot_records(bytes@, w, i as int + 1));
                }
            },
        }
        i += 1;
    }
    if n % slot_width != 0 {
        return Err(PipelineError::TruncatedSlot);
    }
    proof {
        assert(out.deep_view().len() == full as int);
        lemma_fundamental_div_mod(n as int, w);
        assert(w * (n as int / w) == (n as int / w) * w) by (nonlinear_arith);
        assert((full as int) * w == n as int);
    }
    Ok(out)
}

/// Some record can be reached and its insertion overflows the key table:
/// for some `k`, the first `k` slots are all well formed and their records
/// hold more distinct values than `max` allows.
pub open spec fn overflow_hit(bytes: Seq<u8>, w: int, max: int) -> bool {
    exists|k: int|
        1 <= k <= full_slots(bytes, w) && slots_ok_to(bytes, w, k) && #[trigger] spec_uniques(
            slot_inputs(bytes, w, k),
        ).len() > max
}

/// No overflow is reachable when every reachable record prefix lies within
/// the first `m` slots and the value table of those `m` slots fits.
proof fn lemma_no_overflow_below(bytes: Seq<u8>, w: int, max: int, m: int)
    requires
        0 <= m <= full_slots(bytes, w),
        spec_uniques(slot_inputs(bytes, w, m)).len() <= max,
        forall|k: int| 1 <= k <= full_slots(bytes, w) && slots_ok_to(bytes, w, k) ==> k <= m,
    ensures
        !overflow_hit(bytes, w, max),
{
    assert forall|k: int|
        1 <= k <= full_slots(bytes, w) && slots_ok_to(bytes, w, k) implies #[trigger] spec_uniques(
        slot_inputs(bytes, w, k),
    ).len() <= max by {
        assert(k <= m);
        assert(slot_inputs(bytes, w, m).take(k) =~= slot_inputs(bytes, w, k));
        lemma_uniques_len_monotone(slot_inputs(bytes, w, m), k);
    }
}

/// Run the whole pipeline over in-memory input: decode each fixed-width
/// slot to its record and feed it to the dictionary builder, stopping at
/// the first error. The advisory size hint only pre-sizes storage.
///
/// On success the column encodes exactly the record sequence of the input,
/// whose slots together consume every input byte.
pub fn nts2dict_arr(
    bytes: &[u8],
    slot_width: usize,
    size_hint: Option<(usize, usize, usize)>,
    width: KeyWidth,
) -> (r: Result<DictionaryColumn, PipelineError>)
    requires
        slot_width > 0,
    ensures
        r is Ok <==> (bytes@.len() as int % (slot_width as int) == 0 && slots_ok_to(
            bytes@,
            slot_width as int,
            full_slots(bytes@, slot_width as int),
        ) && spec_uniques(
            slot_inputs(bytes@, slot_width as int, full_slots(bytes@, slot_width as int)),
        ).len() <= width.spec_max_distinct()),
        r matches Ok(c) ==> {
            let inputs = slot_inputs(
                bytes@,
                slot_width as int,
                full_slots(bytes@, slot_width as int),
            );
            &&& c.wf()
            &&& c.keys_view() == spec_keys(inputs)
            &&& c.values_view() == spec_uniques(inputs)
            &&& c.keys_view().len() * slot_width == bytes@.len()
        },
        r is Err ==> r->Err_0 == (if overflow_hit(
            bytes@,
            slot_width as int,
            width.spec_max_distinct(),
        ) {
            PipelineError::KeyOverflow
        } else if !slots_ok_to(
            bytes@,
            slot_width as int,
            full_slots(bytes@, slot_width as int),
        ) {
            PipelineError::MissingTerminator
        } else {
            PipelineError::TruncatedSlot
        }),
{
    let ghost w = slot_width as int;
    let ghost max = width.spec_max_distinct();
    let n: usize = bytes.len();
    let full: usize = n / slot_width;
    proof {
        lemma_fundamental_div_mod(n as int, w);
        assert(n as int % w >= 0) by (nonlinear_arith)
            requires
                w > 0,
        ;
        assert(w * (n as int / w) == (n as int / w) * w) by (nonlinear_arith);
    }
    let mut b: DictBuilder = match size_hint {
        None => DictBuilder::new(width),
        Some(h) => DictBuilder::with_capacity(width, h.0, h.1, h.2),
    };
    proof {
        assert(b.consumed_view() =~= slot_inputs(bytes@, w, 0));
    }
    let mut i: usize = 0;
    while i < full
        invariant
            slot_width > 0,
            n == bytes@.len(),
            w == slot_width as int,
            max == width.spec_max_distinct(),
            full as int == full_slots(bytes@, w),
            (full as int) * w <= n as int,
            i <= full,
            b.wf(),
            b.spec_width() == width,
            slots_ok_to(bytes@, w, i as int),
            b.consumed_view() == slot_inputs(bytes@, w, i as int),
        decreases full - i,
    {
        proof {
            assert(0 <= (i as int) * w && (i as int) * w + w <= (full as int) * w)
                by (nonlinear_arith)
                requires
                    0 <= (i as int) < full as int,
                    w > 0,
            ;
        }
        let start: usize = i * slot_width;
        let slot: &[u8] = &bytes[start..start + slot_width];
        proof {
            assert(slot@ =~= slot_at(bytes@, w, i as int));
        }
        let ghost consumed0 = b.consumed_view();
        match decode_slot(slot) {
            Err(e) => {
                proof {
                    assert(!has_nul(slot_at(bytes@, w, i as int)));
                    assert forall|k: int|
                        1 <= k <= full_slots(bytes@, w) && slots_ok_to(
                            bytes@,
                            w,
                            k,
                        ) implies k <= i as int by {
                        if k > i as int {
                            assert(has_nul(slot_at(bytes@, w, i as int)));
                        }
                    }
                    lemma_builder_fits_width(b);
                    lemma_no_overflow_below(bytes@, w, max, i as int);
                }
                return Err(e);
            },
            Ok(s) => {
                proof {
                    assert(has_nul(slot_at(bytes@, w, i as int)));
                    assert(s@ == spec_record(slot_at(bytes@, w, i as int)));
                }
                let ghost v = s@;
                match b.push_value(s) {
                    Ok(()) => {
                        proof {
                            assert(b.consumed_view() =~= slot_inputs(bytes@, w, i as int + 1));
                        }
                    },
                    Err(e2) => {
                        proof {
                            let s1 = consumed0.push(Some(v));
                            assert(s1 =~= slot_inputs(bytes@, w, i as int + 1));
                            assert(s1.drop_last() =~= consumed0);
                            assert(!spec_uniques(consumed0).contains(v));
                            assert(spec_uniques(s1) == spec_uniques(consumed0).push(v));
                            assert(spec_uniques(s1).len() > max);
                            assert(slots_ok_to(bytes@, w, i as int + 1));
                            assert(overflow_hit(bytes@, w, max));
                            if bytes@.len() as int % w == 0 && slots_ok_to(
                                bytes@,
                                w,
                                full as int,
                            ) {
                                assert(slot_inputs(bytes@, w, full as int).take(i as int + 1)
                                    =~= s1);
                                lemma_uniques_len_monotone(
                                    slot_inputs(bytes@, w, full as int),
                                    i as int + 1,
                                );
                            }
                        }
                        return Err(e2);
                    },
                }
            },
        }
        i += 1;
    }
    if n % slot_width != 0 {
        proof {
            lemma_builder_fits_width(b);
            lemma_no_overflow_below(bytes@, w, max, full as int);
        }
        return Err(PipelineError::TruncatedSlot);
    }
    proof {
        assert((full as int) * w == n as int);
        lemma_builder_fits_width(b);
        lemma_no_overflow_below(bytes@, w, max, full as int);
        lemma_keys_len_and_range(b.consumed_view());
    }
    Ok(b.finish())
}

/// The records of the first `n` items of a fallible input, as builder
/// inputs (meaningful when those items are all successes).
pub open spec fn ok_inputs(s: Seq<Result<String, PipelineError>>, n: int) -> Seq<
    Option<Seq<char>>,
> {
    Seq::new(n as nat, |i: int| Some(s[i]->Ok_0@))
}

/// The first `n` items of a fallible input are all successes.
pub open spec fn oks_to(s: Seq<Result<String, PipelineError>>, n: int) -> bool {
    forall|i: int| 0 <= i < n ==> s[i] is Ok
}

/// Some record of a fallible input can be consumed and overflows the key
/// table before any upstream error is reached.
pub open spec fn overflow_in_results(s: Seq<Result<String, PipelineError>>, max: int) -> bool {
    exists|k: int|
        1 <= k <= s.len() && oks_to(s, k) && #[trigger] spec_uniques(ok_inputs(s, k)).len() > max
}

/// No overflow is reachable in a fallible input when every all-success
/// prefix lies within the first `m` items and their value table fits.
proof fn lemma_no_overflow_results(s: Seq<Result<String, PipelineError>>, max: int, m: int)
    requires
        0 <= m <= s.len(),
        spec_uniques(ok_inputs(s, m)).len() <= max,
        forall|k: int| 1 <= k <= s.len() && oks_to(s, k) ==> k <= m,
    ensures
        !overflow_in_results(s, max),
{
    assert forall|k: int|
        1 <= k <= s.len() && oks_to(s, k) implies #[trigger] spec_uniques(
        ok_inputs(s, k),
    ).len() <= max by {
        assert(k <= m);
        assert(ok_inputs(s, m).take(k) =~= ok_inputs(s, k));
        lemma_uniques_len_monotone(ok_inputs(s, m), k);
    }
}

/// Build a dictionary column from a sequence of fallible text values,
/// stopping at the first failure. An upstream error is propagated
/// verbatim; a key overflow at some record preempts errors that stand
/// after it. The advisory size hint only pre-sizes storage.
pub fn strings2dict_array(
    strings: Vec<Result<String, PipelineError>>,
    size_hint: Option<(usize, usize, usize)>,
    width: KeyWidth,
) -> (r: Result<DictionaryColumn, PipelineError>)
    ensures
        r is Ok <==> (oks_to(strings@, strings@.len() as int) && spec_uniques(
            ok_inputs(strings@, strings@.len() as int),
        ).len() <= width.spec_max_distinct()),
        r matches Ok(c) ==> {
            let inputs = ok_inputs(strings@, strings@.len() as int);
            &&& c.wf()
            &&& c.keys_view() == spec_keys(inputs)
            &&& c.values_view() == spec_uniques(inputs)
        },
        r is Err && overflow_in_results(strings@, width.spec_max_distinct()) ==> r->Err_0
            == PipelineError::KeyOverflow,
        r is Err && !overflow_in_results(strings@, width.spec_max_distinct()) ==> exists|e: int|
            0 <= e < strings@.len() && (#[trigger] strings@[e]) is Err && oks_to(strings@, e)
                && r->Err_0 == strings@[e]->Err_0,
{
    let ghost sv = strings@;
    let ghost max = width.spec_max_distinct();
    let n: usize = strings.len();
    let mut b: DictBuilder = match size_hint {
        None => DictBuilder::new(width),
        Some(h) => DictBuilder::with_capacity(width, h.0, h.1, h.2),
    };
    proof {
        assert(b.consumed_view() =~= ok_inputs(sv, 0));
    }
    let mut i: usize = 0;
    while i < n
        invariant
            n == strings@.len(),
            sv == strings@,
            max == width.spec_max_distinct(),
            i <= n,
            b.wf(),
            b.spec_width() == width,
            oks_to(sv, i as int),
            b.consumed_view() == ok_inputs(sv, i as int),
        decreases n - i,
    {
        let item: &Result<String, PipelineError> = &strings[i];
        match item {
            Err(e) => {
                proof {
                    assert forall|k: int| 1 <= k <= sv.len() && oks_to(sv, k) implies k
                        <= i as int by {
                        if k > i as int {
                            assert(sv[i as int] is Ok);
                        }
                    }
                    lemma_builder_fits_width(b);
                    lemma_no_overflow_results(sv, max, i as int);
                    assert(sv[i as int] is Err);
                }
                return Err(e.duplicate());
            },
            Ok(v) => {
                let ghost vv = v@;
                let ghost consumed0 = b.consumed_view();
                match b.push_value(v.clone()) {
                    Ok(()) => {
                        proof {
                            assert(b.consumed_view() =~= ok_inputs(sv, i as int + 1));
                        }
                    },
                    Err(e2) => {
                        proof {
                            let s1 = consumed0.push(Some(vv));
                            assert(s1 =~= ok_inputs(sv, i as int + 1));
                            assert(s1.drop_last() =~= consumed0);
                            lemma_builder_fits_width(b);
                            assert(spec_uniques(s1) == spec_uniques(consumed0).push(vv));
                            assert(spec_uniques(s1).len() > max);
                            assert(oks_to(sv, i as int + 1));
                            assert(overflow_in_results(sv, max));
                            if oks_to(sv, n as int) {
                                assert(ok_inputs(sv, n as int).take(i as int + 1) =~= s1);
                                lemma_uniques_len_monotone(ok_inputs(sv, n as int), i as int + 1);
                            }
                        }
                        return Err(e2);
                    },
                }
            },
        }
        i += 1;
    }
    proof {
        lemma_builder_fits_width(b);
        assert(b.consumed_view() =~= ok_inputs(sv, n as int));
    }
    Ok(b.finish())
}

/// Build a dictionary column from a sequence of nullable text values: a
/// null appends a null key and no value. This variant never fails, so the
/// distinct values of the input must fit the configured key width. The
/// advisory size hint only pre-sizes storage.
pub fn strings2dict_array_nullable(
    strings: Vec<Option<String>>,
    size_hint: Option<(usize, usize, usize)>,
    width: KeyWidth,
) -> (c: DictionaryColumn)
    requires
        spec_uniques(strings.deep_view()).len() <= width.spec_max_distinct(),
    ensures
        c.wf(),
        c.keys_view() == spec_keys(strings.deep_view()),
        c.values_view() == spec_uniques(strings.deep_view()),
{
    let ghost d = strings.deep_view();
    let ghost max = width.spec_max_distinct();
    let n: usize = strings.len();
    let mut b: DictBuilder = match size_hint {
        None => DictBuilder::new(width),
        Some(h) => DictBuilder::with_capacity(width, h.0, h.1, h.2),
    };
    proof {
        assert(b.consumed_view() =~= d.take(0));
    }
    let mut i: usize = 0;
    while i < n
        invariant
            n == strings@.len(),
            d == strings.deep_view(),
            max == width.spec_max_distinct(),
            spec_uniques(d).len() <= max,
            i <= n,
            b.wf(),
            b.spec_width() == width,
            b.consumed_view() == d.take(i as int),
        decreases n - i,
    {
        proof {
            assert(d.len() == n);
            assert(d[i as int] == strings@[i as int].deep_view());
        }
        let item: &Option<String> = &strings[i];
        match item {
            None => {
                b.push_null();
                proof {
                    assert(d[i as int] is None);
                    assert(b.consumed_view() =~= d.take(i as int + 1));
                }
            },
            Some(v) => {
                let ghost vv = v@;
                proof {
                    assert(d[i as int] == Some(vv));
                    assert(d.take(i as int + 1).drop_last() =~= d.take(i as int));
                    assert(d.take(i as int + 1).last() == Some(vv));
                    if !spec_uniques(d.take(i as int)).contains(vv) {
                        assert(spec_uniques(d.take(i as int + 1)) == spec_uniques(
                            d.take(i as int),
                        ).push(vv));
                        lemma_uniques_len_monotone(d, i as int + 1);
                    }
                }
                match b.push_value(v.clone()) {
                    Ok(()) => {
                        proof {
                            assert(b.consumed_view() =~= d.take(i as int + 1));
                        }
                    },
                    Err(_) => {
                        proof {
                            assert(false);
                        }
                    },
                }
            },
        }
        i += 1;
    }
    proof {
        assert(b.consumed_view() =~= d);
    }
    b.finish()
}

/// Determinism: the dictionary encoding of equal inputs under an equal
/// slot width is equal, keys and value order alike.
pub proof fn lemma_deterministic(a: Seq<u8>, b: Seq<u8>, w: int)
    requires
        a == b,
    ensures
        slot_inputs(a, w, full_slots(a, w)) == slot_inputs(b, w, full_slots(b, w)),
        spec_keys(slot_inputs(a, w, full_slots(a, w))) == spec_keys(
            slot_inputs(b, w, full_slots(b, w)),
        ),
        spec_uniques(slot_inputs(a, w, full_slots(a, w))) == spec_uniques(
            slot_inputs(b, w, full_slots(b, w)),
        ),
{
}

} // verus!
