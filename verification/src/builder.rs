//! The dictionary builder and the finished dictionary column.
//!
//! The builder consumes text values one at a time, keeping an append-only
//! table of the distinct values in first-occurrence order and a key
//! sequence with one entry per consumed input. Finishing the builder
//! freezes that state into an immutable column.

use vstd::prelude::*;

use crate::dict::{
    key_of, lemma_index_in_unique, lemma_keys_len_and_range, lemma_uniques_no_dup, spec_keys,
    spec_uniques,
};
use crate::error::PipelineError;

verus! {

/// The width of the unsigned integer key type configured for a run. Its
/// range bounds how many distinct values the column can index.
#[derive(Clone, Copy, Debug, PartialEq, Eq)]
pub enum KeyWidth {
    U8,
    U16,
    U32,
    U64,
}

impl KeyWidth {
    /// How many distinct values a column with this key width can hold.
    pub open spec fn spec_max_distinct(self) -> int {
        match self {
            KeyWidth::U8 => 0x100,
            KeyWidth::U16 => 0x1_0000,
            KeyWidth::U32 => 0x1_0000_0000,
            KeyWidth::U64 => 0x1_0000_0000_0000_0000,
        }
    }

    /// Whether a table already holding `count` distinct values can take
    /// one more under this width.
    fn can_assign(self, count: usize) -> (r: bool)
        ensures
            r == ((count as int) < self.spec_max_distinct()),
    {
        match self {
            KeyWidth::U8 => count < 0x100,
            KeyWidth::U16 => count < 0x1_0000,
            KeyWidth::U32 => (count as u64) < 0x1_0000_0000u64,
            KeyWidth::U64 => true,
        }
    }
}

/// The key entries as mathematical integers.
pub open spec fn keys_as_int(ks: Seq<Option<u64>>) -> Seq<Option<int>> {
    ks.map_values(
        |k: Option<u64>|
            match k {
                None => None,
                Some(x) => Some(x as int),
            },
    )
}

/// The finished artifact: an ordered key sequence, one entry per input in
/// input order (`None` marks a null), and the table of unique values in
/// first-occurrence order.
#[derive(Clone, Debug, PartialEq, Eq)]
pub struct DictionaryColumn {
    keys: Vec<Option<u64>>,
    values: Vec<String>,
}

impl DictionaryColumn {
    /// The key sequence.
    pub closed spec fn keys_view(self) -> Seq<Option<int>> {
        keys_as_int(self.keys@)
    }

    /// The unique-value table.
    pub closed spec fn values_view(self) -> Seq<Seq<char>> {
        self.values.deep_view()
    }

    /// Every non-null key indexes a valid position of the value table.
    pub open spec fn wf(self) -> bool {
        forall|i: int|
            0 <= i < self.keys_view().len() && self.keys_view()[i] is Some ==> 0
                <= self.keys_view()[i]->0 < self.values_view().len()
    }

    /// How many keys the column holds: one per consumed input.
    pub fn key_count(&self) -> (n: usize)
        ensures
            n == self.keys_view().len(),
    {
        self.keys.len()
    }

    /// How many distinct values the column holds.
    pub fn unique_value_count(&self) -> (n: usize)
        ensures
            n == self.values_view().len(),
    {
        self.values.len()
    }

    /// The key at position `i`, `None` for a null entry.
    pub fn key_at(&self, i: usize) -> (k: Option<u64>)
        requires
            i < self.keys_view().len(),
        ensures
            k is Some <==> self.keys_view()[i as int] is Some,
            k is Some ==> k->0 as int == self.keys_view()[i as int]->0,
    {
        self.keys[i]
    }

    /// The unique value with key `i`.
    pub fn value_at(&self, i: usize) -> (v: &String)
        requires
            i < self.values_view().len(),
        ensures
            v@ == self.values_view()[i as int],
    {
        &self.values[i]
    }
}

/// A well-formed builder's value table always fits the configured key
/// width.
pub proof fn lemma_builder_fits_width(b: DictBuilder)
    requires
        b.wf(),
    ensures
        spec_uniques(b.consumed_view()).len() <= b.spec_width().spec_max_distinct(),
{
}

/// Position of the first entry of `values` equal to `v`, if any.
fn find_value(values: &Vec<String>, v: &String) -> (r: Option<usize>)
    ensures
        match r {
            Some(i) => i < values.len() && values.deep_view()[i as int] == v@,
            None => !values.deep_view().contains(v@),
        },
{
    let n: usize = values.len();
    let mut i: usize = 0;
    while i < n
        invariant
            i <= n == values@.len(),
            forall|j: int| 0 <= j < i ==> values.deep_view()[j] != v@,
        decreases n - i,
    {
        if values[i] == *v {
            return Some(i);
        }
        i += 1;
    }
    proof {
        assert forall|j: int| 0 <= j < values.deep_view().len() implies values.deep_view()[j]
            != v@ by {}
    }
    None
}

/// The incremental dictionary builder. Its observable state is the
/// sequence of inputs consumed so far; the key sequence and value table it
/// keeps are exactly the dictionary encoding of that sequence.
pub struct DictBuilder {
    keys: Vec<Option<u64>>,
    values: Vec<String>,
    width: KeyWidth,
    consumed: Ghost<Seq<Option<Seq<char>>>>,
}

impl DictBuilder {
    /// The inputs consumed so far, in order (`None` for a null).
    pub closed spec fn consumed_view(self) -> Seq<Option<Seq<char>>> {
        self.consumed@
    }

    /// The configured key width.
    pub closed spec fn spec_width(self) -> KeyWidth {
        self.width
    }

    /// The builder's state is the dictionary encoding of what it consumed,
    /// and the value table fits the configured key width.
    pub closed spec fn wf(self) -> bool {
        &&& keys_as_int(self.keys@) == spec_keys(self.consumed@)
        &&& self.values.deep_view() == spec_uniques(self.consumed@)
        &&& spec_uniques(self.consumed@).len() <= self.width.spec_max_distinct()
    }

    /// An empty builder for the given key width.
    pub fn new(width: KeyWidth) -> (b: DictBuilder)
        ensures
            b.wf(),
            b.consumed_view() == Seq::<Option<Seq<char>>>::empty(),
            b.spec_width() == width,
    {
        let b = DictBuilder {
            keys: Vec::new(),
            values: Vec::new(),
            width,
            consumed: Ghost(Seq::empty()),
        };
        proof {
            assert(keys_as_int(b.keys@) =~= spec_keys(b.consumed@));
            assert(b.values.deep_view() =~= spec_uniques(b.consumed@));
        }
        b
    }

    /// An empty builder with storage pre-sized by an advisory hint:
    /// expected key count, expected distinct-value count, and expected
    /// total byte size of the distinct values. The hint never affects
    /// what the builder produces.
    pub fn with_capacity(
        width: KeyWidth,
        key_capacity: usize,
        value_capacity: usize,
        _data_capacity: usize,
    ) -> (b: DictBuilder)
        ensures
            b.wf(),
            b.consumed_view() == Seq::<Option<Seq<char>>>::empty(),
            b.spec_width() == width,
    {
        let b = DictBuilder {
            keys: Vec::with_capacity(key_capacity),
            values: Vec::with_capacity(value_capacity),
            width,
            consumed: Ghost(Seq::empty()),
        };
        proof {
            assert(keys_as_int(b.keys@) =~= spec_keys(b.consumed@));
            assert(b.values.deep_view() =~= spec_uniques(b.consumed@));
        }
        b
    }

    /// Consume one text value: append the key already assigned to it, or
    /// assign the next free key if the value is new. Fails with
    /// `KeyOverflow`, leaving the builder unchanged, exactly when the value
    /// is new and the value table is full for the configured width.
    pub fn push_value(&mut self, v: String) -> (r: Result<(), PipelineError>)
        requires
            old(self).wf(),
        ensures
            final(self).wf(),
            final(self).spec_width() == old(self).spec_width(),
            r is Ok <==> (spec_uniques(old(self).consumed_view()).contains(v@) || spec_uniques(
                old(self).consumed_view(),
            ).len() < old(self).spec_width().spec_max_distinct()),
            r is Ok ==> final(self).consumed_view() == old(self).consumed_view().push(Some(v@)),
            r is Err ==> r == Err::<(), PipelineError>(PipelineError::KeyOverflow) && *final(self)
                == *old(self),
    {
        let ghost s0 = self.consumed@;
        let ghost u0 = spec_uniques(s0);
        proof {
            lemma_uniques_no_dup(s0);
        }
        match find_value(&self.values, &v) {
            Some(i) => {
                proof {
                    assert(u0[i as int] == v@);
                    assert(u0.contains(v@));
                    lemma_index_in_unique(u0, v@, i as int);
                }
                self.keys.push(Some(i as u64));
                self.consumed = Ghost(s0.push(Some(v@)));
                proof {
                    let s1 = self.consumed@;
                    assert(s1.drop_last() =~= s0);
                    assert(spec_keys(s1) == spec_keys(s0).push(Some(key_of(u0, v@))));
                    assert(key_of(u0, v@) == i as int);
                    assert(spec_uniques(s1) == u0);
                    assert(keys_as_int(self.keys@) =~= spec_keys(s0).push(Some(i as int)));
                }
                Ok(())
            },
            None => {
                proof {
                    assert(!u0.contains(v@));
                }
                if self.width.can_assign(self.values.len()) {
                    let k: u64 = self.values.len() as u64;
                    self.values.push(v);
                    self.keys.push(Some(k));
                    self.consumed = Ghost(s0.push(Some(v@)));
                    proof {
                        let s1 = self.consumed@;
                        assert(s1.drop_last() =~= s0);
                        assert(spec_keys(s1) == spec_keys(s0).push(Some(key_of(u0, v@))));
                        assert(key_of(u0, v@) == u0.len() as int);
                        assert(spec_uniques(s1) == u0.push(v@));
                        assert(keys_as_int(self.keys@) =~= spec_keys(s0).push(
                            Some(u0.len() as int),
                        ));
                        assert(self.values.deep_view() =~= u0.push(v@));
                    }
                    Ok(())
                } else {
                    Err(PipelineError::KeyOverflow)
                }
            },
        }
    }

    /// Consume one null: append a null key. The value table is untouched,
    /// so a null never fails.
    pub fn push_null(&mut self)
        requires
            old(self).wf(),
        ensures
            final(self).wf(),
            final(self).spec_width() == old(self).spec_width(),
            final(self).consumed_view() == old(self).consumed_view().push(None),
    {
        let ghost s0 = self.consumed@;
        self.keys.push(None);
        self.consumed = Ghost(s0.push(None));
        proof {
            let s1 = self.consumed@;
            assert(s1.drop_last() =~= s0);
            assert(spec_keys(s1) == spec_keys(s0).push(None));
            assert(spec_uniques(s1) == spec_uniques(s0));
            assert(keys_as_int(self.keys@) =~= spec_keys(s0).push(None));
        }
    }

    /// Freeze the builder into the immutable column that encodes exactly
    /// the inputs consumed so far.
    pub fn finish(self) -> (c: DictionaryColumn)
        requires
            self.wf(),
        ensures
            c.wf(),
            c.keys_view() == spec_keys(self.consumed_view()),
            c.values_view() == spec_uniques(self.consumed_view()),
    {
        proof {
            lemma_keys_len_and_range(self.consumed@);
        }
        DictionaryColumn { keys: self.keys, values: self.values }
    }
}

} // verus!
