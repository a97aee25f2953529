//! The mathematical model of dictionary encoding.
//!
//! An input is a sequence of optional text values (absent entries are
//! nulls). Its dictionary encoding pairs a key sequence, one entry per
//! input, with the table of distinct values in first-occurrence order;
//! each non-null input is keyed by the position of its value in that
//! table.

use vstd::prelude::*;

verus! {

/// The position of `v` in `u` (meaningful when `u.contains(v)` holds and
/// unambiguous when `u` has no duplicates).
pub open spec fn index_in(u: Seq<Seq<char>>, v: Seq<char>) -> int {
    choose|i: int| 0 <= i < u.len() && u[i] == v
}

/// The key assigned to value `v` when the table of values seen so far is
/// `u`: the position of `v` in `u` if present, else the next free key.
pub open spec fn key_of(u: Seq<Seq<char>>, v: Seq<char>) -> int {
    if u.contains(v) {
        index_in(u, v)
    } else {
        u.len() as int
    }
}

/// The table of distinct values of `s` in first-occurrence order, nulls
/// skipped.
pub open spec fn spec_uniques(s: Seq<Option<Seq<char>>>) -> Seq<Seq<char>>
    decreases s.len(),
{
    if s.len() == 0 {
        Seq::empty()
    } else {
        let prev = spec_uniques(s.drop_last());
        match s.last() {
            None => prev,
            Some(v) => if prev.contains(v) {
                prev
            } else {
                prev.push(v)
            },
        }
    }
}

/// The key sequence of `s`: one entry per input in input order; `None` for
/// a null, otherwise the key assigned to the value when it was consumed.
pub open spec fn spec_keys(s: Seq<Option<Seq<char>>>) -> Seq<Option<int>>
    decreases s.len(),
{
    if s.len() == 0 {
        Seq::empty()
    } else {
        let prev = spec_keys(s.drop_last());
        match s.last() {
            None => prev.push(None),
            Some(v) => prev.push(Some(key_of(spec_uniques(s.drop_last()), v))),
        }
    }
}

/// `u` holds no value twice.
pub open spec fn no_dup(u: Seq<Seq<char>>) -> bool {
    forall|i: int, j: int| 0 <= i < j < u.len() ==> u[i] != u[j]
}

/// `a` is an initial segment of `b`.
pub open spec fn starts_with(a: Seq<Seq<char>>, b: Seq<Seq<char>>) -> bool {
    a.len() <= b.len() && forall|i: int| 0 <= i < a.len() ==> a[i] == b[i]
}

/// In a duplicate-free table the position of a value is the only index
/// that holds it.
pub proof fn lemma_index_in_unique(u: Seq<Seq<char>>, v: Seq<char>, i: int)
    requires
        no_dup(u),
        0 <= i < u.len(),
        u[i] == v,
    ensures
        u.contains(v),
        index_in(u, v) == i,
{
    assert(u.contains(v));
    let j = index_in(u, v);
    assert(0 <= j < u.len() && u[j] == v);
}

/// The value table never holds a value twice.
pub proof fn lemma_uniques_no_dup(s: Seq<Option<Seq<char>>>)
    ensures
        no_dup(spec_uniques(s)),
    decreases s.len(),
{
    if s.len() > 0 {
        let p = s.drop_last();
        lemma_uniques_no_dup(p);
        let up = spec_uniques(p);
        match s.last() {
            None => {},
            Some(v) => {
                if !up.contains(v) {
                    let u = up.push(v);
                    assert forall|i: int, j: int| 0 <= i < j < u.len() implies u[i] != u[j] by {
                        if j == up.len() {
                            assert(u[i] == up[i]);
                            assert(up.contains(up[i]));
                        }
                    }
                }
            },
        }
    }
}

/// The value table holds exactly the values that occur in the input.
pub proof fn lemma_uniques_contains(s: Seq<Option<Seq<char>>>, v: Seq<char>)
    ensures
        spec_uniques(s).contains(v) <==> exists|i: int| 0 <= i < s.len() && s[i] == Some(v),
    decreases s.len(),
{
    if s.len() > 0 {
        let p = s.drop_last();
        lemma_uniques_contains(p, v);
        let up = spec_uniques(p);
        let u = spec_uniques(s);
        // An occurrence of `v` in `s` puts `v` into the table.
        if exists|i: int| 0 <= i < s.len() && s[i] == Some(v) {
            let i = choose|i: int| 0 <= i < s.len() && s[i] == Some(v);
            if i == s.len() - 1 {
                assert(s.last() == Some(v));
                if up.contains(v) {
                    assert(u == up);
                } else {
                    assert(u == up.push(v));
                    assert(u[up.len() as int] == v);
                }
                assert(u.contains(v));
            } else {
                assert(p[i] == Some(v));
                assert(up.contains(v));
                let k = choose|k: int| 0 <= k < up.len() && up[k] == v;
                match s.last() {
                    None => {
                        assert(u == up);
                    },
                    Some(w) => {
                        if up.contains(w) {
                            assert(u == up);
                        } else {
                            assert(u == up.push(w));
                            assert(u[k] == v);
                        }
                    },
                }
                assert(u.contains(v));
            }
        }
        // `v` in the table comes from some occurrence in `s`.
        if u.contains(v) {
            let k = choose|k: int| 0 <= k < u.len() && u[k] == v;
            match s.last() {
                None => {
                    assert(u == up);
                    assert(up.contains(v));
                    let i = choose|i: int| 0 <= i < p.len() && p[i] == Some(v);
                    assert(s[i] == Some(v));
                },
                Some(w) => {
                    if v == w {
                        assert(s[s.len() - 1] == Some(v));
                    } else {
                        if up.contains(w) {
                            assert(u == up);
                        } else {
                            assert(u == up.push(w));
                            assert(k != up.len() as int);
                            assert(up[k] == v);
                        }
                        assert(up.contains(v));
                        let i = choose|i: int| 0 <= i < p.len() && p[i] == Some(v);
                        assert(s[i] == Some(v));
                    }
                },
            }
        }
    }
}

/// A prefix of the input yields an initial segment of the value table.
pub proof fn lemma_uniques_take(s: Seq<Option<Seq<char>>>, n: int)
    requires
        0 <= n <= s.len(),
    ensures
        starts_with(spec_uniques(s.take(n)), spec_uniques(s)),
    decreases s.len() - n,
{
    if n == s.len() {
        assert(s.take(n) =~= s);
    } else {
        lemma_uniques_take(s, n + 1);
        let t = s.take(n + 1);
        assert(t.drop_last() =~= s.take(n));
        assert(t.last() == s[n]);
        let up = spec_uniques(s.take(n));
        let ut = spec_uniques(t);
        match s[n] {
            None => {
                assert(ut == up);
            },
            Some(v) => {
                if !up.contains(v) {
                    assert(ut == up.push(v));
                    assert(forall|i: int| 0 <= i < up.len() ==> up[i] == ut[i]);
                }
            },
        }
    }
}

/// The value table is never longer than the input.
pub proof fn lemma_uniques_len_bounded(s: Seq<Option<Seq<char>>>)
    ensures
        spec_uniques(s).len() <= s.len(),
    decreases s.len(),
{
    if s.len() > 0 {
        lemma_uniques_len_bounded(s.drop_last());
    }
}

/// A prefix of the input never has the larger value table.
pub proof fn lemma_uniques_len_monotone(s: Seq<Option<Seq<char>>>, n: int)
    requires
        0 <= n <= s.len(),
    ensures
        spec_uniques(s.take(n)).len() <= spec_uniques(s).len(),
{
    lemma_uniques_take(s, n);
}

/// A value present in an initial segment of a duplicate-free table has the
/// same position in the whole table.
pub proof fn lemma_index_in_extend(a: Seq<Seq<char>>, b: Seq<Seq<char>>, v: Seq<char>)
    requires
        starts_with(a, b),
        no_dup(b),
        a.contains(v),
    ensures
        b.contains(v),
        index_in(b, v) == index_in(a, v),
        0 <= index_in(a, v) < a.len(),
{
    let i = index_in(a, v);
    assert(0 <= i < a.len() && a[i] == v);
    assert(b[i] == v);
    lemma_index_in_unique(b, v, i);
    assert forall|j: int| 0 <= j < a.len() && a[j] == v implies j == i by {
        assert(b[j] == v);
        lemma_index_in_unique(b, v, j);
    }
}

/// The global shape of the key sequence: one key per input, a null key for
/// each null input, and for each non-null input the position of its value
/// in the finished value table.
pub proof fn lemma_keys_characterization(s: Seq<Option<Seq<char>>>)
    ensures
        spec_keys(s).len() == s.len(),
        forall|i: int| 0 <= i < s.len() && s[i] is None ==> spec_keys(s)[i] is None,
        forall|i: int|
            0 <= i < s.len() && s[i] is Some ==> spec_keys(s)[i] == Some(
                index_in(spec_uniques(s), s[i]->0),
            ) && {
                let k = index_in(spec_uniques(s), s[i]->0);
                0 <= k < spec_uniques(s).len() && spec_uniques(s)[k] == s[i]->0
            },
    decreases s.len(),
{
    if s.len() > 0 {
        let p = s.drop_last();
        lemma_keys_characterization(p);
        lemma_uniques_no_dup(s);
        lemma_uniques_no_dup(p);
        let up = spec_uniques(p);
        let u = spec_uniques(s);
        assert(p == s.take(s.len() - 1));
        lemma_uniques_take(s, s.len() - 1);
        assert(starts_with(up, u));
        assert forall|i: int| 0 <= i < s.len() && s[i] is Some implies spec_keys(s)[i] == Some(
            index_in(u, s[i]->0),
        ) && {
            let k = index_in(u, s[i]->0);
            0 <= k < u.len() && u[k] == s[i]->0
        } by {
            if i < s.len() - 1 {
                assert(s[i] == p[i]);
                assert(spec_keys(s)[i] == spec_keys(p)[i]);
                let v = p[i]->0;
                assert(spec_keys(p)[i] == Some(index_in(up, v)));
                assert(0 <= index_in(up, v) < up.len() && up[index_in(up, v)] == v);
                assert(up.contains(v));
                lemma_index_in_extend(up, u, v);
            } else {
                let v = s[i]->0;
                assert(s.last() == Some(v));
                assert(spec_keys(s)[i] == Some(key_of(up, v)));
                if up.contains(v) {
                    lemma_index_in_extend(up, u, v);
                    assert(u == up);
                } else {
                    assert(u == up.push(v));
                    assert(u[up.len() as int] == v);
                    lemma_index_in_unique(u, v, up.len() as int);
                }
                assert(key_of(up, v) == index_in(u, v));
                assert(0 <= index_in(u, v) < u.len() && u[index_in(u, v)] == v);
            }
        }
    }
}

/// The key sequence has one entry per input, and every non-null key indexes
/// a valid position of the value table.
pub proof fn lemma_keys_len_and_range(s: Seq<Option<Seq<char>>>)
    ensures
        spec_keys(s).len() == s.len(),
        forall|i: int|
            0 <= i < s.len() && spec_keys(s)[i] is Some ==> 0 <= spec_keys(s)[i]->0
                < spec_uniques(s).len(),
{
    lemma_keys_characterization(s);
    assert forall|i: int| 0 <= i < s.len() && spec_keys(s)[i] is Some implies 0 <= spec_keys(
        s,
    )[i]->0 < spec_uniques(s).len() by {
        assert(s[i] is Some);
    }
}

/// Deduplication: every occurrence of one value gets the same key, and the
/// value stands exactly once in the value table (it is present, and the
/// table holds no value twice).
pub proof fn lemma_deduplication(s: Seq<Option<Seq<char>>>)
    ensures
        no_dup(spec_uniques(s)),
        forall|i: int, j: int|
            0 <= i < s.len() && 0 <= j < s.len() && s[i] is Some && s[i] == s[j] ==> spec_keys(
                s,
            )[i] == spec_keys(s)[j],
        forall|i: int| 0 <= i < s.len() && s[i] is Some ==> spec_uniques(s).contains(s[i]->0),
{
    lemma_uniques_no_dup(s);
    lemma_keys_characterization(s);
    assert forall|i: int| 0 <= i < s.len() && s[i] is Some implies spec_uniques(s).contains(
        s[i]->0,
    ) by {
        let k = index_in(spec_uniques(s), s[i]->0);
        assert(spec_uniques(s)[k] == s[i]->0);
    }
}

/// First-occurrence ordering: when a value `a` first occurs strictly before
/// a different value `b` first occurs, the key of `a` is strictly below the
/// key of `b`.
pub proof fn lemma_first_occurrence_order(s: Seq<Option<Seq<char>>>, i: int, j: int)
    requires
        0 <= i < j < s.len(),
        s[i] is Some,
        s[j] is Some,
        s[i] != s[j],
        forall|k: int| 0 <= k < i ==> s[k] != s[i],
        forall|k: int| 0 <= k < j ==> s[k] != s[j],
    ensures
        spec_keys(s)[i] is Some,
        spec_keys(s)[j] is Some,
        spec_keys(s)[i]->0 < spec_keys(s)[j]->0,
{
    let a = s[i]->0;
    let b = s[j]->0;
    let u = spec_uniques(s);
    lemma_uniques_no_dup(s);
    lemma_keys_characterization(s);
    let t = s.take(j);
    lemma_uniques_take(s, j);
    let ut = spec_uniques(t);
    assert(starts_with(ut, u));
    // `a` already stands in the table built from the first `j` inputs.
    assert(t[i] == Some(a));
    lemma_uniques_contains(t, a);
    assert(ut.contains(a));
    lemma_index_in_extend(ut, u, a);
    assert(index_in(u, a) < ut.len());
    // `b` does not: its first occurrence is at `j`.
    lemma_uniques_contains(t, b);
    assert forall|k: int| 0 <= k < t.len() implies t[k] != Some(b) by {
        assert(t[k] == s[k]);
        assert(s[k] != s[j]);
    }
    assert(!ut.contains(b));
    let kb = index_in(u, b);
    assert(u[kb] == b);
    if kb < ut.len() {
        assert(ut[kb] == b);
        assert(ut.contains(b));
    }
    assert(kb >= ut.len());
}

/// Round trip: indexing the value table with the key sequence reproduces
/// the input sequence exactly, nulls included.
pub proof fn lemma_round_trip(s: Seq<Option<Seq<char>>>)
    ensures
        spec_keys(s).len() == s.len(),
        forall|i: int| 0 <= i < s.len() ==> (spec_keys(s)[i] is None <==> s[i] is None),
        forall|i: int|
            0 <= i < s.len() && s[i] is Some ==> {
                let k = spec_keys(s)[i]->0;
                0 <= k < spec_uniques(s).len() && spec_uniques(s)[k] == s[i]->0
            },
{
    lemma_keys_characterization(s);
    assert forall|i: int| 0 <= i < s.len() && s[i] is Some implies {
        let k = spec_keys(s)[i]->0;
        0 <= k < spec_uniques(s).len() && spec_uniques(s)[k] == s[i]->0
    } by {
        assert(spec_keys(s)[i] == Some(index_in(spec_uniques(s), s[i]->0)));
    }
}

} // verus!
