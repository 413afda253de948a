//! Association tables keyed by `u64` symbols, stored as vectors of pairs
//! with pairwise-distinct keys, together with the lookup and update
//! reasoning the model's proofs rest on.

use vstd::prelude::*;

verus! {

/// The value stored under key `k`, by first match.
pub open spec fn find_key<V>(s: Seq<(u64, V)>, k: u64) -> Option<V>
    decreases s.len(),
{
    if s.len() == 0 {
        None
    } else if s[0].0 == k {
        Some(s[0].1)
    } else {
        find_key(s.drop_first(), k)
    }
}

/// The view of the row stored under key `k` in a nested table.
pub open spec fn find_row<V>(s: Seq<(u64, Vec<(u64, V)>)>, k: u64) -> Option<Seq<(u64, V)>>
    decreases s.len(),
{
    if s.len() == 0 {
        None
    } else if s[0].0 == k {
        Some(s[0].1@)
    } else {
        find_row(s.drop_first(), k)
    }
}

/// The value stored under the pair of keys (`k1`, `k2`) in a nested table.
pub open spec fn find_in_row<V>(s: Seq<(u64, Vec<(u64, V)>)>, k1: u64, k2: u64) -> Option<V> {
    match find_row(s, k1) {
        Some(row) => find_key(row, k2),
        None => None,
    }
}

/// No two entries share a key.
pub open spec fn distinct_keys<V>(s: Seq<(u64, V)>) -> bool {
    forall|i: int, j: int| 0 <= i < j < s.len() ==> (#[trigger] s[i]).0 != (#[trigger] s[j]).0
}

/// The sum of the counters of a counting table.
pub open spec fn sum_counts(s: Seq<(u64, usize)>) -> int
    decreases s.len(),
{
    if s.len() == 0 {
        0int
    } else {
        sum_counts(s.drop_last()) + s.last().1
    }
}

/// If no entry before `j` has `s[j]`'s key, lookup of that key lands on `j`.
pub proof fn lemma_find_key_at<V>(s: Seq<(u64, V)>, j: int)
    requires
        0 <= j < s.len(),
        forall|i: int| 0 <= i < j ==> (#[trigger] s[i]).0 != s[j].0,
    ensures
        find_key(s, s[j].0) == Some(s[j].1),
    decreases s.len(),
{
    if j > 0 {
        lemma_find_key_at(s.drop_first(), j - 1);
    }
}

proof fn lemma_find_key_absent_one<V>(s: Seq<(u64, V)>, k: u64)
    requires
        forall|i: int| 0 <= i < s.len() ==> (#[trigger] s[i]).0 != k,
    ensures
        find_key(s, k) is None,
    decreases s.len(),
{
    if s.len() > 0 {
        let t = s.drop_first();
        assert(forall|i: int| 0 <= i < t.len() ==> #[trigger] t[i] == s[i + 1]);
        lemma_find_key_absent_one(t, k);
    }
}

proof fn lemma_find_key_present_one<V>(s: Seq<(u64, V)>, k: u64, j: int)
    requires
        0 <= j < s.len(),
        s[j].0 == k,
    ensures
        find_key(s, k) is Some,
    decreases s.len(),
{
    if s[0].0 != k {
        assert(s.drop_first()[j - 1] == s[j]);
        lemma_find_key_present_one(s.drop_first(), k, j - 1);
    }
}

/// A key is missing from a table exactly when no entry carries it.
pub proof fn lemma_find_key_absent<V>(s: Seq<(u64, V)>, k: u64)
    ensures
        find_key(s, k) is None <==> (forall|i: int| 0 <= i < s.len() ==> (#[trigger] s[i]).0 != k),
{
    if forall|i: int| 0 <= i < s.len() ==> (#[trigger] s[i]).0 != k {
        lemma_find_key_absent_one(s, k);
    }
    if find_key(s, k) is None {
        assert forall|i: int| 0 <= i < s.len() implies (#[trigger] s[i]).0 != k by {
            if s[i].0 == k {
                lemma_find_key_present_one(s, k, i);
            }
        }
    }
}

proof fn lemma_find_key_update_one<V>(s: Seq<(u64, V)>, j: int, p: (u64, V), k: u64)
    requires
        0 <= j < s.len(),
        p.0 == s[j].0,
        k != p.0,
    ensures
        find_key(s.update(j, p), k) == find_key(s, k),
    decreases s.len(),
{
    let t = s.update(j, p);
    if s.len() > 0 {
        if j == 0 {
            assert(t.drop_first() =~= s.drop_first());
        } else {
            assert(t.drop_first() =~= s.drop_first().update(j - 1, p));
            lemma_find_key_update_one(s.drop_first(), j - 1, p, k);
        }
    }
}

/// Overwriting the entry at `j`, keeping its key, changes only that key's
/// value; `j` must be the key's first position.
pub proof fn lemma_find_key_update<V>(s: Seq<(u64, V)>, j: int, p: (u64, V))
    requires
        0 <= j < s.len(),
        p.0 == s[j].0,
        forall|i: int| 0 <= i < j ==> (#[trigger] s[i]).0 != s[j].0,
    ensures
        distinct_keys(s) ==> distinct_keys(s.update(j, p)),
        find_key(s.update(j, p), p.0) == Some(p.1),
        forall|k: u64| k != p.0 ==> #[trigger] find_key(s.update(j, p), k) == find_key(s, k),
    decreases s.len(),
{
    let t = s.update(j, p);
    assert(forall|i: int| 0 <= i < s.len() && i != j ==> #[trigger] t[i] == s[i]);
    lemma_find_key_at(t, j);
    assert forall|k: u64| k != p.0 implies #[trigger] find_key(t, k) == find_key(s, k) by {
        lemma_find_key_update_one(s, j, p, k);
    }
}

proof fn lemma_find_key_push_one<V>(s: Seq<(u64, V)>, p: (u64, V), k: u64)
    requires
        k != p.0,
    ensures
        find_key(s.push(p), k) == find_key(s, k),
    decreases s.len(),
{
    let t = s.push(p);
    if s.len() == 0 {
        assert(t.drop_first() =~= Seq::<(u64, V)>::empty());
    } else {
        assert(t.drop_first() =~= s.drop_first().push(p));
        lemma_find_key_push_one(s.drop_first(), p, k);
    }
}

/// Appending an entry under a fresh key adds that key and changes no other.
pub proof fn lemma_find_key_push<V>(s: Seq<(u64, V)>, p: (u64, V))
    requires
        find_key(s, p.0) is None,
    ensures
        distinct_keys(s) ==> distinct_keys(s.push(p)),
        find_key(s.push(p), p.0) == Some(p.1),
        forall|k: u64| k != p.0 ==> #[trigger] find_key(s.push(p), k) == find_key(s, k),
{
    lemma_find_key_absent(s, p.0);
    let t = s.push(p);
    assert(forall|i: int| 0 <= i < s.len() ==> #[trigger] t[i] == s[i]);
    assert(t[s.len() as int] == p);
    lemma_find_key_at(t, s.len() as int);
    assert forall|k: u64| k != p.0 implies #[trigger] find_key(t, k) == find_key(s, k) by {
        lemma_find_key_push_one(s, p, k);
    }
}

/// The nested-table analogue of `lemma_find_key_at`.
pub proof fn lemma_find_row_at<V>(s: Seq<(u64, Vec<(u64, V)>)>, j: int)
    requires
        0 <= j < s.len(),
        forall|i: int| 0 <= i < j ==> (#[trigger] s[i]).0 != s[j].0,
    ensures
        find_row(s, s[j].0) == Some(s[j].1@),
    decreases s.len(),
{
    if j > 0 {
        lemma_find_row_at(s.drop_first(), j - 1);
    }
}

proof fn lemma_find_row_absent_one<V>(s: Seq<(u64, Vec<(u64, V)>)>, k: u64)
    requires
        forall|i: int| 0 <= i < s.len() ==> (#[trigger] s[i]).0 != k,
    ensures
        find_row(s, k) is None,
    decreases s.len(),
{
    if s.len() > 0 {
        let t = s.drop_first();
        assert(forall|i: int| 0 <= i < t.len() ==> #[trigger] t[i] == s[i + 1]);
        lemma_find_row_absent_one(t, k);
    }
}

proof fn lemma_find_row_present_one<V>(s: Seq<(u64, Vec<(u64, V)>)>, k: u64, j: int)
    requires
        0 <= j < s.len(),
        s[j].0 == k,
    ensures
        find_row(s, k) is Some,
    decreases s.len(),
{
    if s[0].0 != k {
        assert(s.drop_first()[j - 1] == s[j]);
        lemma_find_row_present_one(s.drop_first(), k, j - 1);
    }
}

/// The nested-table analogue of `lemma_find_key_absent`.
pub proof fn lemma_find_row_absent<V>(s: Seq<(u64, Vec<(u64, V)>)>, k: u64)
    ensures
        find_row(s, k) is None <==> (forall|i: int| 0 <= i < s.len() ==> (#[trigger] s[i]).0 != k),
{
    if forall|i: int| 0 <= i < s.len() ==> (#[trigger] s[i]).0 != k {
        lemma_find_row_absent_one(s, k);
    }
    if find_row(s, k) is None {
        assert forall|i: int| 0 <= i < s.len() implies (#[trigger] s[i]).0 != k by {
            if s[i].0 == k {
                lemma_find_row_present_one(s, k, i);
            }
        }
    }
}

proof fn lemma_find_row_update_one<V>(
    s: Seq<(u64, Vec<(u64, V)>)>,
    j: int,
    p: (u64, Vec<(u64, V)>),
    k: u64,
)
    requires
        0 <= j < s.len(),
        p.0 == s[j].0,
        k != p.0,
    ensures
        find_row(s.update(j, p), k) == find_row(s, k),
    decreases s.len(),
{
    let t = s.update(j, p);
    if s.len() > 0 {
        if j == 0 {
            assert(t.drop_first() =~= s.drop_first());
        } else {
            assert(t.drop_first() =~= s.drop_first().update(j - 1, p));
            lemma_find_row_update_one(s.drop_first(), j - 1, p, k);
        }
    }
}

/// The nested-table analogue of `lemma_find_key_update`.
pub proof fn lemma_find_row_update<V>(s: Seq<(u64, Vec<(u64, V)>)>, j: int, p: (u64, Vec<(u64, V)>))
    requires
        0 <= j < s.len(),
        p.0 == s[j].0,
        forall|i: int| 0 <= i < j ==> (#[trigger] s[i]).0 != s[j].0,
    ensures
        distinct_keys(s) ==> distinct_keys(s.update(j, p)),
        find_row(s.update(j, p), p.0) == Some(p.1@),
        forall|k: u64| k != p.0 ==> #[trigger] find_row(s.update(j, p), k) == find_row(s, k),
{
    let t = s.update(j, p);
    assert(forall|i: int| 0 <= i < s.len() && i != j ==> #[trigger] t[i] == s[i]);
    lemma_find_row_at(t, j);
    assert forall|k: u64| k != p.0 implies #[trigger] find_row(t, k) == find_row(s, k) by {
        lemma_find_row_update_one(s, j, p, k);
    }
}

proof fn lemma_find_row_push_one<V>(s: Seq<(u64, Vec<(u64, V)>)>, p: (u64, Vec<(u64, V)>), k: u64)
    requires
        k != p.0,
    ensures
        find_row(s.push(p), k) == find_row(s, k),
    decreases s.len(),
{
    let t = s.push(p);
    if s.len() == 0 {
        assert(t.drop_first() =~= Seq::<(u64, Vec<(u64, V)>)>::empty());
    } else {
        assert(t.drop_first() =~= s.drop_first().push(p));
        lemma_find_row_push_one(s.drop_first(), p, k);
    }
}

/// The nested-table analogue of `lemma_find_key_push`.
pub proof fn lemma_find_row_push<V>(s: Seq<(u64, Vec<(u64, V)>)>, p: (u64, Vec<(u64, V)>))
    requires
        find_row(s, p.0) is None,
    ensures
        distinct_keys(s) ==> distinct_keys(s.push(p)),
        find_row(s.push(p), p.0) == Some(p.1@),
        forall|k: u64| k != p.0 ==> #[trigger] find_row(s.push(p), k) == find_row(s, k),
{
    lemma_find_row_absent(s, p.0);
    let t = s.push(p);
    assert(forall|i: int| 0 <= i < s.len() ==> #[trigger] t[i] == s[i]);
    assert(t[s.len() as int] == p);
    lemma_find_row_at(t, s.len() as int);
    assert forall|k: u64| k != p.0 implies #[trigger] find_row(t, k) == find_row(s, k) by {
        lemma_find_row_push_one(s, p, k);
    }
}

/// Two tables with the same keys in the same order agree on which keys are
/// present.
pub proof fn lemma_same_keys_same_presence<V, W>(s: Seq<(u64, V)>, t: Seq<(u64, W)>, k: u64)
    requires
        s.len() == t.len(),
        forall|i: int| 0 <= i < s.len() ==> (#[trigger] s[i]).0 == (#[trigger] t[i]).0,
    ensures
        find_key(s, k) is None <==> find_key(t, k) is None,
{
    lemma_find_key_absent(s, k);
    lemma_find_key_absent(t, k);
    if forall|i: int| 0 <= i < s.len() ==> (#[trigger] s[i]).0 != k {
        assert forall|i: int| 0 <= i < t.len() implies (#[trigger] t[i]).0 != k by {
            assert(s[i].0 != k);
        }
    }
    if forall|i: int| 0 <= i < t.len() ==> (#[trigger] t[i]).0 != k {
        assert forall|i: int| 0 <= i < s.len() implies (#[trigger] s[i]).0 != k by {
            assert(t[i].0 != k);
        }
    }
}

/// Counter sums: every counter is at most the table's sum, and sums are
/// non-negative.
pub proof fn lemma_count_le_sum(s: Seq<(u64, usize)>, j: int)
    requires
        0 <= j < s.len(),
    ensures
        s[j].1 <= sum_counts(s),
        sum_counts(s) >= 0,
    decreases s.len(),
{
    lemma_sum_counts_nonneg(s.drop_last());
    if j < s.len() - 1 {
        lemma_count_le_sum(s.drop_last(), j);
    }
}

pub proof fn lemma_sum_counts_nonneg(s: Seq<(u64, usize)>)
    ensures
        sum_counts(s) >= 0,
    decreases s.len(),
{
    if s.len() > 0 {
        lemma_sum_counts_nonneg(s.drop_last());
    }
}

/// Overwriting the counter at `j` shifts the sum by the counter's change.
pub proof fn lemma_sum_counts_update(s: Seq<(u64, usize)>, j: int, p: (u64, usize))
    requires
        0 <= j < s.len(),
    ensures
        sum_counts(s.update(j, p)) == sum_counts(s) - s[j].1 + p.1,
    decreases s.len(),
{
    let t = s.update(j, p);
    if j == s.len() - 1 {
        assert(t.drop_last() =~= s.drop_last());
    } else {
        assert(t.drop_last() =~= s.drop_last().update(j, p));
        lemma_sum_counts_update(s.drop_last(), j, p);
    }
}

/// Appending an entry adds its counter to the sum.
pub proof fn lemma_sum_counts_push(s: Seq<(u64, usize)>, p: (u64, usize))
    ensures
        sum_counts(s.push(p)) == sum_counts(s) + p.1,
{
    assert(s.push(p).drop_last() =~= s);
}

/// Extending a prefix of a counting table by one entry adds its counter.
pub proof fn lemma_sum_counts_take_step(s: Seq<(u64, usize)>, k: int)
    requires
        0 <= k < s.len(),
    ensures
        sum_counts(s.take(k + 1)) == sum_counts(s.take(k)) + s[k].1,
{
    assert(s.take(k + 1).drop_last() =~= s.take(k));
    assert(s.take(k + 1).last() == s[k]);
}

/// Finds the position of a key in a table, if any entry carries it.
pub fn find_index<V>(v: &Vec<(u64, V)>, k: u64) -> (r: Option<usize>)
    ensures
        match r {
            Some(j) => j < v@.len() && v@[j as int].0 == k && (forall|i: int|
                0 <= i < j ==> (#[trigger] v@[i]).0 != k),
            None => forall|i: int| 0 <= i < v@.len() ==> (#[trigger] v@[i]).0 != k,
        },
{
    let mut j: usize = 0;
    while j < v.len()
        invariant
            j <= v@.len(),
            forall|i: int| 0 <= i < j ==> (#[trigger] v@[i]).0 != k,
        decreases v@.len() - j,
    {
        if v[j].0 == k {
            return Some(j);
        }
        j = j + 1;
    }
    None
}

/// Adds one to the counter under `k`, inserting the counter at one if the
/// key is new.
pub fn bump(v: &mut Vec<(u64, usize)>, k: u64)
    requires
        distinct_keys(old(v)@),
        (match find_key(old(v)@, k) {
            Some(c) => c < usize::MAX,
            None => true,
        }),
    ensures
        distinct_keys(final(v)@),
        find_key(final(v)@, k) == Some(
            (match find_key(old(v)@, k) {
                Some(c) => (c + 1) as usize,
                None => 1usize,
            }),
        ),
        forall|k2: u64| k2 != k ==> #[trigger] find_key(final(v)@, k2) == find_key(old(v)@, k2),
        sum_counts(final(v)@) == sum_counts(old(v)@) + 1,
        final(v)@.len() == old(v)@.len() + (if find_key(old(v)@, k) is Some {
            0int
        } else {
            1int
        }),
        forall|i: int| 0 <= i < old(v)@.len() ==> (#[trigger] final(v)@[i]).0 == old(v)@[i].0,
        find_key(old(v)@, k) is None ==> final(v)@[old(v)@.len() as int].0 == k,
{
    match find_index(v, k) {
        Some(j) => {
            proof {
                lemma_find_key_at(v@, j as int);
            }
            let c = v[j].1;
            let ghost s0 = v@;
            v[j] = (k, c + 1);
            proof {
                lemma_find_key_update(s0, j as int, (k, (c + 1) as usize));
                lemma_sum_counts_update(s0, j as int, (k, (c + 1) as usize));
            }
        },
        None => {
            proof {
                lemma_find_key_absent(v@, k);
            }
            let ghost s0 = v@;
            v.push((k, 1));
            proof {
                lemma_find_key_push(s0, (k, 1usize));
                lemma_sum_counts_push(s0, (k, 1usize));
            }
        },
    }
}

/// A found key is carried by some entry.
pub proof fn lemma_find_key_index<V>(s: Seq<(u64, V)>, k: u64)
    requires
        find_key(s, k) is Some,
    ensures
        exists|j: int|
            0 <= j < s.len() && (#[trigger] s[j]).0 == k && Some(s[j].1) == find_key(s, k),
    decreases s.len(),
{
    if s[0].0 == k {
        assert(s[0].0 == k && Some(s[0].1) == find_key(s, k));
    } else {
        lemma_find_key_index(s.drop_first(), k);
        let j = choose|j: int|
            0 <= j < s.drop_first().len() && (#[trigger] s.drop_first()[j]).0 == k && Some(
                s.drop_first()[j].1,
            ) == find_key(s.drop_first(), k);
        assert(s[j + 1] == s.drop_first()[j]);
    }
}

/// A found row is carried by some entry.
pub proof fn lemma_find_row_index<V>(s: Seq<(u64, Vec<(u64, V)>)>, k: u64)
    requires
        find_row(s, k) is Some,
    ensures
        exists|j: int|
            0 <= j < s.len() && (#[trigger] s[j]).0 == k && Some(s[j].1@) == find_row(s, k),
    decreases s.len(),
{
    if s[0].0 == k {
        assert(s[0].0 == k && Some(s[0].1@) == find_row(s, k));
    } else {
        lemma_find_row_index(s.drop_first(), k);
        let j = choose|j: int|
            0 <= j < s.drop_first().len() && (#[trigger] s.drop_first()[j]).0 == k && Some(
                s.drop_first()[j].1@,
            ) == find_row(s.drop_first(), k);
        assert(s[j + 1] == s.drop_first()[j]);
    }
}

/// With distinct keys, lookup of any entry's key yields that entry's value.
pub proof fn lemma_find_key_unique_at<V>(s: Seq<(u64, V)>, j: int)
    requires
        distinct_keys(s),
        0 <= j < s.len(),
    ensures
        find_key(s, s[j].0) == Some(s[j].1),
{
    lemma_find_key_at(s, j);
}

/// With distinct keys, row lookup of any entry's key yields that entry's row.
pub proof fn lemma_find_row_unique_at<V>(s: Seq<(u64, Vec<(u64, V)>)>, j: int)
    requires
        distinct_keys(s),
        0 <= j < s.len(),
    ensures
        find_row(s, s[j].0) == Some(s[j].1@),
{
    lemma_find_row_at(s, j);
}

/// Two nested tables with the same keys in the same order agree on which
/// rows are present.
pub proof fn lemma_same_keys_same_row_presence<V, W>(
    s: Seq<(u64, Vec<(u64, V)>)>,
    t: Seq<(u64, Vec<(u64, W)>)>,
    k: u64,
)
    requires
        s.len() == t.len(),
        forall|i: int| 0 <= i < s.len() ==> (#[trigger] s[i]).0 == (#[trigger] t[i]).0,
    ensures
        find_row(s, k) is None <==> find_row(t, k) is None,
{
    lemma_find_row_absent(s, k);
    lemma_find_row_absent(t, k);
    if forall|i: int| 0 <= i < s.len() ==> (#[trigger] s[i]).0 != k {
        assert forall|i: int| 0 <= i < t.len() implies (#[trigger] t[i]).0 != k by {
            assert(s[i].0 != k);
        }
    }
    if forall|i: int| 0 <= i < t.len() ==> (#[trigger] t[i]).0 != k {
        assert forall|i: int| 0 <= i < s.len() implies (#[trigger] s[i]).0 != k by {
            assert(t[i].0 != k);
        }
    }
}

/// The counter sum of a prefix is at most that of the whole table.
pub proof fn lemma_sum_counts_prefix_le(s: Seq<(u64, usize)>, k: int)
    requires
        0 <= k <= s.len(),
    ensures
        sum_counts(s.take(k)) <= sum_counts(s),
    decreases s.len() - k,
{
    if k == s.len() {
        assert(s.take(k) =~= s);
    } else {
        lemma_sum_counts_take_step(s, k);
        lemma_sum_counts_prefix_le(s, k + 1);
    }
}

/// Removing an entry and reinserting one at the same position is an update.
pub proof fn lemma_remove_insert<A>(s: Seq<A>, j: int, a: A)
    requires
        0 <= j < s.len(),
    ensures
        s.remove(j).insert(j, a) =~= s.update(j, a),
{
}

/// Adds one to the counter under (`k1`, `k2`) in a nested counting table,
/// inserting the row or the counter where missing.
pub fn bump2(v: &mut Vec<(u64, Vec<(u64, usize)>)>, k1: u64, k2: u64)
    requires
        distinct_keys(old(v)@),
        (match find_row(old(v)@, k1) {
            Some(row) => distinct_keys(row) && (match find_key(row, k2) {
                Some(c) => c < usize::MAX,
                None => true,
            }),
            None => true,
        }),
    ensures
        distinct_keys(final(v)@),
        final(v)@.len() == old(v)@.len() + (if find_row(old(v)@, k1) is Some {
            0int
        } else {
            1int
        }),
        forall|i: int|
            0 <= i < old(v)@.len() ==> (#[trigger] final(v)@[i]).0 == old(v)@[i].0,
        find_row(old(v)@, k1) is None ==> final(v)@[old(v)@.len() as int].0 == k1,
        forall|k: u64| k != k1 ==> #[trigger] find_row(final(v)@, k) == find_row(old(v)@, k),
        (match find_row(final(v)@, k1) {
            Some(row) => {
                &&& distinct_keys(row)
                &&& sum_counts(row) == (match find_row(old(v)@, k1) {
                    Some(r) => sum_counts(r),
                    None => 0int,
                }) + 1
                &&& find_key(row, k2) == Some(
                    (match find_in_row(old(v)@, k1, k2) {
                        Some(c) => (c + 1) as usize,
                        None => 1usize,
                    }),
                )
                &&& (forall|o: u64|
                    o != k2 ==> #[trigger] find_key(row, o) == find_in_row(old(v)@, k1, o))
            },
            None => false,
        }),
{
    match find_index(v, k1) {
        Some(j) => {
            proof {
                lemma_find_row_at(v@, j as int);
            }
            let ghost s0 = v@;
            let (kk, mut row) = v.remove(j);
            bump(&mut row, k2);
            let ghost rowv = row@;
            v.insert(j, (kk, row));
            proof {
                lemma_remove_insert(s0, j as int, v@[j as int]);
                assert(v@ =~= s0.update(j as int, v@[j as int]));
                assert(v@[j as int].0 == k1);
                assert(v@[j as int].1@ == rowv);
                lemma_find_row_update(s0, j as int, v@[j as int]);
            }
        },
        None => {
            proof {
                lemma_find_row_absent(v@, k1);
            }
            let ghost s0 = v@;
            let mut row: Vec<(u64, usize)> = Vec::new();
            row.push((k2, 1));
            proof {
                let r1 = row@;
                assert(r1.len() == 1 && r1[0] == (k2, 1usize));
                assert(r1.drop_last() =~= Seq::<(u64, usize)>::empty());
                assert(r1.drop_first() =~= Seq::<(u64, usize)>::empty());
                assert(sum_counts(Seq::<(u64, usize)>::empty()) == 0);
                assert(r1.last() == (k2, 1usize));
                assert(sum_counts(r1) == 1);
                assert(find_key(r1, k2) == Some(1usize));
                assert forall|o: u64| o != k2 implies #[trigger] find_key(r1, o) is None by {
                    assert(find_key(Seq::<(u64, usize)>::empty(), o) is None);
                }
            }
            let ghost rowv = row@;
            v.push((k1, row));
            proof {
                assert(v@ == s0.push(v@[s0.len() as int]));
                assert(v@[s0.len() as int].0 == k1);
                assert(v@[s0.len() as int].1@ == rowv);
                lemma_find_row_push(s0, v@[s0.len() as int]);
            }
        },
    }
}

} // verus!
