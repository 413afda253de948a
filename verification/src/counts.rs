//! The mathematical model of training: occurrence counts over the training
//! sequence, the fitted table entries they induce, and the invariance of
//! those entries under bijective relabeling of the alphabets.

use vstd::prelude::*;

use crate::prob::Prob;

verus! {

/// How often hidden state `h` occurs in `s`.
pub open spec fn count_hid(s: Seq<(u64, u64)>, h: u64) -> nat
    decreases s.len(),
{
    if s.len() == 0 {
        0nat
    } else {
        count_hid(s.drop_last(), h) + if s.last().0 == h {
            1nat
        } else {
            0nat
        }
    }
}

/// How often the pair (hidden state `h`, observation `o`) occurs in `s`.
pub open spec fn count_emit(s: Seq<(u64, u64)>, h: u64, o: u64) -> nat
    decreases s.len(),
{
    if s.len() == 0 {
        0nat
    } else {
        count_emit(s.drop_last(), h, o) + if s.last().0 == h && s.last().1 == o {
            1nat
        } else {
            0nat
        }
    }
}

/// How often hidden state `a` is immediately followed by hidden state `b`.
pub open spec fn count_trans(s: Seq<(u64, u64)>, a: u64, b: u64) -> nat
    decreases s.len(),
{
    if s.len() < 2 {
        0nat
    } else {
        count_trans(s.drop_last(), a, b) + if s[s.len() - 2].0 == a && s.last().0 == b {
            1nat
        } else {
            0nat
        }
    }
}

/// How often hidden state `a` occurs with a successor, that is, anywhere
/// but in the final position.
pub open spec fn count_out(s: Seq<(u64, u64)>, a: u64) -> nat {
    if s.len() == 0 {
        0nat
    } else {
        count_hid(s.drop_last(), a)
    }
}

/// The fitted prior entry for `h`: its occurrence count over the sequence
/// length, present exactly when `h` was seen.
pub open spec fn trained_prior(s: Seq<(u64, u64)>, h: u64) -> Option<Prob> {
    if count_hid(s, h) > 0 {
        Some(Prob { num: count_hid(s, h) as usize, den: s.len() as usize })
    } else {
        None
    }
}

/// The fitted emission entry for (`h`, `o`): the pair's count over `h`'s
/// occurrence count, present exactly when the pair was seen.
pub open spec fn trained_emission(s: Seq<(u64, u64)>, h: u64, o: u64) -> Option<Prob> {
    if count_emit(s, h, o) > 0 {
        Some(Prob { num: count_emit(s, h, o) as usize, den: count_hid(s, h) as usize })
    } else {
        None
    }
}

/// The fitted transition entry for (`a`, `b`): the adjacency count over
/// `a`'s outgoing count, present exactly when `a` was ever followed by `b`.
pub open spec fn trained_transition(s: Seq<(u64, u64)>, a: u64, b: u64) -> Option<Prob> {
    if count_trans(s, a, b) > 0 {
        Some(Prob { num: count_trans(s, a, b) as usize, den: count_out(s, a) as usize })
    } else {
        None
    }
}

/// Extending a prefix by one pair changes each count in the evident way.
pub proof fn lemma_counts_take_step(s: Seq<(u64, u64)>, i: int)
    requires
        0 <= i < s.len(),
    ensures
        forall|h: u64| #[trigger] count_hid(s.take(i + 1), h) == count_hid(s.take(i), h) + (
        if s[i].0 == h {
            1nat
        } else {
            0nat
        }),
        forall|h: u64, o: u64| #[trigger] count_emit(s.take(i + 1), h, o) == count_emit(
            s.take(i),
            h,
            o,
        ) + (if s[i].0 == h && s[i].1 == o {
            1nat
        } else {
            0nat
        }),
        forall|a: u64, b: u64| #[trigger] count_trans(s.take(i + 1), a, b) == count_trans(
            s.take(i),
            a,
            b,
        ) + (if i >= 1 && s[i - 1].0 == a && s[i].0 == b {
            1nat
        } else {
            0nat
        }),
        forall|a: u64| #[trigger] count_out(s.take(i + 1), a) == count_hid(s.take(i), a),
{
    let pre = s.take(i);
    let post = s.take(i + 1);
    assert(post.drop_last() =~= pre);
    assert(post.last() == s[i]);
    assert forall|a: u64, b: u64| #[trigger] count_trans(post, a, b) == count_trans(pre, a, b) + (
    if i >= 1 && s[i - 1].0 == a && s[i].0 == b {
        1nat
    } else {
        0nat
    }) by {
        if i >= 1 {
            assert(post[post.len() - 2] == s[i - 1]);
        }
    }
}

/// A state occurring at position `j` has a positive occurrence count.
pub proof fn lemma_count_hid_pos(s: Seq<(u64, u64)>, j: int)
    requires
        0 <= j < s.len(),
    ensures
        count_hid(s, s[j].0) >= 1,
    decreases s.len(),
{
    if j < s.len() - 1 {
        lemma_count_hid_pos(s.drop_last(), j);
    }
}

/// No occurrence count exceeds the sequence length.
pub proof fn lemma_count_hid_le_len(s: Seq<(u64, u64)>, h: u64)
    ensures
        count_hid(s, h) <= s.len(),
    decreases s.len(),
{
    if s.len() > 0 {
        lemma_count_hid_le_len(s.drop_last(), h);
    }
}

/// No pair count exceeds the sequence length.
pub proof fn lemma_count_emit_le_len(s: Seq<(u64, u64)>, h: u64, o: u64)
    ensures
        count_emit(s, h, o) <= s.len(),
    decreases s.len(),
{
    if s.len() > 0 {
        lemma_count_emit_le_len(s.drop_last(), h, o);
    }
}

/// No adjacency count exceeds the sequence length.
pub proof fn lemma_count_trans_le_len(s: Seq<(u64, u64)>, a: u64, b: u64)
    ensures
        count_trans(s, a, b) <= s.len(),
    decreases s.len(),
{
    if s.len() >= 2 {
        lemma_count_trans_le_len(s.drop_last(), a, b);
    }
}

/// A pair is seen at most as often as its hidden state.
pub proof fn lemma_count_emit_le_hid(s: Seq<(u64, u64)>, h: u64, o: u64)
    ensures
        count_emit(s, h, o) <= count_hid(s, h),
    decreases s.len(),
{
    if s.len() > 0 {
        lemma_count_emit_le_hid(s.drop_last(), h, o);
    }
}

/// An adjacency is seen at most as often as its source has successors.
pub proof fn lemma_count_trans_le_out(s: Seq<(u64, u64)>, a: u64, b: u64)
    ensures
        count_trans(s, a, b) <= count_out(s, a),
    decreases s.len(),
{
    if s.len() >= 2 {
        lemma_count_trans_le_out(s.drop_last(), a, b);
        assert(s.drop_last().last() == s[s.len() - 2]);
        assert(count_out(s, a) == count_hid(s.drop_last(), a));
        assert(count_hid(s.drop_last(), a) == count_out(s.drop_last(), a) + (
        if s[s.len() - 2].0 == a {
            1nat
        } else {
            0nat
        }));
    }
}

/// A bijective relabeling of both alphabets, applied pointwise.
pub open spec fn relabel(s: Seq<(u64, u64)>, f: spec_fn(u64) -> u64, g: spec_fn(u64) -> u64) -> Seq<
    (u64, u64),
> {
    s.map_values(|p: (u64, u64)| (f(p.0), g(p.1)))
}

pub open spec fn injective(f: spec_fn(u64) -> u64) -> bool {
    forall|x: u64, y: u64| #[trigger] f(x) == #[trigger] f(y) ==> x == y
}

proof fn lemma_relabel_counts(
    s: Seq<(u64, u64)>,
    f: spec_fn(u64) -> u64,
    g: spec_fn(u64) -> u64,
    h: u64,
    o: u64,
    a: u64,
    b: u64,
)
    requires
        injective(f),
        injective(g),
    ensures
        count_hid(relabel(s, f, g), f(h)) == count_hid(s, h),
        count_emit(relabel(s, f, g), f(h), g(o)) == count_emit(s, h, o),
        count_trans(relabel(s, f, g), f(a), f(b)) == count_trans(s, a, b),
        count_out(relabel(s, f, g), f(a)) == count_out(s, a),
    decreases s.len(),
{
    let r = relabel(s, f, g);
    assert(r.len() == s.len());
    if s.len() > 0 {
        lemma_relabel_counts(s.drop_last(), f, g, h, o, a, b);
        assert(r.drop_last() =~= relabel(s.drop_last(), f, g));
        assert(r.last() == (f(s.last().0), g(s.last().1)));
        if s.len() >= 2 {
            assert(r[r.len() - 2] == (f(s[s.len() - 2].0), g(s[s.len() - 2].1)));
        }
    }
}

/// Training is invariant under bijective relabeling: fitting after renaming
/// every hidden symbol by `f` and every observation symbol by `g` yields,
/// at the renamed keys, exactly the entries fitted from the original
/// sequence.
pub proof fn law_relabel_invariance(
    s: Seq<(u64, u64)>,
    f: spec_fn(u64) -> u64,
    g: spec_fn(u64) -> u64,
    h: u64,
    o: u64,
    a: u64,
    b: u64,
)
    requires
        injective(f),
        injective(g),
    ensures
        trained_prior(relabel(s, f, g), f(h)) == trained_prior(s, h),
        trained_emission(relabel(s, f, g), f(h), g(o)) == trained_emission(s, h, o),
        trained_transition(relabel(s, f, g), f(a), f(b)) == trained_transition(s, a, b),
        relabel(s, f, g).len() == s.len(),
        s.len() > 0 ==> relabel(s, f, g)[0].0 == f(s[0].0),
{
    lemma_relabel_counts(s, f, g, h, o, a, b);
    lemma_relabel_counts(s, f, g, a, o, a, b);
}

} // verus!
