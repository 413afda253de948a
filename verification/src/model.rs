//! The hidden Markov model: three fitted probability tables, the one-pass
//! counting-then-normalization training procedure, and the point queries
//! built on top of them.

use vstd::prelude::*;

use crate::counts::{
    count_emit, count_hid, count_out, count_trans, lemma_count_emit_le_hid,
    lemma_count_emit_le_len, lemma_count_hid_le_len, lemma_count_hid_pos,
    lemma_count_trans_le_len, lemma_count_trans_le_out, lemma_counts_take_step, trained_emission,
    trained_prior, trained_transition,
};
use crate::prob::{
    is_one, lemma_num_le_sum, lemma_row_sums_to_one, lemma_sum_nums_prefix_le,
    lemma_sum_nums_take_step, probs_sum, rat_add, rat_div, rat_eq, rat_mul, rat_of, rat_of_opt,
    sum_nums, Prob, Rat,
};
use crate::table::{
    bump, bump2, distinct_keys, find_index, find_in_row, find_key, find_row, lemma_count_le_sum,
    lemma_find_key_absent, lemma_find_key_at, lemma_find_key_index, lemma_find_key_unique_at,
    lemma_find_row_absent, lemma_find_row_at, lemma_find_row_index, lemma_find_row_unique_at,
    lemma_same_keys_same_presence, lemma_same_keys_same_row_presence, lemma_sum_counts_prefix_le,
    lemma_sum_counts_take_step, sum_counts,
};

verus! {

/// A raw occurrence count read as an optional table entry: zero means the
/// key is absent.
spec fn cnt_opt(c: nat) -> Option<usize> {
    if c > 0 {
        Some(c as usize)
    } else {
        None
    }
}

/// The counting pass of training: one walk over the sequence accumulating
/// raw occurrence counts for the prior, emission and transition tables.
#[verifier::loop_isolation(false)]
fn count_pass(input: &[(u64, u64)]) -> (r: (
    Vec<(u64, usize)>,
    Vec<(u64, Vec<(u64, usize)>)>,
    Vec<(u64, Vec<(u64, usize)>)>,
))
    requires
        input@.len() >= 1,
    ensures
        ({
            let (hc, ec, tc) = r;
            let s = input@;
            &&& distinct_keys(hc@)
            &&& (forall|h: u64| #[trigger] find_key(hc@, h) == cnt_opt(count_hid(s, h)))
            &&& sum_counts(hc@) == s.len()
            &&& distinct_keys(ec@)
            &&& ec@.len() == hc@.len()
            &&& (forall|i: int| 0 <= i < ec@.len() ==> (#[trigger] ec@[i]).0 == hc@[i].0)
            &&& (forall|h: u64| (#[trigger] find_row(ec@, h)) is Some <==> count_hid(s, h) > 0)
            &&& (forall|h: u64, o: u64|
                #[trigger] find_in_row(ec@, h, o) == cnt_opt(count_emit(s, h, o)))
            &&& (forall|h: u64|
                match #[trigger] find_row(ec@, h) {
                    Some(row) => distinct_keys(row) && sum_counts(row) == count_hid(s, h),
                    None => true,
                })
            &&& distinct_keys(tc@)
            &&& (forall|a: u64|
                (#[trigger] find_row(tc@, a)) is Some <==> (count_out(s, a) > 0 || a == s[0].0))
            &&& (forall|a: u64, b: u64|
                #[trigger] find_in_row(tc@, a, b) == cnt_opt(count_trans(s, a, b)))
            &&& (forall|a: u64|
                match #[trigger] find_row(tc@, a) {
                    Some(row) => distinct_keys(row) && sum_counts(row) == count_out(s, a),
                    None => true,
                })
        }),
{
    let ghost s = input@;
    let n = input.len();
    let mut hc: Vec<(u64, usize)> = Vec::new();
    let mut ec: Vec<(u64, Vec<(u64, usize)>)> = Vec::new();
    let mut tc: Vec<(u64, Vec<(u64, usize)>)> = Vec::new();
    let mut i: usize = 0;
    while i < n
        invariant
            i <= n,
            distinct_keys(hc@),
            forall|h: u64| #[trigger] find_key(hc@, h) == cnt_opt(count_hid(s.take(i as int), h)),
            sum_counts(hc@) == i,
            distinct_keys(ec@),
            ec@.len() == hc@.len(),
            forall|j: int| 0 <= j < ec@.len() ==> (#[trigger] ec@[j]).0 == hc@[j].0,
            forall|h: u64|
                (#[trigger] find_row(ec@, h)) is Some <==> count_hid(s.take(i as int), h) > 0,
            forall|h: u64, o: u64|
                #[trigger] find_in_row(ec@, h, o) == cnt_opt(count_emit(s.take(i as int), h, o)),
            forall|h: u64|
                match #[trigger] find_row(ec@, h) {
                    Some(row) => distinct_keys(row) && sum_counts(row) == count_hid(
                        s.take(i as int),
                        h,
                    ),
                    None => true,
                },
            distinct_keys(tc@),
            i == 0 ==> tc@.len() == 0,
            i >= 1 ==> (forall|a: u64|
                (#[trigger] find_row(tc@, a)) is Some <==> (count_out(s.take(i as int), a) > 0
                    || a == s[0].0)),
            forall|a: u64, b: u64|
                #[trigger] find_in_row(tc@, a, b) == cnt_opt(count_trans(s.take(i as int), a, b)),
            forall|a: u64|
                match #[trigger] find_row(tc@, a) {
                    Some(row) => distinct_keys(row) && sum_counts(row) == count_out(
                        s.take(i as int),
                        a,
                    ),
                    None => true,
                },
        decreases n - i,
    {
        let ghost pre = s.take(i as int);
        let ghost post = s.take(i as int + 1);
        let h = input[i].0;
        let o = input[i].1;
        proof {
            lemma_counts_take_step(s, i as int);
            lemma_count_hid_le_len(pre, h);
            assert(pre.len() == i);
        }
        // prior counts
        let ghost hc0 = hc@;
        bump(&mut hc, h);
        proof {
            assert forall|h2: u64| #[trigger] find_key(hc@, h2) == cnt_opt(count_hid(post, h2)) by {
                if h2 != h {
                    assert(count_hid(post, h2) == count_hid(pre, h2));
                }
            }
        }
        // emission counts
        proof {
            lemma_count_emit_le_len(pre, h, o);
            assert(find_in_row(ec@, h, o) == cnt_opt(count_emit(pre, h, o)));
        }
        let ghost ec0 = ec@;
        bump2(&mut ec, h, o);
        proof {
            lemma_count_hid_pos(post, i as int);
            assert(count_hid(post, h) > 0);
            assert forall|h2: u64|
                (#[trigger] find_row(ec@, h2)) is Some <==> count_hid(post, h2) > 0 by {
                if h2 != h {
                    assert(find_row(ec@, h2) == find_row(ec0, h2));
                    assert(count_hid(post, h2) == count_hid(pre, h2));
                }
            }
            assert forall|h2: u64, o2: u64|
                #[trigger] find_in_row(ec@, h2, o2) == cnt_opt(count_emit(post, h2, o2)) by {
                if h2 != h {
                    assert(find_row(ec@, h2) == find_row(ec0, h2));
                    assert(find_in_row(ec@, h2, o2) == find_in_row(ec0, h2, o2));
                    assert(find_in_row(ec0, h2, o2) == cnt_opt(count_emit(pre, h2, o2)));
                    assert(count_emit(post, h2, o2) == count_emit(pre, h2, o2));
                } else if o2 != o {
                    assert(find_in_row(ec@, h, o2) == find_in_row(ec0, h, o2));
                    assert(find_in_row(ec0, h, o2) == cnt_opt(count_emit(pre, h, o2)));
                    assert(count_emit(post, h, o2) == count_emit(pre, h, o2));
                } else {
                    assert(find_in_row(ec0, h, o) == cnt_opt(count_emit(pre, h, o)));
                    assert(count_emit(post, h, o) == count_emit(pre, h, o) + 1);
                    assert(count_emit(pre, h, o) < usize::MAX);
                    let row = find_row(ec@, h)->Some_0;
                    assert(find_in_row(ec@, h, o) == find_key(row, o));
                    assert(find_key(row, o) == Some(
                        (match find_in_row(ec0, h, o) {
                            Some(c) => (c + 1) as usize,
                            None => 1usize,
                        }),
                    ));
                }
            }
            // the emission table's keys stay aligned with the prior table's
            assert(ec@.len() == hc@.len());
            assert forall|j: int| 0 <= j < ec@.len() implies (#[trigger] ec@[j]).0 == hc@[j].0 by {
                if j < ec0.len() {
                    assert(ec@[j].0 == ec0[j].0);
                    assert(hc@[j].0 == hc0[j].0);
                }
            }
            assert forall|h2: u64|
                match #[trigger] find_row(ec@, h2) {
                    Some(row) => distinct_keys(row) && sum_counts(row) == count_hid(post, h2),
                    None => true,
                } by {
                if h2 != h {
                    assert(find_row(ec@, h2) == find_row(ec0, h2));
                    assert(count_hid(post, h2) == count_hid(pre, h2));
                }
            }
        }
        // transition counts
        if i == 0 {
            let row: Vec<(u64, usize)> = Vec::new();
            let ghost tc0 = tc@;
            tc.push((h, row));
            proof {
                assert(tc@.len() == 1 && tc@[0].0 == h && tc@[0].1@ =~= Seq::<(u64, usize)>::empty());
                assert(distinct_keys(tc@));
                assert forall|a: u64|
                    (#[trigger] find_row(tc@, a)) is Some <==> (count_out(post, a) > 0 || a
                        == s[0].0) by {
                    if a == h {
                        assert(find_row(tc@, a) == Some(tc@[0].1@));
                    } else {
                        assert(tc@.drop_first() =~= Seq::<(u64, Vec<(u64, usize)>)>::empty());
                        assert(find_row(Seq::<(u64, Vec<(u64, usize)>)>::empty(), a) is None);
                        assert(find_row(tc@, a) is None);
                    }
                    assert(count_out(post, a) == count_hid(pre, a));
                    assert(count_hid(pre, a) == 0);
                }
                assert forall|a: u64, b: u64|
                    #[trigger] find_in_row(tc@, a, b) == cnt_opt(count_trans(post, a, b)) by {
                    assert(count_trans(post, a, b) == 0);
                    if a == h {
                        assert(find_row(tc@, a) == Some(tc@[0].1@));
                        assert(find_key(tc@[0].1@, b) is None);
                    } else {
                        assert(tc@.drop_first() =~= Seq::<(u64, Vec<(u64, usize)>)>::empty());
                        assert(find_row(Seq::<(u64, Vec<(u64, usize)>)>::empty(), a) is None);
                        assert(find_row(tc@, a) is None);
                    }
                }
                assert forall|a: u64|
                    match #[trigger] find_row(tc@, a) {
                        Some(row2) => distinct_keys(row2) && sum_counts(row2) == count_out(post, a),
                        None => true,
                    } by {
                    if a == h {
                        assert(find_row(tc@, a) == Some(tc@[0].1@));
                        assert(sum_counts(tc@[0].1@) == 0);
                        assert(count_out(post, a) == count_hid(pre, a));
                    }
                }
            }
        } else {
            let p = input[i - 1].0;
            proof {
                lemma_count_trans_le_len(pre, p, h);
                assert(find_in_row(tc@, p, h) == cnt_opt(count_trans(pre, p, h)));
            }
            let ghost tc0 = tc@;
            bump2(&mut tc, p, h);
            proof {
                lemma_count_hid_pos(pre, i as int - 1);
                assert(count_out(post, p) == count_hid(pre, p));
                assert(count_hid(pre, p) > 0);
                assert forall|a: u64|
                    (#[trigger] find_row(tc@, a)) is Some <==> (count_out(post, a) > 0 || a
                        == s[0].0) by {
                    if a != p {
                        assert(find_row(tc@, a) == find_row(tc0, a));
                        assert(count_out(post, a) == count_hid(pre, a));
                        assert(pre.drop_last() =~= s.take(i as int - 1));
                        assert(count_out(pre, a) == count_hid(s.take(i as int - 1), a));
                        assert(count_hid(pre, a) == count_hid(s.take(i as int - 1), a) + (
                        if s[i - 1].0 == a {
                            1nat
                        } else {
                            0nat
                        })) by {
                            lemma_counts_take_step(s, i as int - 1);
                        }
                    }
                }
                assert forall|a: u64, b: u64|
                    #[trigger] find_in_row(tc@, a, b) == cnt_opt(count_trans(post, a, b)) by {
                    if a != p {
                        assert(find_row(tc@, a) == find_row(tc0, a));
                        assert(find_in_row(tc@, a, b) == find_in_row(tc0, a, b));
                        assert(find_in_row(tc0, a, b) == cnt_opt(count_trans(pre, a, b)));
                        assert(count_trans(post, a, b) == count_trans(pre, a, b));
                    } else if b != h {
                        assert(find_in_row(tc@, p, b) == find_in_row(tc0, p, b));
                        assert(find_in_row(tc0, p, b) == cnt_opt(count_trans(pre, p, b)));
                        assert(count_trans(post, p, b) == count_trans(pre, p, b));
                    } else {
                        assert(find_in_row(tc0, p, h) == cnt_opt(count_trans(pre, p, h)));
                        assert(count_trans(post, p, h) == count_trans(pre, p, h) + 1);
                        assert(count_trans(pre, p, h) < usize::MAX);
                        let row2 = find_row(tc@, p)->Some_0;
                        assert(find_in_row(tc@, p, h) == find_key(row2, h));
                        assert(find_key(row2, h) == Some(
                            (match find_in_row(tc0, p, h) {
                                Some(c) => (c + 1) as usize,
                                None => 1usize,
                            }),
                        ));
                    }
                }
                assert forall|a: u64|
                    match #[trigger] find_row(tc@, a) {
                        Some(row2) => distinct_keys(row2) && sum_counts(row2) == count_out(post, a),
                        None => true,
                    } by {
                    if a != p {
                        assert(find_row(tc@, a) == find_row(tc0, a));
                        assert(count_out(post, a) == count_hid(pre, a));
                        assert(pre.drop_last() =~= s.take(i as int - 1));
                        assert(count_out(pre, a) == count_hid(s.take(i as int - 1), a));
                        assert(count_hid(pre, a) == count_hid(s.take(i as int - 1), a) + (
                        if s[i - 1].0 == a {
                            1nat
                        } else {
                            0nat
                        })) by {
                            lemma_counts_take_step(s, i as int - 1);
                        }
                    }
                }
            }
        }
        i = i + 1;
    }
    proof {
        assert(s.take(n as int) =~= s);
    }
    (hc, ec, tc)
}

/// Turns a row of raw counts into a row of probabilities over a common
/// normalizer.
#[verifier::loop_isolation(false)]
fn normalize_row(row: &Vec<(u64, usize)>, den: usize) -> (r: Vec<(u64, Prob)>)
    ensures
        r@.len() == row@.len(),
        forall|l: int|
            0 <= l < r@.len() ==> #[trigger] r@[l] == (
                row@[l].0,
                Prob { num: row@[l].1, den: den },
            ),
{
    let mut out: Vec<(u64, Prob)> = Vec::new();
    let mut l: usize = 0;
    while l < row.len()
        invariant
            l <= row@.len(),
            out@.len() == l,
            forall|i: int|
                0 <= i < l ==> #[trigger] out@[i] == (
                    row@[i].0,
                    Prob { num: row@[i].1, den: den },
                ),
        decreases row@.len() - l,
    {
        let (k, c) = row[l];
        out.push((k, Prob { num: c, den: den }));
        l = l + 1;
    }
    out
}

/// Numerators copied from counters sum to the counters' sum.
proof fn lemma_sum_nums_matches_counts(p: Seq<(u64, Prob)>, c: Seq<(u64, usize)>)
    requires
        p.len() == c.len(),
        forall|i: int| 0 <= i < p.len() ==> (#[trigger] p[i]).1.num == c[i].1,
    ensures
        sum_nums(p) == sum_counts(c),
    decreases p.len(),
{
    if p.len() > 0 {
        lemma_sum_nums_matches_counts(p.drop_last(), c.drop_last());
    }
}

/// The Bayes marginal of observing `ob`: the sum, over every entry of the
/// prior table, of the prior probability times the emission likelihood of
/// `ob` under that state, with absent emission entries read as zero.
pub open spec fn marginal(
    pr: Seq<(u64, Prob)>,
    obs: Seq<(u64, Vec<(u64, Prob)>)>,
    ob: u64,
) -> Rat
    decreases pr.len(),
{
    if pr.len() == 0 {
        (0int, 1int)
    } else {
        rat_add(
            marginal(pr.drop_last(), obs, ob),
            rat_mul(rat_of(pr.last().1), rat_of_opt(find_in_row(obs, pr.last().0, ob))),
        )
    }
}

/// A discrete hidden Markov model over `u64` symbol identifiers.
///
/// The tables are empty until `train` fits them, all in one shot, from an
/// ordered sequence of (hidden state, observation) pairs; afterwards the
/// model is read-only.  Every stored probability is the unreduced fraction
/// of two counts, so each fitted row sums to exactly one.
pub struct HMM {
    hidden: Vec<(u64, Prob)>,
    observed: Vec<(u64, Vec<(u64, Prob)>)>,
    hidden_transition: Vec<(u64, Vec<(u64, Prob)>)>,
}

impl HMM {
    /// The prior table: hidden state to its marginal probability.
    pub closed spec fn prior_table(&self) -> Seq<(u64, Prob)> {
        self.hidden@
    }

    /// The emission table: hidden state to a row of observation likelihoods.
    pub closed spec fn emission_table(&self) -> Seq<(u64, Vec<(u64, Prob)>)> {
        self.observed@
    }

    /// The transition table: hidden state to a row of successor probabilities.
    pub closed spec fn transition_table(&self) -> Seq<(u64, Vec<(u64, Prob)>)> {
        self.hidden_transition@
    }

    /// Structural soundness of a fitted (or still empty) model: keys are
    /// distinct at every level, the emission table mirrors the prior's keys
    /// in order, every stored fraction lies in (0, 1] with the row's
    /// normalizer as denominator, and every row's numerators sum to that
    /// normalizer.
    pub closed spec fn wf(&self) -> bool {
        let pr = self.hidden@;
        let n = sum_nums(pr);
        &&& distinct_keys(pr)
        &&& (forall|i: int|
            0 <= i < pr.len() ==> {
                let p = (#[trigger] pr[i]).1;
                1 <= p.num && p.num <= p.den && p.den == n
            })
        &&& distinct_keys(self.observed@)
        &&& self.observed@.len() == pr.len()
        &&& (forall|i: int|
            0 <= i < self.observed@.len() ==> (#[trigger] self.observed@[i]).0 == pr[i].0)
        &&& (forall|i: int|
            0 <= i < self.observed@.len() ==> {
                let row = (#[trigger] self.observed@[i]).1@;
                &&& distinct_keys(row)
                &&& row.len() >= 1
                &&& sum_nums(row) == pr[i].1.num
                &&& (forall|j: int|
                    0 <= j < row.len() ==> {
                        let e = (#[trigger] row[j]).1;
                        1 <= e.num && e.num <= e.den && e.den == pr[i].1.num
                    })
            })
        &&& distinct_keys(self.hidden_transition@)
        &&& (forall|i: int|
            0 <= i < self.hidden_transition@.len() ==> {
                let row = (#[trigger] self.hidden_transition@[i]).1@;
                &&& distinct_keys(row)
                &&& (forall|j: int|
                    0 <= j < row.len() ==> {
                        let e = (#[trigger] row[j]).1;
                        1 <= e.num && e.num <= e.den && e.den == sum_nums(row)
                    })
            })
    }

    /// A model that has been fitted: well-formed with a non-empty prior.
    pub open spec fn is_trained(&self) -> bool {
        self.wf() && self.prior_table().len() >= 1
    }

    /// Creates the model with all three tables empty.
    pub fn new() -> (m: HMM)
        ensures
            m.prior_table().len() == 0,
            m.emission_table().len() == 0,
            m.transition_table().len() == 0,
            m.wf(),
    {
        HMM { hidden: Vec::new(), observed: Vec::new(), hidden_transition: Vec::new() }
    }

    /// Fits all three tables from the non-empty ordered training sequence:
    /// the counting pass accumulates raw occurrence counts, and the
    /// normalization pass pairs each count with its row's normalizer.  A
    /// hidden state with no recorded successor keeps an empty transition
    /// row: no distribution is invented where no outgoing data was seen.
    /// Fitting is single-shot, so the tables must still be empty.
    #[verifier::loop_isolation(false)]
    pub fn train(&mut self, input: &[(u64, u64)])
        requires
            old(self).prior_table().len() == 0,
            old(self).emission_table().len() == 0,
            old(self).transition_table().len() == 0,
            input@.len() >= 1,
        ensures
            final(self).wf(),
            final(self).is_trained(),
            forall|h: u64|
                #[trigger] find_key(final(self).prior_table(), h) == trained_prior(input@, h),
            forall|h: u64|
                (#[trigger] find_row(final(self).emission_table(), h)) is Some <==> count_hid(
                    input@,
                    h,
                ) > 0,
            forall|h: u64, o: u64|
                #[trigger] find_in_row(final(self).emission_table(), h, o) == trained_emission(
                    input@,
                    h,
                    o,
                ),
            forall|a: u64|
                (#[trigger] find_row(final(self).transition_table(), a)) is Some <==> (count_out(
                    input@,
                    a,
                ) > 0 || a == input@[0].0),
            forall|a: u64, b: u64|
                #[trigger] find_in_row(final(self).transition_table(), a, b) == trained_transition(
                    input@,
                    a,
                    b,
                ),
    {
        let ghost s = input@;
        let n = input.len();
        let (hc, ec, tc) = count_pass(input);

        // normalization: prior counts over the grand total
        let prior = normalize_row(&hc, n);

        // emission rows over the state's own occurrence count
        let mut observed: Vec<(u64, Vec<(u64, Prob)>)> = Vec::new();
        let mut j: usize = 0;
        while j < ec.len()
            invariant
                j <= ec@.len(),
                observed@.len() == j,
                forall|i: int| 0 <= i < j ==> (#[trigger] observed@[i]).0 == ec@[i].0,
                forall|i: int|
                    0 <= i < j ==> {
                        let orow = (#[trigger] observed@[i]).1@;
                        let crow = ec@[i].1@;
                        orow.len() == crow.len() && (forall|l: int|
                            0 <= l < orow.len() ==> #[trigger] orow[l] == (
                                crow[l].0,
                                Prob { num: crow[l].1, den: count_hid(s, ec@[i].0) as usize },
                            ))
                    },
            decreases ec@.len() - j,
        {
            let key = ec[j].0;
            proof {
                lemma_find_row_unique_at(ec@, j as int);
                assert(count_hid(s, key) > 0);
                lemma_count_hid_le_len(s, key);
            }
            let den = match find_index(&hc, key) {
                Some(jj) => {
                    proof {
                        lemma_find_key_at(hc@, jj as int);
                    }
                    hc[jj].1
                },
                None => {
                    proof {
                        lemma_find_key_absent(hc@, key);
                    }
                    vstd::pervasive::unreached()
                },
            };
            proof {
                assert(den == count_hid(s, key) as usize);
            }
            let row = normalize_row(&ec[j].1, den);
            observed.push((key, row));
            j = j + 1;
        }

        // transition rows over the state's outgoing total
        let mut trans: Vec<(u64, Vec<(u64, Prob)>)> = Vec::new();
        j = 0;
        while j < tc.len()
            invariant
                j <= tc@.len(),
                trans@.len() == j,
                forall|i: int| 0 <= i < j ==> (#[trigger] trans@[i]).0 == tc@[i].0,
                forall|i: int|
                    0 <= i < j ==> {
                        let orow = (#[trigger] trans@[i]).1@;
                        let crow = tc@[i].1@;
                        orow.len() == crow.len() && (forall|l: int|
                            0 <= l < orow.len() ==> #[trigger] orow[l] == (
                                crow[l].0,
                                Prob { num: crow[l].1, den: count_out(s, tc@[i].0) as usize },
                            ))
                    },
            decreases tc@.len() - j,
        {
            let key = tc[j].0;
            proof {
                lemma_find_row_unique_at(tc@, j as int);
                assert(s.drop_last().len() == s.len() - 1);
                lemma_count_hid_le_len(s.drop_last(), key);
                assert(count_out(s, key) <= s.len());
                assert(sum_counts(tc@[j as int].1@) == count_out(s, key));
            }
            let crow = &tc[j].1;
            let mut den: usize = 0;
            let mut l: usize = 0;
            while l < crow.len()
                invariant
                    l <= crow@.len(),
                    den == sum_counts(crow@.take(l as int)),
                decreases crow@.len() - l,
            {
                proof {
                    lemma_sum_counts_take_step(crow@, l as int);
                    lemma_sum_counts_prefix_le(crow@, l as int + 1);
                }
                den = den + crow[l].1;
                l = l + 1;
            }
            proof {
                assert(crow@.take(crow@.len() as int) =~= crow@);
                assert(den == count_out(s, key) as usize);
            }
            let row = normalize_row(crow, den);
            trans.push((key, row));
            j = j + 1;
        }

        self.hidden = prior;
        self.observed = observed;
        self.hidden_transition = trans;

        proof {
            let pr = self.hidden@;
            let ob = self.observed@;
            let tr = self.hidden_transition@;

            // keys mirror the counting tables, so distinctness carries over
            assert(forall|i: int| 0 <= i < pr.len() ==> (#[trigger] pr[i]).0 == hc@[i].0);
            assert(distinct_keys(pr)) by {
                assert forall|i: int, j2: int|
                    0 <= i < j2 < pr.len() implies (#[trigger] pr[i]).0 != (#[trigger] pr[j2]).0 by {
                    assert(hc@[i].0 != hc@[j2].0);
                }
            }
            assert(distinct_keys(ob)) by {
                assert forall|i: int, j2: int|
                    0 <= i < j2 < ob.len() implies (#[trigger] ob[i]).0 != (#[trigger] ob[j2]).0 by {
                    assert(ec@[i].0 != ec@[j2].0);
                }
            }
            assert(distinct_keys(tr)) by {
                assert forall|i: int, j2: int|
                    0 <= i < j2 < tr.len() implies (#[trigger] tr[i]).0 != (#[trigger] tr[j2]).0 by {
                    assert(tc@[i].0 != tc@[j2].0);
                }
            }

            // the fitted prior is the counts over the sequence length
            assert forall|h: u64| #[trigger] find_key(pr, h) == trained_prior(s, h) by {
                lemma_same_keys_same_presence(pr, hc@, h);
                if find_key(hc@, h) is Some {
                    lemma_find_key_index(hc@, h);
                    let j2 = choose|j2: int|
                        0 <= j2 < hc@.len() && (#[trigger] hc@[j2]).0 == h && Some(hc@[j2].1)
                            == find_key(hc@, h);
                    assert forall|i: int| 0 <= i < j2 implies (#[trigger] pr[i]).0 != h by {
                        assert(hc@[i].0 != hc@[j2].0);
                    }
                    lemma_find_key_at(pr, j2);
                    lemma_count_hid_le_len(s, h);
                }
            }

            lemma_sum_nums_matches_counts(pr, hc@);
            assert(sum_nums(pr) == n);
            assert(pr.len() >= 1) by {
                if pr.len() == 0 {
                    assert(sum_counts(hc@) == 0);
                }
            }

            // prior entries are fractions of the grand total in (0, 1]
            assert forall|i: int|
                0 <= i < pr.len() implies {
                    let p = (#[trigger] pr[i]).1;
                    1 <= p.num && p.num <= p.den && p.den == sum_nums(pr)
                } by {
                lemma_find_key_unique_at(hc@, i);
                lemma_count_hid_le_len(s, hc@[i].0);
            }

            // the fitted emission rows are pair counts over the state count
            assert forall|h: u64|
                (#[trigger] find_row(ob, h)) is Some <==> count_hid(s, h) > 0 by {
                lemma_same_keys_same_row_presence(ob, ec@, h);
            }
            assert forall|h: u64, o: u64|
                #[trigger] find_in_row(ob, h, o) == trained_emission(s, h, o) by {
                lemma_same_keys_same_row_presence(ob, ec@, h);
                lemma_count_emit_le_hid(s, h, o);
                if find_row(ec@, h) is Some {
                    lemma_find_row_index(ec@, h);
                    let j2 = choose|j2: int|
                        0 <= j2 < ec@.len() && (#[trigger] ec@[j2]).0 == h && Some(ec@[j2].1@)
                            == find_row(ec@, h);
                    assert forall|i: int| 0 <= i < j2 implies (#[trigger] ob[i]).0 != h by {
                        assert(ec@[i].0 != ec@[j2].0);
                    }
                    lemma_find_row_at(ob, j2);
                    let orow = ob[j2].1@;
                    let crow = ec@[j2].1@;
                    assert(find_in_row(ob, h, o) == find_key(orow, o));
                    assert(find_in_row(ec@, h, o) == find_key(crow, o));
                    if find_key(crow, o) is Some {
                        lemma_find_key_index(crow, o);
                        let l = choose|l: int|
                            0 <= l < crow.len() && (#[trigger] crow[l]).0 == o && Some(crow[l].1)
                                == find_key(crow, o);
                        assert forall|i: int| 0 <= i < l implies (#[trigger] orow[i]).0 != o by {
                            assert(crow[i].0 != crow[l].0);
                        }
                        assert(orow[l] == (
                            crow[l].0,
                            Prob { num: crow[l].1, den: count_hid(s, ec@[j2].0) as usize },
                        ));
                        lemma_find_key_at(orow, l);
                        lemma_count_emit_le_len(s, h, o);
                        lemma_count_hid_le_len(s, h);
                    } else {
                        lemma_same_keys_same_presence(orow, crow, o);
                    }
                }
            }

            // emission structural facts for well-formedness
            assert forall|i: int|
                0 <= i < ob.len() implies {
                    let row = (#[trigger] ob[i]).1@;
                    &&& distinct_keys(row)
                    &&& row.len() >= 1
                    &&& sum_nums(row) == pr[i].1.num
                    &&& (forall|l: int|
                        0 <= l < row.len() ==> {
                            let e = (#[trigger] row[l]).1;
                            1 <= e.num && e.num <= e.den && e.den == pr[i].1.num
                        })
                } by {
                let key = ec@[i].0;
                lemma_find_row_unique_at(ec@, i);
                let orow = ob[i].1@;
                let crow = ec@[i].1@;
                lemma_find_key_unique_at(hc@, i);
                lemma_count_hid_le_len(s, key);
                lemma_sum_nums_matches_counts(orow, crow);
                assert(distinct_keys(orow)) by {
                    assert forall|i2: int, j3: int|
                        0 <= i2 < j3 < orow.len() implies (#[trigger] orow[i2]).0 != (
                        #[trigger] orow[j3]).0 by {
                        assert(crow[i2].0 != crow[j3].0);
                    }
                }
                if crow.len() == 0 {
                    assert(sum_counts(crow) == 0);
                }
                assert forall|l: int|
                    0 <= l < orow.len() implies {
                        let e = (#[trigger] orow[l]).1;
                        1 <= e.num && e.num <= e.den && e.den == pr[i].1.num
                    } by {
                    lemma_find_key_unique_at(crow, l);
                    assert(find_in_row(ec@, key, crow[l].0) == find_key(crow, crow[l].0));
                    lemma_count_le_sum(crow, l);
                    lemma_count_emit_le_len(s, key, crow[l].0);
                }
            }

            // the fitted transition rows are adjacency counts over the
            // state's outgoing total
            assert forall|a: u64|
                (#[trigger] find_row(tr, a)) is Some <==> (count_out(s, a) > 0 || a
                    == s[0].0) by {
                lemma_same_keys_same_row_presence(tr, tc@, a);
            }
            assert forall|a: u64, b: u64|
                #[trigger] find_in_row(tr, a, b) == trained_transition(s, a, b) by {
                lemma_same_keys_same_row_presence(tr, tc@, a);
                lemma_count_trans_le_out(s, a, b);
                if find_row(tc@, a) is Some {
                    lemma_find_row_index(tc@, a);
                    let j2 = choose|j2: int|
                        0 <= j2 < tc@.len() && (#[trigger] tc@[j2]).0 == a && Some(tc@[j2].1@)
                            == find_row(tc@, a);
                    assert forall|i: int| 0 <= i < j2 implies (#[trigger] tr[i]).0 != a by {
                        assert(tc@[i].0 != tc@[j2].0);
                    }
                    lemma_find_row_at(tr, j2);
                    let orow = tr[j2].1@;
                    let crow = tc@[j2].1@;
                    assert(find_in_row(tr, a, b) == find_key(orow, b));
                    assert(find_in_row(tc@, a, b) == find_key(crow, b));
                    if find_key(crow, b) is Some {
                        lemma_find_key_index(crow, b);
                        let l = choose|l: int|
                            0 <= l < crow.len() && (#[trigger] crow[l]).0 == b && Some(crow[l].1)
                                == find_key(crow, b);
                        assert forall|i: int| 0 <= i < l implies (#[trigger] orow[i]).0 != b by {
                            assert(crow[i].0 != crow[l].0);
                        }
                        assert(orow[l] == (
                            crow[l].0,
                            Prob { num: crow[l].1, den: count_out(s, tc@[j2].0) as usize },
                        ));
                        lemma_find_key_at(orow, l);
                        lemma_count_trans_le_len(s, a, b);
                        assert(count_out(s, a) <= s.len()) by {
                            lemma_count_hid_le_len(s.drop_last(), a);
                        }
                    } else {
                        lemma_same_keys_same_presence(orow, crow, b);
                    }
                } else {
                    assert(count_out(s, a) == 0);
                    assert(count_trans(s, a, b) == 0);
                }
            }

            // transition structural facts for well-formedness
            assert forall|i: int|
                0 <= i < tr.len() implies {
                    let row = (#[trigger] tr[i]).1@;
                    &&& distinct_keys(row)
                    &&& (forall|l: int|
                        0 <= l < row.len() ==> {
                            let e = (#[trigger] row[l]).1;
                            1 <= e.num && e.num <= e.den && e.den == sum_nums(row)
                        })
                } by {
                let key = tc@[i].0;
                lemma_find_row_unique_at(tc@, i);
                let orow = tr[i].1@;
                let crow = tc@[i].1@;
                lemma_sum_nums_matches_counts(orow, crow);
                assert(count_out(s, key) <= s.len()) by {
                    lemma_count_hid_le_len(s.drop_last(), key);
                }
                assert(distinct_keys(orow)) by {
                    assert forall|i2: int, j3: int|
                        0 <= i2 < j3 < orow.len() implies (#[trigger] orow[i2]).0 != (
                        #[trigger] orow[j3]).0 by {
                        assert(crow[i2].0 != crow[j3].0);
                    }
                }
                assert forall|l: int|
                    0 <= l < orow.len() implies {
                        let e = (#[trigger] orow[l]).1;
                        1 <= e.num && e.num <= e.den && e.den == sum_nums(orow)
                    } by {
                    lemma_find_key_unique_at(crow, l);
                    assert(find_in_row(tc@, key, crow[l].0) == find_key(crow, crow[l].0));
                    lemma_count_le_sum(crow, l);
                    lemma_count_trans_le_len(s, key, crow[l].0);
                }
            }

            assert(self.wf());
        }
    }

    /// The fitted prior probability of `hid`, absent when the state was
    /// never seen in training.
    pub fn prob_of_hid(&self, hid: u64) -> (r: Option<Prob>)
        ensures
            r == find_key(self.prior_table(), hid),
            self.wf() ==> match r {
                Some(p) => 1 <= p.num && p.num <= p.den,
                None => true,
            },
    {
        match find_index(&self.hidden, hid) {
            Some(j) => {
                proof {
                    lemma_find_key_at(self.hidden@, j as int);
                }
                Some(self.hidden[j].1)
            },
            None => {
                proof {
                    lemma_find_key_absent(self.hidden@, hid);
                }
                None
            },
        }
    }

    /// The fitted likelihood of observing `ob` in state `hid`, absent when
    /// the state is unknown or was never paired with the observation.
    pub fn prob_of_ob_hid(&self, ob: u64, hid: u64) -> (r: Option<Prob>)
        ensures
            r == find_in_row(self.emission_table(), hid, ob),
            self.wf() ==> match r {
                Some(p) => 1 <= p.num && p.num <= p.den,
                None => true,
            },
    {
        match find_index(&self.observed, hid) {
            Some(j) => {
                proof {
                    lemma_find_row_at(self.observed@, j as int);
                }
                let row = &self.observed[j].1;
                match find_index(row, ob) {
                    Some(i) => {
                        proof {
                            lemma_find_key_at(row@, i as int);
                        }
                        Some(row[i].1)
                    },
                    None => {
                        proof {
                            lemma_find_key_absent(row@, ob);
                        }
                        None
                    },
                }
            },
            None => {
                proof {
                    lemma_find_row_absent(self.observed@, hid);
                }
                None
            },
        }
    }

    /// The single-step Bayesian posterior P(`hid` | `ob`): likelihood times
    /// prior over the marginal across every known hidden state, with absent
    /// table entries read as zero.  When the marginal is zero the result is
    /// the non-finite fraction 0/0 (`den == 0`); callers must check for it.
    #[verifier::loop_isolation(false)]
    pub fn prob_of_hid_ob(&self, hid: u64, ob: u64) -> (r: Prob)
        requires
            self.wf(),
        ensures
            ({
                let num_r = rat_mul(
                    rat_of_opt(find_in_row(self.emission_table(), hid, ob)),
                    rat_of_opt(find_key(self.prior_table(), hid)),
                );
                let den_r = marginal(self.prior_table(), self.emission_table(), ob);
                &&& den_r.1 >= 1
                &&& (den_r.0 == 0 ==> r == Prob { num: 0, den: 0 })
                &&& (den_r.0 != 0 ==> r.den >= 1 && r.num <= r.den && rat_eq(
                    rat_of(r),
                    rat_div(num_r, den_r),
                ))
            }),
    {
        let ghost pr = self.prior_table();
        let ghost obs = self.emission_table();
        let ghost n = sum_nums(pr);
        let poh = match self.prob_of_ob_hid(ob, hid) {
            Some(q) => q.num,
            None => 0,
        };
        let mut dsum: usize = 0;
        let mut k: usize = 0;
        proof {
            assert(pr.take(0) =~= Seq::<(u64, Prob)>::empty());
            assert(marginal(pr.take(0), obs, ob) == (0int, 1int));
            assert(sum_nums(pr.take(0)) == 0);
            assert(dsum * marginal(pr.take(k as int), obs, ob).1 == n * marginal(
                pr.take(k as int),
                obs,
                ob,
            ).0) by (nonlinear_arith)
                requires
                    dsum == 0,
                    marginal(pr.take(k as int), obs, ob).0 == 0,
            ;
        }
        while k < self.hidden.len()
            invariant
                k <= pr.len(),
                marginal(pr.take(k as int), obs, ob).1 >= 1,
                dsum * marginal(pr.take(k as int), obs, ob).1 == n * marginal(
                    pr.take(k as int),
                    obs,
                    ob,
                ).0,
                dsum <= sum_nums(pr.take(k as int)),
                (exists|i: int| 0 <= i < k && (#[trigger] pr[i]).0 == hid) ==> poh <= dsum,
            decreases pr.len() - k,
        {
            let key = self.hidden[k].0;
            let e = match self.prob_of_ob_hid(ob, key) {
                Some(q) => q.num,
                None => 0,
            };
            let ghost g = marginal(pr.take(k as int), obs, ob);
            let ghost gp = marginal(pr.take(k as int + 1), obs, ob);
            let ghost p = pr[k as int].1;
            let ghost t = rat_mul(rat_of(p), rat_of_opt(find_in_row(obs, key, ob)));
            proof {
                assert(pr.take(k as int + 1).drop_last() =~= pr.take(k as int));
                assert(pr.take(k as int + 1).last() == pr[k as int]);
                assert(gp == rat_add(g, t));
                assert(p.den == n && 1 <= p.num && p.num <= p.den);
                assert(n >= 1);
                // the emission entry, when present, is normalized by the
                // state's own prior count
                if find_in_row(obs, key, ob) is Some {
                    let q = find_in_row(obs, key, ob)->Some_0;
                    assert(self.observed@[k as int].0 == key);
                    lemma_find_row_unique_at(self.observed@, k as int);
                    let row = self.observed@[k as int].1@;
                    assert(find_key(row, ob) == Some(q));
                    lemma_find_key_index(row, ob);
                    let l = choose|l: int|
                        0 <= l < row.len() && (#[trigger] row[l]).0 == ob && Some(row[l].1)
                            == find_key(row, ob);
                    assert(q.den == p.num && 1 <= q.num && q.num <= q.den);
                    assert(e == q.num);
                    assert(t == (p.num * q.num, n * p.num));
                    assert((dsum + e) * (g.1 * (n * p.num)) == n * (g.0 * (n * p.num) + (p.num
                        * q.num) * g.1)) by (nonlinear_arith)
                        requires
                            dsum * g.1 == n * g.0,
                            e == q.num,
                    ;
                    assert(gp.1 >= 1) by (nonlinear_arith)
                        requires
                            gp.1 == g.1 * (n * p.num),
                            g.1 >= 1,
                            n >= 1,
                            p.num >= 1,
                    ;
                } else {
                    assert(e == 0);
                    assert(t == (p.num * 0, n * 1));
                    assert((dsum + 0) * (g.1 * n) == n * (g.0 * n + (p.num * 0) * g.1))
                        by (nonlinear_arith)
                        requires
                            dsum * g.1 == n * g.0,
                    ;
                    assert(gp.1 >= 1) by (nonlinear_arith)
                        requires
                            gp.1 == g.1 * n,
                            g.1 >= 1,
                            n >= 1,
                    ;
                }
                assert(e <= p.num);
                lemma_sum_nums_take_step(pr, k as int);
                lemma_sum_nums_prefix_le(pr, k as int + 1);
                assert(sum_nums(pr) == n);
                if key == hid {
                    assert(poh == e);
                    assert(pr[k as int].0 == hid);
                }
            }
            dsum = dsum + e;
            k = k + 1;
        }
        proof {
            assert(pr.take(pr.len() as int) =~= pr);
            let den_r = marginal(pr, obs, ob);
            let num_r = rat_mul(
                rat_of_opt(find_in_row(obs, hid, ob)),
                rat_of_opt(find_key(pr, hid)),
            );
            assert(dsum * den_r.1 == n * den_r.0);
            // where the state is unknown, both factors of the numerator are
            // absent and the stored likelihood is zero
            if find_key(pr, hid) is None {
                lemma_find_key_absent(pr, hid);
                assert forall|i: int|
                    0 <= i < self.observed@.len() implies (#[trigger] self.observed@[i]).0
                    != hid by {
                    assert(pr[i].0 != hid);
                }
                lemma_find_row_absent(obs, hid);
                assert(find_in_row(obs, hid, ob) is None);
                assert(poh == 0);
            } else {
                lemma_find_key_index(pr, hid);
            }
            if den_r.0 == 0 {
                assert(dsum == 0) by (nonlinear_arith)
                    requires
                        dsum * den_r.1 == n * den_r.0,
                        den_r.0 == 0,
                        den_r.1 >= 1,
                        dsum >= 0,
                ;
                assert(poh == 0);
            } else {
                // a nonzero marginal forces a nonzero accumulated sum
                if pr.len() == 0 {
                    assert(den_r == (0int, 1int));
                }
                assert(pr[0].1.num >= 1);
                lemma_num_le_sum(pr, 0);
                assert(n >= 1);
                assert(dsum >= 1) by (nonlinear_arith)
                    requires
                        dsum * den_r.1 == n * den_r.0,
                        den_r.0 != 0,
                        den_r.1 >= 1,
                        n >= 1,
                        dsum >= 0,
                        n * den_r.0 >= 0,
                ;
                assert(poh <= dsum);
                if find_key(pr, hid) is Some && find_in_row(obs, hid, ob) is Some {
                    let p = find_key(pr, hid)->Some_0;
                    let q = find_in_row(obs, hid, ob)->Some_0;
                    let j = choose|j: int|
                        0 <= j < pr.len() && (#[trigger] pr[j]).0 == hid && Some(pr[j].1)
                            == find_key(pr, hid);
                    assert(self.observed@[j].0 == hid);
                    lemma_find_row_unique_at(self.observed@, j);
                    let row = self.observed@[j].1@;
                    assert(find_key(row, ob) == Some(q));
                    lemma_find_key_index(row, ob);
                    let l = choose|l: int|
                        0 <= l < row.len() && (#[trigger] row[l]).0 == ob && Some(row[l].1)
                            == find_key(row, ob);
                    assert(q.den == p.num && p.den == n);
                    assert(poh == q.num);
                    assert(num_r.0 == q.num * p.num);
                    assert(num_r.1 == p.num * n);
                    assert(poh * (num_r.1 * den_r.0) == (num_r.0 * den_r.1) * dsum)
                        by (nonlinear_arith)
                        requires
                            num_r.0 == q.num * p.num,
                            num_r.1 == p.num * n,
                            n * den_r.0 == dsum * den_r.1,
                            poh == q.num,
                    ;
                    assert(rat_eq((poh as int, dsum as int), rat_div(num_r, den_r)));
                } else {
                    assert(poh == 0);
                    let af = rat_of_opt(find_in_row(obs, hid, ob));
                    let bf = rat_of_opt(find_key(pr, hid));
                    assert(num_r.0 == af.0 * bf.0);
                    assert(af.0 == 0 || bf.0 == 0);
                    assert(num_r.0 == 0) by (nonlinear_arith)
                        requires
                            num_r.0 == af.0 * bf.0,
                            af.0 == 0 || bf.0 == 0,
                    ;
                    assert(poh * (num_r.1 * den_r.0) == (num_r.0 * den_r.1) * dsum)
                        by (nonlinear_arith)
                        requires
                            poh == 0,
                            num_r.0 == 0,
                    ;
                    assert(rat_eq((poh as int, dsum as int), rat_div(num_r, den_r)));
                }
            }
        }
        Prob { num: poh, den: dsum }
    }

    /// LAW: for every trained model, the prior table's probabilities sum,
    /// as an exact rational, to one.
    pub proof fn law_prior_sums_to_one(&self)
        requires
            self.is_trained(),
        ensures
            is_one(probs_sum(self.prior_table())),
    {
        let pr = self.prior_table();
        let d = sum_nums(pr);
        assert(pr[0].1.num >= 1);
        lemma_num_le_sum(pr, 0);
        lemma_row_sums_to_one(pr, d);
    }

    /// LAW: for every hidden state present in a well-formed model's
    /// emission table, that state's row of likelihoods sums, as an exact
    /// rational, to one.
    pub proof fn law_emission_row_sums_to_one(&self, h: u64)
        requires
            self.wf(),
            find_row(self.emission_table(), h) is Some,
        ensures
            is_one(probs_sum(find_row(self.emission_table(), h)->Some_0)),
    {
        let ob = self.emission_table();
        lemma_find_row_index(ob, h);
        let j = choose|j: int|
            0 <= j < ob.len() && (#[trigger] ob[j]).0 == h && Some(ob[j].1@) == find_row(ob, h);
        let row = ob[j].1@;
        let d = self.prior_table()[j].1.num as int;
        assert(sum_nums(row) == d);
        lemma_row_sums_to_one(row, d);
    }

    /// LAW: for every hidden state whose transition row is non-empty in a
    /// well-formed model, that row of successor probabilities sums, as an
    /// exact rational, to one.  (A state seen only with no successor keeps
    /// an empty row, which carries no distribution at all.)
    pub proof fn law_transition_row_sums_to_one(&self, a: u64)
        requires
            self.wf(),
            find_row(self.transition_table(), a) matches Some(row) && row.len() >= 1,
        ensures
            is_one(probs_sum(find_row(self.transition_table(), a)->Some_0)),
    {
        let tr = self.transition_table();
        lemma_find_row_index(tr, a);
        let j = choose|j: int|
            0 <= j < tr.len() && (#[trigger] tr[j]).0 == a && Some(tr[j].1@) == find_row(tr, a);
        let row = tr[j].1@;
        let d = sum_nums(row);
        assert(row[0].1.num >= 1);
        lemma_num_le_sum(row, 0);
        lemma_row_sums_to_one(row, d);
    }

    /// Read-only view of the prior table.
    pub fn get_hidden(&self) -> (r: &Vec<(u64, Prob)>)
        ensures
            r@ == self.prior_table(),
    {
        &self.hidden
    }

    /// Read-only view of the emission table.
    pub fn get_observed(&self) -> (r: &Vec<(u64, Vec<(u64, Prob)>)>)
        ensures
            r@ == self.emission_table(),
    {
        &self.observed
    }

    /// Read-only view of the transition table.
    pub fn get_hidden_transition(&self) -> (r: &Vec<(u64, Vec<(u64, Prob)>)>)
        ensures
            r@ == self.transition_table(),
    {
        &self.hidden_transition
    }
}

} // verus!

