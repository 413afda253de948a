use hmm::model::HMM;
use hmm::prob::Prob;

fn as_f64(p: Prob) -> f64 {
    p.num as f64 / p.den as f64
}

fn lookup_row<'a>(table: &'a [(u64, Vec<(u64, Prob)>)], key: u64) -> Option<&'a Vec<(u64, Prob)>> {
    for entry in table {
        if entry.0 == key {
            return Some(&entry.1);
        }
    }
    None
}

fn lookup(row: &[(u64, Prob)], key: u64) -> Option<Prob> {
    for entry in row {
        if entry.0 == key {
            return Some(entry.1);
        }
    }
    None
}

// symbols: hidden states A = 0, B = 1; observations x = 10, y = 11
const A: u64 = 0;
const B: u64 = 1;
const X: u64 = 10;
const Y: u64 = 11;

fn two_state_model() -> HMM {
    let mut m = HMM::new();
    m.train(&[(A, X), (A, Y), (B, X), (B, X)]);
    m
}

#[test]
fn two_state_prior() {
    let m = two_state_model();
    assert_eq!(m.prob_of_hid(A), Some(Prob { num: 2, den: 4 }));
    assert_eq!(m.prob_of_hid(B), Some(Prob { num: 2, den: 4 }));
    assert_eq!(as_f64(m.prob_of_hid(A).unwrap()), 0.5);
    assert_eq!(as_f64(m.prob_of_hid(B).unwrap()), 0.5);
}

#[test]
fn two_state_emission() {
    let m = two_state_model();
    assert_eq!(m.prob_of_ob_hid(X, A), Some(Prob { num: 1, den: 2 }));
    assert_eq!(m.prob_of_ob_hid(Y, A), Some(Prob { num: 1, den: 2 }));
    assert_eq!(m.prob_of_ob_hid(X, B), Some(Prob { num: 2, den: 2 }));
    assert_eq!(as_f64(m.prob_of_ob_hid(X, B).unwrap()), 1.0);
    assert_eq!(m.prob_of_ob_hid(Y, B), None);
}

#[test]
fn two_state_transition() {
    // adjacencies are A->A, A->B, B->B, so A's row splits evenly and B's
    // row is all of its single outgoing transition
    let m = two_state_model();
    let table = m.get_hidden_transition();
    let row_a = lookup_row(table, A).unwrap();
    assert_eq!(lookup(row_a, A), Some(Prob { num: 1, den: 2 }));
    assert_eq!(lookup(row_a, B), Some(Prob { num: 1, den: 2 }));
    assert_eq!(row_a.len(), 2);
    let row_b = lookup_row(table, B).unwrap();
    assert_eq!(lookup(row_b, B), Some(Prob { num: 1, den: 1 }));
    assert_eq!(row_b.len(), 1);
}

#[test]
fn two_state_posterior_exact() {
    // posterior(A, x) = (0.5 * 0.5) / (0.5 * 0.5 + 0.5 * 1.0) = 1/3
    let m = two_state_model();
    let r = m.prob_of_hid_ob(A, X);
    assert_eq!(r, Prob { num: 1, den: 3 });
    assert!((as_f64(r) - 1.0 / 3.0).abs() < 1e-9);
    let r_b = m.prob_of_hid_ob(B, X);
    assert_eq!(r_b, Prob { num: 2, den: 3 });
}

#[test]
fn single_pair_tables() {
    // a single element trains every table; the lone state has no successor,
    // so its transition row stays empty rather than dividing by zero
    let mut m = HMM::new();
    m.train(&[(A, X)]);
    assert_eq!(m.prob_of_hid(A), Some(Prob { num: 1, den: 1 }));
    assert_eq!(m.prob_of_ob_hid(X, A), Some(Prob { num: 1, den: 1 }));
    let table = m.get_hidden_transition();
    let row_a = lookup_row(table, A).unwrap();
    assert_eq!(row_a.len(), 0);
}

#[test]
fn unseen_symbols_are_absent() {
    let m = two_state_model();
    assert_eq!(m.prob_of_hid(99), None);
    assert_eq!(m.prob_of_ob_hid(99, A), None);
    assert_eq!(m.prob_of_ob_hid(X, 99), None);
}

#[test]
fn known_probabilities_lie_in_unit_interval() {
    let m = two_state_model();
    for h in [A, B] {
        let p = m.prob_of_hid(h).unwrap();
        assert!(p.den > 0 && p.num <= p.den);
    }
    for (h, o) in [(A, X), (A, Y), (B, X)] {
        let p = m.prob_of_ob_hid(o, h).unwrap();
        assert!(p.den > 0 && p.num <= p.den);
    }
}

#[test]
fn prior_sums_to_one() {
    let m = two_state_model();
    let total: f64 = m.get_hidden().iter().map(|e| as_f64(e.1)).sum();
    assert!((total - 1.0).abs() < 1e-9);
}

#[test]
fn emission_rows_sum_to_one() {
    let m = two_state_model();
    for (_, row) in m.get_observed() {
        let total: f64 = row.iter().map(|e| as_f64(e.1)).sum();
        assert!((total - 1.0).abs() < 1e-9);
    }
}

#[test]
fn transition_rows_sum_to_one() {
    let m = two_state_model();
    for (_, row) in m.get_hidden_transition() {
        if !row.is_empty() {
            let total: f64 = row.iter().map(|e| as_f64(e.1)).sum();
            assert!((total - 1.0).abs() < 1e-9);
        }
    }
}

#[test]
fn posterior_in_unit_interval_for_known_symbols() {
    let mut m = HMM::new();
    m.train(&[(A, X), (B, Y), (A, X), (B, X), (A, Y), (A, X)]);
    for h in [A, B] {
        for o in [X, Y] {
            let r = m.prob_of_hid_ob(h, o);
            assert!(r.den > 0, "marginal must be positive for a seen observation");
            let v = as_f64(r);
            assert!((0.0..=1.0).contains(&v));
        }
    }
}

#[test]
fn degenerate_posterior_is_non_finite() {
    // an observation no state has ever emitted gives the 0/0 fraction,
    // whose floating-point reading is NaN, and never panics
    let m = two_state_model();
    let r = m.prob_of_hid_ob(A, 99);
    assert_eq!(r, Prob { num: 0, den: 0 });
    assert!(as_f64(r).is_nan());
}

#[test]
fn posterior_of_unknown_state_is_zero() {
    let m = two_state_model();
    let r = m.prob_of_hid_ob(99, X);
    assert!(r.den > 0);
    assert_eq!(r.num, 0);
}

#[test]
fn relabeling_the_alphabets_relabels_the_tables() {
    // fit the same sequence under a bijective renaming of both alphabets;
    // every table entry must carry over at the renamed keys
    let seq = [(A, X), (A, Y), (B, X), (B, X), (A, X)];
    let f = |h: u64| h + 100;
    let g = |o: u64| o + 1000;
    let renamed: Vec<(u64, u64)> = seq.iter().map(|&(h, o)| (f(h), g(o))).collect();
    let mut m1 = HMM::new();
    m1.train(&seq);
    let mut m2 = HMM::new();
    m2.train(&renamed);
    for h in [A, B, 7] {
        assert_eq!(m1.prob_of_hid(h), m2.prob_of_hid(f(h)));
        for o in [X, Y, 8] {
            assert_eq!(m1.prob_of_ob_hid(o, h), m2.prob_of_ob_hid(g(o), f(h)));
            assert_eq!(m1.prob_of_hid_ob(h, o), m2.prob_of_hid_ob(f(h), g(o)));
        }
    }
    for (a, row) in m1.get_hidden_transition() {
        let row2 = lookup_row(m2.get_hidden_transition(), f(*a)).unwrap();
        assert_eq!(row.len(), row2.len());
        for (b, p) in row {
            assert_eq!(lookup(row2, f(*b)), Some(*p));
        }
    }
}

#[test]
fn untrained_model_answers_absent_and_non_finite() {
    let m = HMM::new();
    assert_eq!(m.prob_of_hid(A), None);
    assert_eq!(m.prob_of_ob_hid(X, A), None);
    assert_eq!(m.prob_of_hid_ob(A, X), Prob { num: 0, den: 0 });
}
