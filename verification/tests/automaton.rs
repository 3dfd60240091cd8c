use levenshtein_automaton::Distance;
use levenshtein_automaton::LevenshteinAutomatonBuilder;

fn run(builder: &LevenshteinAutomatonBuilder, query: &[u8], input: &[u8]) -> Distance {
    let dfa = builder.build_dfa(query);
    let mut state = dfa.initial_state();
    for &b in input {
        state = dfa.transition(state, b);
    }
    dfa.distance(state)
}

/// Classic Levenshtein distance by dynamic programming.
fn lev(a: &[u8], b: &[u8]) -> usize {
    let mut prev: Vec<usize> = (0..=b.len()).collect();
    for i in 1..=a.len() {
        let mut cur = vec![0usize; b.len() + 1];
        cur[0] = i;
        for j in 1..=b.len() {
            let sub = prev[j - 1] + if a[i - 1] == b[j - 1] { 0 } else { 1 };
            cur[j] = sub.min(prev[j] + 1).min(cur[j - 1] + 1);
        }
        prev = cur;
    }
    prev[b.len()]
}

/// Levenshtein distance extended with adjacent transpositions at cost one.
fn lev_transpose(a: &[u8], b: &[u8]) -> usize {
    let mut rows: Vec<Vec<usize>> = vec![(0..=b.len()).collect()];
    for i in 1..=a.len() {
        let mut cur = vec![0usize; b.len() + 1];
        cur[0] = i;
        for j in 1..=b.len() {
            let sub = rows[i - 1][j - 1] + if a[i - 1] == b[j - 1] { 0 } else { 1 };
            let mut best = sub.min(rows[i - 1][j] + 1).min(cur[j - 1] + 1);
            if i > 1 && j > 1 && a[i - 1] == b[j - 2] && a[i - 2] == b[j - 1] {
                best = best.min(rows[i - 2][j - 2] + 1);
            }
            cur[j] = best;
        }
        rows.push(cur);
    }
    rows[a.len()][b.len()]
}

#[test]
fn saucisson_missing_space() {
    let builder = LevenshteinAutomatonBuilder::new(2, true);
    assert_eq!(
        run(&builder, b"saucisson sec", b"saucissonsec"),
        Distance::Exact(1)
    );
}

#[test]
fn cat_one_insertion() {
    let builder = LevenshteinAutomatonBuilder::new(1, false);
    assert_eq!(run(&builder, b"cat", b"cats"), Distance::Exact(1));
    assert_eq!(run(&builder, b"cat", b"dogs"), Distance::AtLeast(2));
}

#[test]
fn empty_query_counts_input_length() {
    let builder = LevenshteinAutomatonBuilder::new(2, false);
    assert_eq!(run(&builder, b"", b""), Distance::Exact(0));
    assert_eq!(run(&builder, b"", b"x"), Distance::Exact(1));
    assert_eq!(run(&builder, b"", b"xy"), Distance::Exact(2));
    assert_eq!(run(&builder, b"", b"xyz"), Distance::AtLeast(3));
    assert_eq!(run(&builder, b"", b"xyzw"), Distance::AtLeast(3));
}

#[test]
fn transposition_sensitivity() {
    let with = LevenshteinAutomatonBuilder::new(1, true);
    assert_eq!(run(&with, b"ab", b"ba"), Distance::Exact(1));
    let without2 = LevenshteinAutomatonBuilder::new(2, false);
    assert_eq!(run(&without2, b"ab", b"ba"), Distance::Exact(2));
    let without1 = LevenshteinAutomatonBuilder::new(1, false);
    assert_eq!(run(&without1, b"ab", b"ba"), Distance::AtLeast(2));
}

#[test]
fn one_more_edit_past_the_bound() {
    let builder = LevenshteinAutomatonBuilder::new(1, false);
    // true distance exactly the bound
    assert_eq!(run(&builder, b"cat", b"ct"), Distance::Exact(1));
    // one further edit away: never a smaller exact value
    assert_eq!(run(&builder, b"cat", b"c"), Distance::AtLeast(2));
}

#[test]
fn state_count_does_not_depend_on_query() {
    for &transposition in &[false, true] {
        for d in 1..=2u8 {
            let builder = LevenshteinAutomatonBuilder::new(d, transposition);
            let short = builder.build_dfa(b"a");
            let medium = builder.build_dfa(&[b'b'; 10]);
            let long = builder.build_dfa(&[b'c'; 100]);
            let n = short.num_parametric_states();
            assert!(n > 0);
            assert_eq!(n, medium.num_parametric_states());
            assert_eq!(n, long.num_parametric_states());
        }
    }
}

#[test]
fn identical_walks_give_identical_outputs() {
    let builder = LevenshteinAutomatonBuilder::new(2, true);
    let dfa1 = builder.build_dfa(b"levenshtein");
    let dfa2 = builder.build_dfa(b"levenshtein");
    let mut s1 = dfa1.initial_state();
    let mut s2 = dfa2.initial_state();
    for &b in b"levenstein automata" {
        s1 = dfa1.transition(s1, b);
        s2 = dfa2.transition(s2, b);
        assert_eq!(dfa1.distance(s1), dfa2.distance(s2));
    }
}

#[test]
fn walking_the_query_itself_is_free() {
    let builder = LevenshteinAutomatonBuilder::new(2, false);
    for query in [b"a".as_slice(), b"abc", b"saucisson sec"] {
        assert_eq!(run(&builder, query, query), Distance::Exact(0));
    }
}

#[test]
fn distance_before_any_input_deletes_the_query() {
    let builder = LevenshteinAutomatonBuilder::new(2, true);
    assert_eq!(run(&builder, b"ab", b""), Distance::Exact(2));
    assert_eq!(run(&builder, b"abc", b""), Distance::AtLeast(3));
}

#[test]
fn distance_zero_bound() {
    let builder = LevenshteinAutomatonBuilder::new(0, false);
    assert_eq!(run(&builder, b"abc", b"abc"), Distance::Exact(0));
    assert_eq!(run(&builder, b"abc", b"abd"), Distance::AtLeast(1));
    assert_eq!(run(&builder, b"abc", b"ab"), Distance::AtLeast(1));
}

#[test]
fn input_much_longer_than_query() {
    let builder = LevenshteinAutomatonBuilder::new(2, true);
    assert_eq!(run(&builder, b"ab", &[b'x'; 50]), Distance::AtLeast(3));
    let mut close = b"ab".to_vec();
    close.extend_from_slice(b"xx");
    assert_eq!(run(&builder, b"ab", &close), Distance::Exact(2));
}

#[test]
fn long_query() {
    let builder = LevenshteinAutomatonBuilder::new(1, false);
    let query = vec![b'q'; 300];
    let mut input = query.clone();
    input[150] = b'r';
    assert_eq!(run(&builder, &query, &query), Distance::Exact(0));
    assert_eq!(run(&builder, &query, &input), Distance::Exact(1));
    assert_eq!(run(&builder, &query, &query[..299]), Distance::Exact(1));
    assert_eq!(run(&builder, &query, &query[..297]), Distance::AtLeast(2));
}

fn all_strings(alphabet: &[u8], max_len: usize) -> Vec<Vec<u8>> {
    let mut out: Vec<Vec<u8>> = vec![Vec::new()];
    let mut last: Vec<Vec<u8>> = vec![Vec::new()];
    for _ in 0..max_len {
        let mut next = Vec::new();
        for s in &last {
            for &c in alphabet {
                let mut t = s.clone();
                t.push(c);
                next.push(t);
            }
        }
        out.extend(next.iter().cloned());
        last = next;
    }
    out
}

#[test]
fn agrees_with_dynamic_programming() {
    let queries = all_strings(b"abc", 3);
    let inputs = all_strings(b"abc", 4);
    for &transposition in &[false, true] {
        for d in 0..=2u8 {
            let builder = LevenshteinAutomatonBuilder::new(d, transposition);
            for q in &queries {
                let dfa = builder.build_dfa(q);
                for s in &inputs {
                    let mut state = dfa.initial_state();
                    for &b in s.iter() {
                        state = dfa.transition(state, b);
                    }
                    let got = dfa.distance(state);
                    let truth = if transposition {
                        lev_transpose(s, q)
                    } else {
                        lev(s, q)
                    };
                    let expected = if truth <= d as usize {
                        Distance::Exact(truth as u8)
                    } else {
                        Distance::AtLeast(d + 1)
                    };
                    assert_eq!(got, expected, "q={:?} s={:?} d={} t={}", q, s, d, transposition);
                }
            }
        }
    }
}
