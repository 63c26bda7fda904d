use markov_engine::chain::Chain;

fn corpus(msgs: &[&str]) -> Vec<String> {
    msgs.iter().map(|m| m.to_string()).collect()
}

fn words(s: &str) -> Vec<String> {
    s.split_whitespace().map(|w| w.to_string()).collect()
}

fn draws(ds: &[u128]) -> Vec<u128> {
    ds.to_vec()
}

#[test]
fn deterministic_under_fixed_draws() {
    let mut chain = Chain::new();
    chain.train(corpus(&["the cat sat", "the cat ran"]));
    let ds = draws(&[1, 0, 1, 0, 1, 0, 1, 0]);
    let a = chain.generate_with_draws(8, None, &ds);
    let b = chain.generate_with_draws(8, None, &ds);
    assert_eq!(a, b);
    let c = chain.generate_with_draws(8, Some("cat"), &ds);
    let d = chain.generate_with_draws(8, Some("cat"), &ds);
    assert_eq!(c, d);
}

#[test]
fn length_bound_holds_for_every_max() {
    let mut chain = Chain::new();
    chain.train(corpus(&["a b c d e f g h i j k l m n o p", "b c a d"]));
    for max in 1..=14usize {
        for _ in 0..20 {
            let out = chain.generate(max, None);
            let n = words(&out).len();
            assert!(n <= max, "{} tokens exceed max {}", n, max);
            assert!(n >= 1, "start set is non-empty, output must not be empty");
        }
    }
}

#[test]
fn no_cross_message_transitions() {
    let mut chain = Chain::new();
    chain.train(corpus(&["a b", "c d"]));
    // `b` and `d` end their messages: they are dead ends, so a walk that
    // reaches them stops rather than crossing into the other message.
    for d0 in 0..4u128 {
        let ds = draws(&[d0, d0, d0, d0, d0]);
        assert_eq!(chain.generate_with_draws(5, Some("a"), &ds), "a b");
        assert_eq!(chain.generate_with_draws(5, Some("c"), &ds), "c d");
    }
    // Unseeded output is always one of the two training messages.
    for _ in 0..40 {
        let out = chain.generate(5, None);
        assert!(out == "a b" || out == "c d" || out == "a" || out == "c", "unexpected: {}", out);
    }
}

#[test]
fn seed_honored_with_trained_successors() {
    let mut chain = Chain::new();
    chain.train(corpus(&["the cat sat", "the cat ran"]));
    for _ in 0..40 {
        let out = chain.generate(5, Some("cat"));
        let ws = words(&out);
        assert_eq!(ws[0], "cat");
        if ws.len() > 1 {
            assert!(ws[1] == "sat" || ws[1] == "ran", "unexpected: {}", out);
        }
    }
}

#[test]
fn unknown_seed_falls_back_to_start_set() {
    let mut chain = Chain::new();
    chain.train(corpus(&["the cat sat", "the cat ran"]));
    for _ in 0..20 {
        let out = chain.generate(5, Some("zzz"));
        let ws = words(&out);
        assert!(!ws.is_empty());
        assert_eq!(ws[0], "the");
    }
}

#[test]
fn seed_matching_is_case_insensitive_and_verbatim() {
    let mut chain = Chain::new();
    chain.train(corpus(&["The Cat Sat"]));
    let ds = draws(&[0, 0, 0]);
    let out = chain.generate_with_draws(3, Some("CAT"), &ds);
    let ws = words(&out);
    assert_eq!(ws[0], "CAT");
    assert_eq!(ws[1], "sat");
}

#[test]
fn training_case_folds_tokens() {
    let mut chain = Chain::new();
    chain.train(corpus(&["HELLO WORLD"]));
    let out = chain.generate(2, None);
    assert_eq!(out, "hello world");
}

#[test]
fn empty_corpus_generates_nothing() {
    let mut chain = Chain::new();
    chain.train(Vec::new());
    assert_eq!(chain.generate(5, None), "");
    assert_eq!(chain.generate(5, Some("zzz")), "");
}

#[test]
fn single_token_messages_yield_one_start_token() {
    let mut chain = Chain::new();
    chain.train(corpus(&["alpha", "beta"]));
    for _ in 0..20 {
        let out = chain.generate(14, None);
        assert!(out == "alpha" || out == "beta", "unexpected: {}", out);
    }
}

#[test]
fn forced_transition_is_taken() {
    let mut chain = Chain::new();
    chain.train(corpus(&["a b"]));
    // `b` after `a` is the only candidate, and `b` is a dead end.
    assert_eq!(chain.generate(2, Some("a")), "a b");
    assert_eq!(chain.generate(5, Some("a")), "a b");
}

#[test]
fn roulette_selection_follows_cumulative_counts() {
    let mut chain = Chain::new();
    chain.train(corpus(&["x y", "x y", "x z"]));
    // Candidates of `x` in first-insertion order: y with count 2, z with 1.
    // Draw points 0 and 1 land on y, 2 lands on z.
    assert_eq!(chain.generate_with_draws(2, Some("x"), &draws(&[0, 0])), "x y");
    assert_eq!(chain.generate_with_draws(2, Some("x"), &draws(&[1, 1])), "x y");
    assert_eq!(chain.generate_with_draws(2, Some("x"), &draws(&[2, 2])), "x z");
    // Draw points reduce modulo the total weight of 3.
    assert_eq!(chain.generate_with_draws(2, Some("x"), &draws(&[5, 5])), "x z");
}

#[test]
fn start_selection_follows_cumulative_counts() {
    let mut chain = Chain::new();
    chain.train(corpus(&["a p", "b q"]));
    assert_eq!(chain.generate_with_draws(2, None, &draws(&[0, 0])), "a p");
    assert_eq!(chain.generate_with_draws(2, None, &draws(&[1, 0])), "b q");
}

#[test]
fn dead_end_shortens_output() {
    let mut chain = Chain::new();
    chain.train(corpus(&["one two three"]));
    let ds = draws(&[0; 14]);
    let out = chain.generate_with_draws(14, None, &ds);
    assert_eq!(out, "one two three");
}
