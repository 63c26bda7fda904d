use markov_engine::cache::MIN_CORPUS_MESSAGES;
use markov_engine::cache::ModelCache;

fn synthetic_corpus(n: usize) -> Vec<String> {
    (0..n).map(|i| format!("filler message number {}", i)).collect()
}

/// A stand-in for the corpus store that counts how often it is asked.
struct CountingProvider {
    corpus: Vec<String>,
    calls: usize,
}

impl CountingProvider {
    fn fetch(&mut self) -> Vec<String> {
        self.calls += 1;
        self.corpus.clone()
    }
}

/// The facade flow an application runs: use the cached model if present,
/// else fetch the corpus, train, cache, and generate.
fn generate_message(
    cache: &mut ModelCache,
    provider: &mut CountingProvider,
    channel_id: u64,
    seed: Option<&str>,
) -> Option<String> {
    match cache.generate_cached(channel_id, seed) {
        Some(s) => Some(s),
        None => {
            let corpus = provider.fetch();
            cache.train_and_generate(channel_id, corpus, seed)
        }
    }
}

#[test]
fn threshold_gating_at_the_boundary() {
    let mut cache = ModelCache::new();
    let below = synthetic_corpus(MIN_CORPUS_MESSAGES - 1);
    assert_eq!(cache.train_and_generate(1, below, None), None);
    assert!(!cache.has_model(1));

    let at = synthetic_corpus(MIN_CORPUS_MESSAGES);
    let out = cache.train_and_generate(1, at, None);
    assert!(out.is_some());
    assert!(!out.unwrap().is_empty());
    assert!(cache.has_model(1));
}

#[test]
fn cache_reuse_trains_only_once() {
    let mut cache = ModelCache::new();
    let mut provider =
        CountingProvider { corpus: synthetic_corpus(MIN_CORPUS_MESSAGES), calls: 0 };

    let first = generate_message(&mut cache, &mut provider, 42, None);
    assert!(first.is_some());
    assert_eq!(provider.calls, 1);

    let second = generate_message(&mut cache, &mut provider, 42, None);
    assert!(second.is_some());
    assert_eq!(provider.calls, 1, "a cache hit must not fetch or re-train");
}

#[test]
fn cache_miss_for_a_small_corpus_keeps_asking() {
    let mut cache = ModelCache::new();
    let mut provider = CountingProvider { corpus: synthetic_corpus(10), calls: 0 };

    assert_eq!(generate_message(&mut cache, &mut provider, 9, None), None);
    assert_eq!(generate_message(&mut cache, &mut provider, 9, None), None);
    assert_eq!(provider.calls, 2, "nothing was cached, so every call fetches");
}

#[test]
fn channels_are_independent() {
    let mut cache = ModelCache::new();
    let corpus_a: Vec<String> =
        (0..MIN_CORPUS_MESSAGES).map(|_| "apple apple".to_string()).collect();
    let corpus_b: Vec<String> =
        (0..MIN_CORPUS_MESSAGES).map(|_| "banana banana".to_string()).collect();

    assert!(cache.train_and_generate(1, corpus_a, None).is_some());
    assert!(!cache.has_model(2));
    assert!(cache.train_and_generate(2, corpus_b, None).is_some());

    let a = cache.generate_cached(1, None).unwrap();
    let b = cache.generate_cached(2, None).unwrap();
    assert!(a.split_whitespace().all(|w| w == "apple"), "unexpected: {}", a);
    assert!(b.split_whitespace().all(|w| w == "banana"), "unexpected: {}", b);
}

#[test]
fn generated_sentences_respect_the_global_length_bound() {
    let mut cache = ModelCache::new();
    let corpus: Vec<String> = (0..MIN_CORPUS_MESSAGES)
        .map(|i| format!("w{} w{} w{} w{}", i, i + 1, i + 2, i + 3))
        .collect();
    let mut out = cache.train_and_generate(5, corpus, None);
    for _ in 0..30 {
        let s = out.expect("corpus meets the threshold");
        assert!(s.split_whitespace().count() <= 14);
        out = cache.generate_cached(5, None);
    }
}
