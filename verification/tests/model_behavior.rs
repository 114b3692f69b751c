use std::collections::HashSet;

use fictionary::model::CharCounter;
use fictionary::model::CharkovChain;
use fictionary::model::WordGenerationError;
use fictionary::symbol::Context;
use fictionary::symbol::Symbol;
use rand::rngs::StdRng;
use rand::SeedableRng;

fn ctx(fst: Symbol, snd: Symbol) -> Context {
    Context { fst, snd }
}

#[test]
fn test_feed_word() {
    let mut cc = CharCounter::new();
    cc.feed_word("a");

    assert_eq!(
        cc.most_common_ordered(&ctx(Symbol::Start, Symbol::Start)).unwrap(),
        vec![(Symbol::Letter('a'), 1)]
    );
    assert_eq!(
        cc.most_common_ordered(&ctx(Symbol::Start, Symbol::Letter('a'))).unwrap(),
        vec![(Symbol::End, 1)]
    );

    cc.feed_word("ab");
    assert_eq!(
        cc.most_common_ordered(&ctx(Symbol::Start, Symbol::Start)).unwrap(),
        vec![(Symbol::Letter('a'), 2)]
    );
    assert_eq!(
        cc.most_common_ordered(&ctx(Symbol::Start, Symbol::Letter('a'))).unwrap(),
        vec![(Symbol::End, 1), (Symbol::Letter('b'), 1)]
    );
    assert_eq!(
        cc.most_common_ordered(&ctx(Symbol::Letter('a'), Symbol::Letter('b'))).unwrap(),
        vec![(Symbol::End, 1)]
    );

    cc.feed_word("abc");
    assert_eq!(
        cc.most_common_ordered(&ctx(Symbol::Start, Symbol::Start)).unwrap(),
        vec![(Symbol::Letter('a'), 3)]
    );
    assert_eq!(
        cc.most_common_ordered(&ctx(Symbol::Start, Symbol::Letter('a'))).unwrap(),
        vec![(Symbol::Letter('b'), 2), (Symbol::End, 1)]
    );
    assert_eq!(
        cc.most_common_ordered(&ctx(Symbol::Letter('a'), Symbol::Letter('b'))).unwrap(),
        vec![(Symbol::End, 1), (Symbol::Letter('c'), 1)]
    );
    assert_eq!(
        cc.most_common_ordered(&ctx(Symbol::Letter('b'), Symbol::Letter('c'))).unwrap(),
        vec![(Symbol::End, 1)]
    );
}

#[test]
fn test_word() {
    let mut cc = CharCounter::new();
    cc.feed_word("babel");
    cc.feed_word("table");
    assert!(cc.within_sampler_limit());
    let charkov = CharkovChain::compile(cc);

    let possible_words: HashSet<&str> = vec!["babel", "table", "bable", "tabel"]
        .into_iter()
        .collect();

    let mut rng = StdRng::seed_from_u64(7);
    let mut found = HashSet::new();
    for _ in 0..200 {
        let word = charkov.word(5, 8, &mut rng).unwrap();
        assert!(possible_words.contains(&word as &str));
        found.insert(word);
    }
    let mut generated = found.into_iter().collect::<Vec<_>>();
    generated.sort();
    assert_eq!(generated, vec!["bable", "tabel"]); // Just make sure all possible words were generated. There's the possibility for this to fail!
}

#[test]
fn single_word_chain_always_regenerates_it() {
    let mut cc = CharCounter::new();
    cc.feed_word("a");
    assert!(cc.within_sampler_limit());
    let chain = CharkovChain::compile(cc);
    let mut rng = StdRng::seed_from_u64(1);
    for _ in 0..50 {
        assert_eq!(chain.candidate_word(&mut rng).unwrap(), "a");
    }
}

#[test]
fn generation_is_deterministic_for_a_fixed_seed() {
    let mut cc = CharCounter::new();
    cc.feed_word("babel");
    cc.feed_word("table");
    cc.feed_word("cable");
    assert!(cc.within_sampler_limit());
    let chain = CharkovChain::compile(cc);

    let mut first = Vec::new();
    let mut rng = StdRng::seed_from_u64(99);
    for _ in 0..40 {
        first.push(chain.candidate_word(&mut rng).unwrap());
    }
    let mut second = Vec::new();
    let mut rng = StdRng::seed_from_u64(99);
    for _ in 0..40 {
        second.push(chain.candidate_word(&mut rng).unwrap());
    }
    assert_eq!(first, second);
}

#[test]
fn exhaustion_fails_with_iterations_exceeded() {
    let mut cc = CharCounter::new();
    cc.feed_word("abc");
    assert!(cc.within_sampler_limit());
    let chain = CharkovChain::compile(cc);
    let mut rng = StdRng::seed_from_u64(3);
    let err = chain.word(10, 12, &mut rng).unwrap_err();
    assert_eq!(err, WordGenerationError::IterationsExceeded(1000));
}

#[test]
fn feeding_in_any_order_gives_the_same_table() {
    let words = ["bat", "tab", "bat", "rat"];
    let mut one = CharCounter::new();
    for w in words {
        one.feed_word(w);
    }
    let mut other = CharCounter::new();
    for w in words.iter().rev() {
        other.feed_word(w);
    }
    let contexts = [
        ctx(Symbol::Start, Symbol::Start),
        ctx(Symbol::Start, Symbol::Letter('b')),
        ctx(Symbol::Start, Symbol::Letter('t')),
        ctx(Symbol::Start, Symbol::Letter('r')),
        ctx(Symbol::Letter('b'), Symbol::Letter('a')),
        ctx(Symbol::Letter('a'), Symbol::Letter('t')),
        ctx(Symbol::Letter('t'), Symbol::Letter('a')),
        ctx(Symbol::Letter('a'), Symbol::Letter('b')),
        ctx(Symbol::Letter('r'), Symbol::Letter('a')),
        ctx(Symbol::Letter('x'), Symbol::Letter('y')),
    ];
    for k in contexts {
        assert_eq!(one.most_common_ordered(&k), other.most_common_ordered(&k));
    }
}

#[test]
fn repeated_counts_accumulate() {
    let mut cc = CharCounter::new();
    cc.feed_word("aa");
    cc.feed_word("aa");
    cc.feed_word("aa");
    assert_eq!(
        cc.most_common_ordered(&ctx(Symbol::Start, Symbol::Start)).unwrap(),
        vec![(Symbol::Letter('a'), 3)]
    );
    assert_eq!(
        cc.most_common_ordered(&ctx(Symbol::Letter('a'), Symbol::Letter('a'))).unwrap(),
        vec![(Symbol::End, 3)]
    );
}

#[test]
fn unknown_context_has_no_listing() {
    let cc = CharCounter::new();
    assert!(cc.most_common_ordered(&ctx(Symbol::Start, Symbol::Start)).is_none());
}

#[test]
fn multibyte_characters_count_as_single_symbols() {
    let mut cc = CharCounter::new();
    cc.feed_word("h\u{e9}\u{e9}");
    assert!(cc.within_sampler_limit());
    let chain = CharkovChain::compile(cc);
    let mut rng = StdRng::seed_from_u64(5);
    assert_eq!(chain.candidate_word(&mut rng).unwrap(), "h\u{e9}\u{e9}");
    // Three characters, more than three bytes: the length filter counts
    // characters, so a range containing three accepts nothing new here.
    let err = chain.word(3, 5, &mut rng).unwrap_err();
    assert_eq!(err, WordGenerationError::IterationsExceeded(1000));
}

#[test]
fn sampling_follows_the_trained_frequencies() {
    let mut cc = CharCounter::new();
    cc.feed_word("ab");
    cc.feed_word("ab");
    cc.feed_word("ac");
    assert!(cc.within_sampler_limit());
    let chain = CharkovChain::compile(cc);
    let mut rng = StdRng::seed_from_u64(12345);
    let mut b_count = 0usize;
    let rounds = 3000usize;
    for _ in 0..rounds {
        let w = chain.candidate_word(&mut rng).unwrap();
        assert!(w == "ab" || w == "ac");
        if w == "ab" {
            b_count += 1;
        }
    }
    // Two of the three observations after ("a") continue with 'b', so the
    // empirical share of "ab" should sit near two thirds.
    let share = b_count as f64 / rounds as f64;
    assert!(0.6 < share && share < 0.73);
}
