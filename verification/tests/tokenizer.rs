use std::collections::HashSet;

use manas::tokenizer::Tokenizer;

#[test]
fn cat_and_cats_share_tokens() {
    let mut tokenizer = Tokenizer::new(4);
    let cat_ids = tokenizer.encode("cat");
    let cats_ids = tokenizer.encode("cats");

    let cat_set = cat_ids.into_iter().collect::<HashSet<_>>();
    let cats_set = cats_ids.into_iter().collect::<HashSet<_>>();
    let shared = cat_set.intersection(&cats_set).count();

    assert!(
        shared >= 3,
        "cat and cats should share at least 3 tokens, got {shared}"
    );
}

#[test]
fn encode_is_deterministic() {
    let mut tokenizer = Tokenizer::new(4);

    let first = tokenizer.encode("the quick brown fox");
    let second = tokenizer.encode("the quick brown fox");

    assert_eq!(first, second);
}

#[test]
fn empty_string_returns_empty() {
    let mut tokenizer = Tokenizer::new(4);

    assert!(tokenizer.encode("").is_empty());
    assert!(tokenizer.encode("!? --").is_empty());
}

#[test]
fn vocab_grows_on_new_words() {
    let mut tokenizer = Tokenizer::new(4);
    let before = tokenizer.vocab_size();

    tokenizer.encode("xyzqwerty");

    assert!(tokenizer.vocab_size() > before);
}

#[test]
fn decode_encode_roundtrip_reasonable() {
    let mut tokenizer = Tokenizer::new(4);

    let ids = tokenizer.encode("rust programming");
    let decoded = tokenizer.decode(&ids);

    assert!(
        decoded.contains("rust") || decoded.contains("programming"),
        "decoded '{decoded}' does not resemble original"
    );
}

#[test]
fn encode_deterministic_does_not_grow_vocab() {
    let mut tokenizer = Tokenizer::new(4);
    tokenizer.encode("cat");
    let before = tokenizer.vocab_size();

    let ids = tokenizer.encode_deterministic("cat dog");

    assert!(!ids.is_empty());
    assert_eq!(tokenizer.vocab_size(), before);
    assert!(tokenizer.encode_deterministic("dog").is_empty());
}

#[test]
fn punctuation_and_case_normalize_to_same_ids() {
    let mut tokenizer = Tokenizer::new(4);

    let first = tokenizer.encode("Cat!");
    let second = tokenizer.encode("cat");

    assert_eq!(first, second);
}

#[test]
fn unicode_alphanumeric_text_is_tokenized_by_char() {
    let mut tokenizer = Tokenizer::new(4);

    let ids = tokenizer.encode("मनस्");
    let decoded = tokenizer.decode(&ids);

    assert!(!ids.is_empty());
    assert_eq!(decoded, "मनस");
}

#[test]
fn chinese_text_uses_sliding_character_ngrams() {
    let mut tokenizer = Tokenizer::new(4);

    let ids = tokenizer.encode("山是由构造力形成的");
    let tokens = ids
        .iter()
        .filter_map(|id| tokenizer.id_to_token.get(id))
        .cloned()
        .collect::<HashSet<_>>();

    assert!(tokens.contains("山"));
    assert!(tokens.contains("构造"));
    assert!(tokens.contains("形成"));
    assert!(tokens.contains("#山是由构造力形成的"));
}

#[test]
fn chinese_related_phrases_share_tokens() {
    let mut tokenizer = Tokenizer::new(4);

    let first = tokenizer.encode("山是怎么形成的");
    let second = tokenizer.encode("山是由构造力形成的");

    let first_set = first.into_iter().collect::<HashSet<_>>();
    let second_set = second.into_iter().collect::<HashSet<_>>();
    assert!(first_set.intersection(&second_set).count() >= 3);
}

#[test]
fn word_prefix_tokens_are_exact() {
    let word: Vec<char> = "cats".chars().collect();
    let tokens = manas::tokenizer::ngrams_for_word(&word, 3);
    let tokens: Vec<String> = tokens.into_iter().map(|t| t.into_iter().collect()).collect();
    assert_eq!(tokens, vec!["c", "ca", "cat", "#cats"]);
}

#[test]
fn short_word_gives_all_prefixes() {
    let word: Vec<char> = "ab".chars().collect();
    let tokens = manas::tokenizer::ngrams_for_word(&word, 4);
    let tokens: Vec<String> = tokens.into_iter().map(|t| t.into_iter().collect()).collect();
    assert_eq!(tokens, vec!["a", "ab", "#ab"]);
}

#[test]
fn cjk_windows_are_exact() {
    let term: Vec<char> = "山是由".chars().collect();
    let tokens = manas::tokenizer::cjk_ngrams_for_term(&term, 2);
    let tokens: Vec<String> = tokens.into_iter().map(|t| t.into_iter().collect()).collect();
    assert_eq!(tokens, vec!["山", "山是", "是", "是由", "由", "#山是由"]);
}

#[test]
fn terms_are_lowercased_alphanumeric_runs() {
    let text: Vec<char> = "Héllo, WÖRLD!! x2".chars().collect();
    let terms = manas::tokenizer::normalized_terms_of(&text);
    let terms: Vec<String> = terms.into_iter().map(|t| t.into_iter().collect()).collect();
    assert_eq!(terms, vec!["héllo", "wörld", "x2"]);
}

#[test]
fn decode_after_encode_gives_terms() {
    let mut tokenizer = Tokenizer::new(4);
    let ids = tokenizer.encode("Hello, World! 山是由");
    assert_eq!(tokenizer.decode(&ids), "hello world 山是由");
}

#[test]
fn lookup_after_encode_returns_same_ids() {
    let mut tokenizer = Tokenizer::new(3);
    let ids = tokenizer.encode("Rust programming language");
    let size = tokenizer.vocab_size();
    assert_eq!(tokenizer.encode_deterministic("Rust programming language"), ids);
    assert_eq!(tokenizer.encode("Rust programming language"), ids);
    assert_eq!(tokenizer.vocab_size(), size);
}

#[test]
fn ids_are_given_in_first_seen_order() {
    let mut tokenizer = Tokenizer::new(2);
    assert_eq!(tokenizer.encode("ab"), vec![0, 1, 2]);
    assert_eq!(tokenizer.encode("ac ab"), vec![0, 3, 4, 0, 1, 2]);
    assert_eq!(tokenizer.vocab_size(), 5);
}

#[test]
fn zero_max_ngram_is_taken_as_one() {
    let mut tokenizer = Tokenizer::new(0);
    assert_eq!(tokenizer.max_ngram, 1);
    assert_eq!(tokenizer.encode("dog"), vec![0, 1]);
}

#[test]
fn default_tokenizer_uses_four_char_prefixes() {
    let mut tokenizer = Tokenizer::default();
    assert_eq!(tokenizer.max_ngram, 4);
    assert_eq!(tokenizer.encode("abcdef").len(), 5);
}

#[test]
fn decode_without_boundary_tokens_joins_all() {
    let mut tokenizer = Tokenizer::new(4);
    tokenizer.encode("cat");
    assert_eq!(tokenizer.decode(&[0, 1, 99]), "c ca");
    assert_eq!(tokenizer.decode(&[]), "");
}

#[test]
fn unknown_text_has_no_deterministic_ids() {
    let tokenizer = Tokenizer::new(4);
    assert!(tokenizer.encode_deterministic("anything at all").is_empty());
    assert_eq!(tokenizer.vocab_size(), 0);
}

#[test]
fn terms_follow_the_given_classification() {
    let alnum = vec![true, true, false, false, true, false];
    let lowered = vec![vec!['a'], vec!['b', 'c'], vec!['-'], vec![' '], vec!['x'], vec!['!']];
    let terms = manas::tokenizer::normalized_terms_from(&alnum, &lowered);
    let terms: Vec<String> = terms.into_iter().map(|t| t.into_iter().collect()).collect();
    assert_eq!(terms, vec!["abc", "x"]);
    assert!(manas::tokenizer::normalized_terms_from(&vec![false], &vec![vec!['a']]).is_empty());
}

#[test]
fn vocabulary_size_matches_counter() {
    let mut tokenizer = Tokenizer::new(4);
    tokenizer.encode("Hello hello, help 山是");
    assert_eq!(tokenizer.vocab.len() as u32, tokenizer.vocab_size());
    assert_eq!(tokenizer.id_to_token.len() as u32, tokenizer.vocab_size());
    for id in 0..tokenizer.vocab_size() {
        let token = tokenizer.id_to_token.get(&id).unwrap();
        assert_eq!(tokenizer.vocab.get(token.as_str()), Some(&id));
    }
}

#[test]
fn any_alphanumeric_char_gives_ids_and_terms() {
    let mut tokenizer = Tokenizer::new(4);
    assert!(!tokenizer.encode("?!x--").is_empty());
    assert!(!tokenizer.encode(" 山 ").is_empty());
    let text: Vec<char> = "-- 7 --".chars().collect();
    assert_eq!(manas::tokenizer::normalized_terms_of(&text).len(), 1);
}
