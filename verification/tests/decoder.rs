use manas::decoder::{answer_candidates, select_answer_words, should_return_best_candidate_only};

fn strings(values: &[&str]) -> Vec<String> {
    values.iter().map(|v| v.to_string()).collect()
}

#[test]
fn best_candidate_alone_for_cjk_or_long_words() {
    assert!(should_return_best_candidate_only("山"));
    assert!(should_return_best_candidate_only("abcdefghijklm"));
    assert!(!should_return_best_candidate_only("abcdefghijkl"));
}

#[test]
fn candidates_skip_question_words_and_stop_words() {
    let known = strings(&["cat", "the", "paris", "with", "fur", "Cat"]);
    assert_eq!(answer_candidates(&known, "What is a CAT?"), strings(&["paris", "fur", "Cat"]));
}

#[test]
fn answer_words_take_passing_then_fill() {
    let ranked = strings(&["a", "b", "c", "d"]);
    assert_eq!(
        select_answer_words(&ranked, &vec![true, false, false, false], &vec![true, true, false, true]),
        strings(&["a", "b"])
    );
    assert_eq!(
        select_answer_words(&ranked, &vec![false, true, true, true], &vec![true; 4]),
        strings(&["b", "c", "d"])
    );
    let many = strings(&["1", "2", "3", "4", "5", "6", "7"]);
    assert_eq!(
        select_answer_words(&many, &vec![true; 7], &vec![true; 7]),
        strings(&["1", "2", "3", "4", "5", "6"])
    );
    assert!(select_answer_words(&ranked, &vec![false; 4], &vec![false; 4]).is_empty());
}
