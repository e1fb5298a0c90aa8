use manas::teach::{extract_association, teachable_units};

#[test]
fn extracts_simple_is_association() {
    let (input, target) =
        extract_association("A cat is a small domesticated animal with fur.").unwrap();

    assert_eq!(input, "cat");
    assert_eq!(target, "small domesticated animal with fur");
}

#[test]
fn extracts_multi_word_subject() {
    let (input, target) =
        extract_association("The Eiffel Tower is located in Paris France.").unwrap();

    assert_eq!(input, "Eiffel Tower");
    assert_eq!(target, "located in Paris France");
}

#[test]
fn extracts_chinese_question_answer_association() {
    let (input, target) = extract_association(
        "问题：山是怎么形成的？ 答案：山是由构造力或火山活动经过漫长地质时期形成的。",
    )
    .unwrap();

    assert_eq!(input, "山是怎么形成的");
    assert_eq!(target, "山是由构造力或火山活动经过漫长地质时期形成的");
}

#[test]
fn extracts_colon_question_answer_association() {
    let (input, target) =
        extract_association("长城为什么而建？ : 中国长城是为保护古代中国免受入侵而建造的。")
            .unwrap();

    assert_eq!(input, "长城为什么而建");
    assert_eq!(target, "中国长城是为保护古代中国免受入侵而建造的");
}

#[test]
fn extracts_chinese_is_association() {
    let (input, target) = extract_association("猫是家养哺乳动物。").unwrap();

    assert_eq!(input, "猫");
    assert_eq!(target, "家养哺乳动物");
}

#[test]
fn skips_markdown_headings_as_teachable_units() {
    let units = teachable_units("# Paris\n\nParis is a city in France.");

    assert_eq!(units, vec!["Paris is a city in France."]);
}

#[test]
fn extracts_duplicate_markdown_heading_subject() {
    let (input, target) = extract_association("Paris Paris is a city in France.").unwrap();

    assert_eq!(input, "Paris");
    assert_eq!(target, "city in France");
}

#[test]
fn empty_text_has_no_association() {
    assert_eq!(
        extract_association("  ...  "),
        Err("input text is empty".to_string())
    );
}

#[test]
fn stop_words_alone_have_no_subject() {
    assert_eq!(
        extract_association("the a"),
        Err("could not find a teachable subject".to_string())
    );
}

#[test]
fn plain_sentence_uses_first_content_word() {
    assert_eq!(
        extract_association("The quick fox jumps!"),
        Ok(("quick".to_string(), "The quick fox jumps".to_string()))
    );
}

#[test]
fn labelled_english_question_answer() {
    assert_eq!(
        extract_association("Q: why is the sky blue? A: scattering."),
        Ok(("why is the sky blue".to_string(), "scattering".to_string()))
    );
}

#[test]
fn short_key_colon_value() {
    assert_eq!(
        extract_association("capital: Paris"),
        Ok(("capital".to_string(), "Paris".to_string()))
    );
}

#[test]
fn refers_to_comes_before_is() {
    assert_eq!(
        extract_association("A mole refers to what is a unit"),
        Ok(("mole".to_string(), "what is a unit".to_string()))
    );
}

#[test]
fn chinese_marker_located_in() {
    assert_eq!(
        extract_association("埃菲尔铁塔位于巴黎。"),
        Ok(("埃菲尔铁塔".to_string(), "巴黎".to_string()))
    );
}

#[test]
fn offsets_follow_the_lowercased_bytes() {
    assert_eq!(
        extract_association("İstanbul is a city"),
        Ok(("İstanbul".to_string(), "city".to_string()))
    );
}

#[test]
fn misaligned_cut_is_reported() {
    assert_eq!(manas::teach::checked_extract_association("\u{212A} is x"), None);
    assert_eq!(
        manas::teach::checked_extract_association("cat is small"),
        Some(Ok(("cat".to_string(), "small".to_string())))
    );
}

#[test]
fn heading_only_text_is_one_unit() {
    assert_eq!(teachable_units("  # Paris  "), vec!["# Paris"]);
    assert!(teachable_units("  \n ").is_empty());
}

#[test]
fn units_end_at_sentence_marks() {
    assert_eq!(
        teachable_units("One. Two! Three？ 四。五！six\nseven"),
        vec!["One.", "Two!", "Three？ 四。", "五！", "six", "seven"]
    );
}

#[test]
fn sentence_trimming() {
    assert_eq!(manas::teach::trim_sentence_str("  “Hello!”, "), "Hello");
    assert_eq!(manas::teach::trim_sentence_str(". : b"), ": b");
}

#[test]
fn markdown_headings_need_space_after_marks() {
    let h = |s: &str| manas::teach::is_markdown_heading(&s.chars().collect());
    assert!(h("  ## Title"));
    assert!(!h("#Title"));
    assert!(!h("####### Seven"));
    assert!(!h("#"));
}
