use budoux::Model;
use budoux::Parser;

const TEST_SENTENCE: &str = "abcdeabcd";

#[test]
fn should_separate_if_a_strong_feature_item_supports() {
    let mut model = Model::new();
    model.insert("UW4", "a", 10000);

    let parser = Parser::new(model);
    let result = parser.parse(TEST_SENTENCE);

    assert_eq!(result, vec!["abcde", "abcd"]);
}

#[test]
fn should_separate_even_if_it_makes_a_phrase_of_one_character() {
    let mut model = Model::new();
    model.insert("UW4", "b", 10000);

    let parser = Parser::new(model);
    let result = parser.parse(TEST_SENTENCE);

    assert_eq!(result, vec!["a", "bcdea", "bcd"]);
}

#[test]
fn should_return_an_empty_list_when_the_input_is_a_blank_string() {
    let model = Model::new();
    let parser = Parser::new(model);
    let result = parser.parse("");

    assert_eq!(result, Vec::<&str>::new());
}

#[test]
fn strong_feature_puts_the_boundary_at_position_five() {
    let mut model = Model::new();
    model.insert("UW4", "a", 10000);

    let parser = Parser::new(model);
    let boundaries = parser.parse_boundaries(TEST_SENTENCE);

    assert_eq!(boundaries, vec![5]);
}

#[test]
fn empty_table_keeps_the_input_whole() {
    let model = Model::new();
    let parser = Parser::new(model);

    assert_eq!(parser.parse_boundaries("hello"), Vec::<usize>::new());
    assert_eq!(parser.parse("hello"), vec!["hello"]);
}

#[test]
fn short_inputs_have_no_boundaries() {
    let mut model = Model::new();
    model.insert("UW4", "a", 10000);

    let parser = Parser::new(model);

    assert_eq!(parser.parse_boundaries(""), Vec::<usize>::new());
    assert_eq!(parser.parse_boundaries("a"), Vec::<usize>::new());
    assert_eq!(parser.parse("a"), vec!["a"]);
}

// With a single weight of 1 the weights sum to 1, so the base score is
// -((1 + 1) / 2) = -1 and a lone matching feature only reaches 0: no split.
#[test]
fn odd_sum_rounds_the_base_score_against_splitting() {
    let mut model = Model::new();
    model.insert("UW4", "a", 1);

    let parser = Parser::new(model);

    assert_eq!(parser.parse("aa"), vec!["aa"]);
}

// With a single weight of 2 the base score is -((2 + 1) / 2) = -1 and a
// matching feature reaches 1: split.
#[test]
fn even_sum_lets_a_matching_feature_split() {
    let mut model = Model::new();
    model.insert("UW4", "a", 2);

    let parser = Parser::new(model);

    assert_eq!(parser.parse("aa"), vec!["a", "a"]);
}

// With a single weight of -4 the weights sum to -4, the truncated quotient
// (-4 + 1) / 2 is -1, and the base score is 1: every position that does
// not match the negative feature splits.
#[test]
fn negative_sum_turns_the_base_score_into_a_split_bias() {
    let mut model = Model::new();
    model.insert("UW4", "a", -4);

    let parser = Parser::new(model);

    assert_eq!(parser.parse_boundaries("aba"), vec![1]);
    assert_eq!(parser.parse("aba"), vec!["a", "ba"]);
}

#[test]
fn inserting_the_same_ngram_again_replaces_its_weight() {
    let mut model = Model::new();
    model.insert("UW4", "a", 1);
    model.insert("UW4", "a", 10000);

    let parser = Parser::new(model);

    assert_eq!(parser.parse("aa"), vec!["a", "a"]);
}

#[test]
fn a_two_character_window_feature_is_looked_up() {
    let mut model = Model::new();
    model.insert("BW2", "ab", 5000);

    let parser = Parser::new(model);

    assert_eq!(parser.parse_boundaries("xabx"), vec![2]);
    assert_eq!(parser.parse("xabx"), vec!["xa", "bx"]);
}

#[test]
fn boundaries_are_strictly_increasing_and_interior() {
    let mut model = Model::new();
    model.insert("UW4", "a", 10000);

    let parser = Parser::new(model);
    let text = "aaaa";
    let boundaries = parser.parse_boundaries(text);

    assert_eq!(boundaries, vec![1, 2, 3]);
    for window in boundaries.windows(2) {
        assert!(window[0] < window[1]);
    }
    for &b in &boundaries {
        assert!(0 < b && b < text.chars().count());
    }
    assert_eq!(parser.parse(text), vec!["a", "a", "a", "a"]);
}

#[test]
fn concatenating_the_chunks_restores_the_sentence() {
    let mut model = Model::new();
    model.insert("UW4", "b", 10000);
    model.insert("UW3", "d", 7000);
    model.insert("BW1", "cd", -1500);

    let parser = Parser::new(model);
    let text = "abcdeabcd";
    let chunks = parser.parse(text);

    assert_eq!(chunks.concat(), text);
    for chunk in &chunks {
        assert!(!chunk.is_empty());
    }
}

#[test]
fn equal_tables_produce_equal_results() {
    let mut first = Model::new();
    first.insert("UW4", "b", 10000);
    first.insert("TW1", "abc", -800);
    let mut second = Model::new();
    second.insert("UW4", "b", 10000);
    second.insert("TW1", "abc", -800);

    let p1 = Parser::new(first);
    let p2 = Parser::new(second);

    assert_eq!(p1.parse_boundaries(TEST_SENTENCE), p2.parse_boundaries(TEST_SENTENCE));
    assert_eq!(p1.parse(TEST_SENTENCE), p2.parse(TEST_SENTENCE));
}

#[test]
fn absent_groups_and_ngrams_weigh_nothing() {
    let mut model = Model::new();
    model.insert("UW4", "a", 10000);

    assert_eq!(model.get("UW4", "a"), 10000);
    assert_eq!(model.get("UW4", "b"), 0);
    assert_eq!(model.get("UW9", "a"), 0);
}

#[test]
fn multibyte_characters_are_split_on_codepoint_boundaries() {
    let parser = Parser::load_default_japanese_parser();

    let chunks = parser.parse("こんにちは。世界");
    assert_eq!(chunks, vec!["こんにちは。", "世界"]);
    assert_eq!(chunks.concat(), "こんにちは。世界");
}

#[test]
fn simplified_chinese_loader_splits_after_punctuation() {
    let parser = Parser::load_default_simplified_chinese_parser();

    assert_eq!(parser.parse("你好，再见"), vec!["你好，", "再见"]);
}

#[test]
fn traditional_chinese_loader_splits_after_the_particle() {
    let parser = Parser::load_default_traditional_chinese_parser();

    assert_eq!(parser.parse("我的書"), vec!["我的", "書"]);
}

#[test]
fn thai_loader_splits_after_the_repetition_mark() {
    let parser = Parser::load_default_thai_parser();

    assert_eq!(parser.parse("กินๆนอนๆ"), vec!["กินๆ", "นอนๆ"]);
}
