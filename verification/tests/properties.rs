use wordle_words::PatternLengthError;
use wordle_words::WordleWords;

fn sample() -> Vec<String> {
    vec![
        String::from("aaaaa"),
        String::from("bbbbb"),
        String::from("ccccc"),
    ]
}

#[test]
fn remove_single_letter() {
    let mut list = WordleWords::new(sample());
    list.remove_letters("a");
    let result = list.get_word_list();
    assert_eq!(result.len(), 2);
    assert_eq!("bbbbb", result[0]);
    assert_eq!("ccccc", result[1]);
}

#[test]
fn correct_first_position() {
    let mut list = WordleWords::new(sample());
    list.correct_letters("a....").unwrap();
    let result = list.get_word_list();
    assert_eq!(result.len(), 1);
    assert_eq!("aaaaa", result[0]);
}

#[test]
fn correct_pattern_too_short_is_no_op() {
    let mut list = WordleWords::new(sample());
    let result = list.correct_letters("a...");
    assert_eq!(result, Err(PatternLengthError));
    assert_eq!(list.get_word_list(), &sample());
}

#[test]
fn correct_pattern_too_long_is_no_op() {
    let mut list = WordleWords::new(sample());
    let result = list.correct_letters("aaaaaa");
    assert_eq!(result, Err(PatternLengthError));
    assert_eq!(list.get_word_list(), &sample());
}

#[test]
fn incorrect_pattern_too_short_is_no_op() {
    let mut list = WordleWords::new(sample());
    let result = list.incorrect_letters("");
    assert_eq!(result, Err(PatternLengthError));
    assert_eq!(list.get_word_list(), &sample());
}

#[test]
fn incorrect_pattern_too_long_is_no_op() {
    let mut list = WordleWords::new(sample());
    let result = list.incorrect_letters("ab.cde");
    assert_eq!(result, Err(PatternLengthError));
    assert_eq!(list.get_word_list(), &sample());
}

#[test]
fn remove_is_set_based() {
    let mut first = WordleWords::new(vec![
        String::from("aaaaa"),
        String::from("bbbbb"),
        String::from("ccccc"),
        String::from("cabcc"),
    ]);
    let mut second = WordleWords::new(vec![
        String::from("aaaaa"),
        String::from("bbbbb"),
        String::from("ccccc"),
        String::from("cabcc"),
    ]);
    first.remove_letters("ab");
    second.remove_letters("ba");
    assert_eq!(first.get_word_list(), second.get_word_list());
}

#[test]
fn remove_repeated_letters_have_no_extra_effect() {
    let mut first = WordleWords::new(sample());
    let mut second = WordleWords::new(sample());
    first.remove_letters("a");
    second.remove_letters("aaa");
    assert_eq!(first.get_word_list(), second.get_word_list());
}

#[test]
fn remove_empty_string_keeps_everything() {
    let mut list = WordleWords::new(sample());
    list.remove_letters("");
    assert_eq!(list.get_word_list(), &sample());
}

#[test]
fn filters_preserve_order_and_duplicates() {
    let mut list = WordleWords::new(vec![
        String::from("abcde"),
        String::from("bbbbb"),
        String::from("abcde"),
        String::from("ccccc"),
        String::from("aabba"),
    ]);
    list.remove_letters("c");
    let result = list.get_word_list();
    assert_eq!(result.len(), 2);
    assert_eq!("bbbbb", result[0]);
    assert_eq!("aabba", result[1]);
}

#[test]
fn duplicates_survive_together() {
    let mut list = WordleWords::new(vec![
        String::from("abcde"),
        String::from("bbbbb"),
        String::from("abcde"),
    ]);
    list.correct_letters("a....").unwrap();
    let result = list.get_word_list();
    assert_eq!(result.len(), 2);
    assert_eq!("abcde", result[0]);
    assert_eq!("abcde", result[1]);
}

#[test]
fn filter_sequence_then_reset_restores_original() {
    let v = vec![
        String::from("aaaaa"),
        String::from("bbbbb"),
        String::from("ccccc"),
        String::from("bbbbc"),
        String::from("bbcdb"),
    ];
    let mut list = WordleWords::new(v.clone());
    list.remove_letters("a");
    list.correct_letters("bb...").unwrap();
    list.incorrect_letters("....b").unwrap();
    {
        let result = list.get_word_list();
        assert_eq!(result.len(), 1);
        assert_eq!("bbbbc", result[0]);
    }
    list.reset_list();
    assert_eq!(list.get_word_list(), &v);
}

#[test]
fn reset_is_idempotent() {
    let mut list = WordleWords::new(sample());
    list.remove_letters("ab");
    list.reset_list();
    list.reset_list();
    assert_eq!(list.get_word_list(), &sample());
}

#[test]
fn filters_never_grow_the_list() {
    let mut list = WordleWords::new(sample());
    let before = list.get_word_list().len();
    list.incorrect_letters(".b...").unwrap();
    let after = list.get_word_list().len();
    assert!(after <= before);
}

#[test]
fn incorrect_rejects_letter_at_marked_position_despite_other_occurrences() {
    let mut list = WordleWords::new(vec![
        String::from("aabbb"),
        String::from("abbba"),
    ]);
    list.incorrect_letters(".a...").unwrap();
    let result = list.get_word_list();
    assert_eq!(result.len(), 1);
    assert_eq!("abbba", result[0]);
}

#[test]
fn incorrect_requires_letter_somewhere_in_word() {
    let mut list = WordleWords::new(vec![
        String::from("bbabb"),
        String::from("ccccc"),
    ]);
    list.incorrect_letters(".a...").unwrap();
    let result = list.get_word_list();
    assert_eq!(result.len(), 1);
    assert_eq!("bbabb", result[0]);
}
