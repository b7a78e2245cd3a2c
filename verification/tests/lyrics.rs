use prereq_scheduler::{
    compare_sounds, really_common, sound_codes, split_words, SoundOverlap, WordCounts,
    COMMON_COUNT, COMMON_LENGTH,
};

fn table(text: &str) -> WordCounts {
    let mut counts = WordCounts::new();
    counts.add_text(text);
    counts
}

fn strings(words: &[&str]) -> Vec<String> {
    words.iter().map(|w| w.to_string()).collect()
}

#[test]
fn split_words_lowers_and_splits_at_white_space() {
    assert_eq!(split_words("Hello World"), strings(&["hello", "world"]));
    assert_eq!(split_words("one\ttwo\nthree\rfour\x0Cfive six"), strings(&["one", "two", "three", "four", "five", "six"]));
}

#[test]
fn split_words_of_nothing_is_nothing() {
    assert_eq!(split_words(""), strings(&[]));
    assert_eq!(split_words("  \n\t "), strings(&[]));
    assert_eq!(split_words("123 !?"), strings(&[]));
}

#[test]
fn split_words_drops_what_is_no_letter_and_joins_around_it() {
    assert_eq!(split_words("Don't stop, believin'!"), strings(&["dont", "stop", "believin"]));
    assert_eq!(split_words("a1b 22 c-d"), strings(&["ab", "cd"]));
    assert_eq!(split_words("caf\u{e9} \u{c9}t\u{e9}"), strings(&["caf", "t"]));
}

#[test]
fn split_words_ignores_white_space_at_the_ends_and_in_runs() {
    assert_eq!(split_words("  la   la \n\n la  "), strings(&["la", "la", "la"]));
}

#[test]
fn split_words_keeps_white_space_that_is_no_break_inside_the_word() {
    assert_eq!(split_words("x\u{a0}y z"), strings(&["x\u{a0}y", "z"]));
    assert_eq!(split_words("a\u{b}b"), strings(&["a\u{b}b"]));
    assert_eq!(split_words("\u{2003}"), strings(&["\u{2003}"]));
}

#[test]
fn new_table_is_empty() {
    let counts = WordCounts::new();
    assert_eq!(counts.len(), 0);
    assert_eq!(counts.total(), 0);
    assert_eq!(counts.count("la"), 0);
    assert!(!counts.contains("la"));
    assert_eq!(counts.words(), &strings(&[]));
    assert_eq!(counts.letters(), Some(0));
}

#[test]
fn add_word_counts_once_more() {
    let mut counts = WordCounts::new();
    counts.add_word("yellow".to_string());
    counts.add_word("stars".to_string());
    counts.add_word("yellow".to_string());
    assert_eq!(counts.count("yellow"), 2);
    assert_eq!(counts.count("stars"), 1);
    assert_eq!(counts.count("sky"), 0);
    assert_eq!(counts.len(), 2);
    assert_eq!(counts.total(), 3);
    assert_eq!(counts.words(), &strings(&["yellow", "stars"]));
}

#[test]
fn add_text_counts_every_word() {
    let counts = table("Shake it off, shake it OFF! I shake");
    assert_eq!(counts.count("shake"), 3);
    assert_eq!(counts.count("it"), 2);
    assert_eq!(counts.count("off"), 2);
    assert_eq!(counts.count("i"), 1);
    assert_eq!(counts.count("Shake"), 0);
    assert_eq!(counts.len(), 4);
    assert_eq!(counts.total(), 8);
    assert_eq!(counts.words(), &strings(&["shake", "it", "off", "i"]));
}

#[test]
fn add_text_twice_adds_up() {
    let mut counts = table("fix you");
    counts.add_text("you fix you");
    counts.add_text("");
    assert_eq!(counts.count("fix"), 2);
    assert_eq!(counts.count("you"), 3);
    assert_eq!(counts.total(), 5);
    assert_eq!(counts.words(), &strings(&["fix", "you"]));
}

#[test]
fn contains_tells_words_of_the_table() {
    let counts = table("clocks");
    assert!(counts.contains("clocks"));
    assert!(!counts.contains("clock"));
    assert!(!counts.contains(""));
}

#[test]
fn letters_is_bytes_times_count() {
    assert_eq!(table("aa bbb aa").letters(), Some(7));
    assert_eq!(table("x\u{a0}y").letters(), Some(4));
    assert_eq!(table("").letters(), Some(0));
}

#[test]
fn common_words_has_the_counts_of_the_other_table() {
    let coldplay = table("yellow stars yellow sky");
    let taylor = table("stars love love stars stars");
    let common = coldplay.common_words(&taylor);
    assert_eq!(
        common,
        vec![
            ("yellow".to_string(), 0),
            ("stars".to_string(), 3),
            ("sky".to_string(), 0),
            ("love".to_string(), 2),
        ]
    );
}

#[test]
fn common_words_of_empty_tables() {
    let none = WordCounts::new();
    let some = table("la la");
    assert_eq!(none.common_words(&none), vec![]);
    assert_eq!(none.common_words(&some), vec![("la".to_string(), 2)]);
    assert_eq!(some.common_words(&none), vec![("la".to_string(), 0)]);
}

#[test]
fn really_common_needs_more_than_the_count_and_more_than_the_length() {
    assert_eq!(COMMON_COUNT, 100);
    assert_eq!(COMMON_LENGTH, 4);
    let common = vec![
        ("never".to_string(), 101),
        ("love".to_string(), 500),
        ("again".to_string(), 100),
        ("together".to_string(), 1000),
        ("x\u{a0}yz".to_string(), 101),
        ("shake".to_string(), 0),
    ];
    assert_eq!(really_common(&common), strings(&["never", "together", "x\u{a0}yz"]));
    assert_eq!(really_common(&vec![]), strings(&[]));
}

#[test]
fn really_common_words_of_two_tables() {
    let mut taylor = WordCounts::new();
    for _ in 0..101 {
        taylor.add_text("never ever love");
    }
    taylor.add_text("ever");
    let coldplay = table("never paradise");
    let common = coldplay.common_words(&taylor);
    assert_eq!(really_common(&common), strings(&["never"]));
    assert_eq!(taylor.count("ever"), 102);
}

#[test]
fn sound_codes_files_words_under_their_soundex_code() {
    let codes = sound_codes(&strings(&["Robert", "Rupert", "Rubin", "Ashcraft", "Tymczak", "Pfister"]));
    assert_eq!(codes.words(), &strings(&["R163", "R150", "A261", "T522", "P236"]));
    assert_eq!(codes.count("R163"), 2);
    assert_eq!(codes.count("R150"), 1);
    assert_eq!(codes.total(), 6);
    assert!(!codes.contains("Robert"));
}

#[test]
fn sound_codes_of_no_word() {
    let codes = sound_codes(&strings(&[]));
    assert_eq!(codes.len(), 0);
    assert_eq!(sound_codes(&strings(&[""])).words(), &strings(&["0000"]));
}

#[test]
fn compare_sounds_counts_shared_and_own_codes() {
    let coldplay = table("robert toto ashcraft");
    let taylor = table("rupert rubin toto touchstone heart");
    assert_eq!(
        compare_sounds(&coldplay, &taylor),
        SoundOverlap { shared: 2, only_first: 1, only_second: 3 }
    );
    assert_eq!(
        compare_sounds(&taylor, &coldplay),
        SoundOverlap { shared: 2, only_first: 3, only_second: 1 }
    );
}

#[test]
fn compare_sounds_counts_a_code_once() {
    let first = table("robert rupert robert");
    let second = table("rupert");
    assert_eq!(compare_sounds(&first, &second), SoundOverlap { shared: 1, only_first: 0, only_second: 0 });
}

#[test]
fn compare_sounds_of_empty_tables() {
    let none = WordCounts::new();
    let some = table("yellow");
    assert_eq!(compare_sounds(&none, &none), SoundOverlap { shared: 0, only_first: 0, only_second: 0 });
    assert_eq!(compare_sounds(&none, &some), SoundOverlap { shared: 0, only_first: 0, only_second: 1 });
    assert_eq!(compare_sounds(&some, &none), SoundOverlap { shared: 0, only_first: 1, only_second: 0 });
}
