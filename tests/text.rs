use indiescraper::declutter::{analyze_text_frequency, frequency_of_lowered, weighted_text};
use indiescraper::indexing::{chunk_text, chunk_type_tag, index_plan, CHUNK_SIZE};

fn count(table: &[(String, usize)], w: &str) -> Option<usize> {
    table.iter().find(|(k, _)| k == w).map(|(_, c)| *c)
}

#[test]
fn counts_words_after_cleaning() {
    let t = analyze_text_frequency("The quick brown fox, the QUICK dog!");
    assert_eq!(count(&t, "quick"), Some(2));
    assert_eq!(count(&t, "brown"), Some(1));
    assert_eq!(count(&t, "fox"), Some(1));
    assert_eq!(count(&t, "dog"), Some(1));
    assert_eq!(count(&t, "the"), None);
    assert_eq!(t.len(), 4);
}

#[test]
fn stop_words_and_short_words_are_dropped() {
    assert!(analyze_text_frequency("a an it is we their those ab xy").is_empty());
    assert!(analyze_text_frequency("").is_empty());
    assert!(analyze_text_frequency("   \n\t ").is_empty());
}

#[test]
fn edges_are_trimmed_of_non_letters() {
    let t = analyze_text_frequency("--hello-- (world) 42abc9 1234");
    assert_eq!(count(&t, "hello"), Some(1));
    assert_eq!(count(&t, "world"), Some(1));
    assert_eq!(count(&t, "abc"), Some(1));
    assert_eq!(t.len(), 3);
}

#[test]
fn length_is_counted_in_bytes() {
    let t = frequency_of_lowered("né ok");
    assert_eq!(count(&t, "né"), Some(1));
    assert_eq!(count(&t, "ok"), None);
}

#[test]
fn every_word_listed_once() {
    let t = analyze_text_frequency("echo echo ECHO Echo");
    assert_eq!(t, vec![("echo".to_string(), 4)]);
}

#[test]
fn weighted_text_repeats_words() {
    let t = vec![("quick".to_string(), 2), ("dog".to_string(), 1), ("none".to_string(), 0)];
    assert_eq!(weighted_text(&t), "quick quick dog");
    assert_eq!(weighted_text(&Vec::new()), "");
}

#[test]
fn chunks_of_five_hundred_characters() {
    let text: String = "a".repeat(1200);
    let c = chunk_text(&text, CHUNK_SIZE);
    assert_eq!(c.iter().map(|s| s.chars().count()).collect::<Vec<_>>(), vec![500, 500, 200]);
    assert!(chunk_text("", CHUNK_SIZE).is_empty());
    assert_eq!(chunk_text(&"b".repeat(500), CHUNK_SIZE).len(), 1);
    assert_eq!(chunk_text("abcdefg", 3), vec!["abc".to_string(), "def".to_string(), "g".to_string()]);
}

#[test]
fn chunks_count_characters_not_bytes() {
    let c = chunk_text("ééé", 2);
    assert_eq!(c, vec!["éé".to_string(), "é".to_string()]);
}

#[test]
fn chunk_tags() {
    assert_eq!(chunk_type_tag(0), "raw_text_chunk_0");
    assert_eq!(chunk_type_tag(12), "raw_text_chunk_12");
    assert_eq!(chunk_type_tag(305), "raw_text_chunk_305");
}

#[test]
fn index_plan_lists_fields_then_chunks() {
    let raw = "x".repeat(600);
    let plan = index_plan(&Some("Title".to_string()), &Some(String::new()), &raw);
    let tags: Vec<&str> = plan.iter().map(|e| e.field_type.as_str()).collect();
    assert_eq!(tags, vec!["title", "raw_text_chunk_0", "raw_text_chunk_1"]);
    assert_eq!(plan[0].text, "Title");
    assert_eq!(plan[2].text.len(), 100);
    let empty = index_plan(&None, &Some("About me".to_string()), "");
    assert_eq!(empty.len(), 1);
    assert_eq!(empty[0].field_type, "description");
}
