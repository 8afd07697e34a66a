use dining_philosophers::frequency::{Count, FrequencyCounter};
use dining_philosophers::fruit::Fruit;
use dining_philosophers::tokenizer::TokenError;

fn count_of<'a>(entries: &'a [(String, usize)], word: &str) -> Option<usize> {
    entries.iter().find(|e| e.0 == word).map(|e| e.1)
}

#[test]
fn test_count_frequencies_counts_words() {
    let mut counter = FrequencyCounter::new("the quick fox and the slow fox");
    let frequencies = counter.count_frequencies();
    assert_eq!(count_of(&frequencies, "the"), Some(2));
    assert_eq!(count_of(&frequencies, "fox"), Some(2));
    assert_eq!(count_of(&frequencies, "quick"), Some(1));
    assert_eq!(count_of(&frequencies, "and"), Some(1));
    assert_eq!(count_of(&frequencies, "slow"), Some(1));
    assert_eq!(frequencies.len(), 5);
}

#[test]
fn test_count_frequencies_skips_stop_words() {
    let mut counter = FrequencyCounter::new("the quick fox and the slow fox");
    counter.read_stop_words("the , and");
    let frequencies = counter.count_frequencies();
    assert_eq!(count_of(&frequencies, "the"), None);
    assert_eq!(count_of(&frequencies, "and"), None);
    assert_eq!(count_of(&frequencies, "fox"), Some(2));
    assert_eq!(frequencies.len(), 3);
}

#[test]
fn test_count_frequencies_ignores_numbers_and_punctuation() {
    let mut counter = FrequencyCounter::new("one, 2 one! 2 2");
    let frequencies = counter.count_frequencies();
    assert_eq!(count_of(&frequencies, "one"), Some(2));
    assert_eq!(frequencies.len(), 1);
}

#[test]
fn test_count_frequencies_empty_input() {
    let mut counter = FrequencyCounter::new("");
    let frequencies = counter.count_frequencies();
    assert!(frequencies.is_empty());
}

#[test]
fn test_try_count_frequencies_reports_unparsable_number() {
    let mut counter = FrequencyCounter::new("word 99999999999999999999 word");
    assert_eq!(counter.try_count_frequencies(), Err(TokenError::UnparsableNumber));
}

#[test]
fn test_sort_frequencies_orders_by_count_then_word() {
    let mut counter = FrequencyCounter::new("pear apple pear cherry apple pear");
    let frequencies = counter.count_frequencies();
    let sorted = FrequencyCounter::sort_frequencies(&frequencies);
    assert_eq!(sorted.len(), 3);
    assert_eq!(sorted[0], Count::new("pear", 3));
    assert_eq!(sorted[1], Count::new("apple", 2));
    assert_eq!(sorted[2], Count::new("cherry", 1));
}

#[test]
fn test_sort_frequencies_ties_break_alphabetically() {
    let mut counter = FrequencyCounter::new("banana apple cherry");
    let frequencies = counter.count_frequencies();
    let sorted = FrequencyCounter::sort_frequencies(&frequencies);
    assert_eq!(sorted.len(), 3);
    assert_eq!(sorted[0], Count::new("apple", 1));
    assert_eq!(sorted[1], Count::new("banana", 1));
    assert_eq!(sorted[2], Count::new("cherry", 1));
}

#[test]
fn test_count_new() {
    let count = Count::new("nobody", 2);
    assert_eq!(count.word, "nobody");
    assert_eq!(count.count, 2);
}

#[test]
fn test_fruit_name_round_trip() {
    let fruit = Fruit::new("Pomegranate");
    assert_eq!(fruit.as_str(), "Pomegranate");
}
