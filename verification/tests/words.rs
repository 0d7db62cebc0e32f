use std::collections::HashMap;
use streamchat::hello::greeting;
use streamchat::wordfreq::{count_words, rank_words};

fn ranking(pairs: &[(&str, u64)]) -> Vec<(String, u64)> {
    pairs.iter().map(|&(w, c)| (w.to_string(), c)).collect()
}

fn reference(text: &str, min_length: usize, ignore_case: bool) -> Vec<(String, u64)> {
    let text = if ignore_case { text.to_lowercase() } else { text.to_string() };
    let mut freq: HashMap<String, u64> = HashMap::new();
    text.split(|c: char| !c.is_alphanumeric())
        .filter(|w| !w.is_empty())
        .filter(|w| w.chars().count() >= min_length)
        .for_each(|w| {
            *freq.entry(w.to_string()).or_insert(0) += 1;
        });
    let mut items: Vec<(String, u64)> = freq.into_iter().collect();
    items.sort_by(|(wa, ca), (wb, cb)| cb.cmp(ca).then_with(|| wa.cmp(wb)));
    items
}

#[test]
fn greeting_plain_and_upper() {
    assert_eq!(greeting("World", false), "Hello, World!");
    assert_eq!(greeting("Bob", true), "HELLO, BOB!");
    assert_eq!(greeting("", false), "Hello, !");
    assert_eq!(greeting("straße", true), "HELLO, STRASSE!");
}

#[test]
fn words_are_ranked_by_count_then_by_name() {
    assert_eq!(
        rank_words("the cat and the hat and the bat", 1),
        ranking(&[("the", 3), ("and", 2), ("bat", 1), ("cat", 1), ("hat", 1)])
    );
    assert_eq!(rank_words("", 1), ranking(&[]));
    assert_eq!(rank_words(" ,.;-- ", 1), ranking(&[]));
    assert_eq!(rank_words("a", 1), ranking(&[("a", 1)]));
}

#[test]
fn words_are_cut_at_anything_but_letters_and_digits() {
    assert_eq!(
        rank_words("hello-world, hello_world! it's 42", 1),
        ranking(&[("hello", 2), ("world", 2), ("42", 1), ("it", 1), ("s", 1)])
    );
    assert_eq!(rank_words("naïve café", 1), ranking(&[("café", 1), ("naïve", 1)]));
}

#[test]
fn short_words_are_left_out() {
    assert_eq!(
        rank_words("a bb ccc bb a dddd", 2),
        ranking(&[("bb", 2), ("ccc", 1), ("dddd", 1)])
    );
    assert_eq!(rank_words("a bb ccc", 4), ranking(&[]));
    // A length of nothing asks for nothing more than a word.
    assert_eq!(rank_words("a  b", 0), ranking(&[("a", 1), ("b", 1)]));
    // Length is counted in characters.
    assert_eq!(rank_words("éé e", 2), ranking(&[("éé", 1)]));
}

#[test]
fn case_counts_unless_ignored() {
    assert_eq!(
        count_words("The the THE", 1, false),
        ranking(&[("THE", 1), ("The", 1), ("the", 1)])
    );
    assert_eq!(count_words("The the THE", 1, true), ranking(&[("the", 3)]));
}

#[test]
fn words_in_dictionary_order_by_code_point() {
    assert_eq!(
        rank_words("b a ab B Z z é aa", 1),
        ranking(&[
            ("B", 1),
            ("Z", 1),
            ("a", 1),
            ("aa", 1),
            ("ab", 1),
            ("b", 1),
            ("z", 1),
            ("é", 1)
        ])
    );
}

#[test]
fn ranking_agrees_with_a_hash_map_and_a_sort() {
    let texts = [
        "It was the best of times, it was the worst of times, it was the age of wisdom",
        "one two two three three three four four four four",
        "Ünïcödé wörds ünïcödé WÖRDS 123 123 abc-123",
        "a a a b b c  d\td\nd\re",
        "x",
        "",
    ];
    for text in texts {
        for min_length in 0usize..4 {
            for ignore_case in [false, true] {
                assert_eq!(
                    count_words(text, min_length, ignore_case),
                    reference(text, min_length, ignore_case),
                    "{text:?} {min_length} {ignore_case}"
                );
            }
        }
    }
}
