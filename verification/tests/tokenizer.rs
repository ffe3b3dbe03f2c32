use name_similarity::text::{chars_of, split_words};
use name_similarity::tokens::{is_valid_width, tokenize, TokenSet};

fn sorted_tokens(set: &TokenSet) -> Vec<String> {
    let mut list: Vec<String> = set.tokens().clone();
    list.sort();
    list
}

#[test]
fn unigrams_of_a_name() {
    let set = tokenize("a-b_c.txt", 1);
    assert_eq!(sorted_tokens(&set), vec!["a", "b", "c", "txt"]);
}

#[test]
fn bigrams_of_a_name() {
    let set = tokenize("a-b_c.txt", 2);
    assert_eq!(sorted_tokens(&set), vec!["a.b", "b.c", "c.txt"]);
}

#[test]
fn trigrams_of_a_name() {
    let set = tokenize("a-b_c.txt", 3);
    assert_eq!(sorted_tokens(&set), vec!["a.b.c", "b.c.txt"]);
}

#[test]
fn four_grams_of_a_name() {
    let set = tokenize("a-b_c.txt", 4);
    assert_eq!(sorted_tokens(&set), vec!["a.b.c.txt"]);
}

#[test]
fn tokens_keep_the_order_of_the_windows() {
    let set = tokenize("a-b_c.txt", 2);
    assert_eq!(set.tokens(), &vec!["a.b".to_string(), "b.c".to_string(), "c.txt".to_string()]);
}

#[test]
fn tokenizing_twice_gives_the_same_set() {
    for width in 1..=4 {
        let first = tokenize("My-Report_v2.final.pdf", width);
        let second = tokenize("My-Report_v2.final.pdf", width);
        assert_eq!(first.tokens(), second.tokens());
    }
}

#[test]
fn words_are_lowercased() {
    let set = tokenize("My-Report_v2.final.pdf", 1);
    assert_eq!(sorted_tokens(&set), vec!["final", "my", "pdf", "report", "v2"]);
}

#[test]
fn words_are_split_at_every_separator() {
    assert_eq!(split_words("My-Report_v2.final.pdf"), vec!["my", "report", "v2", "final", "pdf"]);
    assert_eq!(split_words("one two\tthree"), vec!["one", "two", "three"]);
    assert_eq!(split_words("plain"), vec!["plain"]);
}

#[test]
fn repeated_separators_leave_no_empty_word() {
    assert_eq!(split_words("a--b"), vec!["a", "b"]);
    assert_eq!(split_words(".hidden"), vec!["hidden"]);
    assert_eq!(split_words("trailing."), vec!["trailing"]);
    assert_eq!(sorted_tokens(&tokenize("a--b", 2)), vec!["a.b"]);
}

#[test]
fn a_name_without_words_has_no_tokens() {
    assert!(split_words("").is_empty());
    assert!(split_words("---").is_empty());
    for width in 1..=4 {
        assert_eq!(tokenize("-_.-", width).len(), 0);
        assert!(tokenize("", width).is_empty());
    }
}

#[test]
fn fewer_words_than_the_width_give_no_tokens() {
    assert_eq!(tokenize("abc", 2).len(), 0);
    assert_eq!(tokenize("a.b", 3).len(), 0);
    assert_eq!(tokenize("a.b.c", 4).len(), 0);
    assert_eq!(tokenize("a.b.c", 3).len(), 1);
}

#[test]
fn repeated_tokens_collapse() {
    let set = tokenize("a-a-a-a", 2);
    assert_eq!(sorted_tokens(&set), vec!["a.a"]);
    let set = tokenize("x_y_x_y", 1);
    assert_eq!(sorted_tokens(&set), vec!["x", "y"]);
}

#[test]
fn letters_and_digits_of_any_script_are_word_characters() {
    assert_eq!(split_words("ÄÖ-Straße.TXT"), vec!["äö", "straße", "txt"]);
    assert_eq!(split_words("год2024_отчёт"), vec!["год2024", "отчёт"]);
}

#[test]
fn lowercase_looks_at_the_whole_word() {
    assert_eq!(split_words("ΟΔΟΣ"), vec!["οδος"]);
}

#[test]
fn characters_come_out_in_order() {
    assert_eq!(chars_of("aé-1"), vec!['a', 'é', '-', '1']);
    assert!(chars_of("").is_empty());
}

#[test]
fn widths_from_one_to_four_are_valid() {
    assert!(!is_valid_width(0));
    assert!(is_valid_width(1));
    assert!(is_valid_width(2));
    assert!(is_valid_width(3));
    assert!(is_valid_width(4));
    assert!(!is_valid_width(5));
}

#[test]
fn a_token_set_holds_each_token_once() {
    let mut set = TokenSet::new();
    assert!(set.is_empty());
    assert!(set.insert("a".to_string()));
    assert!(set.insert("b".to_string()));
    assert!(!set.insert("a".to_string()));
    assert_eq!(set.len(), 2);
    assert!(set.contains("a"));
    assert!(set.contains("b"));
    assert!(!set.contains("c"));
    assert!(!set.is_empty());
    assert_eq!(set.tokens(), &vec!["a".to_string(), "b".to_string()]);
}

#[test]
fn common_counts_the_shared_tokens() {
    let a = tokenize("report_final.txt", 1);
    let b = tokenize("report_v2.txt", 1);
    let c = tokenize("invoice.pdf", 1);
    let none = tokenize("...", 1);
    assert_eq!(a.common(&b), 2);
    assert_eq!(b.common(&a), 2);
    assert_eq!(a.common(&c), 0);
    assert_eq!(a.common(&a), 3);
    assert_eq!(a.common(&none), 0);
    assert_eq!(none.common(&a), 0);
    let long = tokenize("report.final.txt.and.more", 1);
    assert_eq!(a.common(&long), 3);
    assert_eq!(long.common(&a), 3);
}
