use en_ja_dictionary::{is_delimiter, text_split};

fn strings(v: &[&str]) -> Vec<String> {
    v.iter().map(|s| s.to_string()).collect()
}

#[test]
fn lib_test_text_split() {
    let text = "aaa bbb, ccc. ddd.  , eee".to_string();
    let words = text_split(text);
    assert_eq!(words, ["aaa", "bbb", "ccc", "ddd", "eee"].into_iter().map(str::to_string).collect::<Vec<_>>());
    let text = "aaa \"bbb, ccc.\" ddd\".  , \"eee".to_string();
    let words = text_split(text);
    assert_eq!(words, ["aaa", "bbb, ccc.", "ddd", ".  , ", "eee"].into_iter().map(str::to_string).collect::<Vec<_>>());
}

#[test]
fn main_test_text_split() {
    let text = "aaa bbb, ccc. ddd.  , eee".to_string();
    let words = text_split(text);
    assert_eq!(words, ["aaa", "bbb", "ccc", "ddd", "eee"].into_iter().map(str::to_string).collect::<Vec<_>>());
    let text = "aaa \"bbb, ccc.\" ddd\".  , \"eee".to_string();
    let words = text_split(text);
    assert_eq!(words, ["aaa", "bbb, ccc.", "ddd", ".  , ", "eee"].into_iter().map(str::to_string).collect::<Vec<_>>());
}

#[test]
fn split_empty_and_delimiters_only() {
    assert_eq!(text_split(String::new()), Vec::<String>::new());
    assert_eq!(text_split("   ,,..".to_string()), Vec::<String>::new());
}

#[test]
fn split_tokens_are_never_empty() {
    for text in ["", "\"\"", "a\"\"b", " \" \" ", ",a,,b..", "\"", "x\"", "\"y"] {
        for t in text_split(text.to_string()) {
            assert!(!t.is_empty());
        }
    }
    assert_eq!(text_split("\" \"".to_string()), strings(&[" "]));
}

#[test]
fn split_rejoin_is_idempotent() {
    let tokens = text_split("the quick, brown fox. jumps  over,, the dog".to_string());
    assert_eq!(tokens, strings(&["the", "quick", "brown", "fox", "jumps", "over", "the", "dog"]));
    let again = text_split(tokens.join(" "));
    assert_eq!(again, tokens);
}

#[test]
fn split_unterminated_quote_keeps_rest() {
    assert_eq!(text_split("aa \"bb, cc".to_string()), strings(&["aa", "bb, cc"]));
}

#[test]
fn split_quote_does_not_merge_with_neighbours() {
    assert_eq!(text_split("ab\"c d\"ef".to_string()), strings(&["ab", "c d", "ef"]));
}

#[test]
fn split_keeps_duplicates_and_non_ascii() {
    assert_eq!(text_split("犬 犬,cat".to_string()), strings(&["犬", "犬", "cat"]));
}

#[test]
fn delimiter_characters() {
    assert!(is_delimiter(' '));
    assert!(is_delimiter(','));
    assert!(is_delimiter('.'));
    assert!(is_delimiter('"'));
    assert!(!is_delimiter('a'));
    assert!(!is_delimiter('-'));
}
