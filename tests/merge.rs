use en_ja_dictionary::ej_dict::{
    decode_rows, delete_params, lookup_args, merge_results, resolve_db_path, upsert_params, DictEntry, DictionaryItem,
    SqlParam, DEFAULT_DB_PATH,
};

fn entry(word: &str, mean: &str, level: u32) -> DictEntry {
    DictEntry { word: word.to_string(), mean: Some(mean.to_string()), level }
}

#[test]
fn exact_match_ranks_first() {
    let bundled = vec![entry("run", "走る", 5), entry("running", "走っている", 9)];
    let r = merge_results(&"run".to_string(), &bundled, &vec![]);
    assert_eq!(r.len(), 2);
    assert_eq!(r[0].word, "run");
    assert_eq!(r[0].level, 5);
    assert_eq!(r[1].word, "running");
}

#[test]
fn at_most_three_rows() {
    let bundled = vec![
        entry("ab1", "m1", 1),
        entry("ab2", "m2", 2),
        entry("ab3", "m3", 3),
        entry("ab4", "m4", 4),
    ];
    let user = vec![entry("ab5", "u5", 5), entry("ab6", "u6", 0)];
    let r = merge_results(&"ab".to_string(), &bundled, &user);
    assert_eq!(r.len(), 3);
    assert_eq!(r[0].word, "ab5");
    assert_eq!(r[0].user_mean, "u5");
    assert_eq!(r[0].mean, "");
    assert_eq!(r[1].word, "ab4");
    assert_eq!(r[2].word, "ab3");
}

#[test]
fn both_sources_collapse_into_one_row() {
    let bundled = vec![entry("Hoge", "bundled hoge", 2), entry("Hoge", "second", 7)];
    let user = vec![entry("Hoge", "hoge hoge", 4)];
    let r = merge_results(&"Hoge".to_string(), &bundled, &user);
    assert_eq!(r.len(), 1);
    assert_eq!(r[0].word, "Hoge");
    assert_eq!(r[0].mean, "second");
    assert_eq!(r[0].user_mean, "hoge hoge");
    assert_eq!(r[0].level, 7);
}

#[test]
fn matching_is_case_sensitive_substring() {
    let bundled = vec![entry("Cat", "猫", 3), entry("concatenate", "連結する", 1), entry("dog", "犬", 9)];
    let r = merge_results(&"cat".to_string(), &bundled, &vec![]);
    assert_eq!(r.len(), 1);
    assert_eq!(r[0].word, "concatenate");
    assert_eq!(r[0].mean, "連結する");
}

#[test]
fn no_match_is_empty() {
    let bundled = vec![entry("dog", "犬", 9)];
    assert!(merge_results(&"cat".to_string(), &bundled, &vec![]).is_empty());
    assert!(merge_results(&"cat".to_string(), &vec![], &vec![]).is_empty());
}

#[test]
fn exact_bonus_beats_highest_level() {
    let bundled = vec![entry("a", "あ", 0), entry("ab", "x", u32::MAX)];
    let r = merge_results(&"a".to_string(), &bundled, &vec![]);
    assert_eq!(r[0].word, "a");
    assert_eq!(r[1].word, "ab");
    assert_eq!(r[1].level, u32::MAX);
}

#[test]
fn decode_rows_defaults_missing_fields() {
    let rows = vec![
        (Some("word".to_string()), Some("mean".to_string()), Some(12)),
        (None, None, None),
        (Some("neg".to_string()), None, Some(-1)),
        (Some("big".to_string()), Some("m".to_string()), Some(5_000_000_000)),
    ];
    let e = decode_rows(&rows);
    assert_eq!(e.len(), 4);
    assert_eq!(e[0], DictEntry { word: "word".to_string(), mean: Some("mean".to_string()), level: 12 });
    assert_eq!(e[1], DictEntry { word: String::new(), mean: None, level: 0 });
    assert_eq!(e[2].level, 0);
    assert_eq!(e[3].level, 0);
}

#[test]
fn empty_path_resolves_to_default() {
    assert_eq!(resolve_db_path(""), DEFAULT_DB_PATH);
    assert_eq!(resolve_db_path(""), "./db/ejdict.sqlite3");
    assert_eq!(resolve_db_path("x.sqlite3"), "x.sqlite3");
}

#[test]
fn merged_definition_is_the_greatest_present() {
    let bundled = vec![entry("ab", "a", 1), entry("ab", "b", 2)];
    let r = merge_results(&"ab".to_string(), &bundled, &vec![]);
    assert_eq!(r.len(), 1);
    assert_eq!(r[0].mean, "b");
    let bundled = vec![entry("ab", "b", 1), entry("ab", "a", 2)];
    let r = merge_results(&"ab".to_string(), &bundled, &vec![]);
    assert_eq!(r[0].mean, "b");
    assert_eq!(r[0].level, 2);
    let bundled = vec![entry("ab", "ab", 1), entry("ab", "a", 1), entry("ab", "", 1)];
    let r = merge_results(&"ab".to_string(), &bundled, &vec![]);
    assert_eq!(r[0].mean, "ab");
}

#[test]
fn missing_definition_does_not_hide_a_present_one() {
    let bundled = vec![
        DictEntry { word: "cat".to_string(), mean: None, level: 9 },
        DictEntry { word: "cat".to_string(), mean: Some("猫".to_string()), level: 1 },
    ];
    let r = merge_results(&"cat".to_string(), &bundled, &vec![]);
    assert_eq!(r[0].mean, "猫");
    assert_eq!(r[0].user_mean, "");
    assert_eq!(r[0].level, 9);
    let only_missing = vec![DictEntry { word: "cat".to_string(), mean: None, level: 3 }];
    let r = merge_results(&"cat".to_string(), &vec![], &only_missing);
    assert_eq!(r[0].mean, "");
    assert_eq!(r[0].user_mean, "");
}

#[test]
fn equal_ranks_keep_storage_order() {
    let bundled = vec![entry("xa", "1", 4), entry("xb", "2", 4)];
    let user = vec![entry("xc", "3", 4), entry("xd", "4", 4)];
    let r = merge_results(&"x".to_string(), &bundled, &user);
    let words: Vec<&str> = r.iter().map(|i| i.word.as_str()).collect();
    assert_eq!(words, vec!["xa", "xb", "xc"]);
}

#[test]
fn bound_values_of_each_statement() {
    let item = DictionaryItem { word: "Hoge".into(), mean: "ignored".into(), level: 7, user_mean: "hoge hoge".into() };
    let p = upsert_params(item);
    assert_eq!(p.len(), 3);
    assert!(matches!(&p[0], SqlParam::Text(t) if t == "Hoge"));
    assert!(matches!(&p[1], SqlParam::Text(t) if t == "hoge hoge"));
    assert!(matches!(&p[2], SqlParam::Int(7)));
    let d = delete_params("hoge");
    assert_eq!(d.len(), 1);
    assert!(matches!(&d[0], SqlParam::Text(t) if t == "hoge"));
    assert_eq!(lookup_args("run"), vec!["run".to_string()]);
}

#[test]
fn item_display_line() {
    let item = DictionaryItem { word: "Hoge".into(), mean: "ほげ".into(), level: 1203, user_mean: "hoge hoge".into() };
    assert_eq!(item.to_display_string(), "word: Hoge, mean: ほげ, level: 1203, user_mean: hoge hoge");
    let empty = DictionaryItem::default();
    assert_eq!(empty.to_display_string(), "word: , mean: , level: 0, user_mean: ");
}
