use en_ja_dictionary::ej_dict::{DictDB, DictError, DictionaryDb, DictionaryItem};

/// Makes a database file with a bundled `items` table holding `rows`.
fn prepare_db(path: &str, rows: &[(&str, &str, u32)]) {
    let conn = rusqlite::Connection::open(path).expect("cannot open the test database");
    conn.execute("CREATE TABLE IF NOT EXISTS items (word TEXT, mean TEXT, level INTEGER)", []).unwrap();
    conn.execute("DELETE FROM items", []).unwrap();
    conn.execute("DROP TABLE IF EXISTS user", []).unwrap();
    for (w, m, l) in rows {
        let sql = format!("INSERT INTO items (word, mean, level) VALUES ('{}', '{}', {})", w, m, l);
        conn.execute(&sql, []).unwrap();
    }
}

#[test]
fn test_upsert_delete() {
    let path = "/tmp/en_ja_dictionary_upsert_delete.sqlite3";
    prepare_db(path, &[]);
    let db = DictionaryDb::open_db(path).expect("データベースの読み込み失敗");
    let item = DictionaryItem {
        word: "Hoge".into(),
        user_mean: "hoge hoge".into(),
        ..Default::default()
    };
    db.upsert_word(item).expect("挿入失敗");
    let items = db.get_items("Hoge").expect("データ取得失敗");

    assert!(items.iter().any(|item| item.word == "Hoge" && item.user_mean == "hoge hoge"));

    db.delete_word("hoge").expect("データ削除失敗");

    let items = db.get_items("Hoge").expect("データ取得失敗");
    assert!(items.iter().all(|item| item.word != "Hoge" && item.user_mean != "hoge hoge"));
}

#[test]
fn store_ranks_exact_match_first() {
    let path = "/tmp/en_ja_dictionary_ranking.sqlite3";
    prepare_db(path, &[("run", "走る", 5), ("running", "走っている", 9), ("rerun", "再実行", 7), ("runner", "走者", 8)]);
    let db = DictionaryDb::open_db(path).expect("open");
    let items = db.get_items("run").expect("lookup");
    assert_eq!(items.len(), 3);
    assert_eq!(items[0].word, "run");
    assert_eq!(items[0].mean, "走る");
    assert_eq!(items[1].word, "running");
    assert_eq!(items[2].word, "runner");
}

#[test]
fn store_upsert_overwrites_and_merges() {
    let path = "/tmp/en_ja_dictionary_upsert.sqlite3";
    prepare_db(path, &[("cat", "猫", 3)]);
    let db = DictionaryDb::open_db(path).expect("open");
    let first = DictionaryItem { word: "cat".into(), user_mean: "first".into(), level: 1, ..Default::default() };
    db.upsert_word(first).expect("upsert");
    let second = DictionaryItem { word: "cat".into(), user_mean: "second".into(), level: 2, ..Default::default() };
    db.upsert_word(second).expect("upsert");
    let users = db.list_user_entries().expect("list");
    assert_eq!(users.len(), 1);
    assert_eq!(users[0].mean, Some("second".to_string()));
    assert_eq!(users[0].level, 2);
    let items = db.get_items("cat").expect("lookup");
    assert_eq!(items.len(), 1);
    assert_eq!(items[0].mean, "猫");
    assert_eq!(items[0].user_mean, "second");
    assert_eq!(items[0].level, 3);
}

#[test]
fn store_refuses_empty_definition() {
    let path = "/tmp/en_ja_dictionary_empty_mean.sqlite3";
    prepare_db(path, &[]);
    let db = DictionaryDb::open_db(path).expect("open");
    let item = DictionaryItem { word: "x".into(), ..Default::default() };
    assert_eq!(db.upsert_word(item), Err(DictError::QueryError));
    assert!(db.list_user_entries().expect("list").is_empty());
}

#[test]
fn store_delete_missing_word_is_ok() {
    let path = "/tmp/en_ja_dictionary_delete.sqlite3";
    prepare_db(path, &[]);
    let db = DictionaryDb::open_db(path).expect("open");
    assert_eq!(db.delete_word("nothing"), Ok(()));
}

#[test]
fn store_lookup_without_bundled_table_fails() {
    let path = "/tmp/en_ja_dictionary_no_items.sqlite3";
    let conn = rusqlite::Connection::open(path).unwrap();
    conn.execute("DROP TABLE IF EXISTS items", []).unwrap();
    drop(conn);
    let db = DictionaryDb::open_db(path).expect("open");
    assert!(matches!(db.get_items("a"), Err(DictError::QueryError)));
}

#[test]
fn open_invalid_path_fails_without_panic() {
    let r = DictionaryDb::open_db("/nonexistent_directory_for_dictionary/sub/dict.sqlite3");
    assert!(matches!(r, Err(DictError::StoreOpenError)));
}

#[test]
fn unopened_store_finds_nothing_and_refuses_changes() {
    let db = DictDB::from_open_result(DictionaryDb::open_db("/nonexistent_directory_for_dictionary/x.sqlite3"));
    assert!(matches!(db, DictDB::Unopened));
    assert!(db.get_dict_items("run").is_empty());
    let item = DictionaryItem { word: "a".into(), user_mean: "b".into(), ..Default::default() };
    assert_eq!(db.upsert_word(item), Err(DictError::StoreOpenError));
    assert_eq!(db.delete_word("a"), Err(DictError::StoreOpenError));
}

#[test]
fn opened_store_gives_items() {
    let path = "/tmp/en_ja_dictionary_opened.sqlite3";
    prepare_db(path, &[("dog", "犬", 4)]);
    let db = DictDB::from_open_result(DictionaryDb::open_db(path));
    assert!(matches!(db, DictDB::Opened(_)));
    let items = db.get_dict_items("dog");
    assert_eq!(items.len(), 1);
    assert_eq!(items[0].mean, "犬");
}
