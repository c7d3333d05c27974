use std::sync::Arc;

use bookdb::book::{text_contains, title_matches, title_matches_folded, Book};
use bookdb::database::{Database, DecodeError};
use bookdb::store::{open_snapshot, settle, PersistError};
use bookdb::table::{Record, Table, TableError};

fn book(id: usize, title: &str, author: &str, price: f64) -> Book {
    Book::new(id, title, author, price.to_bits())
}

fn same(a: &Book, b: &Book) -> bool {
    a.id == b.id && a.title == b.title && a.author == b.author && a.price_bits == b.price_bits
}

fn ids(db: &Database) -> Vec<usize> {
    db.books.values().iter().map(|b| b.id).collect()
}

fn dune_db() -> Database {
    let mut db = Database::new();
    assert_eq!(db.add_book(book(1, "Dune", "Herbert", 15.0)), Ok(()));
    db
}

#[test]
fn insert_then_get_and_search() {
    let db = dune_db();
    let got = db.get_book(1).unwrap();
    assert!(same(&got, &book(1, "Dune", "Herbert", 15.0)));
    assert_eq!(f64::from_bits(got.price_bits), 15.0);
    let found = db.search_book("dun");
    assert_eq!(found.len(), 1);
    assert!(same(&found[0], &book(1, "Dune", "Herbert", 15.0)));
}

#[test]
fn replace_returns_old_record() {
    let mut db = dune_db();
    let old = db.edit_book(1, book(1, "Dune Messiah", "Herbert", 15.0)).unwrap();
    assert!(same(&old, &book(1, "Dune", "Herbert", 15.0)));
    assert_eq!(db.get_book(1).unwrap().title, "Dune Messiah");
    assert_eq!(db.books.len(), 1);
}

#[test]
fn remove_absent_key_is_not_found() {
    let mut db = dune_db();
    assert!(matches!(db.delete_book(2), Err(TableError::NotFound)));
    assert_eq!(ids(&db), vec![1]);
}

#[test]
fn persisted_bytes_reopen_with_both_records() {
    let mut db = Database::new();
    db.add_book(book(1, "Dune", "Herbert", 15.0)).unwrap();
    db.add_book(book(2, "Solaris", "Lem", 9.5)).unwrap();
    let bytes = db.to_bytes();
    let back = open_snapshot(Some(&bytes)).unwrap();
    assert_eq!(ids(&back), vec![1, 2]);
    assert!(same(&back.get_book(1).unwrap(), &book(1, "Dune", "Herbert", 15.0)));
    assert!(same(&back.get_book(2).unwrap(), &book(2, "Solaris", "Lem", 9.5)));
}

#[test]
fn round_trip_keeps_every_field() {
    let mut db = Database::new();
    db.add_book(book(7, "Der Zauberberg", "Mann", 12.25)).unwrap();
    db.add_book(book(3, "", "", 0.0)).unwrap();
    db.add_book(book(usize::MAX, "Ça — 日本語", "Ünïcödé", -1.5)).unwrap();
    let back = Database::from_bytes(&db.to_bytes()).unwrap();
    assert_eq!(ids(&back), ids(&db));
    for (a, b) in back.books.values().iter().zip(db.books.values().iter()) {
        assert!(same(a, b));
    }
    assert_eq!(back.to_bytes(), db.to_bytes());
}

#[test]
fn empty_database_bytes() {
    let bytes = Database::new().to_bytes();
    assert_eq!(bytes, vec![0x42, 0x4b, 0x44, 0x42, 0, 0, 0, 0, 0, 0, 0, 0]);
    let back = Database::from_bytes(&bytes).unwrap();
    assert_eq!(back.books.len(), 0);
}

#[test]
fn record_bytes_layout() {
    let mut db = Database::new();
    db.add_book(Book::new(2, "ab", "c", 5)).unwrap();
    let mut want = vec![0x42, 0x4b, 0x44, 0x42, 1, 0, 0, 0, 0, 0, 0, 0];
    want.extend_from_slice(&[2, 0, 0, 0, 0, 0, 0, 0]);
    want.extend_from_slice(&[2, 0, 0, 0, 0, 0, 0, 0, b'a', b'b']);
    want.extend_from_slice(&[1, 0, 0, 0, 0, 0, 0, 0, b'c']);
    want.extend_from_slice(&[5, 0, 0, 0, 0, 0, 0, 0]);
    assert_eq!(db.to_bytes(), want);
}

#[test]
fn duplicate_insert_conflicts_and_keeps_table() {
    let mut db = dune_db();
    assert_eq!(db.add_book(book(1, "Other", "Someone", 1.0)), Err(TableError::KeyConflict));
    assert_eq!(ids(&db), vec![1]);
    assert_eq!(db.get_book(1).unwrap().title, "Dune");
}

#[test]
fn replace_absent_key_is_not_found() {
    let mut db = dune_db();
    let before = db.to_bytes();
    assert!(matches!(db.edit_book(5, book(5, "X", "Y", 1.0)), Err(TableError::NotFound)));
    assert_eq!(db.to_bytes(), before);
}

#[test]
fn replace_onto_taken_key_conflicts() {
    let mut db = dune_db();
    db.add_book(book(2, "Solaris", "Lem", 9.5)).unwrap();
    assert!(matches!(db.edit_book(1, book(2, "X", "Y", 1.0)), Err(TableError::KeyConflict)));
    assert_eq!(ids(&db), vec![1, 2]);
}

#[test]
fn replace_may_move_to_free_key() {
    let mut db = dune_db();
    db.add_book(book(2, "Solaris", "Lem", 9.5)).unwrap();
    let old = db.edit_book(1, book(9, "Dune", "Herbert", 15.0)).unwrap();
    assert_eq!(old.id, 1);
    assert_eq!(ids(&db), vec![9, 2]);
    assert!(db.get_book(1).is_none());
}

#[test]
fn upsert_overwrites_or_appends() {
    let mut db = dune_db();
    assert!(db.upsert_book(book(2, "Solaris", "Lem", 9.5)).is_none());
    let prev = db.upsert_book(book(1, "Dune II", "Herbert", 16.0)).unwrap();
    assert_eq!(prev.title, "Dune");
    assert_eq!(ids(&db), vec![1, 2]);
    assert_eq!(db.get_book(1).unwrap().title, "Dune II");
}

#[test]
fn remove_present_key() {
    let mut db = dune_db();
    db.add_book(book(2, "Solaris", "Lem", 9.5)).unwrap();
    let gone = db.delete_book(1).unwrap();
    assert_eq!(gone.title, "Dune");
    assert_eq!(ids(&db), vec![2]);
}

#[test]
fn search_ignores_case_and_keeps_order() {
    let mut db = Database::new();
    db.add_book(book(3, "The Hobbit", "Tolkien", 8.0)).unwrap();
    db.add_book(book(1, "Dune", "Herbert", 15.0)).unwrap();
    db.add_book(book(2, "HOBBITS and more", "Anon", 2.0)).unwrap();
    let found: Vec<usize> = db.search_book("hoBBit").iter().map(|b| b.id).collect();
    assert_eq!(found, vec![3, 2]);
    assert!(db.search_book("zzz").is_empty());
    assert_eq!(db.search_book("").len(), 3);
}

#[test]
fn title_match_folds_case() {
    let b = book(1, "Dune", "Herbert", 15.0);
    assert!(title_matches(&b, "DUN"));
    assert!(!title_matches(&b, "dunes"));
    assert!(title_matches_folded("un", "dune"));
    assert!(!title_matches_folded("UN", "dune"));
}

#[test]
fn text_contains_cases() {
    assert!(text_contains("abcabd", "abd"));
    assert!(!text_contains("abcab", "abd"));
    assert!(text_contains("", ""));
    assert!(!text_contains("ab", "abc"));
    assert!(text_contains("日本語", "本"));
}

#[test]
fn table_of_books_directly() {
    let mut t: Table<Book> = Table::new();
    assert_eq!(t.insert(book(4, "A", "B", 1.0)), Ok(()));
    assert!(t.contains_key(4));
    assert!(!t.contains_key(5));
    assert_eq!(t.get(4).unwrap().primary_key(), 4);
    assert!(t.get(5).is_none());
    assert_eq!(t.replace(5, book(5, "C", "D", 1.0)).err(), Some(TableError::NotFound));
    assert_eq!(t.remove(4).unwrap().id, 4);
    assert_eq!(t.len(), 0);
}

#[test]
fn decode_rejects_bad_input() {
    let mut db = dune_db();
    db.add_book(book(2, "Solaris", "Lem", 9.5)).unwrap();
    let good = db.to_bytes();
    assert_eq!(Database::from_bytes(&good[..good.len() - 1]).err(), Some(DecodeError));
    let mut tail = good.clone();
    tail.push(0);
    assert_eq!(Database::from_bytes(&tail).err(), Some(DecodeError));
    let mut tag = good.clone();
    tag[0] = b'X';
    assert_eq!(Database::from_bytes(&tag).err(), Some(DecodeError));
    assert_eq!(Database::from_bytes(&[]).err(), Some(DecodeError));
    assert_eq!(Database::from_bytes(b"{}").err(), Some(DecodeError));
}

#[test]
fn decode_rejects_repeated_id() {
    let mut a = Database::new();
    a.add_book(Book::new(1, "x", "y", 0)).unwrap();
    let one = a.to_bytes();
    let mut two = vec![0x42, 0x4b, 0x44, 0x42, 2, 0, 0, 0, 0, 0, 0, 0];
    two.extend_from_slice(&one[12..]);
    two.extend_from_slice(&one[12..]);
    assert_eq!(Database::from_bytes(&two).err(), Some(DecodeError));
}

#[test]
fn decode_rejects_invalid_utf8() {
    let mut a = Database::new();
    a.add_book(Book::new(1, "x", "y", 0)).unwrap();
    let mut bytes = a.to_bytes();
    // the title's single byte sits after the tag, count, id and title length
    bytes[12 + 8 + 8] = 0xff;
    assert_eq!(Database::from_bytes(&bytes).err(), Some(DecodeError));
}

#[test]
fn open_without_file_is_empty() {
    let db = open_snapshot(None).unwrap();
    assert_eq!(db.books.len(), 0);
    assert!(open_snapshot(Some(&[1, 2, 3])).is_err());
}

#[test]
fn failed_write_keeps_snapshot() {
    let current = Arc::new(dune_db());
    let before = current.to_bytes();
    let mut candidate = current.copy();
    candidate.add_book(book(2, "Solaris", "Lem", 9.5)).unwrap();
    let (snap, res) = settle(current.clone(), candidate, false);
    assert_eq!(res, Err(PersistError::WriteFailed));
    assert!(Arc::ptr_eq(&snap, &current));
    assert_eq!(snap.to_bytes(), before);
}

#[test]
fn successful_write_installs_candidate() {
    let current = Arc::new(dune_db());
    let mut candidate = current.copy();
    candidate.add_book(book(2, "Solaris", "Lem", 9.5)).unwrap();
    let (snap, res) = settle(current.clone(), candidate, true);
    assert_eq!(res, Ok(()));
    assert_eq!(ids(&snap), vec![1, 2]);
    assert_eq!(ids(&current), vec![1]);
}

#[test]
fn copy_is_independent() {
    let db = dune_db();
    let mut c = db.copy();
    c.delete_book(1).unwrap();
    assert_eq!(ids(&db), vec![1]);
    assert_eq!(c.books.len(), 0);
}
