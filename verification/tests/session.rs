use sdproxy::session::SessionTable;

#[test]
fn a_new_table_is_empty() {
    let table: SessionTable<u32> = SessionTable::new();
    assert_eq!(table.get("a"), None);
}

#[test]
fn an_open_session_is_found() {
    let mut table = SessionTable::new();
    table.insert("a".to_string(), 1);
    table.insert("b".to_string(), 2);
    assert_eq!(table.get("a"), Some(&1));
    assert_eq!(table.get("b"), Some(&2));
    assert_eq!(table.get(""), None);
}

#[test]
fn the_latest_session_takes_the_place_of_an_earlier_one() {
    let mut table = SessionTable::new();
    table.insert("a".to_string(), 1);
    table.insert("b".to_string(), 2);
    table.insert("a".to_string(), 3);
    assert_eq!(table.get("a"), Some(&3));
    assert_eq!(table.get("b"), Some(&2));
}

#[test]
fn a_closed_session_is_forgotten() {
    let mut table = SessionTable::new();
    table.insert("a".to_string(), 1);
    table.insert("b".to_string(), 2);
    table.remove("a");
    table.remove("c");
    assert_eq!(table.get("a"), None);
    assert_eq!(table.get("b"), Some(&2));
}
