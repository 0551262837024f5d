use tutorialdb::pager::{StorageFault, PAGE_SIZE};
use tutorialdb::row::{Row, ROW_SIZE};
use tutorialdb::table::{Cursor, ExecuteResult, Table};

fn row(id: u32) -> Row {
    Row::new(&format!("insert {} user_{} user_{}@mail.com", id, id, id)).unwrap()
}

fn insert(table: &mut Table, id: u32) -> ExecuteResult {
    table.find(id).insert(row(id))
}

fn ids(table: &mut Table) -> Vec<u32> {
    Cursor::table_start(table).select().iter().map(|row| row.id()).collect()
}

fn table_with(keys: &[u32]) -> Table {
    let mut table = Table::db_open(Vec::new()).unwrap();
    for key in keys {
        assert_eq!(insert(&mut table, *key), ExecuteResult::ExecuteSuccess);
    }
    table
}

#[test]
fn test_insert() {
    let mut table = Table::db_open(Vec::new()).unwrap();
    for i in 1..3 {
        let username = format!("user_{}", i);
        let email = format!("user_{}@mail.com", i);
        let insert = format!("insert {} {} {}\n", i, username, email);
        let row = Row::new(&insert).unwrap();
        assert_eq!(table.find(i).insert(row), ExecuteResult::ExecuteSuccess);
    }
    let rows = Cursor::table_start(&mut table).select();
    assert_eq!(rows.len(), 2);
    assert_eq!(rows[0].id(), 1);
    assert_eq!(rows[0].username(), b"user_1");
    assert_eq!(rows[0].email(), b"user_1@mail.com");
    assert_eq!(rows[1].id(), 2);
    assert_eq!(rows[1].username(), b"user_2");
    assert_eq!(rows[1].email(), b"user_2@mail.com");
    table.db_close();
}

#[test]
fn insert_one_row_and_select_it() {
    let mut table = Table::db_open(Vec::new()).unwrap();
    let row = Row::new("insert 1 alice a@x.com").unwrap();
    let result = table.find(1).insert(row);
    assert_eq!(result, ExecuteResult::ExecuteSuccess);
    let rows = Cursor::table_start(&mut table).select();
    assert_eq!(rows.len(), 1);
    assert_eq!(rows[0].id(), 1);
    assert_eq!(rows[0].username(), b"alice");
    assert_eq!(rows[0].email(), b"a@x.com");
}

#[test]
fn open_of_an_empty_file_gives_an_empty_table() {
    let mut table = Table::db_open(Vec::new()).unwrap();
    assert!(ids(&mut table).is_empty());
    assert_eq!(table.file().len(), 0);
    let cursor = Cursor::table_start(&mut table);
    assert_eq!(cursor.page_num(), 0);
    assert_eq!(cursor.cell_num(), 0);
    assert!(cursor.end_of_table());
}

#[test]
fn open_refuses_a_file_that_is_no_whole_number_of_pages() {
    assert_eq!(Table::db_open(vec![0u8; 100]).unwrap_err(), StorageFault::CorruptFile);
    assert_eq!(Table::db_open(vec![2u8; PAGE_SIZE + 1]).unwrap_err(), StorageFault::CorruptFile);
}

#[test]
fn open_refuses_a_root_that_is_no_leaf() {
    // A page of zeros has no tag of a leaf.
    assert_eq!(Table::db_open(vec![0u8; PAGE_SIZE]).unwrap_err(), StorageFault::CorruptLeaf);
    // The tag of an internal node.
    let mut file = vec![0u8; PAGE_SIZE];
    file[0] = 1;
    assert_eq!(Table::db_open(file).unwrap_err(), StorageFault::CorruptLeaf);
    // More cells than fit.
    let mut file = vec![0u8; PAGE_SIZE];
    file[0] = 2;
    file[6] = 14;
    assert_eq!(Table::db_open(file).unwrap_err(), StorageFault::CorruptLeaf);
    let mut file = vec![0u8; PAGE_SIZE];
    file[0] = 2;
    file[9] = 1;
    assert_eq!(Table::db_open(file).unwrap_err(), StorageFault::CorruptLeaf);
}

#[test]
fn open_takes_a_leaf_written_by_hand() {
    let mut file = vec![0u8; 2 * PAGE_SIZE];
    file[0] = 2;
    file[6] = 1;
    file[10] = 9;
    file[14] = 9;
    file[18..21].copy_from_slice(b"bob");
    file[50..53].copy_from_slice(b"b@y");
    let mut table = Table::db_open(file).unwrap();
    let rows = Cursor::table_start(&mut table).select();
    assert_eq!(rows.len(), 1);
    assert_eq!(rows[0].id(), 9);
    assert_eq!(rows[0].username(), b"bob");
    assert_eq!(rows[0].email(), b"b@y");
}

#[test]
fn thirteen_rows_fit_and_the_fourteenth_does_not() {
    let mut table = Table::db_open(Vec::new()).unwrap();
    for key in 1..=13 {
        assert_eq!(insert(&mut table, key), ExecuteResult::ExecuteSuccess);
    }
    assert_eq!(insert(&mut table, 14), ExecuteResult::ExecuteTableFull);
    assert_eq!(ids(&mut table), (1..=13).collect::<Vec<u32>>());
}

#[test]
fn a_full_table_is_full_for_any_key() {
    let mut table = table_with(&[10, 20, 30, 40, 50, 60, 70, 80, 90, 100, 110, 120, 130]);
    assert_eq!(insert(&mut table, 5), ExecuteResult::ExecuteTableFull);
    assert_eq!(insert(&mut table, 65), ExecuteResult::ExecuteTableFull);
    assert_eq!(insert(&mut table, 200), ExecuteResult::ExecuteTableFull);
    // A full table is full before the key is looked at.
    assert_eq!(insert(&mut table, 70), ExecuteResult::ExecuteTableFull);
    assert_eq!(ids(&mut table), vec![10, 20, 30, 40, 50, 60, 70, 80, 90, 100, 110, 120, 130]);
}

#[test]
fn the_same_key_twice_is_a_duplicate() {
    let mut table = Table::db_open(Vec::new()).unwrap();
    assert_eq!(insert(&mut table, 5), ExecuteResult::ExecuteSuccess);
    assert_eq!(insert(&mut table, 5), ExecuteResult::ExecuteDuplicateKey);
    assert_eq!(ids(&mut table), vec![5]);
}

#[test]
fn a_duplicate_leaves_the_page_as_it_is() {
    let mut table = table_with(&[3, 5, 7]);
    table.db_close();
    let before = table.file().clone();
    let other = Row::new("insert 5 someone else@where").unwrap();
    assert_eq!(table.find(5).insert(other), ExecuteResult::ExecuteDuplicateKey);
    let rows = Cursor::table_start(&mut table).select();
    assert_eq!(rows[1].username(), b"user_5");
    table.db_close();
    assert_eq!(table.file(), &before);
}

#[test]
fn any_present_key_is_a_duplicate() {
    let keys = [8u32, 1, 12, 4, 0, 9, 2];
    let mut table = table_with(&keys);
    for key in keys {
        assert_eq!(insert(&mut table, key), ExecuteResult::ExecuteDuplicateKey);
    }
    assert_eq!(ids(&mut table), vec![0, 1, 2, 4, 8, 9, 12]);
}

#[test]
fn the_key_zero_goes_into_an_empty_table() {
    let mut table = Table::db_open(Vec::new()).unwrap();
    assert_eq!(insert(&mut table, 0), ExecuteResult::ExecuteSuccess);
    assert_eq!(insert(&mut table, 0), ExecuteResult::ExecuteDuplicateKey);
    assert_eq!(ids(&mut table), vec![0]);
}

#[test]
fn rows_come_out_in_the_order_of_their_keys() {
    let mut table = table_with(&[50, 10, 40, 20, 30, 4294967295, 0]);
    assert_eq!(ids(&mut table), vec![0, 10, 20, 30, 40, 50, 4294967295]);
    let rows = Cursor::table_start(&mut table).select();
    for row in rows.iter() {
        assert_eq!(row.username(), format!("user_{}", row.id()).as_bytes());
        assert_eq!(row.email(), format!("user_{}@mail.com", row.id()).as_bytes());
    }
}

#[test]
fn keys_stay_in_order_after_every_insert() {
    let mut table = Table::db_open(Vec::new()).unwrap();
    let mut expected: Vec<u32> = Vec::new();
    for key in [7u32, 3, 11, 3, 1, 9, 7, 5, 13, 2, 12, 4, 6, 8, 10, 14] {
        let result = insert(&mut table, key);
        if expected.contains(&key) {
            assert_eq!(result, ExecuteResult::ExecuteDuplicateKey);
        } else if expected.len() == 13 {
            assert_eq!(result, ExecuteResult::ExecuteTableFull);
        } else {
            assert_eq!(result, ExecuteResult::ExecuteSuccess);
            expected.push(key);
            expected.sort();
        }
        let now = ids(&mut table);
        assert_eq!(now, expected);
        assert!(now.windows(2).all(|pair| pair[0] < pair[1]));
    }
    assert_eq!(expected.len(), 13);
}

#[test]
fn find_stops_at_the_cell_of_a_present_key() {
    let keys = [10u32, 20, 30, 40, 50, 60, 70];
    let mut table = table_with(&keys);
    for (index, key) in keys.iter().enumerate() {
        let cursor = table.find(*key);
        assert_eq!(cursor.cell_num() as usize, index);
        assert_eq!(cursor.page_num(), 0);
        assert!(!cursor.end_of_table());
    }
}

#[test]
fn find_stops_where_an_absent_key_is_to_go() {
    let mut table = table_with(&[10, 20, 30, 40, 50, 60, 70]);
    assert_eq!(table.find(0).cell_num(), 0);
    assert_eq!(table.find(9).cell_num(), 0);
    assert_eq!(table.find(11).cell_num(), 1);
    assert_eq!(table.find(35).cell_num(), 3);
    assert_eq!(table.find(69).cell_num(), 6);
    assert_eq!(table.find(71).cell_num(), 7);
    assert_eq!(table.find(u32::MAX).cell_num(), 7);
    assert_eq!(Cursor::leaf_node_find(&mut table, 45).cell_num(), 4);
    assert_eq!(Cursor::leaf_node_find(&mut table, 50).cell_num(), 4);
}

#[test]
fn find_in_an_empty_table_stops_at_the_first_cell() {
    let mut table = Table::db_open(Vec::new()).unwrap();
    let cursor = table.find(42);
    assert_eq!(cursor.cell_num(), 0);
    assert!(!cursor.end_of_table());
}

#[test]
fn find_in_a_full_table() {
    let keys: Vec<u32> = (0..13).map(|i| 2 * i + 1).collect();
    let mut table = table_with(&keys);
    for probe in 0..27u32 {
        assert_eq!(table.find(probe).cell_num(), probe / 2);
    }
}

#[test]
fn table_start_and_table_end_stand_at_the_two_ends() {
    let mut table = table_with(&[1, 2, 3]);
    let start = Cursor::table_start(&mut table);
    assert_eq!((start.page_num(), start.cell_num(), start.end_of_table()), (0, 0, false));
    let end = Cursor::table_end(&mut table);
    assert_eq!((end.page_num(), end.cell_num(), end.end_of_table()), (0, 3, true));
}

#[test]
fn advance_reaches_the_end_at_the_last_cell() {
    let mut table = table_with(&[1, 2, 3]);
    let mut cursor = Cursor::table_start(&mut table);
    cursor.advance();
    assert_eq!((cursor.cell_num(), cursor.end_of_table()), (1, false));
    cursor.advance();
    assert_eq!((cursor.cell_num(), cursor.end_of_table()), (2, false));
    cursor.advance();
    assert_eq!((cursor.cell_num(), cursor.end_of_table()), (3, true));
    cursor.advance();
    assert_eq!((cursor.cell_num(), cursor.end_of_table()), (4, true));
}

#[test]
fn value_is_the_row_under_the_cursor() {
    let mut table = table_with(&[1, 2, 3]);
    let mut cursor = table.find(2);
    let slot = cursor.value();
    assert_eq!(slot.len(), ROW_SIZE);
    let row = Row::deserialize(slot);
    assert_eq!(row.id(), 2);
    assert_eq!(row.username(), b"user_2");
}

#[test]
fn value_writes_into_the_table() {
    let mut table = table_with(&[1, 2, 3]);
    let mut cursor = table.find(2);
    Row::new("insert 2 changed c@c.c").unwrap().serialize(cursor.value());
    let rows = Cursor::table_start(&mut table).select();
    assert_eq!(rows[0].username(), b"user_1");
    assert_eq!(rows[1].username(), b"changed");
    assert_eq!(rows[1].email(), b"c@c.c");
    assert_eq!(rows[2].username(), b"user_3");
}

#[test]
fn select_reads_from_the_cursor_on() {
    let mut table = table_with(&[1, 2, 3, 4]);
    let mut cursor = table.find(3);
    let rows = cursor.select();
    assert_eq!(rows.iter().map(|row| row.id()).collect::<Vec<u32>>(), vec![3, 4]);
    assert_eq!((cursor.cell_num(), cursor.end_of_table()), (4, true));
    assert!(cursor.select().is_empty());
    assert!(Cursor::table_end(&mut table).select().is_empty());
}

#[test]
fn select_reads_the_cell_under_a_cursor_that_is_not_at_the_end() {
    let mut table = table_with(&[1, 2]);
    let mut cursor = table.find(9);
    assert_eq!((cursor.cell_num(), cursor.end_of_table()), (2, false));
    let rows = cursor.select();
    assert_eq!(rows.len(), 1);
    assert_eq!(rows[0].id(), 0);
    assert_eq!(rows[0].username(), b"");
    assert_eq!((cursor.cell_num(), cursor.end_of_table()), (3, true));
}

#[test]
fn insert_goes_where_the_cursor_stands() {
    let mut table = table_with(&[10, 20]);
    assert_eq!(Cursor::table_end(&mut table).insert(row(5)), ExecuteResult::ExecuteSuccess);
    assert_eq!(ids(&mut table), vec![10, 20, 5]);
    assert_eq!(Cursor::table_start(&mut table).insert(row(30)), ExecuteResult::ExecuteSuccess);
    assert_eq!(ids(&mut table), vec![30, 10, 20, 5]);
    // Only the cell under the cursor is held against the key.
    assert_eq!(Cursor::table_end(&mut table).insert(row(10)), ExecuteResult::ExecuteSuccess);
    assert_eq!(Cursor::table_start(&mut table).insert(row(30)), ExecuteResult::ExecuteDuplicateKey);
    assert_eq!(ids(&mut table), vec![30, 10, 20, 5, 10]);
}

#[test]
fn insert_leaves_the_cursor_where_it_stood() {
    let mut table = table_with(&[10, 30]);
    let mut cursor = table.find(20);
    assert_eq!(cursor.insert(row(20)), ExecuteResult::ExecuteSuccess);
    assert_eq!((cursor.page_num(), cursor.cell_num(), cursor.end_of_table()), (0, 1, false));
    assert_eq!(cursor.insert(row(20)), ExecuteResult::ExecuteDuplicateKey);
    let rows = cursor.select();
    assert_eq!(rows.iter().map(|row| row.id()).collect::<Vec<u32>>(), vec![20, 30]);
}

#[test]
fn insert_writes_the_cell_into_the_page() {
    let mut table = Table::db_open(Vec::new()).unwrap();
    let row = Row::new("insert 258 alice a@x.com").unwrap();
    assert_eq!(table.find(258).insert(row), ExecuteResult::ExecuteSuccess);
    table.db_close();
    let mut expected = vec![0u8; PAGE_SIZE];
    expected[0] = 2;
    expected[6] = 1;
    expected[10] = 2;
    expected[11] = 1;
    expected[14] = 2;
    expected[15] = 1;
    expected[18..23].copy_from_slice(b"alice");
    expected[50..57].copy_from_slice(b"a@x.com");
    assert_eq!(table.file(), &expected);
}

#[test]
fn close_writes_the_root_page_to_the_file() {
    let mut table = Table::db_open(Vec::new()).unwrap();
    assert_eq!(table.file().len(), 0);
    table.db_close();
    let mut expected = vec![0u8; PAGE_SIZE];
    expected[0] = 2;
    assert_eq!(table.file(), &expected);
    insert(&mut table, 1);
    assert_eq!(table.file(), &expected);
    table.db_close();
    assert_eq!(table.file().len(), PAGE_SIZE);
    assert_eq!(table.file()[6], 1);
}

#[test]
fn close_keeps_the_other_pages_of_the_file() {
    let mut file = vec![7u8; 3 * PAGE_SIZE];
    file[0] = 2;
    for b in file[1..PAGE_SIZE].iter_mut() {
        *b = 0;
    }
    let mut table = Table::db_open(file.clone()).unwrap();
    insert(&mut table, 4);
    table.db_close();
    assert_eq!(table.file().len(), 3 * PAGE_SIZE);
    assert_eq!(&table.file()[PAGE_SIZE..], &file[PAGE_SIZE..]);
    assert_eq!(table.file()[6], 1);
}

#[test]
fn rows_are_there_again_after_close_and_open() {
    for n in 0..=13u32 {
        let keys: Vec<u32> = (0..n).map(|i| (i * 7) % 13 + 100).collect();
        let mut table = table_with(&keys);
        let before = ids(&mut table);
        table.db_close();
        let mut again = Table::db_open(table.file().clone()).unwrap();
        let rows = Cursor::table_start(&mut again).select();
        assert_eq!(rows.len(), n as usize);
        assert_eq!(rows.iter().map(|row| row.id()).collect::<Vec<u32>>(), before);
        assert!(before.windows(2).all(|pair| pair[0] < pair[1]));
        for row in rows.iter() {
            assert_eq!(row.username(), format!("user_{}", row.id()).as_bytes());
            assert_eq!(row.email(), format!("user_{}@mail.com", row.id()).as_bytes());
        }
    }
}

#[test]
fn five_rows_then_close_open_and_one_more() {
    let mut table = table_with(&[50, 10, 40, 20, 60]);
    table.db_close();
    let mut again = Table::db_open(table.file().clone()).unwrap();
    assert_eq!(insert(&mut again, 30), ExecuteResult::ExecuteSuccess);
    assert_eq!(ids(&mut again), vec![10, 20, 30, 40, 50, 60]);
    assert_eq!(insert(&mut again, 40), ExecuteResult::ExecuteDuplicateKey);
    again.db_close();
    let mut third = Table::db_open(again.file().clone()).unwrap();
    assert_eq!(ids(&mut third), vec![10, 20, 30, 40, 50, 60]);
}

#[test]
fn rows_not_closed_are_not_in_the_file() {
    let mut table = table_with(&[1, 2]);
    table.db_close();
    insert(&mut table, 3);
    let mut again = Table::db_open(table.file().clone()).unwrap();
    assert_eq!(ids(&mut again), vec![1, 2]);
}
