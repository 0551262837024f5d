use tutorialdb::row::SyntaxErr;
use tutorialdb::statement::{
    do_meta_command, execute_statement, is_meta_command, is_word, prepare_statement, starts_with,
    Executed, MetaCommandResult, PrepareResult, StatementType,
};
use tutorialdb::table::{ExecuteResult, Table};

fn run(table: &mut Table, line: &str) -> Executed {
    match prepare_statement(line) {
        PrepareResult::PrepareSuccess(statement) => execute_statement(statement, table),
        other => panic!("{:?} is no statement: {:?}", line, other),
    }
}

fn insert(table: &mut Table, line: &str) -> ExecuteResult {
    match run(table, line) {
        Executed::Inserted(result) => result,
        other => panic!("{:?} gave {:?}", line, other),
    }
}

fn select(table: &mut Table) -> Vec<(u32, String, String)> {
    match run(table, "select") {
        Executed::Selected(rows) => rows
            .iter()
            .map(|row| {
                (
                    row.id(),
                    String::from_utf8(row.username().to_vec()).unwrap(),
                    String::from_utf8(row.email().to_vec()).unwrap(),
                )
            })
            .collect(),
        other => panic!("select gave {:?}", other),
    }
}

#[test]
fn starts_with_and_is_word_compare_bytes() {
    assert!(starts_with(b"insert 1", b"insert"));
    assert!(starts_with(b"insert", b"insert"));
    assert!(starts_with(b"anything", b""));
    assert!(!starts_with(b"inser", b"insert"));
    assert!(!starts_with(b"insurt 1", b"insert"));
    assert!(!starts_with(b" insert", b"insert"));
    assert!(is_word(b"select", b"select"));
    assert!(is_word(b"", b""));
    assert!(!is_word(b"select ", b"select"));
    assert!(!is_word(b"selec", b"select"));
    assert!(!is_word(b"selecT", b"select"));
}

#[test]
fn a_line_with_a_dot_in_front_is_a_meta_command() {
    assert!(is_meta_command(".exit"));
    assert!(is_meta_command(".constants"));
    assert!(is_meta_command(".nothing"));
    assert!(is_meta_command("."));
    assert!(!is_meta_command(""));
    assert!(!is_meta_command("select"));
    assert!(!is_meta_command(" .exit"));
}

#[test]
fn prepare_reads_an_insert() {
    match prepare_statement("insert 1 alice a@x.com") {
        PrepareResult::PrepareSuccess(StatementType::StatementInsert(row)) => {
            assert_eq!(row.id(), 1);
            assert_eq!(row.username(), b"alice");
            assert_eq!(row.email(), b"a@x.com");
        }
        other => panic!("{:?}", other),
    }
    // Whatever begins with the keyword is an insert.
    match prepare_statement("inserted 2 bob b@y.org") {
        PrepareResult::PrepareSuccess(StatementType::StatementInsert(row)) => {
            assert_eq!(row.id(), 2);
        }
        other => panic!("{:?}", other),
    }
}

#[test]
fn prepare_reports_each_syntax_error() {
    assert!(matches!(
        prepare_statement("insert"),
        PrepareResult::PrepareSyntaxError(SyntaxErr::WrongArgsNum)
    ));
    assert!(matches!(
        prepare_statement("insert 1 alice"),
        PrepareResult::PrepareSyntaxError(SyntaxErr::WrongArgsNum)
    ));
    assert!(matches!(
        prepare_statement("insert one alice a@x.com"),
        PrepareResult::PrepareSyntaxError(SyntaxErr::InvalidID)
    ));
    assert!(matches!(
        prepare_statement("insert -1 alice a@x.com"),
        PrepareResult::PrepareSyntaxError(SyntaxErr::InvalidID)
    ));
    assert!(matches!(
        prepare_statement("insert 1 a_name_of_more_than_thirty_two_bytes a@x.com"),
        PrepareResult::PrepareSyntaxError(SyntaxErr::StringTooLong)
    ));
}

#[test]
fn prepare_reads_a_select() {
    assert!(matches!(
        prepare_statement("select"),
        PrepareResult::PrepareSuccess(StatementType::StatementSelect)
    ));
}

#[test]
fn prepare_does_not_know_other_lines() {
    for line in ["", "select ", " select", "selects", "SELECT", "update 1", " insert 1 a b", "Insert 1 a b", "inser"] {
        assert!(
            matches!(prepare_statement(line), PrepareResult::PrepareUnRecognizedStatement),
            "{:?}",
            line
        );
    }
}

#[test]
fn meta_command_exit_closes_the_table() {
    let mut table = Table::db_open(Vec::new()).unwrap();
    assert_eq!(insert(&mut table, "insert 1 alice a@x.com"), ExecuteResult::ExecuteSuccess);
    assert_eq!(table.file().len(), 0);
    assert_eq!(do_meta_command(".exit", &mut table), MetaCommandResult::MetaCommandExit);
    assert_eq!(table.file().len(), 4096);
    let mut again = Table::db_open(table.file().clone()).unwrap();
    assert_eq!(select(&mut again), vec![(1, "alice".to_string(), "a@x.com".to_string())]);
}

#[test]
fn meta_command_constants_and_others_leave_the_table() {
    let mut table = Table::db_open(Vec::new()).unwrap();
    assert_eq!(insert(&mut table, "insert 1 alice a@x.com"), ExecuteResult::ExecuteSuccess);
    assert_eq!(do_meta_command(".constants", &mut table), MetaCommandResult::MetaCommandConstants);
    for line in [".exit ", ".Exit", ".", "", ".constant", ".constantss", "exit", ".exitnow"] {
        assert_eq!(
            do_meta_command(line, &mut table),
            MetaCommandResult::MetaCommandUnrecognizedCommand,
            "{:?}",
            line
        );
    }
    assert_eq!(table.file().len(), 0);
    assert_eq!(select(&mut table).len(), 1);
}

#[test]
fn execute_insert_then_select_one_row() {
    let mut table = Table::db_open(Vec::new()).unwrap();
    assert_eq!(insert(&mut table, "insert 1 alice a@x.com"), ExecuteResult::ExecuteSuccess);
    assert_eq!(select(&mut table), vec![(1, "alice".to_string(), "a@x.com".to_string())]);
}

#[test]
fn execute_select_on_an_empty_table_gives_no_row() {
    let mut table = Table::db_open(Vec::new()).unwrap();
    assert!(select(&mut table).is_empty());
}

#[test]
fn execute_fills_the_table_and_then_reports_it_full() {
    let mut table = Table::db_open(Vec::new()).unwrap();
    for key in 1..=13 {
        let line = format!("insert {} user{} person{}@example.com", key, key, key);
        assert_eq!(insert(&mut table, &line), ExecuteResult::ExecuteSuccess);
    }
    assert_eq!(insert(&mut table, "insert 14 user14 person14@example.com"), ExecuteResult::ExecuteTableFull);
    let rows = select(&mut table);
    assert_eq!(rows.len(), 13);
    for (index, row) in rows.iter().enumerate() {
        let key = index as u32 + 1;
        assert_eq!(*row, (key, format!("user{}", key), format!("person{}@example.com", key)));
    }
}

#[test]
fn execute_reports_a_duplicate_key() {
    let mut table = Table::db_open(Vec::new()).unwrap();
    assert_eq!(insert(&mut table, "insert 5 first f@x.com"), ExecuteResult::ExecuteSuccess);
    assert_eq!(insert(&mut table, "insert 5 second s@x.com"), ExecuteResult::ExecuteDuplicateKey);
    assert_eq!(select(&mut table), vec![(5, "first".to_string(), "f@x.com".to_string())]);
}

#[test]
fn execute_keeps_the_rows_in_the_order_of_their_keys() {
    let mut table = Table::db_open(Vec::new()).unwrap();
    for key in [3u32, 1, 2] {
        let line = format!("insert {} user{} person{}@example.com", key, key, key);
        assert_eq!(insert(&mut table, &line), ExecuteResult::ExecuteSuccess);
    }
    let rows = select(&mut table);
    assert_eq!(rows.iter().map(|row| row.0).collect::<Vec<u32>>(), vec![1, 2, 3]);
}

#[test]
fn execute_after_close_and_open_sees_all_rows() {
    let mut table = Table::db_open(Vec::new()).unwrap();
    for key in [9u32, 2, 7, 4, 5] {
        let line = format!("insert {} user{} person{}@example.com", key, key, key);
        assert_eq!(insert(&mut table, &line), ExecuteResult::ExecuteSuccess);
    }
    assert_eq!(do_meta_command(".exit", &mut table), MetaCommandResult::MetaCommandExit);
    let mut again = Table::db_open(table.file().clone()).unwrap();
    assert_eq!(insert(&mut again, "insert 6 user6 person6@example.com"), ExecuteResult::ExecuteSuccess);
    let rows = select(&mut again);
    assert_eq!(rows.iter().map(|row| row.0).collect::<Vec<u32>>(), vec![2, 4, 5, 6, 7, 9]);
    assert_eq!(rows[3], (6, "user6".to_string(), "person6@example.com".to_string()));
}
