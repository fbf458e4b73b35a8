use quant_research_framework_rs::csv_table::{
    funding_times, ordered_times, read_csv, table_from_parse, timed_table, RowFault, TableFault,
};

#[test]
fn csv_bytes_parse_into_header_and_records() {
    let (h, recs) = read_csv(b"time,rate\n1,2\n3,4\n").unwrap();
    assert_eq!(h, vec!["time", "rate"]);
    assert_eq!(recs, vec![Ok(vec!["1".to_string(), "2".to_string()]), Ok(vec!["3".to_string(), "4".to_string()])]);
    let (_, recs) = read_csv(b"time,rate\n1,2\n1,2,3\n4,5\n").unwrap();
    assert_eq!(recs.len(), 2);
    assert!(recs[1].is_err());
    assert!(read_csv(b"\xff,rate\n").is_err());
}

#[test]
fn funding_table_dedups_and_checks_the_grid() {
    let text = b"time,rate\n57600,3e-4\n0,1e-4\n28800,2e-4\n0,5e-4\n";
    let ft = funding_times(text, true).unwrap();
    assert_eq!(ft.table.columns, vec![0, 1]);
    let (times, rows, dups) = ft.dedup.clone().unwrap();
    assert_eq!(times, vec![0, 28800, 57600]);
    assert_eq!(rows, vec![3, 2, 0]);
    assert_eq!(dups, 1);
    assert_eq!(ft.misaligned, None);
    let ft = funding_times(b"rate,time\n1,0\n1,28801\n", true).unwrap();
    assert_eq!(ft.table.columns, vec![1, 0]);
    assert_eq!(ft.misaligned, Some(1));
    assert_eq!(funding_times(b"rate,time\n1,0\n1,28801\n", false).unwrap().misaligned, None);
}

#[test]
fn funding_table_faults() {
    match funding_times(b"t,rate\n1,2\n", true) {
        Err(TableFault::MissingColumn(0)) => {}
        other => panic!("{other:?}"),
    }
    match funding_times(b"time,r\n1,2\n", true) {
        Err(TableFault::MissingColumn(1)) => {}
        other => panic!("{other:?}"),
    }
    match funding_times(b"\xff,rate\n", true) {
        Err(TableFault::Headers(_)) => {}
        other => panic!("{other:?}"),
    }
    let ft = funding_times(b"time,rate\n0,1\nx,2\n8,3\n", true).unwrap();
    assert!(ft.dedup.is_none() && ft.misaligned.is_none());
    match &ft.table.rows[1] {
        Err(RowFault::Time(c)) => assert_eq!(c, "x"),
        other => panic!("{other:?}"),
    }
    assert_eq!(ft.table.rows[2].as_ref().unwrap().time, 8);
    let ft = funding_times(b"time,rate\n0,1\n1,2,3\n", true).unwrap();
    assert!(matches!(ft.table.rows[1], Err(RowFault::Record(_))));
}

#[test]
fn ordered_tables_sort_by_time_stably() {
    let ot = ordered_times(b"time,v\n30,a\n10,b\n30,c\n20,d\n", &["time", "v"]).unwrap();
    assert_eq!(ot.order, Some(vec![1, 3, 0, 2]));
    let ot = ordered_times(b"time,v\n30,a\n\xff,b\n", &["time", "v"]).unwrap();
    assert!(ot.order.is_none());
    let t = timed_table(b"a,time\n1, 7\n", &["time"]).unwrap();
    // Time cells are read as written: the csv reader keeps the space.
    assert!(matches!(t.rows[0], Err(RowFault::Time(_))));
}

#[test]
fn tables_from_given_parses() {
    let parse = Ok((
        vec!["x".to_string(), "time".to_string()],
        vec![
            Ok(vec!["a".to_string(), "5".to_string()]),
            Ok(vec!["b".to_string()]),
            Err("bad record".to_string()),
        ],
    ));
    let t = table_from_parse(parse, &["time"]).unwrap();
    assert_eq!(t.columns, vec![1]);
    assert_eq!(t.rows[0].as_ref().unwrap().time, 5);
    // A record shorter than the header reads an empty time cell.
    assert!(matches!(&t.rows[1], Err(RowFault::Time(c)) if c.is_empty()));
    assert!(matches!(&t.rows[2], Err(RowFault::Record(m)) if m == "bad record"));
    assert!(matches!(table_from_parse(Err("e".to_string()), &["time"]), Err(TableFault::Headers(m)) if m == "e"));
    assert!(matches!(
        table_from_parse(Ok((vec!["time".to_string()], vec![])), &["time", "rate"]),
        Err(TableFault::MissingColumn(1))
    ));
}
