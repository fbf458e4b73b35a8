use quant_research_framework_rs::fields::{
    check_window, data_row_fields, parse_i64, parse_time_field, position_of, split_commas, str_eq, MIN_WINDOW,
};

#[test]
fn commas_split_like_str_split() {
    for line in ["a,b,,c", "", ",", "1700000000,1.5,2,1,1.75", "x", "é,ü,", ",,,"] {
        let expected: Vec<&str> = line.split(',').collect();
        assert_eq!(split_commas(line), expected, "{line:?}");
    }
    assert_eq!(split_commas("a,b,,c"), vec!["a", "b", "", "c"]);
}

#[test]
fn decimal_integers_parse_like_std() {
    assert_eq!(parse_i64("123"), Some(123));
    assert_eq!(parse_i64("+5"), Some(5));
    assert_eq!(parse_i64("-0"), Some(0));
    assert_eq!(parse_i64("007"), Some(7));
    assert_eq!(parse_i64("-9223372036854775808"), Some(i64::MIN));
    assert_eq!(parse_i64("9223372036854775807"), Some(i64::MAX));
    assert_eq!(parse_i64("9223372036854775808"), None);
    assert_eq!(parse_i64("-9223372036854775809"), None);
    assert_eq!(parse_i64("99999999999999999999999999999"), None);
    for bad in ["", "-", "+", "12a", " 1", "1 ", "--1", "1.0", "+-1"] {
        assert_eq!(parse_i64(bad), None, "{bad:?}");
    }
    for s in ["0", "42", "-42", "+0042", "1773072000", "-28800", "00000000000000000000012", "1e3", "٣"] {
        assert_eq!(parse_i64(s), s.parse::<i64>().ok(), "{s:?}");
    }
}

#[test]
fn time_fields_are_trimmed() {
    assert_eq!(parse_time_field(" 1700000000 "), Some(1700000000));
    assert_eq!(parse_time_field("\t-5\n"), Some(-5));
    assert_eq!(parse_time_field(" x "), None);
    // Unicode White_Space is trimmed; a zero-width space is not white space.
    assert_eq!(parse_time_field("\u{3000}12\u{85}"), Some(12));
    assert_eq!(parse_time_field("\u{200B}12"), None);
}

#[test]
fn data_rows_skip_header_and_short_lines() {
    assert_eq!(data_row_fields(0, "time,open,high,low,close", 5), None);
    assert_eq!(data_row_fields(1, "1,2,3,4", 5), None);
    assert_eq!(data_row_fields(2, "1,2,3,4,5", 5), Some(vec!["1", "2", "3", "4", "5"]));
    assert_eq!(data_row_fields(3, "1,2,3,4,5,6", 5), Some(vec!["1", "2", "3", "4", "5", "6"]));
}

#[test]
fn columns_are_found_by_name() {
    let headers: Vec<String> = ["time", "rate", "time"].iter().map(|s| s.to_string()).collect();
    assert_eq!(position_of(&headers, "time"), Some(0));
    assert_eq!(position_of(&headers, "rate"), Some(1));
    assert_eq!(position_of(&headers, "close"), None);
    assert_eq!(position_of(&[], "close"), None);
    assert!(str_eq("close", "close"));
    assert!(!str_eq("close", "Close"));
    assert!(!str_eq("close", "closes"));
}

#[test]
fn short_windows_are_rejected() {
    assert_eq!(MIN_WINDOW, 5);
    assert_eq!(check_window(5, ""), Ok(()));
    assert_eq!(check_window(4, ""), Err("window must be >= 5".to_string()));
    assert_eq!(
        check_window(0, "BasisBlowoutTrigger: "),
        Err("BasisBlowoutTrigger: window must be >= 5".to_string())
    );
}
