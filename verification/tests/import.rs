use ncdu_import::filetree::SizedFile;
use ncdu_import::import::{collect_files, parse_size, read_csv, resolve_columns, ImportError, Row};

fn file(path: &str, size: usize) -> (String, usize) {
    (path.to_owned(), size)
}

fn pairs(files: Vec<SizedFile>) -> Vec<(String, usize)> {
    files.into_iter().map(|f| (f.path, f.size)).collect()
}

fn row(fields: &[&str]) -> Row {
    Ok(fields.iter().map(|f| f.to_string()).collect())
}

#[test]
fn csv_columns_are_found_by_name() {
    let input = b"size,kind,name\n10,f,a/b\n20,f,c\n";
    let got = read_csv(input, "name", "size", false).unwrap();
    assert_eq!(pairs(got), vec![file("a/b", 10), file("c", 20)]);
}

#[test]
fn csv_quoted_fields_are_unquoted_by_the_reader() {
    let input = b"name,size\n\"a,b/c\",7\n";
    let got = read_csv(input, "name", "size", false).unwrap();
    assert_eq!(pairs(got), vec![file("a,b/c", 7)]);
}

#[test]
fn du_output_holds_size_then_path() {
    let got = read_csv(b"100\tsome/path\n", "name", "size", true).unwrap();
    assert_eq!(pairs(got), vec![file("some/path", 100)]);
}

#[test]
fn du_output_ignores_column_names() {
    let a = read_csv(b"100\tsome/path\n", "name", "size", true).unwrap();
    let b = read_csv(b"100\tsome/path\n", "no such", "column", true).unwrap();
    assert_eq!(pairs(a), pairs(b));
}

#[test]
fn du_output_has_no_header_row() {
    let got = read_csv(b"1\ta\n2\tb\n", "name", "size", true).unwrap();
    assert_eq!(pairs(got), vec![file("a", 1), file("b", 2)]);
}

#[test]
fn missing_path_column_is_named() {
    let got = read_csv(b"path,size\na,1\n", "name", "size", false);
    assert_eq!(
        got.err(),
        Some(ImportError::MissingColumn {
            name: "name".to_owned()
        })
    );
}

#[test]
fn missing_size_column_is_named() {
    let got = read_csv(b"name,bytes\na,1\n", "name", "size", false);
    assert_eq!(
        got.err(),
        Some(ImportError::MissingColumn {
            name: "size".to_owned()
        })
    );
}

#[test]
fn missing_both_columns_names_the_path_column() {
    let got = read_csv(b"x,y\na,1\n", "name", "size", false);
    assert_eq!(
        got.err(),
        Some(ImportError::MissingColumn {
            name: "name".to_owned()
        })
    );
}

#[test]
fn empty_csv_input_lacks_the_path_column() {
    let got = read_csv(b"", "name", "size", false);
    assert_eq!(
        got.err(),
        Some(ImportError::MissingColumn {
            name: "name".to_owned()
        })
    );
}

#[test]
fn empty_du_input_has_no_files() {
    let got = read_csv(b"", "name", "size", true).unwrap();
    assert!(got.is_empty());
}

#[test]
fn header_without_rows_has_no_files() {
    let got = read_csv(b"name,size\n", "name", "size", false).unwrap();
    assert!(got.is_empty());
}

#[test]
fn invalid_size_names_the_row() {
    let got = read_csv(b"name,size\na,1\nb,many\nc,3\n", "name", "size", false);
    assert_eq!(got.err(), Some(ImportError::InvalidSize { line: 1 }));
}

#[test]
fn negative_size_is_invalid() {
    let got = read_csv(b"-5\ta\n", "name", "size", true);
    assert_eq!(got.err(), Some(ImportError::InvalidSize { line: 0 }));
}

#[test]
fn du_line_with_one_field_is_malformed() {
    let got = read_csv(b"100\n", "name", "size", true);
    assert_eq!(got.err(), Some(ImportError::MalformedRow { line: 0 }));
}

#[test]
fn row_of_another_length_fails_in_the_reader() {
    let got = read_csv(b"name,size\na,1\nb\n", "name", "size", false);
    match got {
        Err(ImportError::IoFailure { message }) => assert!(!message.is_empty()),
        other => panic!("expected a failure of the reader, got {:?}", other.map(pairs)),
    }
}

#[test]
fn header_that_is_not_utf8_fails_in_the_reader() {
    let got = read_csv(b"na\xffme,size\na,1\n", "name", "size", false);
    assert!(matches!(got, Err(ImportError::IoFailure { .. })));
}

#[test]
fn first_failing_row_decides() {
    let got = read_csv(b"name,size\na,x\nb\n", "name", "size", false);
    assert_eq!(got.err(), Some(ImportError::InvalidSize { line: 0 }));
}

#[test]
fn resolve_columns_takes_the_first_of_equal_names() {
    let header: Vec<String> = vec!["size".into(), "name".into(), "size".into(), "name".into()];
    assert_eq!(resolve_columns(&header, "name", "size"), Ok((1, 0)));
}

#[test]
fn resolve_columns_reports_the_missing_name() {
    let header: Vec<String> = vec!["name".into()];
    assert_eq!(
        resolve_columns(&header, "name", "size"),
        Err(ImportError::MissingColumn {
            name: "size".to_owned()
        })
    );
    assert_eq!(
        resolve_columns(&header, "path", "size"),
        Err(ImportError::MissingColumn {
            name: "path".to_owned()
        })
    );
}

#[test]
fn collect_files_reads_the_given_fields() {
    let rows = vec![row(&["x", "12", "a/b"]), row(&["y", "+3", "c"])];
    let got = collect_files(&rows, 2, 1).unwrap();
    assert_eq!(pairs(got), vec![file("a/b", 12), file("c", 3)]);
}

#[test]
fn collect_files_reports_a_short_row() {
    let rows = vec![row(&["1", "a"]), row(&["2"])];
    assert_eq!(
        collect_files(&rows, 1, 0).err(),
        Some(ImportError::MalformedRow { line: 1 })
    );
    let rows = vec![row(&["a", "1"]), row(&["b"])];
    assert_eq!(
        collect_files(&rows, 0, 1).err(),
        Some(ImportError::MalformedRow { line: 1 })
    );
}

#[test]
fn collect_files_passes_on_the_readers_message() {
    let rows = vec![row(&["1", "a"]), Err("broken".to_owned()), row(&["x", "b"])];
    assert_eq!(
        collect_files(&rows, 1, 0).err(),
        Some(ImportError::IoFailure {
            message: "broken".to_owned()
        })
    );
}

#[test]
fn collect_files_of_no_rows_is_empty() {
    let rows: Vec<Row> = Vec::new();
    assert!(collect_files(&rows, 5, 7).unwrap().is_empty());
}

#[test]
fn parse_size_reads_digits() {
    assert_eq!(parse_size("0"), Some(0));
    assert_eq!(parse_size("100"), Some(100));
    assert_eq!(parse_size("007"), Some(7));
    assert_eq!(parse_size("+5"), Some(5));
    assert_eq!(parse_size(&usize::MAX.to_string()), Some(usize::MAX));
}

#[test]
fn parse_size_refuses_what_is_no_size() {
    for text in [
        "", "+", "-", "-1", "++1", "1+", " 1", "1 ", "1.5", "1e3", "0x10", "१२", "12a",
        "18446744073709551616", "99999999999999999999999999",
    ] {
        assert_eq!(parse_size(text), None, "{:?}", text);
    }
}

#[test]
fn parse_size_agrees_with_the_standard_parser() {
    for text in [
        "0", "1", "9", "10", "+0", "+42", "000", "18446744073709551615", "18446744073709551614",
        "18446744073709551616", "18446744073709551620", "4294967295", "4294967296", "", "+", "a",
        "1a", "+-1", "-0", "٣",
    ] {
        assert_eq!(parse_size(text), text.parse::<usize>().ok(), "{:?}", text);
    }
}

#[test]
fn csv_lines_may_end_in_crlf() {
    let got = read_csv(b"name,size\r\na,1\r\nb/c,2\r\n", "name", "size", false).unwrap();
    assert_eq!(pairs(got), vec![file("a", 1), file("b/c", 2)]);
}

#[test]
fn csv_last_line_needs_no_line_end() {
    let got = read_csv(b"name,size\na,1", "name", "size", false).unwrap();
    assert_eq!(pairs(got), vec![file("a", 1)]);
}

#[test]
fn csv_paths_may_hold_any_characters() {
    let input = "size,name\n5,données/été.txt\n6,\"日本/\"\"引用\"\"\"\n7, spaced /x \n";
    let got = read_csv(input.as_bytes(), "name", "size", false).unwrap();
    assert_eq!(
        pairs(got),
        vec![
            file("données/été.txt", 5),
            file("日本/\"引用\"", 6),
            file(" spaced /x ", 7),
        ]
    );
}

#[test]
fn csv_column_names_are_compared_as_they_stand() {
    let got = read_csv(b"Name,size\na,1\n", "name", "size", false);
    assert_eq!(
        got.err(),
        Some(ImportError::MissingColumn {
            name: "name".to_owned()
        })
    );
}

#[test]
fn csv_first_of_two_columns_of_one_name_is_read() {
    let got = read_csv(b"size,name,size\n1,a,2\n", "name", "size", false).unwrap();
    assert_eq!(pairs(got), vec![file("a", 1)]);
}

#[test]
fn csv_path_and_size_may_be_one_column() {
    let got = read_csv(b"n\n12\n", "n", "n", false).unwrap();
    assert_eq!(pairs(got), vec![file("12", 12)]);
}

#[test]
fn csv_size_with_blanks_is_invalid() {
    let got = read_csv(b"name,size\na, 1\n", "name", "size", false);
    assert_eq!(got.err(), Some(ImportError::InvalidSize { line: 0 }));
}

#[test]
fn du_output_with_commas_in_paths() {
    let got = read_csv(b"3\ta,b/c,d\n", "name", "size", true).unwrap();
    assert_eq!(pairs(got), vec![file("a,b/c,d", 3)]);
}

#[test]
fn du_output_with_more_fields_reads_the_first_two() {
    let got = read_csv(b"3\ta\textra\n4\tb\tmore\n", "name", "size", true).unwrap();
    assert_eq!(pairs(got), vec![file("a", 3), file("b", 4)]);
}

#[test]
fn du_output_rows_of_another_length_fail_in_the_reader() {
    let got = read_csv(b"3\ta\n4\tb\textra\n", "name", "size", true);
    assert!(matches!(got, Err(ImportError::IoFailure { .. })));
}

#[test]
fn many_rows_are_read_in_order() {
    let mut input = String::from("name,size\n");
    for i in 0..5000 {
        input.push_str(&format!("dir{}/file{},{}\n", i % 7, i, i));
    }
    let got = read_csv(input.as_bytes(), "name", "size", false).unwrap();
    assert_eq!(got.len(), 5000);
    for (i, f) in got.iter().enumerate() {
        assert_eq!(f.path, format!("dir{}/file{}", i % 7, i));
        assert_eq!(f.size, i);
    }
}
