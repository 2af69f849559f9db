use csv_table::{Access, CsvBody, CsvData, CsvError, CsvFile, CsvHeader, CsvRow};

fn make_csv_row() -> CsvRow {
    let mut row = CsvRow::new();
    row.append(CsvData::new("ヘッダー1", "いるかねこ"));
    row.append(CsvData::new("ヘッダー2", "海賊うさぎ"));
    row.append(CsvData::new("ヘッダー3", "やかまし"));
    row
}

fn make_csv_row2() -> CsvRow {
    let mut row = CsvRow::new();
    row.append(CsvData::new("ヘッダー1", "いぬねこ"));
    row.append(CsvData::new("ヘッダー2", "いぬ肝臓"));
    row.append(CsvData::new("ヘッダー3", "海賊姫"));
    row
}

fn make_csv_row3() -> CsvRow {
    let mut row = CsvRow::new();
    row.append(CsvData::new("ヘッダー1", "塩鯱"));
    row.append(CsvData::new("ヘッダー2", "塩うさぎ"));
    row.append(CsvData::new("ヘッダー3", "船長メイド"));
    row
}

fn make_body() -> CsvBody {
    let mut body = CsvBody::new();
    body.append(make_csv_row());
    body.append(make_csv_row2());
    body.append(make_csv_row3());
    body
}

fn make_header() -> CsvHeader {
    let mut header = CsvHeader::new();
    header.append("ヘッダー1");
    header.append("ヘッダー2");
    header.append("ヘッダー3");
    header
}

fn make_file() -> CsvFile {
    CsvFile::new(make_header(), make_body())
}

fn data(values: &[&str]) -> Vec<String> {
    values.iter().map(|v| String::from(*v)).collect()
}

fn first_column(file: &CsvFile) -> Vec<String> {
    let body = file.get_body();
    (0..body.len())
        .map(|i| body.get_row(i).unwrap().get_value("ヘッダー1").unwrap())
        .collect()
}

#[test]
fn csv_row_len() {
    assert_eq!(3, make_csv_row().len());
}

#[test]
fn csv_row_get_value() {
    let row = make_csv_row();
    assert_eq!("海賊うさぎ", row.get_value("ヘッダー2").unwrap());
}

#[test]
fn csv_row_get_value_error() {
    let row = make_csv_row();
    match row.get_value("ヘッダー4") {
        Ok(_) => panic!("エラーが発生しませんでした。"),
        Err(e) => assert_eq!("存在しないヘッダー名です。[ヘッダー4]", e.message()),
    }
}

#[test]
fn csv_body_len() {
    assert_eq!(3, make_body().len());
}

#[test]
fn csv_body_get_row() {
    let body = make_body();
    let row = body.get_row(0).unwrap();
    assert_eq!("いるかねこ", row.get_value("ヘッダー1").unwrap());
    assert_eq!("海賊うさぎ", row.get_value("ヘッダー2").unwrap());
    assert_eq!("やかまし", row.get_value("ヘッダー3").unwrap());
}

#[test]
fn csv_body_get_row_error() {
    let body = make_body();
    match body.get_row(5) {
        Ok(_) => panic!("エラーが発生しませんでした。"),
        Err(e) => assert_eq!("範囲外のインデックスが指定されました。[5]", e.message()),
    }
}

#[test]
fn csv_header_len() {
    assert_eq!(3, make_header().len());
}

#[test]
fn csv_header_get_name() {
    let header = make_header();
    assert_eq!("ヘッダー2", header.get_name(1).unwrap());
}

#[test]
fn csv_header_get_name_error() {
    let header = make_header();
    match header.get_name(5) {
        Ok(_) => panic!("エラーが発生しませんでした。"),
        Err(e) => assert_eq!("範囲外のインデックスが指定されました。[5]", e.message()),
    }
}

#[test]
fn csv_file_get_value() {
    let file = make_file();
    assert_eq!("船長メイド", file.get_value("ヘッダー3", 2).unwrap());
}

#[test]
fn csv_file_get_value_error_header_name() {
    let file = make_file();
    match file.get_value("ヘッダー5", 2) {
        Ok(_) => panic!("エラー発生しませんでした。"),
        Err(e) => assert_eq!(
            "値の取得に失敗しました。[存在しないヘッダー名です。[ヘッダー5]]",
            e.message()
        ),
    }
}

#[test]
fn csv_file_get_value_error_row_index() {
    let file = make_file();
    match file.get_value("ヘッダー2", 5) {
        Ok(_) => panic!("エラー発生しませんでした。"),
        Err(e) => assert_eq!(
            "値の取得に失敗しました。[範囲外のインデックスが指定されました。[5]]",
            e.message()
        ),
    }
}

#[test]
fn csv_file_append_len() {
    let mut file = make_file();
    file.append(data(&["きつねおおかみ", "いぬてんし", "おけぶろ"])).unwrap();
    assert_eq!(4, file.get_body().len());
}

#[test]
fn csv_file_append() {
    let mut file = make_file();
    file.append(data(&["きつねおおかみ", "いぬてんし", "おけぶろ"])).unwrap();
    let expect = ["いるかねこ", "いぬねこ", "塩鯱", "きつねおおかみ"];
    for (index, value) in first_column(&file).iter().enumerate() {
        assert_eq!(expect[index], value);
    }
}

#[test]
fn csv_file_append_error() {
    let mut file = make_file();
    match file.append(data(&["きつねおおかみ", "いぬてんし"])) {
        Ok(_) => panic!("エラーが発生しませんでした。"),
        Err(e) => assert_eq!(e.message(), "行のサイズが不正です。必要数=[3], 渡した数=[2]"),
    }
}

#[test]
fn csv_file_insert_len() {
    let mut file = make_file();
    file.insert(2, data(&["きつねおおかみ", "いぬてんし", "おけぶろ"])).unwrap();
    assert_eq!(4, file.get_body().len());
}

#[test]
fn csv_file_insert() {
    let mut file = make_file();
    file.insert(2, data(&["きつねおおかみ", "いぬてんし", "おけぶろ"])).unwrap();
    let expect = ["いるかねこ", "いぬねこ", "きつねおおかみ", "塩鯱"];
    for (index, value) in first_column(&file).iter().enumerate() {
        assert_eq!(expect[index], value);
    }
}

#[test]
fn csv_file_insert_error() {
    let mut file = make_file();
    match file.insert(1, data(&["きつねおおかみ", "いぬてんし"])) {
        Ok(_) => panic!("エラーが発生しませんでした。"),
        Err(e) => assert_eq!(e.message(), "行のサイズが不正です。必要数=[3], 渡した数=[2]"),
    }
}

#[test]
fn csv_file_insert_error2() {
    let mut file = make_file();
    match file.insert(5, data(&["きつねおおかみ", "いぬてんし", "おけぶろ"])) {
        Ok(_) => panic!("エラーが発生しませんでした。"),
        Err(e) => assert_eq!(
            e.message(),
            "不正なインデックスです。指定したインデックス=[5], 許容範囲=[3]"
        ),
    }
}

#[test]
fn csv_file_update_len() {
    let mut file = make_file();
    file.update(1, data(&["きつねおおかみ", "いぬてんし", "おけぶろ"])).unwrap();
    assert_eq!(3, file.get_body().len());
}

#[test]
fn csv_file_update() {
    let mut file = make_file();
    file.update(1, data(&["きつねおおかみ", "いぬてんし", "おけぶろ"])).unwrap();
    let expect = ["いるかねこ", "きつねおおかみ", "塩鯱"];
    for (index, value) in first_column(&file).iter().enumerate() {
        assert_eq!(expect[index], value);
    }
}

#[test]
fn csv_file_update_error() {
    let mut file = make_file();
    match file.update(1, data(&["きつねおおかみ", "いぬてんし"])) {
        Ok(_) => panic!("エラーが発生しませんでした。"),
        Err(e) => assert_eq!(e.message(), "行のサイズが不正です。必要数=[3], 渡した数=[2]"),
    }
}

#[test]
fn csv_file_update_error2() {
    let mut file = make_file();
    match file.update(5, data(&["きつねおおかみ", "いぬてんし", "おけぶろ"])) {
        Ok(_) => panic!("エラーが発生しませんでした。"),
        Err(e) => assert_eq!(
            e.message(),
            "不正なインデックスです。指定したインデックス=[5], 許容範囲=[3]"
        ),
    }
}

#[test]
fn csv_file_remove_len() {
    let mut file = make_file();
    file.remove(2).unwrap();
    assert_eq!(2, file.get_body().len());
}

#[test]
fn csv_file_remove() {
    let mut file = make_file();
    file.remove(2).unwrap();
    let expect = ["いるかねこ", "いぬねこ"];
    for (index, value) in first_column(&file).iter().enumerate() {
        assert_eq!(expect[index], value);
    }
}

#[test]
fn csv_file_remove_error() {
    let mut file = make_file();
    match file.remove(5) {
        Ok(_) => panic!("エラーが発生しませんでした。"),
        Err(e) => assert_eq!(
            e.message(),
            "不正なインデックスです。指定したインデックス=[5], 許容範囲=[3]"
        ),
    }
}

fn abc_file() -> CsvFile {
    let mut header = CsvHeader::new();
    header.append("H1");
    header.append("H2");
    header.append("H3");
    let mut body = CsvBody::new();
    for (a, b, c) in [("A", "a2", "a3"), ("B", "b2", "b3"), ("C", "c2", "c3")] {
        let mut row = CsvRow::new();
        row.append(CsvData::new("H1", a));
        row.append(CsvData::new("H2", b));
        row.append(CsvData::new("H3", c));
        body.append(row);
    }
    CsvFile::new(header, body)
}

#[test]
fn scenario_update_remove_insert() {
    let mut file = abc_file();
    assert_eq!("c3", file.get_value("H3", 2).unwrap());
    file.update(1, data(&["X", "Y", "Z"])).unwrap();
    assert_eq!(3, file.get_body().len());
    assert_eq!("X", file.get_value("H1", 1).unwrap());
    file.remove(2).unwrap();
    assert_eq!(2, file.get_body().len());
    assert_eq!("X", file.get_value("H1", 1).unwrap());
    let before = file.get_body().len();
    match file.insert(5, data(&["P", "Q", "R"])) {
        Err(e) => assert_eq!(
            e,
            CsvError::IndexOutOfRange { index: 5, bound: before, access: Access::Position }
        ),
        Ok(_) => panic!("insert past the end succeeded"),
    }
    assert_eq!(before, file.get_body().len());
}

#[test]
fn append_puts_row_last() {
    let mut file = abc_file();
    file.append(data(&["D", "d2", "d3"])).unwrap();
    assert_eq!(4, file.get_body().len());
    let last = file.get_body().get_row(3).unwrap();
    assert_eq!("D", last.get_value("H1").unwrap());
    assert_eq!("d2", last.get_value("H2").unwrap());
    assert_eq!("d3", last.get_value("H3").unwrap());
}

#[test]
fn insert_at_row_count_appends() {
    let mut file = abc_file();
    file.insert(3, data(&["D", "d2", "d3"])).unwrap();
    assert_eq!(4, file.get_body().len());
    assert_eq!("D", file.get_value("H1", 3).unwrap());
    assert_eq!("C", file.get_value("H1", 2).unwrap());
}

#[test]
fn insert_shifts_later_rows() {
    let mut file = abc_file();
    file.insert(0, data(&["Z", "z2", "z3"])).unwrap();
    let column: Vec<String> = (0..4).map(|i| file.get_value("H1", i).unwrap()).collect();
    assert_eq!(vec!["Z", "A", "B", "C"], column);
}

#[test]
fn update_keeps_other_rows() {
    let mut file = abc_file();
    file.update(2, data(&["X", "Y", "Z"])).unwrap();
    assert_eq!("a2", file.get_value("H2", 0).unwrap());
    assert_eq!("b3", file.get_value("H3", 1).unwrap());
    assert_eq!("Y", file.get_value("H2", 2).unwrap());
}

#[test]
fn update_at_row_count_is_out_of_range() {
    let mut file = abc_file();
    let e = file.update(3, data(&["X", "Y", "Z"])).unwrap_err();
    assert_eq!(e, CsvError::IndexOutOfRange { index: 3, bound: 3, access: Access::Position });
    assert_eq!("C", file.get_value("H1", 2).unwrap());
}

#[test]
fn remove_first_row_shifts_rest() {
    let mut file = abc_file();
    file.remove(0).unwrap();
    assert_eq!(2, file.get_body().len());
    assert_eq!("B", file.get_value("H1", 0).unwrap());
    assert_eq!("C", file.get_value("H1", 1).unwrap());
}

#[test]
fn remove_on_empty_body_is_out_of_range() {
    let mut header = CsvHeader::new();
    header.append("H1");
    let mut file = CsvFile::new(header, CsvBody::new());
    let e = file.remove(0).unwrap_err();
    assert_eq!(e, CsvError::IndexOutOfRange { index: 0, bound: 0, access: Access::Position });
}

#[test]
fn size_mismatch_leaves_document_unchanged() {
    let mut file = abc_file();
    let e = file.append(data(&["1", "2", "3", "4"])).unwrap_err();
    assert_eq!(e, CsvError::SizeMismatch { expected: 3, actual: 4 });
    let e = file.insert(0, data(&[])).unwrap_err();
    assert_eq!(e, CsvError::SizeMismatch { expected: 3, actual: 0 });
    let e = file.update(0, data(&["1"])).unwrap_err();
    assert_eq!(e, CsvError::SizeMismatch { expected: 3, actual: 1 });
    assert_eq!(3, file.get_body().len());
    let column: Vec<String> = (0..3).map(|i| file.get_value("H1", i).unwrap()).collect();
    assert_eq!(vec!["A", "B", "C"], column);
}

#[test]
fn size_is_checked_before_index() {
    let mut file = abc_file();
    let e = file.insert(9, data(&["1"])).unwrap_err();
    assert_eq!(e, CsvError::SizeMismatch { expected: 3, actual: 1 });
}

#[test]
fn build_row_pairs_values_with_columns() {
    let file = abc_file();
    let row = file.build_row(data(&["x", "y", "z"])).unwrap();
    assert_eq!(3, row.len());
    assert_eq!("y", row.get_value("H2").unwrap());
    let e = file.build_row(data(&["x"])).unwrap_err();
    assert_eq!(e, CsvError::SizeMismatch { expected: 3, actual: 1 });
}

#[test]
fn snapshots_are_independent() {
    let mut file = abc_file();
    let header = file.get_header();
    let body = file.get_body();
    file.remove(0).unwrap();
    assert_eq!(3, body.len());
    assert_eq!("A", body.get_row(0).unwrap().get_value("H1").unwrap());
    assert_eq!("H1", header.get_name(0).unwrap());
    assert_eq!(3, header.len());
}

#[test]
fn lookup_takes_first_matching_column() {
    let mut row = CsvRow::new();
    row.append(CsvData::new("k", "first"));
    row.append(CsvData::new("k", "second"));
    assert_eq!("first", row.get_value("k").unwrap());
}

#[test]
fn total_accessors_return_the_element() {
    let file = abc_file();
    assert_eq!("b2", file.get("H2", 1));
    assert_eq!("H3", file.get_header().get(2));
    assert_eq!("c3", file.get_body().get(2).get("H3"));
}

#[test]
fn column_not_found_carries_the_name() {
    let file = abc_file();
    let e = file.get_value("nope", 0).unwrap_err();
    assert_eq!(
        e,
        CsvError::ValueLookup {
            cause: Box::new(CsvError::ColumnNotFound { name: String::from("nope") })
        }
    );
}
