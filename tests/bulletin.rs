use kandilli::decimal::{parse_decimal, Decimal};
use kandilli::deprem::{BulletinError, Column, Deprem, StructureError};

const ROW: &str = "01.01.2024 12:30:00.0  -.-  -.-  10.5  -.-  4.2  -.-  ILCE  (IL)";

/// 2024-01-01 12:30:00 at UTC+03:00, in seconds since the Unix epoch.
const ROW_SECONDS: i64 = 1704101400;

fn dec(s: &str) -> Option<Decimal> {
    parse_decimal(&s.chars().collect())
}

fn header() -> Vec<String> {
    (0..7).map(|i| format!("header line {}", i)).collect()
}

fn row(day: u32, district: &str, province: &str, magnitude: &str) -> String {
    format!(
        "{:02}.03.2024 08:15:42.5  37.2260   37.0143   7.0   -.-  {}  -.-  {}  ({})",
        day, magnitude, district, province
    )
}

fn block_with(rows: &[String]) -> String {
    let mut lines = header();
    lines.extend(rows.iter().cloned());
    lines.join("\n")
}

fn page(block: &str) -> String {
    format!("<html><body><h1>Son depremler</h1><pre>{}</pre><pre>second</pre></body></html>", block)
}

fn three_rows() -> Vec<String> {
    vec![
        row(3, "SINDIRGI", "BALIKESIR", "2.1"),
        row(2, "ELBISTAN", "KAHRAMANMARAS", "3.4"),
        row(1, "MERKEZ", "VAN", "1.9"),
    ]
}

#[test]
fn parse_row_synthetic() {
    let d = Deprem::parse_row(ROW, 0).unwrap();
    assert_eq!(d.ilce, "ILCE");
    assert_eq!(d.il, "IL");
    assert_eq!(d.tarih, "01.01.2024");
    assert_eq!(d.derinlik, Decimal { negative: false, mantissa: 105, scale: 1, exponent: 0 });
    assert_eq!(d.buyukluk, Decimal { negative: false, mantissa: 42, scale: 1, exponent: 0 });
    assert_eq!(d.saat, ROW_SECONDS);
}

#[test]
fn parse_row_depth_not_numeric() {
    let line = ROW.replace("10.5", "abc");
    match Deprem::parse_row(&line, 4) {
        Err(BulletinError::FieldParse { row, column, text }) => {
            assert_eq!(row, 4);
            assert_eq!(column, Column::Depth);
            assert_eq!(text, "abc");
        }
        other => panic!("unexpected {:?}", other),
    }
}

#[test]
fn parse_row_magnitude_not_numeric() {
    let line = ROW.replace("4.2", "-.-");
    match Deprem::parse_row(&line, 0) {
        Err(BulletinError::FieldParse { column, text, .. }) => {
            assert_eq!(column, Column::Magnitude);
            assert_eq!(text, "-.-");
        }
        other => panic!("unexpected {:?}", other),
    }
}

#[test]
fn parse_row_bad_date() {
    let line = ROW.replace("01.01.2024", "2024.01.01");
    match Deprem::parse_row(&line, 0) {
        Err(BulletinError::FieldParse { column, text, .. }) => {
            assert_eq!(column, Column::Date);
            assert_eq!(text, "2024.01.01");
        }
        other => panic!("unexpected {:?}", other),
    }
}

#[test]
fn parse_row_bad_time_shape() {
    let line = ROW.replace("12:30:00.0", "12:30");
    match Deprem::parse_row(&line, 0) {
        Err(BulletinError::FieldParse { column, text, .. }) => {
            assert_eq!(column, Column::Time);
            assert_eq!(text, "12:30");
        }
        other => panic!("unexpected {:?}", other),
    }
}

#[test]
fn parse_row_impossible_date_is_time_error() {
    let line = ROW.replace("01.01.2024", "31.02.2024");
    match Deprem::parse_row(&line, 0) {
        Err(BulletinError::FieldParse { column, text, .. }) => {
            assert_eq!(column, Column::Time);
            assert_eq!(text, "12:30:00.0");
        }
        other => panic!("unexpected {:?}", other),
    }
}

#[test]
fn parse_row_time_without_fraction() {
    let line = ROW.replace("12:30:00.0", "12:30:00");
    let d = Deprem::parse_row(&line, 0).unwrap();
    assert_eq!(d.saat, ROW_SECONDS);
}

#[test]
fn parse_row_fraction_is_truncated() {
    let line = ROW.replace("12:30:00.0", "12:30:59.99");
    let d = Deprem::parse_row(&line, 0).unwrap();
    assert_eq!(d.saat, ROW_SECONDS + 59);
}

#[test]
fn parse_row_too_few_columns() {
    match Deprem::parse_row("01.01.2024 12:30:00.0  -.-  -.-  10.5", 2) {
        Err(BulletinError::Structure(e)) => {
            assert_eq!(e, StructureError::TooFewColumns { row: 2, found: 5 })
        }
        other => panic!("unexpected {:?}", other),
    }
    match Deprem::parse_row("", 0) {
        Err(BulletinError::Structure(e)) => {
            assert_eq!(e, StructureError::TooFewColumns { row: 0, found: 0 })
        }
        other => panic!("unexpected {:?}", other),
    }
}

#[test]
fn parse_row_tabs_and_carriage_return() {
    let line = "01.01.2024\t12:30:00.0 -.- -.- 10.5 -.- 4.2 -.- ILCE (IL)\r";
    let d = Deprem::parse_row(line, 0).unwrap();
    assert_eq!(d.il, "IL");
    assert_eq!(d.saat, ROW_SECONDS);
}

#[test]
fn province_stripping_is_exact() {
    let d = Deprem::parse_row(&ROW.replace("(IL)", "(Van)"), 0).unwrap();
    assert_eq!(d.il, "Van");
    let d = Deprem::parse_row(&ROW.replace("(IL)", "(Van"), 0).unwrap();
    assert_eq!(d.il, "(Van");
    let d = Deprem::parse_row(&ROW.replace("(IL)", "Van)"), 0).unwrap();
    assert_eq!(d.il, "Van)");
    let d = Deprem::parse_row(&ROW.replace("(IL)", "(A(B)C)"), 0).unwrap();
    assert_eq!(d.il, "A(B)C");
    let d = Deprem::parse_row(&ROW.replace("(IL)", "()"), 0).unwrap();
    assert_eq!(d.il, "");
}

#[test]
fn block_rows_in_order() {
    let rows = three_rows();
    let events = Deprem::from_block(&block_with(&rows), 3).unwrap();
    assert_eq!(events.len(), 3);
    let districts: Vec<&str> = events.iter().map(|e| e.ilce.as_str()).collect();
    assert_eq!(districts, vec!["SINDIRGI", "ELBISTAN", "MERKEZ"]);
    assert_eq!(events[1].il, "KAHRAMANMARAS");
    assert_eq!(events[2].tarih, "01.03.2024");
    assert_eq!(events[0].buyukluk, Decimal { negative: false, mantissa: 21, scale: 1, exponent: 0 });
    let two = Deprem::from_block(&block_with(&rows), 2).unwrap();
    assert_eq!(two.len(), 2);
    assert_eq!(two[1].ilce, "ELBISTAN");
    assert_eq!(Deprem::from_block(&block_with(&rows), 0).unwrap().len(), 0);
}

#[test]
fn block_of_six_lines_is_structure_error() {
    let block = header()[..6].join("\n");
    match Deprem::from_block(&block, 1) {
        Err(BulletinError::Structure(e)) => assert_eq!(e, StructureError::TooFewLines { lines: 6 }),
        other => panic!("unexpected {:?}", other),
    }
    match Deprem::en_son_olan(&page(&block)) {
        Err(BulletinError::Structure(e)) => assert_eq!(e, StructureError::TooFewLines { lines: 6 }),
        other => panic!("unexpected {:?}", other),
    }
}

#[test]
fn ten_rows_of_three_is_structure_error() {
    match Deprem::from_block(&block_with(&three_rows()), 10) {
        Err(BulletinError::Structure(e)) => {
            assert_eq!(e, StructureError::TooFewRows { requested: 10, available: 3 })
        }
        other => panic!("unexpected {:?}", other),
    }
}

#[test]
fn header_only_has_no_latest() {
    let block = header().join("\n");
    match Deprem::en_son_olan(&page(&block)) {
        Err(BulletinError::Structure(e)) => {
            assert_eq!(e, StructureError::TooFewRows { requested: 1, available: 0 })
        }
        other => panic!("unexpected {:?}", other),
    }
}

#[test]
fn failing_row_fails_the_whole_request() {
    let mut rows = three_rows();
    rows[1] = rows[1].replace("7.0", "x");
    match Deprem::from_block(&block_with(&rows), 3) {
        Err(BulletinError::FieldParse { row, column, text }) => {
            assert_eq!((row, column, text.as_str()), (1, Column::Depth, "x"));
        }
        other => panic!("unexpected {:?}", other),
    }
    assert_eq!(Deprem::from_block(&block_with(&rows), 1).unwrap().len(), 1);
}

#[test]
fn page_latest_matches_first_of_one() {
    let html = page(&block_with(&three_rows()));
    let latest = Deprem::en_son_olan(&html).unwrap();
    let one = Deprem::en_son_olanlar(&html, 1).unwrap();
    assert_eq!(one.len(), 1);
    assert_eq!(latest.il, one[0].il);
    assert_eq!(latest.ilce, one[0].ilce);
    assert_eq!(latest.tarih, one[0].tarih);
    assert_eq!(latest.saat, one[0].saat);
    assert_eq!(latest.derinlik, one[0].derinlik);
    assert_eq!(latest.buyukluk, one[0].buyukluk);
    assert_eq!(latest.ilce, "SINDIRGI");
    assert_eq!(Deprem::en_son_olanlar(&html, 3).unwrap()[2].ilce, "MERKEZ");
}

#[test]
fn page_without_block() {
    match Deprem::en_son_olanlar("<html><body><p>bakim</p></body></html>", 1) {
        Err(BulletinError::Structure(e)) => assert_eq!(e, StructureError::MissingBlock),
        other => panic!("unexpected {:?}", other),
    }
    match Deprem::en_son_olan("") {
        Err(BulletinError::Structure(e)) => assert_eq!(e, StructureError::MissingBlock),
        other => panic!("unexpected {:?}", other),
    }
}

#[test]
fn decimals() {
    assert_eq!(dec("10.5"), Some(Decimal { negative: false, mantissa: 105, scale: 1, exponent: 0 }));
    assert_eq!(dec("-1.25"), Some(Decimal { negative: true, mantissa: 125, scale: 2, exponent: 0 }));
    assert_eq!(dec("+3"), Some(Decimal { negative: false, mantissa: 3, scale: 0, exponent: 0 }));
    assert_eq!(dec(".5"), Some(Decimal { negative: false, mantissa: 5, scale: 1, exponent: 0 }));
    assert_eq!(dec("7."), Some(Decimal { negative: false, mantissa: 7, scale: 0, exponent: 0 }));
    assert_eq!(dec("0.00"), Some(Decimal { negative: false, mantissa: 0, scale: 2, exponent: 0 }));
    assert_eq!(
        dec("9999999999999999999"),
        Some(Decimal { negative: false, mantissa: 9999999999999999999, scale: 0, exponent: 0 })
    );
    assert_eq!(dec("99999999999999999999"), None);
    assert_eq!(dec(""), None);
    assert_eq!(dec("-"), None);
    assert_eq!(dec("."), None);
    assert_eq!(dec("-.-"), None);
    assert_eq!(dec("1.2.3"), None);
    assert_eq!(dec("1E5"), Some(Decimal { negative: false, mantissa: 1, scale: 0, exponent: 5 }));
    assert_eq!(
        dec("-2.5e-3"),
        Some(Decimal { negative: true, mantissa: 25, scale: 1, exponent: -3 })
    );
    assert_eq!(dec("4e+07"), Some(Decimal { negative: false, mantissa: 4, scale: 0, exponent: 7 }));
    assert_eq!(
        dec("1e999999999"),
        Some(Decimal { negative: false, mantissa: 1, scale: 0, exponent: 999999999 })
    );
    assert_eq!(dec("1e1000000000"), None);
    assert_eq!(dec("1e"), None);
    assert_eq!(dec("1e-"), None);
    assert_eq!(dec("e5"), None);
    assert_eq!(dec("1e2.5"), None);
    assert_eq!(dec("1e2e3"), None);
    assert_eq!(dec("inf"), None);
    assert_eq!(dec("abc"), None);
}

fn tokens(line: &str) -> Vec<Vec<char>> {
    line.split_whitespace().map(|t| t.chars().collect()).collect()
}

#[test]
fn from_tokens_takes_given_seconds() {
    let d = Deprem::from_tokens(&tokens(ROW), 5, Some(42)).unwrap();
    assert_eq!(d.saat, 42);
    assert_eq!(d.il, "IL");
    match Deprem::from_tokens(&tokens(ROW), 5, None) {
        Err(BulletinError::FieldParse { row, column, text }) => {
            assert_eq!((row, column, text.as_str()), (5, Column::Time, "12:30:00.0"));
        }
        other => panic!("unexpected {:?}", other),
    }
}


#[test]
fn parse_row_unicode_whitespace() {
    let line = "01.01.2024\u{0B}12:30:00.0\u{A0}-.- -.-\u{3000}10.5 -.- 4.2 -.-\u{2003}ILCE (IL)";
    let d = Deprem::parse_row(line, 0).unwrap();
    assert_eq!(d.ilce, "ILCE");
    assert_eq!(d.derinlik, Decimal { negative: false, mantissa: 105, scale: 1, exponent: 0 });
}

#[test]
fn parse_row_exponent_depth() {
    let d = Deprem::parse_row(&ROW.replace("10.5", "1.05e1"), 0).unwrap();
    assert_eq!(d.derinlik, Decimal { negative: false, mantissa: 105, scale: 2, exponent: 1 });
}

#[test]
fn latest_from_block_is_first_row() {
    let d = Deprem::latest_from_block(&block_with(&three_rows())).unwrap();
    assert_eq!(d.ilce, "SINDIRGI");
    assert_eq!(d.tarih, "03.03.2024");
    match Deprem::latest_from_block(&header().join("\n")) {
        Err(BulletinError::Structure(e)) => {
            assert_eq!(e, StructureError::TooFewRows { requested: 1, available: 0 })
        }
        other => panic!("unexpected {:?}", other),
    }
}
