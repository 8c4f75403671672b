use delivery_slips::{date_of_serial, date_string_of, number_of, CalDate, Cell};

fn text(s: &str) -> Cell {
    Cell::Text(s.to_string())
}

#[test]
fn serial_44927_is_new_year_2023() {
    assert_eq!(date_string_of(&Cell::Int(44927)), "2023-01-01");
}

#[test]
fn serial_pairs_match_known_dates() {
    assert_eq!(date_string_of(&Cell::Int(1)), "1899-12-31");
    assert_eq!(date_string_of(&Cell::Int(61)), "1900-03-01");
    assert_eq!(date_string_of(&Cell::Float("45000".to_string())), "2023-03-15");
    assert_eq!(date_string_of(&Cell::DateTime("45366.75".to_string())), "2024-03-15");
    assert_eq!(date_string_of(&Cell::Int(0)), "1899-12-30");
}

#[test]
fn serial_out_of_range_gives_empty_text() {
    assert_eq!(date_string_of(&Cell::Int(i64::MAX)), "");
    assert_eq!(
        date_of_serial(44927),
        Some(CalDate { year: 2023, month: 1, day: 1 })
    );
    assert_eq!(date_of_serial(-1_000_000_000), None);
}

#[test]
fn text_dates_are_normalized() {
    assert_eq!(date_string_of(&text("2024/3/5")), "2024-03-05");
    assert_eq!(date_string_of(&text(" 2024年03月05日 ")), "2024-03-05");
    assert_eq!(date_string_of(&text("25/12/2023")), "2023-12-25");
    assert_eq!(date_string_of(&text("not a date")), "not a date");
    assert_eq!(date_string_of(&Cell::Empty), "");
    assert_eq!(date_string_of(&Cell::Other("true".to_string())), "");
}

#[test]
fn numeric_string_with_unit_text() {
    assert_eq!(number_of(&text("160*1000米")), Some(160_000_000));
}

#[test]
fn numbers_from_each_cell_kind() {
    assert_eq!(number_of(&Cell::Int(12)), Some(12_000_000));
    assert_eq!(number_of(&Cell::Float("2.5".to_string())), Some(2_500_000));
    assert_eq!(number_of(&text(" -0.75 ")), Some(-750_000));
    assert_eq!(number_of(&text("+3")), Some(3_000_000));
    assert_eq!(number_of(&text(".5kg")), Some(500_000));
    assert_eq!(number_of(&text("1.23456789")), Some(1_234_568));
    assert_eq!(number_of(&text("")), None);
    assert_eq!(number_of(&text("abc")), None);
    assert_eq!(number_of(&text("1-2")), None);
    assert_eq!(number_of(&text("5½")), None);
    assert_eq!(number_of(&Cell::Empty), None);
    assert_eq!(number_of(&Cell::DateTime("45000".to_string())), None);
    assert_eq!(number_of(&Cell::Int(2_000_000_000)), None);
}
