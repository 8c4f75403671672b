use delivery_slips::{
    extract_date_from_filename, merge_delivery_data, parse_date, sort_unique, validate_date_str,
    validate_delivery_data, CalDate, DeliveryItem, FileBatch, FileValidationError,
};

fn item(customer: &str, date: &str, no: &str, file: &str) -> DeliveryItem {
    DeliveryItem {
        product_name: "螺丝".to_string(),
        spec: "M3".to_string(),
        quantity: 1_000_000,
        unit: "个".to_string(),
        unit_price: 0,
        amount: 0,
        customer: customer.to_string(),
        date: date.to_string(),
        delivery_order_no: no.to_string(),
        order_no: String::new(),
        source_file: file.to_string(),
        customer_type: "monthly".to_string(),
    }
}

fn batch(path: &str, name: &str, items: Vec<DeliveryItem>) -> FileBatch {
    FileBatch { path: path.to_string(), file_name: name.to_string(), outcome: Ok(items) }
}

#[test]
fn duplicate_across_files_warns_once() {
    let batches = vec![
        batch("d/a.xlsx", "a.xlsx", vec![item("A", "2024-03-01", "DN-001", "d/a.xlsx")]),
        batch("d/b.xlsx", "b.xlsx", vec![item("A", "2024-03-02", "DN-001", "d/b.xlsx")]),
    ];
    let (items, errors, warnings) = validate_delivery_data(&batches);
    assert_eq!(items.len(), 2);
    assert!(errors.is_empty());
    assert_eq!(warnings.len(), 1);
    assert_eq!(warnings[0].file, "d/b.xlsx");
    assert_eq!(
        warnings[0].error,
        "duplicate delivery order number: customer 'A' order 'DN-001' already appears in file 'a.xlsx'"
    );
}

#[test]
fn duplicate_within_one_file_is_silent() {
    let batches = vec![batch(
        "d/a.xlsx",
        "a.xlsx",
        vec![
            item("A", "2024-03-01", "DN-001", "d/a.xlsx"),
            item("A", "2024-03-01", "DN-001", "d/a.xlsx"),
        ],
    )];
    let (items, errors, warnings) = validate_delivery_data(&batches);
    assert_eq!(items.len(), 2);
    assert!(errors.is_empty());
    assert!(warnings.is_empty());
}

#[test]
fn same_number_for_other_customers_is_fine() {
    let batches = vec![
        batch("a.xlsx", "a.xlsx", vec![item("A", "2024-03-01", "DN-001", "a.xlsx")]),
        batch("b.xlsx", "b.xlsx", vec![item("B", "2024-03-01", "DN-001", "b.xlsx")]),
    ];
    let (_, _, warnings) = validate_delivery_data(&batches);
    assert!(warnings.is_empty());
}

#[test]
fn bad_date_rejects_whole_file() {
    let batches = vec![
        batch(
            "bad.xlsx",
            "bad.xlsx",
            vec![item("A", "2024-03-01", "", "bad.xlsx"), item("A", "March", "", "bad.xlsx")],
        ),
        batch("good.xlsx", "good.xlsx", vec![item("B", "2024/03/01", "", "good.xlsx")]),
    ];
    let (items, errors, warnings) = validate_delivery_data(&batches);
    assert_eq!(items.len(), 1);
    assert_eq!(items[0].customer, "B");
    assert_eq!(
        errors,
        vec![FileValidationError {
            file: "bad.xlsx".to_string(),
            error: "invalid date 'March': unrecognized date format or invalid date".to_string()
        }]
    );
    assert!(warnings.is_empty());
}

#[test]
fn unreadable_and_empty_files() {
    let batches = vec![
        FileBatch {
            path: "x.xls".to_string(),
            file_name: "x.xls".to_string(),
            outcome: Err("no sheets".to_string()),
        },
        batch("y.xls", "y.xls", vec![]),
    ];
    let (items, errors, warnings) = validate_delivery_data(&batches);
    assert!(items.is_empty());
    assert_eq!(errors[0].error, "parse failed: no sheets");
    assert_eq!(errors[0].file, "x.xls");
    assert_eq!(warnings[0].error, "file contains no valid data or layout mismatch");
    assert_eq!(warnings[0].file, "y.xls");
}

#[test]
fn file_name_date_mismatch_warns_without_rejecting() {
    let batches = vec![batch(
        "d/送货单2024-03-05.xlsx",
        "送货单2024-03-05.xlsx",
        vec![
            item("A", "2024-03-06", "", "f"),
            item("A", "2024-03-06", "", "f"),
            item("A", "2024-03-05", "", "f"),
        ],
    )];
    let (items, errors, warnings) = validate_delivery_data(&batches);
    assert_eq!(items.len(), 3);
    assert!(errors.is_empty());
    assert_eq!(warnings.len(), 1);
    assert_eq!(
        warnings[0].error,
        "date mismatch: file name date (2024-03-05) differs from content date (2024-03-06)"
    );
}

#[test]
fn warnings_are_sorted_and_unique() {
    let w = |f: &str, e: &str| FileValidationError { file: f.to_string(), error: e.to_string() };
    let sorted = sort_unique(&vec![w("b", "2"), w("a", "9"), w("b", "1"), w("a", "9"), w("b", "2")]);
    assert_eq!(sorted, vec![w("a", "9"), w("b", "1"), w("b", "2")]);
}

#[test]
fn file_name_dates() {
    assert_eq!(
        extract_date_from_filename("送货单2024.3.5.xlsx"),
        Some(CalDate { year: 2024, month: 3, day: 5 })
    );
    assert_eq!(
        extract_date_from_filename("x-2023-12-31-y.xls"),
        Some(CalDate { year: 2023, month: 12, day: 31 })
    );
    assert_eq!(extract_date_from_filename("2024-02-30.xlsx"), None);
    assert_eq!(extract_date_from_filename("slip.xlsx"), None);
}

#[test]
fn record_date_formats() {
    assert_eq!(parse_date("2024年3月5日"), Some(CalDate { year: 2024, month: 3, day: 5 }));
    assert_eq!(parse_date("2024/03/05"), Some(CalDate { year: 2024, month: 3, day: 5 }));
    assert!(validate_date_str("2024-03-05"));
    assert!(!validate_date_str("05/03/2024"));
    assert!(!validate_date_str("2024-02-30"));
}

#[test]
fn merge_keeps_readable_files_in_order() {
    let batches = vec![
        batch("a", "a", vec![item("A", "bad", "", "a")]),
        FileBatch { path: "b".to_string(), file_name: "b".to_string(), outcome: Err("x".to_string()) },
        batch("c", "c", vec![item("C", "2024-01-01", "", "c"), item("D", "", "", "c")]),
    ];
    let all = merge_delivery_data(&batches);
    let customers: Vec<&str> = all.iter().map(|i| i.customer.as_str()).collect();
    assert_eq!(customers, vec!["A", "C", "D"]);
}
