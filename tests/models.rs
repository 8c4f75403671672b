use delivery_slips::{
    default_customer_type, is_workbook_file, items_bounded, missing_folder_report, scan_report,
    AppConfig, FileValidationError,
};

#[test]
fn default_configuration() {
    let c = AppConfig::default();
    assert_eq!(c.company_name, "百惠行对账单");
    assert_eq!(c.raw_data_path, "raw-data");
    assert_eq!(c.output_path, "output");
    assert_eq!(c.phone, "(0769) 83631717");
    assert_eq!(default_customer_type(), "monthly");
}

#[test]
fn scan_reports() {
    let w = FileValidationError { file: "a".to_string(), error: "e".to_string() };
    let ok = scan_report(3, Vec::new(), Vec::new(), vec![w.clone()]);
    assert!(ok.success);
    assert_eq!(ok.message, "data validated with 1 warnings");
    assert_eq!(ok.valid_files, 2);
    let bad = scan_report(1, Vec::new(), vec![w.clone()], vec![w.clone(), w.clone()]);
    assert!(!bad.success);
    assert_eq!(bad.message, "problems found in 1 files");
    assert_eq!(bad.valid_files, 0);
    assert_eq!(scan_report(0, Vec::new(), Vec::new(), Vec::new()).message, "no Excel files found");
    assert_eq!(scan_report(2, Vec::new(), Vec::new(), Vec::new()).message, "data validated");
    assert!(!missing_folder_report().success);
}

#[test]
fn workbook_file_names() {
    assert!(is_workbook_file("a.xls", "xls"));
    assert!(is_workbook_file("a.XLSX", "XLSX"));
    assert!(!is_workbook_file("~$a.xlsx", "xlsx"));
    assert!(!is_workbook_file("a.csv", "csv"));
}

#[test]
fn bounded_amounts() {
    assert!(items_bounded(&Vec::new()));
}
