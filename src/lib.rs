//! Extraction and reconciliation of delivery-order slips: reading the merchandise lines of
//! spreadsheets of varied layout, checking them across files, and summing them up.
//!
//! A worksheet is handed over as rows of [`Cell`]s (rows may differ in length). Every number the
//! library reads is held exactly, as a whole count of millionths of a unit within
//! [`MAX_MICROS`]; average prices are in hundredths. Each public function states its result in
//! its contract over the spec functions of its module:
//! - [`extract_delivery_data`]: the header row and column layout (`extract::layout_of`), the
//!   slip's customer, date and order numbers (`extract::meta_of`), and one record per data row
//!   that has a product name and a quantity (`extract::sheet_records`);
//! - [`validate_delivery_data`]: accepted records, errors and warnings (`reconcile::ledger_of`);
//! - [`generate_summary`] and [`group_by_customer_month`]: the two views over accepted records.
pub mod aggregate;
pub mod calendar;
pub mod cell;
pub mod extract;
pub mod models;
pub mod number;
pub mod reconcile;
pub mod statement;
pub mod text;

pub use aggregate::{
    extract_year_month, format_year_month, generate_summary, group_by_customer_month,
    CustomerMonthGroup,
};
pub use calendar::{date_of_serial, CalDate};
pub use cell::{date_string_of, number_of, Cell};
pub use extract::{extract_delivery_data, locate_layout, meta_value, Field, Layout, MetaField};
pub use models::{
    default_customer_type, is_workbook_file, items_bounded, missing_folder_report, scan_report,
    AppConfig, DeliveryItem, FileValidationError, ProcessResult, ProgressInfo, ScanResult,
    SummaryItem,
};
pub use number::{MAX_MICROS, MICROS_PER_UNIT};
pub use reconcile::{
    extract_date_from_filename, merge_delivery_data, parse_date, sort_unique, validate_date_str,
    validate_delivery_data, FileBatch,
};
pub use statement::{format_date, has_order_numbers, sort_by_date};
