//! The records the library produces and the values it hands to its callers.
use vstd::prelude::*;

use crate::number::MAX_MICROS;

verus! {

/// One merchandise line of a delivery slip. Quantity, unit price and amount are counts of
/// millionths of a unit.
#[derive(Clone, Debug, PartialEq, Eq)]
pub struct DeliveryItem {
    pub product_name: String,
    pub spec: String,
    pub quantity: i64,
    pub unit: String,
    pub unit_price: i64,
    pub amount: i64,
    pub customer: String,
    pub date: String,
    pub delivery_order_no: String,
    /// The purchase-order number.
    pub order_no: String,
    pub source_file: String,
    /// The classification of the customer, from the folder the file was found in.
    pub customer_type: String,
}

/// A `DeliveryItem` as mathematical values.
#[verifier::ext_equal]
pub struct ItemView {
    pub product_name: Seq<char>,
    pub spec: Seq<char>,
    pub quantity: int,
    pub unit: Seq<char>,
    pub unit_price: int,
    pub amount: int,
    pub customer: Seq<char>,
    pub date: Seq<char>,
    pub delivery_order_no: Seq<char>,
    pub order_no: Seq<char>,
    pub source_file: Seq<char>,
    pub customer_type: Seq<char>,
}

impl View for DeliveryItem {
    type V = ItemView;

    open spec fn view(&self) -> ItemView {
        ItemView {
            product_name: self.product_name@,
            spec: self.spec@,
            quantity: self.quantity as int,
            unit: self.unit@,
            unit_price: self.unit_price as int,
            amount: self.amount as int,
            customer: self.customer@,
            date: self.date@,
            delivery_order_no: self.delivery_order_no@,
            order_no: self.order_no@,
            source_file: self.source_file@,
            customer_type: self.customer_type@,
        }
    }
}

pub open spec fn item_views(v: Seq<DeliveryItem>) -> Seq<ItemView> {
    v.map_values(|i: DeliveryItem| i@)
}

/// Every quantity and amount is within `MAX_MICROS`, as every number read from a cell is.
pub open spec fn amounts_bounded(s: Seq<ItemView>) -> bool {
    forall|i: int|
        0 <= i < s.len() ==> -MAX_MICROS <= (#[trigger] s[i]).quantity <= MAX_MICROS && -MAX_MICROS
            <= s[i].amount <= MAX_MICROS
}

impl DeliveryItem {
    /// A copy of this record.
    pub fn duplicate(&self) -> (r: DeliveryItem)
        ensures
            r@ == self@,
    {
        DeliveryItem {
            product_name: self.product_name.clone(),
            spec: self.spec.clone(),
            quantity: self.quantity,
            unit: self.unit.clone(),
            unit_price: self.unit_price,
            amount: self.amount,
            customer: self.customer.clone(),
            date: self.date.clone(),
            delivery_order_no: self.delivery_order_no.clone(),
            order_no: self.order_no.clone(),
            source_file: self.source_file.clone(),
            customer_type: self.customer_type.clone(),
        }
    }
}

/// The customer type of a record whose folder gave none.
pub fn default_customer_type() -> (r: String)
    ensures
        r@ == "monthly"@,
{
    String::from_str("monthly")
}

/// Totals for one (product, spec, unit): quantity and amount in millionths, the average price
/// in hundredths of a unit, and the customers joined with ", " in order of first appearance.
#[derive(Clone, Debug, PartialEq, Eq)]
pub struct SummaryItem {
    pub product_name: String,
    pub spec: String,
    pub unit: String,
    pub quantity: i128,
    pub average_price: i128,
    pub amount: i128,
    pub customers: String,
}

/// A problem found in one file.
#[derive(Clone, Debug, PartialEq, Eq)]
pub struct FileValidationError {
    pub file: String,
    pub error: String,
}

/// The company details and folders that a run works with.
#[derive(Clone, Debug, PartialEq, Eq)]
pub struct AppConfig {
    pub company_name: String,
    pub address: String,
    pub phone: String,
    pub fax: String,
    pub raw_data_path: String,
    pub output_path: String,
}

impl Default for AppConfig {
    fn default() -> (r: AppConfig)
        ensures
            r.company_name@ == "百惠行对账单"@,
            r.address@ == "东莞市黄江镇华南塑胶城区132号"@,
            r.phone@ == "(0769) 83631717"@,
            r.fax@ == "83637787"@,
            r.raw_data_path@ == "raw-data"@,
            r.output_path@ == "output"@,
    {
        AppConfig {
            company_name: String::from_str("百惠行对账单"),
            address: String::from_str("东莞市黄江镇华南塑胶城区132号"),
            phone: String::from_str("(0769) 83631717"),
            fax: String::from_str("83637787"),
            raw_data_path: String::from_str("raw-data"),
            output_path: String::from_str("output"),
        }
    }
}

/// Progress of a long run, for display.
#[derive(Clone, Debug, PartialEq, Eq)]
pub struct ProgressInfo {
    pub step: String,
    pub current: usize,
    pub total: usize,
    pub message: String,
}

/// The outcome of generating statements.
#[derive(Clone, Debug, PartialEq, Eq)]
pub struct ProcessResult {
    pub success: bool,
    pub message: String,
    pub generated_count: usize,
    pub skipped_count: usize,
    pub output_path: String,
}

/// The outcome of scanning and validating a folder of slips.
#[derive(Clone, Debug, PartialEq, Eq)]
pub struct ScanResult {
    pub success: bool,
    pub message: String,
    pub total_files: usize,
    pub valid_files: usize,
    pub errors: Vec<FileValidationError>,
    pub warnings: Vec<FileValidationError>,
    pub items: Vec<DeliveryItem>,
}

/// Whether every record's quantity and amount are within `MAX_MICROS`.
pub fn items_bounded(items: &Vec<DeliveryItem>) -> (r: bool)
    ensures
        r == amounts_bounded(item_views(items@)),
{
    let mut i: usize = 0;
    while i < items.len()
        invariant
            i <= items.len(),
            forall|j: int|
                0 <= j < i ==> -MAX_MICROS <= (#[trigger] item_views(items@)[j]).quantity
                    <= MAX_MICROS && -MAX_MICROS <= item_views(items@)[j].amount <= MAX_MICROS,
        decreases items.len() - i,
    {
        let q = items[i].quantity;
        let a = items[i].amount;
        if q < -MAX_MICROS || q > MAX_MICROS || a < -MAX_MICROS || a > MAX_MICROS {
            assert(item_views(items@)[i as int] == items@[i as int]@);
            return false;
        }
        assert(item_views(items@)[i as int] == items@[i as int]@);
        i += 1;
    }
    true
}

/// The outcome of a scan whose folder does not exist.
pub fn missing_folder_report() -> (r: ScanResult)
    ensures
        !r.success,
        r.message@ == "raw data folder does not exist"@,
        r.total_files == 0,
        r.valid_files == 0,
        r.errors@.len() == 0,
        r.warnings@.len() == 0,
        r.items@.len() == 0,
{
    ScanResult {
        success: false,
        message: String::from_str("raw data folder does not exist"),
        total_files: 0,
        valid_files: 0,
        errors: Vec::new(),
        warnings: Vec::new(),
        items: Vec::new(),
    }
}

/// What a scan reports about `total_files` files given the outcome of validating them.
pub open spec fn scan_message(total_files: nat, errors: nat, warnings: nat) -> Seq<char> {
    if total_files == 0 {
        "no Excel files found"@
    } else if errors == 0 && warnings == 0 {
        "data validated"@
    } else if errors == 0 {
        "data validated with "@ + crate::text::int_text(warnings as int) + " warnings"@
    } else {
        "problems found in "@ + crate::text::int_text(errors as int) + " files"@
    }
}

/// The outcome of scanning `total_files` files and validating them: successful when there is
/// no error, and the files without an issue counted as valid (never below zero).
pub fn scan_report(
    total_files: usize,
    items: Vec<DeliveryItem>,
    errors: Vec<FileValidationError>,
    warnings: Vec<FileValidationError>,
) -> (r: ScanResult)
    ensures
        r.success == (errors@.len() == 0),
        r.message@ == scan_message(total_files as nat, errors@.len(), warnings@.len()),
        r.total_files == total_files,
        r.valid_files == if total_files >= errors@.len() + warnings@.len() {
            total_files - errors@.len() - warnings@.len()
        } else {
            0
        },
        r.items@ == items@,
        r.errors@ == errors@,
        r.warnings@ == warnings@,
{
    let ne = errors.len();
    let nw = warnings.len();
    let message = if total_files == 0 {
        String::from_str("no Excel files found")
    } else if ne == 0 && nw == 0 {
        String::from_str("data validated")
    } else if ne == 0 {
        let mut m = String::from_str("data validated with ");
        m.append(crate::text::string_of(&crate::text::digits_of(nw as u64)).as_str());
        m.append(" warnings");
        m
    } else {
        let mut m = String::from_str("problems found in ");
        m.append(crate::text::string_of(&crate::text::digits_of(ne as u64)).as_str());
        m.append(" files");
        m
    };
    let valid = if total_files >= ne && total_files - ne >= nw {
        total_files - ne - nw
    } else {
        0
    };
    ScanResult {
        success: ne == 0,
        message,
        total_files,
        valid_files: valid,
        errors,
        warnings,
        items,
    }
}

/// Whether a file found while scanning is a workbook to read: its extension is `xls` or `xlsx`
/// in any case, and its name does not start with `~$` (an office lock file).
pub fn is_workbook_file(file_name: &str, extension: &str) -> (r: bool)
    ensures
        r == ((crate::text::lower_seq(extension@) == "xls"@ || crate::text::lower_seq(extension@)
            == "xlsx"@) && !(file_name@.len() >= 2 && file_name@[0] == '~' && file_name@[1]
            == '$')),
{
    let ext = crate::text::lower_chars(&crate::text::chars_of(extension));
    let known = crate::text::same_chars(&ext, &crate::text::chars_of("xls"))
        || crate::text::same_chars(&ext, &crate::text::chars_of("xlsx"));
    let name = crate::text::chars_of(file_name);
    let lock = name.len() >= 2 && name[0] == '~' && name[1] == '$';
    known && !lock
}

} // verus!
