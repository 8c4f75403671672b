use delivery_slips::{
    extract_year_month, format_year_month, generate_summary, group_by_customer_month,
    DeliveryItem,
};

fn item(product: &str, spec: &str, unit: &str, qty: i64, amount: i64, customer: &str, date: &str) -> DeliveryItem {
    DeliveryItem {
        product_name: product.to_string(),
        spec: spec.to_string(),
        quantity: qty * 1_000_000,
        unit: unit.to_string(),
        unit_price: 0,
        amount: amount * 1_000_000,
        customer: customer.to_string(),
        date: date.to_string(),
        delivery_order_no: String::new(),
        order_no: String::new(),
        source_file: String::new(),
        customer_type: "monthly".to_string(),
    }
}

#[test]
fn summary_of_two_lines() {
    let items = vec![
        item("A", "spec1", "kg", 10, 100, "X", "2024-01-01"),
        item("A", "spec1", "kg", 5, 60, "X", "2024-01-02"),
    ];
    let rows = generate_summary(&items);
    assert_eq!(rows.len(), 1);
    assert_eq!(rows[0].product_name, "A");
    assert_eq!(rows[0].quantity, 15_000_000);
    assert_eq!(rows[0].amount, 160_000_000);
    assert_eq!(rows[0].average_price, 1067);
    assert_eq!(rows[0].customers, "X");
}

#[test]
fn summary_orders_by_amount_and_keeps_ties_in_first_seen_order() {
    let items = vec![
        item("B", "", "m", 1, 50, "Y", ""),
        item("A", "", "m", 1, 80, "", ""),
        item("C", "", "m", 2, 50, "Z", ""),
        item("A", "", "m", 1, 0, "Y", ""),
        item("A", "", "m", 0, 0, "W", ""),
        item("B", "", "m", 0, 0, "Y", ""),
        item("D", "", "m", 0, 10, "", ""),
    ];
    let rows = generate_summary(&items);
    let order: Vec<&str> = rows.iter().map(|r| r.product_name.as_str()).collect();
    assert_eq!(order, vec!["A", "B", "C", "D"]);
    assert_eq!(rows[0].customers, "Y, W");
    assert_eq!(rows[0].average_price, 4000);
    assert_eq!(rows[1].customers, "Y");
    assert_eq!(rows[3].average_price, 0);
    assert_eq!(rows[3].customers, "");
}

#[test]
fn summary_rounds_half_away_from_zero() {
    let items = vec![item("A", "", "", 8, -1, "", ""), item("B", "", "", 8, 1, "", "")];
    let rows = generate_summary(&items);
    assert_eq!(rows[0].product_name, "B");
    assert_eq!(rows[0].average_price, 13);
    assert_eq!(rows[1].average_price, -13);
}

#[test]
fn empty_summary() {
    assert!(generate_summary(&Vec::new()).is_empty());
}

#[test]
fn year_month_buckets() {
    assert_eq!(extract_year_month("2024-03-15 08:00:00"), "2024-03");
    assert_eq!(extract_year_month("2024/3/5"), "2024-03");
    assert_eq!(extract_year_month("2024年12月05日"), "2024-12");
    assert_eq!(extract_year_month("2024-13-40x"), "2024-13");
    assert_eq!(extract_year_month("sometime"), "unknown");
    assert_eq!(extract_year_month(""), "unknown");
}

#[test]
fn groups_by_customer_and_month() {
    let items = vec![
        item("A", "", "", 1, 1, "X", "2024-01-05"),
        item("B", "", "", 1, 1, "Y", "2024-01-06"),
        item("C", "", "", 1, 1, "X", "2024/1/20"),
        item("D", "", "", 1, 1, "X", "2024-02-01"),
        item("E", "", "", 1, 1, "X", "later"),
    ];
    let groups = group_by_customer_month(&items);
    let keys: Vec<(&str, &str)> =
        groups.iter().map(|g| (g.customer.as_str(), g.year_month.as_str())).collect();
    assert_eq!(
        keys,
        vec![("X", "2024-01"), ("Y", "2024-01"), ("X", "2024-02"), ("X", "unknown")]
    );
    let first: Vec<&str> = groups[0].items.iter().map(|i| i.product_name.as_str()).collect();
    assert_eq!(first, vec!["A", "C"]);
}

#[test]
fn month_labels() {
    assert_eq!(format_year_month("2024-01"), "2024年1月");
    assert_eq!(format_year_month("2024-12"), "2024年12月");
    assert_eq!(format_year_month("unknown"), "unknown");
    assert_eq!(format_year_month("2024-01-05"), "2024-01-05");
    assert_eq!(format_year_month("24x-01"), "24x-01");
}
