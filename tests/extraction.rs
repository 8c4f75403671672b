use delivery_slips::{extract_delivery_data, locate_layout, Cell, DeliveryItem, Layout};

fn t(s: &str) -> Cell {
    Cell::Text(s.to_string())
}

fn slip() -> Vec<Vec<Cell>> {
    vec![
        vec![t("送货单")],
        vec![t("客户：华南塑胶"), Cell::Empty, t("日期："), Cell::Int(45366)],
        vec![t("NO:DN-001")],
        vec![t("货名"), t("规格"), t("数量"), t("单位"), t("单价"), t("金额")],
        vec![t("螺丝\n\"M3\""), t(" 10mm "), Cell::Int(100), t("个"), Cell::Float("0.5".to_string()), Cell::Int(50)],
        vec![t(""), t("x"), Cell::Int(5), t("个")],
        vec![t("垫片"), t("6mm"), t("未定"), t("个")],
        vec![t("弹簧"), t(""), t("20件"), t("件"), t("1.25"), t("25"), t("备注 订单号：PO-88")],
        vec![t("合计"), Cell::Empty, Cell::Int(120)],
        vec![t("尾行"), Cell::Empty, Cell::Int(1)],
    ]
}

#[test]
fn slip_with_header_and_metadata() {
    let items = extract_delivery_data(&slip(), "/data/a/slip.xlsx", "monthly");
    assert_eq!(items.len(), 2);
    let a = &items[0];
    assert_eq!(a.product_name, "螺丝 M3");
    assert_eq!(a.spec, "10mm");
    assert_eq!(a.quantity, 100_000_000);
    assert_eq!(a.unit, "个");
    assert_eq!(a.unit_price, 500_000);
    assert_eq!(a.amount, 50_000_000);
    assert_eq!(a.customer, "华南塑胶");
    assert_eq!(a.date, "2024-03-15");
    assert_eq!(a.delivery_order_no, "DN-001");
    assert_eq!(a.order_no, "PO-88");
    assert_eq!(a.source_file, "/data/a/slip.xlsx");
    assert_eq!(a.customer_type, "monthly");
    let b = &items[1];
    assert_eq!(b.product_name, "弹簧");
    assert_eq!(b.quantity, 20_000_000);
    assert_eq!(b.unit_price, 1_250_000);
    assert_eq!(b.amount, 25_000_000);
    assert_eq!(b.order_no, "PO-88");
}

#[test]
fn extraction_is_repeatable() {
    let sheet = slip();
    let first: Vec<DeliveryItem> = extract_delivery_data(&sheet, "f.xlsx", "cash");
    let second: Vec<DeliveryItem> = extract_delivery_data(&sheet, "f.xlsx", "cash");
    assert_eq!(first, second);
}

#[test]
fn rows_need_a_name_and_a_quantity() {
    let items = extract_delivery_data(&slip(), "f.xlsx", "monthly");
    let names: Vec<&str> = items.iter().map(|i| i.product_name.as_str()).collect();
    assert_eq!(names, vec!["螺丝 M3", "弹簧"]);
}

#[test]
fn header_fallback_uses_default_columns() {
    let mut sheet: Vec<Vec<Cell>> = Vec::new();
    for _ in 0..8 {
        sheet.push(vec![t("备注")]);
    }
    sheet.push(vec![t("胶带"), Cell::Empty, t("48mm"), Cell::Empty, Cell::Int(3), t("卷")]);
    sheet.push(vec![t("胶水"), Cell::Empty, t("500ml"), Cell::Empty, t("abc"), t("瓶")]);
    let layout = locate_layout(&sheet);
    assert_eq!(
        layout,
        Layout {
            product: 0,
            spec: 2,
            quantity: 4,
            unit: 5,
            price: None,
            amount: None,
            order_no: None,
            data_start: 8
        }
    );
    let items = extract_delivery_data(&sheet, "f.xlsx", "monthly");
    assert_eq!(items.len(), 1);
    assert_eq!(items[0].product_name, "胶带");
    assert_eq!(items[0].spec, "48mm");
    assert_eq!(items[0].quantity, 3_000_000);
    assert_eq!(items[0].unit, "卷");
    assert_eq!(items[0].unit_price, 0);
    assert_eq!(items[0].amount, 0);
}

#[test]
fn metadata_from_adjacent_cells() {
    let sheet = vec![
        vec![t("客户"), t(" 东莞五金 "), t("单号"), t("A-9")],
        vec![t("日期"), t("2024/1/2")],
        vec![t("Description"), t("Quantity"), t("Unit Price"), t("Amount"), t("PO")],
        vec![t("铜线"), Cell::Int(7), Cell::Int(2), Cell::Int(14), t("P-1")],
        vec![t("铝线"), Cell::Int(1), Cell::Int(2), Cell::Int(2), t("")],
    ];
    let items = extract_delivery_data(&sheet, "f.xlsx", "cash");
    assert_eq!(items.len(), 2);
    assert_eq!(items[0].customer, "东莞五金");
    assert_eq!(items[0].delivery_order_no, "A-9");
    assert_eq!(items[0].date, "2024-01-02");
    assert_eq!(items[0].unit_price, 2_000_000);
    assert_eq!(items[0].order_no, "P-1");
    assert_eq!(items[1].order_no, "");
    assert_eq!(items[1].spec, "2");
}

#[test]
fn delivery_number_after_no_prefix() {
    let sheet = vec![
        vec![t("No12345")],
        vec![t("货名"), t("规格"), t("数量")],
        vec![t("钉"), t("-"), Cell::Int(1)],
    ];
    let items = extract_delivery_data(&sheet, "f.xlsx", "cash");
    assert_eq!(items.len(), 1);
    assert_eq!(items[0].delivery_order_no, "12345");
    assert_eq!(items[0].customer, "");
}

#[test]
fn ragged_rows_do_not_fail() {
    let sheet = vec![
        vec![t("货名"), t("规格"), t("数量"), t("单位"), t("单价"), t("金额")],
        vec![t("板")],
        vec![],
        vec![t("管"), t("长"), Cell::Int(2)],
    ];
    let items = extract_delivery_data(&sheet, "f.xlsx", "cash");
    assert_eq!(items.len(), 1);
    assert_eq!(items[0].unit, "");
    assert_eq!(items[0].unit_price, 0);
}

#[test]
fn order_number_from_a_remark_row() {
    let mut sheet: Vec<Vec<Cell>> = vec![vec![t("货名"), t("规格"), t("数量")]];
    for _ in 0..10 {
        sheet.push(vec![t("-")]);
    }
    sheet.push(vec![t("甲"), t(""), Cell::Int(1)]);
    sheet.push(vec![t("乙"), t(""), Cell::Int(2), t("订单号：PO-5")]);
    sheet.push(vec![t("丙"), t(""), Cell::Int(3), t("订单号：PO-6")]);
    let items = extract_delivery_data(&sheet, "f.xlsx", "cash");
    let orders: Vec<&str> = items.iter().map(|i| i.order_no.as_str()).collect();
    assert_eq!(orders, vec!["", "PO-5", "PO-5"]);
}

#[test]
fn any_column_label_makes_the_header_row() {
    let sheet = vec![
        vec![t("title")],
        vec![t("x"), t("数量"), t("单位")],
        vec![t("板"), Cell::Int(4), t("块")],
    ];
    let layout = locate_layout(&sheet);
    assert_eq!(layout.data_start, 2);
    assert_eq!(layout.product, 0);
    assert_eq!(layout.quantity, 1);
    assert_eq!(layout.unit, 2);
    let items = extract_delivery_data(&sheet, "f.xlsx", "cash");
    assert_eq!(items.len(), 1);
    assert_eq!(items[0].quantity, 4_000_000);
    assert_eq!(items[0].unit, "块");
}

#[test]
fn metadata_written_in_the_announcing_cell() {
    let sheet = vec![
        vec![t("收货客户:  新发厂 ")],
        vec![t("日期：2024年3月5日"), t("单号：D-7")],
        vec![t("货名"), t("规格"), t("数量")],
        vec![t("扣"), t(""), Cell::Float("2.75".to_string())],
    ];
    let items = extract_delivery_data(&sheet, "f.xlsx", "cash");
    assert_eq!(items.len(), 1);
    assert_eq!(items[0].customer, "新发厂");
    assert_eq!(items[0].date, "2024-03-05");
    assert_eq!(items[0].delivery_order_no, "D-7");
    assert_eq!(items[0].quantity, 2_750_000);
}

#[test]
fn totals_row_ends_the_lines() {
    let sheet = vec![
        vec![t("货名"), t("规格"), t("数量")],
        vec![t("甲"), t(""), Cell::Int(1)],
        vec![t("送货单位签收")],
        vec![t("乙"), t(""), Cell::Int(2)],
    ];
    let items = extract_delivery_data(&sheet, "f.xlsx", "cash");
    assert_eq!(items.len(), 1);
    assert_eq!(items[0].product_name, "甲");
}

#[test]
fn longer_label_is_not_a_number_label() {
    let sheet = vec![
        vec![t("送货单号：D-7")],
        vec![t("货名"), t("规格"), t("数量")],
        vec![t("扣"), t(""), Cell::Int(1)],
    ];
    let items = extract_delivery_data(&sheet, "f.xlsx", "cash");
    assert_eq!(items[0].delivery_order_no, "");
}
