use dev_restaurant::codec::{items_csv, parse_items, parse_line, parse_reports, reports_csv,
    ParseError};
use dev_restaurant::items::Items;
use dev_restaurant::reports::Reports;

#[test]
fn parse_line_reads_four_fields() {
    let parsed = parse_line("3,Risoles,164,25000", "name", "quantity", "price").unwrap();
    assert_eq!(parsed, (3, "Risoles".to_string(), 164, 25000));
}

#[test]
fn parse_line_trims_the_last_field() {
    let parsed = parse_line("0,telur,9, 500\r", "name", "quantity", "price").unwrap();
    assert_eq!(parsed, (0, "telur".to_string(), 9, 500));
}

#[test]
fn parse_line_accepts_negative_numbers() {
    let parsed = parse_line("-2,x,-10,-99", "name", "quantity", "price").unwrap();
    assert_eq!(parsed, (-2, "x".to_string(), -10, -99));
}

#[test]
fn parse_line_names_the_missing_field() {
    assert_eq!(
        parse_line("1,telur", "name", "quantity", "price"),
        Err(ParseError::MissingField("quantity".to_string()))
    );
    assert_eq!(
        parse_line("1,telur,9", "name", "quantity", "price"),
        Err(ParseError::MissingField("price".to_string()))
    );
    assert_eq!(
        parse_line("1", "date", "quantity", "income"),
        Err(ParseError::MissingField("date".to_string()))
    );
}

#[test]
fn parse_line_names_the_bad_numeric_field() {
    assert_eq!(
        parse_line("x,telur,9,500", "name", "quantity", "price"),
        Err(ParseError::InvalidNumericField("id".to_string()))
    );
    assert_eq!(
        parse_line("1,telur,abc,500", "name", "quantity", "price"),
        Err(ParseError::InvalidNumericField("quantity".to_string()))
    );
    assert_eq!(
        parse_line("1,telur,9,5x0", "name", "quantity", "price"),
        Err(ParseError::InvalidNumericField("price".to_string()))
    );
}

#[test]
fn malformed_line_is_skipped() {
    let items = parse_items("0,risoles,10,100\n1,telur,abc,50\n");
    assert_eq!(items.find_by_id(0).unwrap().name, "risoles");
    assert!(items.find_by_id(1).is_none());
    assert_eq!(items.get_item_list().len(), 1);
}

#[test]
fn blank_lines_and_header_are_skipped() {
    let items = parse_items("id,name,stock,price\n\n0,risoles,10,100\n");
    let list = items.get_item_list();
    assert_eq!(list.len(), 1);
    assert_eq!(list[0].name, "risoles");
}

#[test]
fn items_round_trip_through_text() {
    let mut items = Items::new();
    items.add("risoles", 164, 25000, 0, true);
    items.add("ikan asin", 512, 25182, 1, true);
    items.add("telur", 9, -5, 42, true);

    let text = items_csv(&items.to_vec());
    assert_eq!(
        text,
        "id,name,stock,price\n0,risoles,164,25000\n1,ikan asin,512,25182\n42,telur,9,-5\n"
    );

    let back = parse_items(&text);
    assert_eq!(back.to_vec().len(), 3);
    assert_eq!(back.find_by_id(0).unwrap(), items.find_by_id(0).unwrap());
    assert_eq!(back.find_by_id(1).unwrap(), items.find_by_id(1).unwrap());
    assert_eq!(back.find_by_id(42).unwrap(), items.find_by_id(42).unwrap());
}

#[test]
fn reports_round_trip_through_text() {
    let mut reports = Reports::new();
    reports.add_or_update("22-11-2022", 512, 2560, 0, true);
    reports.add_or_update("01-02-2022", 761, -10, 1, true);

    let text = reports_csv(&reports.to_vec());
    assert_eq!(
        text,
        "id,date,quantity,income\n0,22-11-2022,512,2560\n1,01-02-2022,761,-10\n"
    );

    let back = parse_reports(&text);
    assert_eq!(back.find_by_id(0).unwrap(), reports.find_by_id(0).unwrap());
    assert_eq!(back.find_by_id(1).unwrap(), reports.find_by_id(1).unwrap());
    assert_eq!(back.to_vec().len(), 2);
}

#[test]
fn loading_reports_accumulates_repeated_dates() {
    let reports = parse_reports("0,22-11-2022,10,100\n0,22-11-2022,5,7\n");
    let rep = reports.find_by_id(0).unwrap();
    assert_eq!(rep.quantity, 15);
    assert_eq!(rep.income, 135);
    assert_eq!(reports.get_report_list().len(), 1);
}
