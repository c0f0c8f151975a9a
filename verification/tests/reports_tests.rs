use dev_restaurant::reports::{ReportError, Reports};

#[test]
fn add_reports_test() {
    let mut reports = Reports::new();
    reports.add_or_update("22-11-2022", 512, 512, 0, false);
    reports.add_or_update("01-02-2022", 761, 314, 1, false);
    reports.add_or_update("04-07-2022", 71234, 233, 2, false);
    reports.add_or_update("28-04-2022", 123456, 51, 3, false);

    assert_eq!(reports.find_by_id(0).unwrap().date, "22-11-2022".to_string());
    assert_eq!(reports.find_by_id(1).unwrap().date, "01-02-2022".to_string());
    assert_eq!(reports.find_by_id(2).unwrap().date, "04-07-2022".to_string());
    assert_eq!(reports.find_by_id(3).unwrap().date, "28-04-2022".to_string());
}

#[test]
fn update_reports_test() {
    let mut reports = Reports::new();
    reports.add_or_update("22-11-2022", 512, 5, 0, false);
    reports.add_or_update("01-02-2022", 761, 10, 1, false);
    reports.add_or_update("04-07-2022", 71234, 20, 2, false);
    reports.add_or_update("28-04-2022", 123456, 30, 3, false);

    reports.add_or_update("22-11-2022", 612, 5, 0, false);
    reports.add_or_update("01-02-2022", 515, 6, 1, false);
    reports.add_or_update("04-07-2022", 3571234, 7, 2, false);
    reports.add_or_update("28-04-2022", 1243611, 8, 3, false);

    assert_eq!(reports.find_by_id(0).unwrap().quantity, 1124);
    assert_eq!(reports.find_by_id(1).unwrap().quantity, 1276);
    assert_eq!(reports.find_by_id(2).unwrap().quantity, 3642468);
    assert_eq!(reports.find_by_id(3).unwrap().quantity, 1367067);

    assert_eq!(reports.find_by_id(0).unwrap().income, 5620);
    assert_eq!(reports.find_by_id(1).unwrap().income, 10700);
    assert_eq!(reports.find_by_id(2).unwrap().income, 26423318);
    assert_eq!(reports.find_by_id(3).unwrap().income, 13652568);
}

#[test]
fn ledger_accumulates_rate_times_quantity() {
    let mut reports = Reports::new();
    reports.add_or_update("2022-01-01", 5, 100, 0, false);
    let first = reports.find_by_id(0).unwrap();
    assert_eq!(first.quantity, 5);
    assert_eq!(first.income, 500);

    reports.add_or_update("2022-01-01", 3, 50, 0, false);
    let second = reports.find_by_id(0).unwrap();
    assert_eq!(second.quantity, 8);
    assert_eq!(second.income, 650);

    let list = reports.get_report_list();
    assert_eq!(list.len(), 1);
}

#[test]
fn find_report_matches_dates_case_insensitively() {
    let mut reports = Reports::new();
    reports.add_or_update("Jan-01", 2, 10, 0, false);

    let found = reports.find_report("JAN-01").unwrap();
    assert_eq!(found.date, "Jan-01");
    assert_eq!(found.income, 20);

    let missing = reports.find_report("Feb-02");
    assert_eq!(missing, Err(ReportError::ReportNotFound("Feb-02".to_string())));
}

#[test]
fn load_path_takes_income_verbatim() {
    let mut reports = Reports::new();
    reports.add_or_update("22-11-2022", 512, 761, 7, true);
    let rep = reports.find_by_id(7).unwrap();
    assert_eq!(rep.quantity, 512);
    assert_eq!(rep.income, 761);
}

#[test]
fn report_list_sorts_by_id() {
    let mut reports = Reports::new();
    reports.add_or_update("d3", 3, 30, 9, true);
    reports.add_or_update("d1", 1, 10, 2, true);
    reports.add_or_update("d2", 2, 20, 5, true);

    let list = reports.get_report_list();
    assert_eq!(list.len(), 3);
    assert_eq!(list[0].id, 2);
    assert_eq!(list[1].id, 5);
    assert_eq!(list[2].id, 9);

    assert_eq!(Reports::repeat_char(4, '-'), "----");
}
