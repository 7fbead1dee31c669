use slotted_page::{DataField, Page, PageError, SharedPage};

#[test]
fn shared_page_serializes_writes_and_reads_in_order() {
    let shared = SharedPage::new(8192);
    let first = vec![DataField::Text("data".to_string()), DataField::Integer(10)];
    let second = vec![DataField::Integer(11)];
    shared.write(&first).unwrap();
    shared.write(&second).unwrap();
    assert_eq!(shared.read(), vec![first, second]);
}

#[test]
fn shared_page_reports_a_full_page_and_keeps_prior_writes() {
    let shared = SharedPage::new(16);
    let tuple = vec![DataField::Integer(1)];
    shared.write(&tuple).unwrap();
    assert_eq!(shared.write(&tuple), Err(PageError::PageFull));
    assert_eq!(shared.read(), vec![tuple]);
}

#[test]
fn shared_page_rejects_a_tuple_no_page_can_hold() {
    let shared = SharedPage::new(8192);
    let oversized = vec![DataField::Text("a".repeat(70000))];
    assert_eq!(shared.write(&oversized), Err(PageError::PageFull));
    assert_eq!(shared.read(), Vec::<Vec<DataField>>::new());
}

#[test]
fn shared_page_snapshot_reloads_as_a_page() {
    let shared = SharedPage::new(8192);
    let tuple = vec![DataField::Text("kept".to_string()), DataField::Integer(3)];
    shared.write(&tuple).unwrap();
    let bytes = shared.snapshot();
    let page = Page::new(8192, Some(bytes));
    assert_eq!(page.read().unwrap(), vec![tuple]);
}
