use slotted_page::{DataField, Page, PageError, Storage, PAGE_SIZE};

#[test]
fn insert_data_creates_a_fresh_page_buffer() {
    let tuple = vec![DataField::Text("data".to_string()), DataField::Integer(10)];
    let buffer = Storage::insert_data(None, &tuple).unwrap();
    assert_eq!(buffer.len(), PAGE_SIZE);
    let rows = Storage::read_data(buffer).unwrap();
    assert_eq!(rows, vec![tuple]);
}

#[test]
fn insert_data_appends_to_an_existing_buffer_in_order() {
    let first = vec![DataField::Text("one".to_string())];
    let second = vec![DataField::Integer(2)];
    let third = vec![DataField::Text("three".to_string()), DataField::Integer(3)];
    let buffer = Storage::insert_data(None, &first).unwrap();
    let buffer = Storage::insert_data(Some(buffer), &second).unwrap();
    let buffer = Storage::insert_data(Some(buffer), &third).unwrap();
    let rows = Storage::read_data(buffer).unwrap();
    assert_eq!(rows, vec![first, second, third]);
}

#[test]
fn insert_data_reports_a_full_page() {
    let oversized = vec![DataField::Text("a".repeat(70000))];
    assert_eq!(Storage::insert_data(None, &oversized), Err(PageError::PageFull));
}

#[test]
fn read_data_rejects_a_short_buffer() {
    assert_eq!(Storage::read_data(vec![0u8; 16]), Err(PageError::CorruptPage));
}

#[test]
fn read_data_rejects_a_corrupt_header() {
    // A zero-filled buffer has low-water mark 0, inside the fixed header.
    assert_eq!(Storage::read_data(vec![0u8; PAGE_SIZE]), Err(PageError::CorruptPage));
}

#[test]
fn registry_counts_added_pages() {
    let mut storage = Storage::new();
    assert_eq!(storage.page_count(), 0);
    storage.add_page(Page::new(8192, None));
    storage.add_page(Page::new(8192, None));
    assert_eq!(storage.page_count(), 2);
}
