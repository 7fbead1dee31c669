use slotted_page::{DataField, Page, PageError};

#[test]
fn test_create_page() {
    let mut page = Page::new(8192, None);
    let data_fields = vec![DataField::Text("data".to_string()), DataField::Integer(10)];
    page.write(&data_fields).unwrap();
    let rows = page.read().unwrap();
    assert_eq!(rows, vec![data_fields]);
}

#[test]
fn fresh_page_header_and_marks_after_one_write() {
    let mut page = Page::new(8192, None);
    let data_fields = vec![DataField::Text("data".to_string()), DataField::Integer(10)];
    page.write(&data_fields).unwrap();
    let buffer = page.get_buffer();
    // id 0
    assert_eq!(buffer[0], 0);
    assert_eq!(buffer[1], 0);
    // low-water mark: 6 + one slot = 8
    assert_eq!(buffer[2], 8);
    assert_eq!(buffer[3], 0);
    // high-water mark: the tuple encodes to 14 bytes (count 2, tags 4,
    // text length 2, text 4, integer 2), so 8192 - 14 = 8178 = 0x1FF2
    assert_eq!(buffer[4], 0xF2);
    assert_eq!(buffer[5], 0x1F);
    let rows = page.read().unwrap();
    assert_eq!(rows, vec![data_fields]);
}

#[test]
fn round_trip_with_empty_text_and_zero() {
    let mut page = Page::new(8192, None);
    let data_fields = vec![
        DataField::Text(String::new()),
        DataField::Integer(0),
        DataField::Text("x".to_string()),
        DataField::Integer(0xFFFF),
    ];
    page.write(&data_fields).unwrap();
    assert_eq!(page.read().unwrap(), vec![data_fields]);
}

#[test]
fn round_trip_with_empty_tuple() {
    let mut page = Page::new(8192, None);
    let data_fields: Vec<DataField> = vec![];
    page.write(&data_fields).unwrap();
    assert_eq!(page.read().unwrap(), vec![data_fields]);
}

#[test]
fn round_trip_with_multibyte_text() {
    let mut page = Page::new(8192, None);
    let data_fields = vec![
        DataField::Text("h\u{e9}llo \u{1F600}".to_string()),
        DataField::Integer(7),
    ];
    page.write(&data_fields).unwrap();
    assert_eq!(page.read().unwrap(), vec![data_fields]);
}

#[test]
fn read_preserves_append_order() {
    let mut page = Page::new(8192, None);
    let mut expected = Vec::new();
    for k in 0..5u16 {
        let tuple = vec![DataField::Integer(k), DataField::Text(format!("row {}", k))];
        page.write(&tuple).unwrap();
        expected.push(tuple);
    }
    assert_eq!(page.read().unwrap(), expected);
}

#[test]
fn write_fails_when_page_is_full_and_leaves_page_unchanged() {
    // size 16: header 6, then one tuple of 6 bytes plus its 2-byte slot fits,
    // a second one does not.
    let mut page = Page::new(16, None);
    let tuple = vec![DataField::Integer(1)];
    page.write(&tuple).unwrap();
    let before = page.get_buffer().clone();
    assert_eq!(page.write(&tuple), Err(PageError::PageFull));
    assert_eq!(page.get_buffer(), &before);
    assert_eq!(page.read().unwrap(), vec![tuple]);
}

#[test]
fn write_fails_on_oversized_text() {
    let mut page = Page::new(8192, None);
    let tuple = vec![DataField::Text("a".repeat(70000))];
    assert_eq!(page.write(&tuple), Err(PageError::PageFull));
    assert_eq!(page.read().unwrap(), Vec::<Vec<DataField>>::new());
}

#[test]
fn write_fails_on_corrupt_header() {
    // Low-water mark of 4 lies inside the fixed header.
    let mut buffer = vec![0u8; 32];
    buffer[2] = 4;
    buffer[4] = 32;
    let mut page = Page::new(32, Some(buffer.clone()));
    let tuple = vec![DataField::Integer(1)];
    assert_eq!(page.write(&tuple), Err(PageError::CorruptPage));
    assert_eq!(page.get_buffer(), &buffer);
}

#[test]
fn read_fails_on_odd_slot_directory_end() {
    let mut buffer = vec![0u8; 32];
    buffer[2] = 7;
    buffer[4] = 32;
    let page = Page::new(32, Some(buffer));
    assert_eq!(page.read(), Err(PageError::CorruptPage));
}

#[test]
fn read_fails_on_unknown_type_tag() {
    // One slot at offset 10, whose tuple claims one field of tag 3.
    let mut buffer = vec![0u8; 16];
    buffer[2] = 8; // low-water mark: one slot
    buffer[4] = 10; // high-water mark
    buffer[6] = 10; // slot 0 points at offset 10
    buffer[10] = 1; // field count 1
    buffer[12] = 3; // unknown tag
    let page = Page::new(16, Some(buffer));
    assert_eq!(page.read(), Err(PageError::CorruptPage));
}

#[test]
fn read_fails_on_invalid_utf8_text() {
    // One slot at offset 13: one text field of length 1 whose byte is 0xFF.
    let mut buffer = vec![0u8; 20];
    buffer[2] = 8; // low-water mark
    buffer[4] = 13; // high-water mark
    buffer[6] = 13; // slot 0 points at offset 13
    buffer[13] = 1; // field count 1
    buffer[15] = 2; // tag: text
    buffer[17] = 1; // text length 1
    buffer[19] = 0xFF; // not valid UTF-8
    let page = Page::new(20, Some(buffer));
    assert_eq!(page.read(), Err(PageError::CorruptPage));
}

#[test]
fn read_fails_on_truncated_tuple() {
    // The slot points one word before the end: the count reads, the tag
    // would lie past the buffer.
    let mut buffer = vec![0u8; 16];
    buffer[2] = 8;
    buffer[4] = 14;
    buffer[6] = 14; // slot 0 points at offset 14
    buffer[14] = 1; // field count 1, tag truncated
    let page = Page::new(16, Some(buffer));
    assert_eq!(page.read(), Err(PageError::CorruptPage));
}

#[test]
fn tuple_extents_stay_disjoint_and_below_the_directory() {
    // Three integer-only tuples encode to 6 bytes each, so their extents
    // are [8186, 8192), [8180, 8186), [8174, 8180): pairwise disjoint,
    // and all at or above the high-water mark, which in turn lies past
    // the slot directory.
    let mut page = Page::new(8192, None);
    for k in 0..3u16 {
        page.write(&vec![DataField::Integer(k)]).unwrap();
    }
    let buffer = page.get_buffer();
    let word = |off: usize| u16::from_le_bytes([buffer[off], buffer[off + 1]]) as usize;
    let lower = word(2);
    let higher = word(4);
    assert_eq!(lower, 12);
    assert_eq!(higher, 8174);
    let slots: Vec<usize> = (0..3).map(|k| word(6 + 2 * k)).collect();
    assert_eq!(slots, vec![8186, 8180, 8174]);
    for s in slots {
        assert!(s >= higher);
        assert!(s + 6 <= 8192);
    }
}

#[test]
fn writes_fill_the_page_to_the_exact_boundary() {
    // Each insert takes 6 encoded bytes plus a 2-byte slot: the free
    // region of 8186 bytes holds exactly 1023 such inserts.
    let mut page = Page::new(8192, None);
    let mut accepted = 0usize;
    loop {
        let tuple = vec![DataField::Integer((accepted % 0x10000) as u16)];
        match page.write(&tuple) {
            Ok(()) => accepted += 1,
            Err(e) => {
                assert_eq!(e, PageError::PageFull);
                break;
            }
        }
        assert!(accepted <= 2000, "the page never filled up");
    }
    assert_eq!(accepted, 1023);
    assert_eq!(page.read().unwrap().len(), 1023);
}

#[test]
fn to_int_tags_fields() {
    assert_eq!(DataField::Integer(42).to_int(), 1);
    assert_eq!(DataField::Text("t".to_string()).to_int(), 2);
}

#[test]
fn persisted_page_reloads_and_appends() {
    let first = vec![DataField::Text("alpha".to_string()), DataField::Integer(1)];
    let second = vec![DataField::Integer(2), DataField::Text("beta".to_string())];
    let mut page = Page::new(8192, None);
    page.write(&first).unwrap();
    let stored = page.get_buffer().clone();

    let mut reloaded = Page::new(8192, Some(stored));
    reloaded.write(&second).unwrap();
    let stored_again = reloaded.into_buffer();

    let final_page = Page::new(8192, Some(stored_again));
    assert_eq!(final_page.read().unwrap(), vec![first, second]);
}
