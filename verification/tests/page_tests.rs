use storage_manager::page::{
    init_page, page_free_space, page_insert, read_tuple, Page, PAGE_HEADER_SIZE, PAGE_SIZE,
};
use storage_manager::StorageError;

#[test]
fn test_init_page() {
    // Create a new page with empty data
    let mut page = Page {
        data: vec![0u8; PAGE_SIZE],
    };

    // Call the existing function
    init_page(&mut page);

    // Verify lower offset
    let lower = u32::from_le_bytes(page.data[0..4].try_into().unwrap());
    assert_eq!(lower, PAGE_HEADER_SIZE);

    // Verify upper offset
    let upper = u32::from_le_bytes(page.data[4..8].try_into().unwrap());
    assert_eq!(upper, PAGE_SIZE as u32);
}

fn lower_of(page: &Page) -> u32 {
    u32::from_le_bytes(page.data[0..4].try_into().unwrap())
}

fn upper_of(page: &Page) -> u32 {
    u32::from_le_bytes(page.data[4..8].try_into().unwrap())
}

#[test]
fn insert_sequence_moves_offsets_by_exact_amounts() {
    let mut page = Page::new();
    init_page(&mut page);
    let payloads: [&[u8]; 4] = [b"hello", b"storage engine", b"x", b"0123456789"];
    let mut expected_lower = PAGE_HEADER_SIZE;
    let mut expected_upper = PAGE_SIZE as u32;
    for (i, p) in payloads.iter().enumerate() {
        let slot = page_insert(&mut page, p).expect("tuple should fit");
        assert_eq!(slot, i as u32);
        expected_lower += 8;
        expected_upper -= p.len() as u32;
        assert_eq!(lower_of(&page), expected_lower);
        assert_eq!(upper_of(&page), expected_upper);
        assert!(lower_of(&page) <= upper_of(&page));
        let free = page_free_space(&page).expect("page stays sound");
        assert_eq!(free, expected_upper - expected_lower);
    }
}

#[test]
fn insert_writes_slot_and_payload() {
    let mut page = Page::new();
    init_page(&mut page);
    let slot = page_insert(&mut page, b"hello").unwrap();
    assert_eq!(slot, 0);
    assert_eq!(lower_of(&page), 16);
    assert_eq!(upper_of(&page), (PAGE_SIZE - 5) as u32);
    // slot entry: offset then length
    let offset = u32::from_le_bytes(page.data[8..12].try_into().unwrap());
    let length = u32::from_le_bytes(page.data[12..16].try_into().unwrap());
    assert_eq!(offset, (PAGE_SIZE - 5) as u32);
    assert_eq!(length, 5);
    let payload = read_tuple(&page, 0).unwrap();
    assert_eq!(payload, b"hello");
}

#[test]
fn insert_rejects_when_space_is_insufficient() {
    let mut page = Page::new();
    init_page(&mut page);
    // 8184 free; a tuple needing 8177 + 8 bytes must be rejected untouched.
    let big = vec![7u8; PAGE_SIZE - 15];
    let before = page.data.clone();
    let r = page_insert(&mut page, &big);
    assert!(matches!(r, Err(StorageError::InsufficientSpace)));
    assert_eq!(page.data, before);
    // exactly 8176 + 8 fits
    let fitting = vec![7u8; PAGE_SIZE - 16];
    assert_eq!(page_insert(&mut page, &fitting).unwrap(), 0);
    assert_eq!(page_free_space(&page).unwrap(), 0);
}

#[test]
fn corrupt_lower_yields_corruption_not_panic() {
    // A page whose header decodes to lower = 9000 exceeds PAGE_SIZE.
    let mut page = Page::new();
    page.data[0..4].copy_from_slice(&9000u32.to_le_bytes());
    page.data[4..8].copy_from_slice(&(PAGE_SIZE as u32).to_le_bytes());
    assert!(matches!(page_free_space(&page), Err(StorageError::Corruption)));
    let before = page.data.clone();
    assert!(matches!(
        page_insert(&mut page, b"x"),
        Err(StorageError::Corruption)
    ));
    assert_eq!(page.data, before);
    assert!(matches!(read_tuple(&page, 0), Err(StorageError::Corruption)));
}

#[test]
fn crossed_offsets_yield_corruption() {
    let mut page = Page::new();
    page.data[0..4].copy_from_slice(&100u32.to_le_bytes());
    page.data[4..8].copy_from_slice(&50u32.to_le_bytes());
    assert!(matches!(page_free_space(&page), Err(StorageError::Corruption)));
}

#[test]
fn read_tuple_checks_slot_bounds() {
    let mut page = Page::new();
    init_page(&mut page);
    page_insert(&mut page, b"abc").unwrap();
    assert!(matches!(read_tuple(&page, 1), Err(StorageError::NotFound)));
    // a slot pointing past the page end is corruption
    page.data[8..12].copy_from_slice(&9000u32.to_le_bytes());
    assert!(matches!(read_tuple(&page, 0), Err(StorageError::Corruption)));
}
