use storage_manager::buffer::{BufferManager, EXTENT_SIZE};
use storage_manager::catalog::{create_database, create_table, Catalog, Column};
use storage_manager::extent::{
    find_page_for_insert, read_total_extents, read_total_pages, write_total_extents,
    write_total_pages,
};
use storage_manager::page::{page_free_space, Page, PAGE_SIZE};
use storage_manager::table::init_table_image;
use storage_manager::StorageError;

fn col(name: &str, data_type: &str) -> Column {
    Column {
        name: name.to_string(),
        data_type: data_type.to_string(),
    }
}

fn users_catalog() -> Catalog {
    let mut catalog = Catalog::new();
    create_database(&mut catalog, "shop");
    create_table(
        &mut catalog,
        "shop",
        "users",
        vec![col("id", "INT"), col("name", "TEXT")],
    );
    catalog
}

fn header_count(bm: &BufferManager) -> u32 {
    u32::from_le_bytes(bm.pages[0].data[0..4].try_into().unwrap())
}

#[test]
fn two_records_fill_one_data_page() {
    // schema [{id:INT},{name:TEXT}], CSV rows 1,Alice and 2,Bob: two
    // 14-byte tuples, each with an 8-byte slot, and a header page count of 2
    // when both fit on one data page.
    let catalog = users_catalog();
    let mut bm = BufferManager::new();
    bm.load_table_from_bytes(&init_table_image()).unwrap();
    assert_eq!(bm.pages.len(), 2);
    let summary = bm
        .load_csv_into_pages(&catalog, "shop", "users", &b"id,name\n1,Alice\n2,Bob\n".to_vec())
        .unwrap();
    assert_eq!(summary.inserted_rows, 2);
    assert_eq!(summary.used_pages, 2);
    assert_eq!(header_count(&bm), 2);
    let page = &bm.pages[1];
    let lower = u32::from_le_bytes(page.data[0..4].try_into().unwrap());
    let upper = u32::from_le_bytes(page.data[4..8].try_into().unwrap());
    assert_eq!(lower, 8 + 2 * 8);
    assert_eq!(upper, (PAGE_SIZE - 2 * 14) as u32);
    for slot in 0..2u32 {
        let length = u32::from_le_bytes(
            page.data[(8 + slot as usize * 8 + 4)..(8 + slot as usize * 8 + 8)]
                .try_into()
                .unwrap(),
        );
        assert_eq!(length, 14);
    }
}

#[test]
fn mismatched_row_is_skipped_without_counting() {
    // a CSV row with 3 fields against a 2-column schema is skipped; the
    // inserted-row counter does not advance; later valid rows still insert.
    let catalog = users_catalog();
    let mut bm = BufferManager::new();
    bm.load_table_from_bytes(&init_table_image()).unwrap();
    let csv = b"id,name\n1,Alice,extra\n2,Bob\n".to_vec();
    let summary = bm.load_csv_into_pages(&catalog, "shop", "users", &csv).unwrap();
    assert_eq!(summary.inserted_rows, 1);
    let page = &bm.pages[1];
    let lower = u32::from_le_bytes(page.data[0..4].try_into().unwrap());
    assert_eq!(lower, 8 + 8); // exactly one slot
    // the surviving row is 2,Bob
    let offset = u32::from_le_bytes(page.data[8..12].try_into().unwrap());
    assert_eq!(&page.data[offset as usize..offset as usize + 4], &2i32.to_le_bytes());
}

#[test]
fn blank_lines_are_skipped() {
    let catalog = users_catalog();
    let mut bm = BufferManager::new();
    bm.load_table_from_bytes(&init_table_image()).unwrap();
    let csv = b"id,name\n\n   \n1,Alice\n".to_vec();
    let summary = bm.load_csv_into_pages(&catalog, "shop", "users", &csv).unwrap();
    assert_eq!(summary.inserted_rows, 1);
}

#[test]
fn missing_schema_aborts_load() {
    let catalog = users_catalog();
    let mut bm = BufferManager::new();
    assert!(matches!(
        bm.load_csv_into_pages(&catalog, "nope", "users", &b"id\n1\n".to_vec()),
        Err(StorageError::NotFound)
    ));
    assert!(matches!(
        bm.load_csv_into_pages(&catalog, "shop", "nope", &b"id\n1\n".to_vec()),
        Err(StorageError::NotFound)
    ));
    assert_eq!(bm.pages.len(), 1);
}

#[test]
fn empty_schema_aborts_load() {
    let mut catalog = Catalog::new();
    create_database(&mut catalog, "shop");
    create_table(&mut catalog, "shop", "empty", vec![]);
    let mut bm = BufferManager::new();
    assert!(matches!(
        bm.load_csv_into_pages(&catalog, "shop", "empty", &b"h\n1\n".to_vec()),
        Err(StorageError::InvalidSchema)
    ));
}

#[test]
fn corrupt_page_aborts_load() {
    let catalog = users_catalog();
    let mut bm = BufferManager::new();
    // a table file whose data page claims lower = 9000
    let mut bytes = init_table_image();
    bytes[PAGE_SIZE..PAGE_SIZE + 4].copy_from_slice(&9000u32.to_le_bytes());
    bm.load_table_from_bytes(&bytes).unwrap();
    assert!(matches!(
        bm.load_csv_into_pages(&catalog, "shop", "users", &b"id,name\n1,Alice\n".to_vec()),
        Err(StorageError::Corruption)
    ));
}

fn csv_with_rows(n: usize) -> Vec<u8> {
    let mut csv = String::from("id,name\n");
    for i in 0..n {
        csv.push_str(&format!("{},user\n", i % 1000));
    }
    csv.into_bytes()
}

#[test]
fn extent_boundary_allocates_sixteen_more_pages() {
    // Each row is a 14-byte tuple plus an 8-byte slot: 372 rows fill one
    // data page exactly, 5952 fill pages 1 through 16 exactly.
    let catalog = users_catalog();
    let mut bm = BufferManager::new();
    let summary = bm
        .load_csv_into_pages(&catalog, "shop", "users", &csv_with_rows(16 * 372))
        .unwrap();
    assert_eq!(summary.used_pages, 1 + EXTENT_SIZE);
    assert_eq!(header_count(&bm), (1 + EXTENT_SIZE) as u32);
    assert_eq!(page_free_space(&bm.pages[16]).unwrap(), 0);

    // one more row must allocate pages 17..=32 as a new extent: the header
    // page count grows by exactly 16.
    let mut bm2 = BufferManager::new();
    let summary2 = bm2
        .load_csv_into_pages(&catalog, "shop", "users", &csv_with_rows(16 * 372 + 1))
        .unwrap();
    assert_eq!(summary2.used_pages, 1 + 2 * EXTENT_SIZE);
    assert_eq!(
        header_count(&bm2) - header_count(&bm),
        EXTENT_SIZE as u32
    );
    // the extra row landed on page 17, the first page of the new extent
    let lower = u32::from_le_bytes(bm2.pages[17].data[0..4].try_into().unwrap());
    assert_eq!(lower, 16);
    for p in 18..33 {
        assert_eq!(
            page_free_space(&bm2.pages[p]).unwrap(),
            (PAGE_SIZE - 8) as u32
        );
    }
}

#[test]
fn load_then_flush_reproduces_the_file() {
    // loading a table file then flushing without modification reproduces
    // the original bytes for all previously written pages.
    let catalog = users_catalog();
    let mut bm = BufferManager::new();
    bm.load_table_from_bytes(&init_table_image()).unwrap();
    let image = bm
        .load_csv_to_buffer(&catalog, "shop", "users", &b"id,name\n1,Alice\n2,Bob\n".to_vec())
        .unwrap();

    let mut bm2 = BufferManager::new();
    bm2.load_table_from_bytes(&image).unwrap();
    let image2 = bm2.flush_image(bm2.pages.len());
    assert_eq!(image, image2);
}

#[test]
fn load_rejects_short_files() {
    let mut bm = BufferManager::new();
    assert!(matches!(
        bm.load_table_from_bytes(&vec![0u8; 100]),
        Err(StorageError::Corruption)
    ));
    assert_eq!(bm.pages.len(), 1);
}

#[test]
fn load_drops_partial_trailing_page() {
    let mut bm = BufferManager::new();
    let mut bytes = init_table_image();
    bytes.extend_from_slice(&vec![1u8; 100]);
    bm.load_table_from_bytes(&bytes).unwrap();
    assert_eq!(bm.pages.len(), 2);
}

#[test]
fn find_page_allocates_first_extent_when_none_exists() {
    let mut bm = BufferManager::new();
    let p = find_page_for_insert(&mut bm, 22).unwrap();
    assert_eq!(p, 1);
    assert_eq!(bm.pages.len(), 1 + EXTENT_SIZE);
}

#[test]
fn find_page_scans_only_the_last_extent() {
    let mut bm = BufferManager::new();
    bm.allocate_extent();
    bm.allocate_extent();
    // fill page 20 (inside the last extent) almost completely
    let big = vec![0u8; PAGE_SIZE - 16];
    storage_manager::page::page_insert(&mut bm.pages[20], &big).unwrap();
    let p = find_page_for_insert(&mut bm, 22).unwrap();
    assert_eq!(p, 17); // first page of the most recent extent
    // when every page of the last extent is full, a new extent is allocated
    for q in 17..33 {
        let free = page_free_space(&bm.pages[q]).unwrap();
        if free >= 8 {
            let filler = vec![0u8; (free - 8) as usize];
            storage_manager::page::page_insert(&mut bm.pages[q], &filler).unwrap();
        }
    }
    let p2 = find_page_for_insert(&mut bm, 22).unwrap();
    assert_eq!(p2, 33);
    assert_eq!(bm.pages.len(), 1 + 3 * EXTENT_SIZE);
}

#[test]
fn header_counters_round_trip() {
    let mut header = Page::new();
    write_total_pages(&mut header, 33);
    write_total_extents(&mut header, 2);
    assert_eq!(read_total_pages(&header), 33);
    assert_eq!(read_total_extents(&header), 2);
    write_total_pages(&mut header, 49);
    assert_eq!(read_total_pages(&header), 49);
    assert_eq!(read_total_extents(&header), 2);
}

#[test]
fn init_table_image_counts_both_pages() {
    let image = init_table_image();
    assert_eq!(image.len(), 2 * PAGE_SIZE);
    assert_eq!(u32::from_le_bytes(image[0..4].try_into().unwrap()), 2);
    let lower = u32::from_le_bytes(image[PAGE_SIZE..PAGE_SIZE + 4].try_into().unwrap());
    let upper = u32::from_le_bytes(image[PAGE_SIZE + 4..PAGE_SIZE + 8].try_into().unwrap());
    assert_eq!(lower, 8);
    assert_eq!(upper, PAGE_SIZE as u32);
}
