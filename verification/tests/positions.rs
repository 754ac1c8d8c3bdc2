use page_blob_cache::BLOB_PAGE_SIZE;
use page_blob_cache::ExactPayload;
use page_blob_cache::ExactPayloadPositions;
use page_blob_cache::calc_pages_amount_to_ressize;
use page_blob_cache::fill_content_to_comply_with_page_blob_size;
use page_blob_cache::get_pages_amount_by_size;

#[test]
fn test_everything_is_inside_first_page() {
    let positions = ExactPayloadPositions::new(3, 3, 8);

    assert_eq!(3, positions.start_pos);
    assert_eq!(6, positions.end_pos);
    assert_eq!(0, positions.start_page_no);
    assert_eq!(3, positions.payload_size);
    assert_eq!(1, positions.get_full_pages_amount());
    assert_eq!(3, positions.get_payload_offset());
}

#[test]
fn test_everything_is_second_page() {
    let positions = ExactPayloadPositions::new(9, 3, 8);

    assert_eq!(9, positions.start_pos);
    assert_eq!(12, positions.end_pos);
    assert_eq!(1, positions.start_page_no);
    assert_eq!(3, positions.payload_size);
    assert_eq!(1, positions.get_full_pages_amount());
    assert_eq!(1, positions.get_payload_offset());
}

#[test]
fn test_we_start_in_the_middle_of_second_page_end_in_the_middle_of_page_3() {
    let positions = ExactPayloadPositions::new(9, 10, 8);

    assert_eq!(9, positions.start_pos);
    assert_eq!(19, positions.end_pos);
    assert_eq!(1, positions.start_page_no);
    assert_eq!(10, positions.payload_size);
    assert_eq!(2, positions.get_full_pages_amount());
    assert_eq!(1, positions.get_payload_offset());
}

#[test]
fn test_page_blob_resize() {
    let mut content = vec![1u8, 2u8, 3u8];

    fill_content_to_comply_with_page_blob_size(&mut content, 32u8, BLOB_PAGE_SIZE);

    assert_eq!(BLOB_PAGE_SIZE, content.len());
}

#[test]
fn test_page_blob_resize_zero_content() {
    let mut content = vec![];

    fill_content_to_comply_with_page_blob_size(&mut content, 32u8, BLOB_PAGE_SIZE);

    assert_eq!(0, content.len());
}

#[test]
fn test_page_blob_resize_if_we_have_exactly_one_page() {
    let mut content = vec![0u8; 512];

    fill_content_to_comply_with_page_blob_size(&mut content, 32u8, BLOB_PAGE_SIZE);

    assert_eq!(BLOB_PAGE_SIZE, content.len());
}

#[test]
fn test_fill_content_keeps_prefix_and_pads_with_byte() {
    let mut content = vec![7u8; 513];

    fill_content_to_comply_with_page_blob_size(&mut content, 9u8, BLOB_PAGE_SIZE);

    assert_eq!(1024, content.len());
    assert!(content[..513].iter().all(|b| *b == 7));
    assert!(content[513..].iter().all(|b| *b == 9));
}

#[test]
fn test_pages_amount_by_size_is_ceiling_division() {
    assert_eq!(1, get_pages_amount_by_size(1, 512));
    assert_eq!(1, get_pages_amount_by_size(512, 512));
    assert_eq!(2, get_pages_amount_by_size(513, 512));
    assert_eq!(3, get_pages_amount_by_size(1025, 512));
    // r * p >= n and (r - 1) * p < n, spot checked
    let n: usize = 777;
    let p: usize = 8;
    let r = get_pages_amount_by_size(n, p);
    assert!(r * p >= n);
    assert!((r - 1) * p < n);
}

#[test]
fn test_ressize_rounds_up_to_rate_multiple() {
    // 7 bytes with page size 8 and rate 1: one page covers it
    assert_eq!(1, calc_pages_amount_to_ressize(7, 8, 1));
    // 17 bytes with page size 8 and rate 4: one batch of 4 pages
    assert_eq!(4, calc_pages_amount_to_ressize(17, 8, 4));
    // 33 bytes with page size 8 and rate 4: 33 > 32, two batches
    assert_eq!(8, calc_pages_amount_to_ressize(33, 8, 4));
}

#[test]
fn test_exact_payload_slices_marked_range() {
    let payload = ExactPayload { payload: vec![0u8, 1u8, 2u8, 3u8, 4u8, 5u8], offset: 2, size: 3 };

    assert_eq!([2u8, 3u8, 4u8].as_slice(), payload.as_slice());
}
