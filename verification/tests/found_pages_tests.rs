use page_blob_cache::BLOB_PAGE_SIZE;
use page_blob_cache::FoundPages;

#[test]
fn test_no_missing_intervals() {
    let test_page = vec![0u8; 512];
    let mut found_pages = FoundPages::new(0, 3);

    found_pages.add(Some(test_page.clone()));
    found_pages.add(Some(test_page.clone()));
    found_pages.add(Some(test_page.clone()));

    assert_eq!(found_pages.missing_intervals.len(), 0);
    assert!(found_pages.get_pages_to_upload().is_none())
}

#[test]
fn test_one_missing_intervals() {
    let test_page = vec![0u8; 512];
    let mut found_pages = FoundPages::new(10, 3);

    found_pages.add(Some(test_page.clone()));
    found_pages.add(None);
    found_pages.add(Some(test_page.clone()));

    assert_eq!(found_pages.missing_intervals.len(), 1);

    assert_eq!(found_pages.missing_intervals[0].from_page_no, 11);
    assert_eq!(found_pages.missing_intervals[0].amount, 1);

    let pages_to_upload = found_pages.get_pages_to_upload().unwrap();
    assert_eq!(pages_to_upload.from_page_no, 11);
    assert_eq!(pages_to_upload.amount, 1);
}

#[test]
fn test_one_missing_intervals_with_two_pages() {
    let test_page = vec![0u8; 512];
    let mut found_pages = FoundPages::new(10, 4);

    found_pages.add(Some(test_page.clone()));
    found_pages.add(None);
    found_pages.add(None);
    found_pages.add(Some(test_page.clone()));

    assert_eq!(found_pages.missing_intervals.len(), 1);

    assert_eq!(found_pages.missing_intervals[0].from_page_no, 11);
    assert_eq!(found_pages.missing_intervals[0].amount, 2);

    let pages_to_upload = found_pages.get_pages_to_upload().unwrap();
    assert_eq!(pages_to_upload.from_page_no, 11);
    assert_eq!(pages_to_upload.amount, 2);
}

#[test]
fn test_two_missing_intervals() {
    let test_page = vec![0u8; 512];
    let mut found_pages = FoundPages::new(10, 8);

    found_pages.add(Some(test_page.clone()));
    found_pages.add(None);
    found_pages.add(None);
    found_pages.add(Some(test_page.clone()));
    found_pages.add(None);
    found_pages.add(None);
    found_pages.add(None);
    found_pages.add(Some(test_page.clone()));

    assert_eq!(found_pages.missing_intervals.len(), 2);

    assert_eq!(found_pages.missing_intervals[0].from_page_no, 11);
    assert_eq!(found_pages.missing_intervals[0].amount, 2);

    assert_eq!(found_pages.missing_intervals[1].from_page_no, 14);
    assert_eq!(found_pages.missing_intervals[1].amount, 3);

    let pages_to_upload = found_pages.get_pages_to_upload().unwrap();
    assert_eq!(pages_to_upload.from_page_no, 11);
    assert_eq!(pages_to_upload.amount, 6);
}

#[test]
fn test_adding_missing_part_which_fills_two_pages_and_getting_result() {
    let mut found_pages = FoundPages::new(10, 4);

    let test_page = vec![0u8; 512];
    found_pages.add(Some(test_page.clone()));
    found_pages.add(None);

    let test_page_2 = vec![2u8; 512];
    found_pages.add(Some(test_page_2.clone()));

    let missing_interval = vec![1u8; 512];
    found_pages.upload_missing_pages(&missing_interval);

    let mut result = vec![0u8; 512];
    result.extend_from_slice([1u8; 512].as_slice());
    result.extend_from_slice([2u8; 512].as_slice());

    assert_eq!(result.as_slice(), found_pages.into_vec().as_slice());
}

#[test]
fn test_adding_missing_parts_and_getting_result() {
    let mut found_pages = FoundPages::new(10, 4);

    let test_page = vec![0u8; 512];
    found_pages.add(Some(test_page.clone()));
    found_pages.add(None);
    found_pages.add(None);

    let test_page = vec![1u8; 512];
    found_pages.add(Some(test_page.clone()));
    found_pages.add(None);
    found_pages.add(None);
    found_pages.add(None);

    let test_page = vec![2u8; 512];
    found_pages.add(Some(test_page.clone()));

    let pages_to_upload = found_pages.get_pages_to_upload().unwrap();

    let mut data_to_upload = Vec::with_capacity(pages_to_upload.amount * BLOB_PAGE_SIZE);

    data_to_upload.resize(pages_to_upload.amount * BLOB_PAGE_SIZE, 3u8);

    found_pages.upload_missing_pages(data_to_upload.as_slice());

    let result = found_pages.into_vec();

    let mut expected_result = vec![0u8; 512];
    expected_result.extend_from_slice([3u8; 512 * 2].as_slice());
    expected_result.extend_from_slice([1u8; 512].as_slice());
    expected_result.extend_from_slice([3u8; 512 * 3].as_slice());
    expected_result.extend_from_slice([2u8; 512].as_slice());

    assert_eq!(expected_result.as_slice(), result.as_slice());
}

#[test]
fn test_upload_takes_each_chunk_from_its_own_offset() {
    // two missing runs with a found page between them: the second run's
    // bytes come from deeper in the spanning payload, not from its start
    let mut found_pages = FoundPages::new(0, 4);

    found_pages.add(None);
    found_pages.add(Some(vec![9u8; 512]));
    found_pages.add(None);
    found_pages.add(None);

    let span = found_pages.get_pages_to_upload().unwrap();
    assert_eq!(span.from_page_no, 0);
    assert_eq!(span.amount, 4);

    let mut payload = vec![0u8; 512];
    payload.extend_from_slice([1u8; 512].as_slice());
    payload.extend_from_slice([2u8; 512].as_slice());
    payload.extend_from_slice([3u8; 512].as_slice());

    found_pages.upload_missing_pages(payload.as_slice());

    let result = found_pages.into_vec();
    assert_eq!(&result[..512], [0u8; 512].as_slice());
    assert_eq!(&result[512..1024], [9u8; 512].as_slice());
    assert_eq!(&result[1024..1536], [2u8; 512].as_slice());
    assert_eq!(&result[1536..], [3u8; 512].as_slice());
}

#[test]
fn test_fill_each_interval_from_its_own_fetch() {
    // two missing runs, each filled by its own fetch: the bytes land in
    // the right slots and the found pages stay untouched
    let mut found_pages = FoundPages::new(3, 5);

    found_pages.add(None);
    found_pages.add(Some(vec![9u8; 512]));
    found_pages.add(None);
    found_pages.add(None);
    found_pages.add(Some(vec![8u8; 512]));

    assert_eq!(2, found_pages.missing_intervals.len());

    found_pages.fill_interval(0, [1u8; 512].as_slice());

    let mut second = vec![2u8; 512];
    second.extend_from_slice([3u8; 512].as_slice());
    found_pages.fill_interval(1, second.as_slice());

    let result = found_pages.into_vec();
    assert_eq!(&result[..512], [1u8; 512].as_slice());
    assert_eq!(&result[512..1024], [9u8; 512].as_slice());
    assert_eq!(&result[1024..1536], [2u8; 512].as_slice());
    assert_eq!(&result[1536..2048], [3u8; 512].as_slice());
    assert_eq!(&result[2048..], [8u8; 512].as_slice());
}
