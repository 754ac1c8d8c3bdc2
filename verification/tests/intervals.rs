use page_blob_cache::PagesCacheIntervals;
use page_blob_cache::PagesCacheItem;
use page_blob_cache::merge_pages;

#[test]
fn test_we_merge_page_exactly_before() {
    let mut pages_cache = PagesCacheIntervals::new();

    pages_cache.update_pages(2, vec![0u8; 512]);

    assert_eq!(1, pages_cache.pages.len());

    assert_eq!([0u8; 512].as_slice(), pages_cache.pages[0].content.as_slice());
    assert_eq!(2, pages_cache.pages[0].page_id);

    pages_cache.update_pages(1, vec![1u8; 512]);

    assert_eq!(1, pages_cache.pages.len());

    let mut result = vec![1u8; 512];
    result.extend_from_slice([0u8; 512].as_slice());

    assert_eq!(result, pages_cache.pages[0].content);
    assert_eq!(1, pages_cache.pages[0].page_id);
}

#[test]
fn test_we_merge_page_exactly_after() {
    let mut pages_cache = PagesCacheIntervals::new();

    pages_cache.update_pages(1, vec![0u8; 512]);

    assert_eq!(1, pages_cache.pages.len());

    assert_eq!([0u8; 512].as_slice(), pages_cache.pages[0].content.as_slice());
    assert_eq!(1, pages_cache.pages[0].page_id);

    pages_cache.update_pages(2, vec![1u8; 512]);

    assert_eq!(1, pages_cache.pages.len());

    let mut result = vec![0u8; 512];
    result.extend_from_slice([1u8; 512].as_slice());

    assert_eq!(result, pages_cache.pages[0].content);
    assert_eq!(1, pages_cache.pages[0].page_id);
}

#[test]
fn test_we_insert_page_inside() {
    let mut pages_cache = PagesCacheIntervals::new();

    pages_cache.update_pages(1, vec![0u8; 512]);
    pages_cache.update_pages(3, vec![2u8; 512]);

    assert_eq!(2, pages_cache.pages.len());

    pages_cache.update_pages(2, vec![1u8; 512]);

    let mut result = vec![0u8; 512];
    result.extend_from_slice([1u8; 512].as_slice());
    result.extend_from_slice([2u8; 512].as_slice());

    assert_eq!(1, pages_cache.pages.len());
    assert_eq!(1, pages_cache.pages[0].page_id);
    assert_eq!(result, pages_cache.pages[0].content);
}

#[test]
fn test_we_insert_page_inside_with_overlap_before() {
    let mut pages_cache = PagesCacheIntervals::new();

    pages_cache.update_pages(1, vec![0u8; 1024]);
    pages_cache.update_pages(4, vec![2u8; 512]);

    assert_eq!(2, pages_cache.pages.len());

    pages_cache.update_pages(2, vec![1u8; 1024]);

    let mut result = vec![0u8; 512];
    result.extend_from_slice([1u8; 1024].as_slice());
    result.extend_from_slice([2u8; 512].as_slice());

    assert_eq!(1, pages_cache.pages.len());
    assert_eq!(1, pages_cache.pages[0].page_id);
    assert_eq!(result, pages_cache.pages[0].content);
}

#[test]
fn test_we_insert_page_inside_with_overlap_both_sides() {
    let mut pages_cache = PagesCacheIntervals::new();

    pages_cache.update_pages(1, vec![0u8; 1024]);
    pages_cache.update_pages(4, vec![2u8; 1024]);

    assert_eq!(2, pages_cache.pages.len());

    pages_cache.update_pages(2, vec![1u8; 512 * 3]);

    let mut result = vec![0u8; 512];
    result.extend_from_slice([1u8; 512 * 3].as_slice());
    result.extend_from_slice([2u8; 512].as_slice());

    assert_eq!(1, pages_cache.pages.len());
    assert_eq!(1, pages_cache.pages[0].page_id);
    assert_eq!(result, pages_cache.pages[0].content);
}

#[test]
fn test_we_insert_page_inside_with_overlap_both_sides_and_replace_in_the_middle() {
    let mut pages_cache = PagesCacheIntervals::new();

    pages_cache.update_pages(1, vec![1u8; 1024]);
    pages_cache.update_pages(4, vec![2u8; 1024]);
    pages_cache.update_pages(7, vec![3u8; 1024]);

    assert_eq!(3, pages_cache.pages.len());

    pages_cache.update_pages(2, vec![4u8; 512 * 6]);

    let mut result = vec![1u8; 512];
    result.extend_from_slice([4u8; 512 * 6].as_slice());
    result.extend_from_slice([3u8; 512].as_slice());

    assert_eq!(1, pages_cache.pages.len());
    assert_eq!(1, pages_cache.pages[0].page_id);
    assert_eq!(result, pages_cache.pages[0].content);
}

#[test]
fn test_we_insert_page_inside_with_no_connection() {
    let mut pages_cache = PagesCacheIntervals::new();

    pages_cache.update_pages(1, vec![0u8; 512]);
    pages_cache.update_pages(5, vec![2u8; 512]);

    assert_eq!(2, pages_cache.pages.len());

    pages_cache.update_pages(3, vec![1u8; 512]);

    assert_eq!(3, pages_cache.pages.len());

    assert_eq!(1, pages_cache.pages[0].page_id);
    assert_eq!(3, pages_cache.pages[1].page_id);
    assert_eq!(5, pages_cache.pages[2].page_id);
}

#[test]
fn test_get_content() {
    let mut pages_cache = PagesCacheIntervals::new();
    pages_cache.update_pages(1, vec![1u8; 1024]);
    pages_cache.update_pages(5, vec![2u8; 512]);

    assert!(pages_cache.get_page(0).is_none());
    assert_eq!(pages_cache.get_page(1).unwrap(), [1u8; 512].as_slice());
    assert_eq!(pages_cache.get_page(2).unwrap(), [1u8; 512].as_slice());
    assert!(pages_cache.get_page(3).is_none());
    assert!(pages_cache.get_page(4).is_none());
    assert_eq!(pages_cache.get_page(5).unwrap(), [2u8; 512].as_slice());
    assert!(pages_cache.get_page(6).is_none());
}

#[test]
fn test_my_page_to_merge() {
    let my_page = PagesCacheItem::new(2, vec![0u8; 512]);

    let mut new_page = PagesCacheItem::new(0, vec![0u8; 512]);
    assert!(my_page.is_my_page_to_merge(&new_page).is_before());

    new_page.page_id = 1;
    assert!(my_page.is_my_page_to_merge(&new_page).is_here());

    new_page.page_id = 2;
    assert!(my_page.is_my_page_to_merge(&new_page).is_here());

    new_page.page_id = 3;
    assert!(my_page.is_my_page_to_merge(&new_page).is_here());

    new_page.page_id = 4;
    assert!(my_page.is_my_page_to_merge(&new_page).is_after());
}

#[test]
fn test_we_have_two_pages_to_merge_with_to_pages_() {
    let my_page = PagesCacheItem::new(5, vec![0u8; 1024]);

    let mut new_page = PagesCacheItem::new(2, vec![0u8; 512 * 2]);
    assert!(my_page.is_my_page_to_merge(&new_page).is_before());

    new_page.page_id = 3;

    assert!(my_page.is_my_page_to_merge(&new_page).is_here());

    new_page.page_id = 4;
    assert!(my_page.is_my_page_to_merge(&new_page).is_here());

    new_page.page_id = 5;
    assert!(my_page.is_my_page_to_merge(&new_page).is_here());

    new_page.page_id = 6;
    assert!(my_page.is_my_page_to_merge(&new_page).is_here());

    new_page.page_id = 7;
    assert!(my_page.is_my_page_to_merge(&new_page).is_here());

    let new_page = PagesCacheItem::new(8, vec![0u8; 512 * 5]);
    assert!(my_page.is_my_page_to_merge(&new_page).is_after());
}

#[test]
fn test_merge_in_front_of_page() {
    let mut my_page = PagesCacheItem::new(1, vec![1u8; 512]);

    let new_content = PagesCacheItem::new(0, vec![0u8; 512]);

    my_page.merge(new_content);

    let mut result = vec![0u8; 512];
    result.extend_from_slice([1u8; 512].as_ref());

    assert_eq!(my_page.content, result);
}

#[test]
fn test_merge_from_begin_half_of_a_page() {
    let mut my_page = PagesCacheItem::new(1, vec![0u8; 1024]);

    let new_content = PagesCacheItem::new(1, vec![1u8; 512]);

    my_page.merge(new_content);

    let mut result = vec![1u8; 512];
    result.extend_from_slice([0u8; 512].as_ref());

    assert_eq!(my_page.content, result);
}

#[test]
fn test_merge_from_begin_same_size() {
    let mut my_page = PagesCacheItem::new(1, vec![0u8; 512]);

    let new_content = PagesCacheItem::new(1, vec![1u8; 512]);

    my_page.merge(new_content);

    let result = vec![1u8; 512];

    assert_eq!(my_page.content, result);
}

#[test]
fn test_merge_from_begin_bigger_size() {
    let mut my_page = PagesCacheItem::new(1, vec![0u8; 512]);

    let new_content = PagesCacheItem::new(1, vec![1u8; 1024]);

    my_page.merge(new_content);

    let result = vec![1u8; 1024];

    assert_eq!(my_page.content, result);
}

#[test]
fn test_merge_at_the_end() {
    let mut my_page = PagesCacheItem::new(1, vec![0u8; 512]);

    let new_content = PagesCacheItem::new(2, vec![1u8; 512]);

    my_page.merge(new_content);

    let mut result = vec![0u8; 512];
    result.extend_from_slice([1u8; 512].as_slice());

    assert_eq!(my_page.content, result);
}

#[test]
fn test_merge_at_in_the_middle() {
    let mut my_page = PagesCacheItem::new(1, vec![0u8; 1024]);

    let new_content = PagesCacheItem::new(2, vec![1u8; 512]);

    my_page.merge(new_content);

    let mut result = vec![0u8; 512];
    result.extend_from_slice([1u8; 512].as_slice());

    assert_eq!(my_page.content, result);
}

#[test]
fn test_merge_at_in_the_middle_and_overflow() {
    let mut my_page = PagesCacheItem::new(1, vec![0u8; 1024]);

    let new_content = PagesCacheItem::new(2, vec![1u8; 1024]);

    my_page.merge(new_content);

    let mut result = vec![0u8; 512];
    result.extend_from_slice([1u8; 1024].as_slice());

    assert_eq!(my_page.content, result);
}

#[test]
fn test_merge_pages_with_white_spaces() {
    let src_pages = vec![
        PagesCacheItem::new(0, vec![0u8; 512]),
        PagesCacheItem::new(2, vec![2u8; 512]),
    ];

    let src_pages: Vec<&PagesCacheItem> = src_pages.iter().collect();

    let page_to_merge = PagesCacheItem::new(1, vec![1u8; 512]);

    let result_page = merge_pages(src_pages.as_slice(), &page_to_merge);

    let mut result = vec![0u8; 512];
    result.extend_from_slice([1u8; 512].as_ref());
    result.extend_from_slice([2u8; 512].as_ref());

    assert_eq!(result_page.content, result);
}

#[test]
fn test_merge_pages_with_overlap() {
    let src_pages = vec![
        PagesCacheItem::new(0, vec![0u8; 512]),
        PagesCacheItem::new(2, vec![2u8; 1024]),
    ];

    let src_pages: Vec<&PagesCacheItem> = src_pages.iter().collect();

    let page_to_merge = PagesCacheItem::new(1, vec![1u8; 1024]);

    let result_page = merge_pages(src_pages.as_slice(), &page_to_merge);

    let mut result = vec![0u8; 512];
    result.extend_from_slice([1u8; 1024].as_ref());
    result.extend_from_slice([2u8; 512].as_ref());

    assert_eq!(result_page.content, result);
}

#[test]
fn test_merge_pages_zero_fills_gap_pages() {
    // sources at pages 0 and 4, incoming run only at page 2: the bridged
    // span's never-written pages 1 and 3 read back as zeros
    let src_pages = vec![
        PagesCacheItem::new(0, vec![5u8; 512]),
        PagesCacheItem::new(4, vec![6u8; 512]),
    ];

    let src_pages: Vec<&PagesCacheItem> = src_pages.iter().collect();

    let page_to_merge = PagesCacheItem::new(2, vec![7u8; 512]);

    let result_page = merge_pages(src_pages.as_slice(), &page_to_merge);

    assert_eq!(0, result_page.page_id);
    assert_eq!(512 * 5, result_page.content.len());
    assert_eq!(result_page.get_content(0).unwrap(), [5u8; 512].as_slice());
    assert_eq!(result_page.get_content(1).unwrap(), [0u8; 512].as_slice());
    assert_eq!(result_page.get_content(2).unwrap(), [7u8; 512].as_slice());
    assert_eq!(result_page.get_content(3).unwrap(), [0u8; 512].as_slice());
    assert_eq!(result_page.get_content(4).unwrap(), [6u8; 512].as_slice());
}

#[test]
fn test_upsert_bridges_two_intervals_into_one() {
    // pending intervals {start 1, two pages} and {start 4, two pages};
    // an upsert of three pages at 2 merges all three into {start 1, five pages}
    let mut pages_cache = PagesCacheIntervals::new();

    pages_cache.update_pages(1, vec![1u8; 1024]);
    pages_cache.update_pages(4, vec![2u8; 1024]);

    assert_eq!(2, pages_cache.pages.len());

    pages_cache.update_pages(2, vec![3u8; 512 * 3]);

    assert_eq!(1, pages_cache.pages.len());
    assert_eq!(1, pages_cache.pages[0].page_id);
    assert_eq!(512 * 5, pages_cache.pages[0].content.len());

    let mut result = vec![1u8; 512];
    result.extend_from_slice([3u8; 512 * 3].as_slice());
    result.extend_from_slice([2u8; 512].as_slice());
    assert_eq!(result, pages_cache.pages[0].content);
}
