use page_blob_cache::PageFromCacheResult;
use page_blob_cache::PagesCache;
use page_blob_cache::PagesList;

#[test]
fn test_we_have_whole_payload() {
    let mut pages_list = PagesList::new(10, 4);

    pages_list.insert(1, vec![1u8, 1u8, 1u8, 1u8]);

    pages_list.insert(2, vec![2u8, 2u8, 2u8, 2u8]);
    pages_list.insert(3, vec![3u8, 3u8, 3u8, 3u8]);

    let pages_result = pages_list.get_from_cache(1, 3);

    assert_eq!(1, pages_result.len());

    if let PageFromCacheResult::CachedInterval(interval) = pages_result.get(0).unwrap() {
        assert_eq!(1, interval.start_page_no);
        assert_eq!(3, interval.pages_amount);
    } else {
        panic!("Should not be here");
    }
}

#[test]
fn test_we_have_missing_end() {
    let mut pages_list = PagesList::new(10, 4);

    pages_list.insert(1, vec![1u8, 1u8, 1u8, 1u8]);
    pages_list.insert(2, vec![2u8, 2u8, 2u8, 2u8]);
    pages_list.insert(3, vec![3u8, 3u8, 3u8, 3u8]);

    let pages_result = pages_list.get_from_cache(2, 3);

    assert_eq!(2, pages_result.len());

    if let PageFromCacheResult::CachedInterval(interval) = pages_result.get(0).unwrap() {
        assert_eq!(2, interval.start_page_no);
        assert_eq!(2, interval.pages_amount);
    } else {
        panic!("Should not be here");
    }

    if let PageFromCacheResult::MissingInterval(interval) = pages_result.get(1).unwrap() {
        assert_eq!(4, interval.start_page_no);
        assert_eq!(1, interval.pages_amount);
    } else {
        panic!("Should not be here");
    }
}

#[test]
fn test_we_have_missing_beginning() {
    let mut pages_list = PagesList::new(10, 4);

    pages_list.insert(1, vec![1u8, 1u8, 1u8, 1u8]);
    pages_list.insert(2, vec![2u8, 2u8, 2u8, 2u8]);
    pages_list.insert(3, vec![3u8, 3u8, 3u8, 3u8]);

    let pages_result = pages_list.get_from_cache(0, 4);

    assert_eq!(2, pages_result.len());

    if let PageFromCacheResult::MissingInterval(interval) = pages_result.get(0).unwrap() {
        assert_eq!(0, interval.start_page_no);
        assert_eq!(1, interval.pages_amount);
    } else {
        panic!("Should not be here");
    }

    if let PageFromCacheResult::CachedInterval(interval) = pages_result.get(1).unwrap() {
        assert_eq!(1, interval.start_page_no);
        assert_eq!(3, interval.pages_amount);
    } else {
        panic!("Should not be here");
    }
}

#[test]
fn test_we_have_all_elements_missing_before() {
    let mut pages_list = PagesList::new(10, 4);

    pages_list.insert(5, vec![5u8, 5u8, 5u8, 5u8]);
    pages_list.insert(6, vec![6u8, 6u8, 6u8, 6u8]);
    pages_list.insert(7, vec![7u8, 7u8, 7u8, 7u8]);

    let pages_result = pages_list.get_from_cache(1, 3);

    assert_eq!(1, pages_result.len());

    if let PageFromCacheResult::MissingInterval(interval) = pages_result.get(0).unwrap() {
        assert_eq!(1, interval.start_page_no);
        assert_eq!(3, interval.pages_amount);
    } else {
        panic!("Should not be here");
    }
}

#[test]
fn test_we_have_all_elements_missing_after() {
    const PAGE_SIZE: usize = 4;
    let mut pages_list = PagesList::new(10, PAGE_SIZE);

    pages_list.insert(5, vec![5u8; PAGE_SIZE]);
    pages_list.insert(6, vec![6u8; PAGE_SIZE]);
    pages_list.insert(7, vec![7u8; PAGE_SIZE]);

    let pages_result = pages_list.get_from_cache(8, 3);

    assert_eq!(1, pages_result.len());

    if let PageFromCacheResult::MissingInterval(interval) = pages_result.get(0).unwrap() {
        assert_eq!(8, interval.start_page_no);
        assert_eq!(3, interval.pages_amount);
    } else {
        panic!("Should not be here");
    }
}

#[test]
fn test_we_have_missing_elements_in_the_middle() {
    const PAGE_SIZE: usize = 4;
    let mut pages_list = PagesList::new(10, PAGE_SIZE);

    pages_list.insert(5, vec![5u8; PAGE_SIZE]);
    pages_list.insert(6, vec![6u8; PAGE_SIZE]);
    pages_list.insert(7, vec![7u8; PAGE_SIZE]);

    pages_list.insert(9, vec![9u8; PAGE_SIZE]);
    pages_list.insert(10, vec![10u8; PAGE_SIZE]);

    let pages_result = pages_list.get_from_cache(5, 6);

    assert_eq!(3, pages_result.len());

    if let PageFromCacheResult::CachedInterval(interval) = pages_result.get(0).unwrap() {
        assert_eq!(5, interval.start_page_no);
        assert_eq!(3, interval.pages_amount);
    } else {
        panic!("Should not be here");
    }

    if let PageFromCacheResult::MissingInterval(interval) = pages_result.get(1).unwrap() {
        assert_eq!(8, interval.start_page_no);
        assert_eq!(1, interval.pages_amount);
    } else {
        panic!("Should not be here");
    }

    if let PageFromCacheResult::CachedInterval(interval) = pages_result.get(2).unwrap() {
        assert_eq!(9, interval.start_page_no);
        assert_eq!(2, interval.pages_amount);
    } else {
        panic!("Should not be here");
    }
}

#[test]
fn test_we_have_missing_elements_at_beginning_and_in_the_middle() {
    const PAGE_SIZE: usize = 4;
    let mut pages_list = PagesList::new(10, PAGE_SIZE);

    pages_list.insert(5, vec![5u8; PAGE_SIZE]);
    pages_list.insert(6, vec![6u8; PAGE_SIZE]);
    pages_list.insert(7, vec![7u8; PAGE_SIZE]);

    pages_list.insert(9, vec![9u8; PAGE_SIZE]);
    pages_list.insert(10, vec![10u8; PAGE_SIZE]);

    let pages_result = pages_list.get_from_cache(4, 7);

    assert_eq!(4, pages_result.len());

    if let PageFromCacheResult::MissingInterval(interval) = pages_result.get(0).unwrap() {
        assert_eq!(4, interval.start_page_no);
        assert_eq!(1, interval.pages_amount);
    } else {
        panic!("Should not be here");
    }

    if let PageFromCacheResult::CachedInterval(interval) = pages_result.get(1).unwrap() {
        assert_eq!(5, interval.start_page_no);
        assert_eq!(3, interval.pages_amount);
    } else {
        panic!("Should not be here");
    }

    if let PageFromCacheResult::MissingInterval(interval) = pages_result.get(2).unwrap() {
        assert_eq!(8, interval.start_page_no);
        assert_eq!(1, interval.pages_amount);
    } else {
        panic!("Should not be here");
    }

    if let PageFromCacheResult::CachedInterval(interval) = pages_result.get(3).unwrap() {
        assert_eq!(9, interval.start_page_no);
        assert_eq!(2, interval.pages_amount);
    } else {
        panic!("Should not be here");
    }
}

#[test]
fn test_we_have_missing_elements_at_beginning_in_the_middle_in_the_end() {
    const PAGE_SIZE: usize = 4;
    let mut pages_list = PagesList::new(10, PAGE_SIZE);

    pages_list.insert(5, vec![5u8; PAGE_SIZE]);
    pages_list.insert(6, vec![6u8; PAGE_SIZE]);
    pages_list.insert(7, vec![7u8; PAGE_SIZE]);

    pages_list.insert(9, vec![9u8; PAGE_SIZE]);
    pages_list.insert(10, vec![10u8; PAGE_SIZE]);

    let pages_result = pages_list.get_from_cache(5, 7);

    assert_eq!(4, pages_result.len());

    if let PageFromCacheResult::CachedInterval(interval) = pages_result.get(0).unwrap() {
        assert_eq!(5, interval.start_page_no);
        assert_eq!(3, interval.pages_amount);
    } else {
        panic!("Should not be here");
    }

    if let PageFromCacheResult::MissingInterval(interval) = pages_result.get(1).unwrap() {
        assert_eq!(8, interval.start_page_no);
        assert_eq!(1, interval.pages_amount);
    } else {
        panic!("Should not be here");
    }

    if let PageFromCacheResult::CachedInterval(interval) = pages_result.get(2).unwrap() {
        assert_eq!(9, interval.start_page_no);
        assert_eq!(2, interval.pages_amount);
    } else {
        panic!("Should not be here");
    }

    if let PageFromCacheResult::MissingInterval(interval) = pages_result.get(3).unwrap() {
        assert_eq!(11, interval.start_page_no);
        assert_eq!(1, interval.pages_amount);
    } else {
        panic!("Should not be here");
    }
}

#[test]
fn test_we_have_missing_elements_in_the_middle_in_the_end() {
    const PAGE_SIZE: usize = 4;
    let mut pages_list = PagesList::new(10, PAGE_SIZE);

    pages_list.insert(5, vec![5u8; PAGE_SIZE]);
    pages_list.insert(6, vec![6u8; PAGE_SIZE]);
    pages_list.insert(7, vec![7u8; PAGE_SIZE]);

    pages_list.insert(9, vec![9u8; PAGE_SIZE]);
    pages_list.insert(10, vec![10u8; PAGE_SIZE]);

    let pages_result = pages_list.get_from_cache(4, 8);

    assert_eq!(5, pages_result.len());

    if let PageFromCacheResult::MissingInterval(interval) = pages_result.get(0).unwrap() {
        assert_eq!(4, interval.start_page_no);
        assert_eq!(1, interval.pages_amount);
    } else {
        panic!("Should not be here");
    }

    if let PageFromCacheResult::CachedInterval(interval) = pages_result.get(1).unwrap() {
        assert_eq!(5, interval.start_page_no);
        assert_eq!(3, interval.pages_amount);
    } else {
        panic!("Should not be here");
    }

    if let PageFromCacheResult::MissingInterval(interval) = pages_result.get(2).unwrap() {
        assert_eq!(8, interval.start_page_no);
        assert_eq!(1, interval.pages_amount);
    } else {
        panic!("Should not be here");
    }

    if let PageFromCacheResult::CachedInterval(interval) = pages_result.get(3).unwrap() {
        assert_eq!(9, interval.start_page_no);
        assert_eq!(2, interval.pages_amount);
    } else {
        panic!("Should not be here");
    }

    if let PageFromCacheResult::MissingInterval(interval) = pages_result.get(4).unwrap() {
        assert_eq!(11, interval.start_page_no);
        assert_eq!(1, interval.pages_amount);
    } else {
        panic!("Should not be here");
    }
}

#[test]
fn test_eviction_keeps_cache_within_capacity() {
    let mut pages_list = PagesList::new(2, 4);

    pages_list.insert_with_created(1, vec![1u8; 4], 100);
    pages_list.insert_with_created(2, vec![2u8; 4], 200);
    pages_list.insert_with_created(3, vec![3u8; 4], 300);

    assert!(pages_list.entries.len() <= 2);
    assert!(pages_list.get_by_page_no(1).is_none());
    assert_eq!(pages_list.get_by_page_no(2).unwrap(), [2u8; 4].as_slice());
    assert_eq!(pages_list.get_by_page_no(3).unwrap(), [3u8; 4].as_slice());
}

#[test]
fn test_eviction_removes_whole_timestamp_group() {
    let mut pages_list = PagesList::new(2, 4);

    pages_list.insert_with_created(1, vec![1u8; 4], 100);
    pages_list.insert_with_created(2, vec![2u8; 4], 100);
    pages_list.insert_with_created(3, vec![3u8; 4], 200);

    // both pages of the oldest group leave together
    assert_eq!(1, pages_list.entries.len());
    assert!(pages_list.get_by_page_no(1).is_none());
    assert!(pages_list.get_by_page_no(2).is_none());
    assert_eq!(pages_list.get_by_page_no(3).unwrap(), [3u8; 4].as_slice());
}

#[test]
fn test_reinsert_replaces_old_entry_and_stamp() {
    let mut pages_list = PagesList::new(2, 4);

    pages_list.insert_with_created(1, vec![1u8; 4], 100);
    pages_list.insert_with_created(1, vec![9u8; 4], 300);
    pages_list.insert_with_created(2, vec![2u8; 4], 200);
    pages_list.insert_with_created(3, vec![3u8; 4], 250);

    // page 1 was re-stamped at 300, so the oldest page is now 2
    assert_eq!(2, pages_list.entries.len());
    assert!(pages_list.get_by_page_no(2).is_none());
    assert_eq!(pages_list.get_by_page_no(1).unwrap(), [9u8; 4].as_slice());
    assert_eq!(pages_list.get_by_page_no(3).unwrap(), [3u8; 4].as_slice());
}

#[test]
fn test_save_to_cache_keeps_only_trailing_pages() {
    let mut cache = PagesCache::new(2, 4);

    let mut payload = vec![0u8; 4];
    payload.extend_from_slice([1u8; 4].as_slice());
    payload.extend_from_slice([2u8; 4].as_slice());
    payload.extend_from_slice([3u8; 4].as_slice());

    cache.save_to_cache(10, payload.as_slice());

    assert!(cache.get_payload(10).is_none());
    assert!(cache.get_payload(11).is_none());
    assert_eq!(cache.get_payload(12).unwrap(), [2u8; 4].as_slice());
    assert_eq!(cache.get_payload(13).unwrap(), [3u8; 4].as_slice());
}

#[test]
fn test_clear_drops_everything() {
    let mut cache = PagesCache::new(10, 4);
    cache.save_to_cache(0, [1u8; 8].as_slice());
    assert!(cache.get_payload(0).is_some());

    cache.clear();

    assert!(cache.get_payload(0).is_none());
    assert!(cache.get_payload(1).is_none());
}
