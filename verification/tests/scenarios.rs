use page_blob_cache::ExactPayload;
use page_blob_cache::ExactPayloadPositions;
use page_blob_cache::WritePlan;
use page_blob_cache::pages_amount_to_cover_write;
use page_blob_cache::patch_bytes;
use page_blob_cache::plan_read;
use page_blob_cache::plan_write;
use page_blob_cache::split_into_roundtrips;

// A minimal in-memory page store standing in for the remote blob: the test
// drives the library's verified decisions and byte work against it, the way
// the orchestrator does between remote calls.
struct FakeStore {
    bytes: Vec<u8>,
    page_size: usize,
}

impl FakeStore {
    fn pages_amount(&self) -> usize {
        self.bytes.len() / self.page_size
    }

    fn resize(&mut self, pages: usize) {
        self.bytes.resize(pages * self.page_size, 0u8);
    }

    fn read_pages(&self, start_page: usize, pages: usize) -> Vec<u8> {
        let from = start_page * self.page_size;
        let to = from + pages * self.page_size;
        self.bytes[from..to].to_vec()
    }

    fn write_pages(&mut self, start_page: usize, payload: &[u8]) {
        let from = start_page * self.page_size;
        self.bytes[from..from + payload.len()].copy_from_slice(payload);
    }
}

#[test]
fn test_write_resizes_then_read_returns_written_bytes() {
    // an empty blob, page size 8: a write of [3,4,5,6] at offset 3 with
    // resize rate 1 grows the blob to cover byte 7, and a following read
    // of 3 bytes at offset 4 returns [4,5,6]
    let page_size: usize = 8;
    let mut store = FakeStore { bytes: Vec::new(), page_size };

    let payload = [3u8, 4u8, 5u8, 6u8];
    let start_pos: usize = 3;

    match plan_write(store.pages_amount(), page_size, start_pos, payload.len(), Some(1)) {
        WritePlan::NeedsResize(pages) => {
            assert_eq!(1, pages);
            store.resize(pages);
        },
        _ => panic!("an empty blob cannot fit the write"),
    }

    let positions = ExactPayloadPositions::new(start_pos, payload.len(), page_size);
    let mut buffer = store.read_pages(positions.start_page_no, positions.get_full_pages_amount());
    patch_bytes(&mut buffer, positions.get_payload_offset(), payload.as_slice());
    store.write_pages(positions.start_page_no, buffer.as_slice());

    assert_eq!(
        [0u8, 0u8, 0u8, 3u8, 4u8, 5u8, 6u8, 0u8].as_slice(),
        store.bytes.as_slice(),
    );

    let read_pos: usize = 4;
    let read_size: usize = 3;
    assert!(plan_read(store.pages_amount(), page_size, read_pos, read_size));

    let positions = ExactPayloadPositions::new(read_pos, read_size, page_size);
    let fetched = store.read_pages(positions.start_page_no, positions.get_full_pages_amount());
    let result = ExactPayload {
        payload: fetched,
        offset: positions.get_payload_offset(),
        size: read_size,
    };

    assert_eq!([4u8, 5u8, 6u8].as_slice(), result.as_slice());
}

#[test]
fn test_write_within_capacity_fits() {
    assert_eq!(WritePlan::Fits, plan_write(1, 8, 0, 8, None));
    assert_eq!(WritePlan::Fits, plan_write(1, 8, 7, 1, Some(4)));
}

#[test]
fn test_write_beyond_capacity_without_rate_is_out_of_range() {
    assert_eq!(WritePlan::OutOfRange, plan_write(1, 8, 7, 2, None));
}

#[test]
fn test_read_beyond_capacity_is_rejected() {
    assert!(plan_read(1, 8, 0, 8));
    assert!(!plan_read(1, 8, 1, 8));
    assert!(!plan_read(0, 8, 0, 1));
}

#[test]
fn test_split_into_roundtrips_chunks_in_order() {
    let mut payload = vec![1u8; 4];
    payload.extend_from_slice([2u8; 4].as_slice());
    payload.extend_from_slice([3u8; 4].as_slice());

    // two pages per round trip, page size 2: chunks of 4 bytes
    let chunks = split_into_roundtrips(payload.as_slice(), 2, 2);

    assert_eq!(3, chunks.len());
    assert_eq!([1u8; 4].as_slice(), chunks[0].as_slice());
    assert_eq!([2u8; 4].as_slice(), chunks[1].as_slice());
    assert_eq!([3u8; 4].as_slice(), chunks[2].as_slice());
}

#[test]
fn test_split_into_roundtrips_last_chunk_is_remainder() {
    let payload = vec![7u8; 10];

    let chunks = split_into_roundtrips(payload.as_slice(), 2, 2);

    assert_eq!(3, chunks.len());
    assert_eq!(4, chunks[0].len());
    assert_eq!(4, chunks[1].len());
    assert_eq!(2, chunks[2].len());
}

#[test]
fn test_split_of_empty_payload_is_empty() {
    let chunks = split_into_roundtrips([].as_slice(), 2, 2);
    assert_eq!(0, chunks.len());
}

#[test]
fn test_patch_bytes_overwrites_only_the_range() {
    let mut buffer = vec![9u8; 8];

    patch_bytes(&mut buffer, 2, [1u8, 2u8, 3u8].as_slice());

    assert_eq!(
        [9u8, 9u8, 1u8, 2u8, 3u8, 9u8, 9u8, 9u8].as_slice(),
        buffer.as_slice(),
    );
}

#[test]
fn test_auto_created_blob_covers_the_write() {
    assert_eq!(3, pages_amount_to_cover_write(1, 1024));
    assert_eq!(0, pages_amount_to_cover_write(0, 0));
    assert_eq!(5, pages_amount_to_cover_write(5, 511));
}
