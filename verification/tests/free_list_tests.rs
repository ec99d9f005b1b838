use bonsai_db::format::{Reader, Writer};
use bonsai_db::free_list::FreeList;
use bonsai_db::node::FREELIST_NODE;
use bonsai_db::node_codec::NodeHeader;
use std::collections::{BTreeMap, BTreeSet, HashMap};

const FREE_LIST_DATA: &[u8] = &[
    // header
    0x00, 0x03, // flags
    0x00, 0x00, 0x00, 0x00, 0x00, 0x00, 0x00, 0x03, // len=3
    0x00, 0x00, 0x00, 0x00, 0x00, 0x00, 0x00, 0x00, // overflow
    // contents
    0x00, 0x00, 0x00, 0x00, 0x00, 0x00, 0x00, 0x10, // 16
    0x00, 0x00, 0x00, 0x00, 0x00, 0x00, 0x00, 0x20, // 32
    0x00, 0x00, 0x00, 0x00, 0x00, 0x00, 0x00, 0x30, // 48
];

#[test]
fn allocates_multiple_pages_at_the_start() {
    let mut free_list = FreeList::default();
    free_list.free = BTreeSet::from([20, 30, 40, 50, 110, 130, 150, 160, 170, 180]);
    let page_address = free_list.allocate(4, 10);
    assert_eq!(page_address, Some(20));
    assert_eq!(free_list.free, BTreeSet::from([110, 130, 150, 160, 170, 180]));
}

#[test]
fn allocates_multiple_pages_at_the_middle() {
    let mut free_list = FreeList::default();
    free_list.free = BTreeSet::from([20, 110, 130, 150, 160, 170, 180]);
    let page_address = free_list.allocate(3, 10);
    assert_eq!(page_address, Some(150));
    assert_eq!(free_list.free, BTreeSet::from([20, 110, 130, 180]));
}

#[test]
fn allocates_multiple_pages_at_the_end() {
    let mut free_list = FreeList::default();
    free_list.free = BTreeSet::from([20, 110, 130, 150, 160, 170, 180]);
    let page_address = free_list.allocate(4, 10);
    assert_eq!(page_address, Some(150));
    assert_eq!(free_list.free, BTreeSet::from([20, 110, 130]));
}

#[test]
fn allocates_one_page() {
    let mut free_list = FreeList::default();
    free_list.free = BTreeSet::from([20, 110, 130, 150, 160, 170, 180]);
    let page_address = free_list.allocate(1, 10);
    assert_eq!(page_address, Some(20));
    assert_eq!(free_list.free, BTreeSet::from([110, 130, 150, 160, 170, 180]));
}

#[test]
fn cannot_allocates_when_page_runs_are_too_small() {
    let mut free_list = FreeList::default();
    free_list.free = BTreeSet::from([20, 110, 130, 150, 160, 170, 180]);
    let page_address = free_list.allocate(10, 10);
    assert_eq!(page_address, None);
    assert_eq!(free_list.free, BTreeSet::from([20, 110, 130, 150, 160, 170, 180]));
}

#[test]
fn cannot_allocates_when_no_free_pages() {
    let mut free_list = FreeList::default();
    let page_address = free_list.allocate(1, 10);
    assert_eq!(page_address, None);
    assert!(free_list.free.is_empty());
}

#[test]
fn reads_free_list() {
    let mut reader = Reader::new(FREE_LIST_DATA);
    let (header, free_list) = FreeList::read(&mut reader).unwrap();
    assert_eq!(
        header,
        NodeHeader {
            flags: FREELIST_NODE,
            internal_nodes_len: 3,
            overflow_len: 0
        }
    );
    assert_eq!(free_list.free, BTreeSet::from([16, 32, 48]));
    assert!(free_list.pending_free.is_empty());
}

#[test]
fn writes_free_list() {
    let mut free_list = FreeList::default();
    free_list.free = BTreeSet::from([16, 32, 48]);
    let mut writer = Writer::new();
    free_list.write(&mut writer, 128).unwrap();
    assert_eq!(writer.into_inner(), FREE_LIST_DATA);
}

#[test]
fn retired_pages_wait_for_the_readers() {
    let mut free_list = FreeList::default();
    // Pages allocated by transaction 2 and retired by transaction 5; a
    // page with overflow retired by transaction 3.
    free_list.register_allocation(100, 2);
    free_list.register_allocation(200, 4);
    free_list.free(5, 100, 0, 10);
    free_list.free(5, 200, 0, 10);
    free_list.free(3, 300, 2, 10);
    assert_eq!(free_list.pending_pages_len(), 5);
    assert_eq!(free_list.pages_len(), 5);
    assert_eq!(free_list.size(), 40);
    assert_eq!(free_list.copy_all(), vec![100, 200, 300, 310, 320]);

    // Readers on snapshots 3 and 4: nothing retired before 3, nothing
    // allocated after 4.
    assert_eq!(free_list.release(3, 4), Vec::<u64>::new());
    // A reader on snapshot 3 only: page 200 was allocated after it began.
    assert_eq!(free_list.release(3, 3), vec![200]);
    assert!(free_list.free.contains(&200));
    assert!(!free_list.allocated_by.contains_key(&200));
    // A reader on snapshot 4: what transaction 3 retired is out of reach.
    assert_eq!(free_list.release(4, 4), vec![300, 310, 320]);
    assert_eq!(free_list.pending_free.keys().copied().collect::<Vec<_>>(), vec![5]);
    // No reader.
    assert_eq!(free_list.release(u64::MAX, 0), vec![100]);
    assert!(free_list.pending_free.is_empty());
    assert_eq!(free_list.free, BTreeSet::from([100, 200, 300, 310, 320]));
    assert_eq!(free_list.pending_pages_len(), 0);
}

#[test]
fn rollback_gives_taken_pages_back() {
    let mut free_list = FreeList::default();
    free_list.free = BTreeSet::from([20, 30, 40]);
    assert_eq!(free_list.allocate(2, 10), Some(20));
    free_list.register_allocation(20, 7);
    free_list.register_allocation(30, 7);
    free_list.free(7, 500, 0, 10);
    assert_eq!(free_list.pending_allocated, BTreeSet::from([20, 30]));
    // Pages that are taken are not handed out twice.
    assert_eq!(free_list.allocate(1, 10), Some(40));
    free_list.rollback(7);
    assert_eq!(free_list.free, BTreeSet::from([20, 30, 40]));
    assert!(free_list.pending_allocated.is_empty());
    assert!(free_list.pending_free.is_empty());
    assert!(free_list.allocated_by.is_empty());

    assert_eq!(free_list.allocate(3, 10), Some(20));
    free_list.commit_allocations();
    assert!(free_list.pending_allocated.is_empty());
    assert!(free_list.free.is_empty());
    assert_eq!(free_list.allocate(0, 10), None);
}

#[test]
fn free_list_that_does_not_grow_is_corruption() {
    let mut data = FREE_LIST_DATA.to_vec();
    data[25] = 0x40; // 64, 32, 48
    let mut reader = Reader::new(&data);
    assert!(matches!(FreeList::read(&mut reader), Err(bonsai_db::error::Error::Corruption)));
    let mut other_kind = FREE_LIST_DATA.to_vec();
    other_kind[1] = 2;
    let mut reader = Reader::new(&other_kind);
    assert!(matches!(FreeList::read(&mut reader), Err(bonsai_db::error::Error::Corruption)));
    let mut reader = Reader::new(&FREE_LIST_DATA[..30]);
    assert!(matches!(FreeList::read(&mut reader), Err(bonsai_db::error::Error::Io)));
}

#[test]
fn release_hands_back_what_no_reader_saw() {
    let mut free_list = FreeList::default();
    free_list.pending_free = BTreeMap::from([(5, BTreeSet::from([256, 384]))]);
    free_list.allocated_by = HashMap::from([(256, 4), (384, 2)]);
    assert_eq!(free_list.release(3, 3), vec![256]);
    assert_eq!(free_list.free, BTreeSet::from([256]));
    assert_eq!(free_list.pending_free, BTreeMap::from([(5, BTreeSet::from([384]))]));
    assert_eq!(free_list.allocated_by, HashMap::from([(384, 2)]));
}

#[test]
fn release_returns_a_page_in_two_buckets_once() {
    let mut free_list = FreeList::default();
    free_list.pending_free =
        BTreeMap::from([(2, BTreeSet::from([512, 640])), (3, BTreeSet::from([128, 512]))]);
    assert_eq!(free_list.release(u64::MAX, 0), vec![128, 512, 640]);
    assert_eq!(free_list.free, BTreeSet::from([128, 512, 640]));
    assert!(free_list.pending_free.is_empty());
}

#[test]
fn rollback_forgets_who_took_the_pages() {
    let mut free_list = FreeList::default();
    free_list.free = BTreeSet::from([128, 256, 384, 1024]);
    assert_eq!(free_list.allocate(2, 128), Some(128));
    free_list.register_allocation(128, 7);
    free_list.register_allocation(256, 7);
    free_list.register_allocation(4096, 6);
    free_list.free(7, 2048, 0, 128);
    free_list.free(6, 3072, 0, 128);
    free_list.rollback(7);
    assert_eq!(free_list.free, BTreeSet::from([128, 256, 384, 1024]));
    assert!(free_list.pending_allocated.is_empty());
    assert_eq!(free_list.pending_free, BTreeMap::from([(6, BTreeSet::from([3072]))]));
    assert_eq!(free_list.allocated_by, HashMap::from([(4096, 6)]));
}
