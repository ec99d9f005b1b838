use bonsai_db::cursor::Cursor;
use bonsai_db::database::{Database, Options};
use bonsai_db::error::Error;
use bonsai_db::node::InternalNodes;
use bonsai_db::reader::NodeReader;
use bonsai_db::staging::Staged;

fn options() -> Options {
    Options {
        max_files: 10,
        page_size: 1 << 7,
        cache_size: 1 << 30,
    }
}

fn key(i: usize) -> Vec<u8> {
    format!("KEY_{:03}", i).into_bytes()
}

fn value() -> Vec<u8> {
    vec![b'v'; 100]
}

fn collect<R: NodeReader>(cursor: &mut Cursor<'_, R>) -> Vec<(Vec<u8>, Vec<u8>)> {
    let mut out = Vec::new();
    while cursor.is_valid() {
        out.push((cursor.key().to_vec(), cursor.value().to_vec()));
        cursor.next().unwrap();
    }
    out
}

fn filled() -> Vec<u8> {
    let mut db = Database::open(None, options()).unwrap();
    let mut tx = db.begin_write().unwrap();
    for i in 0..300 {
        tx.put(db.store(), &key(i), &value()).unwrap();
    }
    db.commit(tx).unwrap();
    db.into_bytes()
}

#[test]
fn three_hundred_keys_survive_commit_and_reopen() {
    let bytes = filled();
    let mut db = Database::open(Some(bytes), options()).unwrap();
    let rtx = db.begin_read();
    let mut cursor = rtx.cursor(db.store()).unwrap();
    assert!(cursor.stack.len() >= 2);
    assert!(matches!(cursor.stack[0].node.as_ref(), InternalNodes::Branch(_)));
    let entries = collect(&mut cursor);
    assert_eq!(entries.len(), 300);
    for (i, (k, v)) in entries.iter().enumerate() {
        assert_eq!(k, &key(i));
        assert_eq!(v, &value());
    }
}

#[test]
fn deleting_even_keys_leaves_the_odd_ones() {
    let bytes = filled();
    let mut db = Database::open(Some(bytes), options()).unwrap();
    let mut tx = db.begin_write().unwrap();
    for i in (0..300).step_by(2) {
        tx.remove(db.store(), &key(i)).unwrap();
    }
    db.commit(tx).unwrap();
    let bytes = db.into_bytes();
    let mut db = Database::open(Some(bytes), options()).unwrap();
    let rtx = db.begin_read();
    let mut cursor = rtx.cursor(db.store()).unwrap();
    let entries = collect(&mut cursor);
    assert_eq!(entries.len(), 150);
    for (n, (k, _)) in entries.iter().enumerate() {
        assert_eq!(k, &key(2 * n + 1));
    }
}

#[test]
fn put_commit_open_get() {
    let mut db = Database::open(None, options()).unwrap();
    let mut tx = db.begin_write().unwrap();
    tx.put(db.store(), b"k", b"v").unwrap();
    db.commit(tx).unwrap();
    let bytes = db.into_bytes();
    let mut db = Database::open(Some(bytes), options()).unwrap();
    let rtx = db.begin_read();
    assert_eq!(rtx.get(db.store(), b"k").unwrap(), Some(b"v".to_vec()));
    assert_eq!(rtx.get(db.store(), b"missing").unwrap(), None);
}

#[test]
fn second_put_of_a_key_wins() {
    let mut db = Database::open(None, options()).unwrap();
    let mut tx = db.begin_write().unwrap();
    tx.put(db.store(), b"k", b"v1").unwrap();
    tx.put(db.store(), b"k", b"v2").unwrap();
    assert_eq!(tx.get(db.store(), b"k").unwrap(), Some(b"v2".to_vec()));
    let reader = Staged { staging: &tx.staging, store: db.store() };
    let mut cursor = tx.cursor(&reader).unwrap();
    assert_eq!(collect(&mut cursor), vec![(b"k".to_vec(), b"v2".to_vec())]);
}

#[test]
fn removing_twice_is_removing_once() {
    let mut db = Database::open(None, options()).unwrap();
    let mut tx = db.begin_write().unwrap();
    tx.put(db.store(), b"a", b"1").unwrap();
    tx.put(db.store(), b"b", b"2").unwrap();
    tx.remove(db.store(), b"a").unwrap();
    tx.remove(db.store(), b"a").unwrap();
    assert_eq!(tx.get(db.store(), b"a").unwrap(), None);
    assert_eq!(tx.get(db.store(), b"b").unwrap(), Some(b"2".to_vec()));
}

#[test]
fn removing_missing_keys_changes_nothing() {
    let bytes = filled();
    let mut db = Database::open(Some(bytes.clone()), options()).unwrap();
    let mut tx = db.begin_write().unwrap();
    tx.remove(db.store(), b"nope").unwrap();
    tx.remove(db.store(), b"KEY_999").unwrap();
    db.commit(tx).unwrap();
    assert_eq!(db.into_bytes(), bytes);
}

#[test]
fn long_key_and_value_take_overflow_pages() {
    let mut db = Database::open(None, options()).unwrap();
    let k = vec![b'a'; 1000];
    let v = vec![b'b'; 5000];
    let mut tx = db.begin_write().unwrap();
    tx.put(db.store(), &k, &v).unwrap();
    db.commit(tx).unwrap();
    let bytes = db.into_bytes();
    let mut db = Database::open(Some(bytes), options()).unwrap();
    let rtx = db.begin_read();
    assert_eq!(rtx.get(db.store(), &k).unwrap(), Some(v.clone()));
    let root = rtx.root_node_id;
    let (header, _) = db.store().read_node(root.node_address()).unwrap();
    // 18 + 6 + 1000 + 5000 bytes on pages of 128 bytes.
    assert_eq!(header.overflow_len, 47);
    db.end_read(rtx).unwrap();
    let mut tx = db.begin_write().unwrap();
    tx.remove(db.store(), &k).unwrap();
    db.commit(tx).unwrap();
    // The pages of the node are retired under the transaction that took it
    // out; the next writer, with no reader open, gets them back.
    let tx = db.begin_write().unwrap();
    let free: Vec<u64> = tx.writer.free_list.free.iter().copied().collect();
    let start = root.node_address();
    for i in 0..48u64 {
        assert!(free.contains(&(start + i * 128)));
    }
    db.rollback(tx);
}

#[test]
fn key_too_long_is_refused() {
    let mut db = Database::open(None, options()).unwrap();
    let mut tx = db.begin_write().unwrap();
    let k = vec![0u8; 70000];
    assert_eq!(tx.put(db.store(), &k, b"v"), Err(Error::InvalidArgument));
}

#[test]
fn small_page_size_is_refused() {
    let r = Database::open(None, Options { max_files: 1, page_size: 64, cache_size: 0 });
    assert!(matches!(r, Err(Error::InvalidArgument)));
    let r = Database::open(None, Options { max_files: 1, page_size: 200, cache_size: 0 });
    assert!(matches!(r, Err(Error::InvalidArgument)));
}

#[test]
fn other_page_size_is_refused_on_reopen() {
    let bytes = filled();
    let r = Database::open(Some(bytes), Options { max_files: 10, page_size: 256, cache_size: 0 });
    assert!(matches!(r, Err(Error::InvalidArgument)));
}

#[test]
fn garbage_is_no_database() {
    let r = Database::open(Some(vec![7u8; 4096]), options());
    assert!(matches!(r, Err(Error::Corruption)));
}

fn free_pages(db: &Database) -> usize {
    db.internal.write_state.as_ref().unwrap().free_list.free.len()
}

#[test]
fn reader_keeps_its_snapshot_through_churn() {
    let bytes = filled();
    let mut db = Database::open(Some(bytes), options()).unwrap();
    let reader = db.begin_read();
    let mut done = 0;
    let mut released = 0;
    for round in 0..20u8 {
        let before = free_pages(&db);
        let mut tx = db.begin_write().unwrap();
        released += tx.writer.free_list.free.len() - before;
        for i in 0..50 {
            let v = vec![b'a' + round; 100];
            tx.put(db.store(), &key(i * 6), &v).unwrap();
            done += 1;
        }
        db.commit(tx).unwrap();
    }
    assert_eq!(done, 1000);
    let mut cursor = reader.cursor(db.store()).unwrap();
    let entries = collect(&mut cursor);
    assert_eq!(entries.len(), 300);
    for (i, (k, v)) in entries.iter().enumerate() {
        assert_eq!(k, &key(i));
        assert_eq!(v, &value());
    }
    // The pages of the reader's snapshot that the writers replaced are
    // still retired; they are handed back once the reader is gone.
    let pending: usize = db
        .internal
        .write_state
        .as_ref()
        .unwrap()
        .free_list
        .pending_free
        .values()
        .map(|pages| pages.len())
        .sum();
    assert!(pending >= 100);
    db.end_read(reader).unwrap();
    let before = free_pages(&db);
    let tx = db.begin_write().unwrap();
    released += tx.writer.free_list.free.len() - before;
    assert!(tx.writer.free_list.pending_free.is_empty());
    assert_eq!(tx.writer.free_list.free.len() - before, pending);
    assert!(released >= 1000);
    db.rollback(tx);
    let latest = db.begin_read();
    let mut cursor = latest.cursor(db.store()).unwrap();
    let entries = collect(&mut cursor);
    assert_eq!(entries.len(), 300);
    assert_eq!(entries[6].1, vec![b'a' + 19; 100]);
    assert_eq!(entries[7].1, value());
}

#[test]
fn one_writer_at_a_time() {
    let mut db = Database::open(None, options()).unwrap();
    let mut first = db.begin_write().unwrap();
    assert!(db.begin_write().is_none());
    first.put(db.store(), b"k", b"first").unwrap();
    db.commit(first).unwrap();
    let mut second = db.begin_write().unwrap();
    assert!(db.begin_write().is_none());
    second.put(db.store(), b"k", b"second").unwrap();
    db.commit(second).unwrap();
    let reader = db.begin_read();
    assert_eq!(reader.get(db.store(), b"k").unwrap(), Some(b"second".to_vec()));
}

#[test]
fn abort_before_the_meta_record_keeps_the_snapshot() {
    let bytes = filled();
    let mut db = Database::open(Some(bytes), options()).unwrap();
    let mut tx = db.begin_write().unwrap();
    for i in 0..100 {
        tx.remove(db.store(), &key(i)).unwrap();
    }
    tx.put(db.store(), b"EXTRA", b"x").unwrap();
    // The pages are written, the meta record is not.
    tx.merge(db.store()).unwrap();
    tx.split(db.store()).unwrap();
    let root = tx.root_node_id.id();
    tx.traverse_write(&mut db.internal.node_manager, root, 64).unwrap();
    drop(tx);
    let bytes = db.into_bytes();
    let mut db = Database::open(Some(bytes), options()).unwrap();
    let reader = db.begin_read();
    assert_eq!(reader.transaction_id, 2);
    let mut cursor = reader.cursor(db.store()).unwrap();
    let entries = collect(&mut cursor);
    assert_eq!(entries.len(), 300);
    for (i, (k, _)) in entries.iter().enumerate() {
        assert_eq!(k, &key(i));
    }
}

#[test]
fn torn_meta_record_falls_back_to_the_other_slot() {
    let mut bytes = filled();
    // The commit of transaction 2 wrote slot 0; slot 1 holds transaction 1.
    for b in bytes[0..40].iter_mut() {
        *b ^= 0xff;
    }
    let mut db = Database::open(Some(bytes), options()).unwrap();
    let reader = db.begin_read();
    assert_eq!(reader.transaction_id, 1);
    let mut cursor = reader.cursor(db.store()).unwrap();
    assert!(collect(&mut cursor).is_empty());
}

#[test]
fn cursor_walks_both_ways_and_seeks() {
    let bytes = filled();
    let mut db = Database::open(Some(bytes), options()).unwrap();
    let reader = db.begin_read();
    let mut cursor = reader.cursor(db.store()).unwrap();
    cursor.last().unwrap();
    assert!(cursor.is_valid());
    assert_eq!(cursor.key(), &key(299)[..]);
    let mut seen = 1;
    while cursor.prev().unwrap() {
        seen += 1;
        assert_eq!(cursor.key(), &key(300 - seen)[..]);
    }
    assert_eq!(seen, 300);
    assert_eq!(cursor.key(), &key(0)[..]);
    cursor.seek(b"KEY_1500").unwrap();
    assert!(cursor.is_valid());
    assert_eq!(cursor.key(), &key(151)[..]);
    cursor.seek(b"KEY_150").unwrap();
    assert_eq!(cursor.key(), &key(150)[..]);
    cursor.seek(b"A").unwrap();
    assert_eq!(cursor.key(), &key(0)[..]);
    cursor.seek(b"Z").unwrap();
    assert!(!cursor.is_valid());
    cursor.first().unwrap();
    assert_eq!(cursor.key(), &key(0)[..]);
}

#[test]
fn new_database_layout() {
    let db = Database::open(None, options()).unwrap();
    let bytes = db.into_bytes();
    // Two slots of 1 KiB, the free list on the first page, the root on the
    // second.
    assert_eq!(bytes.len(), 2048 + 2 * 128);
    let db = Database::open(None, Options { max_files: 1, page_size: 384, cache_size: 0 }).unwrap();
    assert_eq!(db.store().size(), 2304 + 2 * 384);
    let meta = db.internal.read_state.meta_node;
    assert_eq!(meta.transaction_id, 1);
    assert_eq!(meta.free_list_node, 2304);
    assert_eq!(meta.root_node, 2304 + 384);
    assert_eq!(meta.end_address, 2304 + 2 * 384);
    assert_eq!(Options::default(), Options { max_files: 16, page_size: 4096, cache_size: 100 << 20 });
}

#[test]
fn readers_are_counted() {
    let mut db = Database::open(None, options()).unwrap();
    let a = db.begin_read();
    let b = db.begin_read();
    assert_eq!(db.internal.read_state.transactions.get(&1), Some(&2));
    db.end_read(a).unwrap();
    assert_eq!(db.internal.read_state.transactions.get(&1), Some(&1));
    db.end_read(b).unwrap();
    assert!(db.internal.read_state.transactions.is_empty());
    assert_eq!(db.internal.release_reader(1), Err(Error::NotFound));
}

#[test]
fn file_grows_by_doubling() {
    let mut db = Database::open(None, options()).unwrap();
    let before = db.store().size();
    let mut tx = db.begin_write().unwrap();
    tx.put(db.store(), b"k", b"v").unwrap();
    db.commit(tx).unwrap();
    // The new root and the new free list go past the end: the file
    // doubles once.
    assert_eq!(db.store().size(), 2 * before);
    assert_eq!(db.internal.read_state.meta_node.end_address, before + 2 * 128);
    assert_eq!(db.internal.read_state.meta_node.transaction_id, 2);
}

#[test]
fn rollback_leaves_no_trace() {
    let bytes = filled();
    let mut db = Database::open(Some(bytes.clone()), options()).unwrap();
    let mut tx = db.begin_write().unwrap();
    tx.put(db.store(), b"EXTRA", b"x").unwrap();
    assert_eq!(tx.get(db.store(), b"EXTRA").unwrap(), Some(b"x".to_vec()));
    db.rollback(tx);
    let reader = db.begin_read();
    assert_eq!(reader.get(db.store(), b"EXTRA").unwrap(), None);
    assert_eq!(db.into_bytes(), bytes);
}

#[test]
fn keys_between_two_leaves_are_kept_in_order() {
    let bytes = filled();
    let mut db = Database::open(Some(bytes), options()).unwrap();
    let mut tx = db.begin_write().unwrap();
    // Every new key falls between two keys that are there; many fall
    // after the last key of one leaf and before the first of the next.
    for i in 0..300 {
        for tail in ["5", "6", "4"] {
            let k = format!("KEY_{:03}{}", i, tail).into_bytes();
            tx.put(db.store(), &k, b"new").unwrap();
        }
    }
    for i in 0..300 {
        assert_eq!(tx.get(db.store(), &key(i)).unwrap(), Some(value()));
        for tail in ["4", "5", "6"] {
            let k = format!("KEY_{:03}{}", i, tail).into_bytes();
            assert_eq!(tx.get(db.store(), &k).unwrap(), Some(b"new".to_vec()));
        }
    }
    {
        let reader = Staged { staging: &tx.staging, store: db.store() };
        let mut cursor = tx.cursor(&reader).unwrap();
        let entries = collect(&mut cursor);
        assert_eq!(entries.len(), 1200);
        for pair in entries.windows(2) {
            assert!(pair[0].0 < pair[1].0);
        }
        let mut cursor = tx.cursor(&reader).unwrap();
        cursor.seek(b"KEY_0015").unwrap();
        assert_eq!(cursor.key(), b"KEY_0015");
        cursor.seek(b"KEY_00155").unwrap();
        assert_eq!(cursor.key(), b"KEY_0016");
        cursor.seek(b"KEY_0017").unwrap();
        assert_eq!(cursor.key(), b"KEY_002");
    }
    db.commit(tx).unwrap();
    let bytes = db.into_bytes();
    let mut db = Database::open(Some(bytes), options()).unwrap();
    let reader = db.begin_read();
    let mut cursor = reader.cursor(db.store()).unwrap();
    let entries = collect(&mut cursor);
    assert_eq!(entries.len(), 1200);
    for pair in entries.windows(2) {
        assert!(pair[0].0 < pair[1].0);
    }
    assert_eq!(reader.get(db.store(), b"KEY_1505").unwrap(), Some(b"new".to_vec()));
}

#[test]
fn begin_write_hands_back_the_retired_pages() {
    let mut db = Database::open(Some(filled()), options()).unwrap();
    let mut tx = db.begin_write().unwrap();
    for i in 0..40 {
        tx.put(db.store(), &key(i * 7), b"changed").unwrap();
    }
    db.commit(tx).unwrap();
    let state = db.internal.write_state.as_ref().unwrap();
    let free_before = state.free_list.free.clone();
    let mut retired = std::collections::BTreeSet::new();
    for bucket in state.free_list.pending_free.values() {
        retired.extend(bucket.iter().copied());
    }
    assert!(!retired.is_empty());
    let header = state.free_list_header;
    let address = state.free_list_node_address;
    // No reader is open: every retired page is free for the writer that
    // begins now.
    let tx = db.begin_write().unwrap();
    assert!(tx.writer.free_list.pending_free.is_empty());
    let mut expected = free_before.clone();
    expected.extend(retired.iter().copied());
    assert_eq!(tx.writer.free_list.free, expected);
    assert_eq!(tx.writer.free_list_header, header);
    assert_eq!(tx.writer.free_list_node_address, address);
    db.rollback(tx);
    let state = db.internal.write_state.as_ref().unwrap();
    assert_eq!(state.free_list.free, expected);
    assert!(state.free_list.pending_allocated.is_empty());
}

#[test]
fn a_reader_holds_the_retired_pages_back() {
    let mut db = Database::open(Some(filled()), options()).unwrap();
    let reader = db.begin_read();
    let mut tx = db.begin_write().unwrap();
    for i in 0..40 {
        tx.put(db.store(), &key(i * 7), b"changed").unwrap();
    }
    db.commit(tx).unwrap();
    let state = db.internal.write_state.as_ref().unwrap();
    let free_before = state.free_list.free.clone();
    let pending_before = state.free_list.pending_free.clone();
    assert!(!pending_before.is_empty());
    // The reader is on the snapshot before the commit: what the commit
    // retired stays retired.
    let tx = db.begin_write().unwrap();
    assert_eq!(tx.writer.free_list.free, free_before);
    assert_eq!(tx.writer.free_list.pending_free, pending_before);
    db.rollback(tx);
    db.end_read(reader).unwrap();
    let tx = db.begin_write().unwrap();
    assert!(tx.writer.free_list.pending_free.is_empty());
    db.rollback(tx);
}

#[test]
fn ending_a_read_twice_is_refused() {
    let mut db = Database::open(None, options()).unwrap();
    let a = db.begin_read();
    let id = a.transaction_id;
    let root = db.internal.read_state.meta_node.root_node;
    assert_eq!(db.end_read(a), Ok(()));
    assert!(db.internal.read_state.transactions.is_empty());
    let again = bonsai_db::tx::ReadTransaction::new(root, id);
    assert_eq!(db.end_read(again), Err(Error::NotFound));
    assert!(db.internal.read_state.transactions.is_empty());
}
