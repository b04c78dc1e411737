use board::codec::{Reply, Thread};
use board::keys::{reply_counter_key_bytes, reply_key_bytes, reply_prefix_bytes, thread_counter_key_bytes, thread_key_bytes, thread_scan_prefix};
use board::paging::{paginate, recent_page};
use board::repo::{id_from_counter, touch, BoardError, Repository};
use board::store::next_counter;

fn thread(id: u64, last_updated: i64) -> Thread {
    Thread { id, title: format!("title {}", id), message: format!("message {}", id), last_updated }
}

fn threads(n: u64) -> Vec<Thread> {
    (1..=n).map(|i| thread(i, i as i64)).collect()
}

fn temp_db() -> sled::Db {
    sled::Config::new().temporary(true).open().unwrap()
}

fn now() -> i64 {
    chrono::Utc::now().timestamp()
}

#[test]
fn thread_round_trip() {
    let t = Thread { id: 42, title: "Héllo, wörld ✓".to_string(), message: "".to_string(), last_updated: -17 };
    let bytes = t.encode();
    let back = Thread::decode(&bytes).unwrap();
    assert_eq!(back.id, 42);
    assert_eq!(back.title, "Héllo, wörld ✓");
    assert_eq!(back.message, "");
    assert_eq!(back.last_updated, -17);
}

#[test]
fn thread_round_trip_extreme_values() {
    for (id, stamp) in [(u64::MAX, i64::MIN), (1, i64::MAX), (7, 0)] {
        let t = Thread { id, title: "a".to_string(), message: "b\nc".to_string(), last_updated: stamp };
        let back = Thread::decode(&t.encode()).unwrap();
        assert_eq!((back.id, back.last_updated), (id, stamp));
        assert_eq!((back.title.as_str(), back.message.as_str()), ("a", "b\nc"));
    }
}

#[test]
fn reply_round_trip() {
    let r = Reply { id: 9, message: "ответ".to_string() };
    let back = Reply::decode(&r.encode()).unwrap();
    assert_eq!(back.id, 9);
    assert_eq!(back.message, "ответ");
}

#[test]
fn encoding_layout() {
    let r = Reply { id: 258, message: "hi".to_string() };
    assert_eq!(r.encode(), vec![0, 0, 0, 0, 0, 0, 1, 2, 0, 0, 0, 0, 0, 0, 0, 2, b'h', b'i']);
    let t = Thread { id: 1, title: String::new(), message: String::new(), last_updated: 0 };
    let mut expected = vec![0, 0, 0, 0, 0, 0, 0, 1, 0x80, 0, 0, 0, 0, 0, 0, 0];
    expected.extend_from_slice(&[0; 16]);
    assert_eq!(t.encode(), expected);
}

#[test]
fn decode_rejects_corrupt_records() {
    assert!(Thread::decode(&[]).is_none());
    assert!(Reply::decode(&[1, 2, 3]).is_none());
    let mut bytes = Reply { id: 1, message: "ok".to_string() }.encode();
    bytes.push(0);
    assert!(Reply::decode(&bytes).is_none());
    let mut bad = Reply { id: 1, message: "ab".to_string() }.encode();
    let n = bad.len();
    bad[n - 1] = 0xff;
    assert!(Reply::decode(&bad).is_none());
    let t = thread(3, 3).encode();
    assert!(Thread::decode(&t[..t.len() - 1]).is_none());
    assert!(Reply::decode(&t).is_none());
}

#[test]
fn key_scheme() {
    assert_eq!(thread_key_bytes(12), b"thread_12".to_vec());
    assert_eq!(thread_key_bytes(0), b"thread_0".to_vec());
    assert_eq!(thread_scan_prefix(), b"thread_".to_vec());
    assert_eq!(reply_prefix_bytes(1), b"reply_1_".to_vec());
    assert_eq!(reply_key_bytes(12, 3), b"reply_12_3".to_vec());
    assert_eq!(reply_key_bytes(u64::MAX, 10), b"reply_18446744073709551615_10".to_vec());
    assert_eq!(thread_counter_key_bytes(), b"next_thread_".to_vec());
    assert_eq!(reply_counter_key_bytes(7), b"next_reply_7_".to_vec());
    assert!(!reply_key_bytes(12, 1).starts_with(&reply_prefix_bytes(1)));
}

#[test]
fn counter_update() {
    assert_eq!(next_counter(None), Some(1u64.to_be_bytes().to_vec()));
    assert_eq!(next_counter(Some(&41u64.to_be_bytes())), Some(42u64.to_be_bytes().to_vec()));
    assert_eq!(next_counter(Some(&[1, 2, 3])), Some(1u64.to_be_bytes().to_vec()));
    assert_eq!(next_counter(Some(&u64::MAX.to_be_bytes())), Some(u64::MAX.to_be_bytes().to_vec()));
    assert_eq!(id_from_counter(&5u64.to_be_bytes().to_vec()), Some(5));
    assert_eq!(id_from_counter(&u64::MAX.to_be_bytes().to_vec()), None);
    assert_eq!(id_from_counter(&vec![1]), None);
}

#[test]
fn touch_never_moves_back() {
    assert_eq!(touch(thread(1, 100), 50).last_updated, 100);
    assert_eq!(touch(thread(1, 100), 150).last_updated, 150);
    assert_eq!(touch(thread(1, 100), 150).title, "title 1");
}

#[test]
fn paginate_empty() {
    for page in [None, Some(-3), Some(0), Some(1), Some(5), Some(i64::MAX)] {
        let p = paginate(Vec::new(), 10, page);
        assert!(p.items.is_empty());
        assert_eq!(p.current_page, 1);
        assert_eq!(p.total_pages, 0);
    }
}

#[test]
fn paginate_last_partial_page() {
    let p = paginate(threads(25), 10, Some(3));
    assert_eq!(p.items.len(), 5);
    assert_eq!(p.total_pages, 3);
    assert_eq!(p.current_page, 3);
    assert_eq!(p.items.iter().map(|t| t.id).collect::<Vec<_>>(), vec![21, 22, 23, 24, 25]);
}

#[test]
fn paginate_clamps_requests() {
    let low = paginate(threads(25), 10, Some(-5));
    assert_eq!(low.current_page, 1);
    assert_eq!(low.items.iter().map(|t| t.id).collect::<Vec<_>>(), (1..=10).collect::<Vec<_>>());
    let high = paginate(threads(25), 10, Some(99));
    assert_eq!(high.current_page, 3);
    assert_eq!(high.items.len(), 5);
    let huge = paginate(threads(25), 10, Some(i64::MAX));
    assert_eq!(huge.current_page, 3);
    let absent = paginate(threads(25), 10, None);
    assert_eq!(absent.current_page, 1);
    assert_eq!(absent.items.len(), 10);
}

#[test]
fn paginate_exact_pages() {
    let p = paginate(threads(20), 10, Some(2));
    assert_eq!(p.total_pages, 2);
    assert_eq!(p.items.first().map(|t| t.id), Some(11));
    let one = paginate(threads(1), 10, Some(1));
    assert_eq!((one.total_pages, one.items.len()), (1, 1));
}

#[test]
fn recent_page_orders_by_activity() {
    let list = vec![thread(1, 5), thread(2, 30), thread(3, 10), thread(4, 20)];
    let p = recent_page(list, 3, Some(1));
    assert_eq!(p.items.iter().map(|t| t.id).collect::<Vec<_>>(), vec![2, 4, 3]);
    assert_eq!(p.total_pages, 2);
    let list = vec![thread(1, 5), thread(2, 30), thread(3, 10), thread(4, 20)];
    let second = recent_page(list, 3, Some(2));
    assert_eq!(second.items.iter().map(|t| t.id).collect::<Vec<_>>(), vec![1]);
}

#[test]
fn create_then_get_thread() {
    let repo = Repository::new(temp_db());
    let start = now();
    let t = repo.create_thread("Hello".to_string(), "First post".to_string()).unwrap();
    assert_eq!(t.id, 1);
    let got = repo.get_thread(t.id).unwrap();
    assert_eq!(got.title, "Hello");
    assert_eq!(got.message, "First post");
    assert!(got.last_updated >= start);
    assert_eq!(got.last_updated, t.last_updated);
}

#[test]
fn get_missing_thread() {
    let repo = Repository::new(temp_db());
    assert_eq!(repo.get_thread(1).err(), Some(BoardError::NotFound));
}

#[test]
fn corrupt_thread_record_is_not_found_and_skipped() {
    let db = temp_db();
    let repo = Repository::new(db.clone());
    repo.create_thread("a".to_string(), "b".to_string()).unwrap();
    db.insert(b"thread_2", vec![1, 2, 3]).unwrap();
    assert_eq!(repo.get_thread(2).err(), Some(BoardError::NotFound));
    let listed = repo.list_threads().unwrap();
    assert_eq!(listed.len(), 1);
    assert_eq!(listed[0].id, 1);
}

#[test]
fn ids_are_not_reused() {
    let repo = Repository::new(temp_db());
    let a = repo.create_thread("a".to_string(), "x".to_string()).unwrap();
    let b = repo.create_thread("b".to_string(), "y".to_string()).unwrap();
    assert_eq!(a.id, 1);
    assert_eq!(b.id, 2);
    assert_eq!(repo.get_thread(1).unwrap().title, "a");
    assert_eq!(repo.get_thread(2).unwrap().title, "b");
}

#[test]
fn list_threads_exactly_created() {
    let repo = Repository::new(temp_db());
    assert!(repo.list_threads().unwrap().is_empty());
    for i in 0..12 {
        repo.create_thread(format!("t{}", i), "m".to_string()).unwrap();
    }
    repo.create_reply(1, "r".to_string()).unwrap();
    let mut ids: Vec<u64> = repo.list_threads().unwrap().iter().map(|t| t.id).collect();
    ids.sort();
    assert_eq!(ids, (1..=12).collect::<Vec<u64>>());
}

#[test]
fn reply_is_listed_and_touches_thread() {
    let repo = Repository::new(temp_db());
    let t = repo.create_thread("t".to_string(), "m".to_string()).unwrap();
    let before = repo.get_thread(t.id).unwrap().last_updated;
    let r = repo.create_reply(t.id, "a reply".to_string()).unwrap();
    assert_eq!(r.id, 1);
    let replies = repo.list_replies(t.id).unwrap();
    assert_eq!(replies.len(), 1);
    assert_eq!(replies[0].id, 1);
    assert_eq!(replies[0].message, "a reply");
    let after = repo.get_thread(t.id).unwrap();
    assert!(after.last_updated >= before);
    assert_eq!(after.title, "t");
    let r2 = repo.create_reply(t.id, "again".to_string()).unwrap();
    assert_eq!(r2.id, 2);
}

#[test]
fn replies_do_not_cross_threads_with_shared_digits() {
    let repo = Repository::new(temp_db());
    for i in 0..12 {
        repo.create_thread(format!("t{}", i), "m".to_string()).unwrap();
    }
    repo.create_reply(1, "to one".to_string()).unwrap();
    repo.create_reply(12, "to twelve".to_string()).unwrap();
    repo.create_reply(12, "to twelve again".to_string()).unwrap();
    let one = repo.list_replies(1).unwrap();
    assert_eq!(one.len(), 1);
    assert_eq!(one[0].message, "to one");
    let twelve = repo.list_replies(12).unwrap();
    assert_eq!(twelve.iter().map(|r| r.message.as_str()).collect::<Vec<_>>(), vec!["to twelve", "to twelve again"]);
    assert!(repo.list_replies(2).unwrap().is_empty());
}

#[test]
fn reply_to_missing_thread_is_refused() {
    let repo = Repository::new(temp_db());
    assert_eq!(repo.create_reply(5, "orphan".to_string()).err(), Some(BoardError::NotFound));
    assert!(repo.list_replies(5).unwrap().is_empty());
}

#[test]
fn exhausted_counter_is_reported() {
    let db = temp_db();
    let repo = Repository::new(db.clone());
    db.insert(b"next_thread_", (u64::MAX - 1).to_be_bytes().to_vec()).unwrap();
    assert_eq!(repo.create_thread("a".to_string(), "b".to_string()).err(), Some(BoardError::IdsExhausted));
    assert!(repo.list_threads().unwrap().is_empty());
}

#[test]
fn sort_by_recency_keeps_every_thread() {
    let list = vec![thread(1, 7), thread(2, 7), thread(3, -1), thread(4, 100)];
    let sorted = board::paging::sort_by_recency(list);
    let stamps: Vec<i64> = sorted.iter().map(|t| t.last_updated).collect();
    assert_eq!(stamps, vec![100, 7, 7, -1]);
    let ids: Vec<u64> = sorted.iter().map(|t| t.id).collect();
    assert_eq!(ids, vec![4, 1, 2, 3]);
    assert!(board::paging::sort_by_recency(Vec::new()).is_empty());
}

#[test]
fn equal_activity_keeps_input_order_across_pages() {
    let same = |n: u64| (1..=n).map(|i| thread(i, 50)).collect::<Vec<_>>();
    let mut seen = Vec::new();
    for page in 1..=3 {
        let p = recent_page(same(25), 10, Some(page));
        seen.extend(p.items.iter().map(|t| t.id));
    }
    assert_eq!(seen, (1..=25).collect::<Vec<u64>>());
}

#[test]
fn record_under_another_id_still_decodes() {
    let db = temp_db();
    let repo = Repository::new(db.clone());
    let stray = Thread { id: 7, title: "moved".to_string(), message: "m".to_string(), last_updated: 3 };
    db.insert(b"thread_5", stray.encode()).unwrap();
    let got = repo.get_thread(5).unwrap();
    assert_eq!((got.id, got.title.as_str()), (7, "moved"));
    let listed = repo.list_threads().unwrap();
    assert_eq!(listed.len(), 1);
    assert_eq!(listed[0].id, 7);
    let reply = Reply { id: 7, message: "stray reply".to_string() };
    db.insert(b"reply_5_5", reply.encode()).unwrap();
    let replies = repo.list_replies(5).unwrap();
    assert_eq!(replies.len(), 1);
    assert_eq!(replies[0].id, 7);
}

#[test]
fn reply_ids_are_distinct_per_thread() {
    let repo = Repository::new(temp_db());
    let t = repo.create_thread("t".to_string(), "m".to_string()).unwrap();
    for i in 0..5 {
        repo.create_reply(t.id, format!("r{}", i)).unwrap();
    }
    let mut ids: Vec<u64> = repo.list_replies(t.id).unwrap().iter().map(|r| r.id).collect();
    ids.sort();
    assert_eq!(ids, vec![1, 2, 3, 4, 5]);
}
