use snapfaas::dclabel::{Clause, Component, DCLabel};
use snapfaas::distributed_db::db_client::{
    add_request, cas_request, get_request, ping_request, put_request, replication, request_frame,
    scan_request, transaction, Backlog, Replication, SyscallChannel, Transaction,
};
use snapfaas::distributed_db::db_server::{
    collect_children, dir_prefix, init_plan, is_no_overwrite, key_is_before, key_starts_with, plan,
    plan_request, respond_invoke, respond_read, respond_scan, respond_swap, respond_write,
    scan_children, segment_after, swap_applies, ChildScan, Error as ServerError, Plan,
};
use snapfaas::distributed_db::local::LocalDb;
use snapfaas::distributed_db::{DbService, Error as DbError, Session};
use snapfaas::labeled_fs;
use snapfaas::labeled_fs::utils::{create_root_function_dir, create_root_user_dir};
use snapfaas::labeled_fs::{
    create_dir, directory_of, get_direntry, get_uid, list, map_error, read, swapped, uid_key,
    uid_of_draw, value_of, written, Error,
};
use snapfaas::record::{decode, encode_to_vec};
use snapfaas::syscalls::{
    CompareAndSwap, CompareAndSwapResponse, Invoke, ReadDir, ReadDirResponse, ReadKey,
    ReadKeyResponse, Syscall, WriteKey, WriteKeyResponse,
};
use snapfaas::workerpool::{Message, WorkerPool};

fn value(answer: Result<Vec<u8>, DbError>) -> Option<Vec<u8>> {
    decode::<ReadKeyResponse>(&answer.unwrap()).unwrap().value
}

fn success(answer: Result<Vec<u8>, DbError>) -> bool {
    decode::<WriteKeyResponse>(&answer.unwrap()).unwrap().success
}

#[test]
fn store_reads_what_was_put() {
    let mut db = LocalDb::empty();
    assert_eq!(value(db.get(b"k".to_vec())), None);
    assert!(success(db.put(b"k".to_vec(), b"v".to_vec())));
    assert_eq!(value(db.get(b"k".to_vec())), Some(b"v".to_vec()));
    assert!(success(db.put(b"k".to_vec(), b"w".to_vec())));
    assert_eq!(value(db.get(b"k".to_vec())), Some(b"w".to_vec()));
    assert!(success(db.put(b"l".to_vec(), vec![])));
    assert_eq!(value(db.get(b"l".to_vec())), Some(vec![]));
    assert_eq!(value(db.get(b"k".to_vec())), Some(b"w".to_vec()));
    assert_eq!(value(db.get(b"".to_vec())), None);
}

#[test]
fn add_creates_only_what_is_absent() {
    let mut db = LocalDb::empty();
    assert!(success(db.add(b"k".to_vec(), b"v".to_vec())));
    assert!(!success(db.add(b"k".to_vec(), b"w".to_vec())));
    assert_eq!(value(db.get(b"k".to_vec())), Some(b"v".to_vec()));
}

#[test]
fn compare_and_swap_takes_place_on_the_expected_value() {
    let mut db = LocalDb::empty();
    let cas = |db: &mut LocalDb, expected: Option<&[u8]>, new: &[u8]| {
        let answer = db.cas(b"k".to_vec(), expected.map(|e| e.to_vec()), new.to_vec()).unwrap();
        decode::<CompareAndSwapResponse>(&answer).unwrap()
    };
    // the key is absent
    assert_eq!(
        cas(&mut db, Some(b"x"), b"a"),
        CompareAndSwapResponse { success: false, old: None }
    );
    assert_eq!(cas(&mut db, None, b"a"), CompareAndSwapResponse { success: true, old: None });
    // the key is present
    assert_eq!(
        cas(&mut db, None, b"b"),
        CompareAndSwapResponse { success: false, old: Some(b"a".to_vec()) }
    );
    assert_eq!(
        cas(&mut db, Some(b"x"), b"b"),
        CompareAndSwapResponse { success: false, old: Some(b"a".to_vec()) }
    );
    assert_eq!(
        cas(&mut db, Some(b"a"), b"b"),
        CompareAndSwapResponse { success: true, old: Some(b"a".to_vec()) }
    );
    assert_eq!(value(db.get(b"k".to_vec())), Some(b"b".to_vec()));
}

#[test]
fn scan_lists_the_children_of_a_prefix() {
    let mut db = LocalDb::empty();
    for key in ["dir/a", "dir/b/c", "dir/b/d", "dir", "dir/", "dirt/x", "other/dir/y", "dir/a"] {
        db.put(key.as_bytes().to_vec(), vec![1]).unwrap();
    }
    let names = |answer: Result<Vec<u8>, DbError>| {
        decode::<ReadDirResponse>(&answer.unwrap()).unwrap().keys
    };
    assert_eq!(names(db.scan(b"dir".to_vec())), vec![b"a".to_vec(), b"b/".to_vec()]);
    assert_eq!(names(db.scan(b"dir/".to_vec())), vec![b"a".to_vec(), b"b/".to_vec()]);
    assert_eq!(names(db.scan(b"dir/b".to_vec())), vec![b"c".to_vec(), b"d".to_vec()]);
    assert_eq!(names(db.scan(b"other".to_vec())), vec![b"dir/".to_vec()]);
    assert_eq!(names(db.scan(b"none".to_vec())), Vec::<Vec<u8>>::new());
    assert_eq!(names(db.scan(b"dir/a".to_vec())), Vec::<Vec<u8>>::new());
}

#[test]
fn scan_stops_at_the_first_key_outside_the_prefix() {
    let keys: Vec<Vec<u8>> = ["p/a", "p/b/x", "p/b/y", "p/", "q/z", "p/late"]
        .iter()
        .map(|k| k.as_bytes().to_vec())
        .collect();
    assert_eq!(collect_children(b"p/", &keys), vec![b"a".to_vec(), b"b/".to_vec()]);
    assert_eq!(collect_children(b"q/", &keys), Vec::<Vec<u8>>::new());
    assert_eq!(collect_children(b"", &keys), vec![b"p/".to_vec(), b"q/".to_vec()]);
    assert_eq!(collect_children(b"p/", &vec![]), Vec::<Vec<u8>>::new());
    assert!(key_starts_with(b"p/a", b"p/"));
    assert!(key_starts_with(b"p/", b"p/"));
    assert!(!key_starts_with(b"p", b"p/"));
    assert!(!key_starts_with(b"q/a", b"p/"));
    assert_eq!(segment_after(b"p/b/x", 2), b"b/".to_vec());
    assert_eq!(segment_after(b"p/bcd", 2), b"bcd".to_vec());
    assert_eq!(segment_after(b"p/", 2), Vec::<u8>::new());
    assert_eq!(segment_after(b"p//x", 2), b"/".to_vec());
    assert_eq!(dir_prefix(b"dir".to_vec()), b"dir/".to_vec());
    assert_eq!(dir_prefix(b"dir/".to_vec()), b"dir/".to_vec());
    assert_eq!(dir_prefix(vec![]), b"/".to_vec());
}

#[test]
fn scan_takes_keys_one_by_one_and_says_when_to_stop() {
    let keys = ["a/x", "dir", "dir/", "dir/a", "dir/b/c", "dir/b/d", "dirt/x", "e/dir/y"];
    let all: Vec<Vec<u8>> = keys.iter().map(|k| k.as_bytes().to_vec()).collect();
    for prefix in ["dir/", "a/", "e/", "b/", "z/", "dir/b/", "", "dirt/"] {
        let mut scan = ChildScan::new(prefix.as_bytes().to_vec());
        let mut offered = 0;
        for key in keys.iter() {
            let (next, go_on) = scan.offer(key.as_bytes());
            scan = next;
            offered += 1;
            if !go_on {
                break;
            }
        }
        assert_eq!(scan.finish(), scan_children(prefix.as_bytes(), &all), "{}", prefix);
        if prefix == "dir/" {
            // the scan stops at `dirt/x`
            assert_eq!(offered, 7);
        }
        if prefix == "a/" {
            assert_eq!(offered, 2);
        }
    }
    let (scan, go_on) = ChildScan::new(b"p/".to_vec()).offer(b"q");
    assert!(!go_on);
    let (scan, go_on) = scan.offer(b"p/late");
    assert!(!go_on);
    assert_eq!(scan.finish(), Vec::<Vec<u8>>::new());
}

#[test]
fn starting_twice_leaves_one_root_unchanged() {
    let mut db = LocalDb::empty();
    assert!(db.init_root());
    assert_eq!(value(db.get(uid_key(0))), Some(vec![]));
    // the root directory gets an entry
    let mut session = Session::new(db);
    create_root_function_dir("f", &mut session).unwrap();
    let mut db = session.into_inner();
    let root = value(db.get(uid_key(0))).unwrap();
    assert!(!root.is_empty());
    // a second start finds it and leaves it
    assert!(!db.init_root());
    assert_eq!(value(db.get(uid_key(0))), Some(root.clone()));
    assert_eq!(init_plan(), Plan::Write { key: vec![0; 8], value: vec![], flags: 0x10 });
    let answer = db.apply(init_plan());
    assert_eq!(decode::<WriteKeyResponse>(&answer), Some(WriteKeyResponse { success: false }));
    assert_eq!(value(db.get(uid_key(0))), Some(root));
    assert_eq!(LocalDb::new().fetch(&[0; 8]), Some(vec![]));
}

#[test]
fn requests_are_planned() {
    assert_eq!(
        plan(Syscall::ReadKey(ReadKey { key: vec![1] })),
        Ok(Plan::Read { key: vec![1] })
    );
    assert_eq!(
        plan(Syscall::WriteKey(WriteKey { key: vec![1], value: vec![2], flags: None })),
        Ok(Plan::Write { key: vec![1], value: vec![2], flags: 0 })
    );
    assert_eq!(
        plan(Syscall::WriteKey(WriteKey { key: vec![1], value: vec![2], flags: Some(0x10) })),
        Ok(Plan::Write { key: vec![1], value: vec![2], flags: 0x10 })
    );
    assert_eq!(
        plan(Syscall::WriteKey(WriteKey { key: vec![1], value: vec![2], flags: Some(0x60070) })),
        Ok(Plan::Write { key: vec![1], value: vec![2], flags: 0x60070 })
    );
    for bad in [1u32, 0x11, 0x80, 0x10000, 0x80000000] {
        assert_eq!(
            plan(Syscall::WriteKey(WriteKey { key: vec![1], value: vec![2], flags: Some(bad) })),
            Err(ServerError::Rpc)
        );
    }
    assert_eq!(
        plan(Syscall::ReadDir(ReadDir { dir: b"d".to_vec() })),
        Ok(Plan::Scan { prefix: b"d/".to_vec() })
    );
    assert_eq!(
        plan(Syscall::CompareAndSwap(CompareAndSwap {
            key: vec![1],
            expected: Some(vec![]),
            value: vec![3]
        })),
        Ok(Plan::Swap { key: vec![1], expected: Some(vec![]), value: vec![3] })
    );
    assert_eq!(plan(ping_request()), Ok(Plan::Reply { success: true }));
    assert_eq!(
        plan(Syscall::Invoke(Invoke { function: "pong".to_string(), payload: "ping".to_string() })),
        Ok(Plan::Reply { success: false })
    );
    assert_eq!(
        plan_request(&encode_to_vec(&get_request(vec![9]))),
        Ok(Plan::Read { key: vec![9] })
    );
    assert_eq!(plan_request(&[]), Err(ServerError::Rpc));
    assert_eq!(plan_request(&[0xff, 0xff]), Err(ServerError::Rpc));
    assert_eq!(
        plan_request(&encode_to_vec(&Syscall::WriteKey(WriteKey {
            key: vec![],
            value: vec![],
            flags: Some(3)
        }))),
        Err(ServerError::Rpc)
    );
}

#[test]
fn engine_decisions() {
    assert!(is_no_overwrite(0x10));
    assert!(is_no_overwrite(0x30));
    assert!(!is_no_overwrite(0));
    assert!(!is_no_overwrite(0x20));
    assert!(swap_applies(&None, &None));
    assert!(swap_applies(&Some(vec![1]), &Some(vec![1])));
    assert!(swap_applies(&Some(vec![]), &Some(vec![])));
    assert!(!swap_applies(&Some(vec![]), &None));
    assert!(!swap_applies(&None, &Some(vec![])));
    assert!(!swap_applies(&Some(vec![1]), &Some(vec![2])));
}

#[test]
fn responses_are_encoded() {
    assert_eq!(respond_read(None), encode_to_vec(&ReadKeyResponse { value: None }));
    assert_eq!(respond_read(Some(vec![1])), vec![0x0a, 0x01, 1]);
    assert_eq!(respond_write(true), vec![0x08, 0x01]);
    assert_eq!(respond_write(false), Vec::<u8>::new());
    assert_eq!(respond_swap(false, Some(vec![2])), vec![0x12, 0x01, 2]);
    assert_eq!(respond_swap(true, None), vec![0x08, 0x01]);
    assert_eq!(respond_scan(vec![vec![b'a']]), vec![0x0a, 0x01, b'a']);
    assert_eq!(respond_invoke(true), vec![0x08, 0x01]);
}

#[test]
fn server_serves_requests() {
    let mut db = LocalDb::empty();
    let mut serve = |request: Syscall| db.handle_request(&encode_to_vec(&request));
    assert_eq!(serve(get_request(b"k".to_vec())), Ok(respond_read(None)));
    assert_eq!(serve(add_request(b"k".to_vec(), b"v".to_vec())), Ok(respond_write(true)));
    assert_eq!(serve(add_request(b"k".to_vec(), b"w".to_vec())), Ok(respond_write(false)));
    assert_eq!(serve(get_request(b"k".to_vec())), Ok(respond_read(Some(b"v".to_vec()))));
    assert_eq!(
        serve(cas_request(b"k".to_vec(), Some(b"v".to_vec()), b"w".to_vec())),
        Ok(respond_swap(true, Some(b"v".to_vec())))
    );
    assert_eq!(
        serve(cas_request(b"k".to_vec(), Some(b"v".to_vec()), b"x".to_vec())),
        Ok(respond_swap(false, Some(b"w".to_vec())))
    );
    assert_eq!(serve(put_request(b"d/e".to_vec(), vec![])), Ok(respond_write(true)));
    assert_eq!(serve(scan_request(b"d".to_vec())), Ok(respond_scan(vec![b"e".to_vec()])));
    assert_eq!(serve(ping_request()), Ok(respond_invoke(true)));
    assert_eq!(db.handle_request(&[1, 2, 3]), Err(ServerError::Rpc));
    assert_eq!(db.fetch(b"k"), Some(b"w".to_vec()));
}

#[test]
fn requests_of_the_client() {
    assert_eq!(get_request(vec![1]), Syscall::ReadKey(ReadKey { key: vec![1] }));
    assert_eq!(
        put_request(vec![1], vec![2]),
        Syscall::WriteKey(WriteKey { key: vec![1], value: vec![2], flags: None })
    );
    assert_eq!(
        add_request(vec![1], vec![2]),
        Syscall::WriteKey(WriteKey { key: vec![1], value: vec![2], flags: Some(16) })
    );
    assert_eq!(
        cas_request(vec![1], None, vec![2]),
        Syscall::CompareAndSwap(CompareAndSwap { key: vec![1], expected: None, value: vec![2] })
    );
    assert_eq!(scan_request(vec![1]), Syscall::ReadDir(ReadDir { dir: vec![1] }));
    assert_eq!(
        ping_request(),
        Syscall::Invoke(Invoke { function: "ping".to_string(), payload: String::new() })
    );
    assert_eq!(
        request_frame(&get_request(vec![1])),
        Some(vec![0, 0, 0, 5, 0x0a, 0x03, 0x0a, 0x01, 1])
    );
}

#[test]
fn writes_are_copied_to_the_global_store() {
    assert_eq!(replication(&get_request(vec![1])), Replication::Local);
    assert_eq!(replication(&scan_request(vec![1])), Replication::Local);
    assert_eq!(replication(&ping_request()), Replication::Local);
    assert_eq!(replication(&put_request(vec![1], vec![2])), Replication::Background);
    assert_eq!(
        replication(&put_request(b"EXTERNALIZE".to_vec(), vec![2])),
        Replication::Fence
    );
    assert_eq!(
        replication(&put_request(b"EXTERNALIZE ".to_vec(), vec![2])),
        Replication::Background
    );
    assert_eq!(replication(&add_request(vec![1], vec![2])), Replication::Fence);
    assert_eq!(replication(&cas_request(vec![1], None, vec![2])), Replication::Fence);
}

#[test]
fn dispatcher_turns_requests_into_transactions() {
    assert_eq!(
        transaction(put_request(vec![1], vec![2])),
        Some(Transaction::Put { key: vec![1], value: vec![2] })
    );
    assert_eq!(
        transaction(add_request(vec![1], vec![2])),
        Some(Transaction::PutIfAbsent { key: vec![1], value: vec![2] })
    );
    // the no-overwrite flag among others is a plain write to the global store
    assert_eq!(
        transaction(Syscall::WriteKey(WriteKey { key: vec![1], value: vec![2], flags: Some(0x30) })),
        Some(Transaction::Put { key: vec![1], value: vec![2] })
    );
    assert_eq!(
        transaction(Syscall::WriteKey(WriteKey { key: vec![1], value: vec![2], flags: Some(0x8) })),
        None
    );
    assert_eq!(
        transaction(cas_request(vec![1], Some(vec![0]), vec![2])),
        Some(Transaction::Swap { key: vec![1], expected: Some(vec![0]), value: vec![2] })
    );
    assert_eq!(transaction(get_request(vec![1])), Some(Transaction::Unexpected));
    assert_eq!(transaction(scan_request(vec![1])), Some(Transaction::Unexpected));
    assert_eq!(transaction(ping_request()), Some(Transaction::Unexpected));
}

#[test]
fn backlog_is_first_in_first_out() {
    let item = |n: u8, synchronous: bool| SyscallChannel {
        syscall: put_request(vec![n], vec![]),
        synchronous,
    };
    let mut backlog = Backlog::new(3);
    assert_eq!(backlog.len(), 0);
    assert_eq!(backlog.next(), None);
    assert_eq!(backlog.submit(item(1, false)), Ok(()));
    assert_eq!(backlog.submit(item(2, true)), Ok(()));
    assert_eq!(backlog.next(), Some(item(1, false)));
    assert_eq!(backlog.submit(item(3, false)), Ok(()));
    assert_eq!(backlog.submit(item(4, false)), Ok(()));
    assert_eq!(backlog.len(), 3);
    assert_eq!(backlog.submit(item(5, true)), Err(item(5, true)));
    assert_eq!(backlog.next(), Some(item(2, true)));
    assert_eq!(backlog.next(), Some(item(3, false)));
    assert_eq!(backlog.next(), Some(item(4, false)));
    assert_eq!(backlog.next(), None);
    assert_eq!(Backlog::new(0).submit(item(1, false)), Err(item(1, false)));
}

#[test]
fn answers_are_read() {
    assert_eq!(map_error(DbError::TcpConnectionError), Error::ConnectionError);
    assert_eq!(map_error(DbError::TcpIOError), Error::IOError);
    assert_eq!(value_of(Ok(respond_read(Some(vec![1, 2])))), Ok(vec![1, 2]));
    assert_eq!(value_of(Ok(respond_read(Some(vec![])))), Ok(vec![]));
    assert_eq!(value_of(Ok(respond_read(None))), Err(Error::EngineError));
    assert_eq!(value_of(Ok(vec![0xff])), Err(Error::EngineError));
    assert_eq!(value_of(Err(DbError::TcpConnectionError)), Err(Error::ConnectionError));
    assert_eq!(value_of(Err(DbError::TcpIOError)), Err(Error::IOError));
    assert_eq!(written(Ok(respond_write(true))), Ok(true));
    assert_eq!(written(Ok(respond_write(false))), Ok(false));
    assert_eq!(written(Ok(respond_swap(true, Some(vec![])))), Err(Error::EngineError));
    assert_eq!(written(Err(DbError::TcpIOError)), Err(Error::IOError));
    assert_eq!(swapped(Ok(respond_swap(true, Some(vec![])))), Ok(true));
    assert_eq!(swapped(Ok(respond_swap(false, None))), Ok(false));
    assert_eq!(swapped(Ok(respond_write(true))), Ok(true));
    assert_eq!(swapped(Ok(vec![1])), Err(Error::EngineError));
    assert_eq!(swapped(Err(DbError::TcpConnectionError)), Err(Error::ConnectionError));
    assert!(directory_of(Ok(respond_read(Some(vec![])))).unwrap().list().is_empty());
    assert_eq!(directory_of(Ok(respond_read(Some(vec![1])))), Err(Error::EngineError));
    assert_eq!(directory_of(Ok(respond_read(None))), Err(Error::EngineError));
    assert_eq!(directory_of(Err(DbError::TcpIOError)), Err(Error::IOError));
    assert_eq!(uid_key(0), vec![0; 8]);
    assert_eq!(uid_key(0x0102), vec![0, 0, 0, 0, 0, 0, 1, 2]);
}

/// A service that fails every call, or answers every call with the same
/// bytes.
struct Fixed(Result<Vec<u8>, DbError>);

impl DbService for Fixed {
    fn get(&mut self, _key: Vec<u8>) -> Result<Vec<u8>, DbError> {
        self.0.clone()
    }

    fn put(&mut self, _key: Vec<u8>, _value: Vec<u8>) -> Result<Vec<u8>, DbError> {
        self.0.clone()
    }

    fn add(&mut self, _key: Vec<u8>, _value: Vec<u8>) -> Result<Vec<u8>, DbError> {
        self.0.clone()
    }

    fn cas(
        &mut self,
        _key: Vec<u8>,
        _expected: Option<Vec<u8>>,
        _value: Vec<u8>,
    ) -> Result<Vec<u8>, DbError> {
        self.0.clone()
    }

    fn scan(&mut self, _dir: Vec<u8>) -> Result<Vec<u8>, DbError> {
        self.0.clone()
    }
}

#[test]
fn failures_of_the_service_are_passed_on() {
    for (answer, error) in [
        (Err(DbError::TcpConnectionError), Error::ConnectionError),
        (Err(DbError::TcpIOError), Error::IOError),
        (Ok(vec![0xff]), Error::EngineError),
        (Ok(respond_read(None)), Error::EngineError),
    ] {
        let mut db = Session::new(Fixed(answer));
        let mut cur = DCLabel::bottom();
        assert_eq!(read("/a", &mut cur, &mut db), Err(error));
        assert_eq!(list("/", &mut cur, &mut db), Err(error));
        assert_eq!(labeled_fs::write("/a", vec![], &mut cur, &mut db), Err(error));
        assert_eq!(create_dir("/", "a", DCLabel::public(), &mut cur, &mut db), Err(error));
        assert_eq!(get_direntry("/a/b", &mut cur, &mut db).unwrap_err(), error);
        // the root path asks nothing of the service
        assert_eq!(get_direntry("/", &mut cur, &mut db).unwrap().uid(), 0);
        assert_eq!(read("/", &mut cur, &mut db), Err(Error::BadPath));
    }
}

#[test]
fn a_service_that_refuses_every_write_is_given_up_on() {
    // every read finds an empty directory, every write is refused
    let mut db = Session::new(Fixed(Ok(respond_read(Some(vec![])))));
    let mut cur = DCLabel::bottom();
    assert_eq!(list("/", &mut cur, &mut db), Ok(vec![]));
    // the answer is no write response
    assert_eq!(
        create_dir("/", "a", DCLabel::public(), &mut cur, &mut db),
        Err(Error::EngineError)
    );
    let mut db = Session::new(Fixed(Ok(respond_write(false))));
    assert_eq!(list("/", &mut cur, &mut db), Err(Error::EngineError));
}

#[test]
fn the_id_of_the_root_is_not_given_to_a_new_object() {
    assert_eq!(uid_of_draw(0), None);
    assert_eq!(uid_of_draw(1), Some(1));
    assert_eq!(uid_of_draw(u64::MAX), Some(u64::MAX));
}

#[test]
fn object_ids_are_drawn() {
    let a = get_uid();
    let b = get_uid();
    let c = get_uid();
    assert!(a != b || b != c);
    for _ in 0..1000 {
        assert_ne!(get_uid(), 0);
    }
}

#[test]
fn keys_are_ordered_byte_by_byte() {
    assert!(key_is_before(b"", b"a"));
    assert!(key_is_before(b"a", b"b"));
    assert!(key_is_before(b"a", b"ab"));
    assert!(key_is_before(b"ab", b"b"));
    assert!(key_is_before(&[0, 255], &[1]));
    assert!(!key_is_before(b"", b""));
    assert!(!key_is_before(b"a", b"a"));
    assert!(!key_is_before(b"b", b"a"));
    assert!(!key_is_before(b"ab", b"a"));
    assert!(!key_is_before(b"b", b"ab"));
}

#[test]
fn scan_of_all_keys_starts_at_the_prefix() {
    let keys: Vec<Vec<u8>> = ["a/x", "dir", "dir/", "dir/a", "dir/b/c", "dir/b/d", "dirt/x", "e/dir/y"]
        .iter()
        .map(|k| k.as_bytes().to_vec())
        .collect();
    assert_eq!(scan_children(b"dir/", &keys), vec![b"a".to_vec(), b"b/".to_vec()]);
    assert_eq!(scan_children(b"a/", &keys), vec![b"x".to_vec()]);
    assert_eq!(scan_children(b"e/", &keys), vec![b"dir/".to_vec()]);
    assert_eq!(scan_children(b"b/", &keys), Vec::<Vec<u8>>::new());
    assert_eq!(scan_children(b"z/", &keys), Vec::<Vec<u8>>::new());
    assert_eq!(scan_children(b"dir/b/", &keys), vec![b"c".to_vec(), b"d".to_vec()]);
    assert_eq!(scan_children(b"dir/", &vec![]), Vec::<Vec<u8>>::new());
}

#[test]
fn directories_under_the_root() {
    let mut db = Session::new(LocalDb::new());
    assert_eq!(create_root_function_dir("func4", &mut db), Ok(()));
    assert_eq!(create_root_user_dir("yue", &mut db), Ok(()));
    assert_eq!(create_root_user_dir("yue", &mut db), Err(Error::BadPath));
    let mut cur = DCLabel::public();
    assert_eq!(list("/", &mut cur, &mut db), Ok(vec!["func4".to_string(), "yue".to_string()]));
    let mut cur = DCLabel::public();
    let func = get_direntry("/func4", &mut cur, &mut db).unwrap();
    let one = |p: &str| Component::formula(vec![Clause::new(vec![p.to_string()])]);
    assert_eq!(func.label, DCLabel::new(Component::dc_true(), one("func4")));
    let user = get_direntry("/yue", &mut cur, &mut db).unwrap();
    assert_eq!(user.label, DCLabel::new(one("yue"), one("yue")));
    // the function may write under its directory, the public may not
    let mut cur = DCLabel::new(Component::dc_true(), one("func4"));
    assert_eq!(
        create_dir("/func4", "out", DCLabel::new(Component::dc_true(), one("func4")), &mut cur, &mut db),
        Ok(())
    );
    let mut cur = DCLabel::public();
    assert_eq!(
        create_dir("/func4", "in", DCLabel::public(), &mut cur, &mut db),
        Err(Error::Unauthorized)
    );
}

#[test]
fn reading_taints_the_reader() {
    let mut db = Session::new(LocalDb::new());
    create_root_user_dir("yue", &mut db).unwrap();
    let one = |p: &str| Component::formula(vec![Clause::new(vec![p.to_string()])]);
    let mut cur = DCLabel::public();
    assert_eq!(list("/yue", &mut cur, &mut db), Ok(vec![]));
    assert!(DCLabel::public().can_flow_to(&cur));
    assert!(DCLabel::new(one("yue"), Component::dc_true()).can_flow_to(&cur));
    assert!(!cur.can_flow_to(&DCLabel::public()));
    // a file in place of a directory, a directory in place of a file
    assert_eq!(read("/yue", &mut cur, &mut db), Err(Error::BadPath));
    let mut cur = DCLabel::new(one("yue"), one("yue"));
    let target = DCLabel::new(one("yue"), one("yue"));
    assert_eq!(labeled_fs::create_file("/yue", "f", target, &mut cur, &mut db), Ok(()));
    assert_eq!(list("/yue/f", &mut cur, &mut db), Err(Error::BadPath));
    assert_eq!(read("/yue/f/g", &mut cur, &mut db), Err(Error::BadPath));
    assert_eq!(read("/yue/none", &mut cur, &mut db), Err(Error::BadPath));
    assert_eq!(
        create_dir("/yue/f", "g", DCLabel::top(), &mut cur, &mut db),
        Err(Error::BadPath)
    );
    assert_eq!(labeled_fs::write("/yue", vec![1], &mut cur, &mut db), Err(Error::BadPath));
}

#[test]
fn pool_sends_messages_in_order() {
    assert_eq!(WorkerPool::new(0).pool_size(), 0);
    assert_eq!(WorkerPool::new(127).pool_size(), 0);
    assert_eq!(WorkerPool::new(128).pool_size(), 1);
    assert_eq!(WorkerPool::new(1024).pool_size(), 8);
    assert_eq!(WorkerPool::new(1100).pool_size(), 8);
    let mut pool = WorkerPool::new(300);
    pool.send_req(b"first".to_vec(), 1);
    pool.send_req(b"second".to_vec(), 2);
    assert_eq!(pool.pool_size(), 2);
    assert_eq!(
        pool.shutdown(),
        vec![
            Message::Request(b"first".to_vec(), 1),
            Message::Request(b"second".to_vec(), 2),
            Message::Shutdown,
            Message::Shutdown,
        ]
    );
    assert_eq!(WorkerPool::new(100).shutdown(), vec![]);
}
