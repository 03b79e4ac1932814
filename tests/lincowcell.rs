use crossbeam_utils::thread::scope;
use idl_poc::lincowcell::LinCowCell;
use std::sync::atomic::{AtomicUsize, Ordering};
use std::sync::Arc;

#[test]
fn lincowcell_test_simple_create() {
    let data: i64 = 0;
    let cc = LinCowCell::new(data);

    let cc_rotxn_a = cc.begin_read_txn();
    assert_eq!(*cc_rotxn_a, 0);

    {
        /* Take a write txn */
        let mut cc_wrtxn = cc.begin_write_txn();
        /* Get the data ... */
        {
            let mut_ptr = cc_wrtxn.get_mut();
            /* Assert it's 0 */
            assert_eq!(*mut_ptr, 0);
            *mut_ptr = 1;
            assert_eq!(*mut_ptr, 1);
        }
        assert_eq!(*cc_rotxn_a, 0);

        let cc_rotxn_b = cc.begin_read_txn();
        assert_eq!(*cc_rotxn_b, 0);
        /* The write txn and it's lock is dropped here */
        cc_wrtxn.commit();
    }

    /* Start a new txn and see it's still good */
    let cc_rotxn_c = cc.begin_read_txn();
    assert_eq!(*cc_rotxn_c, 1);
    assert_eq!(*cc_rotxn_a, 0);
}

fn mt_writer(cc: &LinCowCell<i64>) {
    let mut last_value: i64 = 0;
    while last_value < 500 {
        let mut cc_wrtxn = cc.begin_write_txn();
        {
            let mut_ptr = cc_wrtxn.get_mut();
            assert!(*mut_ptr >= last_value);
            last_value = *mut_ptr;
            *mut_ptr = *mut_ptr + 1;
        }
        cc_wrtxn.commit();
    }
}

fn rt_writer(cc: &LinCowCell<i64>) {
    let mut last_value: i64 = 0;
    while last_value < 500 {
        let cc_rotxn = cc.begin_read_txn();
        {
            assert!(*cc_rotxn >= last_value);
            last_value = *cc_rotxn;
        }
    }
}

#[test]
fn lincowcell_test_multithread_create() {
    let start = time::now();
    // Create the new cowcell.
    let data: i64 = 0;
    let cc = LinCowCell::new(data);

    scope(|scope| {
        let cc_ref = &cc;

        let _readers: Vec<_> = (0..7)
            .map(|_| {
                scope.spawn(move |_| {
                    rt_writer(cc_ref);
                })
            })
            .collect();

        let _writers: Vec<_> = (0..3)
            .map(|_| {
                scope.spawn(move |_| {
                    mt_writer(cc_ref);
                })
            })
            .collect();
    })
    .unwrap();

    let end = time::now();
    println!("Arc MT create :{} ", end - start);
}

#[derive(Debug, Clone)]
struct TestGcWrapper<T> {
    data: T,
    drops: Arc<AtomicUsize>,
}

impl<T> Drop for TestGcWrapper<T> {
    fn drop(&mut self) {
        // Add to the atomic counter ...
        self.drops.fetch_add(1, Ordering::Release);
    }
}

fn test_gc_operation_thread(cc: &LinCowCell<TestGcWrapper<i64>>, drops: &AtomicUsize) {
    while drops.load(Ordering::Acquire) < 50 {
        {
            let mut cc_wrtxn = cc.begin_write_txn();
            {
                let mut_ptr = cc_wrtxn.get_mut();
                mut_ptr.data = mut_ptr.data + 1;
            }
            cc_wrtxn.commit();
        }
    }
}

#[test]
fn lincowcell_test_gc_operation() {
    let drops = Arc::new(AtomicUsize::new(0));
    let data = TestGcWrapper { data: 0, drops: drops.clone() };
    let cc = LinCowCell::new(data);

    scope(|scope| {
        let cc_ref = &cc;
        let drops_ref = &*drops;
        let _writers: Vec<_> = (0..3)
            .map(|_| {
                scope.spawn(move |_| {
                    test_gc_operation_thread(cc_ref, drops_ref);
                })
            })
            .collect();
    })
    .unwrap();

    assert!(drops.load(Ordering::Acquire) >= 50);
}

fn bump(cc: &LinCowCell<TestGcWrapper<i64>>) {
    let mut cc_wrtxn = cc.begin_write_txn();
    {
        let mut_ptr = cc_wrtxn.get_mut();
        mut_ptr.data = mut_ptr.data + 1;
    }
    cc_wrtxn.commit();
}

/*
 * Read transactions are reclaimed *in order*: a newer snapshot is not freed
 * while an older one is still open.
 */
#[test]
fn test_gc_operation_linear() {
    let drops = Arc::new(AtomicUsize::new(0));
    let data = TestGcWrapper { data: 0, drops: drops.clone() };
    let cc = LinCowCell::new(data);

    // Open a read A.
    let cc_rotxn_a = cc.begin_read_txn();
    // open a write, change and commit
    bump(&cc);
    // open a read B.
    let cc_rotxn_b = cc.begin_read_txn();
    // open a write, change and commit
    bump(&cc);
    // open a read C
    let cc_rotxn_c = cc.begin_read_txn();

    assert!(drops.load(Ordering::Acquire) == 0);

    // drop B
    drop(cc_rotxn_b);

    // gc count should be 0.
    assert!(drops.load(Ordering::Acquire) == 0);

    // drop C
    drop(cc_rotxn_c);

    // gc count should be 0
    assert!(drops.load(Ordering::Acquire) == 0);

    // drop A
    drop(cc_rotxn_a);

    // gc count should be 2 (A + B, C is still live)
    assert!(drops.load(Ordering::Acquire) == 2);
    assert_eq!(cc.begin_read_txn().data, 2);
}

#[test]
fn lincowcell_commit_without_readers_frees_old_generation() {
    let drops = Arc::new(AtomicUsize::new(0));
    let cc = LinCowCell::new(TestGcWrapper { data: 0i64, drops: drops.clone() });
    bump(&cc);
    assert_eq!(drops.load(Ordering::Acquire), 1);
    bump(&cc);
    assert_eq!(drops.load(Ordering::Acquire), 2);
    let r = cc.begin_read_txn();
    assert_eq!(r.data, 2);
    drop(r);
    // The current generation stays.
    assert_eq!(drops.load(Ordering::Acquire), 2);
}

#[test]
fn lincowcell_newer_reader_first_frees_nothing() {
    let drops = Arc::new(AtomicUsize::new(0));
    let cc = LinCowCell::new(TestGcWrapper { data: 0i64, drops: drops.clone() });
    let a = cc.begin_read_txn();
    bump(&cc);
    let b = cc.begin_read_txn();
    bump(&cc);
    drop(b);
    assert_eq!(drops.load(Ordering::Acquire), 0);
    assert_eq!(a.data, 0);
    drop(a);
    assert_eq!(drops.load(Ordering::Acquire), 2);
}

#[test]
fn lincowcell_abort_changes_nothing() {
    let drops = Arc::new(AtomicUsize::new(0));
    let cc = LinCowCell::new(TestGcWrapper { data: 7i64, drops: drops.clone() });
    let before = cc.begin_read_txn();
    let gen = before.generation();
    {
        let mut w = cc.begin_write_txn();
        w.get_mut().data = 100;
        // dropped without commit: the working copy alone is freed
    }
    assert_eq!(drops.load(Ordering::Acquire), 1);
    let after = cc.begin_read_txn();
    assert_eq!(before.data, 7);
    assert_eq!(after.data, 7);
    // No extra generation was made.
    assert_eq!(after.generation(), gen);
    // The writer lock was released by the abort.
    bump(&cc);
    let next = cc.begin_read_txn();
    assert_eq!(next.data, 8);
    assert_eq!(next.generation(), gen + 1);
}

#[test]
fn lincowcell_reads_back_last_commit() {
    let cc = LinCowCell::new(String::from("a"));
    for word in ["b", "cd", "efg"] {
        let mut w = cc.begin_write_txn();
        *w.get_mut() = String::from(word);
        w.commit();
        let r = cc.begin_read_txn();
        assert_eq!(r.get().as_str(), word);
    }
}

#[test]
fn lincowcell_snapshots_stay_through_many_commits() {
    let cc = LinCowCell::new(0u64);
    let first = cc.begin_read_txn();
    let mut held = Vec::new();
    for i in 1..=20u64 {
        let mut w = cc.begin_write_txn();
        *w.get_mut() = i;
        w.commit();
        if i % 5 == 0 {
            held.push(cc.begin_read_txn());
        }
    }
    assert_eq!(*first, 0);
    let seen: Vec<u64> = held.iter().map(|r| **r).collect();
    assert_eq!(seen, vec![5, 10, 15, 20]);
    assert_eq!(*cc.begin_read_txn(), 20);
}

#[test]
fn lincowcell_read_never_waits_for_writer() {
    let cc = LinCowCell::new(1u32);
    let mut w = cc.begin_write_txn();
    *w.get_mut() = 2;
    // A writer is open: reads still proceed and see the old value.
    let r = cc.begin_read_txn();
    assert_eq!(*r, 1);
    w.commit();
    assert_eq!(*r, 1);
    assert_eq!(*cc.begin_read_txn(), 2);
}

#[derive(Debug, Clone)]
struct Logged {
    data: i64,
    log: Arc<std::sync::Mutex<Vec<i64>>>,
}

impl Drop for Logged {
    fn drop(&mut self) {
        self.log.lock().unwrap().push(self.data);
    }
}

fn bump_logged(cc: &LinCowCell<Logged>) {
    let mut w = cc.begin_write_txn();
    w.get_mut().data += 1;
    w.commit();
}

#[test]
fn lincowcell_frees_generations_oldest_first() {
    let log = Arc::new(std::sync::Mutex::new(Vec::new()));
    let cc = LinCowCell::new(Logged { data: 0, log: log.clone() });
    let a = cc.begin_read_txn();
    bump_logged(&cc);
    let b = cc.begin_read_txn();
    bump_logged(&cc);
    let c = cc.begin_read_txn();
    bump_logged(&cc);
    drop(b);
    drop(c);
    assert!(log.lock().unwrap().is_empty());
    drop(a);
    // Generations 0, 1 and 2 go, in the order they were created; 3 is current.
    assert_eq!(*log.lock().unwrap(), vec![0, 1, 2]);
    assert_eq!(cc.begin_read_txn().data, 3);
}

#[test]
fn lincowcell_commit_frees_in_order() {
    let log = Arc::new(std::sync::Mutex::new(Vec::new()));
    let cc = LinCowCell::new(Logged { data: 0, log: log.clone() });
    bump_logged(&cc);
    bump_logged(&cc);
    assert_eq!(*log.lock().unwrap(), vec![0, 1]);
}
