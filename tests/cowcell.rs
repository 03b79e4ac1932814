use crossbeam_utils::thread::scope;
use idl_poc::cowcell::CowCell;
use std::sync::atomic::{AtomicUsize, Ordering};
use std::sync::Arc;

#[test]
fn cowcell_test_simple_create() {
    let data: i64 = 0;
    let cc = CowCell::new(data);

    let cc_rotxn_a = cc.begin_read_txn();
    assert_eq!(**cc_rotxn_a, 0);

    {
        /* Take a write txn */
        let mut cc_wrtxn = cc.begin_write_txn();
        /* Get the data ... */
        {
            let mut_ptr = cc_wrtxn.get_mut();
            /* Assert it's 0 */
            assert_eq!(*mut_ptr, 0);
            *mut_ptr = 1;
            assert_eq!(*mut_ptr, 1);
        }
        assert_eq!(**cc_rotxn_a, 0);

        let cc_rotxn_b = cc.begin_read_txn();
        assert_eq!(**cc_rotxn_b, 0);
        /* The write txn and it's lock is dropped here */
        cc_wrtxn.commit();
    }

    /* Start a new txn and see it's still good */
    let cc_rotxn_c = cc.begin_read_txn();
    assert_eq!(**cc_rotxn_c, 1);
    assert_eq!(**cc_rotxn_a, 0);
}

#[test]
fn cowcell_test_multithread_create() {
    let start = time::now();
    // Create the new cowcell.
    let data: i64 = 0;
    let cc = CowCell::new(data);

    scope(|scope| {
        let cc_ref = &cc;

        let _readers: Vec<_> = (0..7)
            .map(|_| {
                scope.spawn(move |_| {
                    let mut last_value: i64 = 0;
                    while last_value < 500 {
                        let cc_rotxn = cc_ref.begin_read_txn();
                        {
                            assert!(**cc_rotxn >= last_value);
                            last_value = **cc_rotxn;
                        }
                    }
                })
            })
            .collect();

        let _writers: Vec<_> = (0..3)
            .map(|_| {
                scope.spawn(move |_| {
                    let mut last_value: i64 = 0;
                    while last_value < 500 {
                        let mut cc_wrtxn = cc_ref.begin_write_txn();
                        {
                            let mut_ptr = cc_wrtxn.get_mut();
                            assert!(*mut_ptr >= last_value);
                            last_value = *mut_ptr;
                            *mut_ptr = *mut_ptr + 1;
                        }
                        cc_wrtxn.commit();
                    }
                })
            })
            .collect();
    })
    .unwrap();

    let end = time::now();
    println!("Arc MT create :{} ", end - start);
}

#[derive(Debug, Clone)]
struct TestGcWrapper<T> {
    data: T,
    drops: Arc<AtomicUsize>,
}

impl<T> Drop for TestGcWrapper<T> {
    fn drop(&mut self) {
        // Add to the atomic counter ...
        self.drops.fetch_add(1, Ordering::Release);
    }
}

fn test_gc_operation_thread(cc: &CowCell<TestGcWrapper<i64>>, drops: &AtomicUsize) {
    while drops.load(Ordering::Acquire) < 50 {
        {
            let mut cc_wrtxn = cc.begin_write_txn();
            {
                let mut_ptr = cc_wrtxn.get_mut();
                mut_ptr.data = mut_ptr.data + 1;
            }
            cc_wrtxn.commit();
        }
    }
}

#[test]
fn cowcell_test_gc_operation() {
    let drops = Arc::new(AtomicUsize::new(0));
    let data = TestGcWrapper { data: 0, drops: drops.clone() };
    let cc = CowCell::new(data);

    scope(|scope| {
        let cc_ref = &cc;
        let drops_ref = &*drops;
        let _writers: Vec<_> = (0..3)
            .map(|_| {
                scope.spawn(move |_| {
                    test_gc_operation_thread(cc_ref, drops_ref);
                })
            })
            .collect();
    })
    .unwrap();

    assert!(drops.load(Ordering::Acquire) >= 50);
}

#[test]
fn cowcell_abort_changes_nothing() {
    let cc = CowCell::new(vec![1u64, 2, 3]);
    let before = cc.begin_read_txn();
    {
        let mut w = cc.begin_write_txn();
        w.get_mut().push(4);
        // dropped without commit
    }
    let after = cc.begin_read_txn();
    assert_eq!(**before, vec![1, 2, 3]);
    assert_eq!(**after, vec![1, 2, 3]);
    // The writer lock was released by the abort.
    let mut w = cc.begin_write_txn();
    w.get_mut().push(5);
    w.commit();
    assert_eq!(**cc.begin_read_txn(), vec![1, 2, 3, 5]);
    assert_eq!(**before, vec![1, 2, 3]);
}

#[test]
fn cowcell_inner_as_ref_gives_value() {
    let inner = idl_poc::cowcell::CowCellInner::new(5i32);
    let r: &i32 = inner.as_ref();
    assert_eq!(*r, 5);
    let cc = CowCell::new(String::from("x"));
    let snap = cc.begin_read_txn();
    let s: &String = (*snap).as_ref();
    assert_eq!(s.as_str(), "x");
}
