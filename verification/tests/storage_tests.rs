use executor::example_storage::{AccMap, Something, TestMap, TestValue};
use executor::runtime::{ConcurrentRuntime, RuntimeState};
use executor::state::StateEntry;
use executor::testing;

type Rt = ConcurrentRuntime;

fn new_runtime() -> ConcurrentRuntime {
    ConcurrentRuntime::new(RuntimeState::new(), 0)
}

fn update_something(old: Something) -> Something {
    if old.0 == 0 {
        Something(11)
    } else {
        Something(old.0 + 1)
    }
}

fn update_vec(old: Vec<u32>) -> Vec<u32> {
    if old.len() == 0 {
        vec![1, 3]
    } else {
        let mut old = old;
        old.push(999);
        old
    }
}

fn check_map_account_id_default() {
    let mut rt = new_runtime();
    assert_eq!(AccMap::<Rt>::read(&mut rt, testing::alice().public()).unwrap(), testing::default().public());
}

fn check_map() {
    let mut rt = new_runtime();

    // reads default
    assert_eq!(TestMap::<Rt>::read(&mut rt, 10), Ok(Something(0)));

    assert_eq!(TestMap::<Rt>::exists_at(&mut rt, 19).unwrap(), false);

    // can write
    assert_eq!(TestMap::<Rt>::write(&mut rt, 10, Something(10)), Ok(()));

    // and read back.
    assert_eq!(TestMap::<Rt>::read(&mut rt, 10), Ok(Something(10)));

    // and mutate in place.
    assert_eq!(TestMap::<Rt>::mutate(&mut rt, 11, update_something), Ok(()));
    assert_eq!(TestMap::<Rt>::read(&mut rt, 11), Ok(Something(11)));

    assert_eq!(TestMap::<Rt>::mutate(&mut rt, 11, update_something), Ok(()));
    assert_eq!(TestMap::<Rt>::read(&mut rt, 11), Ok(Something(12)));

    // finally clear.
    assert_eq!(TestMap::<Rt>::clear(&mut rt, 11), Ok(()));
    assert_eq!(TestMap::<Rt>::read(&mut rt, 11), Ok(Something(0)));
}

fn check_value() {
    let mut rt = new_runtime();

    // reads default
    assert_eq!(TestValue::<Rt>::read(&mut rt), Ok(vec![]));

    // can write
    assert_eq!(TestValue::<Rt>::write(&mut rt, vec![1, 2, 3]), Ok(()));

    // and read back.
    assert_eq!(TestValue::<Rt>::read(&mut rt), Ok(vec![1, 2, 3]));

    // and mutate in place.
    assert!(TestValue::<Rt>::clear(&mut rt).is_ok());
    assert_eq!(TestValue::<Rt>::mutate(&mut rt, update_vec), Ok(()));
    assert_eq!(TestValue::<Rt>::read(&mut rt), Ok(vec![1, 3]));

    assert_eq!(TestValue::<Rt>::mutate(&mut rt, update_vec), Ok(()));
    assert_eq!(TestValue::<Rt>::read(&mut rt), Ok(vec![1, 3, 999]));
}

#[test]
fn macros_map_account_id_default_works() {
    check_map_account_id_default();
}

#[test]
fn macros_map_works() {
    check_map();
}

#[test]
fn macros_value_works() {
    check_value();
}

#[test]
fn storage_macros_map_account_id_default_works() {
    check_map_account_id_default();
}

#[test]
fn storage_macros_map_works() {
    check_map();
}

#[test]
fn storage_macros_value_works() {
    check_value();
}

// Own tests.

#[test]
fn map_keys_are_prefixed_and_encoded() {
    let key = TestMap::<Rt>::key_for(7u8);
    assert_eq!(key.0, b"test:map\x07".to_vec());
}

#[test]
fn map_read_of_tainted_key_fails() {
    let mut state = RuntimeState::new();
    let key = TestMap::<Rt>::key_for(3u8);
    state.unsafe_insert(&key, StateEntry::new_taint(5));
    let mut rt = ConcurrentRuntime::new(state, 0);
    assert_eq!(TestMap::<Rt>::read(&mut rt, 3), Err(5));
    assert_eq!(TestMap::<Rt>::write(&mut rt, 3, Something(1)), Err(5));
    assert_eq!(TestMap::<Rt>::mutate(&mut rt, 3, update_something), Err(5));
    assert_eq!(TestMap::<Rt>::exists_at(&mut rt, 3), Err(5));
}

#[test]
fn map_exists_after_write_of_non_default() {
    let mut rt = new_runtime();
    assert_eq!(TestMap::<Rt>::write(&mut rt, 4, Something(0)), Ok(()));
    assert_eq!(TestMap::<Rt>::exists_at(&mut rt, 4), Ok(false));
    assert_eq!(TestMap::<Rt>::write(&mut rt, 4, Something(2)), Ok(()));
    assert_eq!(TestMap::<Rt>::exists_at(&mut rt, 4), Ok(true));
}

#[test]
fn acc_map_reads_back_what_was_written() {
    let mut rt = new_runtime();
    let alice = testing::alice().public();
    let bob = testing::bob().public();
    assert_eq!(AccMap::<Rt>::write(&mut rt, alice, bob), Ok(()));
    assert_eq!(AccMap::<Rt>::read(&mut rt, alice), Ok(bob));
    assert_eq!(AccMap::<Rt>::read(&mut rt, bob), Ok(testing::default().public()));
}
