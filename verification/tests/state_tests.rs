use executor::state::{GenericState, StateEntry, StateEq, TaintState};

type Key = u32;
type Value = u32;
type ThreadId = u8;

type TestState = TaintState<Key, Value, ThreadId>;

#[test]
fn basic_state_works() {
    let mut state = TaintState::new();
    state.unsafe_insert(&33u32, StateEntry::new("Foo", "Thread1"));
    assert_eq!(state.unsafe_read_value(&33).unwrap(), "Foo");
    assert_eq!(state.unsafe_read_taint(&33).unwrap(), "Thread1");
}

#[test]
fn basic_read_write_ops() {
    let mut state = TestState::new();
    assert_eq!(state.read(&10, 1).unwrap(), 0);
    assert!(state.write(&10, 5, 1).is_ok());
    assert_eq!(state.read(&10, 1).unwrap(), 5);
}

#[test]
fn reading_taints() {
    let mut state = TaintState::<u32, u32, u8>::new();
    assert!(state.read(&10u32, 1u8).is_ok());
    assert_eq!(state.unsafe_read_taint(&10).unwrap(), 1);
}

#[test]
fn writing_taints() {
    let mut state = TaintState::new();
    assert!(state.write(&10u32, 5u32, 1u8).is_ok());
    assert_eq!(state.unsafe_read_taint(&10).unwrap(), 1);
}

#[test]
fn cannot_read_from_tainted() {
    let mut state = TaintState::new();
    assert!(state.write(&10u32, 5u32, 1u8).is_ok());
    // thread 2 cannot read from 10 anymore.
    assert!(state.read(&10, 2).is_err());
}

#[test]
fn mutate_works() {
    let mut state = TestState::new();

    assert!(state
        .mutate(
            &10,
            |old| {
                assert_eq!(old, Value::default());
                5
            },
            1
        )
        .is_ok());

    assert!(state
        .mutate(
            &10,
            |old| {
                assert_eq!(old, 5);
                6
            },
            1
        )
        .is_ok());

    state.unsafe_insert(&11, StateEntry::new(11, 2));

    assert!(state
        .mutate(
            &11,
            |_| {
                // closure will never be executed.
                assert!(false);
                0
            },
            1
        )
        .is_err());
}

#[test]
fn can_have_genesis_values() {
    let mut state = TestState::new();
    state.unsafe_insert(&10u32, StateEntry::new_data(10u32));

    assert_eq!(state.unsafe_read_taint(&10u32), None);
    assert_eq!(state.unsafe_read_value(&10u32), Some(10u32));

    assert_eq!(state.unsafe_read_taint(&11u32), None);
    assert_eq!(state.unsafe_read_value(&11u32), None);
}

#[test]
fn taints_upon_first_read_of_genesis_values() {
    let mut state = TestState::new();
    state.unsafe_insert(&10u32, StateEntry::new_data(10u32));

    assert_eq!(state.unsafe_read_taint(&10u32), None);
    assert_eq!(state.unsafe_read_value(&10u32), Some(10u32));

    state.read(&10u32, 1u8).unwrap();

    assert_eq!(state.unsafe_read_taint(&10u32), Some(1));
    assert_eq!(state.unsafe_read_value(&10u32), Some(10u32));
}

#[test]
fn taints_upon_first_write_of_genesis_values() {
    let mut state = TestState::new();
    state.unsafe_insert(&10u32, StateEntry::new_data(10u32));

    assert_eq!(state.unsafe_read_taint(&10u32), None);
    assert_eq!(state.unsafe_read_value(&10u32), Some(10u32));

    state.write(&10u32, 99u32, 1u8).unwrap();

    assert_eq!(state.unsafe_read_taint(&10u32), Some(1));
    assert_eq!(state.unsafe_read_value(&10u32), Some(99u32));
}

#[test]
fn duplicate_works() {
    let mut initial = TestState::new();
    initial.unsafe_insert(&10u32, StateEntry::new_data(10u32));
    initial.unsafe_insert(&11u32, StateEntry::new(11, 1));

    let mut state = TestState::new();
    state.unsafe_duplicate(initial);

    let dump = state.dump();
    assert_eq!(*dump.get(&10).unwrap(), StateEntry::new_data(10u32));
    assert_eq!(dump.get(&10).unwrap().taint(), None);
    assert_eq!(*dump.get(&11).unwrap(), StateEntry::new(11u32, 1u8));
    assert_eq!(dump.get(&11).unwrap().taint(), Some(1));
}

#[test]
fn dump_works() {
    let mut state = TestState::new();
    state.unsafe_insert(&10u32, StateEntry::new_data(10u32));
    state.unsafe_insert(&11u32, StateEntry::new(11, 1));

    let dump = state.dump();
    assert_eq!(*dump.get(&10).unwrap(), StateEntry::new_data(10u32));
    assert_eq!(dump.get(&10).unwrap().taint(), None);
    assert_eq!(*dump.get(&11).unwrap(), StateEntry::new(11u32, 1u8));
    assert_eq!(dump.get(&11).unwrap().taint(), Some(1));
}

#[test]
fn clean_works() {
    let mut state = TestState::new();
    state.unsafe_insert(&10u32, StateEntry::new_data(10u32));
    state.unsafe_insert(&11u32, StateEntry::new(11, 1));

    assert_eq!(state.unsafe_read(&10).unwrap(), StateEntry::new_data(10u32));
    assert_eq!(state.unsafe_read(&10).unwrap().taint(), None);
    assert_eq!(state.unsafe_read(&11).unwrap(), StateEntry::new(11u32, 1u8));
    assert_eq!(state.unsafe_read(&11).unwrap().taint(), Some(1));

    state.unsafe_clean();
    assert!(state.unsafe_read(&10).is_none());
    assert!(state.unsafe_read(&11).is_none());
}

#[test]
fn state_eq_works() {
    let mut state1 = TestState::new();
    state1.unsafe_insert(&10u32, StateEntry::new_data(10u32));
    state1.unsafe_insert(&11u32, StateEntry::new(11, 1));
    let dump1 = state1.dump();

    let mut state2 = TestState::new();
    state2.unsafe_insert(&10u32, StateEntry::new_data(10u32));
    state2.unsafe_insert(&11u32, StateEntry::new(11, 1));
    let dump2 = state2.dump();

    assert!(dump1.state_eq(dump2));

    let mut state3 = TestState::new();
    state3.unsafe_insert(&10u32, StateEntry::new_data(11u32));
    state3.unsafe_insert(&11u32, StateEntry::new(11, 1));
    let dump3 = state3.dump();

    assert!(!dump1.state_eq(dump3));
}

#[test]
fn state_eq_ignores_taint() {
    let mut state1 = TestState::new();
    state1.unsafe_insert(&10u32, StateEntry::new_data(10u32));
    state1.unsafe_insert(&11u32, StateEntry::new(11, 1));
    let dump1 = state1.dump();

    let mut state2 = TestState::new();
    state2.unsafe_insert(&10u32, StateEntry::new_data(10u32));
    state2.unsafe_insert(&11u32, StateEntry::new(11, 2));
    let dump2 = state2.dump();

    assert!(dump1.state_eq(dump2));
}

// Own tests.

#[test]
fn state_len_counts_keys_once() {
    let mut state = TestState::new();
    assert_eq!(state.unsafe_len(), 0);
    state.unsafe_insert(&10u32, StateEntry::new_data(1u32));
    state.unsafe_insert(&10u32, StateEntry::new_data(2u32));
    state.unsafe_insert(&12u32, StateEntry::new_data(3u32));
    assert_eq!(state.unsafe_len(), 2);
    assert_eq!(state.unsafe_read_value(&10), Some(2));
}

#[test]
fn write_to_tainted_key_fails_and_keeps_value() {
    let mut state = TestState::new();
    assert!(state.write(&10, 5, 1).is_ok());
    assert_eq!(state.write(&10, 7, 2), Err(1));
    assert_eq!(state.unsafe_read_value(&10), Some(5));
    assert_eq!(state.unsafe_read_taint(&10), Some(1));
    // the owner can still write.
    assert!(state.write(&10, 8, 1).is_ok());
    assert_eq!(state.read(&10, 1), Ok(8));
}

#[test]
fn read_of_missing_key_taints_it_with_default() {
    let mut state = TestState::new();
    assert_eq!(state.read(&42, 3), Ok(0));
    assert_eq!(state.unsafe_read_taint(&42), Some(3));
    assert_eq!(state.unsafe_read_value(&42), Some(0));
    assert_eq!(state.read(&42, 4), Err(3));
}

#[test]
fn state_eq_differs_on_missing_key() {
    let mut state1 = TestState::new();
    state1.unsafe_insert(&10u32, StateEntry::new_data(10u32));
    let mut state2 = TestState::new();
    state2.unsafe_insert(&10u32, StateEntry::new_data(10u32));
    state2.unsafe_insert(&11u32, StateEntry::new_data(11u32));
    assert!(!state1.dump().state_eq(state2.dump()));
    assert!(!state2.dump().state_eq(state1.dump()));
}

#[test]
fn unsafe_insert_counts_new_keys_once() {
    let mut state: TaintState<u32, u32, u32> = TaintState::new();
    state.unsafe_insert(&1, StateEntry::new(10, 7));
    state.unsafe_insert(&2, StateEntry::new_data(20));
    assert_eq!(state.unsafe_len(), 2);
    // a known key: replaced whoever owned it, and counted once.
    state.unsafe_insert(&1, StateEntry::new_data(11));
    assert_eq!(state.unsafe_len(), 2);
    assert_eq!(state.unsafe_read_value(&1), Some(11));
    assert_eq!(state.unsafe_read_taint(&1), None);
    assert_eq!(state.unsafe_read_value(&2), Some(20));
}
