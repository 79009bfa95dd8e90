use wrt::state::{compare_names, Allocation, NameOrder, State, StateError, CURRENT_VER, MAX_BLOCK};

fn entry(name: &str, block: i32) -> Allocation {
    Allocation {
        name: name.to_string(),
        branch: name.to_string(),
        path: format!("/tmp/{name}"),
        block,
        offset: block * 100,
        created_at: "x".to_string(),
    }
}

fn names(st: &State) -> Vec<String> {
    st.sorted_allocations().into_iter().map(|a| a.name).collect()
}

#[test]
fn allocate_block_skips_0_and_reuses_holes() {
    let mut st = State::new();
    assert_eq!(st.version, CURRENT_VER);
    st.insert(Allocation {
        name: "a".to_string(),
        branch: "a".to_string(),
        path: "/tmp/a".to_string(),
        block: 1,
        offset: 100,
        created_at: "x".to_string(),
    });
    st.insert(Allocation {
        name: "b".to_string(),
        branch: "b".to_string(),
        path: "/tmp/b".to_string(),
        block: 3,
        offset: 300,
        created_at: "x".to_string(),
    });

    assert_eq!(st.allocate_block().unwrap(), 2);
}

#[test]
fn allocate_block_of_empty_table_is_one() {
    assert_eq!(State::new().allocate_block(), Ok(1));
}

#[test]
fn allocate_block_reuses_a_block_given_back() {
    let mut st = State::new();
    st.insert(entry("a", 1));
    st.insert(entry("b", 3));
    assert_eq!(st.allocate_block(), Ok(2));
    assert!(st.remove("a").is_some());
    assert_eq!(st.allocate_block(), Ok(1));
}

#[test]
fn allocate_block_ignores_block_zero_and_blocks_out_of_range() {
    let mut st = State::new();
    st.insert(entry("zero", 0));
    st.insert(entry("neg", -5));
    st.insert(entry("big", 20000));
    assert_eq!(st.allocate_block(), Ok(1));
}

#[test]
fn allocate_block_fails_when_all_are_taken() {
    let mut allocations = Vec::new();
    for b in 1..=MAX_BLOCK {
        allocations.push(entry(&format!("w{b:05}"), b));
    }
    let mut st = State { version: CURRENT_VER, allocations };
    assert_eq!(st.allocate_block(), Err(StateError::NoFreeBlocks));
    assert!(st.remove("w09999").is_some());
    assert_eq!(st.allocate_block(), Ok(9999));
    assert!(st.remove("w00042").is_some());
    assert_eq!(st.allocate_block(), Ok(42));
}

#[test]
fn table_is_listed_in_the_order_of_names() {
    let mut st = State::new();
    for (n, b) in [("m", 1), ("b", 2), ("z", 3), ("a", 4), ("ab", 5), ("é", 6), ("B", 7)] {
        assert!(st.insert(entry(n, b)).is_none());
    }
    assert_eq!(names(&st), ["B", "a", "ab", "b", "m", "z", "é"]);
    assert_eq!(st.len(), 7);
    assert!(!st.is_empty());
}

#[test]
fn insert_replaces_the_allocation_of_the_same_name() {
    let mut st = State::new();
    st.insert(entry("a", 1));
    let prev = st.insert(entry("a", 5)).unwrap();
    assert_eq!(prev.block, 1);
    assert_eq!(st.len(), 1);
    assert_eq!(st.get("a").unwrap().block, 5);
    assert!(st.contains_key("a"));
    assert!(!st.contains_key("b"));
    assert!(st.get("b").is_none());
}

#[test]
fn remove_takes_out_just_the_name() {
    let mut st = State::new();
    st.insert(entry("a", 1));
    st.insert(entry("b", 2));
    st.insert(entry("c", 3));
    assert!(st.remove("x").is_none());
    assert_eq!(st.remove("b").unwrap().block, 2);
    assert_eq!(names(&st), ["a", "c"]);
}

#[test]
fn with_version_takes_a_missing_version_for_the_current_one() {
    assert_eq!(State::with_version(0).version, CURRENT_VER);
    assert_eq!(State::with_version(1).version, 1);
    assert_eq!(State::with_version(7).version, 7);
    assert!(State::with_version(0).is_empty());
}

#[test]
fn new_table_is_empty_and_current() {
    let st = State::new();
    assert_eq!(st.version, CURRENT_VER);
    assert!(st.is_empty());
    assert_eq!(st.len(), 0);
    assert!(st.is_valid());
}

#[test]
fn is_valid_tells_bad_blocks() {
    let mut st = State::new();
    st.insert(entry("a", 1));
    st.insert(entry("b", 2));
    assert!(st.is_valid());
    st.insert(entry("c", 2));
    assert!(!st.is_valid());
    let mut st = State::new();
    st.insert(entry("a", 0));
    assert!(!st.is_valid());
    let mut st = State::new();
    let mut a = entry("a", 3);
    a.offset = 301;
    st.insert(a);
    assert!(!st.is_valid());
}

#[test]
fn compare_names_orders_by_bytes() {
    assert_eq!(compare_names("a", "b"), NameOrder::Before);
    assert_eq!(compare_names("b", "a"), NameOrder::After);
    assert_eq!(compare_names("a", "a"), NameOrder::Same);
    assert_eq!(compare_names("", ""), NameOrder::Same);
    assert_eq!(compare_names("", "a"), NameOrder::Before);
    assert_eq!(compare_names("a", "ab"), NameOrder::Before);
    assert_eq!(compare_names("ab", "a"), NameOrder::After);
    assert_eq!(compare_names("z", "é"), NameOrder::Before);
    assert_eq!(compare_names("Z", "a"), NameOrder::Before);
}

#[test]
fn clone_keeps_every_field() {
    let a = entry("a", 4);
    let b = a.clone();
    assert_eq!(
        (b.name, b.branch, b.path, b.block, b.offset, b.created_at),
        (a.name, a.branch, a.path, a.block, a.offset, a.created_at)
    );
}
