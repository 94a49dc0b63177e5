use waffle::entity::Value;
use waffle::pool::{ListPool, ListRef};

#[test]
fn the_default_list_is_empty_in_any_pool() {
    let mut pool: ListPool<Value> = ListPool::new();
    let empty = ListRef::default();
    assert_eq!(empty.len(), 0);
    assert!(empty.is_empty());
    assert_eq!(pool.to_vec(empty), vec![]);
    pool.single(Value(3));
    assert_eq!(pool.to_vec(empty), vec![]);
}

#[test]
fn single_and_double_store_small_lists() {
    let mut pool: ListPool<Value> = ListPool::new();
    let one = pool.single(Value(7));
    let two = pool.double(Value(8), Value(9));
    assert_eq!(one, ListRef { start: 0, len: 1 });
    assert_eq!(two, ListRef { start: 1, len: 2 });
    assert_eq!(pool.to_vec(one), vec![Value(7)]);
    assert_eq!(pool.to_vec(two), vec![Value(8), Value(9)]);
    assert_eq!(pool.get(two, 0), Value(8));
    assert_eq!(pool.get(two, 1), Value(9));
    assert_eq!(pool.storage, vec![Value(7), Value(8), Value(9)]);
}

#[test]
fn from_slice_keeps_the_order() {
    let mut pool: ListPool<u32> = ListPool::new();
    pool.single(1);
    let list = pool.from_slice(&[5, 4, 3, 2]);
    assert_eq!(list, ListRef { start: 1, len: 4 });
    assert_eq!(pool.to_vec(list), vec![5, 4, 3, 2]);
    let none = pool.from_slice(&[]);
    assert_eq!(none.len(), 0);
    assert_eq!(pool.storage.len(), 5);
}

#[test]
fn deep_clone_copies_to_fresh_storage() {
    let mut pool: ListPool<Value> = ListPool::new();
    let list = pool.double(Value(1), Value(2));
    let before = pool.storage.clone();
    let copy = pool.deep_clone(list);
    assert_eq!(copy, ListRef { start: 2, len: 2 });
    assert_ne!(copy, list);
    assert_eq!(pool.to_vec(copy), pool.to_vec(list));
    assert_eq!(&pool.storage[..before.len()], &before[..]);
    assert_eq!(pool.storage, vec![Value(1), Value(2), Value(1), Value(2)]);
}

#[test]
fn a_shared_list_shows_a_write_to_every_owner() {
    let mut pool: ListPool<Value> = ListPool::new();
    let list = pool.double(Value(1), Value(2));
    let alias = list;
    pool.set(list, 1, Value(99));
    assert_eq!(pool.to_vec(alias), vec![Value(1), Value(99)]);
}

#[test]
fn a_deep_clone_can_be_edited_without_the_source_noticing() {
    let mut pool: ListPool<Value> = ListPool::new();
    let list = pool.double(Value(1), Value(2));
    let other = pool.single(Value(3));
    let copy = pool.deep_clone(list);
    pool.set(copy, 0, Value(50));
    pool.set(copy, 1, Value(60));
    assert_eq!(pool.to_vec(list), vec![Value(1), Value(2)]);
    assert_eq!(pool.to_vec(other), vec![Value(3)]);
    assert_eq!(pool.to_vec(copy), vec![Value(50), Value(60)]);
}

#[test]
fn deep_clone_of_the_empty_list_is_empty() {
    let mut pool: ListPool<Value> = ListPool::new();
    pool.single(Value(1));
    let copy = pool.deep_clone(ListRef::default());
    assert_eq!(copy.len(), 0);
    assert_eq!(pool.storage, vec![Value(1)]);
}

#[test]
fn slice_shows_the_items_in_place() {
    let mut pool: ListPool<u32> = ListPool::new();
    pool.single(9);
    let list = pool.from_slice(&[1, 2, 3]);
    pool.single(8);
    assert_eq!(pool.slice(list), &[1, 2, 3]);
    assert_eq!(pool.slice(ListRef::default()), &[] as &[u32]);
    pool.set(list, 2, 30);
    assert_eq!(pool.slice(list), &[1, 2, 30]);
}
