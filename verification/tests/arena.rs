use waffle::entity::{Block, EntityRef, EntityVec, Func, Value};

#[test]
fn push_returns_the_next_slot() {
    let mut arena: EntityVec<Value, u32> = EntityVec::new();
    assert_eq!(arena.len(), 0);
    let a = arena.push(10);
    let b = arena.push(20);
    let c = arena.push(30);
    assert_eq!(a, Value(0));
    assert_eq!(b, Value(1));
    assert_eq!(c, Value(2));
    assert_eq!(arena.len(), 3);
    assert!(a < b && b < c);
}

#[test]
fn get_finds_what_was_pushed() {
    let mut arena: EntityVec<Block, &str> = EntityVec::new();
    let a = arena.push("first");
    let b = arena.push("second");
    assert_eq!(arena.get(a), Some(&"first"));
    assert_eq!(arena.get(b), Some(&"second"));
    assert_eq!(*arena.at(b), "second");
}

#[test]
fn get_of_a_handle_never_given_out_is_none() {
    let mut arena: EntityVec<Block, u8> = EntityVec::new();
    assert_eq!(arena.get(Block(0)), None);
    arena.push(1);
    assert_eq!(arena.get(Block(1)), None);
    assert_eq!(arena.get(Block(usize::MAX)), None);
    assert!(arena.is_valid(Block(0)));
    assert!(!arena.is_valid(Block(1)));
    assert!(arena.get_mut(Block(7)).is_none());
}

#[test]
fn get_mut_changes_one_slot_only() {
    let mut arena: EntityVec<Func, u32> = EntityVec::new();
    let a = arena.push(1);
    let b = arena.push(2);
    let c = arena.push(3);
    *arena.get_mut(b).unwrap() = 20;
    assert_eq!(arena.get(a), Some(&1));
    assert_eq!(arena.get(b), Some(&20));
    assert_eq!(arena.get(c), Some(&3));
    *arena.at_mut(c) += 4;
    assert_eq!(arena.get(c), Some(&7));
    assert_eq!(arena.len(), 3);
}

#[test]
fn entries_come_in_insertion_order() {
    let mut arena: EntityVec<Value, char> = EntityVec::new();
    arena.push('x');
    arena.push('y');
    arena.push('z');
    let entries = arena.entries();
    assert_eq!(entries.len(), 3);
    assert_eq!(entries[0], (Value(0), &'x'));
    assert_eq!(entries[1], (Value(1), &'y'));
    assert_eq!(entries[2], (Value(2), &'z'));
}

#[test]
fn handles_are_never_given_out_twice() {
    let mut arena: EntityVec<Value, usize> = EntityVec::new();
    let mut seen: Vec<Value> = Vec::new();
    for i in 0..200 {
        let h = arena.push(i);
        assert!(!seen.contains(&h));
        if let Some(last) = seen.last() {
            assert!(*last < h);
        }
        seen.push(h);
    }
    for (i, h) in seen.iter().enumerate() {
        assert_eq!(arena.get(*h), Some(&i));
    }
}

#[test]
fn handle_round_trips_through_its_index() {
    assert_eq!(Value::new(5).index(), 5);
    assert_eq!(Block::new(0), Block(0));
    assert_eq!(Func::new(9).index(), 9);
}

#[test]
fn a_cloned_arena_has_the_same_items() {
    let mut arena: EntityVec<Value, u32> = EntityVec::new();
    arena.push(4);
    arena.push(5);
    let copy = arena.clone();
    assert_eq!(copy, arena);
    arena.push(6);
    assert_eq!(copy.len(), 2);
}
