use waffle::builder::make_memcpy_body;
use waffle::cloning::local_block_cloning::{
    clone_block, clone_value, locals, tweak_target, tweak_terminator, tweak_value, values,
};
use waffle::entity::{Block, Memory, Value};
use waffle::ir::{BlockTarget, FunctionBody, Terminator, Type, ValueDef};
use waffle::ops::Operator;
use waffle::pool::ListRef;

fn plus_hundred(v: Value) -> Value {
    Value(v.0 + 100)
}

fn operands(f: &FunctionBody, v: Value) -> Vec<Value> {
    match f.def(v) {
        ValueDef::Operator(_, args, _) => f.arg_pool.to_vec(args),
        ValueDef::Trace(_, args) => f.arg_pool.to_vec(args),
        ValueDef::PickOutput(source, _, _) => vec![source],
        ValueDef::Alias(target) => vec![target],
        _ => vec![],
    }
}

/// entry(outer) { a = const; br body(a) }
/// body(q0, q1) { x = add(q0, a); y = add(x, q1); t = trace(x, y, outer);
///                select y [exit(x)] default body(y, x) }
/// exit(r0) { return r0 }
fn sample() -> (FunctionBody, Block, Block) {
    let mut f = FunctionBody::default();
    let entry = f.entry;
    let body = f.add_block();
    let exit = f.add_block();
    let outer = f.add_blockparam(entry, Type::I32);
    let ty = f.single_type_list(Type::I32);
    let a = f.add_value(ValueDef::Operator(Operator::I32Const { value: 1 }, ListRef::default(), ty));
    f.append_to_block(entry, a);
    f.set_terminator(entry, Terminator::Br { target: BlockTarget { block: body, args: vec![a, outer] } });
    let q0 = f.add_blockparam(body, Type::I32);
    let q1 = f.add_blockparam(body, Type::I32);
    let l = f.arg_pool.double(q0, a);
    let x = f.add_value(ValueDef::Operator(Operator::I32Add, l, ty));
    f.append_to_block(body, x);
    let l = f.arg_pool.double(x, q1);
    let y = f.add_value(ValueDef::Operator(Operator::I32Add, l, ty));
    f.append_to_block(body, y);
    let l = f.arg_pool.from_slice(&[x, y, outer]);
    let t = f.add_value(ValueDef::Trace(4, l));
    f.append_to_block(body, t);
    f.set_terminator(
        body,
        Terminator::Select {
            value: y,
            targets: vec![BlockTarget { block: exit, args: vec![x] }],
            default: BlockTarget { block: body, args: vec![y, x] },
        },
    );
    let r0 = f.add_blockparam(exit, Type::I32);
    f.set_terminator(exit, Terminator::Return { values: vec![r0] });
    (f, body, exit)
}

#[test]
fn locals_are_the_parameters_and_the_instructions() {
    let (f, body, exit) = sample();
    let l = locals(&f, body);
    // q0 = v2, q1 = v3, x = v4, y = v5, t = v6
    assert_eq!(l.len(), 5);
    for v in 2..=6 {
        assert!(l.contains(Value(v)));
    }
    assert!(!l.contains(Value(0)));
    assert!(!l.contains(Value(1)));
    assert!(!l.contains(Value(7)));
    let l = locals(&f, exit);
    assert_eq!(l.len(), 1);
    assert!(l.contains(Value(7)));
    let l = locals(&f, f.entry);
    assert_eq!(l.len(), 2);
    assert!(l.contains(Value(0)) && l.contains(Value(1)));
}

#[test]
fn the_members_of_locals_and_values_can_be_walked() {
    let (f, body, exit) = sample();
    assert_eq!(
        locals(&f, body).to_vec(),
        vec![Value(2), Value(3), Value(4), Value(5), Value(6)]
    );
    assert_eq!(locals(&f, exit).to_vec(), vec![Value(7)]);
    assert_eq!(values(&f, f.entry).to_vec(), vec![Value(0), Value(1)]);
    assert_eq!(values(&f, exit).to_vec(), (0..8).map(Value).collect::<Vec<Value>>());
}

#[test]
fn locals_of_an_empty_block_are_empty() {
    let mut f = FunctionBody::default();
    let b = f.add_block();
    assert_eq!(locals(&f, b).len(), 0);
    assert!(!locals(&f, b).contains(Value(0)));
}

#[test]
fn values_in_scope_come_from_the_dominators() {
    let (f, body, exit) = sample();
    // entry dominates everything; body dominates exit
    let at_entry = values(&f, f.entry);
    assert_eq!(at_entry.len(), 2);
    let at_body = values(&f, body);
    assert_eq!(at_body.len(), 7);
    for v in 0..=6 {
        assert!(at_body.contains(Value(v)));
    }
    assert!(!at_body.contains(Value(7)));
    let at_exit = values(&f, exit);
    assert_eq!(at_exit.len(), 8);
    for v in 0..=7 {
        assert!(at_exit.contains(Value(v)));
    }
}

#[test]
fn values_at_a_join_leave_out_the_branches() {
    // entry -> {left, right} -> join
    let mut f = FunctionBody::default();
    let entry = f.entry;
    let left = f.add_block();
    let right = f.add_block();
    let join = f.add_block();
    let c = f.add_blockparam(entry, Type::I32);
    let a = f.add_value(ValueDef::Alias(c));
    f.append_to_block(left, a);
    let b = f.add_value(ValueDef::Alias(c));
    f.append_to_block(right, b);
    let j = f.add_blockparam(join, Type::I32);
    f.set_terminator(
        entry,
        Terminator::CondBr {
            cond: c,
            if_true: BlockTarget { block: left, args: vec![] },
            if_false: BlockTarget { block: right, args: vec![] },
        },
    );
    f.set_terminator(left, Terminator::Br { target: BlockTarget { block: join, args: vec![a] } });
    f.set_terminator(right, Terminator::Br { target: BlockTarget { block: join, args: vec![b] } });
    f.set_terminator(join, Terminator::Return { values: vec![j] });
    let s = values(&f, join);
    assert_eq!(s.len(), 2);
    assert!(s.contains(c));
    assert!(s.contains(j));
    assert!(!s.contains(a));
    assert!(!s.contains(b));
    let s = values(&f, left);
    assert_eq!(s.len(), 2);
    assert!(s.contains(c) && s.contains(a));
}

#[test]
fn values_of_an_unreachable_block_are_its_locals() {
    let (mut f, _, _) = sample();
    let lost = f.add_block();
    let p = f.add_blockparam(lost, Type::I32);
    let s = values(&f, lost);
    assert_eq!(s.len(), 1);
    assert!(s.contains(p));
}

#[test]
fn every_use_of_the_sample_is_in_scope() {
    let (f, _, _) = sample();
    for (b, def) in f.blocks.entries() {
        let scope = values(&f, b);
        for inst in def.insts.iter() {
            for o in operands(&f, *inst) {
                assert!(scope.contains(o), "{:?} in {:?}", o, b);
            }
        }
    }
}

#[test]
fn tweak_target_rewrites_every_argument() {
    let mut f = FunctionBody::default();
    let before = f.clone();
    let mut t = BlockTarget { block: Block(3), args: vec![Value(1), Value(2), Value(1)] };
    tweak_target(&mut f, &mut t, plus_hundred);
    assert_eq!(t, BlockTarget { block: Block(3), args: vec![Value(101), Value(102), Value(101)] });
    assert_eq!(f, before);
}

#[test]
fn tweak_terminator_visits_every_value_slot() {
    let mut f = FunctionBody::default();
    let t = |b: usize, args: Vec<usize>| BlockTarget {
        block: Block(b),
        args: args.into_iter().map(Value).collect(),
    };
    let mut x = Terminator::Br { target: t(1, vec![1, 2]) };
    tweak_terminator(&mut f, &mut x, plus_hundred);
    assert_eq!(x, Terminator::Br { target: t(1, vec![101, 102]) });

    let mut x = Terminator::CondBr { cond: Value(5), if_true: t(1, vec![1]), if_false: t(2, vec![2, 3]) };
    tweak_terminator(&mut f, &mut x, plus_hundred);
    assert_eq!(
        x,
        Terminator::CondBr { cond: Value(105), if_true: t(1, vec![101]), if_false: t(2, vec![102, 103]) }
    );

    let mut x = Terminator::Select {
        value: Value(9),
        targets: vec![t(1, vec![1]), t(2, vec![]), t(1, vec![4, 5])],
        default: t(0, vec![6]),
    };
    tweak_terminator(&mut f, &mut x, plus_hundred);
    assert_eq!(
        x,
        Terminator::Select {
            value: Value(109),
            targets: vec![t(1, vec![101]), t(2, vec![]), t(1, vec![104, 105])],
            default: t(0, vec![106]),
        }
    );

    let mut x = Terminator::Return { values: vec![Value(7), Value(8)] };
    tweak_terminator(&mut f, &mut x, plus_hundred);
    assert_eq!(x, Terminator::Return { values: vec![Value(107), Value(108)] });

    let mut x = Terminator::Unreachable;
    tweak_terminator(&mut f, &mut x, plus_hundred);
    assert_eq!(x, Terminator::Unreachable);

    let mut x = Terminator::Unset;
    tweak_terminator(&mut f, &mut x, plus_hundred);
    assert_eq!(x, Terminator::Unset);
    assert_eq!(f, FunctionBody::default());
}

#[test]
fn tweak_value_rebinds_a_block_parameter() {
    let mut f = FunctionBody::default();
    let mut x = ValueDef::BlockParam(Block(1), 2, Type::I64);
    tweak_value(&mut f, &mut x, plus_hundred, Block(9));
    assert_eq!(x, ValueDef::BlockParam(Block(9), 2, Type::I64));
    assert_eq!(f, FunctionBody::default());
}

#[test]
fn tweak_value_rewrites_a_private_copy_of_the_operands() {
    let mut f = FunctionBody::default();
    let shared = f.arg_pool.double(Value(1), Value(2));
    let tys = f.single_type_list(Type::I32);
    let mut x = ValueDef::Operator(Operator::I32Mul, shared, tys);
    tweak_value(&mut f, &mut x, plus_hundred, Block(0));
    let fresh = ListRef { start: 2, len: 2 };
    assert_eq!(x, ValueDef::Operator(Operator::I32Mul, fresh, tys));
    assert_eq!(f.arg_pool.to_vec(fresh), vec![Value(101), Value(102)]);
    assert_eq!(f.arg_pool.to_vec(shared), vec![Value(1), Value(2)]);
    assert_eq!(f.type_pool.storage, vec![Type::I32]);

    let mut x = ValueDef::Trace(3, shared);
    tweak_value(&mut f, &mut x, |v| Value(v.0 * 2), Block(0));
    let fresh = ListRef { start: 4, len: 2 };
    assert_eq!(x, ValueDef::Trace(3, fresh));
    assert_eq!(f.arg_pool.to_vec(fresh), vec![Value(2), Value(4)]);
    assert_eq!(f.arg_pool.to_vec(shared), vec![Value(1), Value(2)]);
}

#[test]
fn tweak_value_rewrites_the_source_of_a_projection_and_of_an_alias() {
    let mut f = FunctionBody::default();
    let mut x = ValueDef::PickOutput(Value(4), 1, Type::F32);
    tweak_value(&mut f, &mut x, plus_hundred, Block(0));
    assert_eq!(x, ValueDef::PickOutput(Value(104), 1, Type::F32));
    let mut x = ValueDef::Alias(Value(6));
    tweak_value(&mut f, &mut x, plus_hundred, Block(0));
    assert_eq!(x, ValueDef::Alias(Value(106)));
    assert_eq!(f, FunctionBody::default());
}

#[test]
fn clone_value_adds_a_definition_and_keeps_the_source() {
    let (mut f, body, _) = sample();
    let before = f.clone();
    let x = f.block(body).insts[0];
    let n = clone_value(&mut f, plus_hundred, x, Block(7));
    assert_eq!(n, Value(before.values.len()));
    assert_eq!(f.values.len(), before.values.len() + 1);
    assert_eq!(f.def(x), before.def(x));
    assert_eq!(operands(&f, x), operands(&before, x));
    assert_eq!(operands(&f, n), vec![Value(102), Value(101)]);
    assert!(matches!(f.def(n), ValueDef::Operator(Operator::I32Add, _, _)));
    assert_eq!(f.blocks, before.blocks);
}

#[test]
fn clone_block_makes_fresh_values_in_a_new_block() {
    let (mut f, body, _) = sample();
    let before = f.clone();
    let r = clone_block(&mut f, body);
    assert_eq!(r, Block(before.blocks.len()));
    assert_eq!(f.blocks.len(), before.blocks.len() + 1);
    let old_locals = locals(&before, body);
    let clone = f.block(r).clone();
    assert_eq!(clone.params, vec![(Type::I32, Value(8)), (Type::I32, Value(9))]);
    assert_eq!(clone.insts, vec![Value(10), Value(11), Value(12)]);
    for v in clone.insts.iter().chain(clone.params.iter().map(|p| &p.1)) {
        assert!(!old_locals.contains(*v));
        assert!(v.0 >= before.values.len());
    }
    assert_eq!(f.def(Value(8)), ValueDef::BlockParam(r, 0, Type::I32));
    assert_eq!(f.def(Value(9)), ValueDef::BlockParam(r, 1, Type::I32));
}

#[test]
fn clone_block_renames_locals_and_keeps_what_comes_from_outside() {
    let (mut f, body, exit) = sample();
    let r = clone_block(&mut f, body);
    // x' = add(q0', a): q0 is local and renamed, a comes from the entry
    assert_eq!(operands(&f, Value(10)), vec![Value(8), Value(1)]);
    // y' = add(x', q1')
    assert_eq!(operands(&f, Value(11)), vec![Value(10), Value(9)]);
    // t' = trace(x', y', outer)
    assert_eq!(operands(&f, Value(12)), vec![Value(10), Value(11), Value(0)]);
    assert!(matches!(f.def(Value(10)), ValueDef::Operator(Operator::I32Add, _, _)));
    assert!(matches!(f.def(Value(12)), ValueDef::Trace(4, _)));
    // the terminator goes where that of the cloned block goes, with renamed values
    assert_eq!(
        f.block(r).terminator,
        Terminator::Select {
            value: Value(11),
            targets: vec![BlockTarget { block: exit, args: vec![Value(10)] }],
            default: BlockTarget { block: body, args: vec![Value(11), Value(10)] },
        }
    );
}

#[test]
fn clone_block_leaves_the_body_as_it_was() {
    let (mut f, body, _) = sample();
    let before = f.clone();
    let r = clone_block(&mut f, body);
    for (b, def) in before.blocks.entries() {
        assert_eq!(f.block(b), def);
    }
    for (v, def) in before.values.entries() {
        assert_eq!(f.def(v), *def);
        assert_eq!(operands(&f, v), operands(&before, v));
    }
    assert_eq!(&f.arg_pool.storage[..before.arg_pool.storage.len()], &before.arg_pool.storage[..]);
    assert_eq!(f.type_pool, before.type_pool);
    assert_eq!(f.entry, before.entry);
    assert_eq!(locals(&f, body), locals(&before, body));
    assert_ne!(r, body);
}

#[test]
fn a_list_that_two_instructions_share_is_private_in_the_clone() {
    let mut f = FunctionBody::default();
    let b = f.add_block();
    let p = f.add_blockparam(b, Type::I32);
    let ty = f.single_type_list(Type::I32);
    let shared = f.arg_pool.double(p, p);
    let x = f.add_value(ValueDef::Operator(Operator::I32Add, shared, ty));
    f.append_to_block(b, x);
    let y = f.add_value(ValueDef::Operator(Operator::I32Mul, shared, ty));
    f.append_to_block(b, y);
    f.set_terminator(b, Terminator::Return { values: vec![x, y] });

    let r = clone_block(&mut f, b);
    let x2 = f.block(r).insts[0];
    let y2 = f.block(r).insts[1];
    let list_of = |f: &FunctionBody, v: Value| match f.def(v) {
        ValueDef::Operator(_, args, _) => args,
        _ => panic!("not an operator"),
    };
    let (lx, ly) = (list_of(&f, x2), list_of(&f, y2));
    assert_ne!(lx, shared);
    assert_ne!(ly, shared);
    assert_ne!(lx, ly);
    assert!(lx.start + lx.len <= ly.start || ly.start + ly.len <= lx.start);
    assert!(lx.start >= shared.start + shared.len);
    let bound = f.block(r).params[0].1;
    assert_eq!(f.arg_pool.to_vec(lx), vec![bound, bound]);
    assert_eq!(f.arg_pool.to_vec(ly), vec![bound, bound]);
    // editing the clone's lists is seen by nobody else
    f.arg_pool.set(lx, 0, Value(500));
    f.arg_pool.set(lx, 1, Value(501));
    assert_eq!(f.arg_pool.to_vec(shared), vec![p, p]);
    assert_eq!(f.arg_pool.to_vec(ly), vec![bound, bound]);
    assert_eq!(operands(&f, x), vec![p, p]);
    assert_eq!(operands(&f, y), vec![p, p]);
    assert_eq!(f.block(r).terminator, Terminator::Return { values: vec![x2, y2] });
}

#[test]
fn clone_block_of_an_empty_block() {
    let mut f = FunctionBody::default();
    let e = f.entry;
    let r = clone_block(&mut f, e);
    assert_eq!(r, Block(1));
    assert!(f.block(r).params.is_empty());
    assert!(f.block(r).insts.is_empty());
    assert_eq!(f.block(r).terminator, Terminator::Unset);
    assert_eq!(f.values.len(), 0);
}

#[test]
fn clone_block_copies_projections_and_aliases() {
    let mut f = FunctionBody::default();
    let b = f.entry;
    let p = f.add_blockparam(b, Type::I64);
    let a = f.add_value(ValueDef::Alias(p));
    f.append_to_block(b, a);
    let o = f.add_value(ValueDef::PickOutput(a, 1, Type::I64));
    f.append_to_block(b, o);
    let far = f.add_value(ValueDef::Alias(Value(77)));
    f.append_to_block(b, far);
    f.set_terminator(b, Terminator::Unreachable);
    let r = clone_block(&mut f, b);
    let insts = f.block(r).insts.clone();
    let bound = f.block(r).params[0].1;
    assert_eq!(f.def(insts[0]), ValueDef::Alias(bound));
    assert_eq!(f.def(insts[1]), ValueDef::PickOutput(insts[0], 1, Type::I64));
    assert_eq!(f.def(insts[2]), ValueDef::Alias(Value(77)));
    assert_eq!(f.block(r).terminator, Terminator::Unreachable);
}

#[test]
fn an_operand_that_is_defined_later_in_the_block_is_not_renamed() {
    // x reads y, which comes after it: the renaming has no entry for y yet
    let mut f = FunctionBody::default();
    let b = f.entry;
    let x = f.add_value(ValueDef::Alias(Value(1)));
    let y = f.add_value(ValueDef::Alias(x));
    f.append_to_block(b, x);
    f.append_to_block(b, y);
    let r = clone_block(&mut f, b);
    let insts = f.block(r).insts.clone();
    assert_eq!(f.def(insts[0]), ValueDef::Alias(y));
    assert_eq!(f.def(insts[1]), ValueDef::Alias(insts[0]));
}

#[test]
fn handles_are_not_reused_over_many_clones() {
    let (mut f, body, _) = sample();
    let mut blocks: Vec<Block> = f.blocks.entries().iter().map(|e| e.0).collect();
    let mut vals: Vec<Value> = f.values.entries().iter().map(|e| e.0).collect();
    let mut b = body;
    for _ in 0..25 {
        let r = clone_block(&mut f, b);
        assert!(!blocks.contains(&r));
        blocks.push(r);
        let def = f.block(r).clone();
        for v in def.params.iter().map(|p| p.1).chain(def.insts.iter().copied()) {
            assert!(!vals.contains(&v));
            vals.push(v);
        }
        let n = f.add_value(ValueDef::Alias(Value(0)));
        assert!(!vals.contains(&n));
        vals.push(n);
        let k = f.add_block();
        assert!(!blocks.contains(&k));
        blocks.push(k);
        b = r;
    }
    assert_eq!(blocks.len(), f.blocks.len());
    assert_eq!(vals.len(), f.values.len());
}

#[test]
fn a_clone_of_the_copy_loop_is_a_copy_loop_for_new_values() {
    let mut f = FunctionBody::default();
    let e = f.entry;
    let k = make_memcpy_body(&mut f, e, Memory(0), Memory(1), true);
    let before = f.clone();
    let r = clone_block(&mut f, e);
    let base = before.values.len();
    let old = before.block(e).clone();
    let new = f.block(r).clone();
    assert_eq!(new.params.len(), 3);
    assert_eq!(new.insts.len(), old.insts.len());
    let counterpart = |v: Value| {
        if let Some(i) = old.params.iter().position(|p| p.1 == v) {
            Value(base + i)
        } else if let Some(i) = old.insts.iter().position(|x| *x == v) {
            Value(base + 3 + i)
        } else {
            v
        }
    };
    for (i, v) in old.insts.iter().enumerate() {
        let expected: Vec<Value> = operands(&before, *v).into_iter().map(counterpart).collect();
        assert_eq!(operands(&f, new.insts[i]), expected);
    }
    match (&old.terminator, &new.terminator) {
        (
            Terminator::Select { value, targets, default },
            Terminator::Select { value: value2, targets: targets2, default: default2 },
        ) => {
            assert_eq!(*value2, counterpart(*value));
            assert_eq!(targets2.len(), 1);
            assert_eq!(targets2[0].block, k);
            assert_eq!(targets[0].block, k);
            assert_eq!(default2.block, e);
            let expected: Vec<Value> = default.args.iter().map(|v| counterpart(*v)).collect();
            assert_eq!(default2.args, expected);
        }
        _ => panic!("the copy loop ends in a select"),
    }
}
