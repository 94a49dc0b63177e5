use std::collections::HashMap;
use waffle::builder::{make_memcpy, make_memcpy_body, sop_i32};
use waffle::entity::{Block, Func, Memory, Signature, Value};
use waffle::ir::{
    BlockTarget, FuncDecl, FunctionBody, MemoryData, Module, SignatureData, Terminator, Type,
    ValueDef,
};
use waffle::ops::{MemoryArg, Operator};
use waffle::pool::ListRef;

/// What running a body did: how often a block was entered, and whether the
/// body returned before the step limit.
struct Run {
    entered: usize,
    returned: bool,
}

fn jump(f: &FunctionBody, env: &mut HashMap<Value, u32>, target: &BlockTarget) -> Block {
    let args: Vec<u32> = target.args.iter().map(|v| env[v]).collect();
    let params = &f.block(target.block).params;
    assert_eq!(params.len(), args.len());
    for (p, a) in params.iter().zip(args) {
        env.insert(p.1, a);
    }
    target.block
}

/// Runs `f` on `mems` with `args` for the parameters of the entry, for at
/// most `limit` block entries. Arithmetic wraps; a select with a selector
/// outside its targets takes the default.
fn run(f: &FunctionBody, args: &[u32], mems: &mut Vec<Vec<u8>>, limit: usize) -> Run {
    let mut env: HashMap<Value, u32> = HashMap::new();
    let mut block = f.entry;
    for (p, a) in f.block(block).params.iter().zip(args) {
        env.insert(p.1, *a);
    }
    let mut entered = 0;
    while entered < limit {
        entered += 1;
        let def = f.block(block);
        for inst in def.insts.iter() {
            let (op, ops) = match f.def(*inst) {
                ValueDef::Operator(op, args, _) => (op, f.arg_pool.to_vec(args)),
                other => panic!("cannot run {:?}", other),
            };
            let x: Vec<u32> = ops.iter().map(|v| env[v]).collect();
            let result = match op {
                Operator::I32Const { value } => value,
                Operator::I32Add => x[0].wrapping_add(x[1]),
                Operator::I32Sub => x[0].wrapping_sub(x[1]),
                Operator::I32Load8U { memory } => {
                    mems[memory.memory.0][x[0] as usize + memory.offset as usize] as u32
                }
                Operator::I32Store8 { memory } => {
                    mems[memory.memory.0][x[0] as usize + memory.offset as usize] = x[1] as u8;
                    0
                }
                other => panic!("cannot run {:?}", other),
            };
            env.insert(*inst, result);
        }
        block = match &def.terminator {
            Terminator::Br { target } => jump(f, &mut env, target),
            Terminator::CondBr { cond, if_true, if_false } => {
                if env[cond] != 0 {
                    jump(f, &mut env, if_true)
                } else {
                    jump(f, &mut env, if_false)
                }
            }
            Terminator::Select { value, targets, default } => {
                let at = env[value] as usize;
                if at < targets.len() {
                    jump(f, &mut env, &targets[at])
                } else {
                    jump(f, &mut env, default)
                }
            }
            Terminator::Return { .. } => return Run { entered, returned: true },
            other => panic!("cannot run {:?}", other),
        };
    }
    Run { entered, returned: false }
}

fn body_of(m: &Module, f: Func) -> &FunctionBody {
    match m.funcs.at(f) {
        FuncDecl::Body(_, _, body) => body,
        _ => panic!("no body"),
    }
}

fn numbered(len: usize, from: u8) -> Vec<u8> {
    (0..len).map(|i| from.wrapping_add(i as u8)).collect()
}

#[test]
fn sop_i32_appends_a_constant_and_the_operation() {
    let mut f = FunctionBody::default();
    let b = f.entry;
    let x = f.add_blockparam(b, Type::I32);
    let before = f.block(b).insts.len();
    let w = sop_i32(&mut f, b, x, 5, Operator::I32Add);
    let insts = f.block(b).insts.clone();
    assert_eq!(insts.len(), before + 2);
    let c = insts[0];
    assert_eq!(insts[1], w);
    assert_eq!(c, Value(1));
    assert_eq!(w, Value(2));
    match f.def(c) {
        ValueDef::Operator(op, args, tys) => {
            assert_eq!(op, Operator::I32Const { value: 5 });
            assert_eq!(args, ListRef::default());
            assert_eq!(f.type_pool.to_vec(tys), vec![Type::I32]);
        }
        other => panic!("{:?}", other),
    }
    match f.def(w) {
        ValueDef::Operator(op, args, tys) => {
            assert_eq!(op, Operator::I32Add);
            assert_eq!(f.arg_pool.to_vec(args), vec![x, c]);
            assert_eq!(f.type_pool.to_vec(tys), vec![Type::I32]);
        }
        other => panic!("{:?}", other),
    }
    assert_eq!(f.values.len(), 3);
    assert_eq!(f.block(b).terminator, Terminator::Unset);
}

#[test]
fn sop_i32_comes_after_what_the_block_had() {
    let mut f = FunctionBody::default();
    let other = f.add_block();
    let b = f.add_block();
    let x = f.add_blockparam(other, Type::I32);
    let first = f.add_value(ValueDef::Alias(x));
    f.append_to_block(b, first);
    let w = sop_i32(&mut f, b, x, 0xffff_ffff, Operator::I32Xor);
    assert_eq!(f.block(b).insts, vec![first, Value(2), w]);
    assert!(f.block(other).insts.is_empty());
    assert!(matches!(
        f.def(Value(2)),
        ValueDef::Operator(Operator::I32Const { value: 0xffff_ffff }, _, _)
    ));
    assert!(matches!(f.def(w), ValueDef::Operator(Operator::I32Xor, _, _)));
}

#[test]
fn the_copy_loop_has_the_expected_shape() {
    let mut f = FunctionBody::default();
    let b = f.entry;
    let k = make_memcpy_body(&mut f, b, Memory(0), Memory(1), false);
    assert_eq!(k, Block(1));
    assert_eq!(f.blocks.len(), 2);
    let (a, c, d) = (Value(0), Value(1), Value(2));
    assert_eq!(f.block(b).params, vec![(Type::I32, a), (Type::I32, c), (Type::I32, d)]);
    let insts = f.block(b).insts.clone();
    assert_eq!(insts, (3..11).map(Value).collect::<Vec<Value>>());
    let byte = |m: usize| MemoryArg { align: 1, offset: 0, memory: Memory(m) };
    let op_of = |v: Value| match f.def(v) {
        ValueDef::Operator(op, args, _) => (op, f.arg_pool.to_vec(args)),
        other => panic!("{:?}", other),
    };
    assert_eq!(op_of(insts[0]), (Operator::I32Load8U { memory: byte(0) }, vec![a]));
    assert_eq!(op_of(insts[1]), (Operator::I32Store8 { memory: byte(1) }, vec![c, insts[0]]));
    assert_eq!(op_of(insts[2]), (Operator::I32Const { value: 1 }, vec![]));
    assert_eq!(op_of(insts[3]), (Operator::I32Add, vec![a, insts[2]]));
    assert_eq!(op_of(insts[4]), (Operator::I32Const { value: 1 }, vec![]));
    assert_eq!(op_of(insts[5]), (Operator::I32Add, vec![c, insts[4]]));
    assert_eq!(op_of(insts[6]), (Operator::I32Const { value: 1 }, vec![]));
    assert_eq!(op_of(insts[7]), (Operator::I32Sub, vec![d, insts[6]]));
    // the select is keyed on the reduced length
    assert_eq!(
        f.block(b).terminator,
        Terminator::Select {
            value: insts[7],
            targets: vec![BlockTarget { block: k, args: vec![] }],
            default: BlockTarget { block: b, args: vec![insts[3], insts[5], insts[7]] },
        }
    );
    assert!(f.block(k).params.is_empty());
    assert!(f.block(k).insts.is_empty());
    assert_eq!(f.block(k).terminator, Terminator::Unset);
}

#[test]
fn the_swizzling_loop_loads_and_stores_both_ways() {
    let mut f = FunctionBody::default();
    let b = f.entry;
    let k = make_memcpy_body(&mut f, b, Memory(2), Memory(3), true);
    let (a, c, d) = (Value(0), Value(1), Value(2));
    let insts = f.block(b).insts.clone();
    assert_eq!(insts, (3..13).map(Value).collect::<Vec<Value>>());
    let byte = |m: usize| MemoryArg { align: 1, offset: 0, memory: Memory(m) };
    let op_of = |v: Value| match f.def(v) {
        ValueDef::Operator(op, args, _) => (op, f.arg_pool.to_vec(args)),
        other => panic!("{:?}", other),
    };
    assert_eq!(op_of(insts[0]), (Operator::I32Load8U { memory: byte(2) }, vec![a]));
    assert_eq!(op_of(insts[1]), (Operator::I32Load8U { memory: byte(3) }, vec![c]));
    assert_eq!(op_of(insts[2]), (Operator::I32Store8 { memory: byte(3) }, vec![c, insts[0]]));
    assert_eq!(op_of(insts[3]), (Operator::I32Store8 { memory: byte(2) }, vec![a, insts[1]]));
    assert_eq!(op_of(insts[5]), (Operator::I32Add, vec![a, insts[4]]));
    assert_eq!(op_of(insts[7]), (Operator::I32Add, vec![c, insts[6]]));
    assert_eq!(op_of(insts[9]), (Operator::I32Sub, vec![d, insts[8]]));
    assert_eq!(
        f.block(b).terminator,
        Terminator::Select {
            value: insts[9],
            targets: vec![BlockTarget { block: k, args: vec![] }],
            default: BlockTarget { block: b, args: vec![insts[5], insts[7], insts[9]] },
        }
    );
}

#[test]
fn the_copy_loop_can_be_built_in_a_block_that_has_content() {
    let mut f = FunctionBody::default();
    let b = f.add_block();
    let p = f.add_blockparam(b, Type::I64);
    let first = f.add_value(ValueDef::Alias(p));
    f.append_to_block(b, first);
    let k = make_memcpy_body(&mut f, b, Memory(0), Memory(0), false);
    assert_eq!(k, Block(2));
    assert_eq!(f.block(b).params.len(), 4);
    assert_eq!(f.block(b).params[0], (Type::I64, p));
    assert_eq!(f.def(Value(2)), ValueDef::BlockParam(b, 1, Type::I32));
    assert_eq!(f.def(Value(4)), ValueDef::BlockParam(b, 3, Type::I32));
    assert_eq!(f.block(b).insts.len(), 9);
    assert_eq!(f.block(b).insts[0], first);
    assert!(f.block(f.entry).insts.is_empty());
}

#[test]
fn make_memcpy_adds_a_function_and_its_signature() {
    let mut m = Module::empty();
    m.memories.push(MemoryData { initial_pages: 1, maximum_pages: None });
    m.signatures.push(SignatureData { params: vec![], returns: vec![Type::I64] });
    let f = make_memcpy(&mut m, Memory(0), Memory(0), false);
    assert_eq!(f, Func(0));
    assert_eq!(m.funcs.len(), 1);
    assert_eq!(m.signatures.len(), 2);
    assert_eq!(m.memories.len(), 1);
    assert_eq!(
        *m.signatures.at(Signature(1)),
        SignatureData { params: vec![Type::I32, Type::I32, Type::I32], returns: vec![] }
    );
    assert_eq!(m.signatures.at(Signature(0)).returns, vec![Type::I64]);
    match m.funcs.at(f) {
        FuncDecl::Body(sig, name, body) => {
            assert_eq!(*sig, Signature(1));
            assert_eq!(name, "memcpy_memory0_memory0_swizzle_false");
            assert_eq!(body.blocks.len(), 2);
            assert_eq!(body.entry, Block(0));
            assert_eq!(body.block(Block(1)).terminator, Terminator::Return { values: vec![] });
            assert_eq!(body.block(Block(0)).params.len(), 3);
        }
        _ => panic!("no body"),
    }
    assert_eq!(m.funcs.at(f).sig(), Signature(1));
    assert!(m.funcs.at(f).body().is_some());
    let g = make_memcpy(&mut m, Memory(0), Memory(0), true);
    assert_eq!(g, Func(1));
    assert_eq!(m.signatures.len(), 3);
}

#[test]
fn the_name_holds_both_memories_in_decimal() {
    let mut m = Module::empty();
    let name_of = |m: &Module, f: Func| match m.funcs.at(f) {
        FuncDecl::Body(_, name, _) => name.clone(),
        _ => panic!("no body"),
    };
    let f = make_memcpy(&mut m, Memory(12), Memory(305), true);
    assert_eq!(name_of(&m, f), "memcpy_memory12_memory305_swizzle_true");
    let f = make_memcpy(&mut m, Memory(9), Memory(10), false);
    assert_eq!(name_of(&m, f), "memcpy_memory9_memory10_swizzle_false");
    let f = make_memcpy(&mut m, Memory(1000000), Memory(0), false);
    assert_eq!(name_of(&m, f), "memcpy_memory1000000_memory0_swizzle_false");
    let f = make_memcpy(&mut m, Memory(usize::MAX), Memory(7), true);
    assert_eq!(name_of(&m, f), format!("memcpy_memory{}_memory7_swizzle_true", usize::MAX));
}

#[test]
fn memcpy_copies_within_one_memory() {
    let mut m = Module::empty();
    let f = make_memcpy(&mut m, Memory(0), Memory(0), false);
    let body = body_of(&m, f);
    for n in [1u32, 2, 5, 17] {
        let d = 32u32;
        let initial = numbered(64, 100);
        let mut mems = vec![initial.clone()];
        let r = run(body, &[0, d, n], &mut mems, 1000);
        assert!(r.returned);
        // one pass for each byte, then the exit block
        assert_eq!(r.entered, n as usize + 1);
        let (n, d) = (n as usize, d as usize);
        assert_eq!(&mems[0][d..d + n], &initial[0..n]);
        // nothing before the destination range and nothing past it is written
        assert_eq!(&mems[0][0..d], &initial[0..d]);
        assert_eq!(&mems[0][d + n..], &initial[d + n..]);
    }
}

#[test]
fn memcpy_with_length_zero_wraps_and_comes_back() {
    let mut m = Module::empty();
    let f = make_memcpy(&mut m, Memory(0), Memory(0), false);
    let initial = numbered(16, 1);
    // the reduced length is the largest 32-bit number, which is no index of
    // the one indexed destination: the default is taken, back into the loop
    for limit in [1usize, 2, 3, 5] {
        let mut mems = vec![initial.clone()];
        let r = run(body_of(&m, f), &[0, 8, 0], &mut mems, limit);
        assert!(!r.returned);
        assert_eq!(r.entered, limit);
        // each pass so far has copied a byte
        assert_eq!(&mems[0][8..8 + limit], &initial[0..limit]);
        assert_eq!(&mems[0][0..8], &initial[0..8]);
        assert_eq!(&mems[0][8 + limit..], &initial[8 + limit..]);
    }
}

#[test]
fn memcpy_with_length_one_makes_one_pass() {
    let mut m = Module::empty();
    let f = make_memcpy(&mut m, Memory(0), Memory(1), false);
    let src = numbered(8, 50);
    let mut mems = vec![src.clone(), vec![0; 8]];
    let r = run(body_of(&m, f), &[0, 4, 1], &mut mems, 1000);
    assert!(r.returned);
    // the loop block once, then the exit block
    assert_eq!(r.entered, 2);
    assert_eq!(mems[1][4], src[0]);
    assert_eq!(mems[0], src);
    assert_eq!(&mems[1][0..4], &[0, 0, 0, 0]);
    assert_eq!(&mems[1][5..], &[0, 0, 0]);
}

#[test]
fn memcpy_with_length_two_comes_back_once() {
    let mut m = Module::empty();
    let f = make_memcpy(&mut m, Memory(0), Memory(1), false);
    let src = numbered(8, 50);
    let mut mems = vec![src.clone(), vec![0; 8]];
    let r = run(body_of(&m, f), &[2, 0, 2], &mut mems, 1000);
    assert!(r.returned);
    assert_eq!(r.entered, 3);
    assert_eq!(&mems[1][0..2], &src[2..4]);
    assert_eq!(&mems[1][2..], &[0, 0, 0, 0, 0, 0]);
}

#[test]
fn memcpy_between_two_memories() {
    let mut m = Module::empty();
    let f = make_memcpy(&mut m, Memory(1), Memory(0), false);
    let src = numbered(40, 7);
    let mut mems = vec![vec![0xee; 40], src.clone()];
    let r = run(body_of(&m, f), &[3, 10, 20], &mut mems, 1000);
    assert!(r.returned);
    assert_eq!(r.entered, 21);
    assert_eq!(&mems[0][10..30], &src[3..23]);
    assert_eq!(&mems[0][0..10], &[0xee; 10]);
    assert_eq!(&mems[0][30..], &[0xee; 10]);
    assert_eq!(mems[1], src);
}

#[test]
fn swizzle_exchanges_the_two_ranges() {
    let mut m = Module::empty();
    let f = make_memcpy(&mut m, Memory(0), Memory(0), true);
    let body = body_of(&m, f);
    for n in [1usize, 4, 9] {
        let d = 20usize;
        let initial = numbered(48, 3);
        let mut mems = vec![initial.clone()];
        let r = run(body, &[0, d as u32, n as u32], &mut mems, 1000);
        assert!(r.returned);
        assert_eq!(r.entered, n + 1);
        assert_eq!(&mems[0][d..d + n], &initial[0..n]);
        assert_eq!(&mems[0][0..n], &initial[d..d + n]);
        // nothing outside the two ranges is written
        assert_eq!(&mems[0][n..d], &initial[n..d]);
        assert_eq!(&mems[0][d + n..], &initial[d + n..]);
    }
}

#[test]
fn swizzle_between_two_memories() {
    let mut m = Module::empty();
    let f = make_memcpy(&mut m, Memory(0), Memory(1), true);
    let a = numbered(16, 10);
    let b = numbered(16, 200);
    let mut mems = vec![a.clone(), b.clone()];
    let n = 6;
    let r = run(body_of(&m, f), &[0, 5, n as u32], &mut mems, 1000);
    assert!(r.returned);
    assert_eq!(&mems[1][5..5 + n], &a[0..n]);
    assert_eq!(&mems[0][0..n], &b[5..5 + n]);
    assert_eq!(&mems[1][0..5], &b[0..5]);
    assert_eq!(&mems[1][5 + n..], &b[5 + n..]);
    assert_eq!(&mems[0][n..], &a[n..]);
}

#[test]
fn swizzle_with_length_zero_wraps_and_comes_back() {
    let mut m = Module::empty();
    let f = make_memcpy(&mut m, Memory(0), Memory(1), true);
    let a = numbered(8, 10);
    let b = numbered(8, 200);
    let mut mems = vec![a.clone(), b.clone()];
    let r = run(body_of(&m, f), &[0, 0, 0], &mut mems, 2);
    assert!(!r.returned);
    assert_eq!(r.entered, 2);
    assert_eq!(&mems[0][0..2], &b[0..2]);
    assert_eq!(&mems[1][0..2], &a[0..2]);
}

#[test]
fn in_the_copy_function_every_operand_is_defined_in_its_block() {
    let mut m = Module::empty();
    for swizzle in [false, true] {
        let f = make_memcpy(&mut m, Memory(0), Memory(1), swizzle);
        let body = body_of(&m, f);
        for (b, def) in body.blocks.entries() {
            let scope = waffle::cloning::local_block_cloning::values(body, b);
            for inst in def.insts.iter() {
                if let ValueDef::Operator(_, args, _) = body.def(*inst) {
                    for o in body.arg_pool.to_vec(args) {
                        assert!(scope.contains(o));
                    }
                }
            }
            if let Terminator::Select { value, default, .. } = &def.terminator {
                assert!(scope.contains(*value));
                for o in default.args.iter() {
                    assert!(scope.contains(*o));
                }
            }
        }
    }
}
