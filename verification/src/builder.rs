//! Helpers that synthesize code: an operation on a value and a constant, and
//! a whole function that copies bytes from one memory to another.

use vstd::prelude::*;
use crate::cfg::cfg_of;
use crate::cloning::local_block_cloning::{in_scope, uses_in_scope};
use crate::entity::{Block, Func, Memory, Value};
use crate::ir::{
    BlockTarget, BlockTargetView, BlockView, FuncDecl, FunctionBody, FunctionBodyView, Module,
    SignatureData, Terminator, TerminatorView, Type, ValueDef,
};
use crate::ops::{MemoryArg, Operator};
use crate::pool::{list_in, list_items, ListRef};

verus! {

/// The body `f` after the constant `y` and the operation `o` on `x` and that
/// constant have been appended to block `b`.
///
/// Two values are new: the constant, then the result of `o`. Both are
/// instructions of `b`, in that order, after those that `b` had. The operand
/// list `[x, constant]` is new at the end of the argument pool, and the
/// result-type list `[I32]`, which both share, at the end of the type pool.
pub open spec fn with_sop_i32(
    f: FunctionBodyView,
    b: Block,
    x: Value,
    y: u32,
    o: Operator,
) -> FunctionBodyView {
    let constant = Value(f.values.len() as usize);
    let result = Value((f.values.len() + 1) as usize);
    let tys = ListRef { start: f.type_pool.len() as usize, len: 1 };
    let args = ListRef { start: f.arg_pool.len() as usize, len: 2 };
    FunctionBodyView {
        blocks: f.blocks.update(
            b.0 as int,
            BlockView { insts: f.block(b).insts.push(constant).push(result), ..f.block(b) },
        ),
        values: f.values.push(
            ValueDef::Operator(Operator::I32Const { value: y }, ListRef { start: 0, len: 0 }, tys),
        ).push(ValueDef::Operator(o, args, tys)),
        arg_pool: f.arg_pool.push(x).push(constant),
        type_pool: f.type_pool.push(Type::I32),
        entry: f.entry,
    }
}

/// Appends to block `b` the constant `y` and then the operation `o` applied
/// to `x` and that constant, and returns the result of `o`.
pub fn sop_i32(f: &mut FunctionBody, b: Block, x: Value, y: u32, o: Operator) -> (w: Value)
    requires
        old(f)@.has_block(b),
    ensures
        final(f)@ == with_sop_i32(old(f)@, b, x, y, o),
        final(f)@.grows_from(old(f)@),
        old(f)@.well_formed() && old(f)@.has_value(x) ==> final(f)@.well_formed(),
        w.0 == old(f)@.values.len() + 1,
        old(f)@.arg_pool.len() + 2 <= usize::MAX,
        old(f)@.type_pool.len() + 1 <= usize::MAX,
        final(f)@.block(b).insts == old(f)@.block(b).insts.push(Value((w.0 - 1) as usize)).push(w),
        final(f)@.def(w) matches ValueDef::Operator(op, args, tys) && op == o && final(f)@.operands(w)
            == seq![x, Value((w.0 - 1) as usize)] && list_items(
            final(f)@.type_pool,
            tys,
        ) == seq![Type::I32],
{
    let t = f.single_type_list(Type::I32);
    let vi = f.add_value(ValueDef::Operator(Operator::I32Const { value: y }, ListRef::default(), t));
    f.append_to_block(b, vi);
    let v = f.arg_pool.double(x, vi);
    let w = f.add_value(ValueDef::Operator(o, v, t));
    f.append_to_block(b, w);
    proof {
        assert(f.arg_pool.storage.len() == f@.arg_pool.len());
        assert(f.type_pool.storage.len() == f@.type_pool.len());
        let g = with_sop_i32(old(f)@, b, x, y, o);
        assert(f@.blocks =~= g.blocks);
        assert(f@.values =~= g.values);
        assert(list_items(f@.arg_pool, v) =~= seq![x, vi]);
        assert(list_items(f@.type_pool, t) =~= seq![Type::I32]);
        if old(f)@.well_formed() && old(f)@.has_value(x) {
            assert(old(f)@.block_ok(old(f)@.block(b)));
            assert(list_items(f@.arg_pool, ListRef { start: 0, len: 0 }) =~= Seq::empty());
            f@.lemma_well_formed_after_growth(old(f)@);
        }
    }
    w
}

/// The immediate of a one-byte access to `memory`: offset zero, alignment
/// exponent one.
pub open spec fn byte_access(memory: Memory) -> MemoryArg {
    MemoryArg { align: 1, offset: 0, memory }
}

/// The definitions that the copy loop adds to a body that has `base` values,
/// `pool` argument-pool items and `types` type-pool items, for a block `b`
/// that has `np` parameters. In order:
/// - the three parameters of `b`: source pointer, destination pointer and
///   remaining length;
/// - the load of the source byte and, when swizzling, of the destination
///   byte;
/// - the store of the source byte to the destination and, when swizzling,
///   of the destination byte to the source;
/// - three times a constant one and its use: source pointer plus one,
///   destination pointer plus one, remaining length minus one.
pub open spec fn memcpy_defs(
    b: Block,
    np: int,
    base: int,
    pool: int,
    types: int,
    src: Memory,
    dst: Memory,
    swizzle: bool,
) -> Seq<ValueDef> {
    let none = ListRef { start: 0, len: 0 };
    let t0 = ListRef { start: types as usize, len: 1 };
    let t1 = ListRef { start: (types + 1) as usize, len: 1 };
    let t2 = ListRef { start: (types + 2) as usize, len: 1 };
    let t3 = ListRef { start: (types + 3) as usize, len: 1 };
    let extra = if swizzle {
        2int
    } else {
        0int
    };
    let one = Operator::I32Const { value: 1 };
    seq![
        ValueDef::BlockParam(b, np as usize, Type::I32),
        ValueDef::BlockParam(b, (np + 1) as usize, Type::I32),
        ValueDef::BlockParam(b, (np + 2) as usize, Type::I32),
        ValueDef::Operator(
            Operator::I32Load8U { memory: byte_access(src) },
            ListRef { start: pool as usize, len: 1 },
            t0,
        ),
    ] + (if swizzle {
        seq![
            ValueDef::Operator(
                Operator::I32Load8U { memory: byte_access(dst) },
                ListRef { start: (pool + 1) as usize, len: 1 },
                t0,
            ),
        ]
    } else {
        Seq::empty()
    }) + seq![
        ValueDef::Operator(
            Operator::I32Store8 { memory: byte_access(dst) },
            ListRef { start: (pool + 2) as usize, len: 2 },
            none,
        ),
    ] + (if swizzle {
        seq![
            ValueDef::Operator(
                Operator::I32Store8 { memory: byte_access(src) },
                ListRef { start: (pool + 4) as usize, len: 2 },
                none,
            ),
        ]
    } else {
        Seq::empty()
    }) + seq![
        ValueDef::Operator(one, none, t1),
        ValueDef::Operator(
            Operator::I32Add,
            ListRef { start: (pool + 4 + extra) as usize, len: 2 },
            t1,
        ),
        ValueDef::Operator(one, none, t2),
        ValueDef::Operator(
            Operator::I32Add,
            ListRef { start: (pool + 6 + extra) as usize, len: 2 },
            t2,
        ),
        ValueDef::Operator(one, none, t3),
        ValueDef::Operator(
            Operator::I32Sub,
            ListRef { start: (pool + 8 + extra) as usize, len: 2 },
            t3,
        ),
    ]
}

/// The items that the copy loop adds to the argument pool of a body that
/// has `base` values: the operand lists of the loads, of the stores and of
/// the three operations on a constant.
pub open spec fn memcpy_operands(base: int, swizzle: bool) -> Seq<Value> {
    let a = Value(base as usize);
    let c = Value((base + 1) as usize);
    let d = Value((base + 2) as usize);
    let l = Value((base + 3) as usize);
    let l2 = Value((base + 4) as usize);
    let first = if swizzle {
        base + 7
    } else {
        base + 5
    };
    seq![a, c, c, l] + (if swizzle {
        seq![a, l2]
    } else {
        Seq::empty()
    }) + seq![
        a,
        Value(first as usize),
        c,
        Value((first + 2) as usize),
        d,
        Value((first + 4) as usize),
    ]
}

/// The body `f` with the copy loop built in block `b`, and the empty exit
/// block added.
///
/// Block `b` gets three parameters of type `I32` after those it had: source
/// pointer, destination pointer, remaining length. After the instructions
/// it had, it gets those that [`memcpy_defs`] lists behind the parameters.
/// Its terminator selects on the reduced length, the result of the
/// subtraction: when that is zero, control leaves for the exit block;
/// otherwise it comes back to `b`, with both pointers advanced by one and
/// the reduced length as the remaining length.
///
/// A pass is made before the length is tested, and the subtraction wraps.
/// So a length of one gives one pass, a length of `n` above zero gives `n`
/// passes, and a length of zero is reduced to the largest 32-bit number,
/// which is no index of the one indexed destination: control comes back to
/// `b`, and the loop goes on as for a length of 2^32.
pub open spec fn with_memcpy_loop(
    f: FunctionBodyView,
    b: Block,
    src: Memory,
    dst: Memory,
    swizzle: bool,
) -> FunctionBodyView {
    let base = f.values.len() as int;
    let exit = Block(f.blocks.len() as usize);
    let count = if swizzle {
        10nat
    } else {
        8nat
    };
    let block = f.block(b);
    FunctionBodyView {
        blocks: f.blocks.update(
            b.0 as int,
            BlockView {
                params: block.params + seq![
                    (Type::I32, Value(base as usize)),
                    (Type::I32, Value((base + 1) as usize)),
                    (Type::I32, Value((base + 2) as usize)),
                ],
                insts: block.insts + Seq::new(count, |i: int| Value((base + 3 + i) as usize)),
                terminator: TerminatorView::Select {
                    value: Value((base + count + 2) as usize),
                    targets: seq![BlockTargetView { block: exit, args: Seq::empty() }],
                    default: BlockTargetView {
                        block: b,
                        args: seq![
                            Value((base + count - 2) as usize),
                            Value((base + count) as usize),
                            Value((base + count + 2) as usize),
                        ],
                    },
                },
            },
        ).push(BlockView::empty()),
        values: f.values + memcpy_defs(
            b,
            block.params.len() as int,
            base,
            f.arg_pool.len() as int,
            f.type_pool.len() as int,
            src,
            dst,
            swizzle,
        ),
        arg_pool: f.arg_pool + memcpy_operands(base, swizzle),
        type_pool: f.type_pool + seq![Type::I32, Type::I32, Type::I32, Type::I32],
        entry: f.entry,
    }
}

/// Building the copy loop in a block of a well-formed body leaves the body
/// well formed.
pub proof fn lemma_memcpy_loop_well_formed(
    f: FunctionBodyView,
    b: Block,
    src: Memory,
    dst: Memory,
    swizzle: bool,
)
    requires
        f.well_formed(),
        f.has_block(b),
        with_memcpy_loop(f, b, src, dst, swizzle).values.len() <= usize::MAX,
        with_memcpy_loop(f, b, src, dst, swizzle).arg_pool.len() <= usize::MAX,
        with_memcpy_loop(f, b, src, dst, swizzle).type_pool.len() <= usize::MAX,
        with_memcpy_loop(f, b, src, dst, swizzle).blocks.len() <= usize::MAX,
    ensures
        with_memcpy_loop(f, b, src, dst, swizzle).grows_from(f),
        with_memcpy_loop(f, b, src, dst, swizzle).well_formed(),
{
    let g = with_memcpy_loop(f, b, src, dst, swizzle);
    let base = f.values.len() as int;
    let pool = f.arg_pool.len() as int;
    let defs = memcpy_defs(
        b,
        f.block(b).params.len() as int,
        base,
        pool,
        f.type_pool.len() as int,
        src,
        dst,
        swizzle,
    );
    let operands = memcpy_operands(base, swizzle);
    let count = defs.len() as int;
    assert(count == if swizzle {
        13int
    } else {
        11int
    });
    assert(g.values.len() == base + count);
    assert(g.arg_pool.len() == pool + operands.len());
    assert(f.values =~= g.values.subrange(0, base));
    assert(f.arg_pool =~= g.arg_pool.subrange(0, pool));
    assert(f.type_pool =~= g.type_pool.subrange(0, f.type_pool.len() as int));
    assert(g.grows_from(f));
    g.lemma_ok_after_growth(f);
    assert forall|k: int| 0 <= k < operands.len() implies g.has_value(#[trigger] operands[k]) by {}
    assert forall|list: ListRef|
        pool <= list.start && list.end() <= g.arg_pool.len() implies g.has_values(
        #[trigger] list_items(g.arg_pool, list),
    ) by {
        let items = list_items(g.arg_pool, list);
        assert forall|k: int| 0 <= k < items.len() implies g.has_value(#[trigger] items[k]) by {
            assert(items[k] == operands[list.start - pool + k]);
        }
    }
    assert(g.has_values(list_items(g.arg_pool, ListRef { start: 0, len: 0 })));
    assert forall|j: int| base <= j < g.values.len() implies g.def_ok(#[trigger] g.values[j]) by {
        assert(g.values[j] == defs[j - base]);
    }
    assert(f.block_ok(f.block(b)));
    let block = g.block(b);
    assert(g.has_values(block.insts)) by {
        assert forall|k: int| 0 <= k < block.insts.len() implies g.has_value(
            #[trigger] block.insts[k],
        ) by {
            if k < f.block(b).insts.len() {
                assert(f.has_value(f.block(b).insts[k]));
            }
        }
    }
    assert(g.has_values(block.param_values())) by {
        assert forall|k: int| 0 <= k < block.param_values().len() implies g.has_value(
            #[trigger] block.param_values()[k],
        ) by {
            if k < f.block(b).params.len() {
                assert(f.block(b).param_values()[k] == block.param_values()[k]);
                assert(f.has_value(f.block(b).param_values()[k]));
            }
        }
    }
    assert(g.terminator_ok(block.terminator));
    assert(g.block_ok(g.blocks[g.blocks.len() - 1]));
    g.lemma_well_formed_after_growth(f);
}

/// Builds in block `b` a loop that copies bytes from memory `src` to memory
/// `dst`, one for each pass, and returns the new block to which the loop
/// exits. With `swizzle`, each pass exchanges the two bytes instead.
///
/// The loop is block `b` branching back to itself with new arguments for
/// its parameters. Each pass reduces the remaining length by one and leaves
/// for the exit block when the reduced length is zero. The exit block is
/// empty and has no terminator yet.
#[verifier::rlimit(50)]
pub fn make_memcpy_body(f: &mut FunctionBody, b: Block, src: Memory, dst: Memory, swizzle: bool) -> (k:
    Block)
    requires
        old(f)@.has_block(b),
    ensures
        k.0 == old(f)@.blocks.len(),
        final(f)@ == with_memcpy_loop(old(f)@, b, src, dst, swizzle),
        final(f)@.grows_from(old(f)@),
        old(f)@.well_formed() ==> final(f)@.well_formed(),
        final(f)@.values.len() <= usize::MAX,
        final(f)@.arg_pool.len() <= usize::MAX,
        final(f)@.type_pool.len() <= usize::MAX,
        final(f)@.block(b).params.len() <= usize::MAX,
{
    let ghost f0 = f@;
    let k = f.add_block();
    let a = f.add_blockparam(b, Type::I32);
    let c = f.add_blockparam(b, Type::I32);
    let d = f.add_blockparam(b, Type::I32);
    let ra = f.arg_pool.single(a);
    let rc = f.arg_pool.single(c);
    let t = f.single_type_list(Type::I32);
    let l = f.add_value(
        ValueDef::Operator(
            Operator::I32Load8U { memory: MemoryArg { align: 1, offset: 0, memory: src } },
            ra,
            t,
        ),
    );
    f.append_to_block(b, l);
    let m = if swizzle {
        let l = f.add_value(
            ValueDef::Operator(
                Operator::I32Load8U { memory: MemoryArg { align: 1, offset: 0, memory: dst } },
                rc,
                t,
            ),
        );
        f.append_to_block(b, l);
        Some(l)
    } else {
        None
    };
    let rc = f.arg_pool.double(c, l);
    let ra = match m {
        Some(l) => Some(f.arg_pool.double(a, l)),
        None => None,
    };
    let m = f.add_value(
        ValueDef::Operator(
            Operator::I32Store8 { memory: MemoryArg { align: 1, offset: 0, memory: dst } },
            rc,
            ListRef::default(),
        ),
    );
    f.append_to_block(b, m);
    if let Some(ra) = ra {
        let m = f.add_value(
            ValueDef::Operator(
                Operator::I32Store8 { memory: MemoryArg { align: 1, offset: 0, memory: src } },
                ra,
                ListRef::default(),
            ),
        );
        f.append_to_block(b, m);
    }
    proof {
        assert(f.arg_pool.storage.len() == f@.arg_pool.len());
        assert(f.type_pool.storage.len() == f@.type_pool.len());
        assert(f.values.items.len() == f@.values.len());
    }
    let mut r: Vec<Value> = Vec::new();
    r.push(sop_i32(f, b, a, 1, Operator::I32Add));
    r.push(sop_i32(f, b, c, 1, Operator::I32Add));
    let rest = sop_i32(f, b, d, 1, Operator::I32Sub);
    r.push(rest);
    f.set_terminator(
        b,
        Terminator::Select {
            value: rest,
            targets: vec![BlockTarget { block: k, args: Vec::new() }],
            default: BlockTarget { block: b, args: r },
        },
    );
    proof {
        let g = with_memcpy_loop(f0, b, src, dst, swizzle);
        assert(f.values.items.len() == f@.values.len());
        assert(f.arg_pool.storage.len() == f@.arg_pool.len());
        assert(f.type_pool.storage.len() == f@.type_pool.len());
        assert(f@.values =~= g.values);
        assert(f@.arg_pool =~= g.arg_pool);
        assert(f@.type_pool =~= g.type_pool);
        assert(f@.block(b).params =~= g.block(b).params);
        assert(f@.block(b).insts =~= g.block(b).insts);
        assert(f@.block(b).terminator->Select_targets =~= g.block(b).terminator->Select_targets);
        assert(f@.block(b).terminator->Select_default.args =~= g.block(
            b,
        ).terminator->Select_default.args);
        assert(f@.block(b) == g.block(b));
        assert(f@.blocks =~= g.blocks);
        let params = f.blocks.items@[b.0 as int].params;
        assert(params.len() == params@.len());
        assert(f.blocks.items.len() == f@.blocks.len());
        if f0.well_formed() {
            lemma_memcpy_loop_well_formed(f0, b, src, dst, swizzle);
        }
    }
    k
}

/// The decimal digit of `d`, for `d` below ten.
pub open spec fn digit(d: nat) -> char {
    if d == 0 {
        '0'
    } else if d == 1 {
        '1'
    } else if d == 2 {
        '2'
    } else if d == 3 {
        '3'
    } else if d == 4 {
        '4'
    } else if d == 5 {
        '5'
    } else if d == 6 {
        '6'
    } else if d == 7 {
        '7'
    } else if d == 8 {
        '8'
    } else {
        '9'
    }
}

/// The decimal numeral of `n`, without leading zeros.
pub open spec fn decimal(n: nat) -> Seq<char>
    decreases n,
{
    if n < 10 {
        seq![digit(n)]
    } else {
        decimal(n / 10).push(digit(n % 10))
    }
}

/// The name of the copy function from memory `src` to memory `dst`:
/// `memcpy_memory`, the number of `src`, `_memory`, the number of `dst`,
/// `_swizzle_`, and `true` or `false`.
pub open spec fn memcpy_name(src: Memory, dst: Memory, swizzle: bool) -> Seq<char> {
    "memcpy_memory"@ + decimal(src.0 as nat) + "_memory"@ + decimal(dst.0 as nat) + "_swizzle_"@
        + (if swizzle {
        "true"@
    } else {
        "false"@
    })
}

/// Appends the decimal numeral of `n` to `s`.
fn append_decimal(s: &mut String, n: usize)
    ensures
        final(s)@ == old(s)@ + decimal(n as nat),
    decreases n,
{
    if n >= 10 {
        append_decimal(s, n / 10);
    }
    let d = n % 10;
    proof {
        reveal_strlit("0");
        reveal_strlit("1");
        reveal_strlit("2");
        reveal_strlit("3");
        reveal_strlit("4");
        reveal_strlit("5");
        reveal_strlit("6");
        reveal_strlit("7");
        reveal_strlit("8");
        reveal_strlit("9");
    }
    let text = if d == 0 {
        "0"
    } else if d == 1 {
        "1"
    } else if d == 2 {
        "2"
    } else if d == 3 {
        "3"
    } else if d == 4 {
        "4"
    } else if d == 5 {
        "5"
    } else if d == 6 {
        "6"
    } else if d == 7 {
        "7"
    } else if d == 8 {
        "8"
    } else {
        "9"
    };
    s.append(text);
    assert(s@ =~= old(s)@ + decimal(n as nat));
}

/// The name of the copy function from memory `src` to memory `dst`.
fn name_of_memcpy(src: Memory, dst: Memory, swizzle: bool) -> (name: String)
    ensures
        name@ == memcpy_name(src, dst, swizzle),
{
    let mut name = String::from_str("memcpy_memory");
    append_decimal(&mut name, src.0);
    name.append("_memory");
    append_decimal(&mut name, dst.0);
    name.append("_swizzle_");
    if swizzle {
        name.append("true");
    } else {
        name.append("false");
    }
    name
}

/// The body of the copy function: the entry block holds the copy loop, and
/// the block to which the loop exits returns nothing.
pub open spec fn memcpy_body(src: Memory, dst: Memory, swizzle: bool) -> FunctionBodyView {
    let fresh = FunctionBodyView {
        blocks: seq![BlockView::empty()],
        values: Seq::empty(),
        arg_pool: Seq::empty(),
        type_pool: Seq::empty(),
        entry: Block(0),
    };
    with_memcpy_loop(fresh, Block(0), src, dst, swizzle).with_block(
        Block(1),
        BlockView { terminator: TerminatorView::Return { values: Seq::empty() }, ..BlockView::empty() },
    )
}

/// In the body of the copy function every use is in scope: whatever a block
/// reads, the block itself defines.
pub proof fn lemma_memcpy_uses_in_scope(src: Memory, dst: Memory, swizzle: bool)
    ensures
        uses_in_scope(memcpy_body(src, dst, swizzle)),
{
    let g = memcpy_body(src, dst, swizzle);
    let entry = Block(0);
    let block = g.block(entry);
    let count = g.values.len() as int;
    assert(count == if swizzle {
        13int
    } else {
        11int
    });
    assert forall|w: Value| w.0 < count implies #[trigger] block.defines(w) by {
        if w.0 < 3 {
            assert(block.param_values()[w.0 as int] == w);
        } else {
            assert(block.insts[w.0 - 3] == w);
        }
    }
    assert forall|k: int| 0 <= k < g.arg_pool.len() implies (#[trigger] g.arg_pool[k]).0 < count by {}
    assert forall|b: Block, v: Value| g.has_block(b) && #[trigger] g.block_uses(b, v) implies in_scope(
        g,
        b,
        v,
    ) by {
        cfg_of(g).lemma_dominates_reflexive(b);
        if b == entry {
            if block.terminator.uses(v) {
                if exists|i: int|
                    0 <= i < block.terminator.targets().len() && (
                    #[trigger] block.terminator.targets()[i]).args.contains(v) {
                    let i = choose|i: int|
                        0 <= i < block.terminator.targets().len() && (
                        #[trigger] block.terminator.targets()[i]).args.contains(v);
                    if i == 1 {
                        let args = block.terminator.targets()[1].args;
                        let at = choose|at: int| 0 <= at < args.len() && args[at] == v;
                        assert(v.0 < count);
                    }
                }
                assert(v.0 < count);
            } else {
                let i = choose|i: int|
                    0 <= i < block.insts.len() && g.has_value(block.insts[i]) && (
                    #[trigger] g.operands(block.insts[i])).contains(v);
                let inst = block.insts[i];
                let ops = g.operands(inst);
                let at = choose|at: int| 0 <= at < ops.len() && ops[at] == v;
                assert(inst == Value((3 + i) as usize));
                match g.def(inst).operand_list() {
                    Some(list) => {
                        assert(list_in(g.arg_pool, list));
                        assert(ops[at] == g.arg_pool[list.start + at]);
                    },
                    None => {},
                }
                assert(v.0 < count);
            }
            assert(block.defines(v));
        } else {
            assert(b == Block(1));
            assert(g.block(b).insts.len() == 0);
            assert(g.block(b).terminator.targets().len() == 0);
        }
    }
}

/// Adds to `m` a function that copies bytes from memory `src` to memory
/// `dst`, and returns it. The function takes three `I32` parameters, the
/// source pointer, the destination pointer and the length, and returns
/// nothing; its signature is added to `m` as well. With `swizzle`, the
/// function exchanges the bytes of the two memories instead.
///
/// The function copies a byte, reduces the length by one and stops when
/// the reduced length is zero: with a length `n` above zero it copies `n`
/// bytes. The subtraction wraps: with the length zero the function goes on
/// as for a length of 2^32.
pub fn make_memcpy(m: &mut Module, src: Memory, dst: Memory, swizzle: bool) -> (r: Func)
    ensures
        r.0 == old(m).funcs@.len(),
        final(m).funcs@ == old(m).funcs@.push(final(m).funcs@.last()),
        final(m).funcs@.last() matches FuncDecl::Body(sig, name, body) && sig.0 == old(
            m,
        ).signatures@.len() && name@ == memcpy_name(src, dst, swizzle) && body@ == memcpy_body(
            src,
            dst,
            swizzle,
        ),
        final(m).funcs@.last() matches FuncDecl::Body(_, _, body) && body@.well_formed()
            && uses_in_scope(body@),
        final(m).signatures@ == old(m).signatures@.push(final(m).signatures@.last()),
        final(m).signatures@.last().params@ == seq![Type::I32, Type::I32, Type::I32],
        final(m).signatures@.last().returns@ == Seq::<Type>::empty(),
        final(m).memories == old(m).memories,
        final(m).tables == old(m).tables,
        final(m).globals == old(m).globals,
{
    let mut b = FunctionBody::default();
    let e = b.entry;
    let k = make_memcpy_body(&mut b, e, src, dst, swizzle);
    b.set_terminator(k, Terminator::Return { values: Vec::new() });
    let mut params: Vec<Type> = Vec::new();
    params.push(Type::I32);
    params.push(Type::I32);
    params.push(Type::I32);
    let s = m.signatures.push(SignatureData { params, returns: Vec::new() });
    let name = name_of_memcpy(src, dst, swizzle);
    proof {
        assert(b@.blocks =~= memcpy_body(src, dst, swizzle).blocks);
        lemma_memcpy_uses_in_scope(src, dst, swizzle);
        assert(params@ =~= seq![Type::I32, Type::I32, Type::I32]);
    }
    let r = m.funcs.push(FuncDecl::Body(s, name, b));
    proof {
        assert(m.funcs@.last() == FuncDecl::Body(s, name, b));
        assert(m.funcs@ =~= old(m).funcs@.push(m.funcs@.last()));
        assert(m.signatures@ =~= old(m).signatures@.push(m.signatures@.last()));
    }
    r
}

} // verus!
