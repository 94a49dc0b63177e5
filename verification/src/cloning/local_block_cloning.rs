//! Cloning one block within its function body, and the queries on which
//! values a block defines and may use.

use vstd::prelude::*;
use std::collections::BTreeMap;
use crate::cfg::{cfg_of, CFGInfo};
use crate::entity::{Block, Value};
use crate::ir::{
    BlockTarget, BlockTargetView, BlockView, FunctionBody, FunctionBodyView, Terminator,
    TerminatorView, Type, ValueDef,
};
use crate::pool::{list_in, list_items, ListRef};
use crate::value_set::ValueSet;

verus! {

/// Whether `m` can be called on every value of `s`.
pub open spec fn applies_to<F: Fn(Value) -> Value>(m: F, s: Seq<Value>) -> bool {
    forall|i: int| 0 <= i < s.len() ==> call_requires(m, (#[trigger] s[i],))
}

/// Whether `m` can be called on every value that the terminator `t` reads.
pub open spec fn applies_to_terminator<F: Fn(Value) -> Value>(m: F, t: TerminatorView) -> bool {
    forall|v: Value| #[trigger] t.uses(v) ==> call_requires(m, (v,))
}

/// Whether whatever `m` gives for a value of `s` is a value of `f`.
pub open spec fn gives_values_of<F: Fn(Value) -> Value>(m: F, s: Seq<Value>, f: FunctionBodyView) -> bool {
    forall|i: int, w: Value|
        0 <= i < s.len() && #[trigger] call_ensures(m, (s[i],), w) ==> f.has_value(w)
}

/// Whether `after` is `before` with each value replaced by what `m` gives
/// for it.
pub open spec fn rewritten<F: Fn(Value) -> Value>(m: F, before: Seq<Value>, after: Seq<Value>) -> bool {
    &&& after.len() == before.len()
    &&& forall|i: int| 0 <= i < before.len() ==> call_ensures(m, (before[i],), #[trigger] after[i])
}

/// Whether `after` is the destination `before` with each argument replaced
/// by what `m` gives for it. The block stays.
pub open spec fn target_rewritten<F: Fn(Value) -> Value>(
    m: F,
    before: BlockTargetView,
    after: BlockTargetView,
) -> bool {
    after.block == before.block && rewritten(m, before.args, after.args)
}

/// Whether `after` is the terminator `before` with each value it reads
/// replaced by what `m` gives for it. Kind and destination blocks stay.
pub open spec fn terminator_rewritten<F: Fn(Value) -> Value>(
    m: F,
    before: TerminatorView,
    after: TerminatorView,
) -> bool {
    match before {
        TerminatorView::Br { target } => {
            &&& after matches TerminatorView::Br { target: target2 }
            &&& target_rewritten(m, target, target2)
        },
        TerminatorView::CondBr { cond, if_true, if_false } => {
            &&& after matches TerminatorView::CondBr {
                cond: cond2,
                if_true: if_true2,
                if_false: if_false2,
            }
            &&& call_ensures(m, (cond,), cond2)
            &&& target_rewritten(m, if_true, if_true2)
            &&& target_rewritten(m, if_false, if_false2)
        },
        TerminatorView::Select { value, targets, default } => {
            &&& after matches TerminatorView::Select {
                value: value2,
                targets: targets2,
                default: default2,
            }
            &&& call_ensures(m, (value,), value2)
            &&& targets2.len() == targets.len()
            &&& forall|i: int|
                0 <= i < targets.len() ==> target_rewritten(m, targets[i], #[trigger] targets2[i])
            &&& target_rewritten(m, default, default2)
        },
        TerminatorView::Return { values } => {
            &&& after matches TerminatorView::Return { values: values2 }
            &&& rewritten(m, values, values2)
        },
        TerminatorView::Unreachable => after is Unreachable,
        TerminatorView::Unset => after is Unset,
    }
}

/// Replaces each value of `xs` by what `m` gives for it.
fn tweak_values<F: Fn(Value) -> Value>(xs: &mut Vec<Value>, m: &F)
    requires
        applies_to(*m, old(xs)@),
    ensures
        rewritten(*m, old(xs)@, final(xs)@),
{
    let n = xs.len();
    let mut i: usize = 0;
    while i < n
        invariant
            i <= n,
            n == xs@.len(),
            n == old(xs)@.len(),
            applies_to(*m, old(xs)@),
            forall|j: int| 0 <= j < i ==> call_ensures(*m, (old(xs)@[j],), #[trigger] xs@[j]),
            forall|j: int| i <= j < n ==> xs@[j] == old(xs)@[j],
        decreases n - i,
    {
        let w = m(xs[i]);
        xs[i] = w;
        i += 1;
    }
}

/// [`tweak_target`] for a closure that is borrowed.
fn tweak_target_with<F: Fn(Value) -> Value>(x: &mut BlockTarget, m: &F)
    requires
        applies_to(*m, old(x)@.args),
    ensures
        target_rewritten(*m, old(x)@, final(x)@),
{
    tweak_values(&mut x.args, m);
}

/// A closure that can be called on what a terminator reads can be called on
/// the arguments of each of its destinations.
proof fn lemma_applies_to_targets<F: Fn(Value) -> Value>(m: F, t: TerminatorView, i: int)
    requires
        applies_to_terminator(m, t),
        0 <= i < t.targets().len(),
    ensures
        applies_to(m, t.targets()[i].args),
{
    let args = t.targets()[i].args;
    assert forall|k: int| 0 <= k < args.len() implies call_requires(m, (#[trigger] args[k],)) by {
        assert(t.targets()[i].args.contains(args[k]));
        assert(t.uses(args[k]));
    }
}

/// [`tweak_terminator`] for a closure that is borrowed.
fn tweak_terminator_with<F: Fn(Value) -> Value>(x: &mut Terminator, m: &F)
    requires
        applies_to_terminator(*m, old(x)@),
    ensures
        terminator_rewritten(*m, old(x)@, final(x)@),
{
    let ghost t = x@;
    match x {
        Terminator::Br { target } => {
            proof {
                lemma_applies_to_targets(*m, t, 0);
            }
            tweak_target_with(target, m);
        },
        Terminator::CondBr { cond, if_true, if_false } => {
            proof {
                assert(t.uses(*cond));
                lemma_applies_to_targets(*m, t, 0);
                lemma_applies_to_targets(*m, t, 1);
            }
            *cond = m(*cond);
            tweak_target_with(if_true, m);
            tweak_target_with(if_false, m);
        },
        Terminator::Select { value, targets, default } => {
            proof {
                assert(t.uses(*value));
            }
            *value = m(*value);
            let n = targets.len();
            let ghost before = targets@;
            proof {
                assert forall|j: int| 0 <= j < n implies applies_to(*m, (#[trigger] before[j])@.args) by {
                    assert(t.targets()[j] == before[j]@);
                    lemma_applies_to_targets(*m, t, j);
                }
                assert(t.targets()[n as int] == default@);
                lemma_applies_to_targets(*m, t, n as int);
            }
            let mut i: usize = 0;
            while i < n
                invariant
                    i <= n,
                    n == targets@.len(),
                    n == before.len(),
                    forall|j: int| 0 <= j < n ==> applies_to(*m, (#[trigger] before[j])@.args),
                    forall|j: int|
                        0 <= j < i ==> target_rewritten(*m, before[j]@, #[trigger] targets@[j]@),
                    forall|j: int| i <= j < n ==> targets@[j] == before[j],
                decreases n - i,
            {
                assert(applies_to(*m, before[i as int]@.args));
                tweak_target_with(&mut targets[i], m);
                i += 1;
            }
            tweak_target_with(default, m);
        },
        Terminator::Return { values } => {
            proof {
                assert forall|k: int| 0 <= k < values@.len() implies call_requires(
                    *m,
                    (#[trigger] values@[k],),
                ) by {
                    assert(values@.contains(values@[k]));
                    assert(t.uses(values@[k]));
                }
            }
            tweak_values(values, m);
        },
        Terminator::Unreachable => {},
        Terminator::Unset => {},
    }
}

/// Whether `pool2` is `pool` followed by a copy of `list` in which each
/// value is replaced by what `m` gives for it.
pub open spec fn list_rewritten<F: Fn(Value) -> Value>(
    m: F,
    pool: Seq<Value>,
    list: ListRef,
    pool2: Seq<Value>,
) -> bool {
    &&& pool2.len() == pool.len() + list.len
    &&& pool.is_prefix_of(pool2)
    &&& rewritten(m, list_items(pool, list), pool2.subrange(pool.len() as int, pool2.len() as int))
}

/// Whether `x2`, with the argument pool `pool2`, is the definition `x`, with
/// the argument pool `pool`, made ready for block `b` under `m`:
/// - a block parameter belongs to `b`;
/// - an operator or a trace has a private copy of its operand list at the
///   end of the pool, in which each operand is what `m` gives for it;
/// - a projection or an alias reads what `m` gives for the value it read.
///
/// Operator, result types, indices and identifiers stay.
pub open spec fn value_tweaked<F: Fn(Value) -> Value>(
    m: F,
    b: Block,
    pool: Seq<Value>,
    x: ValueDef,
    pool2: Seq<Value>,
    x2: ValueDef,
) -> bool {
    match x {
        ValueDef::BlockParam(_, index, ty) => x2 == ValueDef::BlockParam(b, index, ty) && pool2 == pool,
        ValueDef::Operator(op, args, tys) => {
            &&& x2 matches ValueDef::Operator(op2, args2, tys2)
            &&& op2 == op
            &&& tys2 == tys
            &&& args2.start == pool.len()
            &&& args2.len == args.len
            &&& list_rewritten(m, pool, args, pool2)
        },
        ValueDef::PickOutput(source, index, ty) => {
            &&& x2 matches ValueDef::PickOutput(source2, index2, ty2)
            &&& index2 == index
            &&& ty2 == ty
            &&& call_ensures(m, (source,), source2)
            &&& pool2 == pool
        },
        ValueDef::Alias(target) => {
            &&& x2 matches ValueDef::Alias(target2)
            &&& call_ensures(m, (target,), target2)
            &&& pool2 == pool
        },
        ValueDef::Trace(id, args) => {
            &&& x2 matches ValueDef::Trace(id2, args2)
            &&& id2 == id
            &&& args2.start == pool.len()
            &&& args2.len == args.len
            &&& list_rewritten(m, pool, args, pool2)
        },
        _ => x2 == x && pool2 == pool,
    }
}

/// Copies `list` to the end of the argument pool of `f` and replaces each
/// value of the copy by what `m` gives for it.
fn rewrite_list<F: Fn(Value) -> Value>(f: &mut FunctionBody, list: ListRef, m: &F) -> (r: ListRef)
    requires
        list_in(old(f)@.arg_pool, list),
        applies_to(*m, list_items(old(f)@.arg_pool, list)),
    ensures
        r.start == old(f)@.arg_pool.len(),
        r.len == list.len,
        list_rewritten(*m, old(f)@.arg_pool, list, final(f)@.arg_pool),
        final(f)@ == (FunctionBodyView { arg_pool: final(f)@.arg_pool, ..old(f)@ }),
        final(f)@.grows_from(old(f)@),
        old(f)@.well_formed() ==> final(f)@.well_formed(),
{
    let r = f.arg_pool.deep_clone(list);
    let ghost pool = old(f)@.arg_pool;
    let ghost items = list_items(pool, list);
    let mut i: usize = 0;
    while i < r.len
        invariant
            i <= r.len,
            r.start == pool.len(),
            r.len == list.len,
            pool == old(f)@.arg_pool,
            items == list_items(pool, list),
            items.len() == list.len,
            applies_to(*m, items),
            f@ == (FunctionBodyView { arg_pool: f@.arg_pool, ..old(f)@ }),
            f@.arg_pool.len() == pool.len() + list.len,
            forall|j: int| 0 <= j < pool.len() ==> f@.arg_pool[j] == pool[j],
            forall|j: int|
                0 <= j < i ==> call_ensures(*m, (items[j],), #[trigger] f@.arg_pool[pool.len() + j]),
            forall|j: int| i <= j < list.len ==> f@.arg_pool[pool.len() + j] == items[j],
        decreases r.len - i,
    {
        let v = f.arg_pool.get(r, i);
        assert(v == items[i as int]);
        let w = m(v);
        f.arg_pool.set(r, i, w);
        i += 1;
    }
    proof {
        let pool2 = f@.arg_pool;
        let tail = pool2.subrange(pool.len() as int, pool2.len() as int);
        assert(pool =~= pool2.subrange(0, pool.len() as int));
        assert forall|j: int| 0 <= j < items.len() implies call_ensures(
            *m,
            (items[j],),
            #[trigger] tail[j],
        ) by {
            assert(tail[j] == pool2[pool.len() + j]);
        }
        if old(f)@.well_formed() {
            f@.lemma_well_formed_after_growth(old(f)@);
        }
    }
    r
}

/// [`tweak_value`] for a closure that is borrowed.
fn tweak_value_with<F: Fn(Value) -> Value>(f: &mut FunctionBody, x: &mut ValueDef, m: &F, b: Block)
    requires
        old(x).is_defined(),
        old(x).operand_list() matches Some(list) ==> list_in(old(f)@.arg_pool, list),
        applies_to(*m, old(x).operands_in(old(f)@.arg_pool)),
    ensures
        value_tweaked(*m, b, old(f)@.arg_pool, *old(x), final(f)@.arg_pool, *final(x)),
        final(f)@ == (FunctionBodyView { arg_pool: final(f)@.arg_pool, ..old(f)@ }),
        final(f)@.grows_from(old(f)@),
        old(f)@.well_formed() ==> final(f)@.well_formed(),
{
    match x {
        ValueDef::BlockParam(a, _, _) => {
            *a = b;
        },
        ValueDef::Operator(_, l, _) => {
            *l = rewrite_list(f, *l, m);
        },
        ValueDef::PickOutput(v, _, _) => {
            assert(old(x).operands_in(old(f)@.arg_pool)[0] == *v);
            *v = m(*v);
        },
        ValueDef::Alias(v) => {
            assert(old(x).operands_in(old(f)@.arg_pool)[0] == *v);
            *v = m(*v);
        },
        ValueDef::Placeholder(_) => {
            unreached()
        },
        ValueDef::Trace(_, l) => {
            *l = rewrite_list(f, *l, m);
        },
        ValueDef::Absent => {
            unreached()
        },
    }
}

/// Replaces each argument of the destination `x` by what `m` gives for it.
/// The destination block stays, and so does `f`.
pub fn tweak_target(f: &mut FunctionBody, x: &mut BlockTarget, m: impl Fn(Value) -> Value)
    requires
        applies_to(m, old(x)@.args),
    ensures
        target_rewritten(m, old(x)@, final(x)@),
        *final(f) == *old(f),
{
    tweak_target_with(x, &m);
}

/// Replaces each value that the terminator `x` reads by what `m` gives for
/// it: the condition or selector, the returned values, and the arguments of
/// every destination. Kind and destination blocks stay, and so does `f`.
pub fn tweak_terminator(f: &mut FunctionBody, x: &mut Terminator, m: impl Fn(Value) -> Value)
    requires
        applies_to_terminator(m, old(x)@),
    ensures
        terminator_rewritten(m, old(x)@, final(x)@),
        *final(f) == *old(f),
{
    tweak_terminator_with(x, &m);
}

/// Makes the definition `x` ready for block `b` under `m`; see
/// [`value_tweaked`]. An operand list is never rewritten in place: the
/// definition gets a private copy at the end of the argument pool of `f`,
/// and whatever shared the old list keeps it as it was. Nothing else of `f`
/// changes.
///
/// A placeholder or an absent definition cannot be made ready.
pub fn tweak_value(f: &mut FunctionBody, x: &mut ValueDef, m: impl Fn(Value) -> Value, b: Block)
    requires
        old(x).is_defined(),
        old(x).operand_list() matches Some(list) ==> list_in(old(f)@.arg_pool, list),
        applies_to(m, old(x).operands_in(old(f)@.arg_pool)),
    ensures
        value_tweaked(m, b, old(f)@.arg_pool, *old(x), final(f)@.arg_pool, *final(x)),
        final(f)@ == (FunctionBodyView { arg_pool: final(f)@.arg_pool, ..old(f)@ }),
        final(f)@.grows_from(old(f)@),
        old(f)@.well_formed() ==> final(f)@.well_formed(),
{
    tweak_value_with(f, x, &m, b);
}

/// Adds to `f` a copy of the definition of `v`, made ready for block `b`
/// under `m`, and returns the value that the copy defines. The copy belongs
/// to no block yet. The definition of `v` and every list that the argument
/// pool held stay as they were.
pub fn clone_value(f: &mut FunctionBody, m: impl Fn(Value) -> Value, v: Value, b: Block) -> (r: Value)
    requires
        old(f)@.has_value(v),
        old(f)@.def(v).is_defined(),
        old(f)@.def(v).operand_list() matches Some(list) ==> list_in(old(f)@.arg_pool, list),
        applies_to(m, old(f)@.operands(v)),
    ensures
        r.0 == old(f)@.values.len(),
        value_tweaked(m, b, old(f)@.arg_pool, old(f)@.def(v), final(f)@.arg_pool, final(f)@.def(r)),
        final(f)@ == (FunctionBodyView {
            values: old(f)@.values.push(final(f)@.def(r)),
            arg_pool: final(f)@.arg_pool,
            ..old(f)@
        }),
        final(f)@.grows_from(old(f)@),
        old(f)@.well_formed() && old(f)@.has_block(b) && gives_values_of(
            m,
            old(f)@.operands(v),
            old(f)@,
        ) ==> final(f)@.well_formed(),
{
    let mut w = f.def(v);
    tweak_value_with(f, &mut w, &m, b);
    proof {
        if old(f)@.well_formed() && old(f)@.has_block(b) && gives_values_of(
            m,
            old(f)@.operands(v),
            old(f)@,
        ) {
            lemma_tweaked_is_ok(m, b, old(f)@, old(f)@.def(v), f@, w);
        }
    }
    f.add_value(w)
}

/// A definition of a well-formed body that has been made ready for one of
/// its blocks, under a closure that gives values of the body, refers only
/// to what the body has.
proof fn lemma_tweaked_is_ok<F: Fn(Value) -> Value>(
    m: F,
    b: Block,
    f: FunctionBodyView,
    x: ValueDef,
    f2: FunctionBodyView,
    x2: ValueDef,
)
    requires
        f.def_ok(x),
        f.has_block(b),
        gives_values_of(m, x.operands_in(f.arg_pool), f),
        value_tweaked(m, b, f.arg_pool, x, f2.arg_pool, x2),
        f2 == (FunctionBodyView { arg_pool: f2.arg_pool, ..f }),
    ensures
        f2.def_ok(x2),
{
    let ops = x.operands_in(f.arg_pool);
    match x {
        ValueDef::PickOutput(source, _, _) => {
            assert(ops[0] == source);
        },
        ValueDef::Alias(target) => {
            assert(ops[0] == target);
        },
        _ => {},
    }
    match x.operand_list() {
        Some(list) => {
            let list2 = x2.operand_list()->0;
            let items = list_items(f2.arg_pool, list2);
            let tail = f2.arg_pool.subrange(f.arg_pool.len() as int, f2.arg_pool.len() as int);
            assert(items =~= tail);
            assert forall|i: int| 0 <= i < items.len() implies f2.has_value(#[trigger] items[i]) by {
                assert(call_ensures(m, (ops[i],), tail[i]));
            }
        },
        None => {},
    }
}

/// What `v` becomes under the renaming `ren`: the value that `ren` gives for
/// it, or `v` itself where `ren` has none.
pub open spec fn rename(ren: Map<Value, Value>, v: Value) -> Value {
    if ren.contains_key(v) {
        ren[v]
    } else {
        v
    }
}

/// The values of `s`, each renamed.
pub open spec fn rename_all(ren: Map<Value, Value>, s: Seq<Value>) -> Seq<Value> {
    s.map_values(|v: Value| rename(ren, v))
}

/// The destination `t` with its arguments renamed.
pub open spec fn rename_target(ren: Map<Value, Value>, t: BlockTargetView) -> BlockTargetView {
    BlockTargetView { block: t.block, args: rename_all(ren, t.args) }
}

/// The terminator `t` with every value it reads renamed. Destination blocks
/// stay.
pub open spec fn rename_terminator(ren: Map<Value, Value>, t: TerminatorView) -> TerminatorView {
    match t {
        TerminatorView::Br { target } => TerminatorView::Br { target: rename_target(ren, target) },
        TerminatorView::CondBr { cond, if_true, if_false } => TerminatorView::CondBr {
            cond: rename(ren, cond),
            if_true: rename_target(ren, if_true),
            if_false: rename_target(ren, if_false),
        },
        TerminatorView::Select { value, targets, default } => TerminatorView::Select {
            value: rename(ren, value),
            targets: targets.map_values(|t: BlockTargetView| rename_target(ren, t)),
            default: rename_target(ren, default),
        },
        TerminatorView::Return { values } => TerminatorView::Return { values: rename_all(ren, values) },
        TerminatorView::Unreachable => TerminatorView::Unreachable,
        TerminatorView::Unset => TerminatorView::Unset,
    }
}

/// Whether `m` gives for each value what the renaming `ren` makes of it.
spec fn renames_by<F: Fn(Value) -> Value>(m: F, ren: Map<Value, Value>) -> bool {
    forall|v: Value, w: Value| call_ensures(m, (v,), w) ==> w == rename(ren, v)
}

/// What a closure that renames by `ren` has rewritten is renamed by `ren`.
proof fn lemma_rewritten_by_renaming<F: Fn(Value) -> Value>(
    m: F,
    ren: Map<Value, Value>,
    before: Seq<Value>,
    after: Seq<Value>,
)
    requires
        renames_by(m, ren),
        rewritten(m, before, after),
    ensures
        after == rename_all(ren, before),
{
    assert(after =~= rename_all(ren, before));
}

/// A terminator that a closure that renames by `ren` has rewritten is
/// renamed by `ren`.
proof fn lemma_terminator_rewritten_by_renaming<F: Fn(Value) -> Value>(
    m: F,
    ren: Map<Value, Value>,
    before: TerminatorView,
    after: TerminatorView,
)
    requires
        renames_by(m, ren),
        terminator_rewritten(m, before, after),
    ensures
        after == rename_terminator(ren, before),
{
    match before {
        TerminatorView::Br { target } => {
            lemma_rewritten_by_renaming(m, ren, target.args, after->Br_target.args);
        },
        TerminatorView::CondBr { cond, if_true, if_false } => {
            lemma_rewritten_by_renaming(m, ren, if_true.args, after->if_true.args);
            lemma_rewritten_by_renaming(m, ren, if_false.args, after->if_false.args);
        },
        TerminatorView::Select { value, targets, default } => {
            let targets2 = after->targets;
            lemma_rewritten_by_renaming(m, ren, default.args, after->default.args);
            assert forall|i: int| 0 <= i < targets.len() implies #[trigger] targets2[i]
                == rename_target(ren, targets[i]) by {
                lemma_rewritten_by_renaming(m, ren, targets[i].args, targets2[i].args);
            }
            assert(targets2 =~= targets.map_values(|t: BlockTargetView| rename_target(ren, t)));
        },
        TerminatorView::Return { values } => {
            lemma_rewritten_by_renaming(m, ren, values, after->values);
        },
        _ => {},
    }
}

/// The renaming that cloning has built when it has entered the first `n`
/// parameters: parameter `i` goes to the value `base + i`. Where a value is
/// bound by several parameters, the last of them counts.
pub open spec fn param_renaming(params: Seq<(Type, Value)>, base: nat, n: nat) -> Map<
    Value,
    Value,
>
    decreases n,
{
    if n == 0 {
        Map::empty()
    } else {
        param_renaming(params, base, (n - 1) as nat).insert(
            params[n - 1].1,
            Value((base + n - 1) as usize),
        )
    }
}

/// The renaming that cloning has built when it has entered all parameters of
/// `block` and its first `n` instructions: parameter `i` goes to the value
/// `base + i`, and instruction `i` to the value that follows the new
/// parameters at distance `i`. Where a value occurs several times, the last
/// occurrence counts. Values that the block does not define have no entry.
pub open spec fn renaming(block: BlockView, base: nat, n: nat) -> Map<Value, Value>
    decreases n,
{
    if n == 0 {
        param_renaming(block.params, base, block.params.len())
    } else {
        renaming(block, base, (n - 1) as nat).insert(
            block.insts[n - 1],
            Value((base + block.params.len() + n - 1) as usize),
        )
    }
}

/// Whether `list2` in `pool2` is a private copy of `list` in `pool`, with
/// each value renamed: it lies in the part that `pool2` has beyond `pool`.
pub open spec fn list_cloned(
    ren: Map<Value, Value>,
    pool: Seq<Value>,
    list: ListRef,
    pool2: Seq<Value>,
    list2: ListRef,
) -> bool {
    &&& list2.len == list.len
    &&& list2.start >= pool.len()
    &&& list_in(pool2, list2)
    &&& list_items(pool2, list2) == rename_all(ren, list_items(pool, list))
}

/// Whether the definition `x2`, with the argument pool `pool2`, is a clone
/// for block `r` of the definition `x`, with the argument pool `pool`:
/// the same operator, result types, indices and identifiers, with every
/// operand renamed by `ren`, an operand list being a private copy.
pub open spec fn inst_cloned(
    ren: Map<Value, Value>,
    r: Block,
    pool: Seq<Value>,
    x: ValueDef,
    pool2: Seq<Value>,
    x2: ValueDef,
) -> bool {
    match x {
        ValueDef::BlockParam(_, index, ty) => x2 == ValueDef::BlockParam(r, index, ty),
        ValueDef::Operator(op, args, tys) => {
            &&& x2 matches ValueDef::Operator(op2, args2, tys2)
            &&& op2 == op
            &&& tys2 == tys
            &&& list_cloned(ren, pool, args, pool2, args2)
        },
        ValueDef::PickOutput(source, index, ty) => x2 == ValueDef::PickOutput(
            rename(ren, source),
            index,
            ty,
        ),
        ValueDef::Alias(target) => x2 == ValueDef::Alias(rename(ren, target)),
        ValueDef::Trace(id, args) => {
            &&& x2 matches ValueDef::Trace(id2, args2)
            &&& id2 == id
            &&& list_cloned(ren, pool, args, pool2, args2)
        },
        _ => x2 == x,
    }
}

/// Whether block `b` of `f` can be cloned: it is a block of `f`, and each of
/// its instructions is a value of `f` with a finished definition whose
/// operand list, if it has one, lies within the argument pool.
pub open spec fn clonable(f: FunctionBodyView, b: Block) -> bool {
    &&& f.has_block(b)
    &&& forall|i: int|
        0 <= i < f.block(b).insts.len() ==> {
            let v = #[trigger] f.block(b).insts[i];
            &&& f.has_value(v)
            &&& f.def(v).is_defined()
            &&& (f.def(v).operand_list() matches Some(list) ==> list_in(f.arg_pool, list))
        }
}

/// A block of a well-formed body can be cloned as soon as each of its
/// instructions has a finished definition.
pub proof fn lemma_well_formed_is_clonable(f: FunctionBodyView, b: Block)
    requires
        f.well_formed(),
        f.has_block(b),
        forall|i: int|
            0 <= i < f.block(b).insts.len() ==> f.def(#[trigger] f.block(b).insts[i]).is_defined(),
    ensures
        clonable(f, b),
{
    assert(f.block_ok(f.blocks[b.0 as int]));
    assert forall|i: int| 0 <= i < f.block(b).insts.len() implies {
        let v = #[trigger] f.block(b).insts[i];
        &&& f.has_value(v)
        &&& f.def(v).is_defined()
        &&& (f.def(v).operand_list() matches Some(list) ==> list_in(f.arg_pool, list))
    } by {
        let v = f.block(b).insts[i];
        assert(f.has_value(v));
        assert(f.def_ok(f.values[v.0 as int]));
    }
}

/// Whether `f2` is `f` with the clone `r` of block `b` added.
///
/// - `r` is a new block, the last of `f2`; every block of `f` is in `f2` as
///   it was. Type pool and entry are the same.
/// - The values and the argument pool of `f` are in `f2` as they were; the
///   new values and list items come after them.
/// - For each parameter of `b`, `r` has a parameter of the same type, bound
///   to a new value; for each instruction of `b`, `r` has an instruction
///   that is a new value. The new values are numbered in that order.
/// - The definition of new instruction `i` is that of instruction `i` of
///   `b`, with each operand renamed by the renaming of the parameters and
///   of the instructions before `i`. An operand that `b` does not define
///   stays as it is.
/// - The operand lists of the new instructions are private: they lie beyond
///   everything the pool of `f` held, and no two of them share a position.
/// - The terminator of `r` is that of `b`, with each value renamed by the
///   renaming of all parameters and instructions. Its destinations, `b`
///   itself among them, stay as they are.
pub open spec fn is_clone_of(
    f: FunctionBodyView,
    b: Block,
    f2: FunctionBodyView,
    r: Block,
) -> bool {
    let block = f.block(b);
    let base = f.values.len();
    let np = block.params.len();
    let ni = block.insts.len();
    &&& r.0 == f.blocks.len()
    &&& f2.blocks == f.blocks.push(f2.block(r))
    &&& f2.values.len() == base + np + ni
    &&& f2.values.len() <= usize::MAX
    &&& f.values.is_prefix_of(f2.values)
    &&& f.arg_pool.is_prefix_of(f2.arg_pool)
    &&& f2.type_pool == f.type_pool
    &&& f2.entry == f.entry
    &&& f2.block(r).params == Seq::new(np, |i: int| (block.params[i].0, Value((base + i) as usize)))
    &&& f2.block(r).insts == Seq::new(ni, |i: int| Value((base + np + i) as usize))
    &&& f2.block(r).terminator == rename_terminator(renaming(block, base, ni), block.terminator)
    &&& forall|i: int|
        0 <= i < np ==> #[trigger] f2.values[base + i] == ValueDef::BlockParam(
            r,
            i as usize,
            block.params[i].0,
        )
    &&& forall|i: int|
        0 <= i < ni ==> inst_cloned(
            renaming(block, base, i as nat),
            r,
            f.arg_pool,
            f.def(block.insts[i]),
            f2.arg_pool,
            #[trigger] f2.values[base + np + i],
        )
    &&& forall|i: int, j: int|
        0 <= i < j < ni ==> ((#[trigger] f2.values[base + np + i]).operand_list() matches Some(li) ==> ((
        #[trigger] f2.values[base + np + j]).operand_list() matches Some(lj) ==> li.end()
            <= lj.start))
}

/// The renaming that a map from handle numbers stands for.
spec fn by_value(map: Map<usize, Value>) -> Map<Value, Value> {
    Map::new(|v: Value| map.contains_key(v.0), |v: Value| map[v.0])
}

/// Entering a handle number enters the handle.
proof fn lemma_by_value_insert(map: Map<usize, Value>, v: Value, w: Value)
    ensures
        by_value(map.insert(v.0, w)) == by_value(map).insert(v, w),
{
    assert(by_value(map.insert(v.0, w)) =~= by_value(map).insert(v, w));
}

/// What the renaming that `map` stands for makes of `a`.
fn renamed(map: &BTreeMap<usize, Value>, a: Value) -> (w: Value)
    ensures
        w == rename(by_value(map@), a),
{
    broadcast use vstd::laws_cmp::group_laws_cmp;

    match map.get(&a.0) {
        Some(x) => *x,
        None => a,
    }
}

/// Enters `v` with its counterpart `w` into `map`, in place of what `map`
/// had for `v`.
fn enter(map: &mut BTreeMap<usize, Value>, v: Value, w: Value)
    ensures
        by_value(final(map)@) == by_value(old(map)@).insert(v, w),
{
    broadcast use vstd::laws_cmp::group_laws_cmp;

    map.insert(v.0, w);
    proof {
        lemma_by_value_insert(old(map)@, v, w);
    }
}

/// What the argument pool has gained does not change a clone.
proof fn lemma_inst_cloned_stable(
    ren: Map<Value, Value>,
    r: Block,
    pool: Seq<Value>,
    x: ValueDef,
    pool2: Seq<Value>,
    x2: ValueDef,
    pool3: Seq<Value>,
)
    requires
        inst_cloned(ren, r, pool, x, pool2, x2),
        pool2.is_prefix_of(pool3),
    ensures
        inst_cloned(ren, r, pool, x, pool3, x2),
{
    match x2.operand_list() {
        Some(list2) => {
            if x is Operator || x is Trace {
                assert(list_items(pool3, list2) =~= list_items(pool2, list2));
            }
        },
        None => {},
    }
}

/// A definition made ready under a closure that renames by `ren` is a clone
/// under `ren`.
proof fn lemma_tweaked_is_cloned<F: Fn(Value) -> Value>(
    m: F,
    ren: Map<Value, Value>,
    r: Block,
    pool0: Seq<Value>,
    pool: Seq<Value>,
    x: ValueDef,
    pool2: Seq<Value>,
    x2: ValueDef,
)
    requires
        renames_by(m, ren),
        value_tweaked(m, r, pool, x, pool2, x2),
        pool0.is_prefix_of(pool),
        x.operand_list() matches Some(list) ==> list_in(pool0, list),
    ensures
        inst_cloned(ren, r, pool0, x, pool2, x2),
        pool.is_prefix_of(pool2),
        x2.operand_list() matches Some(list2) ==> list2.start >= pool.len() && list2.end()
            <= pool2.len(),
        x2.operand_list() is Some <==> x.operand_list() is Some,
{
    match x.operand_list() {
        Some(list) => {
            let list2 = x2.operand_list()->0;
            let tail = pool2.subrange(pool.len() as int, pool2.len() as int);
            lemma_rewritten_by_renaming(m, ren, list_items(pool, list), tail);
            assert(list_items(pool, list) =~= list_items(pool0, list));
            assert(list_items(pool2, list2) =~= tail);
        },
        None => {},
    }
}

/// Whatever the renaming has an entry for goes to one of the new values.
proof fn lemma_renaming_range(block: BlockView, base: nat, n: nat, v: Value)
    requires
        n <= block.insts.len(),
        base + block.params.len() + n <= usize::MAX,
        renaming(block, base, n).contains_key(v),
    ensures
        base <= renaming(block, base, n)[v].0 < base + block.params.len() + n,
    decreases n,
{
    if n == 0 {
        lemma_param_renaming_range(block.params, base, block.params.len(), v);
    } else if v != block.insts[n - 1] {
        lemma_renaming_range(block, base, (n - 1) as nat, v);
    }
}

/// Whatever the renaming of the parameters has an entry for goes to one of
/// the new values.
proof fn lemma_param_renaming_range(
    params: Seq<(Type, Value)>,
    base: nat,
    n: nat,
    v: Value,
)
    requires
        n <= params.len(),
        base + n <= usize::MAX,
        param_renaming(params, base, n).contains_key(v),
    ensures
        base <= param_renaming(params, base, n)[v].0 < base + n,
    decreases n,
{
    if n > 0 && v != params[n - 1].1 {
        lemma_param_renaming_range(params, base, (n - 1) as nat, v);
    }
}

/// The clone of a block of a well-formed body leaves the body well formed.
pub proof fn lemma_clone_well_formed(f: FunctionBodyView, b: Block, f2: FunctionBodyView, r: Block)
    requires
        is_clone_of(f, b, f2, r),
        clonable(f, b),
        f.well_formed(),
    ensures
        f2.well_formed(),
{
    let block = f.block(b);
    let block2 = f2.block(r);
    let base = f.values.len();
    let np = block.params.len();
    let ni = block.insts.len();
    lemma_clone_keeps_body(f, b, f2, r);
    f2.lemma_ok_after_growth(f);
    assert(f.block_ok(block));
    assert forall|n: nat, v: Value| n <= ni && f.has_value(v) implies f2.has_value(
        #[trigger] rename(renaming(block, base, n), v),
    ) by {
        if renaming(block, base, n).contains_key(v) {
            lemma_renaming_range(block, base, n, v);
        }
    }
    assert forall|n: nat, s: Seq<Value>| n <= ni && f.has_values(s) implies f2.has_values(
        #[trigger] rename_all(renaming(block, base, n), s),
    ) by {
        let t = rename_all(renaming(block, base, n), s);
        assert forall|k: int| 0 <= k < t.len() implies f2.has_value(#[trigger] t[k]) by {
            assert(f.has_value(s[k]));
            assert(t[k] == rename(renaming(block, base, n), s[k]));
        }
    }
    assert forall|i: int| base <= i < f2.values.len() implies f2.def_ok(#[trigger] f2.values[i]) by {
        if i < base + np {
            let j = i - base;
            assert(f2.values[base + j] == ValueDef::BlockParam(r, j as usize, block.params[j].0));
        } else {
            let j = i - base - np;
            let x = f.def(block.insts[j]);
            let x2 = f2.values[base + np + j];
            let ren = renaming(block, base, j as nat);
            assert(inst_cloned(ren, r, f.arg_pool, x, f2.arg_pool, x2));
            assert(f.has_value(block.insts[j]));
            assert(f.def_ok(f.values[block.insts[j].0 as int]));
            match x {
                ValueDef::Operator(_, args, _) => {
                    assert(f.has_values(list_items(f.arg_pool, args)));
                    assert(f2.has_values(rename_all(ren, list_items(f.arg_pool, args))));
                },
                ValueDef::Trace(_, args) => {
                    assert(f.has_values(list_items(f.arg_pool, args)));
                    assert(f2.has_values(rename_all(ren, list_items(f.arg_pool, args))));
                },
                ValueDef::PickOutput(source, _, _) => {
                    assert(f2.has_value(rename(ren, source)));
                },
                ValueDef::Alias(target) => {
                    assert(f2.has_value(rename(ren, target)));
                },
                _ => {},
            }
        }
    }
    let full = renaming(block, base, ni);
    assert(f2.has_values(block2.param_values())) by {
        assert forall|k: int| 0 <= k < block2.param_values().len() implies f2.has_value(
            #[trigger] block2.param_values()[k],
        ) by {
            assert(block2.param_values()[k] == block2.params[k].1);
        }
    }
    assert(f2.has_values(block2.insts));
    assert(f2.terminator_ok(block2.terminator)) by {
        assert forall|t: BlockTargetView| f.target_ok(t) implies f2.target_ok(
            #[trigger] rename_target(full, t),
        ) by {
            assert(f2.has_values(rename_all(full, t.args)));
        }
        match block.terminator {
            TerminatorView::Br { target } => {
                assert(f2.target_ok(rename_target(full, target)));
            },
            TerminatorView::CondBr { cond, if_true, if_false } => {
                assert(f2.has_value(rename(full, cond)));
                assert(f2.target_ok(rename_target(full, if_true)));
                assert(f2.target_ok(rename_target(full, if_false)));
            },
            TerminatorView::Select { value, targets, default } => {
                assert(f2.has_value(rename(full, value)));
                assert(f2.target_ok(rename_target(full, default)));
                let targets2 = targets.map_values(|t: BlockTargetView| rename_target(full, t));
                assert forall|k: int| 0 <= k < targets2.len() implies f2.target_ok(
                    #[trigger] targets2[k],
                ) by {
                    assert(f.target_ok(targets[k]));
                    assert(targets2[k] == rename_target(full, targets[k]));
                }
            },
            TerminatorView::Return { values } => {
                assert(f2.has_values(rename_all(full, values)));
            },
            _ => {},
        }
    }
    assert(f2.blocks[f2.blocks.len() - 1] == block2);
    f2.lemma_well_formed_after_growth(f);
}

/// Adds to `f` a clone of block `b` and returns it.
///
/// The clone has a parameter for each parameter of `b` and an instruction
/// for each instruction of `b`, all of them new values. Within the clone,
/// what `b` defined is replaced by its counterpart; what `b` took from
/// outside is used as it is. Every operand list of the clone is a private
/// copy. The terminator goes where that of `b` goes: the successors are not
/// cloned, and nothing branches to the clone yet.
///
/// Nothing that `f` held changes: not `b`, no other block, no definition,
/// no list.
pub fn clone_block(f: &mut FunctionBody, b: Block) -> (r: Block)
    requires
        clonable(old(f)@, b),
    ensures
        is_clone_of(old(f)@, b, final(f)@, r),
        final(f)@.grows_from(old(f)@),
        old(f)@.well_formed() ==> final(f)@.well_formed(),
{
    let ghost f0 = f@;
    let ghost block = f0.block(b);
    let ghost base = f0.values.len();
    let ghost nb = f0.blocks.len();
    let mut map: BTreeMap<usize, Value> = BTreeMap::new();
    let r = f.add_block();
    let np = f.block(b).params.len();
    assert(by_value(map@) =~= param_renaming(block.params, base, 0));
    assert(f@.block(r).params =~= Seq::new(
        0nat,
        |j: int| (block.params[j].0, Value((base + j) as usize)),
    ));
    assert(f@.values =~= f0.values + Seq::new(
        0nat,
        |j: int| ValueDef::BlockParam(r, j as usize, block.params[j].0),
    ));
    let mut i: usize = 0;
    while i < np
        invariant
            i <= np,
            np == block.params.len(),
            clonable(f0, b),
            block == f0.block(b),
            base == f0.values.len(),
            nb == f0.blocks.len(),
            r.0 == nb,
            f@.blocks.len() == nb + 1,
            forall|k: int| 0 <= k < nb ==> f@.blocks[k] == f0.blocks[k],
            f@.block(r).params == Seq::new(
                i as nat,
                |j: int| (block.params[j].0, Value((base + j) as usize)),
            ),
            f@.block(r).insts == Seq::<Value>::empty(),
            f@.block(r).terminator == TerminatorView::Unset,
            f@.values == f0.values + Seq::new(
                i as nat,
                |j: int| ValueDef::BlockParam(r, j as usize, block.params[j].0),
            ),
            f@.arg_pool == f0.arg_pool,
            f@.type_pool == f0.type_pool,
            f@.entry == f0.entry,
            by_value(map@) == param_renaming(block.params, base, i as nat),
        decreases np - i,
    {
        let ghost before = f@;
        let (ty, pv) = f.block(b).params[i];
        let nv = f.add_blockparam(r, ty);
        enter(&mut map, pv, nv);
        proof {
            assert(before.block(r).params.len() == i);
            assert(f@.block(r).params =~= Seq::new(
                (i + 1) as nat,
                |j: int| (block.params[j].0, Value((base + j) as usize)),
            ));
            assert(f@.values =~= f0.values + Seq::new(
                (i + 1) as nat,
                |j: int| ValueDef::BlockParam(r, j as usize, block.params[j].0),
            ));
        }
        i += 1;
    }
    let ni = f.block(b).insts.len();
    let ghost new_params = f@.block(r).params;
    assert(f@.block(r).insts =~= Seq::new(0nat, |j: int| Value((base + np + j) as usize)));
    let mut i: usize = 0;
    while i < ni
        invariant
            i <= ni,
            np == block.params.len(),
            ni == block.insts.len(),
            clonable(f0, b),
            block == f0.block(b),
            base == f0.values.len(),
            nb == f0.blocks.len(),
            r.0 == nb,
            new_params == Seq::new(
                np as nat,
                |j: int| (block.params[j].0, Value((base + j) as usize)),
            ),
            f@.blocks.len() == nb + 1,
            forall|k: int| 0 <= k < nb ==> f@.blocks[k] == f0.blocks[k],
            f@.block(r).params == new_params,
            f@.block(r).insts == Seq::new(i as nat, |j: int| Value((base + np + j) as usize)),
            f@.block(r).terminator == TerminatorView::Unset,
            f@.values.len() == base + np + i,
            f0.values.is_prefix_of(f@.values),
            f0.arg_pool.is_prefix_of(f@.arg_pool),
            f@.type_pool == f0.type_pool,
            f@.entry == f0.entry,
            forall|j: int|
                0 <= j < np ==> #[trigger] f@.values[base + j] == ValueDef::BlockParam(
                    r,
                    j as usize,
                    block.params[j].0,
                ),
            forall|j: int|
                0 <= j < i ==> inst_cloned(
                    renaming(block, base, j as nat),
                    r,
                    f0.arg_pool,
                    f0.def(block.insts[j]),
                    f@.arg_pool,
                    #[trigger] f@.values[base + np + j],
                ),
            forall|j: int, k: int|
                0 <= j < k < i ==> ((#[trigger] f@.values[base + np + j]).operand_list() matches Some(
                    lj,
                ) ==> ((#[trigger] f@.values[base + np + k]).operand_list() matches Some(lk)
                    ==> lj.end() <= lk.start)),
            forall|j: int|
                0 <= j < i ==> ((#[trigger] f@.values[base + np + j]).operand_list() matches Some(lj)
                    ==> lj.end() <= f@.arg_pool.len()),
            by_value(map@) == renaming(block, base, i as nat),
        decreases ni - i,
    {
        let ghost before = f@;
        let ghost ren = by_value(map@);
        let v = f.block(b).insts[i];
        assert(v == block.insts[i as int]);
        assert(before.def(v) == f0.def(v));
        let rename_now = |a: Value| -> (w: Value)
            ensures
                w == rename(by_value(map@), a),
            {
                renamed(&map, a)
            };
        let n = clone_value(f, rename_now, v, r);
        let ghost mid = f@;
        enter(&mut map, v, n);
        f.append_to_block(r, n);
        proof {
            assert(f@.block(r).insts =~= Seq::new(
                (i + 1) as nat,
                |j: int| Value((base + np + j) as usize),
            ));
            assert(f@.values == before.values.push(mid.def(n)));
            lemma_tweaked_is_cloned(
                rename_now,
                ren,
                r,
                f0.arg_pool,
                before.arg_pool,
                f0.def(v),
                f@.arg_pool,
                mid.def(n),
            );
            assert forall|j: int| 0 <= j < i + 1 implies inst_cloned(
                renaming(block, base, j as nat),
                r,
                f0.arg_pool,
                f0.def(block.insts[j]),
                f@.arg_pool,
                #[trigger] f@.values[base + np + j],
            ) by {
                if j < i {
                    assert(f@.values[base + np + j] == before.values[base + np + j]);
                    lemma_inst_cloned_stable(
                        renaming(block, base, j as nat),
                        r,
                        f0.arg_pool,
                        f0.def(block.insts[j]),
                        before.arg_pool,
                        before.values[base + np + j],
                        f@.arg_pool,
                    );
                } else {
                    assert(f@.values[base + np + j] == mid.def(n));
                }
            }
            assert forall|j: int| 0 <= j < np implies #[trigger] f@.values[base + j]
                == ValueDef::BlockParam(r, j as usize, block.params[j].0) by {
                assert(f@.values[base + j] == before.values[base + j]);
            }
            assert forall|j: int| 0 <= j < i + 1 implies ((#[trigger] f@.values[base + np
                + j]).operand_list() matches Some(lj) ==> lj.end() <= f@.arg_pool.len()) by {
                if j < i {
                    assert(f@.values[base + np + j] == before.values[base + np + j]);
                }
            }
            assert forall|j: int, k: int| 0 <= j < k < i + 1 implies ((#[trigger] f@.values[base
                + np + j]).operand_list() matches Some(lj) ==> ((#[trigger] f@.values[base + np
                + k]).operand_list() matches Some(lk) ==> lj.end() <= lk.start)) by {
                assert(f@.values[base + np + j] == before.values[base + np + j]);
                if k < i {
                    assert(f@.values[base + np + k] == before.values[base + np + k]);
                }
            }
        }
        i += 1;
    }
    let mut t = f.block(b).terminator.clone();
    let rename_now = |a: Value| -> (w: Value)
        ensures
            w == rename(by_value(map@), a),
        {
            renamed(&map, a)
        };
    tweak_terminator_with(&mut t, &rename_now);
    proof {
        lemma_terminator_rewritten_by_renaming(rename_now, by_value(map@), block.terminator, t@);
    }
    f.set_terminator(r, t);
    proof {
        assert(f@.blocks =~= f0.blocks.push(f@.block(r)));
        assert(f@.values.len() == f.values.items.len());
        if f0.well_formed() {
            lemma_clone_well_formed(f0, b, f@, r);
        }
    }
    r
}

/// The values that block `b` of `f` defines: those that its parameters bind
/// and its instructions.
pub open spec fn locals_of(f: FunctionBodyView, b: Block) -> Set<Value> {
    Set::new(|v: Value| f.block(b).defines(v))
}

/// Whether `v` is in scope at block `b` of `f`: some block that dominates
/// `b`, which may be `b` itself, defines it.
pub open spec fn in_scope(f: FunctionBodyView, b: Block, v: Value) -> bool {
    exists|k: Block| f.has_block(k) && #[trigger] cfg_of(f).dominates(k, b) && f.block(k).defines(v)
}

/// The values that are in scope at block `b` of `f`.
pub open spec fn scope_of(f: FunctionBodyView, b: Block) -> Set<Value> {
    Set::new(|v: Value| in_scope(f, b, v))
}

/// Whether every use in `f` is in scope: whatever a block reads, as an
/// operand of one of its instructions or in its terminator, is defined by
/// the block or by a block that dominates it.
pub open spec fn uses_in_scope(f: FunctionBodyView) -> bool {
    forall|b: Block, v: Value| f.has_block(b) && #[trigger] f.block_uses(b, v) ==> in_scope(f, b, v)
}

/// What a block defines is in scope at the block.
pub proof fn lemma_locals_in_scope(f: FunctionBodyView, b: Block)
    requires
        f.has_block(b),
    ensures
        locals_of(f, b).subset_of(scope_of(f, b)),
{
    cfg_of(f).lemma_dominates_reflexive(b);
}

/// What is in scope at a block is in scope at every block that it
/// dominates.
pub proof fn lemma_scope_passes_down(f: FunctionBodyView, a: Block, b: Block)
    requires
        cfg_of(f).dominates(a, b),
    ensures
        scope_of(f, a).subset_of(scope_of(f, b)),
{
    assert forall|v: Value| scope_of(f, a).contains(v) implies scope_of(f, b).contains(v) by {
        let k = choose|k: Block|
            f.has_block(k) && #[trigger] cfg_of(f).dominates(k, a) && f.block(k).defines(v);
        cfg_of(f).lemma_dominates_transitive(k, a, b);
    }
}

/// A value is in scope at a block exactly if the block, or a block that
/// dominates it, defines the value: a use is in scope exactly if its
/// definition dominates it.
pub proof fn lemma_scope_is_dominating_definitions(f: FunctionBodyView, b: Block, v: Value)
    ensures
        scope_of(f, b).contains(v) <==> exists|k: Block|
            f.has_block(k) && #[trigger] cfg_of(f).dominates(k, b) && locals_of(f, k).contains(v),
{
    if scope_of(f, b).contains(v) {
        let k = choose|k: Block|
            f.has_block(k) && #[trigger] cfg_of(f).dominates(k, b) && f.block(k).defines(v);
        assert(locals_of(f, k).contains(v));
    }
}

/// Adds to `s` the values that block `k` defines.
fn add_locals(f: &FunctionBody, k: Block, s: &mut ValueSet)
    requires
        f@.has_block(k),
    ensures
        final(s)@ == old(s)@ + locals_of(f@, k),
{
    let block = f.block(k);
    let np = block.params.len();
    let mut i: usize = 0;
    while i < np
        invariant
            i <= np,
            np == block@.params.len(),
            s@ == old(s)@ + Set::new(
                |v: Value| exists|j: int| 0 <= j < i && (#[trigger] block@.params[j]).1 == v,
            ),
        decreases np - i,
    {
        s.insert(block.params[i].1);
        assert(s@ =~= old(s)@ + Set::new(
            |v: Value| exists|j: int| 0 <= j < i + 1 && (#[trigger] block@.params[j]).1 == v,
        ));
        i += 1;
    }
    let ni = block.insts.len();
    let ghost bound = Set::new(
        |v: Value| exists|j: int| 0 <= j < np && (#[trigger] block@.params[j]).1 == v,
    );
    let mut i: usize = 0;
    while i < ni
        invariant
            i <= ni,
            ni == block@.insts.len(),
            s@ == old(s)@ + bound + Set::new(
                |v: Value| exists|j: int| 0 <= j < i && #[trigger] block@.insts[j] == v,
            ),
        decreases ni - i,
    {
        s.insert(block.insts[i]);
        assert(s@ =~= old(s)@ + bound + Set::new(
            |v: Value| exists|j: int| 0 <= j < i + 1 && #[trigger] block@.insts[j] == v,
        ));
        i += 1;
    }
    proof {
        assert forall|v: Value| block@.param_values().contains(v) <==> bound.contains(v) by {
            if block@.param_values().contains(v) {
                let j = choose|j: int|
                    0 <= j < block@.param_values().len() && block@.param_values()[j] == v;
                assert(block@.params[j].1 == v);
            }
            if bound.contains(v) {
                let j = choose|j: int| 0 <= j < np && (#[trigger] block@.params[j]).1 == v;
                assert(block@.param_values()[j] == v);
            }
        }
        assert(s@ =~= old(s)@ + locals_of(f@, k));
    }
}

/// The values that block `b` defines: those that its parameters bind and
/// its instructions. No other block is looked at.
pub fn locals(f: &FunctionBody, b: Block) -> (r: ValueSet)
    requires
        f@.has_block(b),
    ensures
        r@ == locals_of(f@, b),
{
    let mut s = ValueSet::new();
    add_locals(f, b, &mut s);
    assert(s@ =~= locals_of(f@, b));
    s
}

/// The values that are in scope at block `b`: what `b` defines and what the
/// blocks that dominate `b` define. A use in `b` may refer to these and to
/// no others.
///
/// Dominance is computed anew on each call, and every block is tested
/// against `b`.
pub fn values(f: &FunctionBody, b: Block) -> (r: ValueSet)
    requires
        f@.has_block(b),
    ensures
        r@ == scope_of(f@, b),
{
    let c = CFGInfo::new(f);
    let mut s = ValueSet::new();
    let n = f.blocks.len();
    let mut i: usize = 0;
    while i < n
        invariant
            i <= n,
            n == f@.blocks.len(),
            c@ == cfg_of(f@),
            s@ == Set::new(
                |v: Value|
                    exists|k: Block|
                        k.0 < i && #[trigger] cfg_of(f@).dominates(k, b) && f@.block(k).defines(v),
            ),
        decreases n - i,
    {
        let k = Block(i);
        if c.dominates(k, b) {
            add_locals(f, k, &mut s);
        }
        assert(s@ =~= Set::new(
            |v: Value|
                exists|k: Block|
                    k.0 < i + 1 && #[trigger] cfg_of(f@).dominates(k, b) && f@.block(k).defines(v),
        )) by {
            let before = Set::new(
                |v: Value|
                    exists|k: Block|
                        k.0 < i && #[trigger] cfg_of(f@).dominates(k, b) && f@.block(k).defines(v),
            );
            let after = Set::new(
                |v: Value|
                    exists|k: Block|
                        k.0 < i + 1 && #[trigger] cfg_of(f@).dominates(k, b) && f@.block(k).defines(
                            v,
                        ),
            );
            assert forall|v: Value| after.contains(v) implies s@.contains(v) by {
                let kk = choose|kk: Block|
                    kk.0 < i + 1 && #[trigger] cfg_of(f@).dominates(kk, b) && f@.block(kk).defines(v);
                if kk.0 < i {
                    assert(before.contains(v));
                } else {
                    assert(kk == k);
                }
            }
            assert forall|v: Value| s@.contains(v) implies after.contains(v) by {
                if before.contains(v) {
                    let kk = choose|kk: Block|
                        kk.0 < i && #[trigger] cfg_of(f@).dominates(kk, b) && f@.block(kk).defines(
                            v,
                        );
                    assert(kk.0 < i + 1);
                } else {
                    assert(cfg_of(f@).dominates(k, b) && f@.block(k).defines(v));
                }
            }
        }
        i += 1;
    }
    assert(s@ =~= scope_of(f@, b));
    s
}

/// Cloning a block leaves what the body held as it was: every block that
/// was there, the cloned one among them, with its parameters, instructions
/// and terminator; every definition; the items of every list of the
/// argument pool, and with them the operands of every value.
pub proof fn lemma_clone_keeps_body(f: FunctionBodyView, b: Block, f2: FunctionBodyView, r: Block)
    requires
        is_clone_of(f, b, f2, r),
    ensures
        forall|k: Block| f.has_block(k) ==> #[trigger] f2.block(k) == f.block(k),
        f.has_block(b) ==> locals_of(f2, b) == locals_of(f, b),
        forall|v: Value| f.has_value(v) ==> #[trigger] f2.def(v) == f.def(v),
        forall|list: ListRef|
            list_in(f.arg_pool, list) ==> #[trigger] list_items(f2.arg_pool, list) == list_items(
                f.arg_pool,
                list,
            ),
        forall|v: Value|
            f.has_value(v) && (f.def(v).operand_list() matches Some(list) ==> list_in(
                f.arg_pool,
                list,
            )) ==> #[trigger] f2.operands(v) == f.operands(v),
        f2.grows_from(f),
{
    assert forall|k: Block| f.has_block(k) implies #[trigger] f2.block(k) == f.block(k) by {
        assert(f2.blocks[k.0 as int] == f.blocks.push(f2.block(r))[k.0 as int]);
    }
    assert forall|list: ListRef| list_in(f.arg_pool, list) implies #[trigger] list_items(
        f2.arg_pool,
        list,
    ) == list_items(f.arg_pool, list) by {
        assert(list_items(f2.arg_pool, list) =~= list_items(f.arg_pool, list));
    }
    assert forall|v: Value|
        f.has_value(v) && (f.def(v).operand_list() matches Some(list) ==> list_in(
            f.arg_pool,
            list,
        )) implies #[trigger] f2.operands(v) == f.operands(v) by {
        assert(f2.def(v) == f.def(v));
        match f.def(v).operand_list() {
            Some(list) => {
                assert(list_items(f2.arg_pool, list) == list_items(f.arg_pool, list));
            },
            None => {},
        }
    }
    if f.has_block(b) {
        assert(f2.block(b) == f.block(b));
        assert(locals_of(f2, b) =~= locals_of(f, b));
    }
}

/// In a well-formed body every path stays within the body, also when the
/// graph is that of the body with a clone added: no block of the body
/// branches to the clone.
proof fn lemma_path_avoids_clone(
    f: FunctionBodyView,
    b: Block,
    f2: FunctionBodyView,
    r: Block,
    p: Seq<Block>,
    i: int,
)
    requires
        is_clone_of(f, b, f2, r),
        f.well_formed(),
        cfg_of(f2).is_path(p),
        0 <= i < p.len(),
    ensures
        f.has_block(p[i]),
        i > 0 ==> cfg_of(f).edge(p[i - 1], p[i]),
    decreases i,
{
    if i > 0 {
        lemma_path_avoids_clone(f, b, f2, r, p, i - 1);
        let x = p[i - 1];
        let y = p[i];
        assert(cfg_of(f2).step(p, i - 1));
        assert(f2.blocks[x.0 as int] == f.blocks.push(f2.block(r))[x.0 as int]);
        let t = f.blocks[x.0 as int].terminator;
        assert(f.block_ok(f.blocks[x.0 as int]));
        let k = choose|k: int| 0 <= k < t.successors().len() && t.successors()[k] == y;
        assert(t.successors()[k] == t.targets()[k].block);
        match t {
            TerminatorView::Select { value, targets, default } => {
                if k < targets.len() {
                    assert(f.target_ok(targets[k]));
                }
            },
            _ => {},
        }
        assert(f.has_block(y));
    }
}

/// Cloning a block of a well-formed body changes no path from the entry,
/// and so it changes neither reachability nor dominance, nor what is in
/// scope at a block that the body had, nor what such a block reads. The
/// clone itself is unreachable until something branches to it: only what it
/// defines is in scope at it.
pub proof fn lemma_clone_keeps_dominance(
    f: FunctionBodyView,
    b: Block,
    f2: FunctionBodyView,
    r: Block,
)
    requires
        is_clone_of(f, b, f2, r),
        f.well_formed(),
    ensures
        forall|p: Seq<Block>| #[trigger] cfg_of(f2).is_path(p) <==> cfg_of(f).is_path(p),
        forall|k: Block| #[trigger] cfg_of(f2).reachable(k) <==> cfg_of(f).reachable(k),
        forall|a: Block, k: Block|
            #[trigger] cfg_of(f2).dominates(a, k) <==> cfg_of(f).dominates(a, k),
        !cfg_of(f2).reachable(r),
        forall|k: Block| f.has_block(k) ==> #[trigger] scope_of(f2, k) == scope_of(f, k),
        scope_of(f2, r) == locals_of(f2, r),
        forall|k: Block, v: Value|
            f.has_block(k) ==> (#[trigger] f2.block_uses(k, v) <==> f.block_uses(k, v)),
{
    let g = cfg_of(f);
    let g2 = cfg_of(f2);
    lemma_clone_keeps_body(f, b, f2, r);
    assert forall|x: Block| f.has_block(x) implies #[trigger] g2.succs[x.0 as int] == g.succs[x.0 as int] by {
        assert(f2.block(x) == f.block(x));
    }
    assert forall|p: Seq<Block>| #[trigger] g2.is_path(p) <==> g.is_path(p) by {
        if g2.is_path(p) {
            assert forall|i: int| 0 <= i < p.len() - 1 implies #[trigger] g.step(p, i) by {
                lemma_path_avoids_clone(f, b, f2, r, p, i + 1);
            }
            lemma_path_avoids_clone(f, b, f2, r, p, 0);
        }
        if g.is_path(p) {
            assert forall|i: int| 0 <= i < p.len() - 1 implies #[trigger] g2.step(p, i) by {
                assert(g.step(p, i));
                assert(g2.succs[p[i].0 as int] == g.succs[p[i].0 as int]);
            }
        }
    }
    assert forall|k: Block| #[trigger] g2.reachable(k) <==> g.reachable(k) by {
        if g2.reachable(k) {
            let p = choose|p: Seq<Block>| g2.path_to(p, k);
            assert(g2.is_path(p));
            assert(g.path_to(p, k));
        }
        if g.reachable(k) {
            let p = choose|p: Seq<Block>| g.path_to(p, k);
            assert(g.is_path(p));
            assert(g2.path_to(p, k));
        }
    }
    assert forall|a: Block, k: Block| #[trigger] g2.dominates(a, k) <==> g.dominates(a, k) by {
        if g.on_every_path(a, k) {
            assert forall|p: Seq<Block>| #[trigger] g2.path_to(p, k) implies p.contains(a) by {
                assert(g2.is_path(p));
                assert(g.path_to(p, k));
            }
        }
        if g2.on_every_path(a, k) {
            assert forall|p: Seq<Block>| #[trigger] g.path_to(p, k) implies p.contains(a) by {
                assert(g.is_path(p));
                assert(g2.path_to(p, k));
            }
        }
    }
    if g.reachable(r) {
        g.lemma_reachable_in_graph(r, r);
    }
    assert forall|k: Block| f.has_block(k) implies #[trigger] scope_of(f2, k) == scope_of(f, k) by {
        assert forall|v: Value| in_scope(f2, k, v) <==> in_scope(f, k, v) by {
            if in_scope(f2, k, v) {
                let d = choose|d: Block|
                    f2.has_block(d) && #[trigger] g2.dominates(d, k) && f2.block(d).defines(v);
                assert(g.dominates(d, k));
                if d == r {
                    if g.reachable(k) {
                        g.lemma_reachable_in_graph(r, k);
                    }
                }
                assert(f.has_block(d));
                assert(f2.block(d) == f.block(d));
            }
            if in_scope(f, k, v) {
                let d = choose|d: Block|
                    f.has_block(d) && #[trigger] g.dominates(d, k) && f.block(d).defines(v);
                assert(g2.dominates(d, k));
                assert(f2.block(d) == f.block(d));
            }
        }
        assert(scope_of(f2, k) =~= scope_of(f, k));
    }
    assert(scope_of(f2, r) =~= locals_of(f2, r)) by {
        g2.lemma_dominates_reflexive(r);
        assert forall|v: Value| in_scope(f2, r, v) implies f2.block(r).defines(v) by {
            let d = choose|d: Block|
                f2.has_block(d) && #[trigger] g2.dominates(d, r) && f2.block(d).defines(v);
            assert(d == r);
        }
    }
    assert forall|k: Block, v: Value| f.has_block(k) implies (#[trigger] f2.block_uses(k, v)
        <==> f.block_uses(k, v)) by {
        assert(f2.block(k) == f.block(k));
        let block = f.block(k);
        assert(f.block_ok(f.blocks[k.0 as int]));
        assert forall|i: int| 0 <= i < block.insts.len() implies f.has_value(block.insts[i])
            && f2.has_value(block.insts[i]) && #[trigger] f2.operands(block.insts[i]) == f.operands(
            block.insts[i],
        ) by {
            let inst = block.insts[i];
            assert(f.has_value(inst));
            assert(f.def_ok(f.values[inst.0 as int]));
        }
        if f2.block_uses(k, v) && !block.terminator.uses(v) {
            let i = choose|i: int|
                0 <= i < block.insts.len() && f2.has_value(block.insts[i]) && (
                #[trigger] f2.operands(block.insts[i])).contains(v);
            assert(f.operands(block.insts[i]).contains(v));
        }
        if f.block_uses(k, v) && !block.terminator.uses(v) {
            let i = choose|i: int|
                0 <= i < block.insts.len() && f.has_value(block.insts[i]) && (
                #[trigger] f.operands(block.insts[i])).contains(v);
            assert(f2.operands(block.insts[i]).contains(v));
        }
    }
}

/// The operand lists of a clone are private. When item `at` of the operand
/// list of the clone's instruction `i` is overwritten, no list that the
/// body held before the cloning changes, and neither does the operand list
/// of any other instruction of the clone.
pub proof fn lemma_clone_lists_private(
    f: FunctionBodyView,
    b: Block,
    f2: FunctionBodyView,
    r: Block,
    i: int,
    at: int,
    x: Value,
)
    requires
        is_clone_of(f, b, f2, r),
        clonable(f, b),
        0 <= i < f.block(b).insts.len(),
        f2.def(f2.block(r).insts[i]).operand_list() is Some,
        0 <= at < f2.def(f2.block(r).insts[i]).operand_list()->0.len,
    ensures
        ({
            let edited = f2.def(f2.block(r).insts[i]).operand_list()->0;
            let pool3 = f2.arg_pool.update(edited.start + at, x);
            &&& list_in(f2.arg_pool, edited)
            &&& list_items(pool3, edited) == list_items(f2.arg_pool, edited).update(at, x)
            &&& forall|list: ListRef|
                list_in(f.arg_pool, list) ==> #[trigger] list_items(pool3, list) == list_items(
                    f.arg_pool,
                    list,
                )
            &&& forall|j: int|
                0 <= j < f.block(b).insts.len() && j != i ==> (f2.def(
                    #[trigger] f2.block(r).insts[j],
                ).operand_list() matches Some(other) ==> list_in(f2.arg_pool, other) && list_items(
                    pool3,
                    other,
                ) == list_items(f2.arg_pool, other))
        }),
{
    let block = f.block(b);
    let base = f.values.len();
    let np = block.params.len();
    let ni = block.insts.len();
    let edited = f2.def(f2.block(r).insts[i]).operand_list()->0;
    let pool3 = f2.arg_pool.update(edited.start + at, x);
    assert(f2.def(f2.block(r).insts[i]) == f2.values[base + np + i]);
    assert(inst_cloned(
        renaming(block, base, i as nat),
        r,
        f.arg_pool,
        f.def(block.insts[i]),
        f2.arg_pool,
        f2.values[base + np + i],
    ));
    assert(f.def(block.insts[i]).is_defined());
    assert(list_in(f2.arg_pool, edited) && edited.start >= f.arg_pool.len());
    assert(list_items(pool3, edited) =~= list_items(f2.arg_pool, edited).update(at, x));
    assert forall|list: ListRef| list_in(f.arg_pool, list) implies #[trigger] list_items(
        pool3,
        list,
    ) == list_items(f.arg_pool, list) by {
        assert(list_items(pool3, list) =~= list_items(f.arg_pool, list));
    }
    assert forall|j: int| 0 <= j < ni && j != i implies (f2.def(
        #[trigger] f2.block(r).insts[j],
    ).operand_list() matches Some(other) ==> list_in(f2.arg_pool, other) && list_items(
        pool3,
        other,
    ) == list_items(f2.arg_pool, other)) by {
        assert(f2.def(f2.block(r).insts[j]) == f2.values[base + np + j]);
        match f2.values[base + np + j].operand_list() {
            Some(other) => {
                assert(inst_cloned(
                    renaming(block, base, j as nat),
                    r,
                    f.arg_pool,
                    f.def(block.insts[j]),
                    f2.arg_pool,
                    f2.values[base + np + j],
                ));
                assert(f.def(block.insts[j]).is_defined());
                assert(list_in(f2.arg_pool, other));
                if i < j {
                    assert(edited.end() <= other.start);
                } else {
                    assert(other.end() <= edited.start);
                }
                assert(list_items(pool3, other) =~= list_items(f2.arg_pool, other));
            },
            None => {},
        }
    }
}

/// The values that `block` defines, in the order in which a clone numbers
/// their counterparts: those that the parameters bind, then the
/// instructions.
pub open spec fn local_values(block: BlockView) -> Seq<Value> {
    block.param_values() + block.insts
}

/// The counterpart of `v` in a clone of `block` that was made when the body
/// had `base` values: for a value that `block` defines, the new value at the
/// same place in the clone; for any other value, the value itself.
pub open spec fn counterpart(block: BlockView, base: nat, v: Value) -> Value {
    if local_values(block).contains(v) {
        Value((base + local_values(block).index_of(v)) as usize)
    } else {
        v
    }
}

/// Whether block `b` of `f` is in SSA form as far as it goes by itself: what
/// it defines are values of `f`, each defined once, and no instruction
/// reads itself or an instruction that comes after it.
pub open spec fn in_ssa_form(f: FunctionBodyView, b: Block) -> bool {
    let block = f.block(b);
    &&& local_values(block).no_duplicates()
    &&& forall|i: int|
        0 <= i < local_values(block).len() ==> f.has_value(#[trigger] local_values(block)[i])
    &&& forall|i: int, j: int|
        0 <= i <= j < block.insts.len() ==> !f.operands(#[trigger] block.insts[i]).contains(
            #[trigger] block.insts[j],
        )
}

/// Where no two parameters bind the same value, the renaming of the
/// parameters sends each to the new value at its place and has no other
/// entry.
proof fn lemma_param_renaming(params: Seq<(Type, Value)>, base: nat, n: nat)
    requires
        n <= params.len(),
        forall|p: int, q: int| 0 <= p < q < n ==> (#[trigger] params[p]).1 != (#[trigger] params[q]).1,
    ensures
        forall|p: int|
            0 <= p < n ==> param_renaming(params, base, n).contains_key((#[trigger] params[p]).1)
                && param_renaming(params, base, n)[params[p].1] == Value((base + p) as usize),
        forall|v: Value|
            param_renaming(params, base, n).contains_key(v) ==> exists|p: int|
                0 <= p < n && (#[trigger] params[p]).1 == v,
    decreases n,
{
    if n > 0 {
        lemma_param_renaming(params, base, (n - 1) as nat);
        let before = param_renaming(params, base, (n - 1) as nat);
        let now = param_renaming(params, base, n);
        assert forall|v: Value| now.contains_key(v) implies exists|p: int|
            0 <= p < n && (#[trigger] params[p]).1 == v by {
            if v == params[n - 1].1 {
            } else {
                assert(before.contains_key(v));
                let p = choose|p: int| 0 <= p < n - 1 && (#[trigger] params[p]).1 == v;
                assert(0 <= p < n && params[p].1 == v);
            }
        }
    }
}

/// Where the block defines each value once, the renaming sends each
/// parameter and each instruction entered so far to the new value at its
/// place and has no other entry.
proof fn lemma_renaming(block: BlockView, base: nat, n: nat)
    requires
        n <= block.insts.len(),
        local_values(block).no_duplicates(),
    ensures
        forall|p: int|
            0 <= p < block.params.len() ==> renaming(block, base, n).contains_key(
                (#[trigger] block.params[p]).1,
            ) && renaming(block, base, n)[block.params[p].1] == Value((base + p) as usize),
        forall|q: int|
            0 <= q < n ==> renaming(block, base, n).contains_key(#[trigger] block.insts[q])
                && renaming(block, base, n)[block.insts[q]] == Value(
                (base + block.params.len() + q) as usize,
            ),
        forall|v: Value|
            renaming(block, base, n).contains_key(v) ==> (exists|p: int|
                0 <= p < block.params.len() && (#[trigger] block.params[p]).1 == v) || (exists|
                q: int,
            |
                0 <= q < n && #[trigger] block.insts[q] == v),
    decreases n,
{
    let np = block.params.len() as int;
    let locals = local_values(block);
    assert forall|p: int| 0 <= p < np implies #[trigger] locals[p] == block.params[p].1 by {
        assert(block.param_values()[p] == block.params[p].1);
    }
    assert forall|q: int| 0 <= q < block.insts.len() implies #[trigger] locals[np + q]
        == block.insts[q] by {}
    if n == 0 {
        assert forall|p: int, q: int| 0 <= p < q < np implies (#[trigger] block.params[p]).1 != (
        #[trigger] block.params[q]).1 by {
            assert(locals[p] != locals[q]);
        }
        lemma_param_renaming(block.params, base, block.params.len());
    } else {
        lemma_renaming(block, base, (n - 1) as nat);
        let before = renaming(block, base, (n - 1) as nat);
        let now = renaming(block, base, n);
        let key = block.insts[n - 1];
        assert(locals[np + n - 1] == key);
        assert forall|p: int| 0 <= p < np implies now.contains_key((#[trigger] block.params[p]).1)
            && now[block.params[p].1] == Value((base + p) as usize) by {
            assert(locals[p] != locals[np + n - 1]);
        }
        assert forall|q: int| 0 <= q < n implies now.contains_key(#[trigger] block.insts[q])
            && now[block.insts[q]] == Value((base + np + q) as usize) by {
            if q < n - 1 {
                assert(locals[np + q] != locals[np + n - 1]);
            }
        }
        assert forall|v: Value| now.contains_key(v) implies (exists|p: int|
            0 <= p < np && (#[trigger] block.params[p]).1 == v) || (exists|q: int|
            0 <= q < n && #[trigger] block.insts[q] == v) by {
            if v == key {
                assert(block.insts[n - 1] == v);
            } else {
                assert(before.contains_key(v));
                if exists|q: int| 0 <= q < n - 1 && #[trigger] block.insts[q] == v {
                    let q = choose|q: int| 0 <= q < n - 1 && #[trigger] block.insts[q] == v;
                    assert(0 <= q < n && block.insts[q] == v);
                }
            }
        }
    }
}

/// In a block in which every value is defined once, the renaming that
/// cloning has built after `n` instructions sends each parameter and each
/// of those instructions to its counterpart and leaves every other value as
/// it is.
pub proof fn lemma_renaming_gives_counterparts(block: BlockView, base: nat, n: nat, v: Value)
    requires
        n <= block.insts.len(),
        local_values(block).no_duplicates(),
        forall|j: int| n <= j < block.insts.len() ==> block.insts[j] != v,
    ensures
        rename(renaming(block, base, n), v) == counterpart(block, base, v),
{
    let np = block.params.len() as int;
    let locals = local_values(block);
    let ren = renaming(block, base, n);
    lemma_renaming(block, base, n);
    assert forall|p: int| 0 <= p < np implies #[trigger] locals[p] == block.params[p].1 by {
        assert(block.param_values()[p] == block.params[p].1);
    }
    assert forall|q: int| 0 <= q < block.insts.len() implies #[trigger] locals[np + q]
        == block.insts[q] by {}
    if locals.contains(v) {
        let idx = locals.index_of(v);
        assert(0 <= idx < locals.len() && locals[idx] == v);
        if idx < np {
            assert(block.params[idx].1 == v);
        } else {
            let q = idx - np;
            assert(locals[np + q] == block.insts[q]);
            assert(block.insts[q] == v);
            assert(q < n);
        }
    } else {
        if ren.contains_key(v) {
            if exists|p: int| 0 <= p < np && (#[trigger] block.params[p]).1 == v {
                let p = choose|p: int| 0 <= p < np && (#[trigger] block.params[p]).1 == v;
                assert(locals[p] == v);
            } else {
                let q = choose|q: int| 0 <= q < n && #[trigger] block.insts[q] == v;
                assert(locals[np + q] == v);
            }
        }
    }
}

/// A clone of a block in SSA form is independent of the block.
///
/// - What the clone defines is new: none of it was a value of the body
///   before, so none of it is defined by the cloned block.
/// - What the clone defines are the counterparts of what the block defines,
///   place by place.
/// - The operands of each instruction of the clone are the operands of the
///   instruction it was cloned from, each replaced by its counterpart: an
///   operand that the block defines by the corresponding value of the
///   clone, any other operand by itself.
/// - The terminator of the clone is that of the block with every value
///   replaced by its counterpart.
pub proof fn lemma_clone_independence(f: FunctionBodyView, b: Block, f2: FunctionBodyView, r: Block)
    requires
        is_clone_of(f, b, f2, r),
        clonable(f, b),
        in_ssa_form(f, b),
    ensures
        forall|v: Value|
            f2.block(r).defines(v) ==> !f.has_value(v) && !#[trigger] f.block(b).defines(v),
        local_values(f2.block(r)).len() == local_values(f.block(b)).len(),
        forall|i: int|
            0 <= i < local_values(f.block(b)).len() ==> counterpart(
                f.block(b),
                f.values.len(),
                #[trigger] local_values(f.block(b))[i],
            ) == local_values(f2.block(r))[i],
        forall|i: int|
            0 <= i < f.block(b).insts.len() ==> #[trigger] f2.operands(f2.block(r).insts[i])
                == f.operands(f.block(b).insts[i]).map_values(
                |o: Value| counterpart(f.block(b), f.values.len(), o),
            ),
        forall|v: Value|
            rename(renaming(f.block(b), f.values.len(), f.block(b).insts.len()), v) == counterpart(
                f.block(b),
                f.values.len(),
                v,
            ),
{
    let block = f.block(b);
    let block2 = f2.block(r);
    let base = f.values.len();
    let np = block.params.len() as int;
    let ni = block.insts.len() as int;
    let locals = local_values(block);
    let locals2 = local_values(block2);
    assert forall|p: int| 0 <= p < np implies #[trigger] locals[p] == block.params[p].1 by {
        assert(block.param_values()[p] == block.params[p].1);
    }
    assert forall|p: int| 0 <= p < np implies #[trigger] locals2[p] == Value((base + p) as usize) by {
        assert(block2.param_values()[p] == block2.params[p].1);
    }
    assert forall|q: int| 0 <= q < ni implies #[trigger] locals2[np + q] == Value(
        (base + np + q) as usize,
    ) by {
        assert(locals2[np + q] == block2.insts[q]);
    }
    assert forall|v: Value| block2.defines(v) implies !f.has_value(v) && !#[trigger] block.defines(
        v,
    ) by {
        if block2.param_values().contains(v) {
            let p = choose|p: int| 0 <= p < block2.param_values().len() && block2.param_values()[p] == v;
            assert(v == locals2[p]);
        } else {
            let q = choose|q: int| 0 <= q < block2.insts.len() && block2.insts[q] == v;
            assert(v == locals2[np + q]);
        }
        assert(!f.has_value(v));
        if block.defines(v) {
            if block.param_values().contains(v) {
                let p = choose|p: int|
                    0 <= p < block.param_values().len() && block.param_values()[p] == v;
                assert(locals[p] == v);
            } else {
                let q = choose|q: int| 0 <= q < block.insts.len() && block.insts[q] == v;
                assert(locals[np + q] == v);
            }
        }
    }
    assert forall|i: int| 0 <= i < locals.len() implies counterpart(
        block,
        base,
        #[trigger] locals[i],
    ) == locals2[i] by {
        let idx = locals.index_of(locals[i]);
        assert(0 <= idx < locals.len() && locals[idx] == locals[i]);
        assert(idx == i);
        if i < np {
            assert(locals2[i] == Value((base + i) as usize));
        } else {
            assert(locals2[np + (i - np)] == Value((base + np + (i - np)) as usize));
        }
    }
    assert forall|v: Value| rename(renaming(block, base, ni as nat), v) == counterpart(
        block,
        base,
        v,
    ) by {
        lemma_renaming_gives_counterparts(block, base, ni as nat, v);
    }
    assert forall|i: int| 0 <= i < ni implies #[trigger] f2.operands(block2.insts[i]) == f.operands(
        block.insts[i],
    ).map_values(|o: Value| counterpart(block, base, o)) by {
        let v = block.insts[i];
        let v2 = block2.insts[i];
        let ren = renaming(block, base, i as nat);
        let ops = f.operands(v);
        assert(f2.def(v2) == f2.values[base + np + i]);
        assert(inst_cloned(ren, r, f.arg_pool, f.def(v), f2.arg_pool, f2.values[base + np + i]));
        assert(f.def(v).is_defined());
        assert(f2.operands(v2) =~= rename_all(ren, ops));
        assert forall|k: int| 0 <= k < ops.len() implies rename(ren, #[trigger] ops[k])
            == counterpart(block, base, ops[k]) by {
            let o = ops[k];
            assert forall|j: int| i <= j < ni implies block.insts[j] != o by {
                assert(!f.operands(block.insts[i]).contains(block.insts[j]));
            }
            lemma_renaming_gives_counterparts(block, base, i as nat, o);
        }
        assert(rename_all(ren, ops) =~= ops.map_values(|o: Value| counterpart(block, base, o)));
    }
}

} // verus!
