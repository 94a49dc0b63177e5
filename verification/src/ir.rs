//! The data model: values, blocks, terminators, function bodies, modules.
//!
//! A function body is in SSA form with block parameters. Every value has one
//! definition; a block's parameters take the place of phi nodes, and a branch
//! passes arguments to the parameters of the block it targets.
//!
//! Each type that owns a vector has a view in which the vector is a
//! sequence. Contracts speak of the views.

use vstd::prelude::*;
use crate::entity::{Block, EntityRef, EntityVec, Func, Global, Memory, Signature, Table, Value};
use crate::ops::Operator;
use crate::pool::{list_in, list_items, ListPool, ListRef};

verus! {

/// The type of a value.
#[derive(Clone, Copy, Debug, PartialEq, Eq, Structural, Hash)]
pub enum Type {
    I32,
    I64,
    F32,
    F64,
    V128,
    FuncRef,
    ExternRef,
}

/// What a value is.
#[derive(Clone, Copy, Debug, PartialEq, Eq, Structural, Hash)]
pub enum ValueDef {
    /// Parameter number `.1` of block `.0`, of type `.2`.
    BlockParam(Block, usize, Type),
    /// The result of operator `.0` applied to the operand list `.1` (in the
    /// body's argument pool); the result types are the list `.2` (in the
    /// body's type pool).
    Operator(Operator, ListRef, ListRef),
    /// Result number `.1` of the multi-result value `.0`, of type `.2`.
    PickOutput(Value, usize, Type),
    /// Another name for the value `.0`.
    Alias(Value),
    /// A value of type `.0` whose definition is still to come.
    Placeholder(Type),
    /// A marker with the identifier `.0` that observes the operand list `.1`.
    Trace(usize, ListRef),
    /// No definition.
    Absent,
}

impl ValueDef {
    /// The operand list of this definition in the argument pool, if it has
    /// one.
    pub open spec fn operand_list(self) -> Option<ListRef> {
        match self {
            ValueDef::Operator(_, args, _) => Some(args),
            ValueDef::Trace(_, args) => Some(args),
            _ => None,
        }
    }

    /// The operands of this definition, its operand list being in `pool`:
    /// the items of the list for an operator or a trace, the one value that
    /// is read for a projection or an alias, nothing otherwise.
    pub open spec fn operands_in(self, pool: Seq<Value>) -> Seq<Value> {
        match self {
            ValueDef::Operator(_, args, _) => list_items(pool, args),
            ValueDef::Trace(_, args) => list_items(pool, args),
            ValueDef::PickOutput(source, _, _) => seq![source],
            ValueDef::Alias(target) => seq![target],
            _ => Seq::empty(),
        }
    }

    /// Whether this is a finished definition, not a stand-in for one.
    pub open spec fn is_defined(self) -> bool {
        !(self is Placeholder) && !(self is Absent)
    }
}

/// A branch destination: the block and the arguments for its parameters.
#[derive(Debug, PartialEq, Eq, Hash)]
pub struct BlockTarget {
    pub block: Block,
    pub args: Vec<Value>,
}

/// The view of a [`BlockTarget`].
pub struct BlockTargetView {
    pub block: Block,
    pub args: Seq<Value>,
}

impl View for BlockTarget {
    type V = BlockTargetView;

    open spec fn view(&self) -> BlockTargetView {
        BlockTargetView { block: self.block, args: self.args@ }
    }
}

impl Clone for BlockTarget {
    fn clone(&self) -> (r: Self)
        ensures
            r@ == self@,
    {
        let args = self.args.clone();
        assert(args@ =~= self.args@);
        BlockTarget { block: self.block, args }
    }
}

/// The view of a vector of branch destinations.
pub open spec fn targets_view(targets: Seq<BlockTarget>) -> Seq<BlockTargetView> {
    targets.map_values(|t: BlockTarget| t@)
}

/// The control transfer that ends a block.
#[derive(Debug, PartialEq, Eq, Hash)]
pub enum Terminator {
    /// Jump to `target`.
    Br { target: BlockTarget },
    /// Jump to `if_true` if `cond` is not zero, else to `if_false`.
    CondBr { cond: Value, if_true: BlockTarget, if_false: BlockTarget },
    /// Jump to `targets[value]` if `value` is less than the number of
    /// targets, else to `default`.
    Select { value: Value, targets: Vec<BlockTarget>, default: BlockTarget },
    /// Return `values` from the function.
    Return { values: Vec<Value> },
    /// Control never gets here.
    Unreachable,
    /// Not set yet: the block is under construction.
    Unset,
}

/// The view of a [`Terminator`].
pub enum TerminatorView {
    Br { target: BlockTargetView },
    CondBr { cond: Value, if_true: BlockTargetView, if_false: BlockTargetView },
    Select { value: Value, targets: Seq<BlockTargetView>, default: BlockTargetView },
    Return { values: Seq<Value> },
    Unreachable,
    Unset,
}

impl View for Terminator {
    type V = TerminatorView;

    open spec fn view(&self) -> TerminatorView {
        match *self {
            Terminator::Br { target } => TerminatorView::Br { target: target@ },
            Terminator::CondBr { cond, if_true, if_false } => TerminatorView::CondBr {
                cond,
                if_true: if_true@,
                if_false: if_false@,
            },
            Terminator::Select { value, targets, default } => TerminatorView::Select {
                value,
                targets: targets_view(targets@),
                default: default@,
            },
            Terminator::Return { values } => TerminatorView::Return { values: values@ },
            Terminator::Unreachable => TerminatorView::Unreachable,
            Terminator::Unset => TerminatorView::Unset,
        }
    }
}

impl TerminatorView {
    /// The branch destinations, in the order in which the terminator lists
    /// them; the default of a `Select` comes last.
    pub open spec fn targets(self) -> Seq<BlockTargetView> {
        match self {
            TerminatorView::Br { target } => seq![target],
            TerminatorView::CondBr { cond, if_true, if_false } => seq![if_true, if_false],
            TerminatorView::Select { value, targets, default } => targets.push(default),
            _ => Seq::empty(),
        }
    }

    /// The blocks that control may go to next.
    pub open spec fn successors(self) -> Seq<Block> {
        self.targets().map_values(|t: BlockTargetView| t.block)
    }

    /// Whether `v` is read by this terminator: as the condition or selector,
    /// as a returned value, or as an argument to a destination.
    pub open spec fn uses(self, v: Value) -> bool {
        ||| (self matches TerminatorView::CondBr { cond, .. } && cond == v)
        ||| (self matches TerminatorView::Select { value, .. } && value == v)
        ||| (self matches TerminatorView::Return { values } && values.contains(v))
        ||| exists|i: int| 0 <= i < self.targets().len() && (#[trigger] self.targets()[i]).args.contains(v)
    }
}

fn clone_targets(targets: &Vec<BlockTarget>) -> (r: Vec<BlockTarget>)
    ensures
        targets_view(r@) == targets_view(targets@),
{
    let mut r: Vec<BlockTarget> = Vec::new();
    let n = targets.len();
    let mut i: usize = 0;
    while i < n
        invariant
            i <= n,
            n == targets@.len(),
            r@.len() == i,
            forall|j: int| 0 <= j < i ==> (#[trigger] r@[j])@ == targets@[j]@,
        decreases n - i,
    {
        r.push(targets[i].clone());
        i += 1;
    }
    assert(targets_view(r@) =~= targets_view(targets@));
    r
}

impl Clone for Terminator {
    fn clone(&self) -> (r: Self)
        ensures
            r@ == self@,
    {
        match self {
            Terminator::Br { target } => Terminator::Br { target: target.clone() },
            Terminator::CondBr { cond, if_true, if_false } => Terminator::CondBr {
                cond: *cond,
                if_true: if_true.clone(),
                if_false: if_false.clone(),
            },
            Terminator::Select { value, targets, default } => Terminator::Select {
                value: *value,
                targets: clone_targets(targets),
                default: default.clone(),
            },
            Terminator::Return { values } => {
                let copy = values.clone();
                assert(copy@ =~= values@);
                Terminator::Return { values: copy }
            },
            Terminator::Unreachable => Terminator::Unreachable,
            Terminator::Unset => Terminator::Unset,
        }
    }
}

impl Terminator {
    /// The blocks that control may go to next, in the order in which the
    /// terminator lists its destinations.
    pub fn successors(&self) -> (r: Vec<Block>)
        ensures
            r@ == self@.successors(),
    {
        let mut r: Vec<Block> = Vec::new();
        match self {
            Terminator::Br { target } => {
                r.push(target.block);
            },
            Terminator::CondBr { cond, if_true, if_false } => {
                r.push(if_true.block);
                r.push(if_false.block);
            },
            Terminator::Select { value, targets, default } => {
                let n = targets.len();
                let mut i: usize = 0;
                while i < n
                    invariant
                        i <= n,
                        n == targets@.len(),
                        r@.len() == i,
                        forall|j: int| 0 <= j < i ==> r@[j] == (#[trigger] targets@[j]).block,
                    decreases n - i,
                {
                    r.push(targets[i].block);
                    i += 1;
                }
                r.push(default.block);
            },
            _ => {},
        }
        assert(r@ =~= self@.successors());
        r
    }
}

/// A basic block.
#[derive(Debug, PartialEq, Eq, Hash)]
pub struct BlockDef {
    /// The parameters: each a type and the value that is bound on entry.
    pub params: Vec<(Type, Value)>,
    /// The instructions, in execution order.
    pub insts: Vec<Value>,
    /// The control transfer at the end; `Unset` while the block is under
    /// construction.
    pub terminator: Terminator,
}

/// The view of a [`BlockDef`].
pub struct BlockView {
    pub params: Seq<(Type, Value)>,
    pub insts: Seq<Value>,
    pub terminator: TerminatorView,
}

impl View for BlockDef {
    type V = BlockView;

    open spec fn view(&self) -> BlockView {
        BlockView { params: self.params@, insts: self.insts@, terminator: self.terminator@ }
    }
}

impl BlockView {
    /// A block without parameters, instructions or terminator.
    pub open spec fn empty() -> BlockView {
        BlockView { params: Seq::empty(), insts: Seq::empty(), terminator: TerminatorView::Unset }
    }

    /// The values that the parameters bind, in order.
    pub open spec fn param_values(self) -> Seq<Value> {
        self.params.map_values(|p: (Type, Value)| p.1)
    }

    /// Whether `v` is defined in this block: as a parameter or as an
    /// instruction.
    pub open spec fn defines(self, v: Value) -> bool {
        self.param_values().contains(v) || self.insts.contains(v)
    }
}

impl Clone for BlockDef {
    fn clone(&self) -> (r: Self)
        ensures
            r@ == self@,
    {
        let mut params: Vec<(Type, Value)> = Vec::new();
        let n = self.params.len();
        let mut i: usize = 0;
        while i < n
            invariant
                i <= n,
                n == self.params@.len(),
                params@ == self.params@.subrange(0, i as int),
            decreases n - i,
        {
            params.push(self.params[i]);
            assert(self.params@.subrange(0, i + 1) == self.params@.subrange(0, i as int).push(
                self.params@[i as int],
            ));
            i += 1;
        }
        assert(self.params@.subrange(0, n as int) == self.params@);
        let insts = self.insts.clone();
        assert(insts@ =~= self.insts@);
        BlockDef { params, insts, terminator: self.terminator.clone() }
    }
}

impl BlockDef {
    /// A block without parameters, instructions or terminator.
    pub fn new() -> (b: BlockDef)
        ensures
            b@ == BlockView::empty(),
    {
        BlockDef { params: Vec::new(), insts: Vec::new(), terminator: Terminator::Unset }
    }
}

/// The view of the blocks of a body.
pub open spec fn blocks_view(blocks: Seq<BlockDef>) -> Seq<BlockView> {
    blocks.map_values(|b: BlockDef| b@)
}

/// The body of one function: its blocks, its values, and the pools in which
/// the operand lists and result-type lists of its values live.
#[derive(Debug, PartialEq, Eq)]
pub struct FunctionBody {
    /// The blocks, in the order of their creation.
    pub blocks: EntityVec<Block, BlockDef>,
    /// The definitions of the values, in the order of their creation.
    pub values: EntityVec<Value, ValueDef>,
    /// The operand lists of the value definitions.
    pub arg_pool: ListPool<Value>,
    /// The result-type lists of the value definitions.
    pub type_pool: ListPool<Type>,
    /// The block at which execution starts.
    pub entry: Block,
}

/// The view of a [`FunctionBody`].
pub struct FunctionBodyView {
    pub blocks: Seq<BlockView>,
    pub values: Seq<ValueDef>,
    pub arg_pool: Seq<Value>,
    pub type_pool: Seq<Type>,
    pub entry: Block,
}

impl View for FunctionBody {
    type V = FunctionBodyView;

    open spec fn view(&self) -> FunctionBodyView {
        FunctionBodyView {
            blocks: blocks_view(self.blocks@),
            values: self.values@,
            arg_pool: self.arg_pool@,
            type_pool: self.type_pool@,
            entry: self.entry,
        }
    }
}

impl FunctionBodyView {
    /// Whether `b` is a block of this body.
    pub open spec fn has_block(self, b: Block) -> bool {
        b.0 < self.blocks.len()
    }

    /// Whether `v` is a value of this body.
    pub open spec fn has_value(self, v: Value) -> bool {
        v.0 < self.values.len()
    }

    /// The block `b`.
    pub open spec fn block(self, b: Block) -> BlockView {
        self.blocks[b.0 as int]
    }

    /// The definition of `v`.
    pub open spec fn def(self, v: Value) -> ValueDef {
        self.values[v.0 as int]
    }

    /// The operands of `v`: the items of its operand list for an operator or
    /// a trace, the one value it reads for a projection or an alias, nothing
    /// otherwise.
    pub open spec fn operands(self, v: Value) -> Seq<Value> {
        self.def(v).operands_in(self.arg_pool)
    }

    /// Whether block `b` reads `v`: as an operand of one of its instructions
    /// or in its terminator.
    pub open spec fn block_uses(self, b: Block, v: Value) -> bool {
        ||| self.block(b).terminator.uses(v)
        ||| exists|i: int|
            0 <= i < self.block(b).insts.len() && self.has_value(self.block(b).insts[i])
                && (#[trigger] self.operands(self.block(b).insts[i])).contains(v)
    }

    /// Whether this body has grown from `earlier`: it has every block that
    /// `earlier` had, every value with the definition it had, and every item
    /// of the pools in its place; the entry is the same. Handles and lists
    /// of `earlier` stay valid. The content of a block may have changed.
    pub open spec fn grows_from(self, earlier: FunctionBodyView) -> bool {
        &&& earlier.blocks.len() <= self.blocks.len()
        &&& earlier.values.is_prefix_of(self.values)
        &&& earlier.arg_pool.is_prefix_of(self.arg_pool)
        &&& earlier.type_pool.is_prefix_of(self.type_pool)
        &&& self.entry == earlier.entry
    }

    /// Whether every value of `s` is a value of this body.
    pub open spec fn has_values(self, s: Seq<Value>) -> bool {
        forall|i: int| 0 <= i < s.len() ==> self.has_value(#[trigger] s[i])
    }

    /// Whether the definition `x` refers only to what this body has: its
    /// lists lie within the pools, and its block and its operands are a
    /// block and values of this body.
    pub open spec fn def_ok(self, x: ValueDef) -> bool {
        match x {
            ValueDef::BlockParam(b, _, _) => self.has_block(b),
            ValueDef::Operator(_, args, tys) => {
                &&& list_in(self.arg_pool, args)
                &&& list_in(self.type_pool, tys)
                &&& self.has_values(list_items(self.arg_pool, args))
            },
            ValueDef::PickOutput(source, _, _) => self.has_value(source),
            ValueDef::Alias(target) => self.has_value(target),
            ValueDef::Trace(_, args) => {
                &&& list_in(self.arg_pool, args)
                &&& self.has_values(list_items(self.arg_pool, args))
            },
            _ => true,
        }
    }

    /// Whether the destination `t` is a block of this body and its arguments
    /// are values of this body.
    pub open spec fn target_ok(self, t: BlockTargetView) -> bool {
        self.has_block(t.block) && self.has_values(t.args)
    }

    /// Whether the terminator `t` refers only to blocks and values of this
    /// body.
    pub open spec fn terminator_ok(self, t: TerminatorView) -> bool {
        match t {
            TerminatorView::Br { target } => self.target_ok(target),
            TerminatorView::CondBr { cond, if_true, if_false } => {
                &&& self.has_value(cond)
                &&& self.target_ok(if_true)
                &&& self.target_ok(if_false)
            },
            TerminatorView::Select { value, targets, default } => {
                &&& self.has_value(value)
                &&& forall|i: int| 0 <= i < targets.len() ==> self.target_ok(#[trigger] targets[i])
                &&& self.target_ok(default)
            },
            TerminatorView::Return { values } => self.has_values(values),
            _ => true,
        }
    }

    /// Whether `block` refers only to blocks and values of this body: in
    /// its parameters, its instructions and its terminator.
    pub open spec fn block_ok(self, block: BlockView) -> bool {
        &&& self.has_values(block.param_values())
        &&& self.has_values(block.insts)
        &&& self.terminator_ok(block.terminator)
    }

    /// Whether each parameter of block `b` binds a value that is defined as
    /// that parameter: of `b`, at its place, with its type.
    pub open spec fn params_ok(self, b: Block) -> bool {
        forall|i: int|
            0 <= i < self.block(b).params.len() ==> {
                let p = #[trigger] self.block(b).params[i];
                self.has_value(p.1) && self.def(p.1) == ValueDef::BlockParam(b, i as usize, p.0)
            }
    }

    /// Whether this body is well formed: every handle and every list that it
    /// holds anywhere names something that it has. The entry is a block;
    /// what the blocks define, read and branch to are values and blocks;
    /// what the definitions read are values, and their lists lie within the
    /// pools. The parameters of each block are defined as its parameters.
    pub open spec fn well_formed(self) -> bool {
        &&& self.has_block(self.entry)
        &&& forall|i: int| 0 <= i < self.blocks.len() ==> self.block_ok(#[trigger] self.blocks[i])
        &&& forall|i: int| 0 <= i < self.values.len() ==> self.def_ok(#[trigger] self.values[i])
        &&& forall|b: Block| #[trigger] self.has_block(b) ==> self.params_ok(b)
    }

    /// What refers only to what a body has, refers only to what any body
    /// has that has grown from it.
    pub proof fn lemma_ok_after_growth(self, earlier: FunctionBodyView)
        requires
            self.grows_from(earlier),
        ensures
            forall|s: Seq<Value>| #[trigger] earlier.has_values(s) ==> self.has_values(s),
            forall|x: ValueDef| #[trigger] earlier.def_ok(x) ==> self.def_ok(x),
            forall|t: BlockTargetView| #[trigger] earlier.target_ok(t) ==> self.target_ok(t),
            forall|t: TerminatorView| #[trigger] earlier.terminator_ok(t) ==> self.terminator_ok(t),
            forall|block: BlockView| #[trigger] earlier.block_ok(block) ==> self.block_ok(block),
    {
        assert forall|s: Seq<Value>| #[trigger] earlier.has_values(s) implies self.has_values(s) by {
            assert forall|i: int| 0 <= i < s.len() implies self.has_value(#[trigger] s[i]) by {
                assert(earlier.has_value(s[i]));
            }
        }
        assert forall|x: ValueDef| #[trigger] earlier.def_ok(x) implies self.def_ok(x) by {
            match x.operand_list() {
                Some(args) => {
                    assert(list_items(self.arg_pool, args) =~= list_items(earlier.arg_pool, args));
                },
                None => {},
            }
        }
        assert forall|t: TerminatorView| #[trigger] earlier.terminator_ok(t) implies self.terminator_ok(
            t,
        ) by {
            match t {
                TerminatorView::Select { value, targets, default } => {
                    assert forall|i: int| 0 <= i < targets.len() implies self.target_ok(
                        #[trigger] targets[i],
                    ) by {
                        assert(earlier.target_ok(targets[i]));
                    }
                },
                _ => {},
            }
        }
    }

    /// A body that has grown from a well-formed one is well formed if what
    /// is new in it, and each block that has changed, refers only to what
    /// the body has.
    pub proof fn lemma_well_formed_after_growth(self, earlier: FunctionBodyView)
        requires
            earlier.well_formed(),
            self.grows_from(earlier),
            forall|i: int|
                0 <= i < self.blocks.len() && (i >= earlier.blocks.len() || self.blocks[i]
                    != earlier.blocks[i]) ==> self.block_ok(#[trigger] self.blocks[i]),
            forall|i: int|
                earlier.values.len() <= i < self.values.len() ==> self.def_ok(
                    #[trigger] self.values[i],
                ),
            forall|b: Block|
                #[trigger] self.has_block(b) && (!earlier.has_block(b) || self.block(b).params
                    != earlier.block(b).params) ==> self.params_ok(b),
        ensures
            self.well_formed(),
    {
        self.lemma_ok_after_growth(earlier);
        assert forall|b: Block| #[trigger] self.has_block(b) implies self.params_ok(b) by {
            if earlier.has_block(b) && self.block(b).params == earlier.block(b).params {
                assert(earlier.params_ok(b));
                assert forall|i: int| 0 <= i < self.block(b).params.len() implies {
                    let p = #[trigger] self.block(b).params[i];
                    self.has_value(p.1) && self.def(p.1) == ValueDef::BlockParam(b, i as usize, p.0)
                } by {
                    let p = earlier.block(b).params[i];
                    assert(earlier.has_value(p.1));
                    assert(self.values[p.1.0 as int] == earlier.values[p.1.0 as int]);
                }
            }
        }
        assert forall|i: int| 0 <= i < self.blocks.len() implies self.block_ok(
            #[trigger] self.blocks[i],
        ) by {
            if i < earlier.blocks.len() && self.blocks[i] == earlier.blocks[i] {
                assert(earlier.block_ok(earlier.blocks[i]));
            }
        }
        assert forall|i: int| 0 <= i < self.values.len() implies self.def_ok(
            #[trigger] self.values[i],
        ) by {
            if i < earlier.values.len() {
                assert(self.values[i] == earlier.values[i]);
                assert(earlier.def_ok(earlier.values[i]));
            }
        }
    }

    /// Growth is reflexive and transitive: it adds up over any number of
    /// steps.
    pub proof fn lemma_growth_adds_up(self, middle: FunctionBodyView, earlier: FunctionBodyView)
        requires
            self.grows_from(middle),
            middle.grows_from(earlier),
        ensures
            self.grows_from(earlier),
            self.grows_from(self),
    {
    }

    /// Handles are never reused: the value and the block that are added
    /// next to this body differ from every value and block of a body that
    /// this one has grown from, and those keep their definitions.
    pub proof fn lemma_handles_never_reused(self, earlier: FunctionBodyView)
        requires
            self.grows_from(earlier),
        ensures
            forall|v: Value| #[trigger] earlier.has_value(v) ==> v.0 < self.values.len() && self.def(v) == earlier.def(v),
            forall|b: Block| #[trigger] earlier.has_block(b) ==> b.0 < self.blocks.len(),
    {
    }

    /// This body with `block` in place of the block `b`.
    pub open spec fn with_block(self, b: Block, block: BlockView) -> FunctionBodyView {
        FunctionBodyView { blocks: self.blocks.update(b.0 as int, block), ..self }
    }
}

impl Clone for FunctionBody {
    /// A body with the same blocks, values and pools: every handle and
    /// every list names in it what it names in this one.
    fn clone(&self) -> (r: Self)
        ensures
            r@ == self@,
    {
        let mut blocks: EntityVec<Block, BlockDef> = EntityVec::new();
        let n = self.blocks.len();
        let mut i: usize = 0;
        while i < n
            invariant
                i <= n,
                n == self.blocks@.len(),
                blocks@.len() == i,
                forall|j: int| 0 <= j < i ==> (#[trigger] blocks@[j])@ == self.blocks@[j]@,
            decreases n - i,
        {
            let b: Block = blocks.push(self.blocks.at(Block(i)).clone());
            i += 1;
        }
        let mut values: EntityVec<Value, ValueDef> = EntityVec::new();
        let n = self.values.len();
        let mut i: usize = 0;
        while i < n
            invariant
                i <= n,
                n == self.values@.len(),
                values@ == self.values@.subrange(0, i as int),
            decreases n - i,
        {
            let v: Value = values.push(*self.values.at(Value(i)));
            assert(self.values@.subrange(0, i + 1) == self.values@.subrange(0, i as int).push(
                self.values@[i as int],
            ));
            i += 1;
        }
        assert(self.values@.subrange(0, n as int) == self.values@);
        let r = FunctionBody {
            blocks,
            values,
            arg_pool: self.arg_pool.clone(),
            type_pool: self.type_pool.clone(),
            entry: self.entry,
        };
        assert(r@.blocks =~= self@.blocks);
        r
    }
}

impl Default for FunctionBody {
    /// A body whose only block is its entry, which is empty.
    fn default() -> (f: FunctionBody)
        ensures
            f@.well_formed(),
            f@ == (FunctionBodyView {
                blocks: seq![BlockView::empty()],
                values: Seq::empty(),
                arg_pool: Seq::empty(),
                type_pool: Seq::empty(),
                entry: Block(0),
            }),
    {
        let mut blocks: EntityVec<Block, BlockDef> = EntityVec::new();
        let entry = blocks.push(BlockDef::new());
        let f = FunctionBody {
            blocks,
            values: EntityVec::new(),
            arg_pool: ListPool::new(),
            type_pool: ListPool::new(),
            entry,
        };
        assert(f@.blocks =~= seq![BlockView::empty()]);
        f
    }
}

impl FunctionBody {
    /// The block `b`.
    pub fn block(&self, b: Block) -> (r: &BlockDef)
        requires
            self@.has_block(b),
        ensures
            r@ == self@.block(b),
    {
        self.blocks.at(b)
    }

    /// The definition of `v`.
    pub fn def(&self, v: Value) -> (r: ValueDef)
        requires
            self@.has_value(v),
        ensures
            r == self@.def(v),
    {
        *self.values.at(v)
    }

    /// Adds an empty block and returns its handle.
    pub fn add_block(&mut self) -> (b: Block)
        ensures
            final(self)@.grows_from(old(self)@),
            old(self)@.well_formed() ==> final(self)@.well_formed(),
            b.0 == old(self)@.blocks.len(),
            final(self)@ == (FunctionBodyView {
                blocks: old(self)@.blocks.push(BlockView::empty()),
                ..old(self)@
            }),
    {
        let b = self.blocks.push(BlockDef::new());
        assert(self@.blocks =~= old(self)@.blocks.push(BlockView::empty()));
        proof {
            if old(self)@.well_formed() {
                self@.lemma_well_formed_after_growth(old(self)@);
            }
        }
        b
    }

    /// Adds the definition `def` and returns the handle of the value it
    /// defines. The value belongs to no block until it is appended to one.
    pub fn add_value(&mut self, def: ValueDef) -> (v: Value)
        ensures
            final(self)@.grows_from(old(self)@),
            old(self)@.well_formed() && old(self)@.def_ok(def) ==> final(self)@.well_formed(),
            v.0 == old(self)@.values.len(),
            final(self)@ == (FunctionBodyView {
                values: old(self)@.values.push(def),
                ..old(self)@
            }),
    {
        let v = self.values.push(def);
        proof {
            if old(self)@.well_formed() && old(self)@.def_ok(def) {
                self@.lemma_ok_after_growth(old(self)@);
                self@.lemma_well_formed_after_growth(old(self)@);
            }
        }
        v
    }

    /// Adds a parameter of type `ty` to `block` and returns the value that
    /// it binds.
    pub fn add_blockparam(&mut self, block: Block, ty: Type) -> (v: Value)
        requires
            old(self)@.has_block(block),
        ensures
            final(self)@.grows_from(old(self)@),
            old(self)@.well_formed() ==> final(self)@.well_formed(),
            v.0 == old(self)@.values.len(),
            old(self)@.block(block).params.len() <= usize::MAX,
            final(self)@ == (FunctionBodyView {
                values: old(self)@.values.push(
                    ValueDef::BlockParam(block, old(self)@.block(block).params.len() as usize, ty),
                ),
                ..old(self)@.with_block(
                    block,
                    BlockView {
                        params: old(self)@.block(block).params.push((ty, v)),
                        ..old(self)@.block(block)
                    },
                )
            }),
    {
        let index = self.blocks.at(block).params.len();
        let v = self.values.push(ValueDef::BlockParam(block, index, ty));
        self.blocks.at_mut(block).params.push((ty, v));
        assert(self@.blocks =~= old(self)@.blocks.update(
            block.0 as int,
            BlockView {
                params: old(self)@.block(block).params.push((ty, v)),
                ..old(self)@.block(block)
            },
        ));
        proof {
            if old(self)@.well_formed() {
                let before = old(self)@.block(block);
                let after = self@.block(block);
                self@.lemma_ok_after_growth(old(self)@);
                assert(old(self)@.block_ok(before));
                assert(self@.has_values(after.param_values())) by {
                    assert(after.param_values() =~= before.param_values().push(v));
                    assert(self@.has_values(before.param_values()));
                }
                self@.lemma_well_formed_after_growth(old(self)@);
            }
        }
        v
    }

    /// Appends `value` to the instructions of `block`.
    pub fn append_to_block(&mut self, block: Block, value: Value)
        requires
            old(self)@.has_block(block),
        ensures
            final(self)@.grows_from(old(self)@),
            old(self)@.well_formed() && old(self)@.has_value(value) ==> final(self)@.well_formed(),
            final(self)@ == old(self)@.with_block(
                block,
                BlockView {
                    insts: old(self)@.block(block).insts.push(value),
                    ..old(self)@.block(block)
                },
            ),
    {
        self.blocks.at_mut(block).insts.push(value);
        assert(self@.blocks =~= old(self)@.blocks.update(
            block.0 as int,
            BlockView {
                insts: old(self)@.block(block).insts.push(value),
                ..old(self)@.block(block)
            },
        ));
        proof {
            if old(self)@.well_formed() && old(self)@.has_value(value) {
                assert(old(self)@.block_ok(old(self)@.block(block)));
                self@.lemma_well_formed_after_growth(old(self)@);
            }
        }
    }

    /// Sets the terminator of `block`. It is meant to be called once for
    /// each block, when the block's instructions are complete; the block may
    /// be a destination of its own terminator.
    pub fn set_terminator(&mut self, block: Block, terminator: Terminator)
        requires
            old(self)@.has_block(block),
        ensures
            final(self)@.grows_from(old(self)@),
            old(self)@.well_formed() && old(self)@.terminator_ok(terminator@)
                ==> final(self)@.well_formed(),
            final(self)@ == old(self)@.with_block(
                block,
                BlockView { terminator: terminator@, ..old(self)@.block(block) },
            ),
    {
        self.blocks.at_mut(block).terminator = terminator;
        assert(self@.blocks =~= old(self)@.blocks.update(
            block.0 as int,
            BlockView { terminator: terminator@, ..old(self)@.block(block) },
        ));
        proof {
            if old(self)@.well_formed() && old(self)@.terminator_ok(terminator@) {
                assert(old(self)@.block_ok(old(self)@.block(block)));
                self@.lemma_well_formed_after_growth(old(self)@);
            }
        }
    }

    /// Stores the one-item list `[ty]` in the type pool.
    pub fn single_type_list(&mut self, ty: Type) -> (r: ListRef)
        ensures
            final(self)@.grows_from(old(self)@),
            old(self)@.well_formed() ==> final(self)@.well_formed(),
            r.start == old(self)@.type_pool.len(),
            r.len == 1,
            final(self)@ == (FunctionBodyView {
                type_pool: old(self)@.type_pool.push(ty),
                ..old(self)@
            }),
    {
        let r = self.type_pool.single(ty);
        proof {
            if old(self)@.well_formed() {
                self@.lemma_well_formed_after_growth(old(self)@);
            }
        }
        r
    }
}

/// The type of a function.
#[derive(Debug, PartialEq, Eq, Hash)]
pub struct SignatureData {
    /// The types of the parameters.
    pub params: Vec<Type>,
    /// The types of the results.
    pub returns: Vec<Type>,
}

impl Clone for SignatureData {
    fn clone(&self) -> (r: Self)
        ensures
            r.params@ == self.params@,
            r.returns@ == self.returns@,
    {
        let params = self.params.clone();
        let results = self.returns.clone();
        assert(params@ =~= self.params@);
        assert(results@ =~= self.returns@);
        SignatureData { params, returns: results }
    }
}

/// A linear memory: its size in pages at the start and, if it has one, its
/// limit.
#[derive(Clone, Copy, Debug, PartialEq, Eq, Structural, Hash)]
pub struct MemoryData {
    pub initial_pages: usize,
    pub maximum_pages: Option<usize>,
}

/// A table: the type of its elements and, if it has one, its limit.
#[derive(Clone, Copy, Debug, PartialEq, Eq, Structural, Hash)]
pub struct TableData {
    pub ty: Type,
    pub max: Option<u32>,
}

/// A global variable: its type and whether it can be written.
#[derive(Clone, Copy, Debug, PartialEq, Eq, Structural, Hash)]
pub struct GlobalData {
    pub ty: Type,
    pub mutable: bool,
}

/// A function of a module.
#[derive(Debug, PartialEq, Eq)]
pub enum FuncDecl {
    /// A function that the module imports: its signature and name.
    Import(Signature, String),
    /// A function with a body in this representation.
    Body(Signature, String, FunctionBody),
    /// A function that has been lowered to bytecode already.
    Compiled(Signature, String, Vec<u8>),
}

impl Clone for FuncDecl {
    /// A declaration of the same kind, with the same signature and name and
    /// a body or bytecode that is the same.
    fn clone(&self) -> (r: Self)
        ensures
            match *self {
                FuncDecl::Import(sig, name) => r == FuncDecl::Import(sig, name),
                FuncDecl::Body(sig, name, body) => {
                    &&& r matches FuncDecl::Body(sig2, name2, body2)
                    &&& sig2 == sig
                    &&& name2 == name
                    &&& body2@ == body@
                },
                FuncDecl::Compiled(sig, name, code) => {
                    &&& r matches FuncDecl::Compiled(sig2, name2, code2)
                    &&& sig2 == sig
                    &&& name2 == name
                    &&& code2@ == code@
                },
            },
    {
        match self {
            FuncDecl::Import(sig, name) => FuncDecl::Import(*sig, name.clone()),
            FuncDecl::Body(sig, name, body) => FuncDecl::Body(*sig, name.clone(), body.clone()),
            FuncDecl::Compiled(sig, name, code) => {
                let copy = code.clone();
                assert(copy@ =~= code@);
                FuncDecl::Compiled(*sig, name.clone(), copy)
            },
        }
    }
}

impl FuncDecl {
    /// The signature of the function.
    pub open spec fn signature_of(&self) -> Signature {
        match *self {
            FuncDecl::Import(sig, _) => sig,
            FuncDecl::Body(sig, _, _) => sig,
            FuncDecl::Compiled(sig, _, _) => sig,
        }
    }

    /// The signature of the function.
    pub fn sig(&self) -> (s: Signature)
        ensures
            s == self.signature_of(),
    {
        match self {
            FuncDecl::Import(sig, _) => *sig,
            FuncDecl::Body(sig, _, _) => *sig,
            FuncDecl::Compiled(sig, _, _) => *sig,
        }
    }

    /// The body of the function, if it has one in this representation.
    pub fn body(&self) -> (r: Option<&FunctionBody>)
        ensures
            match *self {
                FuncDecl::Body(_, _, body) => r == Some(&body),
                _ => r is None,
            },
    {
        match self {
            FuncDecl::Body(_, _, body) => Some(body),
            _ => None,
        }
    }
}

/// A module: its functions and signatures, and the memories, tables and
/// globals that operators refer to.
#[derive(Debug, PartialEq, Eq)]
pub struct Module {
    pub funcs: EntityVec<Func, FuncDecl>,
    pub signatures: EntityVec<Signature, SignatureData>,
    pub memories: EntityVec<Memory, MemoryData>,
    pub tables: EntityVec<Table, TableData>,
    pub globals: EntityVec<Global, GlobalData>,
}

impl Clone for Module {
    /// A module with as many functions and signatures, each a clone of the
    /// one in its slot, and with the same memories, tables and globals.
    fn clone(&self) -> (r: Self)
        ensures
            r.funcs@.len() == self.funcs@.len(),
            forall|i: int|
                0 <= i < self.funcs@.len() ==> cloned::<FuncDecl>(self.funcs@[i], #[trigger] r.funcs@[i]),
            r.signatures@.len() == self.signatures@.len(),
            forall|i: int|
                0 <= i < self.signatures@.len() ==> cloned::<SignatureData>(
                    self.signatures@[i],
                    #[trigger] r.signatures@[i],
                ),
            r.memories@ == self.memories@,
            r.tables@ == self.tables@,
            r.globals@ == self.globals@,
    {
        let r = Module {
            funcs: self.funcs.clone(),
            signatures: self.signatures.clone(),
            memories: self.memories.clone(),
            tables: self.tables.clone(),
            globals: self.globals.clone(),
        };
        assert(r.memories@ =~= self.memories@);
        assert(r.tables@ =~= self.tables@);
        assert(r.globals@ =~= self.globals@);
        r
    }
}

impl Module {
    /// A module without anything in it.
    pub fn empty() -> (m: Module)
        ensures
            m.funcs@.len() == 0,
            m.signatures@.len() == 0,
            m.memories@.len() == 0,
            m.tables@.len() == 0,
            m.globals@.len() == 0,
    {
        Module {
            funcs: EntityVec::new(),
            signatures: EntityVec::new(),
            memories: EntityVec::new(),
            tables: EntityVec::new(),
            globals: EntityVec::new(),
        }
    }
}

} // verus!
