//! The mathematical model of a block while it is lowered, and the steps of
//! lowering as functions on it.

use vstd::prelude::*;
use crate::block::{Block, CFTransfer, CallReturnUsage, Constant, Op};
use crate::bucket::{Definition, Usage, UsageIndex, UsageKind};
use crate::error::{Construct, LoweringError};
use crate::hlir::{AssignedBinding, Assignment, End, Pure, Value};
use crate::index::{Binding, Label};

verus! {

/// An operation, with its lists as sequences.
pub enum OpModel {
    Constant(Constant),
    /// One pair per selector: the block that control comes from, and the
    /// bindings taken then.
    Phi(Seq<(Label, Seq<Binding>)>),
    Call { label: Label, args: Seq<Binding>, usage_info_index: usize },
    Add { lhs: Binding, rhs: Binding },
}

impl View for Op {
    type V = OpModel;

    open spec fn view(&self) -> OpModel {
        match *self {
            Op::Constant(c) => OpModel::Constant(c),
            Op::Phi(selectors) => OpModel::Phi(
                Seq::new(
                    selectors@.len(),
                    |i: int| (selectors@[i].block_from, selectors@[i].used_bindings@),
                ),
            ),
            Op::Call { label, args, usage_info_index } => OpModel::Call {
                label,
                args: args@,
                usage_info_index,
            },
            Op::Add { lhs, rhs } => OpModel::Add { lhs, rhs },
        }
    }
}

/// The record of one call: which results are consumed, the bindings
/// `start..end` that take them, and the block called.
pub struct CallModel {
    pub result_usage: Seq<usize>,
    pub start: usize,
    pub end: usize,
    pub called_label: Label,
}

impl View for CallReturnUsage {
    type V = CallModel;

    open spec fn view(&self) -> CallModel {
        CallModel {
            result_usage: self.result_usage@,
            start: self.result_binding_range.start(),
            end: self.result_binding_range.end(),
            called_label: self.called_label,
        }
    }
}

/// Which results of a call get a binding.
pub enum AssignedUsage {
    /// Every result, in order.
    All,
    /// The results that the targets name, in the order of the targets; each
    /// target's identifier becomes an alias of its binding.
    Specific(Vec<AssignedBinding>),
}

/// The state of a block while it is lowered.
pub struct BuilderModel {
    /// From an identifier of the input, by index, to the binding that stands for it.
    pub aliases: Map<usize, Binding>,
    pub ops: Seq<OpModel>,
    pub arg_count: usize,
    pub defs: Seq<Definition>,
    pub usages: Seq<Seq<Usage>>,
    pub calls: Seq<CallModel>,
}

/// The usage by the operation at index `k` that needs the place alone.
pub open spec fn exclusive_at(k: int) -> Usage {
    Usage { usage_kind: UsageKind::Exclusive, index: UsageIndex::Op(k as usize) }
}

/// Every binding that the operation names exists, and so does the call record
/// that it names. The bindings of a merge belong to other blocks.
pub open spec fn op_in_bounds(op: OpModel, bindings: int, calls: int) -> bool {
    match op {
        OpModel::Constant(_) => true,
        OpModel::Phi(_) => true,
        OpModel::Call { args, usage_info_index, .. } => {
            &&& usage_info_index < calls
            &&& forall|i: int| 0 <= i < args.len() ==> (#[trigger] args[i]).0 < bindings
        },
        OpModel::Add { lhs, rhs } => lhs.0 < bindings && rhs.0 < bindings,
    }
}

impl BuilderModel {
    /// The state before the first statement: one binding per parameter, each
    /// parameter's identifier an alias of its binding.
    pub open spec fn initial(gets: Seq<Binding>) -> BuilderModel {
        BuilderModel {
            aliases: Self::argument_aliases(gets, gets.len() as int),
            ops: Seq::empty(),
            arg_count: gets.len() as usize,
            defs: Seq::new(gets.len(), |i: int| Definition::Argument(i as usize)),
            usages: Seq::new(gets.len(), |i: int| Seq::empty()),
            calls: Seq::empty(),
        }
    }

    /// The aliases of the first `k` parameters.
    pub open spec fn argument_aliases(gets: Seq<Binding>, k: int) -> Map<usize, Binding>
        decreases k,
    {
        if k <= 0 {
            Map::empty()
        } else {
            Self::argument_aliases(gets, k - 1).insert(gets[k - 1].0, Binding((k - 1) as usize))
        }
    }

    /// The arrays are aligned, the parameters come first, and every index that
    /// is stored refers to something that exists.
    pub open spec fn wf(self) -> bool {
        &&& self.defs.len() == self.usages.len()
        &&& self.arg_count <= self.defs.len()
        &&& forall|i: int|
            0 <= i < self.arg_count ==> #[trigger] self.defs[i] == Definition::Argument(i as usize)
        &&& forall|i: int|
            self.arg_count <= i < self.defs.len() ==> (#[trigger] self.defs[i]) is Op
                && self.defs[i]->Op_0 < self.ops.len()
        &&& forall|b: int, j: int|
            0 <= b < self.usages.len() && 0 <= j < self.usages[b].len() ==> match (
            #[trigger] self.usages[b][j]).index {
                UsageIndex::Op(k) => k < self.ops.len(),
                UsageIndex::BlockEnd => true,
            }
        &&& forall|k: usize|
            self.aliases.contains_key(k) ==> (#[trigger] self.aliases[k]).0 < self.defs.len()
        &&& forall|k: int|
            0 <= k < self.ops.len() ==> op_in_bounds(
                #[trigger] self.ops[k],
                self.defs.len() as int,
                self.calls.len() as int,
            )
        &&& self.calls_wf()
    }

    /// The bindings of call record `j` are those defined by a call operation
    /// that names the record.
    pub open spec fn range_defined_by_call(self, j: int) -> bool {
        forall|b: int|
            self.calls[j].start <= b < self.calls[j].end ==> match #[trigger] self.defs[b] {
                Definition::Op(k) => k < self.ops.len() && match self.ops[k as int] {
                    OpModel::Call { usage_info_index, .. } => usage_info_index == j,
                    _ => false,
                },
                Definition::Argument(_) => false,
            }
    }

    /// Each call record spans as many bindings as it consumes results; the
    /// spans lie one after another, so no two share a binding; a binding is in
    /// a record's span exactly if a call operation that names the record
    /// defines it.
    pub open spec fn calls_wf(self) -> bool {
        &&& forall|j: int|
            0 <= j < self.calls.len() ==> {
                &&& self.arg_count <= (#[trigger] self.calls[j]).start
                &&& self.calls[j].start <= self.calls[j].end
                &&& self.calls[j].end <= self.defs.len()
                &&& self.calls[j].result_usage.len() == self.calls[j].end - self.calls[j].start
                &&& self.range_defined_by_call(j)
            }
        &&& forall|i: int, j: int|
            0 <= i < j < self.calls.len() ==> (#[trigger] self.calls[i]).end <= (
            #[trigger] self.calls[j]).start
        &&& forall|b: int|
            0 <= b < self.defs.len() ==> match #[trigger] self.defs[b] {
                Definition::Op(k) => k < self.ops.len() ==> match self.ops[k as int] {
                    OpModel::Call { usage_info_index, .. } => {
                        &&& usage_info_index < self.calls.len()
                        &&& self.calls[usage_info_index as int].start <= b
                        &&& b < self.calls[usage_info_index as int].end
                    },
                    _ => true,
                },
                Definition::Argument(_) => true,
            }
    }

    /// Appends an operation that defines nothing.
    pub open spec fn push_op(self, op: OpModel) -> BuilderModel {
        BuilderModel { ops: self.ops.push(op), ..self }
    }

    /// Appends an operation and the one binding that it defines.
    pub open spec fn define(self, op: OpModel) -> (BuilderModel, Binding) {
        (
            BuilderModel {
                ops: self.ops.push(op),
                defs: self.defs.push(Definition::Op(self.ops.len() as usize)),
                usages: self.usages.push(Seq::empty()),
                ..self
            },
            Binding(self.defs.len() as usize),
        )
    }

    /// Makes the identifier `source` an alias of `target`.
    pub open spec fn alias(self, source: Binding, target: Binding) -> BuilderModel {
        BuilderModel { aliases: self.aliases.insert(source.0, target), ..self }
    }

    /// Records one more usage of `binding`.
    pub open spec fn use_at(self, binding: Binding, usage: Usage) -> BuilderModel {
        BuilderModel {
            usages: self.usages.update(
                binding.0 as int,
                self.usages[binding.0 as int].push(usage),
            ),
            ..self
        }
    }

    /// Resolves a value reference: a constant or a label gets a fresh
    /// `Constant` operation, an identifier is looked up among the aliases.
    pub open spec fn pure(self, value: Pure) -> Result<(BuilderModel, Binding), LoweringError> {
        match value {
            Pure::Constant(c) => Ok(self.define(OpModel::Constant(Constant::Numeric(c)))),
            Pure::Label(l) => Ok(self.define(OpModel::Constant(Constant::Label(l)))),
            Pure::Binding(b) => if self.aliases.contains_key(b.0) {
                Ok((self, self.aliases[b.0]))
            } else {
                Err(LoweringError::UnresolvedAlias(b))
            },
        }
    }

    /// Resolves a list of value references from left to right. The first
    /// failure is the list's.
    pub open spec fn copied(self, pures: Seq<Pure>) -> Result<
        (BuilderModel, Seq<Binding>),
        LoweringError,
    >
        decreases pures.len(),
    {
        if pures.len() == 0 {
            Ok((self, Seq::empty()))
        } else {
            match self.copied(pures.drop_last()) {
                Err(e) => Err(e),
                Ok((m, bindings)) => match m.pure(pures.last()) {
                    Err(e) => Err(e),
                    Ok((m2, b)) => Ok((m2, bindings.push(b))),
                },
            }
        }
    }

    /// Adds two bindings: both get an exclusive usage at the index of the
    /// `Add` operation, which is appended in the same step.
    pub open spec fn add_pair(self, lhs: Binding, rhs: Binding) -> (BuilderModel, Binding) {
        let usage = exclusive_at(self.ops.len() as int);
        self.use_at(lhs, usage).use_at(rhs, usage).define(OpModel::Add { lhs, rhs })
    }

    /// Adds the bindings of `others` to `acc`, one `Add` per binding, from left
    /// to right. Each `Add` takes the result of the one before as its left operand.
    pub open spec fn add_chain(self, acc: Binding, others: Seq<Binding>) -> (BuilderModel, Binding)
        decreases others.len(),
    {
        if others.len() == 0 {
            (self, acc)
        } else {
            let (m, lhs) = self.add_chain(acc, others.drop_last());
            m.add_pair(lhs, others.last())
        }
    }

    /// The sum of `lhs` and the operands of `rest`: all operands are resolved
    /// first, from left to right, then they are added.
    pub open spec fn add(self, lhs: Pure, rest: Seq<Pure>) -> Result<
        (BuilderModel, Binding),
        LoweringError,
    > {
        match self.pure(lhs) {
            Err(e) => Err(e),
            Ok((m, first)) => match m.copied(rest) {
                Err(e) => Err(e),
                Ok((m2, others)) => Ok(m2.add_chain(first, others)),
            },
        }
    }

    /// Records `usage` on each of `bindings`, once per occurrence.
    pub open spec fn use_all(self, bindings: Seq<Binding>, usage: Usage) -> BuilderModel
        decreases bindings.len(),
    {
        if bindings.len() == 0 {
            self
        } else {
            self.use_all(bindings.drop_last(), usage).use_at(bindings.last(), usage)
        }
    }

    /// Appends `count` bindings that the operation at `op_index` defines.
    pub open spec fn allocate(self, count: int, op_index: usize) -> BuilderModel
        decreases count,
    {
        if count <= 0 {
            self
        } else {
            let m = self.allocate(count - 1, op_index);
            BuilderModel {
                defs: m.defs.push(Definition::Op(op_index)),
                usages: m.usages.push(Seq::empty()),
                ..m
            }
        }
    }

    /// Makes the identifier of each of the first `k` targets an alias of the
    /// binding at `start` plus the target's position.
    pub open spec fn alias_results(self, targets: Seq<AssignedBinding>, start: int, k: int) -> BuilderModel
        decreases k,
    {
        if k <= 0 {
            self
        } else {
            self.alias_results(targets, start, k - 1).alias(
                targets[k - 1].binding,
                Binding((start + k - 1) as usize),
            )
        }
    }

    /// The positions of the results that a call with this usage consumes.
    pub open spec fn consumed_results(usage: AssignedUsage, target_arity: usize) -> Seq<usize> {
        match usage {
            AssignedUsage::All => Seq::new(target_arity as nat, |i: int| i as usize),
            AssignedUsage::Specific(targets) => Seq::new(
                targets@.len(),
                |i: int| targets@[i].assign_index,
            ),
        }
    }

    /// The state after the parameters of a call are resolved to `args`: each
    /// gets an exclusive usage at the call's index, the consumed results get
    /// fresh bindings that the call defines, the targets become aliases, and
    /// the call and its record are appended.
    pub open spec fn emit_call(
        self,
        label: Label,
        args: Seq<Binding>,
        usage: AssignedUsage,
        target_arity: usize,
    ) -> BuilderModel {
        let call_index = self.ops.len();
        let consumed = Self::consumed_results(usage, target_arity);
        let start = self.defs.len();
        let used = self.use_all(args, exclusive_at(call_index as int));
        let allocated = used.allocate(consumed.len() as int, call_index as usize);
        let aliased = match usage {
            AssignedUsage::All => allocated,
            AssignedUsage::Specific(targets) => allocated.alias_results(
                targets@,
                start as int,
                targets@.len() as int,
            ),
        };
        BuilderModel {
            ops: aliased.ops.push(
                OpModel::Call { label, args, usage_info_index: self.calls.len() as usize },
            ),
            calls: aliased.calls.push(
                CallModel {
                    result_usage: consumed,
                    start: start as usize,
                    end: (start + consumed.len()) as usize,
                    called_label: label,
                },
            ),
            ..aliased
        }
    }

    /// A call: the parameters are resolved from left to right, then the call
    /// is emitted. The second part of the result is the span of the bindings
    /// that take the consumed results.
    pub open spec fn call(
        self,
        label: Label,
        params: Seq<Pure>,
        usage: AssignedUsage,
        target_arity: usize,
    ) -> Result<(BuilderModel, (int, int)), LoweringError> {
        match self.copied(params) {
            Err(e) => Err(e),
            Ok((m, args)) => Ok(
                (
                    m.emit_call(label, args, usage, target_arity),
                    (
                        m.defs.len() as int,
                        (m.defs.len() + Self::consumed_results(usage, target_arity).len()) as int,
                    ),
                ),
            ),
        }
    }

    /// Makes the identifier of each of the first `k` targets an alias of the
    /// result at the same position.
    pub open spec fn alias_zip(self, targets: Seq<AssignedBinding>, results: Seq<Binding>, k: int) -> BuilderModel
        decreases k,
    {
        if k <= 0 {
            self
        } else {
            self.alias_zip(targets, results, k - 1).alias(targets[k - 1].binding, results[k - 1])
        }
    }

    /// One assignment. A copy resolves its values and binds the targets to
    /// them, pairwise, as far as both lists go. The other shapes are not lowered.
    pub open spec fn assign(self, stmt: Assignment) -> Result<BuilderModel, LoweringError> {
        match stmt.value {
            Value::Copied(pures) => match self.copied(pures@) {
                Err(e) => Err(e),
                Ok((m, results)) => Ok(
                    m.alias_zip(
                        stmt.used_bindings@,
                        results,
                        if stmt.used_bindings@.len() <= results.len() {
                            stmt.used_bindings@.len() as int
                        } else {
                            results.len() as int
                        },
                    ),
                ),
            },
            Value::Add { .. } => Err(LoweringError::UnsupportedConstruct(Construct::AssignedAdd)),
            Value::Call { .. } => Err(LoweringError::UnsupportedConstruct(Construct::AssignedCall)),
        }
    }

    /// The assignments in order. The first failure is the list's.
    pub open spec fn assign_all(self, stmts: Seq<Assignment>) -> Result<BuilderModel, LoweringError>
        decreases stmts.len(),
    {
        if stmts.len() == 0 {
            Ok(self)
        } else {
            match self.assign_all(stmts.drop_last()) {
                Err(e) => Err(e),
                Ok(m) => m.assign(stmts.last()),
            }
        }
    }

    /// The block that this state gives with `end` as its terminator.
    pub open spec fn released(self, end: TransferModel) -> BlockModel {
        BlockModel {
            arg_count: self.arg_count,
            defs: self.defs,
            usages: self.usages,
            calls: self.calls,
            ops: self.ops,
            end,
        }
    }

    /// The terminator. A tail value is returned: a list of values as it is, a
    /// sum as its one result, a call with all the results that its target
    /// yields. A conditional branch resolves its condition; it exports no
    /// bindings to the merges of its targets.
    pub open spec fn finish(self, end: End, counts: Seq<usize>) -> Result<BlockModel, LoweringError> {
        match end {
            End::TailValue(Value::Copied(pures)) => match self.copied(pures@) {
                Err(e) => Err(e),
                Ok((m, results)) => Ok(m.released(TransferModel::Return(results))),
            },
            End::TailValue(Value::Add { lhs, rest }) => match self.add(lhs, rest@) {
                Err(e) => Err(e),
                Ok((m, sum)) => Ok(m.released(TransferModel::Return(seq![sum]))),
            },
            End::TailValue(Value::Call { label, params }) => match self.call(
                label,
                params@,
                AssignedUsage::All,
                counts[label.0 as int],
            ) {
                Err(e) => Err(e),
                Ok((m, (start, end))) => Ok(
                    m.released(
                        TransferModel::Return(
                            Seq::new((end - start) as nat, |i: int| Binding((start + i) as usize)),
                        ),
                    ),
                ),
            },
            End::ConditionalBranch { condition, label_if_true, label_if_false } => match self.pure(
                condition,
            ) {
                Err(e) => Err(e),
                Ok((m, source)) => Ok(
                    m.released(
                        TransferModel::ConditionalBranch {
                            exported_bindings: Map::empty(),
                            condition_source: source,
                            target_if_true: label_if_true,
                            target_if_false: label_if_false,
                        },
                    ),
                ),
            },
            End::BlockIsEmpty => arbitrary(),
        }
    }
}

/// A terminator, with its lists as sequences.
pub enum TransferModel {
    Return(Seq<Binding>),
    DirectBranch { target: Label, exported_bindings: Map<usize, Seq<Binding>> },
    ConditionalBranch {
        exported_bindings: Map<usize, Seq<Binding>>,
        condition_source: Binding,
        target_if_true: Label,
        target_if_false: Label,
    },
}

impl View for CFTransfer {
    type V = TransferModel;

    open spec fn view(&self) -> TransferModel {
        match *self {
            CFTransfer::Return(values) => TransferModel::Return(values@),
            CFTransfer::DirectBranch { target, exported_bindings } => TransferModel::DirectBranch {
                target,
                exported_bindings: Map::new(
                    |k: usize| exported_bindings@.contains_key(k),
                    |k: usize| exported_bindings@[k]@,
                ),
            },
            CFTransfer::ConditionalBranch {
                exported_bindings,
                condition_source,
                target_if_true,
                target_if_false,
            } => TransferModel::ConditionalBranch {
                exported_bindings: Map::new(
                    |k: usize| exported_bindings@.contains_key(k),
                    |k: usize| exported_bindings@[k]@,
                ),
                condition_source,
                target_if_true,
                target_if_false,
            },
        }
    }
}

/// Every binding of this block that the terminator names exists.
pub open spec fn transfer_in_bounds(end: TransferModel, bindings: int) -> bool {
    match end {
        TransferModel::Return(values) => forall|i: int|
            0 <= i < values.len() ==> (#[trigger] values[i]).0 < bindings,
        TransferModel::DirectBranch { exported_bindings, .. } => forall|k: usize, i: int|
            exported_bindings.contains_key(k) && 0 <= i < exported_bindings[k].len() ==> (
            #[trigger] exported_bindings[k][i]).0 < bindings,
        TransferModel::ConditionalBranch { exported_bindings, condition_source, .. } => {
            &&& condition_source.0 < bindings
            &&& forall|k: usize, i: int|
                exported_bindings.contains_key(k) && 0 <= i < exported_bindings[k].len() ==> (
                #[trigger] exported_bindings[k][i]).0 < bindings
        },
    }
}

/// A lowered block.
pub struct BlockModel {
    pub arg_count: usize,
    pub defs: Seq<Definition>,
    pub usages: Seq<Seq<Usage>>,
    pub calls: Seq<CallModel>,
    pub ops: Seq<OpModel>,
    pub end: TransferModel,
}

impl BlockModel {
    /// The block's arrays as a builder state without aliases.
    pub open spec fn state(self) -> BuilderModel {
        BuilderModel {
            aliases: Map::empty(),
            ops: self.ops,
            arg_count: self.arg_count,
            defs: self.defs,
            usages: self.usages,
            calls: self.calls,
        }
    }

    /// The definitions and the usage lists are aligned, binding by binding;
    /// every binding that an operation, a usage, a call record or the
    /// terminator names exists; the spans of the call records are disjoint and
    /// hold exactly the bindings that the calls define.
    pub open spec fn wf(self) -> bool {
        self.state().wf() && transfer_in_bounds(self.end, self.defs.len() as int)
    }
}

impl View for Block {
    type V = BlockModel;

    open spec fn view(&self) -> BlockModel {
        BlockModel {
            arg_count: self.arg_count,
            defs: self.binding_defs@,
            usages: Seq::new(self.binding_usages@.len(), |i: int| self.binding_usages@[i]@),
            calls: Seq::new(self.call_return_usages@.len(), |i: int| self.call_return_usages@[i]@),
            ops: Seq::new(self.operations@.len(), |i: int| self.operations@[i]@),
            end: self.end@,
        }
    }
}

/// The lowering of one block of the input, given the number of results
/// that every block yields.
pub open spec fn lowered(block: crate::hlir::Block, counts: Seq<usize>) -> Result<
    BlockModel,
    LoweringError,
> {
    match BuilderModel::initial(block.gets@).assign_all(block.assigns@) {
        Err(e) => Err(e),
        Ok(m) => m.finish(block.end, counts),
    }
}

/// In a well-formed block the definitions and the usage lists have one entry
/// per binding, and every binding that an operation or the terminator names
/// is one of them.
pub proof fn lemma_bindings_exist(block: BlockModel)
    requires
        block.wf(),
    ensures
        block.defs.len() == block.usages.len(),
        forall|k: int|
            0 <= k < block.ops.len() ==> op_in_bounds(
                #[trigger] block.ops[k],
                block.defs.len() as int,
                block.calls.len() as int,
            ),
        transfer_in_bounds(block.end, block.defs.len() as int),
        forall|b: int, j: int|
            0 <= b < block.usages.len() && 0 <= j < block.usages[b].len() ==> match (
            #[trigger] block.usages[b][j]).index {
                UsageIndex::Op(k) => k < block.ops.len(),
                UsageIndex::BlockEnd => true,
            },
{
}

/// In a well-formed block no binding lies in the spans of two call records.
pub proof fn lemma_call_ranges_disjoint(block: BlockModel, i: int, j: int, b: int)
    requires
        block.wf(),
        0 <= i < block.calls.len(),
        0 <= j < block.calls.len(),
        i != j,
    ensures
        !(block.calls[i].start <= b < block.calls[i].end && block.calls[j].start <= b
            < block.calls[j].end),
{
    if i < j {
        assert(block.state().calls[i].end <= block.state().calls[j].start);
    } else {
        assert(block.state().calls[j].end <= block.state().calls[i].start);
    }
}

/// The binding `b` is defined by a call operation that names the call record `j`.
pub open spec fn defined_by_call(block: BlockModel, b: int, j: int) -> bool {
    &&& 0 <= b < block.defs.len()
    &&& match block.defs[b] {
        Definition::Op(k) => k < block.ops.len() && match block.ops[k as int] {
            OpModel::Call { usage_info_index, .. } => usage_info_index == j,
            _ => false,
        },
        Definition::Argument(_) => false,
    }
}

/// In a well-formed block the span of a call record holds exactly the bindings
/// that the call defines, one per consumed result.
pub proof fn lemma_call_range_exact(block: BlockModel, j: int, b: int)
    requires
        block.wf(),
        0 <= j < block.calls.len(),
    ensures
        block.calls[j].start <= b < block.calls[j].end <==> defined_by_call(block, b, j),
        block.calls[j].end - block.calls[j].start == block.calls[j].result_usage.len(),
{
    let m = block.state();
    assert(m.calls[j].end <= m.defs.len());
    if block.calls[j].start <= b < block.calls[j].end {
        assert(m.range_defined_by_call(j));
        assert(defined_by_call(block, b, j));
    }
    if defined_by_call(block, b, j) {
        assert(m.defs[b] is Op);
    }
}

} // verus!
