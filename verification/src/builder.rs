//! The lowering engine for one block: it allocates bindings, records
//! usages and appends operations, each step keeping the arrays aligned.

use vstd::prelude::*;
use std::collections::HashMap;
use crate::block::{BindingRange, Block, CFTransfer, CallReturnUsage, Constant, Op};
use crate::bucket::{Definition, Usage, UsageIndex, UsageKind};
use crate::error::LoweringError;
use crate::hlir::{AssignedBinding, Pure};
use crate::index::{Binding, Label};
use crate::model::{
    exclusive_at, op_in_bounds, transfer_in_bounds, AssignedUsage, BuilderModel, OpModel,
    TransferModel,
};

verus! {

broadcast use vstd::std_specs::hash::group_hash_axioms;

pub struct BlockBuilder {
    /// From an identifier of the input, by index, to the binding that stands for it.
    pub hlir_results: HashMap<usize, Binding>,
    pub ops: Vec<Op>,
    pub arg_count: usize,
    pub binding_definitions: Vec<Definition>,
    pub binding_usages: Vec<Vec<Usage>>,
    pub call_return_usages: Vec<CallReturnUsage>,
}

impl View for BlockBuilder {
    type V = BuilderModel;

    open spec fn view(&self) -> BuilderModel {
        BuilderModel {
            aliases: self.hlir_results@,
            ops: Seq::new(self.ops@.len(), |i: int| self.ops@[i]@),
            arg_count: self.arg_count,
            defs: self.binding_definitions@,
            usages: Seq::new(self.binding_usages@.len(), |i: int| self.binding_usages@[i]@),
            calls: Seq::new(self.call_return_usages@.len(), |i: int| self.call_return_usages@[i]@),
        }
    }
}

/// Appends `usage` to the usages of the binding at `b`.
fn push_usage(usages: &mut Vec<Vec<Usage>>, b: usize, usage: Usage)
    requires
        b < old(usages).len(),
    ensures
        final(usages)@.len() == old(usages)@.len(),
        final(usages)@[b as int]@ == old(usages)@[b as int]@.push(usage),
        forall|i: int|
            0 <= i < old(usages)@.len() && i != b ==> #[trigger] final(usages)@[i] == old(usages)@[i],
{
    usages[b].push(usage);
}

/// An operation that is in bounds stays so when bindings or call records are added.
pub proof fn lemma_in_bounds_grows(op: OpModel, b1: int, c1: int, b2: int, c2: int)
    requires
        op_in_bounds(op, b1, c1),
        b1 <= b2,
        c1 <= c2,
    ensures
        op_in_bounds(op, b2, c2),
{
}

/// Defining a binding by an operation other than a call keeps the state well formed.
pub proof fn lemma_define_wf(m: BuilderModel, op: OpModel)
    requires
        m.wf(),
        op_in_bounds(op, m.defs.len() as int, m.calls.len() as int),
        !(op is Call),
        m.ops.len() < usize::MAX,
    ensures
        m.define(op).0.wf(),
{
    let n = m.define(op).0;
    assert forall|k: int| 0 <= k < n.ops.len() implies op_in_bounds(
        #[trigger] n.ops[k],
        n.defs.len() as int,
        n.calls.len() as int,
    ) by {
        if k < m.ops.len() {
            lemma_in_bounds_grows(
                m.ops[k],
                m.defs.len() as int,
                m.calls.len() as int,
                n.defs.len() as int,
                n.calls.len() as int,
            );
        }
    }
    assert forall|j: int| 0 <= j < n.calls.len() implies n.range_defined_by_call(j) by {
        assert(m.range_defined_by_call(j));
    }
}

/// Appending an operation that defines nothing keeps the state well formed.
pub proof fn lemma_push_op_wf(m: BuilderModel, op: OpModel)
    requires
        m.wf(),
        op_in_bounds(op, m.defs.len() as int, m.calls.len() as int),
    ensures
        m.push_op(op).wf(),
{
    let n = m.push_op(op);
    assert forall|j: int| 0 <= j < n.calls.len() implies n.range_defined_by_call(j) by {
        assert(m.range_defined_by_call(j));
    }
}

/// Adding two bindings that exist keeps the state well formed.
pub proof fn lemma_add_pair_wf(m: BuilderModel, lhs: Binding, rhs: Binding)
    requires
        m.wf(),
        lhs.0 < m.defs.len(),
        rhs.0 < m.defs.len(),
        m.ops.len() < usize::MAX,
    ensures
        m.add_pair(lhs, rhs).0.wf(),
{
    let n = m.add_pair(lhs, rhs).0;
    let usage = exclusive_at(m.ops.len() as int);
    assert forall|k: int| 0 <= k < n.ops.len() implies op_in_bounds(
        #[trigger] n.ops[k],
        n.defs.len() as int,
        n.calls.len() as int,
    ) by {
        if k < m.ops.len() {
            lemma_in_bounds_grows(
                m.ops[k],
                m.defs.len() as int,
                m.calls.len() as int,
                n.defs.len() as int,
                n.calls.len() as int,
            );
        }
    }
    assert forall|j: int| 0 <= j < n.calls.len() implies n.range_defined_by_call(j) by {
        assert(m.range_defined_by_call(j));
    }
    let m1 = m.use_at(lhs, usage);
    let m2 = m1.use_at(rhs, usage);
    assert forall|b: int, j: int|
        0 <= b < n.usages.len() && 0 <= j < n.usages[b].len() implies match (
    #[trigger] n.usages[b][j]).index {
        UsageIndex::Op(k) => k < n.ops.len(),
        UsageIndex::BlockEnd => true,
    } by {
        if b < m.usages.len() {
            if j < m.usages[b].len() {
                assert(m.usages[b][j] == n.usages[b][j]);
            } else {
                assert(n.usages[b][j] == usage);
            }
        }
    }
}

/// A list whose prefix fails to resolve fails in the same way.
pub proof fn lemma_copied_prefix_fails(m: BuilderModel, pures: Seq<Pure>, k: int)
    requires
        0 <= k <= pures.len(),
        m.copied(pures.take(k)) is Err,
    ensures
        m.copied(pures) == m.copied(pures.take(k)),
    decreases pures.len() - k,
{
    if k == pures.len() {
        assert(pures.take(k) =~= pures);
    } else {
        assert(pures.take(k + 1).drop_last() =~= pures.take(k));
        lemma_copied_prefix_fails(m, pures, k + 1);
    }
}

/// Recording a usage on bindings changes nothing but their usage lists, to
/// which it appends copies of the usage.
pub proof fn lemma_use_all_shape(m: BuilderModel, bindings: Seq<Binding>, usage: Usage)
    requires
        forall|i: int| 0 <= i < bindings.len() ==> (#[trigger] bindings[i]).0 < m.usages.len(),
    ensures
        ({
            let n = m.use_all(bindings, usage);
            &&& n.ops == m.ops
            &&& n.defs == m.defs
            &&& n.calls == m.calls
            &&& n.aliases == m.aliases
            &&& n.arg_count == m.arg_count
            &&& n.usages.len() == m.usages.len()
            &&& forall|b: int|
                0 <= b < n.usages.len() ==> m.usages[b].len() <= (#[trigger] n.usages[b]).len()
            &&& forall|b: int, j: int|
                0 <= b < n.usages.len() && 0 <= j < n.usages[b].len() ==> #[trigger] n.usages[b][j]
                    == if j < m.usages[b].len() {
                    m.usages[b][j]
                } else {
                    usage
                }
        }),
    decreases bindings.len(),
{
    if bindings.len() > 0 {
        lemma_use_all_shape(m, bindings.drop_last(), usage);
        let p = m.use_all(bindings.drop_last(), usage);
        let n = m.use_all(bindings, usage);
        assert forall|b: int, j: int|
            0 <= b < n.usages.len() && 0 <= j < n.usages[b].len() implies #[trigger] n.usages[b][j]
            == if j < m.usages[b].len() {
            m.usages[b][j]
        } else {
            usage
        } by {
            assert(m.usages[b].len() <= p.usages[b].len());
            if b == bindings.last().0 {
                assert(n.usages[b] == p.usages[b].push(usage));
                if j < p.usages[b].len() {
                    assert(n.usages[b][j] == p.usages[b][j]);
                }
            } else {
                assert(n.usages[b] == p.usages[b]);
                assert(n.usages[b][j] == p.usages[b][j]);
            }
        }
        assert forall|b: int| 0 <= b < n.usages.len() implies m.usages[b].len() <= (
        #[trigger] n.usages[b]).len() by {
            assert(m.usages[b].len() <= p.usages[b].len());
        }
    }
}

/// Allocating bindings appends to the definitions and the usage lists, and
/// changes nothing else.
pub proof fn lemma_allocate_shape(m: BuilderModel, count: int, op_index: usize)
    requires
        0 <= count,
    ensures
        ({
            let n = m.allocate(count, op_index);
            &&& n.ops == m.ops
            &&& n.calls == m.calls
            &&& n.aliases == m.aliases
            &&& n.arg_count == m.arg_count
            &&& n.defs.len() == m.defs.len() + count
            &&& n.usages.len() == m.usages.len() + count
            &&& forall|i: int| 0 <= i < m.defs.len() ==> #[trigger] n.defs[i] == m.defs[i]
            &&& forall|i: int|
                m.defs.len() <= i < n.defs.len() ==> #[trigger] n.defs[i] == Definition::Op(op_index)
            &&& forall|i: int| 0 <= i < m.usages.len() ==> #[trigger] n.usages[i] == m.usages[i]
            &&& forall|i: int|
                m.usages.len() <= i < n.usages.len() ==> #[trigger] n.usages[i] == Seq::<
                    Usage,
                >::empty()
        }),
    decreases count,
{
    if count > 0 {
        lemma_allocate_shape(m, count - 1, op_index);
    }
}

/// Aliasing the results of a call changes nothing but the aliases, and every
/// new alias is one of the call's bindings.
pub proof fn lemma_alias_results_shape(
    m: BuilderModel,
    targets: Seq<AssignedBinding>,
    start: int,
    k: int,
)
    requires
        0 <= k <= targets.len(),
        0 <= start,
        start + k <= usize::MAX,
    ensures
        ({
            let n = m.alias_results(targets, start, k);
            &&& n.ops == m.ops
            &&& n.calls == m.calls
            &&& n.defs == m.defs
            &&& n.usages == m.usages
            &&& n.arg_count == m.arg_count
            &&& forall|key: usize|
                n.aliases.contains_key(key) ==> (m.aliases.contains_key(key) && n.aliases[key]
                    == m.aliases[key]) || start <= (#[trigger] n.aliases[key]).0 < start + k
        }),
    decreases k,
{
    if k > 0 {
        lemma_alias_results_shape(m, targets, start, k - 1);
    }
}

/// Emitting a call whose arguments exist keeps the state well formed.
pub proof fn lemma_emit_call_wf(
    m: BuilderModel,
    label: Label,
    args: Seq<Binding>,
    usage: AssignedUsage,
    target_arity: usize,
)
    requires
        m.wf(),
        forall|i: int| 0 <= i < args.len() ==> (#[trigger] args[i]).0 < m.defs.len(),
        m.ops.len() < usize::MAX,
        m.calls.len() < usize::MAX,
        m.defs.len() + BuilderModel::consumed_results(usage, target_arity).len() <= usize::MAX,
    ensures
        m.emit_call(label, args, usage, target_arity).wf(),
{
    let call_index = m.ops.len();
    let consumed = BuilderModel::consumed_results(usage, target_arity);
    let start = m.defs.len();
    let used = m.use_all(args, exclusive_at(call_index as int));
    let allocated = used.allocate(consumed.len() as int, call_index as usize);
    let aliased = match usage {
        AssignedUsage::All => allocated,
        AssignedUsage::Specific(targets) => allocated.alias_results(
            targets@,
            start as int,
            targets@.len() as int,
        ),
    };
    let n = m.emit_call(label, args, usage, target_arity);
    lemma_use_all_shape(m, args, exclusive_at(call_index as int));
    lemma_allocate_shape(used, consumed.len() as int, call_index as usize);
    match usage {
        AssignedUsage::All => {},
        AssignedUsage::Specific(targets) => {
            lemma_alias_results_shape(allocated, targets@, start as int, targets@.len() as int);
        },
    }
    assert(n.defs == allocated.defs);
    assert(n.usages == allocated.usages);
    assert(n.defs.len() == start + consumed.len());
    assert forall|i: int| 0 <= i < n.arg_count implies #[trigger] n.defs[i]
        == Definition::Argument(i as usize) by {
        assert(n.defs[i] == m.defs[i]);
    }
    assert forall|i: int| n.arg_count <= i < n.defs.len() implies (#[trigger] n.defs[i]) is Op
        && n.defs[i]->Op_0 < n.ops.len() by {
        if i < start {
            assert(n.defs[i] == m.defs[i]);
        }
    }
    assert forall|b: int, j: int|
        0 <= b < n.usages.len() && 0 <= j < n.usages[b].len() implies match (
    #[trigger] n.usages[b][j]).index {
        UsageIndex::Op(k) => k < n.ops.len(),
        UsageIndex::BlockEnd => true,
    } by {
        if b < start {
            assert(n.usages[b] == used.usages[b]);
            if j < m.usages[b].len() {
                assert(used.usages[b][j] == m.usages[b][j]);
            } else {
                assert(used.usages[b][j] == exclusive_at(call_index as int));
            }
        } else {
            assert(n.usages[b] == Seq::<Usage>::empty());
        }
    }
    assert forall|k: usize| n.aliases.contains_key(k) implies (#[trigger] n.aliases[k]).0
        < n.defs.len() by {
        if m.aliases.contains_key(k) && n.aliases[k] == m.aliases[k] {
            assert(m.aliases[k].0 < m.defs.len());
        }
    }
    assert forall|k: int| 0 <= k < n.ops.len() implies op_in_bounds(
        #[trigger] n.ops[k],
        n.defs.len() as int,
        n.calls.len() as int,
    ) by {
        if k < m.ops.len() {
            assert(n.ops[k] == m.ops[k]);
            lemma_in_bounds_grows(
                m.ops[k],
                m.defs.len() as int,
                m.calls.len() as int,
                n.defs.len() as int,
                n.calls.len() as int,
            );
        }
    }
    assert forall|j: int| 0 <= j < n.calls.len() implies {
        &&& n.arg_count <= (#[trigger] n.calls[j]).start
        &&& n.calls[j].start <= n.calls[j].end
        &&& n.calls[j].end <= n.defs.len()
        &&& n.calls[j].result_usage.len() == n.calls[j].end - n.calls[j].start
        &&& n.range_defined_by_call(j)
    } by {
        if j < m.calls.len() {
            assert(n.calls[j] == m.calls[j]);
            assert(m.range_defined_by_call(j));
            assert forall|b: int| n.calls[j].start <= b < n.calls[j].end implies match #[trigger] n.defs[b] {
                Definition::Op(k) => k < n.ops.len() && match n.ops[k as int] {
                    OpModel::Call { usage_info_index, .. } => usage_info_index == j,
                    _ => false,
                },
                Definition::Argument(_) => false,
            } by {
                assert(n.defs[b] == m.defs[b]);
            }
        } else {
            assert forall|b: int| n.calls[j].start <= b < n.calls[j].end implies match #[trigger] n.defs[b] {
                Definition::Op(k) => k < n.ops.len() && match n.ops[k as int] {
                    OpModel::Call { usage_info_index, .. } => usage_info_index == j,
                    _ => false,
                },
                Definition::Argument(_) => false,
            } by {
                assert(n.defs[b] == Definition::Op(call_index as usize));
            }
        }
    }
    assert forall|i: int, j: int| 0 <= i < j < n.calls.len() implies (#[trigger] n.calls[i]).end <= (
    #[trigger] n.calls[j]).start by {
        assert(n.calls[i] == m.calls[i]);
        if j < m.calls.len() {
            assert(n.calls[j] == m.calls[j]);
        }
    }
    assert forall|b: int| 0 <= b < n.defs.len() implies match #[trigger] n.defs[b] {
        Definition::Op(k) => k < n.ops.len() ==> match n.ops[k as int] {
            OpModel::Call { usage_info_index, .. } => {
                &&& usage_info_index < n.calls.len()
                &&& n.calls[usage_info_index as int].start <= b
                &&& b < n.calls[usage_info_index as int].end
            },
            _ => true,
        },
        Definition::Argument(_) => true,
    } by {
        if b < start {
            assert(n.defs[b] == m.defs[b]);
            match m.defs[b] {
                Definition::Op(k) => {
                    if b >= m.arg_count {
                        assert(k < m.ops.len());
                        assert(n.ops[k as int] == m.ops[k as int]);
                        match m.ops[k as int] {
                            OpModel::Call { usage_info_index, .. } => {
                                assert(n.calls[usage_info_index as int]
                                    == m.calls[usage_info_index as int]);
                            },
                            _ => {},
                        }
                    }
                },
                _ => {},
            }
        } else {
            assert(n.defs[b] == Definition::Op(call_index as usize));
        }
    }
}

/// A well-formed state whose terminator names bindings that exist gives a
/// well-formed block.
pub proof fn lemma_released_wf(m: BuilderModel, end: TransferModel)
    requires
        m.wf(),
        transfer_in_bounds(end, m.defs.len() as int),
    ensures
        m.released(end).wf(),
{
    let n = m.released(end).state();
    assert forall|j: int| 0 <= j < n.calls.len() implies n.range_defined_by_call(j) by {
        assert(m.range_defined_by_call(j));
    }
}

impl BlockBuilder {
    /// A builder for a block with the parameters `gets`.
    pub fn new(gets: &Vec<Binding>) -> (builder: Self)
        ensures
            builder@ == BuilderModel::initial(gets@),
            builder@.wf(),
    {
        let n: usize = gets.len();
        let mut aliases: HashMap<usize, Binding> = HashMap::new();
        let mut defs: Vec<Definition> = Vec::new();
        let mut usages: Vec<Vec<Usage>> = Vec::new();
        let mut i: usize = 0;
        while i < n
            invariant
                i <= n,
                n == gets.len(),
                defs.len() == i,
                usages.len() == i,
                aliases@ == BuilderModel::argument_aliases(gets@, i as int),
                forall|k: usize| aliases@.contains_key(k) ==> (#[trigger] aliases@[k]).0 < i,
                forall|j: int| 0 <= j < i ==> #[trigger] defs@[j] == Definition::Argument(j as usize),
                forall|j: int| 0 <= j < i ==> (#[trigger] usages@[j])@ == Seq::<Usage>::empty(),
            decreases n - i,
        {
            aliases.insert(gets[i].0, Binding(i));
            defs.push(Definition::Argument(i));
            usages.push(Vec::new());
            i += 1;
        }
        let builder = BlockBuilder {
            hlir_results: aliases,
            ops: Vec::new(),
            arg_count: n,
            binding_definitions: defs,
            binding_usages: usages,
            call_return_usages: Vec::new(),
        };
        proof {
            let target = BuilderModel::initial(gets@);
            assert(builder@.ops =~= target.ops);
            assert(builder@.defs =~= target.defs);
            assert(builder@.usages =~= target.usages);
            assert(builder@.calls =~= target.calls);
        }
        builder
    }

    /// Makes the identifier `hlir_target` stand for the binding `self_target`.
    pub fn register_result(&mut self, hlir_target: Binding, self_target: Binding)
        requires
            old(self)@.wf(),
            self_target.0 < old(self)@.defs.len(),
        ensures
            final(self)@ == old(self)@.alias(hlir_target, self_target),
            final(self)@.wf(),
    {
        self.hlir_results.insert(hlir_target.0, self_target);
        proof {
            assert forall|j: int| 0 <= j < self@.calls.len() implies self@.range_defined_by_call(
                j,
            ) by {
                assert(old(self)@.range_defined_by_call(j));
            }
        }
    }

    /// Appends an operation that defines no binding.
    pub fn push_op(&mut self, op: Op)
        requires
            old(self)@.wf(),
            op_in_bounds(op@, old(self)@.defs.len() as int, old(self)@.calls.len() as int),
        ensures
            final(self)@ == old(self)@.push_op(op@),
            final(self)@.wf(),
    {
        self.ops.push(op);
        proof {
            assert(self@.ops =~= old(self)@.ops.push(op@));
            lemma_push_op_wf(old(self)@, op@);
        }
    }

    /// Appends an operation and the binding that it defines, with no usage yet.
    fn define(&mut self, op: Op) -> (binding: Binding)
        requires
            old(self)@.wf(),
            op_in_bounds(op@, old(self)@.defs.len() as int, old(self)@.calls.len() as int),
            !(op@ is Call),
        ensures
            (final(self)@, binding) == old(self)@.define(op@),
            final(self)@.wf(),
            binding.0 < final(self)@.defs.len(),
    {
        let definition = Definition::Op(self.ops.len());
        let index: usize = self.binding_definitions.len();
        self.ops.push(op);
        self.binding_definitions.push(definition);
        self.binding_usages.push(Vec::new());
        proof {
            let target = old(self)@.define(op@).0;
            assert(self.ops@.len() == self.ops.len());
            assert(self@.ops =~= target.ops);
            assert(self@.usages =~= target.usages);
            assert(self@.defs =~= target.defs);
            lemma_define_wf(old(self)@, op@);
        }
        Binding(index)
    }

    /// Adds two bindings. The usages of the operands and the `Add` itself are
    /// recorded in one step, so that the usages always name an operation that exists.
    fn define_add(&mut self, lhs: Binding, rhs: Binding) -> (binding: Binding)
        requires
            old(self)@.wf(),
            lhs.0 < old(self)@.defs.len(),
            rhs.0 < old(self)@.defs.len(),
        ensures
            (final(self)@, binding) == old(self)@.add_pair(lhs, rhs),
            final(self)@.wf(),
            binding.0 < final(self)@.defs.len(),
    {
        let op_index: usize = self.ops.len();
        let usage = Usage { usage_kind: UsageKind::Exclusive, index: UsageIndex::Op(op_index) };
        push_usage(&mut self.binding_usages, lhs.0, usage);
        push_usage(&mut self.binding_usages, rhs.0, usage);
        let index: usize = self.binding_definitions.len();
        self.ops.push(Op::Add { lhs, rhs });
        self.binding_definitions.push(Definition::Op(op_index));
        self.binding_usages.push(Vec::new());
        proof {
            let target = old(self)@.add_pair(lhs, rhs).0;
            assert(self.ops@.len() == self.ops.len());
            assert(self@.ops =~= target.ops);
            assert(self@.usages =~= target.usages);
            assert(self@.defs =~= target.defs);
            lemma_add_pair_wf(old(self)@, lhs, rhs);
        }
        Binding(index)
    }

    /// Resolves a value reference to a binding. A constant or a label gets a
    /// fresh `Constant` operation; an identifier must have been bound before.
    pub fn compile_pure(&mut self, hlir_value: Pure) -> (r: Result<Binding, LoweringError>)
        requires
            old(self)@.wf(),
        ensures
            final(self)@.wf(),
            old(self)@.defs.len() <= final(self)@.defs.len(),
            match r {
                Ok(binding) => old(self)@.pure(hlir_value) == Ok::<
                    (BuilderModel, Binding),
                    LoweringError,
                >((final(self)@, binding)) && binding.0 < final(self)@.defs.len(),
                Err(e) => old(self)@.pure(hlir_value) == Err::<(BuilderModel, Binding), LoweringError>(
                    e,
                ) && final(self)@ == old(self)@,
            },
    {
        match Constant::try_from(hlir_value) {
            Ok(constant) => Ok(self.define(Op::Constant(constant))),
            Err(alias) => match self.hlir_results.get(&alias.0) {
                Some(binding) => Ok(*binding),
                None => Err(LoweringError::UnresolvedAlias(alias)),
            },
        }
    }

    /// Resolves a list of value references, from left to right.
    pub fn compile_copied(&mut self, pures: &Vec<Pure>) -> (r: Result<Vec<Binding>, LoweringError>)
        requires
            old(self)@.wf(),
        ensures
            final(self)@.wf(),
            old(self)@.defs.len() <= final(self)@.defs.len(),
            match r {
                Ok(bindings) => {
                    &&& old(self)@.copied(pures@) == Ok::<(BuilderModel, Seq<Binding>), LoweringError>(
                        (final(self)@, bindings@),
                    )
                    &&& forall|i: int|
                        0 <= i < bindings@.len() ==> (#[trigger] bindings@[i]).0 < final(self)@.defs.len()
                },
                Err(e) => old(self)@.copied(pures@) == Err::<(BuilderModel, Seq<Binding>), LoweringError>(
                    e,
                ),
            },
    {
        let mut bindings: Vec<Binding> = Vec::new();
        let mut i: usize = 0;
        assert(pures@.take(0) =~= Seq::<Pure>::empty());
        while i < pures.len()
            invariant
                i <= pures.len(),
                self@.wf(),
                old(self)@.defs.len() <= self@.defs.len(),
                old(self)@.copied(pures@.take(i as int)) == Ok::<
                    (BuilderModel, Seq<Binding>),
                    LoweringError,
                >((self@, bindings@)),
                forall|j: int|
                    0 <= j < bindings@.len() ==> (#[trigger] bindings@[j]).0 < self@.defs.len(),
            decreases pures.len() - i,
        {
            assert(pures@.take(i + 1).drop_last() =~= pures@.take(i as int));
            match self.compile_pure(pures[i]) {
                Ok(binding) => {
                    bindings.push(binding);
                },
                Err(e) => {
                    proof {
                        lemma_copied_prefix_fails(old(self)@, pures@, i + 1);
                    }
                    return Err(e);
                },
            }
            i += 1;
        }
        assert(pures@.take(i as int) =~= pures@);
        Ok(bindings)
    }

    /// Adds `lhs` and the operands of `rest`. All operands are resolved first,
    /// from left to right; then one `Add` is emitted per operand of `rest`.
    pub fn compile_add(&mut self, lhs: Pure, rest: &Vec<Pure>) -> (r: Result<Binding, LoweringError>)
        requires
            old(self)@.wf(),
        ensures
            final(self)@.wf(),
            match r {
                Ok(binding) => old(self)@.add(lhs, rest@) == Ok::<
                    (BuilderModel, Binding),
                    LoweringError,
                >((final(self)@, binding)) && binding.0 < final(self)@.defs.len(),
                Err(e) => old(self)@.add(lhs, rest@) == Err::<(BuilderModel, Binding), LoweringError>(
                    e,
                ),
            },
    {
        let first: Binding = match self.compile_pure(lhs) {
            Ok(binding) => binding,
            Err(e) => {
                return Err(e);
            },
        };
        let others: Vec<Binding> = match self.compile_copied(rest) {
            Ok(others) => others,
            Err(e) => {
                return Err(e);
            },
        };
        let ghost resolved = self@;
        let mut acc: Binding = first;
        let mut i: usize = 0;
        assert(others@.take(0) =~= Seq::<Binding>::empty());
        while i < others.len()
            invariant
                i <= others.len(),
                self@.wf(),
                acc.0 < self@.defs.len(),
                resolved.defs.len() <= self@.defs.len(),
                forall|j: int|
                    0 <= j < others@.len() ==> (#[trigger] others@[j]).0 < resolved.defs.len(),
                resolved.add_chain(first, others@.take(i as int)) == (self@, acc),
            decreases others.len() - i,
        {
            assert(others@.take(i + 1).drop_last() =~= others@.take(i as int));
            acc = self.define_add(acc, others[i]);
            i += 1;
        }
        assert(others@.take(i as int) =~= others@);
        Ok(acc)
    }

    /// Lowers a call. The parameters are resolved from left to right; each gets
    /// an exclusive usage at the call's index; one fresh binding is allocated
    /// per consumed result; then the call and its record are appended. The
    /// result is the span of the fresh bindings.
    pub fn compile_call(
        &mut self,
        label: Label,
        params: &Vec<Pure>,
        assigned_usage: AssignedUsage,
        target_return_count: usize,
    ) -> (r: Result<BindingRange, LoweringError>)
        requires
            old(self)@.wf(),
        ensures
            final(self)@.wf(),
            match r {
                Ok(range) => old(self)@.call(label, params@, assigned_usage, target_return_count)
                    == Ok::<(BuilderModel, (int, int)), LoweringError>(
                    (final(self)@, (range.start() as int, range.end() as int)),
                ) && range.start() <= range.end() <= final(self)@.defs.len(),
                Err(e) => old(self)@.call(label, params@, assigned_usage, target_return_count)
                    == Err::<(BuilderModel, (int, int)), LoweringError>(e),
            },
    {
        let args: Vec<Binding> = match self.compile_copied(params) {
            Ok(args) => args,
            Err(e) => {
                return Err(e);
            },
        };
        let ghost m = self@;
        let ghost consumed = BuilderModel::consumed_results(assigned_usage, target_return_count);
        let call_index: usize = self.ops.len();
        let usage = Usage { usage_kind: UsageKind::Exclusive, index: UsageIndex::Op(call_index) };
        let mut i: usize = 0;
        assert(args@.take(0) =~= Seq::<Binding>::empty());
        while i < args.len()
            invariant
                i <= args.len(),
                usage == exclusive_at(call_index as int),
                forall|j: int| 0 <= j < args@.len() ==> (#[trigger] args@[j]).0 < m.usages.len(),
                self@ == m.use_all(args@.take(i as int), usage),
                self@.usages.len() == m.usages.len(),
            decreases args.len() - i,
        {
            assert(args@.take(i + 1).drop_last() =~= args@.take(i as int));
            let ghost before = self@;
            push_usage(&mut self.binding_usages, args[i].0, usage);
            assert(self@.usages =~= before.use_at(args@[i as int], usage).usages);
            i += 1;
        }
        assert(args@.take(i as int) =~= args@);
        let ghost used = self@;
        let start: usize = self.binding_definitions.len();
        let count: usize = match &assigned_usage {
            AssignedUsage::All => target_return_count,
            AssignedUsage::Specific(targets) => targets.len(),
        };
        let mut result_usage: Vec<usize> = Vec::new();
        let mut i: usize = 0;
        proof {
            lemma_use_all_shape(m, args@, usage);
        }
        while i < count
            invariant
                i <= count,
                count == consumed.len(),
                consumed == BuilderModel::consumed_results(assigned_usage, target_return_count),
                self@ == used.allocate(i as int, call_index),
                self.binding_definitions@.len() == start + i,
                start == used.defs.len(),
                result_usage@ == consumed.take(i as int),
            decreases count - i,
        {
            let position: usize = match &assigned_usage {
                AssignedUsage::All => i,
                AssignedUsage::Specific(targets) => targets[i].assign_index,
            };
            let ghost before = self@;
            self.binding_definitions.push(Definition::Op(call_index));
            self.binding_usages.push(Vec::new());
            result_usage.push(position);
            proof {
                assert(self.binding_definitions@.len() == self.binding_definitions.len());
                assert(self@.usages =~= before.usages.push(Seq::empty()));
                assert(result_usage@ =~= consumed.take(i + 1));
            }
            i += 1;
        }
        assert(consumed.take(count as int) =~= consumed);
        let ghost allocated = self@;
        match &assigned_usage {
            AssignedUsage::All => {},
            AssignedUsage::Specific(targets) => {
                let mut i: usize = 0;
                while i < targets.len()
                    invariant
                        i <= targets.len(),
                        targets.len() == count,
                        self.binding_definitions@.len() == start + count,
                        self@ == allocated.alias_results(targets@, start as int, i as int),
                    decreases targets.len() - i,
                {
                    assert(self.binding_definitions@.len() == self.binding_definitions.len());
                    self.hlir_results.insert(targets[i].binding.0, Binding(start + i));
                    i += 1;
                }
            },
        }
        let ghost aliased = self@;
        let end: usize = self.binding_definitions.len();
        let record = CallReturnUsage {
            result_usage,
            result_binding_range: BindingRange::between(start, end),
            called_label: label,
        };
        let op = Op::Call { label, args, usage_info_index: self.call_return_usages.len() };
        self.ops.push(op);
        self.call_return_usages.push(record);
        proof {
            let target = m.emit_call(label, args@, assigned_usage, target_return_count);
            assert(self.ops@.len() == self.ops.len());
            assert(self.call_return_usages@.len() == self.call_return_usages.len());
            assert(self.binding_definitions@.len() == self.binding_definitions.len());
            lemma_allocate_shape(used, consumed.len() as int, call_index);
            match assigned_usage {
                AssignedUsage::All => {},
                AssignedUsage::Specific(targets) => {
                    lemma_alias_results_shape(
                        allocated,
                        targets@,
                        start as int,
                        targets@.len() as int,
                    );
                },
            }
            assert(aliased.ops == m.ops);
            assert(aliased.calls == m.calls);
            assert(aliased.defs.len() == start + consumed.len());
            assert(self@.ops =~= target.ops);
            assert(self@.calls =~= target.calls);
            assert(self@.usages =~= target.usages);
            assert(self@ == target);
            lemma_emit_call_wf(m, label, args@, assigned_usage, target_return_count);
        }
        Ok(BindingRange::between(start, end))
    }

    /// Hands the block over, with `end` as its terminator.
    pub fn release(self, end: CFTransfer) -> (block: Block)
        ensures
            block@ == self@.released(end@),
            self@.wf() && transfer_in_bounds(end@, self@.defs.len() as int) ==> block@.wf(),
    {
        let block = Block {
            arg_count: self.arg_count,
            binding_defs: self.binding_definitions,
            binding_usages: self.binding_usages,
            call_return_usages: self.call_return_usages,
            operations: self.ops,
            end,
        };
        proof {
            let target = self@.released(end@);
            assert(block@.ops =~= target.ops);
            assert(block@.usages =~= target.usages);
            assert(block@.calls =~= target.calls);
            if self@.wf() && transfer_in_bounds(end@, self@.defs.len() as int) {
                lemma_released_wf(self@, end@);
            }
        }
        block
    }
}

} // verus!
