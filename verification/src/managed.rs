//! Building a whole function: blocks, the variables that live in them and
//! the scopes that decide when variables die.
use vstd::prelude::*;

use smallvec::SmallVec;

use crate::PatchError;
use crate::patch::{
    BlockView, PatchBlock, PatchState, ProgramBlocks, emit_outcome, emitted, final_len_spec, finalize_error,
    linked, sum_prefix,
};
use crate::regs::{Allocator, AllocatorView, BlockId, Value, dropped};
use crate::relocation::JumpTarget;
use crate::stencils::{Location, StencilFamily, StencilLibrary};

verus! {

/// The stack of blocks whose variables are alive, innermost last.
#[verifier::external_body]
pub struct ScopeStack {
    items: SmallVec<[BlockId; 8]>,
}

/// The blocks on a scope stack, outermost first.
pub uninterp spec fn scope_stack_items(s: ScopeStack) -> Seq<BlockId>;

/// `SmallVec::new`: an empty stack.
#[verifier::external_body]
fn scope_stack_new() -> (r: ScopeStack)
    ensures
        scope_stack_items(r) == Seq::<BlockId>::empty(),
{
    ScopeStack { items: SmallVec::new() }
}

/// `SmallVec::push`: the block goes on top. Growing panics ("capacity
/// overflow") only when the doubled capacity no longer fits `usize` or
/// `isize::MAX` bytes, which the length bound keeps out on 32- and 64-bit
/// targets.
#[verifier::external_body]
fn scope_stack_push(s: &mut ScopeStack, block: BlockId)
    requires
        scope_stack_items(*old(s)).len() < 0x1000_0000,
    ensures
        scope_stack_items(*final(s)) == scope_stack_items(*old(s)).push(block),
{
    s.items.push(block)
}

/// `SmallVec::as_slice`: the blocks, outermost first.
#[verifier::external_body]
fn scope_stack_slice(s: &ScopeStack) -> (r: &[BlockId])
    ensures
        r@ == scope_stack_items(*s),
{
    s.items.as_slice()
}

/// `SmallVec::truncate`: keeps the first `len` blocks (all of them when
/// there are fewer).
#[verifier::external_body]
fn scope_stack_truncate(s: &mut ScopeStack, len: usize)
    ensures
        scope_stack_items(*final(s)) == if len < scope_stack_items(*old(s)).len() {
            scope_stack_items(*old(s)).take(len as int)
        } else {
            scope_stack_items(*old(s))
        },
{
    s.items.truncate(len)
}

/// The variables created in one block, oldest first.
#[verifier::external_body]
pub struct VariableList {
    items: SmallVec<[Value; 8]>,
}

/// The variables of a list, oldest first.
pub uninterp spec fn variable_list_items(v: VariableList) -> Seq<Value>;

/// `SmallVec::new`: an empty list.
#[verifier::external_body]
fn variable_list_new() -> (r: VariableList)
    ensures
        variable_list_items(r) == Seq::<Value>::empty(),
{
    VariableList { items: SmallVec::new() }
}

/// `SmallVec::push`: the variable goes last. Growing panics ("capacity
/// overflow") only when the doubled capacity no longer fits `usize` or
/// `isize::MAX` bytes, which the length bound keeps out on 32- and 64-bit
/// targets.
#[verifier::external_body]
fn variable_list_push(v: &mut VariableList, value: Value)
    requires
        variable_list_items(*old(v)).len() < 0x1000_0000,
    ensures
        variable_list_items(*final(v)) == variable_list_items(*old(v)).push(value),
{
    v.items.push(value)
}

/// `SmallVec::as_slice`: the variables, oldest first.
#[verifier::external_body]
fn variable_list_slice(v: &VariableList) -> (r: &[Value])
    ensures
        r@ == variable_list_items(*v),
{
    v.items.as_slice()
}

/// `SmallVec::drain(..)`: every variable comes out, oldest first, and the
/// list is left empty.
#[verifier::external_body]
fn variable_list_drain(v: &mut VariableList) -> (r: Vec<Value>)
    ensures
        r@ == variable_list_items(*old(v)),
        variable_list_items(*final(v)) == Seq::<Value>::empty(),
{
    v.items.drain(..).collect()
}

} // verus!

verus! {

/// A block of the function, the block whose scope encloses it (set when a
/// jump into it is emitted), and the variables created in it.
struct BlockScope<const MAX_REGS: usize> {
    block: PatchBlock<MAX_REGS>,
    parent: Option<BlockId>,
    variables: VariableList,
}

/// Where a jump of a branching stencil goes, and how the scope of the
/// target block relates to the current one.
pub enum JumpScope {
    /// To what follows the stencil.
    Next,
    /// Into a block nested in the current one.
    Child(BlockId),
    /// Into a sibling of the current block.
    Same(BlockId),
    /// Into a block nested in `parent`, an enclosing block.
    Parent { to: BlockId, parent: BlockId },
}

/// Builds a function out of blocks, giving its variables registers or stack
/// slots and freeing them when the scope of their block is left.
pub struct PatchFunctionBuilder<const MAX_REGS: usize> {
    library: &'static StencilLibrary<MAX_REGS>,
    allocator: Allocator,
    blocks: Vec<BlockScope<MAX_REGS>>,
    current_scopes: ScopeStack,
}

/// What a function builder holds.
pub struct FunctionView {
    /// The code of each block.
    pub blocks: Seq<BlockView>,
    /// The enclosing block of each block, once known.
    pub parents: Seq<Option<BlockId>>,
    /// The live variables created in each block, oldest first.
    pub variables: Seq<Seq<Value>>,
    /// The blocks whose scopes are open, outermost first.
    pub scopes: Seq<BlockId>,
    pub allocator: AllocatorView,
}

impl<const MAX_REGS: usize> View for PatchFunctionBuilder<MAX_REGS> {
    type V = FunctionView;

    closed spec fn view(&self) -> FunctionView {
        FunctionView {
            blocks: self.blocks@.map_values(|s: BlockScope<MAX_REGS>| s.block@),
            parents: self.blocks@.map_values(|s: BlockScope<MAX_REGS>| s.parent),
            variables: self.blocks@.map_values(
                |s: BlockScope<MAX_REGS>| variable_list_items(s.variables),
            ),
            scopes: scope_stack_items(self.current_scopes),
            allocator: self.allocator@,
        }
    }
}

/// Every listed variable belongs to the block it is listed under and is
/// live in the allocator, and no two listed variables share a slot.
pub open spec fn variables_ok(vars: Seq<Seq<Value>>, a: AllocatorView) -> bool {
    &&& forall|b: int, i: int|
        0 <= b < vars.len() && 0 <= i < vars[b].len() ==> (#[trigger] vars[b][i]).scope_spec()
            == BlockId(b as u16) && a.slots.dom().contains(vars[b][i].slot_spec() as usize)
    &&& forall|b1: int, i1: int, b2: int, i2: int|
        0 <= b1 < vars.len() && 0 <= i1 < vars[b1].len() && 0 <= b2 < vars.len() && 0 <= i2
            < vars[b2].len() && (b1 != b2 || i1 != i2) ==> (#[trigger] vars[b1][i1]).slot_spec()
            != (#[trigger] vars[b2][i2]).slot_spec()
}

impl FunctionView {
    /// The function's invariant, apart from what its blocks hold.
    pub open spec fn wf(self) -> bool {
        &&& 1 <= self.blocks.len() <= 0x10000
        &&& self.parents.len() == self.blocks.len()
        &&& self.variables.len() == self.blocks.len()
        &&& self.allocator.wf()
        &&& variables_ok(self.variables, self.allocator)
        &&& forall|k: int| 0 <= k < self.scopes.len() ==> (#[trigger] self.scopes[k]).0 < self.blocks.len()
    }

    /// The variable was created in a block whose scope is open and is still
    /// live.
    pub open spec fn in_scope(self, v: Value) -> bool {
        &&& self.scopes.contains(v.scope_spec())
        &&& v.scope_spec().0 < self.variables.len()
        &&& self.variables[v.scope_spec().0 as int].contains(v)
    }

    /// The locations of the variables, if all are in scope.
    pub open spec fn located(self, values: Seq<Value>) -> Option<Seq<Location>> {
        if forall|k: int| 0 <= k < values.len() ==> self.in_scope(#[trigger] values[k]) {
            Some(values.map_values(|v: Value| self.allocator.slots[v.slot_spec() as usize]))
        } else {
            None
        }
    }
}

impl<const MAX_REGS: usize> PatchFunctionBuilder<MAX_REGS> {
    /// The library the function takes its stencils from.
    pub closed spec fn lib(&self) -> StencilLibrary<MAX_REGS> {
        *self.library
    }

    /// The builder's invariant: its view is well formed and every block is
    /// well formed over the library.
    pub closed spec fn wf(&self) -> bool {
        &&& self@.wf()
        &&& self.library.wf()
        &&& forall|i: int|
            0 <= i < self.blocks@.len() ==> (#[trigger] self.blocks@[i]).block.wf()
                && self.blocks@[i].block.lib() == *self.library
    }

    /// A builder with an empty entry block and no open scope, whose
    /// allocator hands out `MAX_REGS - 1` registers.
    pub fn new(library: &'static StencilLibrary<MAX_REGS>) -> (r: Self)
        requires
            library.wf(),
            1 <= MAX_REGS <= 0x10001,
        ensures
            r.wf(),
            r.lib() == *library,
            r@.blocks.len() == 1,
            r@.blocks[0].code.len() == 0,
            r@.blocks[0].relocations.len() == 0,
            r@.blocks[0].constants.len() == 0,
            r@.blocks[0].pending.len() == 0,
            !r@.blocks[0].ended,
            r@.parents == seq![None::<BlockId>],
            r@.variables == seq![Seq::<Value>::empty()],
            r@.scopes == Seq::<BlockId>::empty(),
            r@.allocator.slots.dom() == Set::<usize>::empty(),
            r@.allocator.register_count == MAX_REGS - 1,
            r@.allocator.stack_size == 0,
    {
        let allocator = Allocator::new(MAX_REGS - 1);
        let entry = BlockScope { block: PatchBlock::new(library), parent: None, variables: variable_list_new() };
        let mut blocks: Vec<BlockScope<MAX_REGS>> = Vec::new();
        blocks.push(entry);
        let r = Self { library, allocator, blocks, current_scopes: scope_stack_new() };
        proof {
            assert(r@.variables =~= seq![Seq::<Value>::empty()]);
            assert(r@.parents =~= seq![None::<BlockId>]);
            assert(r@.allocator.slots.dom() =~= Set::<usize>::empty());
        }
        r
    }

    /// Adds an empty block with no known parent and returns its id.
    pub fn create_block(&mut self) -> (r: BlockId)
        requires
            old(self).wf(),
            old(self)@.blocks.len() < 0x10000,
        ensures
            final(self).wf(),
            final(self).lib() == old(self).lib(),
            r == BlockId(old(self)@.blocks.len() as u16),
            final(self)@.blocks.len() == old(self)@.blocks.len() + 1,
            final(self)@.blocks.drop_last() == old(self)@.blocks,
            final(self)@.blocks.last().code.len() == 0,
            final(self)@.blocks.last().relocations.len() == 0,
            final(self)@.blocks.last().constants.len() == 0,
            final(self)@.blocks.last().pending.len() == 0,
            !final(self)@.blocks.last().ended,
            final(self)@.parents == old(self)@.parents.push(None),
            final(self)@.variables == old(self)@.variables.push(Seq::<Value>::empty()),
            final(self)@.scopes == old(self)@.scopes,
            final(self)@.allocator == old(self)@.allocator,
    {
        let ghost o = self@;
        let ghost ob = self.blocks@;
        let s = BlockScope { block: PatchBlock::new(self.library), parent: None, variables: variable_list_new() };
        self.blocks.push(s);
        let id = self.blocks.len() - 1;
        proof {
            let n = self@;
            assert forall|i: int| 0 <= i < self.blocks@.len() implies (#[trigger] self.blocks@[i]).block.wf()
                && self.blocks@[i].block.lib() == *self.library by {
                if i < ob.len() {
                    assert(self.blocks@[i] == ob[i]);
                }
            }
            assert forall|k: int| 0 <= k < n.scopes.len() implies (#[trigger] n.scopes[k]).0 < n.blocks.len() by {
                assert(o.scopes[k].0 < o.blocks.len());
            }
            assert(n.blocks.drop_last() =~= o.blocks);
            assert(n.parents =~= o.parents.push(None));
            assert(n.variables =~= o.variables.push(Seq::<Value>::empty()));
            assert forall|b: int, i: int|
                0 <= b < n.variables.len() && 0 <= i < n.variables[b].len() implies (#[trigger] n.variables[b][i]).scope_spec()
                    == BlockId(b as u16) && n.allocator.slots.dom().contains(n.variables[b][i].slot_spec() as usize) by {
                assert(n.variables[b] == o.variables[b]);
            }
            assert forall|b1: int, i1: int, b2: int, i2: int|
                0 <= b1 < n.variables.len() && 0 <= i1 < n.variables[b1].len() && 0 <= b2 < n.variables.len() && 0 <= i2
                    < n.variables[b2].len() && (b1 != b2 || i1 != i2) implies (#[trigger] n.variables[b1][i1]).slot_spec()
                    != (#[trigger] n.variables[b2][i2]).slot_spec() by {
                assert(n.variables[b1] == o.variables[b1]);
                assert(n.variables[b2] == o.variables[b2]);
            }
        }
        BlockId(id as u16)
    }
}

} // verus!

verus! {

/// The allocator once the variables are dropped, first to last.
pub open spec fn drop_values(a: AllocatorView, vs: Seq<Value>) -> AllocatorView
    decreases vs.len(),
{
    if vs.len() == 0 {
        a
    } else {
        dropped(drop_values(a, vs.drop_last()), vs.last().slot_spec() as usize)
    }
}

/// Leaving the scope of block `b`: its variables are dropped and its list
/// emptied.
pub open spec fn drain_scope(vars: Seq<Seq<Value>>, a: AllocatorView, b: int) -> (Seq<Seq<Value>>, AllocatorView) {
    (vars.update(b, Seq::empty()), drop_values(a, vars[b]))
}

/// Leaving the scopes `scopes[from..to]`, innermost first.
pub open spec fn release(
    vars: Seq<Seq<Value>>,
    a: AllocatorView,
    scopes: Seq<BlockId>,
    from: int,
    to: int,
) -> (Seq<Seq<Value>>, AllocatorView)
    decreases to - from,
{
    if to <= from {
        (vars, a)
    } else {
        let r = release(vars, a, scopes, from + 1, to);
        drain_scope(r.0, r.1, scopes[from].0 as int)
    }
}

/// The position of the first `x` in `s`.
pub open spec fn first_index(s: Seq<BlockId>, x: BlockId) -> int {
    choose|i: int| 0 <= i < s.len() && s[i] == x && forall|j: int| 0 <= j < i ==> s[j] != x
}

/// What switching to `block` does: the entry block can always be entered;
/// another block only once a jump into it has named its parent, and only
/// while the parent's scope is open. The scopes opened after the parent's
/// first opening are left, innermost first, and the block's scope opens.
pub open spec fn switched(v: FunctionView, block: BlockId) -> Result<FunctionView, PatchError> {
    if block.0 >= v.blocks.len() {
        Err(PatchError::UnresolvedBlockTarget)
    } else if block.0 == 0 {
        Ok(FunctionView { scopes: v.scopes.push(block), ..v })
    } else {
        match v.parents[block.0 as int] {
            None => Err(PatchError::BlockOutOfScope),
            Some(p) => if !v.scopes.contains(p) {
                Err(PatchError::BlockOutOfScope)
            } else {
                let idx = first_index(v.scopes, p);
                let r = release(v.variables, v.allocator, v.scopes, idx + 1, v.scopes.len() as int);
                Ok(
                    FunctionView {
                        variables: r.0,
                        allocator: r.1,
                        scopes: v.scopes.take(idx + 1).push(block),
                        ..v
                    },
                )
            },
        }
    }
}

proof fn lemma_first_index(s: Seq<BlockId>, x: BlockId, i: int)
    requires
        0 <= i < s.len(),
        s[i] == x,
        forall|j: int| 0 <= j < i ==> s[j] != x,
    ensures
        first_index(s, x) == i,
{
    let c = first_index(s, x);
    assert(0 <= c < s.len() && s[c] == x && forall|j: int| 0 <= j < c ==> s[j] != x);
    if c < i {
        assert(s[c] != x);
    } else if c > i {
        assert(s[i] != x);
    }
}

/// Dropping the oldest variable of a list keeps the others live and apart.
proof fn lemma_variables_drop_first(vars: Seq<Seq<Value>>, a: AllocatorView, b: int)
    requires
        variables_ok(vars, a),
        0 <= b < vars.len(),
        vars[b].len() > 0,
    ensures
        variables_ok(
            vars.update(b, vars[b].drop_first()),
            dropped(a, vars[b][0].slot_spec() as usize),
        ),
{
    let s = vars[b][0].slot_spec() as usize;
    let n = vars.update(b, vars[b].drop_first());
    let na = dropped(a, s);
    assert(na.slots == a.slots.remove(s));
    assert forall|c: int, i: int|
        0 <= c < n.len() && 0 <= i < n[c].len() implies (#[trigger] n[c][i]).scope_spec() == BlockId(c as u16)
            && na.slots.dom().contains(n[c][i].slot_spec() as usize) by {
        if c == b {
            assert(n[c][i] == vars[b][i + 1]);
            assert(vars[b][i + 1].slot_spec() != vars[b][0].slot_spec());
        } else {
            assert(n[c][i] == vars[c][i]);
            assert(vars[c][i].slot_spec() != vars[b][0].slot_spec());
        }
    }
    assert forall|b1: int, i1: int, b2: int, i2: int|
        0 <= b1 < n.len() && 0 <= i1 < n[b1].len() && 0 <= b2 < n.len() && 0 <= i2 < n[b2].len() && (b1
            != b2 || i1 != i2) implies (#[trigger] n[b1][i1]).slot_spec() != (#[trigger] n[b2][i2]).slot_spec() by {
        let j1 = if b1 == b { i1 + 1 } else { i1 };
        let j2 = if b2 == b { i2 + 1 } else { i2 };
        assert(n[b1][i1] == vars[b1][j1]);
        assert(n[b2][i2] == vars[b2][j2]);
        assert(vars[b1][j1].slot_spec() != vars[b2][j2].slot_spec());
    }
}

/// A block being built, within the function that holds it.
pub struct PatchBlockBuilder<'a, const MAX_REGS: usize> {
    builder: &'a mut PatchFunctionBuilder<MAX_REGS>,
    id: BlockId,
}

impl<'a, const MAX_REGS: usize> PatchBlockBuilder<'a, MAX_REGS> {
    /// The function as it is now.
    pub closed spec fn function(&self) -> PatchFunctionBuilder<MAX_REGS> {
        *self.builder
    }

    /// The borrow of the function, whose final value is the function once
    /// the block builder is done.
    pub closed spec fn function_ref(&self) -> &'a mut PatchFunctionBuilder<MAX_REGS> {
        self.builder
    }

    /// The block being built.
    pub closed spec fn block_id(&self) -> BlockId {
        self.id
    }

    /// The function is well formed and holds the block.
    pub open spec fn wf(&self) -> bool {
        &&& self.function().wf()
        &&& (self.block_id().0 as int) < self.function()@.blocks.len()
    }
}

impl<const MAX_REGS: usize> PatchFunctionBuilder<MAX_REGS> {
    /// Leaves the scope of block `b`: drops its variables, oldest first.
    fn drain_block(&mut self, b: usize)
        requires
            old(self).wf(),
            b < old(self)@.blocks.len(),
        ensures
            final(self).wf(),
            final(self).lib() == old(self).lib(),
            final(self)@.blocks == old(self)@.blocks,
            final(self)@.parents == old(self)@.parents,
            final(self)@.scopes == old(self)@.scopes,
            (final(self)@.variables, final(self)@.allocator) == drain_scope(
                old(self)@.variables,
                old(self)@.allocator,
                b as int,
            ),
    {
        let ghost o = self@;
        let ghost ob = self.blocks@;
        let vs = variable_list_drain(&mut self.blocks[b].variables);
        let ghost nb = self.blocks@;
        proof {
            assert(nb[b as int].block == ob[b as int].block);
            assert(vs@ == o.variables[b as int]);
            assert(vs@.skip(0) =~= vs@);
            assert(self@.variables =~= o.variables.update(b as int, Seq::empty()));
            assert(o.variables.update(b as int, vs@.skip(0)) =~= o.variables);
            assert forall|i: int| 0 <= i < nb.len() implies (#[trigger] nb[i]).block == ob[i].block && nb[i].parent == ob[i].parent by {}
        }
        let n = vs.len();
        let mut k: usize = 0;
        while k < n
            invariant
                k <= n,
                n == vs@.len(),
                vs@ == o.variables[b as int],
                b < o.blocks.len(),
                o.wf(),
                self.blocks@ == nb,
                self.library == old(self).library,
                self.current_scopes == old(self).current_scopes,
                self.allocator@.wf(),
                self.allocator@ == drop_values(o.allocator, vs@.take(k as int)),
                variables_ok(o.variables.update(b as int, vs@.skip(k as int)), self.allocator@),
            decreases n - k,
        {
            let ghost vars = o.variables.update(b as int, vs@.skip(k as int));
            let ghost a = self.allocator@;
            proof {
                assert(vars[b as int][0] == vs@[k as int]);
                assert(a.slots.dom().contains(vs@[k as int].slot_spec() as usize));
                lemma_variables_drop_first(vars, a, b as int);
                assert(vars[b as int].drop_first() =~= vs@.skip(k as int + 1));
                assert(vars.update(b as int, vars[b as int].drop_first()) =~= o.variables.update(
                    b as int,
                    vs@.skip(k as int + 1),
                ));
                assert(vs@.take(k as int + 1).drop_last() =~= vs@.take(k as int));
            }
            self.allocator.drop(vs[k]);
            k = k + 1;
        }
        proof {
            assert(vs@.take(n as int) =~= vs@);
            assert(vs@.skip(n as int) =~= Seq::<Value>::empty());
            let v = self@;
            assert(v.variables =~= o.variables.update(b as int, Seq::empty()));
            assert(v.blocks =~= o.blocks);
            assert(v.parents =~= o.parents);
            assert forall|k: int| 0 <= k < v.scopes.len() implies (#[trigger] v.scopes[k]).0 < v.blocks.len() by {
                assert(v.scopes[k] == o.scopes[k]);
            }
            assert forall|i: int| 0 <= i < self.blocks@.len() implies (#[trigger] self.blocks@[i]).block.wf()
                && self.blocks@[i].block.lib() == *self.library by {
                assert(self.blocks@[i].block == ob[i].block);
            }
        }
    }

    /// Enters the entry block (see `switch_to_block`).
    pub fn switch_to_entry(&mut self) -> (r: Result<PatchBlockBuilder<'_, MAX_REGS>, PatchError>)
        requires
            old(self).wf(),
            old(self)@.scopes.len() < 0x1000_0000,
        ensures
            match switched(old(self)@, BlockId(0)) {
                Err(e) => r == Err::<PatchBlockBuilder<'_, MAX_REGS>, PatchError>(e) && *final(self) == *old(self),
                Ok(n) => r matches Ok(b) && b.wf() && b.function()@ == n && b.function().lib() == old(self).lib()
                    && b.block_id() == BlockId(0) && *final(self) == *final(b.function_ref()),
            },
    {
        self.switch_to_block(BlockId(0))
    }

    /// Enters `block` (see `switched`): the scopes opened after its parent's
    /// are left, dropping their variables, and the block's scope opens.
    pub fn switch_to_block(&mut self, block: BlockId) -> (r: Result<PatchBlockBuilder<'_, MAX_REGS>, PatchError>)
        requires
            old(self).wf(),
            old(self)@.scopes.len() < 0x1000_0000,
        ensures
            match switched(old(self)@, block) {
                Err(e) => r == Err::<PatchBlockBuilder<'_, MAX_REGS>, PatchError>(e) && *final(self) == *old(self),
                Ok(n) => r matches Ok(b) && b.wf() && b.function()@ == n && b.function().lib() == old(self).lib()
                    && b.block_id() == block && *final(self) == *final(b.function_ref()),
            },
    {
        let ghost o = self@;
        if block.0 as usize >= self.blocks.len() {
            return Err(PatchError::UnresolvedBlockTarget);
        }
        if block.0 != 0 {
            let parent = match self.blocks[block.0 as usize].parent {
                Some(p) => p,
                None => {
                    return Err(PatchError::BlockOutOfScope);
                },
            };
            let scopes = scope_stack_slice(&self.current_scopes);
            let n = scopes.len();
            let mut index: usize = 0;
            let mut found = false;
            while index < n
                invariant_except_break
                    !found,
                invariant
                    index <= n,
                    n == scopes@.len(),
                    scopes@ == o.scopes,
                    forall|j: int| 0 <= j < index ==> scopes@[j] != parent,
                ensures
                    found ==> index < n && scopes@[index as int] == parent,
                    !found ==> index == n,
                decreases n - index,
            {
                if scopes[index] == parent {
                    found = true;
                    break;
                }
                index = index + 1;
            }
            if !found {
                proof {
                    assert(!o.scopes.contains(parent));
                }
                return Err(PatchError::BlockOutOfScope);
            }
            proof {
                lemma_first_index(o.scopes, parent, index as int);
            }
            let mut i = n;
            while i > index + 1
                invariant
                    index + 1 <= i <= n,
                    n == o.scopes.len(),
                    self.wf(),
                    self.library == old(self).library,
                    self@.blocks == o.blocks,
                    self@.parents == o.parents,
                    self@.scopes == o.scopes,
                    (self@.variables, self@.allocator) == release(o.variables, o.allocator, o.scopes, i as int, n as int),
                decreases i,
            {
                i = i - 1;
                let b = scope_stack_slice(&self.current_scopes)[i];
                proof {
                    assert(self@.scopes[i as int].0 < self@.blocks.len());
                }
                self.drain_block(b.0 as usize);
            }
            scope_stack_truncate(&mut self.current_scopes, index + 1);
        }
        scope_stack_push(&mut self.current_scopes, block);
        proof {
            let v = self@;
            if block.0 == 0 {
                assert(v.scopes =~= o.scopes.push(block));
            } else {
                let p = o.parents[block.0 as int].unwrap();
                assert(o.scopes.contains(p));
                assert(v.scopes =~= o.scopes.take(first_index(o.scopes, p) + 1).push(block));
            }
            assert forall|k: int| 0 <= k < v.scopes.len() implies (#[trigger] v.scopes[k]).0 < v.blocks.len() by {
                if k < v.scopes.len() - 1 {
                    assert(v.scopes[k] == o.scopes[k]);
                }
            }
        }
        Ok(PatchBlockBuilder { builder: self, id: block })
    }
}

} // verus!

verus! {

/// A list of live variables is no longer than the number of live slots.
proof fn lemma_list_len(vars: Seq<Seq<Value>>, a: AllocatorView, b: int)
    requires
        variables_ok(vars, a),
        a.wf(),
        0 <= b < vars.len(),
    ensures
        vars[b].len() <= 0xffff,
{
    let l = vars[b];
    let slots = l.map_values(|v: Value| v.slot_spec() as usize);
    assert forall|i: int, j: int| 0 <= i < slots.len() && 0 <= j < slots.len() && i != j implies slots[i]
        != slots[j] by {
        assert(l[i].slot_spec() != l[j].slot_spec());
    }
    assert(slots.no_duplicates());
    slots.unique_seq_to_set();
    assert(slots.to_set().subset_of(a.slots.dom())) by {
        assert forall|s: usize| slots.to_set().contains(s) implies a.slots.dom().contains(s) by {
            let i = choose|i: int| 0 <= i < slots.len() && slots[i] == s;
            assert(a.slots.dom().contains(l[i].slot_spec() as usize));
        }
    }
    vstd::set_lib::lemma_len_subset(slots.to_set(), a.slots.dom());
    assert(a.slots.dom().len() <= 0xffff);
}

/// The function with block `b` replaced.
pub open spec fn with_block(o: FunctionView, b: int, v: BlockView) -> FunctionView {
    FunctionView { blocks: o.blocks.update(b, v), ..o }
}

/// The block once a stencil is emitted into it with this outcome: on
/// success it holds the outcome's state, on failure its code is unchanged;
/// it has ended if it had or if the stencil `ends` it.
pub open spec fn after_emit(before: BlockView, outcome: Result<PatchState, PatchError>, ends: bool) -> BlockView {
    match outcome {
        Ok(st) => BlockView {
            code: st.code,
            relocations: st.relocations,
            constants: st.constants,
            pending: st.pending,
            ended: before.ended || ends,
        },
        Err(_) => BlockView { ended: before.ended || ends, ..before },
    }
}

/// `r` reports the outcome of an emission: success, or its error.
pub open spec fn reports(r: Result<(), PatchError>, outcome: Result<PatchState, PatchError>) -> bool {
    match outcome {
        Ok(_) => r is Ok,
        Err(e) => r == Err::<(), PatchError>(e),
    }
}

/// The function after a new variable is created in block `b`.
pub open spec fn with_variable(o: FunctionView, b: int, v: Value) -> FunctionView {
    FunctionView {
        allocator: crate::regs::allocated(o.allocator),
        variables: o.variables.update(b, o.variables[b].push(v)),
        ..o
    }
}

impl<const MAX_REGS: usize> PatchFunctionBuilder<MAX_REGS> {
    /// Whether `b`'s scope is open.
    fn scope_open(&self, b: BlockId) -> (r: bool)
        ensures
            r == self@.scopes.contains(b),
    {
        let scopes = scope_stack_slice(&self.current_scopes);
        let mut k: usize = 0;
        while k < scopes.len()
            invariant
                k <= scopes@.len(),
                scopes@ == self@.scopes,
                forall|j: int| 0 <= j < k ==> scopes@[j] != b,
            decreases scopes@.len() - k,
        {
            if scopes[k] == b {
                return true;
            }
            k = k + 1;
        }
        false
    }

    /// Whether `v` is in scope (see `FunctionView::in_scope`).
    fn variable_in_scope(&self, v: &Value) -> (r: bool)
        requires
            self.wf(),
        ensures
            r == self@.in_scope(*v),
    {
        let scope = v.scope();
        if !self.scope_open(scope) {
            return false;
        }
        if scope.0 as usize >= self.blocks.len() {
            return false;
        }
        let list = variable_list_slice(&self.blocks[scope.0 as usize].variables);
        let mut k: usize = 0;
        while k < list.len()
            invariant
                k <= list@.len(),
                scope == v.scope_spec(),
                (scope.0 as int) < self@.variables.len(),
                self@.scopes.contains(scope),
                list@ == self@.variables[v.scope_spec().0 as int],
                forall|j: int| 0 <= j < k ==> list@[j] != *v,
            decreases list@.len() - k,
        {
            if list[k] == *v {
                assert(list@[k as int] == *v);
                return true;
            }
            k = k + 1;
        }
        false
    }

    /// The locations of the variables, or `VariableOutOfScope` when one is
    /// not in scope.
    fn locations<const LEN: usize>(&self, values: &[Value; LEN]) -> (r: Result<[Location; LEN], PatchError>)
        requires
            self.wf(),
        ensures
            match self@.located(values@) {
                Some(ls) => r matches Ok(a) && a@ == ls,
                None => r == Err::<[Location; LEN], PatchError>(PatchError::VariableOutOfScope),
            },
    {
        let mut k: usize = 0;
        while k < LEN
            invariant
                k <= LEN,
                values@.len() == LEN,
                self.wf(),
                forall|j: int| 0 <= j < k ==> self@.in_scope(#[trigger] values@[j]),
            decreases LEN - k,
        {
            if !self.variable_in_scope(&values[k]) {
                return Err(PatchError::VariableOutOfScope);
            }
            k = k + 1;
        }
        let ghost ls = self@.located(values@).unwrap();
        let mut out = [Location::Register(0); LEN];
        let mut k: usize = 0;
        while k < LEN
            invariant
                k <= LEN,
                values@.len() == LEN,
                out@.len() == LEN,
                self.wf(),
                self@.located(values@) == Some(ls),
                ls.len() == LEN,
                forall|j: int| 0 <= j < k ==> out@[j] == ls[j],
            decreases LEN - k,
        {
            proof {
                let v = values@[k as int];
                assert(self@.in_scope(v));
                let j = choose|j: int| 0 <= j < self@.variables[v.scope_spec().0 as int].len()
                    && self@.variables[v.scope_spec().0 as int][j] == v;
                assert(self@.variables[v.scope_spec().0 as int][j] == v);
            }
            out[k] = self.allocator.location(&values[k]);
            k = k + 1;
        }
        assert(out@ =~= ls);
        Ok(out)
    }
}

impl<'a, const MAX_REGS: usize> PatchBlockBuilder<'a, MAX_REGS> {
    /// The function being built.
    pub fn builder(&mut self) -> (r: &mut PatchFunctionBuilder<MAX_REGS>)
        ensures
            *r == old(self).function(),
            final(self).function() == *final(r),
            final(self).block_id() == old(self).block_id(),
            *final(final(self).function_ref()) == *final(old(self).function_ref()),
    {
        self.builder
    }

    /// The block being built.
    pub fn id(&self) -> (r: BlockId)
        ensures
            r == self.block_id(),
    {
        self.id
    }

    /// Creates a variable in the block: `OutOfVariables` once `u16::MAX`
    /// variables are live; otherwise it takes the first free slot and the
    /// location `Allocator::allocate` gives it.
    pub fn new_variable(&mut self) -> (r: Result<Value, PatchError>)
        requires
            old(self).wf(),
        ensures
            final(self).wf(),
            final(self).block_id() == old(self).block_id(),
            final(self).function().lib() == old(self).function().lib(),
            *final(final(self).function_ref()) == *final(old(self).function_ref()),
            old(self).function()@.allocator.slots.dom().len() >= 0xffff ==> r == Err::<Value, PatchError>(
                PatchError::OutOfVariables,
            ) && final(self).function()@ == old(self).function()@,
            old(self).function()@.allocator.slots.dom().len() < 0xffff ==> (r matches Ok(v)
                && v.scope_spec() == old(self).block_id() && v.slot_spec()
                == old(self).function()@.allocator.free_slots[0] && final(self).function()@ == with_variable(
                old(self).function()@,
                old(self).block_id().0 as int,
                v,
            )),
    {
        let ghost o = self.builder@;
        let ghost ob = self.builder.blocks@;
        let b = self.id.0 as usize;
        let value = match self.builder.allocator.allocate(self.id) {
            Some(v) => v,
            None => {
                return Err(PatchError::OutOfVariables);
            },
        };
        proof {
            lemma_list_len(o.variables, o.allocator, b as int);
        }
        variable_list_push(&mut self.builder.blocks[b].variables, value);
        proof {
            let n = self.builder@;
            let a = o.allocator;
            let s = value.slot_spec() as usize;
            assert(!a.slots.dom().contains(s));
            assert(n.allocator.slots.dom() == a.slots.dom().insert(s));
            assert(n.blocks =~= o.blocks);
            assert(n.parents =~= o.parents);
            assert(n.variables =~= o.variables.update(b as int, o.variables[b as int].push(value)));
            let vars = n.variables;
            assert forall|c: int, i: int|
                0 <= c < vars.len() && 0 <= i < vars[c].len() implies (#[trigger] vars[c][i]).scope_spec() == BlockId(c as u16)
                    && n.allocator.slots.dom().contains(vars[c][i].slot_spec() as usize) by {
                if c == b && i == o.variables[c].len() {
                } else {
                    assert(vars[c][i] == o.variables[c][i]);
                }
            }
            assert forall|b1: int, i1: int, b2: int, i2: int|
                0 <= b1 < vars.len() && 0 <= i1 < vars[b1].len() && 0 <= b2 < vars.len() && 0 <= i2 < vars[b2].len()
                    && (b1 != b2 || i1 != i2) implies (#[trigger] vars[b1][i1]).slot_spec() != (#[trigger] vars[b2][i2]).slot_spec() by {
                let new1 = b1 == b && i1 == o.variables[b1].len();
                let new2 = b2 == b && i2 == o.variables[b2].len();
                if !new1 {
                    assert(vars[b1][i1] == o.variables[b1][i1]);
                    assert(a.slots.dom().contains(o.variables[b1][i1].slot_spec() as usize));
                }
                if !new2 {
                    assert(vars[b2][i2] == o.variables[b2][i2]);
                    assert(a.slots.dom().contains(o.variables[b2][i2].slot_spec() as usize));
                }
            }
            assert forall|i: int| 0 <= i < self.builder.blocks@.len() implies (#[trigger] self.builder.blocks@[i]).block.wf()
                && self.builder.blocks@[i].block.lib() == *self.builder.library by {
                assert(self.builder.blocks@[i].block == ob[i].block);
            }
            assert forall|k: int| 0 <= k < n.scopes.len() implies (#[trigger] n.scopes[k]).0 < n.blocks.len() by {
                assert(n.scopes[k] == o.scopes[k]);
            }
            assert(n == with_variable(o, b as int, value));
        }
        Ok(value)
    }

    /// Creates a parameter: a variable of the entry block, or of a block
    /// no jump has entered yet; `InvalidParams` for a block whose parent is
    /// known.
    pub fn new_param(&mut self) -> (r: Result<Value, PatchError>)
        requires
            old(self).wf(),
        ensures
            final(self).wf(),
            final(self).block_id() == old(self).block_id(),
            final(self).function().lib() == old(self).function().lib(),
            *final(final(self).function_ref()) == *final(old(self).function_ref()),
            old(self).function()@.parents[old(self).block_id().0 as int] is Some ==> r
                == Err::<Value, PatchError>(PatchError::InvalidParams) && final(self).function()@
                == old(self).function()@,
            old(self).function()@.parents[old(self).block_id().0 as int] is None
                && old(self).function()@.allocator.slots.dom().len() >= 0xffff ==> r == Err::<
                Value,
                PatchError,
            >(PatchError::OutOfVariables) && final(self).function()@ == old(self).function()@,
            old(self).function()@.parents[old(self).block_id().0 as int] is None
                && old(self).function()@.allocator.slots.dom().len() < 0xffff ==> (r matches Ok(v)
                && v.scope_spec() == old(self).block_id() && v.slot_spec()
                == old(self).function()@.allocator.free_slots[0] && final(self).function()@ == with_variable(
                old(self).function()@,
                old(self).block_id().0 as int,
                v,
            )),
    {
        if self.builder.blocks[self.id.0 as usize].parent.is_some() {
            return Err(PatchError::InvalidParams);
        }
        self.new_variable()
    }
}

} // verus!

verus! {

/// Every block a jump names exists.
pub open spec fn jumps_ok(jumps: Seq<JumpScope>, n_blocks: int) -> bool {
    forall|k: int|
        0 <= k < jumps.len() ==> match #[trigger] jumps[k] {
            JumpScope::Next => true,
            JumpScope::Child(b) => b.0 < n_blocks,
            JumpScope::Same(b) => b.0 < n_blocks,
            JumpScope::Parent { to, parent: _ } => to.0 < n_blocks,
        }
}

/// The parents once the jumps of a stencil of block `id` are emitted, in
/// order: a child's parent is `id`; a sibling's is `id`'s parent (the entry
/// block when unknown); `Parent` names the target's parent.
pub open spec fn retarget(parents: Seq<Option<BlockId>>, id: BlockId, jumps: Seq<JumpScope>) -> Seq<
    Option<BlockId>,
>
    decreases jumps.len(),
{
    if jumps.len() == 0 {
        parents
    } else {
        let p = retarget(parents, id, jumps.drop_last());
        match jumps.last() {
            JumpScope::Next => p,
            JumpScope::Child(b) => p.update(b.0 as int, Some(id)),
            JumpScope::Same(b) => p.update(
                b.0 as int,
                match p[id.0 as int] {
                    Some(x) => Some(x),
                    None => Some(BlockId(0)),
                },
            ),
            JumpScope::Parent { to, parent } => p.update(to.0 as int, Some(parent)),
        }
    }
}

/// Some jump names a parent whose scope is not open.
pub open spec fn escapes(jumps: Seq<JumpScope>, scopes: Seq<BlockId>) -> bool {
    exists|k: int|
        0 <= k < jumps.len() && (#[trigger] jumps[k] matches JumpScope::Parent { to: _, parent }
            && !scopes.contains(parent))
}

/// Where a jump goes.
pub open spec fn target_of(j: JumpScope) -> JumpTarget {
    match j {
        JumpScope::Next => JumpTarget::Next,
        JumpScope::Child(b) => JumpTarget::Target(b.0),
        JumpScope::Same(b) => JumpTarget::Target(b.0),
        JumpScope::Parent { to, parent: _ } => JumpTarget::Target(to.0),
    }
}

pub open spec fn jump_targets(jumps: Seq<JumpScope>) -> Seq<JumpTarget> {
    jumps.map_values(|j: JumpScope| target_of(j))
}

/// What preparing a branch does: the locations of the variables, or
/// `VariableOutOfScope` with nothing changed; then the parents are set by
/// the jumps, and `BlockOutOfScope` comes when a jump names a parent whose
/// scope is not open.
pub open spec fn prepared(
    o: FunctionView,
    id: BlockId,
    ins: Seq<Value>,
    outs: Seq<Value>,
    jumps: Seq<JumpScope>,
) -> (FunctionView, Result<(Seq<Location>, Seq<Location>, Seq<JumpTarget>), PatchError>) {
    match (o.located(ins), o.located(outs)) {
        (Some(li), Some(lo)) => {
            let n = FunctionView { parents: retarget(o.parents, id, jumps), ..o };
            if escapes(jumps, o.scopes) {
                (n, Err(PatchError::BlockOutOfScope))
            } else {
                (n, Ok((li, lo, jump_targets(jumps))))
            }
        },
        _ => (o, Err(PatchError::VariableOutOfScope)),
    }
}

proof fn lemma_retarget_len(parents: Seq<Option<BlockId>>, id: BlockId, jumps: Seq<JumpScope>)
    requires
        jumps_ok(jumps, parents.len() as int),
    ensures
        retarget(parents, id, jumps).len() == parents.len(),
    decreases jumps.len(),
{
    if jumps.len() > 0 {
        let j = jumps.drop_last();
        assert forall|k: int| 0 <= k < j.len() implies match #[trigger] j[k] {
            JumpScope::Next => true,
            JumpScope::Child(b) => b.0 < parents.len(),
            JumpScope::Same(b) => b.0 < parents.len(),
            JumpScope::Parent { to, parent: _ } => to.0 < parents.len(),
        } by {
            assert(j[k] == jumps[k]);
        }
        lemma_retarget_len(parents, id, j);
        assert(jumps[jumps.len() - 1] == jumps.last());
    }
}

impl<'a, const MAX_REGS: usize> PatchBlockBuilder<'a, MAX_REGS> {
    /// Emits a plain stencil, which continues with what follows, reading
    /// `inputs` and writing `outputs`.
    pub fn emit<const IN: usize, const OUT: usize, const HOLES: usize>(
        &mut self,
        stencil: &StencilFamily<IN, OUT, MAX_REGS, HOLES, 1>,
        inputs: &[Value; IN],
        outputs: &[Value; OUT],
        holes: &[usize; HOLES],
    ) -> (r: Result<(), PatchError>)
        requires
            old(self).wf(),
            stencil.wf(
                old(self).function().lib().code@.len(),
                old(self).function().lib().rt_symbols@.len(),
                old(self).function().lib().empty@.len(),
            ),
        ensures
            final(self).wf(),
            final(self).block_id() == old(self).block_id(),
            final(self).function().lib() == old(self).function().lib(),
            *final(final(self).function_ref()) == *final(old(self).function_ref()),
            ({
                let o = old(self).function()@;
                let n = final(self).function()@;
                let b = old(self).block_id().0 as int;
                match (o.located(inputs@), o.located(outputs@)) {
                    (Some(li), Some(lo)) => if o.blocks[b].ended {
                        r == Err::<(), PatchError>(PatchError::AlreadyEnded) && n == o
                    } else {
                        let e = emitted(
                            o.blocks[b],
                            old(self).function().lib(),
                            *stencil,
                            li,
                            lo,
                            holes@,
                            seq![JumpTarget::Next],
                        );
                        reports(r, e) && n == with_block(o, b, after_emit(o.blocks[b], e, false))
                    },
                    _ => r == Err::<(), PatchError>(PatchError::VariableOutOfScope) && n == o,
                }
            }),
    {
        let ins = match self.builder.locations(inputs) {
            Ok(l) => l,
            Err(e) => {
                return Err(e);
            },
        };
        let outs = match self.builder.locations(outputs) {
            Ok(l) => l,
            Err(e) => {
                return Err(e);
            },
        };
        let ghost o = self.builder@;
        let ghost ob = self.builder.blocks@;
        let b = self.id.0 as usize;
        let r = self.builder.blocks[b].block.emit(stencil, &ins, &outs, holes);
        proof {
            let n = self.builder@;
            assert forall|i: int| 0 <= i < self.builder.blocks@.len() implies (#[trigger] self.builder.blocks@[i]).block.wf()
                && self.builder.blocks@[i].block.lib() == *self.builder.library by {
                if i != b {
                    assert(self.builder.blocks@[i] == ob[i]);
                }
            }
            assert(n.parents =~= o.parents);
            assert(n.variables =~= o.variables);
            if !o.blocks[b as int].ended {
                let e = emitted(o.blocks[b as int], self.builder.lib(), *stencil, ins@, outs@, holes@, seq![JumpTarget::Next]);
                assert(n.blocks =~= o.blocks.update(b as int, after_emit(o.blocks[b as int], e, false)));
            } else {
                assert(n.blocks =~= o.blocks);
            }
            assert forall|k: int| 0 <= k < n.scopes.len() implies (#[trigger] n.scopes[k]).0 < n.blocks.len() by {
                assert(n.scopes[k] == o.scopes[k]);
            }
        }
        r
    }
}

} // verus!

verus! {

impl<'a, const MAX_REGS: usize> PatchBlockBuilder<'a, MAX_REGS> {
    /// Locates the variables and sets the parents of the blocks the jumps
    /// go to (see `prepared`).
    fn branch_prep<const IN: usize, const OUT: usize, const JUMPS: usize>(
        &mut self,
        inputs: &[Value; IN],
        outputs: &[Value; OUT],
        jumps: &[JumpScope; JUMPS],
    ) -> (r: Result<([Location; IN], [Location; OUT], [JumpTarget; JUMPS]), PatchError>)
        requires
            old(self).wf(),
            jumps_ok(jumps@, old(self).function()@.blocks.len() as int),
        ensures
            final(self).wf(),
            final(self).block_id() == old(self).block_id(),
            final(self).function().lib() == old(self).function().lib(),
            *final(final(self).function_ref()) == *final(old(self).function_ref()),
            ({
                let p = prepared(old(self).function()@, old(self).block_id(), inputs@, outputs@, jumps@);
                &&& final(self).function()@ == p.0
                &&& match p.1 {
                    Err(e) => r matches Err(e2) && e2 == e,
                    Ok((li, lo, t)) => r matches Ok((a, b, c)) && a@ == li && b@ == lo && c@ == t,
                }
            }),
    {
        let ins = match self.builder.locations(inputs) {
            Ok(l) => l,
            Err(e) => {
                return Err(e);
            },
        };
        let outs = match self.builder.locations(outputs) {
            Ok(l) => l,
            Err(e) => {
                return Err(e);
            },
        };
        let ghost o = self.builder@;
        let ghost ob = self.builder.blocks@;
        let ghost js = jumps@;
        let mut out_of_scope = false;
        let mut targets = [JumpTarget::Next; JUMPS];
        let mut k: usize = 0;
        while k < JUMPS
            invariant
                k <= JUMPS,
                js.len() == JUMPS,
                js == jumps@,
                targets@.len() == JUMPS,
                jumps_ok(js, o.blocks.len() as int),
                o.wf(),
                self.id == old(self).id,
                *final(self.function_ref()) == *final(old(self).function_ref()),
                (self.id.0 as int) < o.blocks.len(),
                self.builder.library == old(self).builder.library,
                self.builder.allocator == old(self).builder.allocator,
                self.builder.current_scopes == old(self).builder.current_scopes,
                self.builder.blocks@.len() == ob.len(),
                forall|i: int|
                    0 <= i < ob.len() ==> (#[trigger] self.builder.blocks@[i]).block == ob[i].block
                        && self.builder.blocks@[i].variables == ob[i].variables,
                self.builder@ == (FunctionView { parents: retarget(o.parents, self.id, js.take(k as int)), ..o }),
                forall|j: int| 0 <= j < k ==> targets@[j] == target_of(#[trigger] js[j]),
                out_of_scope == escapes(js.take(k as int), o.scopes),
            decreases JUMPS - k,
        {
            let ghost p0 = retarget(o.parents, self.id, js.take(k as int));
            proof {
                assert(js.take(k as int + 1).drop_last() =~= js.take(k as int));
                assert(js.take(k as int + 1).last() == js[k as int]);
                assert(jumps_ok(js.take(k as int), o.blocks.len() as int)) by {
                    assert forall|i: int| 0 <= i < js.take(k as int).len() implies match #[trigger] js.take(k as int)[i] {
                        JumpScope::Next => true,
                        JumpScope::Child(b) => b.0 < o.blocks.len(),
                        JumpScope::Same(b) => b.0 < o.blocks.len(),
                        JumpScope::Parent { to, parent: _ } => to.0 < o.blocks.len(),
                    } by {
                        assert(js.take(k as int)[i] == js[i]);
                    }
                }
                lemma_retarget_len(o.parents, self.id, js.take(k as int));
                assert(match js[k as int] {
                    JumpScope::Next => true,
                    JumpScope::Child(b) => b.0 < o.blocks.len(),
                    JumpScope::Same(b) => b.0 < o.blocks.len(),
                    JumpScope::Parent { to, parent: _ } => to.0 < o.blocks.len(),
                });
            }
            let ghost before = self.builder.blocks@;
            match &jumps[k] {
                JumpScope::Child(b) => {
                    self.builder.blocks[b.0 as usize].parent = Some(self.id);
                    targets[k] = JumpTarget::Target(b.0);
                },
                JumpScope::Same(b) => {
                    let p = self.builder.blocks[self.id.0 as usize].parent;
                    self.builder.blocks[b.0 as usize].parent = match p {
                        Some(x) => Some(x),
                        None => Some(BlockId(0)),
                    };
                    targets[k] = JumpTarget::Target(b.0);
                },
                JumpScope::Parent { to, parent } => {
                    if !self.builder.scope_open(*parent) {
                        out_of_scope = true;
                    }
                    self.builder.blocks[to.0 as usize].parent = Some(*parent);
                    targets[k] = JumpTarget::Target(to.0);
                },
                JumpScope::Next => {
                    targets[k] = JumpTarget::Next;
                },
            }
            proof {
                let n = self.builder@;
                let p1 = retarget(o.parents, self.id, js.take(k as int + 1));
                assert(n.blocks =~= o.blocks) by {
                    assert forall|i: int| 0 <= i < ob.len() implies n.blocks[i] == o.blocks[i] by {
                        assert(self.builder.blocks@[i].block == ob[i].block);
                    }
                }
                assert(n.variables =~= o.variables) by {
                    assert forall|i: int| 0 <= i < ob.len() implies n.variables[i] == o.variables[i] by {
                        assert(self.builder.blocks@[i].variables == ob[i].variables);
                    }
                }
                assert(n.parents =~= p1);
                let t = js.take(k as int + 1);
                if out_of_scope {
                    if escapes(js.take(k as int), o.scopes) {
                        let w = choose|w: int| 0 <= w < js.take(k as int).len() && (#[trigger] js.take(k as int)[w] matches JumpScope::Parent { to: _, parent }
                            && !o.scopes.contains(parent));
                        assert(t[w] == js.take(k as int)[w]);
                    } else {
                        assert(t[k as int] == js[k as int]);
                    }
                    assert(escapes(t, o.scopes));
                } else {
                    assert forall|w: int| 0 <= w < t.len() implies !(#[trigger] t[w] matches JumpScope::Parent { to: _, parent }
                        && !o.scopes.contains(parent)) by {
                        if w < k {
                            assert(t[w] == js.take(k as int)[w]);
                        }
                    }
                }
            }
            k = k + 1;
        }
        proof {
            assert(js.take(JUMPS as int) =~= js);
            assert(targets@ =~= jump_targets(js));
            let n = self.builder@;
            assert forall|i: int| 0 <= i < self.builder.blocks@.len() implies (#[trigger] self.builder.blocks@[i]).block.wf()
                && self.builder.blocks@[i].block.lib() == *self.builder.library by {
                assert(self.builder.blocks@[i].block == ob[i].block);
            }
            lemma_retarget_len(o.parents, self.id, js);
        }
        if out_of_scope {
            return Err(PatchError::BlockOutOfScope);
        }
        Ok((ins, outs, targets))
    }
}

} // verus!

verus! {

impl<'a, const MAX_REGS: usize> PatchBlockBuilder<'a, MAX_REGS> {
    /// Emits a branching stencil without ending the block: the parents of
    /// the blocks the jumps go to are set (see `prepared`), then the stencil
    /// is emitted with the jumps' targets.
    pub fn branch<const IN: usize, const OUT: usize, const HOLES: usize, const JUMPS: usize>(
        &mut self,
        stencil: &StencilFamily<IN, OUT, MAX_REGS, HOLES, JUMPS>,
        inputs: &[Value; IN],
        outputs: &[Value; OUT],
        holes: &[usize; HOLES],
        jumps: &[JumpScope; JUMPS],
    ) -> (r: Result<(), PatchError>)
        requires
            old(self).wf(),
            stencil.wf(
                old(self).function().lib().code@.len(),
                old(self).function().lib().rt_symbols@.len(),
                old(self).function().lib().empty@.len(),
            ),
            jumps_ok(jumps@, old(self).function()@.blocks.len() as int),
        ensures
            final(self).wf(),
            final(self).block_id() == old(self).block_id(),
            final(self).function().lib() == old(self).function().lib(),
            *final(final(self).function_ref()) == *final(old(self).function_ref()),
            ({
                let p = prepared(old(self).function()@, old(self).block_id(), inputs@, outputs@, jumps@);
                let n = final(self).function()@;
                let b = old(self).block_id().0 as int;
                match p.1 {
                    Err(e) => r == Err::<(), PatchError>(e) && n == p.0,
                    Ok((li, lo, t)) => {
                        let e = emitted(p.0.blocks[b], old(self).function().lib(), *stencil, li, lo, holes@, t);
                        reports(r, e) && n == with_block(p.0, b, after_emit(p.0.blocks[b], e, false))
                    },
                }
            }),
    {
        let (ins, outs, targets) = match self.branch_prep(inputs, outputs, jumps) {
            Ok(x) => x,
            Err(e) => {
                return Err(e);
            },
        };
        let ghost o = self.builder@;
        let ghost ob = self.builder.blocks@;
        let b = self.id.0 as usize;
        let r = self.builder.blocks[b].block.branch(stencil, &ins, &outs, holes, &targets);
        proof {
            let n = self.builder@;
            assert forall|i: int| 0 <= i < self.builder.blocks@.len() implies (#[trigger] self.builder.blocks@[i]).block.wf()
                && self.builder.blocks@[i].block.lib() == *self.builder.library by {
                if i != b {
                    assert(self.builder.blocks@[i] == ob[i]);
                }
            }
            assert(n.parents =~= o.parents);
            assert(n.variables =~= o.variables);
            let e = emitted(o.blocks[b as int], self.builder.lib(), *stencil, ins@, outs@, holes@, targets@);
            assert(n.blocks =~= o.blocks.update(b as int, after_emit(o.blocks[b as int], e, false)));
            assert forall|k: int| 0 <= k < n.scopes.len() implies (#[trigger] n.scopes[k]).0 < n.blocks.len() by {
                assert(n.scopes[k] == o.scopes[k]);
            }
        }
        r
    }

    /// Emits a final branching stencil, which ends the block, then enters
    /// `next` (see `switch_to_block`); the block builder then builds `next`.
    pub fn end_branch<const IN: usize, const OUT: usize, const HOLES: usize, const JUMPS: usize>(
        &mut self,
        stencil: &StencilFamily<IN, OUT, MAX_REGS, HOLES, JUMPS>,
        inputs: &[Value; IN],
        outputs: &[Value; OUT],
        holes: &[usize; HOLES],
        jumps: &[JumpScope; JUMPS],
        next: BlockId,
    ) -> (r: Result<(), PatchError>)
        requires
            old(self).wf(),
            stencil.wf(
                old(self).function().lib().code@.len(),
                old(self).function().lib().rt_symbols@.len(),
                old(self).function().lib().empty@.len(),
            ),
            jumps_ok(jumps@, old(self).function()@.blocks.len() as int),
            old(self).function()@.scopes.len() < 0x1000_0000,
        ensures
            final(self).wf(),
            final(self).function().lib() == old(self).function().lib(),
            *final(final(self).function_ref()) == *final(old(self).function_ref()),
            ({
                let p = prepared(old(self).function()@, old(self).block_id(), inputs@, outputs@, jumps@);
                let n = final(self).function()@;
                let b = old(self).block_id().0 as int;
                match p.1 {
                    Err(e) => r == Err::<(), PatchError>(e) && n == p.0 && final(self).block_id()
                        == old(self).block_id(),
                    Ok((li, lo, t)) => {
                        let e = emitted(p.0.blocks[b], old(self).function().lib(), *stencil, li, lo, holes@, t);
                        let m = with_block(p.0, b, after_emit(p.0.blocks[b], e, true));
                        match e {
                            Err(x) => r == Err::<(), PatchError>(x) && n == m && final(self).block_id()
                                == old(self).block_id(),
                            Ok(_) => match switched(m, next) {
                                Err(x) => r == Err::<(), PatchError>(x) && n == m && final(self).block_id()
                                    == old(self).block_id(),
                                Ok(s) => r is Ok && n == s && final(self).block_id() == next,
                            },
                        }
                    },
                }
            }),
    {
        let (ins, outs, targets) = match self.branch_prep(inputs, outputs, jumps) {
            Ok(x) => x,
            Err(e) => {
                return Err(e);
            },
        };
        let ghost o = self.builder@;
        let ghost ob = self.builder.blocks@;
        let b = self.id.0 as usize;
        let r = self.builder.blocks[b].block.end_branch(stencil, &ins, &outs, holes, &targets);
        proof {
            let n = self.builder@;
            assert forall|i: int| 0 <= i < self.builder.blocks@.len() implies (#[trigger] self.builder.blocks@[i]).block.wf()
                && self.builder.blocks@[i].block.lib() == *self.builder.library by {
                if i != b {
                    assert(self.builder.blocks@[i] == ob[i]);
                }
            }
            assert(n.parents =~= o.parents);
            assert(n.variables =~= o.variables);
            let e = emitted(o.blocks[b as int], self.builder.lib(), *stencil, ins@, outs@, holes@, targets@);
            assert(n.blocks =~= o.blocks.update(b as int, after_emit(o.blocks[b as int], e, true)));
            assert forall|k: int| 0 <= k < n.scopes.len() implies (#[trigger] n.scopes[k]).0 < n.blocks.len() by {
                assert(n.scopes[k] == o.scopes[k]);
            }
        }
        if let Err(e) = r {
            return Err(e);
        }
        match self.builder.switch_to_block(next) {
            Ok(_) => {},
            Err(e) => {
                return Err(e);
            },
        }
        self.id = next;
        Ok(())
    }

    /// Emits a returning stencil, which ends the block.
    pub fn ret<const IN: usize, const HOLES: usize>(
        self,
        stencil: &StencilFamily<IN, 0, MAX_REGS, HOLES, 0>,
        inputs: &[Value; IN],
        holes: &[usize; HOLES],
    ) -> (r: Result<(), PatchError>)
        requires
            self.wf(),
            stencil.wf(self.function().lib().code@.len(), self.function().lib().rt_symbols@.len(), self.function().lib().empty@.len()),
        ensures
            final(self.function_ref()).wf(),
            final(self.function_ref()).lib() == self.function().lib(),
            ({
                let o = self.function()@;
                let n = final(self.function_ref())@;
                let b = self.block_id().0 as int;
                match o.located(inputs@) {
                    Some(li) => {
                        let e = emitted(o.blocks[b], self.function().lib(), *stencil, li, seq![], holes@, seq![]);
                        reports(r, e) && n == with_block(o, b, after_emit(o.blocks[b], e, true))
                    },
                    None => r == Err::<(), PatchError>(PatchError::VariableOutOfScope) && n == o,
                }
            }),
    {
        let ins = match self.builder.locations(inputs) {
            Ok(l) => l,
            Err(e) => {
                return Err(e);
            },
        };
        let ghost o = self.builder@;
        let ghost ob = self.builder.blocks@;
        let b = self.id.0 as usize;
        let r = self.builder.blocks[b].block.ret(stencil, &ins, holes);
        proof {
            let n = self.builder@;
            assert forall|i: int| 0 <= i < self.builder.blocks@.len() implies (#[trigger] self.builder.blocks@[i]).block.wf()
                && self.builder.blocks@[i].block.lib() == *self.builder.library by {
                if i != b {
                    assert(self.builder.blocks@[i] == ob[i]);
                }
            }
            assert(n.parents =~= o.parents);
            assert(n.variables =~= o.variables);
            let e = emitted(o.blocks[b as int], self.builder.lib(), *stencil, ins@, seq![], holes@, seq![]);
            assert(n.blocks =~= o.blocks.update(b as int, after_emit(o.blocks[b as int], e, true)));
            assert forall|k: int| 0 <= k < n.scopes.len() implies (#[trigger] n.scopes[k]).0 < n.blocks.len() by {
                assert(n.scopes[k] == o.scopes[k]);
            }
        }
        r
    }
}

} // verus!

verus! {

/// Linking leaves the length of the program alone.
pub proof fn lemma_link_all_len(map: Seq<u8>, shift: int, rs: Seq<crate::relocation::DelayedView>, l: crate::patch::Layout)
    ensures
        crate::patch::link_all(map, shift, rs, l).len() == map.len(),
    decreases rs.len(),
{
    if rs.len() > 0 {
        lemma_link_all_len(map, shift, rs.drop_last(), l);
        let r = rs.last();
        crate::relocation::lemma_write_le_len(
            crate::patch::link_all(map, shift, rs.drop_last(), l),
            shift + r.location(),
            crate::relocation::width_of(r.entry),
            crate::relocation::written_value(
                r.entry,
                r.resolve(l.block_base as usize, crate::patch::target_address(r, l) as usize),
            ),
        );
    }
}

/// Linking a block leaves the length of the program alone.
pub proof fn lemma_linked_len<const MAX_REGS: usize>(
    v: BlockView,
    lib: StencilLibrary<MAX_REGS>,
    map: Seq<u8>,
    base: int,
    block_offset: int,
    offsets: Seq<usize>,
    big: bool,
)
    ensures
        linked(v, lib, map, base, block_offset, offsets, big).len() == map.len(),
{
    let l = crate::patch::layout_of(v, lib, base, base + block_offset, offsets);
    let n = l.symbols.len();
    let m1 = crate::patch::copy_bytes(map, block_offset, v.code);
    crate::patch::lemma_copy_bytes_len(map, block_offset, v.code);
    if n > 0 {
        let lj = crate::patch::long_jump_of(lib).unwrap();
        let code = lib.code@.subrange(lj.code_index as int, lj.code_index + lj.code_len);
        crate::patch::lemma_trampolines_len(m1, block_offset + v.code.len(), code, n);
        let m2 = crate::patch::trampolines_image(m1, block_offset + v.code.len(), code, n);
        let words = v.constants + l.symbols.map_values(|s: u16| lib.rt_symbols@[s as int]);
        crate::patch::lemma_write_words_len(m2, block_offset + l.constant_base, words, big);
        let m3 = crate::patch::write_words(m2, block_offset + l.constant_base, words, big);
        let data = lib.long_jump.relocation_data@;
        let trel = crate::patch::trampoline_entries(
            crate::patch::hole0_entries(data, lj.relocation_index as int, crate::patch::list_end(data, lj.relocation_index as int)),
            v.code.len() as int,
            l.trampoline_len,
            n,
            v.constants.len() as int,
        );
        lemma_link_all_len(m3, block_offset, v.relocations + trel, l);
    } else {
        let words = v.constants + l.symbols.map_values(|s: u16| lib.rt_symbols@[s as int]);
        crate::patch::lemma_write_words_len(m1, block_offset + l.constant_base, words, big);
        let m3 = crate::patch::write_words(m1, block_offset + l.constant_base, words, big);
        lemma_link_all_len(m3, block_offset, v.relocations + Seq::empty(), l);
    }
}

/// `n` zero bytes.
pub open spec fn zeros(n: nat) -> Seq<u8> {
    Seq::new(n, |i: int| 0u8)
}

/// The length of each block once linked.
pub open spec fn block_lens<const MAX_REGS: usize>(blocks: Seq<BlockView>, lib: StencilLibrary<MAX_REGS>) -> Seq<usize> {
    blocks.map_values(|v: BlockView| final_len_spec(v, lib) as usize)
}

/// Where each block starts: right after the one before, the first at 0.
pub open spec fn layout_offsets(lens: Seq<usize>) -> Seq<usize> {
    Seq::new(lens.len(), |i: int| sum_prefix(lens, i) as usize)
}

/// The error linking the first `k` blocks gives: that of the first block
/// that cannot be linked.
pub open spec fn link_error<const MAX_REGS: usize>(
    blocks: Seq<BlockView>,
    lib: StencilLibrary<MAX_REGS>,
    offsets: Seq<usize>,
    k: int,
) -> Option<PatchError>
    decreases k,
{
    if k <= 0 {
        None
    } else {
        match link_error(blocks, lib, offsets, k - 1) {
            Some(e) => Some(e),
            None => finalize_error(blocks[k - 1], lib, offsets),
        }
    }
}

/// Once a block cannot be linked, the error stays that of the first such
/// block.
proof fn lemma_link_error_stays<const MAX_REGS: usize>(
    blocks: Seq<BlockView>,
    lib: StencilLibrary<MAX_REGS>,
    offsets: Seq<usize>,
    k: int,
    n: int,
)
    requires
        k <= n,
        link_error(blocks, lib, offsets, k) is Some,
    ensures
        link_error(blocks, lib, offsets, n) == link_error(blocks, lib, offsets, k),
    decreases n - k,
{
    if k < n {
        lemma_link_error_stays(blocks, lib, offsets, k, n - 1);
    }
}

/// `map` with the first `k` blocks linked into it, the program being at
/// `base`, words stored big endian when `big` holds.
pub open spec fn program_image<const MAX_REGS: usize>(
    blocks: Seq<BlockView>,
    lib: StencilLibrary<MAX_REGS>,
    map: Seq<u8>,
    base: int,
    offsets: Seq<usize>,
    k: int,
    big: bool,
) -> Seq<u8>
    decreases k,
{
    if k <= 0 {
        map
    } else {
        linked(
            blocks[k - 1],
            lib,
            program_image(blocks, lib, map, base, offsets, k - 1, big),
            base,
            offsets[k - 1] as int,
            offsets,
            big,
        )
    }
}

/// The linked program fits the address space: each block, all of them,
/// and all of them from `base` when it is given.
pub open spec fn fits_memory<const MAX_REGS: usize>(
    blocks: Seq<BlockView>,
    lib: StencilLibrary<MAX_REGS>,
    base: Option<usize>,
) -> bool {
    let lens = block_lens(blocks, lib);
    let total = sum_prefix(lens, lens.len() as int);
    &&& forall|k: int| 0 <= k < blocks.len() ==> final_len_spec(#[trigger] blocks[k], lib) <= usize::MAX
    &&& total <= usize::MAX
    &&& (base matches Some(b) ==> b + total <= usize::MAX)
}

/// The address of the vector's buffer (`Vec::as_ptr` as an integer). Its
/// allocation does not wrap around the address space, so the address plus
/// the length fits a `usize`; nothing else is said of it.
#[verifier::external_body]
fn buffer_address(v: &Vec<u8>) -> (r: usize)
    ensures
        r + v@.len() <= usize::MAX,
{
    v.as_ptr() as usize
}

impl<const MAX_REGS: usize> PatchFunctionBuilder<MAX_REGS> {
    /// Lays the function out: each block starts right after the one
    /// before. `NotEnded` when a block has not ended; otherwise the start of
    /// each block and the total length.
    pub fn measure(&self) -> (r: Result<(ProgramBlocks, usize), PatchError>)
        requires
            self.wf(),
            fits_memory(self@.blocks, self.lib(), None),
        ensures
            ({
                let lens = block_lens(self@.blocks, self.lib());
                if exists|k: int| 0 <= k < self@.blocks.len() && !(#[trigger] self@.blocks[k]).ended {
                    r matches Err(e) && e == PatchError::NotEnded
                } else {
                    r matches Ok((b, total)) && b.offsets@ == layout_offsets(lens) && total == sum_prefix(
                        lens,
                        lens.len() as int,
                    )
                }
            }),
    {
        let ghost v = self@;
        let ghost lib = self.lib();
        let ghost all = block_lens(v.blocks, lib);
        let n = self.blocks.len();
        let mut lens: Vec<usize> = Vec::new();
        let mut k: usize = 0;
        while k < n
            invariant
                k <= n,
                n == v.blocks.len(),
                self.wf(),
                self@ == v,
                self.lib() == lib,
                fits_memory(v.blocks, lib, None),
                all == block_lens(v.blocks, lib),
                lens@ == all.take(k as int),
                forall|j: int| 0 <= j < k ==> (#[trigger] v.blocks[j]).ended,
            decreases n - k,
        {
            assert(self.blocks@[k as int].block.wf());
            assert(self.blocks@[k as int].block@ == v.blocks[k as int]);
            assert(self.blocks@[k as int].block.lib() == lib);
            assert(final_len_spec(v.blocks[k as int], lib) <= usize::MAX);
            assert(all[k as int] == final_len_spec(v.blocks[k as int], lib) as usize);
            match self.blocks[k].block.measure() {
                Some(l) => {
                    lens.push(l);
                },
                None => {
                    return Err(PatchError::NotEnded);
                },
            }
            proof {
                assert(lens@ =~= all.take(k as int + 1));
            }
            k = k + 1;
        }
        proof {
            assert(lens@ =~= all);
        }
        let (offsets, total) = ProgramBlocks::from_lens(lens);
        assert(offsets.offsets@ =~= layout_offsets(all));
        Ok((offsets, total))
    }

    /// Links every block into `map`, laid out as `measure` gave, the
    /// program being at `base`; returns the number of stack slots the
    /// function uses. The error is that of the first block, in order, that
    /// cannot be linked (see `PatchBlock::finalize_into`), and `map` may
    /// then be partly written.
    pub fn finalize_into(&self, map: &mut [u8], base: usize, blocks: &ProgramBlocks) -> (r: Result<u16, PatchError>)
        requires
            self.wf(),
            fits_memory(self@.blocks, self.lib(), Some(base)),
            blocks.offsets@ == layout_offsets(block_lens(self@.blocks, self.lib())),
            old(map)@.len() == sum_prefix(
                block_lens(self@.blocks, self.lib()),
                self@.blocks.len() as int,
            ),
        ensures
            ({
                let n = self@.blocks.len() as int;
                match link_error(self@.blocks, self.lib(), blocks.offsets@, n) {
                    Some(e) => r matches Err(x) && x == e,
                    None => r == Ok::<u16, PatchError>(self@.allocator.stack_size) && exists|big: bool|
                        final(map)@ == #[trigger] program_image(
                            self@.blocks,
                            self.lib(),
                            old(map)@,
                            base as int,
                            blocks.offsets@,
                            n,
                            big,
                        ),
                }
            }),
    {
        let big = crate::patch::native_big_endian();
        let ghost v = self@;
        let ghost lib = self.lib();
        let ghost all = block_lens(v.blocks, lib);
        let ghost offs = layout_offsets(all);
        let ghost m0 = map@;
        let ghost total = sum_prefix(all, all.len() as int);
        let n = self.blocks.len();
        let mut k: usize = 0;
        while k < n
            invariant
                k <= n,
                n == v.blocks.len(),
                self.wf(),
                self@ == v,
                self.lib() == lib,
                all == block_lens(v.blocks, lib),
                fits_memory(v.blocks, lib, Some(base)),
                total == sum_prefix(all, n as int),
                blocks.offsets@ == offs,
                offs == layout_offsets(all),
                map@.len() == total,
                map@ == program_image(v.blocks, lib, m0, base as int, offs, k as int, big),
                link_error(v.blocks, lib, offs, k as int) is None,
            decreases n - k,
        {
            proof {
                crate::patch::lemma_blocks_contiguous(all, k as int);
                assert(self.blocks@[k as int].block.wf());
                assert(self.blocks@[k as int].block@ == v.blocks[k as int]);
                assert(self.blocks@[k as int].block.lib() == lib);
                assert(final_len_spec(v.blocks[k as int], lib) <= usize::MAX);
                assert(all[k as int] == final_len_spec(v.blocks[k as int], lib) as usize);
                crate::patch::lemma_sum_prefix_monotone(all, 0, k as int);
                assert(offs[k as int] == sum_prefix(all, k as int));
                assert forall|b: int| 0 <= b < blocks.offsets@.len() implies base + #[trigger] blocks.offsets@[b] <= usize::MAX by {
                    crate::patch::lemma_sum_prefix_monotone(all, b, n as int);
                    crate::patch::lemma_sum_prefix_monotone(all, 0, b);
                    assert(offs[b] == sum_prefix(all, b));
                }
                lemma_linked_len(v.blocks[k as int], lib, map@, base as int, offs[k as int] as int, offs, big);
            }
            match self.blocks[k].block.link_into(map, base, blocks.offsets[k], blocks, big) {
                Ok(()) => {},
                Err(e) => {
                    proof {
                        assert(finalize_error(v.blocks[k as int], lib, offs) == Some(e));
                        assert(link_error(v.blocks, lib, offs, k as int + 1) == Some(e));
                        lemma_link_error_stays(v.blocks, lib, offs, k as int + 1, n as int);
                    }
                    return Err(e);
                },
            }
            k = k + 1;
        }
        proof {
            assert(map@ == program_image(v.blocks, lib, m0, base as int, offs, n as int, big));
        }
        Ok(self.allocator.stack_size())
    }

    /// Links the whole function into a new buffer (see `measure` and
    /// `finalize_into`), the program at `base`, or at the buffer's own
    /// address when `base` is `None`. Returns the code and the number of
    /// stack slots the function uses.
    pub fn finalize_into_vec(self, base: Option<usize>) -> (r: Result<(Vec<u8>, u16), PatchError>)
        requires
            self.wf(),
            fits_memory(self@.blocks, self.lib(), base),
        ensures
            ({
                let v = self@;
                let lib = self.lib();
                let lens = block_lens(v.blocks, lib);
                let offs = layout_offsets(lens);
                let total = sum_prefix(lens, lens.len() as int);
                let n = v.blocks.len() as int;
                if exists|k: int| 0 <= k < n && !(#[trigger] v.blocks[k]).ended {
                    r == Err::<(Vec<u8>, u16), PatchError>(PatchError::NotEnded)
                } else {
                    match link_error(v.blocks, lib, offs, n) {
                        Some(e) => r matches Err(x) && x == e,
                        None => r matches Ok((bytes, slots)) && slots == v.allocator.stack_size && exists|
                            b: int,
                            big: bool,
                        |
                            (base matches Some(x) ==> b == x) && bytes@ == #[trigger] program_image(
                                v.blocks,
                                lib,
                                zeros(total as nat),
                                b,
                                offs,
                                n,
                                big,
                            ),
                    }
                }
            }),
    {
        let ghost v = self@;
        let ghost lib = self.lib();
        let (offsets, total) = match self.measure() {
            Ok(x) => x,
            Err(e) => {
                return Err(e);
            },
        };
        let mut map: Vec<u8> = vec![0u8; total];
        assert(map@ =~= zeros(total as nat));
        let ghost given = base;
        let base = match base {
            Some(b) => b,
            None => buffer_address(&map),
        };
        match self.finalize_into(map.as_mut_slice(), base, &offsets) {
            Ok(slots) => {
                proof {
                    let lens = block_lens(v.blocks, lib);
                    assert(given matches Some(x) ==> base == x);
                    let m0 = zeros(sum_prefix(lens, lens.len() as int) as nat);
                    let n = v.blocks.len() as int;
                    let offs = layout_offsets(lens);
                    let big = choose|big: bool| map@ == #[trigger] program_image(v.blocks, lib, m0, base as int, offs, n, big);
                    assert(map@ == program_image(v.blocks, lib, m0, base as int, offs, n, big));
                }
                Ok((map, slots))
            },
            Err(e) => Err(e),
        }
    }
}

} // verus!

verus! {

/// The block a jump names, if any.
pub open spec fn jump_block(j: JumpScope) -> Option<BlockId> {
    match j {
        JumpScope::Next => None,
        JumpScope::Child(b) => Some(b),
        JumpScope::Same(b) => Some(b),
        JumpScope::Parent { to, parent: _ } => Some(to),
    }
}

/// A jump into a child block makes the jumping block its parent: after the
/// jumps of a stencil of block `id`, a block that the last jump naming it
/// enters as a child has `id` as its parent (so switching to it keeps `id`'s
/// scope, and its variables, open). Blocks no jump names keep their parent.
pub proof fn lemma_child_parent_is_jumper(
    parents: Seq<Option<BlockId>>,
    id: BlockId,
    jumps: Seq<JumpScope>,
    k: int,
    b: BlockId,
)
    requires
        0 <= k < jumps.len(),
        jumps[k] == JumpScope::Child(b),
        forall|m: int| 0 <= m < jumps.len() ==> (#[trigger] jump_block(jumps[m]) matches Some(x) ==> x.0 < parents.len()),
        forall|m: int| k < m < jumps.len() ==> #[trigger] jump_block(jumps[m]) != Some(b),
    ensures
        retarget(parents, id, jumps).len() == parents.len(),
        retarget(parents, id, jumps)[b.0 as int] == Some(id),
    decreases jumps.len(),
{
    let t = jumps.drop_last();
    assert forall|m: int| 0 <= m < t.len() implies (#[trigger] jump_block(t[m]) matches Some(x) ==> x.0 < parents.len()) by {
        assert(t[m] == jumps[m]);
    }
    assert(jump_block(jumps[k]) == Some(b));
    lemma_retarget_keeps(parents, id, t);
    if k < jumps.len() - 1 {
        assert forall|m: int| k < m < t.len() implies #[trigger] jump_block(t[m]) != Some(b) by {
            assert(t[m] == jumps[m]);
        }
        lemma_child_parent_is_jumper(parents, id, t, k, b);
        assert(jump_block(jumps[jumps.len() - 1]) != Some(b));
        assert(jump_block(jumps[jumps.len() - 1]) matches Some(x) ==> x.0 < parents.len());
    }
}

/// The parents keep their number, and a block that no jump names keeps its
/// parent.
pub proof fn lemma_retarget_keeps(parents: Seq<Option<BlockId>>, id: BlockId, jumps: Seq<JumpScope>)
    requires
        forall|m: int| 0 <= m < jumps.len() ==> (#[trigger] jump_block(jumps[m]) matches Some(x) ==> x.0 < parents.len()),
    ensures
        retarget(parents, id, jumps).len() == parents.len(),
        forall|x: BlockId|
            x.0 < parents.len() && (forall|m: int| 0 <= m < jumps.len() ==> #[trigger] jump_block(jumps[m]) != Some(x))
                ==> #[trigger] retarget(parents, id, jumps)[x.0 as int] == parents[x.0 as int],
    decreases jumps.len(),
{
    if jumps.len() > 0 {
        let t = jumps.drop_last();
        assert forall|m: int| 0 <= m < t.len() implies (#[trigger] jump_block(t[m]) matches Some(x) ==> x.0 < parents.len()) by {
            assert(t[m] == jumps[m]);
        }
        lemma_retarget_keeps(parents, id, t);
        assert(jump_block(jumps[jumps.len() - 1]) matches Some(x) ==> x.0 < parents.len());
        assert forall|x: BlockId|
            x.0 < parents.len() && (forall|m: int| 0 <= m < jumps.len() ==> #[trigger] jump_block(jumps[m]) != Some(x))
                implies #[trigger] retarget(parents, id, jumps)[x.0 as int] == parents[x.0 as int] by {
            assert(jump_block(jumps[jumps.len() - 1]) != Some(x));
            assert forall|m: int| 0 <= m < t.len() implies #[trigger] jump_block(t[m]) != Some(x) by {
                assert(t[m] == jumps[m]);
            }
        }
    }
}

} // verus!
