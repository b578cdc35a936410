//! Copying stencils into a block of code and patching them, then linking
//! blocks into one program.
use vstd::prelude::*;

use crate::PatchError;
use crate::relocation::{
    DelayedRelocation, DelayedTarget, DelayedView, JumpTarget, PatchInfo, Relocation, offset_field,
    patch_info_of, width_of, writable,
};
use crate::stencils::{
    Location, SelectedStencil, Stencil, StencilFamily, StencilLibrary, digit_of, in_relocation_list,
    is_invalid_entry, normalized_registers, locations_index, stack_count, decode_locations,
    lemma_wf_select_ok_in, tail_ok,
};

verus! {

/// The sum of the first `k` lengths.
pub open spec fn sum_prefix(lens: Seq<usize>, k: int) -> int
    decreases k,
{
    if k <= 0 {
        0
    } else {
        sum_prefix(lens, k - 1) + lens[k - 1]
    }
}

pub proof fn lemma_sum_prefix_monotone(lens: Seq<usize>, j: int, k: int)
    requires
        0 <= j <= k,
    ensures
        sum_prefix(lens, j) <= sum_prefix(lens, k),
    decreases k - j,
{
    if j < k {
        lemma_sum_prefix_monotone(lens, j, k - 1);
    }
}

/// Where each block of a program starts.
pub struct ProgramBlocks {
    pub offsets: Vec<usize>,
}

impl Default for ProgramBlocks {
    fn default() -> (r: Self)
        ensures
            r.offsets@.len() == 0,
    {
        ProgramBlocks { offsets: Vec::new() }
    }
}

impl ProgramBlocks {
    /// Lays blocks of the given lengths out one after the other: block `i`
    /// starts where block `i - 1` ends, the first at 0. Returns the layout
    /// and the total length.
    pub fn from_lens(lens: Vec<usize>) -> (r: (Self, usize))
        requires
            sum_prefix(lens@, lens@.len() as int) <= usize::MAX,
        ensures
            r.0.offsets@.len() == lens@.len(),
            forall|i: int| 0 <= i < lens@.len() ==> r.0.offsets@[i] == sum_prefix(lens@, i),
            r.1 == sum_prefix(lens@, lens@.len() as int),
    {
        let ghost l0 = lens@;
        let mut lens = lens;
        let n = lens.len();
        if n == 0 {
            return (Self { offsets: lens }, 0);
        }
        let mut last = lens[0];
        lens.set(0, 0);
        assert(sum_prefix(l0, 0) == 0);
        assert(sum_prefix(l0, 1) == l0[0]);
        let mut k: usize = 1;
        while k < n
            invariant
                1 <= k <= n,
                n == l0.len(),
                lens@.len() == n,
                sum_prefix(l0, n as int) <= usize::MAX,
                last == sum_prefix(l0, k as int),
                forall|i: int| 0 <= i < k ==> lens@[i] == sum_prefix(l0, i),
                forall|i: int| k <= i < n ==> lens@[i] == l0[i],
            decreases n - k,
        {
            proof {
                lemma_sum_prefix_monotone(l0, k as int + 1, n as int);
            }
            let next = last + lens[k];
            lens.set(k, last);
            last = next;
            k = k + 1;
        }
        (Self { offsets: lens }, last)
    }

    fn resolve_target(&self, block: u16) -> (r: Option<usize>)
        ensures
            r == (if (block as int) < self.offsets@.len() {
                Some(self.offsets@[block as int])
            } else {
                None
            }),
    {
        if (block as usize) < self.offsets.len() {
            Some(self.offsets[block as usize])
        } else {
            None
        }
    }
}

/// Laying blocks out: each block starts where the previous one ends, and
/// every block lies within the total length.
pub proof fn lemma_blocks_contiguous(lens: Seq<usize>, i: int)
    requires
        0 <= i < lens.len(),
    ensures
        sum_prefix(lens, i + 1) == sum_prefix(lens, i) + lens[i],
        sum_prefix(lens, i) + lens[i] <= sum_prefix(lens, lens.len() as int),
{
    lemma_sum_prefix_monotone(lens, i + 1, lens.len() as int);
}

} // verus!

verus! {

/// Where a delayed relocation's write ends.
pub open spec fn end_of(r: DelayedView) -> int {
    r.location() + width_of(r.entry)
}

/// The furthest end of the writes of `rs` (0 for none).
pub open spec fn max_end(rs: Seq<DelayedView>) -> int
    decreases rs.len(),
{
    if rs.len() == 0 {
        0
    } else {
        let m = max_end(rs.drop_last());
        if end_of(rs.last()) > m {
            end_of(rs.last())
        } else {
            m
        }
    }
}

/// `code` with each of `rs`, in order, written with the value that points at
/// `target`.
pub open spec fn apply_all(code: Seq<u8>, rs: Seq<DelayedView>, target: int) -> Seq<u8>
    decreases rs.len(),
{
    if rs.len() == 0 {
        code
    } else {
        let c = apply_all(code, rs.drop_last(), target);
        rs.last().write(c, rs.last().resolve(0, target as usize))
    }
}

pub open spec fn ends_with(code: Seq<u8>, suffix: Seq<u8>) -> bool {
    suffix.len() <= code.len() && code.subrange(code.len() - suffix.len(), code.len() as int)
        =~= suffix
}

/// The location of the last settled relocation (0 for none).
pub open spec fn last_location(rs: Seq<DelayedView>) -> int {
    if rs.len() > 0 {
        rs.last().location()
    } else {
        0
    }
}

/// Whether the trailing empty stencil (a jump to what follows) is cut after
/// the last pending jump is written: the code then ends with it, and that
/// jump lies after the last settled relocation.
pub open spec fn prunes(
    code: Seq<u8>,
    pending: Seq<DelayedView>,
    relocations: Seq<DelayedView>,
    empty: Seq<u8>,
) -> bool {
    let last = pending.last();
    let c1 = last.write(code, last.resolve(0, code.len() as usize));
    &&& ends_with(c1, empty)
    &&& last.location() > last_location(relocations)
}

/// What makes it safe to cut the last `e` bytes of the code when the jumps
/// pending in `v` are settled: every pending jump but the last writes before
/// them, and when the last pending jump lies after the last settled
/// relocation, so does every settled relocation.
pub open spec fn cut_safe(v: BlockView, e: int) -> bool {
    v.pending.len() > 0 ==> {
        &&& forall|k: int|
            0 <= k < v.pending.len() - 1 ==> end_of(#[trigger] v.pending[k]) + e <= v.code.len()
        &&& v.pending.last().location() > last_location(v.relocations) ==> max_end(v.relocations) + e
            <= v.code.len()
    }
}

/// The items of `xs` from `lo` on were added for one stencil copied at
/// `from`, whose latest relocation entry is `b`: they lie at or before `b`
/// and write at most up to `n - e`, but for the last one, which may be `b`'s.
pub open spec fn added_ok(xs: Seq<DelayedView>, lo: int, from: usize, b: u64, n: int, e: int) -> bool {
    forall|k: int|
        lo <= k < xs.len() ==> {
            &&& (#[trigger] xs[k]).base == from
            &&& offset_field(xs[k].entry) <= offset_field(b)
            &&& (end_of(xs[k]) + e <= n || (k == xs.len() - 1 && xs[k].entry == b))
        }
}

/// The code once the jumps pending from the previous stencil point at its
/// end: the last one is written first and, when its code is a trailing empty
/// stencil, that stencil is cut; the others then point at the new end.
pub open spec fn settle(
    code: Seq<u8>,
    pending: Seq<DelayedView>,
    relocations: Seq<DelayedView>,
    empty: Seq<u8>,
) -> Seq<u8> {
    if pending.len() == 0 {
        code
    } else {
        let last = pending.last();
        let c1 = last.write(code, last.resolve(0, code.len() as usize));
        let c2 = if prunes(code, pending, relocations, empty) {
            c1.subrange(0, c1.len() - empty.len())
        } else {
            c1
        };
        apply_all(c2, pending.drop_last(), c2.len() as int)
    }
}

/// The indices of the stack slots among the locations, in order.
pub open spec fn stack_slots(s: Seq<Location>) -> Seq<usize>
    decreases s.len(),
{
    if s.len() == 0 {
        Seq::empty()
    } else {
        let rest = stack_slots(s.drop_last());
        match s.last() {
            Location::Stack(i) => rest.push(i as usize),
            Location::Register(_) => rest,
        }
    }
}

/// The state of a block while a stencil's relocations are processed.
pub struct PatchState {
    pub code: Seq<u8>,
    pub relocations: Seq<DelayedView>,
    pub constants: Seq<usize>,
    pub pending: Seq<DelayedView>,
}

/// Processing one relocation of a stencil copied at `from`: in a wide
/// stencil a hole goes to a new constant; otherwise holes and stack slots are
/// written now, jumps to the next stencil become pending and other jumps and
/// runtime calls are settled later.
pub open spec fn patch_step(
    st: PatchState,
    b: u64,
    from: usize,
    wide: bool,
    stack_vars: Seq<usize>,
    holes: Seq<usize>,
    jumps: Seq<JumpTarget>,
) -> PatchState {
    match patch_info_of(b) {
        Some(PatchInfo::Hole(i)) if wide => PatchState {
            relocations: st.relocations.push(
                DelayedView {
                    base: from,
                    entry: b,
                    target: DelayedTarget::Constant(st.constants.len() as u16),
                },
            ),
            constants: st.constants.push(holes[i as int]),
            ..st
        },
        _ => {
            let code = crate::relocation::try_apply_write(st.code, b, from, stack_vars, holes);
            match crate::relocation::delayed_target_of(b, jumps) {
                None => PatchState { code, ..st },
                Some(DelayedTarget::Next) => PatchState {
                    code,
                    pending: st.pending.push(
                        DelayedView { base: from, entry: b, target: DelayedTarget::Next },
                    ),
                    ..st
                },
                Some(t) => PatchState {
                    code,
                    relocations: st.relocations.push(DelayedView { base: from, entry: b, target: t }),
                    ..st
                },
            }
        },
    }
}

/// The state after processing entries `start..j` of the relocation pool.
pub open spec fn patch_run(
    st: PatchState,
    data: Seq<Relocation>,
    start: int,
    j: int,
    from: usize,
    wide: bool,
    stack_vars: Seq<usize>,
    holes: Seq<usize>,
    jumps: Seq<JumpTarget>,
) -> PatchState
    decreases j - start,
{
    if j <= start {
        st
    } else {
        patch_step(
            patch_run(st, data, start, j - 1, from, wide, stack_vars, holes, jumps),
            data[j - 1]@,
            from,
            wide,
            stack_vars,
            holes,
            jumps,
        )
    }
}

/// Where a relocation list starting at `start` ends: at its first `Invalid`
/// entry, or at the end of the pool.
pub open spec fn list_end(data: Seq<Relocation>, start: int) -> int
    decreases data.len() - start,
{
    if start >= data.len() {
        data.len() as int
    } else if is_invalid_entry(data[start]) {
        start
    } else {
        list_end(data, start + 1)
    }
}

} // verus!

verus! {

/// A block of code under construction: stencils are copied one after the
/// other and patched; what cannot be patched yet (jumps to the next stencil,
/// to other blocks, to runtime functions, and wide constants) is kept for
/// later.
#[derive(Clone)]
pub struct PatchBlock<const MAX_REGS: usize> {
    library: &'static StencilLibrary<MAX_REGS>,
    code: Vec<u8>,
    relocations: Vec<DelayedRelocation>,
    constants: Vec<usize>,
    next_relocations: Vec<DelayedRelocation>,
    ended: bool,
    /// Where the furthest write of `relocations` ends.
    settled_end: usize,
}

/// What a block holds.
pub struct BlockView {
    pub code: Seq<u8>,
    /// Relocations settled when the program is linked.
    pub relocations: Seq<DelayedView>,
    /// Wide constants, stored after the code.
    pub constants: Seq<usize>,
    /// Jumps to the next stencil, settled when it is emitted.
    pub pending: Seq<DelayedView>,
    pub ended: bool,
}

pub open spec fn views(rs: Seq<DelayedRelocation>) -> Seq<DelayedView> {
    rs.map_values(|r: DelayedRelocation| r@)
}

/// A settled relocation can be written into the code and refers to a
/// constant or runtime function that exists.
pub open spec fn settled_ok(r: DelayedView, code_len: int, n_constants: int, n_runtime: int) -> bool {
    &&& r.fits(code_len)
    &&& match r.target {
        DelayedTarget::Next => false,
        DelayedTarget::Constant(c) => c < n_constants,
        DelayedTarget::Runtime(i) => i < n_runtime,
        DelayedTarget::Block(_) => true,
    }
}

impl<const MAX_REGS: usize> View for PatchBlock<MAX_REGS> {
    type V = BlockView;

    closed spec fn view(&self) -> BlockView {
        BlockView {
            code: self.code@,
            relocations: views(self.relocations@),
            constants: self.constants@,
            pending: views(self.next_relocations@),
            ended: self.ended,
        }
    }
}

impl<const MAX_REGS: usize> PatchBlock<MAX_REGS> {
    /// The library the block takes its code from.
    pub closed spec fn lib(&self) -> StencilLibrary<MAX_REGS> {
        *self.library
    }

    /// The block's invariant: its relocations can be written into its code,
    /// also once a trailing empty stencil is cut.
    pub open spec fn wf(&self) -> bool {
        &&& self.wf_core()
        &&& cut_safe(self@, self.lib().empty@.len() as int)
    }

    /// The block's relocations can be written into its code.
    pub open spec fn wf_core(&self) -> bool {
        let v = self@;
        &&& self.lib().wf()
        &&& forall|k: int|
            0 <= k < v.relocations.len() ==> settled_ok(
                #[trigger] v.relocations[k],
                v.code.len() as int,
                v.constants.len() as int,
                self.lib().rt_symbols@.len() as int,
            )
        &&& forall|k: int|
            0 <= k < v.pending.len() ==> (#[trigger] v.pending[k]).fits(v.code.len() as int)
                && v.pending[k].target == DelayedTarget::Next
        &&& max_end(v.relocations) <= v.code.len()
        &&& self.inner_ok()
    }

    closed spec fn same_except_code(&self, other: Self) -> bool {
        &&& self.library == other.library
        &&& self.relocations == other.relocations
        &&& self.constants == other.constants
        &&& self.ended == other.ended
        &&& self.settled_end == other.settled_end
    }

    pub closed spec fn inner_ok(&self) -> bool {
        self.settled_end == max_end(views(self.relocations@))
    }

    pub fn new(library: &'static StencilLibrary<MAX_REGS>) -> (r: Self)
        requires
            library.wf(),
        ensures
            r.wf(),
            r.lib() == *library,
            r@.code.len() == 0,
            r@.relocations.len() == 0,
            r@.constants.len() == 0,
            r@.pending.len() == 0,
            !r@.ended,
    {
        let r = Self {
            library,
            code: Vec::new(),
            relocations: Vec::new(),
            constants: Vec::new(),
            next_relocations: Vec::new(),
            ended: false,
            settled_end: 0,
        };
        assert(views(r.relocations@) =~= Seq::<DelayedView>::empty());
        assert(views(r.next_relocations@) =~= Seq::<DelayedView>::empty());
        r
    }
}

} // verus!

verus! {

pub proof fn lemma_max_end(rs: Seq<DelayedView>, k: int)
    requires
        0 <= k < rs.len(),
    ensures
        end_of(rs[k]) <= max_end(rs),
    decreases rs.len(),
{
    if k < rs.len() - 1 {
        lemma_max_end(rs.drop_last(), k);
        assert(rs.drop_last()[k] == rs[k]);
    }
}

pub proof fn lemma_max_end_push(rs: Seq<DelayedView>, r: DelayedView)
    ensures
        max_end(rs.push(r)) == if end_of(r) > max_end(rs) {
            end_of(r)
        } else {
            max_end(rs)
        },
{
    assert(rs.push(r).drop_last() =~= rs);
}

proof fn lemma_views_push(rs: Seq<DelayedRelocation>, r: DelayedRelocation)
    ensures
        views(rs.push(r)) == views(rs).push(r@),
{
    assert(views(rs.push(r)) =~= views(rs).push(r@));
}

/// Whether `code` ends with `suffix`.
fn slice_ends_with(code: &[u8], suffix: &[u8]) -> (r: bool)
    ensures
        r == ends_with(code@, suffix@),
{
    let n = code.len();
    let m = suffix.len();
    if m > n {
        return false;
    }
    let mut k: usize = 0;
    while k < m
        invariant
            k <= m <= n,
            n == code@.len(),
            m == suffix@.len(),
            forall|i: int| 0 <= i < k ==> code@[n - m + i] == suffix@[i],
        decreases m - k,
    {
        if code[n - m + k] != suffix[k] {
            assert(code@.subrange(n - m, n as int)[k as int] != suffix@[k as int]);
            return false;
        }
        k = k + 1;
    }
    assert(code@.subrange(n - m, n as int) =~= suffix@);
    true
}

impl<const MAX_REGS: usize> PatchBlock<MAX_REGS> {
    /// Points the jumps pending from the previous stencil at the end of the
    /// code, cutting a trailing empty stencil where the last of them is one.
    fn settle_pending(&mut self)
        requires
            old(self).wf(),
        ensures
            final(self).wf(),
            final(self).lib() == old(self).lib(),
            final(self)@ == (BlockView {
                code: settle(
                    old(self)@.code,
                    old(self)@.pending,
                    old(self)@.relocations,
                    old(self).lib().empty@,
                ),
                pending: Seq::empty(),
                ..old(self)@
            }),
    {
        let ghost v0 = self@;
        let ghost empty = self.lib().empty@;
        let next_target = self.code.len();
        let n = self.next_relocations.len();
        if n == 0 {
            assert(self@.pending =~= Seq::<DelayedView>::empty());
            return;
        }
        let last = self.next_relocations[n - 1];
        assert(v0.pending[n - 1] == last@);
        last.apply(self.code.as_mut_slice(), last.resolve(0, next_target));
        let ghost c1 = self.code@;
        let empty_len = self.library.empty.len();
        let ends = slice_ends_with(self.code.as_slice(), self.library.empty);
        if ends {
            let prev = if self.relocations.len() > 0 {
                let r = self.relocations[self.relocations.len() - 1];
                assert(v0.relocations[v0.relocations.len() - 1] == r@);
                r.location()
            } else {
                0
            };
            let after = last.location() > prev;
            assert(after == prunes(v0.code, v0.pending, v0.relocations, empty));
            if after {
                self.code.truncate(self.code.len() - empty_len);
            }
        } else {
            assert(!prunes(v0.code, v0.pending, v0.relocations, empty));
        }
        let ghost c2 = self.code@;
        assert(c2 == if prunes(v0.code, v0.pending, v0.relocations, empty) {
            c1.subrange(0, c1.len() - empty.len())
        } else {
            c1
        });
        proof {
            assert forall|i: int| 0 <= i < v0.relocations.len() implies settled_ok(
                #[trigger] v0.relocations[i],
                c2.len() as int,
                v0.constants.len() as int,
                self.lib().rt_symbols@.len() as int,
            ) by {
                lemma_max_end(v0.relocations, i);
            }
            assert forall|i: int| 0 <= i < n - 1 implies (#[trigger] v0.pending[i]).fits(
                c2.len() as int,
            ) by {
                assert(v0.pending[i].fits(v0.code.len() as int));
            }
        }
        let next_target = self.code.len();
        let mut k: usize = 0;
        while k < n - 1
            invariant
                k <= n - 1,
                n == v0.pending.len(),
                self.next_relocations@ == old(self).next_relocations@,
                self.same_except_code(*old(self)),
                views(self.next_relocations@) == v0.pending,
                next_target == c2.len(),
                self.code@.len() == c2.len(),
                forall|i: int| 0 <= i < n - 1 ==> (#[trigger] v0.pending[i]).fits(c2.len() as int),
                self.code@ == apply_all(c2, v0.pending.take(k as int), c2.len() as int),
            decreases n - 1 - k,
        {
            let r = self.next_relocations[k];
            assert(v0.pending[k as int] == r@);
            r.apply(self.code.as_mut_slice(), r.resolve(0, next_target));
            assert(v0.pending.take(k as int + 1).drop_last() =~= v0.pending.take(k as int));
            k = k + 1;
        }
        assert(v0.pending.take(n - 1) =~= v0.pending.drop_last());
        self.next_relocations.clear();
        assert(views(self.next_relocations@) =~= Seq::<DelayedView>::empty());
    }
}

} // verus!

verus! {

/// The stack slot indices of the locations, in order.
fn collect_stack_slots(inputs: &[Location], outputs: &[Location]) -> (r: Vec<usize>)
    requires
        inputs@.len() + outputs@.len() <= usize::MAX,
    ensures
        r@ == stack_slots(inputs@ + outputs@),
{
    let ghost s = inputs@ + outputs@;
    let nin = inputs.len();
    let nout = outputs.len();
    let mut r: Vec<usize> = Vec::new();
    let mut k: usize = 0;
    while k < nin + nout
        invariant
            k <= nin + nout,
            nin + nout <= usize::MAX,
            nin == inputs@.len(),
            nout == outputs@.len(),
            s == inputs@ + outputs@,
            r@ == stack_slots(s.take(k as int)),
        decreases nin + nout - k,
    {
        let var = if k < nin {
            inputs[k]
        } else {
            outputs[k - nin]
        };
        assert(var == s[k as int]);
        assert(s.take(k as int + 1).drop_last() =~= s.take(k as int));
        match var {
            Location::Stack(i) => r.push(i as usize),
            Location::Register(_) => {},
        }
        k = k + 1;
    }
    assert(s.take((nin + nout) as int) =~= s);
    r
}

/// Room for a relocation in a stencil's code is room for it once the code is
/// copied at `from`.
pub proof fn lemma_writable_shift(b: u64, from: int, code_len: int)
    requires
        writable(b, 0, code_len),
        from >= 0,
    ensures
        writable(b, from, from + code_len),
{
}

/// Processing a stencil's relocation list, copied at `from` into code of `n`
/// bytes, keeps the settled relocations there were, and adds pending jumps
/// and settled relocations as `added_ok` says for the latest entry.
proof fn lemma_run_tail(
    st0: PatchState,
    data: Seq<Relocation>,
    start: int,
    j: int,
    from: usize,
    wide: bool,
    stack_vars: Seq<usize>,
    holes: Seq<usize>,
    jumps: Seq<JumpTarget>,
    n: int,
    e: int,
)
    requires
        st0.pending.len() == 0,
        start <= j <= data.len(),
        forall|k: int| start <= k < j ==> !is_invalid_entry(#[trigger] data[k]),
        tail_ok(data, start, (n - from) as nat, e as nat),
        0 <= e,
        from <= n,
    ensures
        ({
            let st = patch_run(st0, data, start, j, from, wide, stack_vars, holes, jumps);
            &&& st.relocations.len() >= st0.relocations.len()
            &&& forall|k: int|
                0 <= k < st0.relocations.len() ==> st.relocations[k] == st0.relocations[k]
            &&& j == start ==> st.pending.len() == 0 && st.relocations == st0.relocations
            &&& j > start ==> added_ok(st.pending, 0, from, data[j - 1]@, n, e)
            &&& j > start ==> added_ok(
                st.relocations,
                st0.relocations.len() as int,
                from,
                data[j - 1]@,
                n,
                e,
            )
        }),
    decreases j - start,
{
    if j > start {
        lemma_run_tail(st0, data, start, j - 1, from, wide, stack_vars, holes, jumps, n, e);
        let prev = patch_run(st0, data, start, j - 1, from, wide, stack_vars, holes, jumps);
        let st = patch_run(st0, data, start, j, from, wide, stack_vars, holes, jumps);
        let b = data[j - 1]@;
        assert(st == patch_step(prev, b, from, wide, stack_vars, holes, jumps));
        if j - 1 > start {
            let a = data[j - 2]@;
            assert(in_relocation_list(data, start, j - 2)) by {
                assert(!is_invalid_entry(data[j - 2]));
            }
            assert(in_relocation_list(data, start, j - 1)) by {
                assert(!is_invalid_entry(data[j - 1]));
            }
            assert(offset_field(a) <= offset_field(b) && offset_field(a) + width_of(a) + e <= n
                - from) by {
                let k = j - 1;
                assert(data[j - 2] == data[k - 1]);
                assert(k == (j - 2) + 1);
            }
        }
        assert(added_ok(st.pending, 0, from, b, n, e));
        assert(added_ok(st.relocations, st0.relocations.len() as int, from, b, n, e));
    }
}

/// What `added_ok` gives for a stencil's pending jumps and for the settled
/// relocations added after `init` is what `cut_safe` asks.
proof fn lemma_cut_safe_of_added(
    v: BlockView,
    init: Seq<DelayedView>,
    from: usize,
    b: u64,
    e: int,
)
    requires
        added_ok(v.pending, 0, from, b, v.code.len() as int, e),
        added_ok(v.relocations, init.len() as int, from, b, v.code.len() as int, e),
        init.len() <= v.relocations.len(),
        forall|k: int| 0 <= k < init.len() ==> v.relocations[k] == init[k],
        max_end(init) + e <= v.code.len(),
        0 <= e,
    ensures
        cut_safe(v, e),
{
    let n = v.code.len() as int;
    if v.pending.len() > 0 {
        let last = v.pending.last();
        assert(last == v.pending[v.pending.len() - 1]);
        if last.location() > last_location(v.relocations) {
            let rs = v.relocations;
            assert forall|k: int| 0 <= k < rs.len() implies end_of(#[trigger] rs[k]) + e <= n by {
                if k < init.len() {
                    lemma_max_end(init, k);
                } else if !(end_of(rs[k]) + e <= n) {
                    assert(k == rs.len() - 1 && rs[k].entry == b);
                    assert(last_location(rs) == rs[k].location());
                }
            }
            lemma_max_end_bound(rs, n - e);
        }
    }
}

/// A bound on every write end of `rs` bounds their furthest end.
pub proof fn lemma_max_end_bound(rs: Seq<DelayedView>, bound: int)
    requires
        0 <= bound,
        forall|k: int| 0 <= k < rs.len() ==> end_of(#[trigger] rs[k]) <= bound,
    ensures
        max_end(rs) <= bound,
    decreases rs.len(),
{
    if rs.len() > 0 {
        let t = rs.drop_last();
        assert forall|k: int| 0 <= k < t.len() implies end_of(#[trigger] t[k]) <= bound by {
            assert(t[k] == rs[k]);
        }
        lemma_max_end_bound(t, bound);
        assert(end_of(rs[rs.len() - 1]) <= bound);
    }
}

impl<const MAX_REGS: usize> PatchBlock<MAX_REGS> {
    pub open spec fn state(&self) -> PatchState {
        PatchState {
            code: self@.code,
            relocations: self@.relocations,
            constants: self@.constants,
            pending: self@.pending,
        }
    }

    /// Copies a stencil's code to the end of the block and processes its
    /// relocations (see `patch_step`).
    fn copy_and_patch<const IN: usize, const OUT: usize, const HOLES: usize, const JUMPS: usize>(
        &mut self,
        store: &StencilFamily<IN, OUT, MAX_REGS, HOLES, JUMPS>,
        s: Stencil<IN, OUT, HOLES, JUMPS>,
        inputs: &[Location; IN],
        outputs: &[Location; OUT],
        holes: &[usize; HOLES],
        jumps: &[JumpTarget; JUMPS],
        wide: bool,
        Ghost(idx): Ghost<int>,
    )
        requires
            old(self).wf(),
            old(self)@.pending.len() == 0,
            store.wf(old(self).lib().code@.len(), old(self).lib().rt_symbols@.len(), old(self).lib().empty@.len()),
            0 <= idx < store.stencils@.len(),
            store.stencils@[idx] == s,
            s.is_present(),
            stack_slots(inputs@ + outputs@).len() == crate::stencils::stack_count(
                crate::stencils::decode_locations(
                    (idx % StencilFamily::<IN, OUT, MAX_REGS, HOLES, JUMPS>::half_len() as int) as nat,
                    MAX_REGS as nat,
                    (IN + OUT) as nat,
                ),
            ),
        ensures
            final(self).wf(),
            final(self).lib() == old(self).lib(),
            final(self)@.ended == old(self)@.ended,
            final(self).state() == patch_run(
                PatchState {
                    code: old(self)@.code + old(self).lib().code@.subrange(
                        s.code_index as int,
                        s.code_index + s.code_len,
                    ),
                    ..old(self).state()
                },
                store.relocation_data@,
                s.relocation_index as int,
                list_end(store.relocation_data@, s.relocation_index as int),
                old(self)@.code.len() as usize,
                wide,
                stack_slots(inputs@ + outputs@),
                holes@,
                jumps@,
            ),
    {
        let ghost v0 = self@;
        let offset = self.code.len();
        let bytes = s.code(self.library.code);
        self.code.extend_from_slice(bytes);
        assert(self@.code =~= v0.code + bytes@);
        let ghost st0 = self.state();
        assert(st0 == PatchState {
            code: old(self)@.code + old(self).lib().code@.subrange(
                s.code_index as int,
                s.code_index + s.code_len,
            ),
            ..old(self).state()
        });
        let code_end = self.code.len();
        let stack_vars = collect_stack_slots(inputs.as_slice(), outputs.as_slice());
        let data = store.relocation_data;
        let dlen = data.len();
        let mut j = s.relocation_index as usize;
        let ghost start = s.relocation_index as int;
        let ghost n_stack = stack_vars@.len();
        let ghost rt_len = self.lib().rt_symbols@.len();
        proof {
            assert(store.stencil_ok(idx, self.lib().code@.len(), rt_len, self.lib().empty@.len()));
            assert(views(self.relocations@) == v0.relocations);
        }
        while j < dlen
            invariant
                start <= j <= dlen,
                dlen == data@.len(),
                data@ == store.relocation_data@,
                store.stencil_ok(idx, self.lib().code@.len(), rt_len, self.lib().empty@.len()),
                0 <= idx < store.stencils@.len(),
                store.stencils@[idx] == s,
                s.relocation_index == start,
                stack_vars@ == stack_slots(inputs@ + outputs@),
                offset == old(self)@.code.len(),
                st0 == (PatchState {
                    code: old(self)@.code + old(self).lib().code@.subrange(
                        s.code_index as int,
                        s.code_index + s.code_len,
                    ),
                    ..old(self).state()
                }),
                rt_len == self.lib().rt_symbols@.len(),
                self.lib() == old(self).lib(),
                self@.ended == old(self)@.ended,
                offset == v0.code.len(),
                code_end == offset + s.code_len,
                code_end <= usize::MAX,
                self@.code.len() == code_end,
                stack_vars@.len() == n_stack,
                n_stack == crate::stencils::stack_count(
                    crate::stencils::decode_locations(
                        (idx % StencilFamily::<IN, OUT, MAX_REGS, HOLES, JUMPS>::half_len() as int) as nat,
                        MAX_REGS as nat,
                        (IN + OUT) as nat,
                    ),
                ),
                forall|k: int| start <= k < j ==> !is_invalid_entry(#[trigger] data@[k]),
                list_end(data@, start) == list_end(data@, j as int),
                self.state() == patch_run(st0, data@, start, j as int, offset, wide, stack_vars@, holes@, jumps@),
                self.wf_core(),
                max_end(v0.relocations) <= offset,
                v0.relocations == old(self)@.relocations,
                st0.pending.len() == 0,
            decreases dlen - j,
        {
            let relocation = data[j];
            if relocation.is_invalid() {
                assert(list_end(data@, j as int) == j);
                assert(self.state() == patch_run(st0, data@, start, list_end(data@, start), offset, wide, stack_vars@, holes@, jumps@));
                proof {
                    self.lemma_copy_done(st0, data@, start, j as int, offset, wide, stack_vars@, holes@, jumps@, s.code_len as int);
                }
                return;
            }
            assert(in_relocation_list(data@, start, j as int));
            assert(crate::stencils::relocation_ok(relocation@, s.code_len as nat, HOLES as nat, n_stack, JUMPS as nat, rt_len));
            proof {
                lemma_writable_shift(relocation@, offset as int, s.code_len as int);
            }
            let ghost v1 = self@;
            let info = relocation.patch_info();
            let mut handled = false;
            if wide {
                match info {
                    Some(PatchInfo::Hole(i)) => {
                        let constant_index = self.constants.len();
                        self.constants.push(holes[i as usize]);
                        let d = DelayedRelocation::constant(offset, relocation, constant_index as u16);
                        let end = d.write_end();
                        proof {
                            lemma_views_push(self.relocations@, d);
                            lemma_max_end_push(v1.relocations, d@);
                        }
                        self.relocations.push(d);
                        if end > self.settled_end {
                            self.settled_end = end;
                        }
                        handled = true;
                    },
                    _ => {},
                }
            }
            if !handled {
                let delayed = DelayedRelocation::try_apply(
                    self.code.as_mut_slice(),
                    offset,
                    relocation,
                    stack_vars.as_slice(),
                    holes.as_slice(),
                    jumps.as_slice(),
                );
                match delayed {
                    Some(d) => {
                        let end = d.write_end();
                        match d.target() {
                            DelayedTarget::Next => {
                                proof {
                                    lemma_views_push(self.next_relocations@, d);
                                }
                                self.next_relocations.push(d);
                            },
                            _ => {
                                proof {
                                    lemma_views_push(self.relocations@, d);
                                    lemma_max_end_push(v1.relocations, d@);
                                }
                                self.relocations.push(d);
                                if end > self.settled_end {
                                    self.settled_end = end;
                                }
                            },
                        }
                    },
                    None => {},
                }
            }
            j = j + 1;
        }
        assert(list_end(data@, j as int) == j);
        proof {
            self.lemma_copy_done(st0, data@, start, j as int, offset, wide, stack_vars@, holes@, jumps@, s.code_len as int);
        }
    }

    /// Once a stencil's relocation list has been processed, the block keeps
    /// its whole invariant.
    proof fn lemma_copy_done(
        &self,
        st0: PatchState,
        data: Seq<Relocation>,
        start: int,
        j: int,
        from: usize,
        wide: bool,
        stack_vars: Seq<usize>,
        holes: Seq<usize>,
        jumps: Seq<JumpTarget>,
        code_len: int,
    )
        requires
            self.wf_core(),
            st0.pending.len() == 0,
            start <= j <= data.len(),
            forall|k: int| start <= k < j ==> !is_invalid_entry(#[trigger] data[k]),
            tail_ok(data, start, code_len as nat, self.lib().empty@.len()),
            self@.code.len() == from + code_len,
            0 <= code_len,
            max_end(st0.relocations) <= from,
            self.state() == patch_run(st0, data, start, j, from, wide, stack_vars, holes, jumps),
        ensures
            self.wf(),
    {
        let e = self.lib().empty@.len() as int;
        let n = self@.code.len() as int;
        assert((n - from) as nat == code_len as nat);
        lemma_run_tail(st0, data, start, j, from, wide, stack_vars, holes, jumps, n, e);
        if j > start {
            assert(in_relocation_list(data, start, start)) by {
                assert(!is_invalid_entry(data[start]));
            }
            lemma_cut_safe_of_added(self@, st0.relocations, from, data[j - 1]@, e);
        }
    }
}

} // verus!

verus! {

/// Whether every location names a register the stencils have (or the stack).
fn registers_in_range(inputs: &[Location], outputs: &[Location], max_regs: usize) -> (r: bool)
    ensures
        r == normalized_registers(inputs@ + outputs@, max_regs as nat),
{
    let ghost s = inputs@ + outputs@;
    let nin = inputs.len();
    let nout = outputs.len();
    let mut k: usize = 0;
    while k < nin
        invariant
            k <= nin,
            nin == inputs@.len(),
            nout == outputs@.len(),
            s == inputs@ + outputs@,
            forall|i: int| 0 <= i < k ==> digit_of(#[trigger] s[i]) < max_regs,
        decreases nin - k,
    {
        let d: usize = match inputs[k] {
            Location::Stack(_) => 0,
            Location::Register(r) => r as usize + 1,
        };
        assert(s[k as int] == inputs@[k as int]);
        if d >= max_regs {
            return false;
        }
        k = k + 1;
    }
    let mut k: usize = 0;
    while k < nout
        invariant
            k <= nout,
            nin == inputs@.len(),
            nout == outputs@.len(),
            s == inputs@ + outputs@,
            forall|i: int| 0 <= i < nin + k ==> digit_of(#[trigger] s[i]) < max_regs,
        decreases nout - k,
    {
        let d: usize = match outputs[k] {
            Location::Stack(_) => 0,
            Location::Register(r) => r as usize + 1,
        };
        assert(s[nin + k] == outputs@[k as int]);
        if d >= max_regs {
            return false;
        }
        k = k + 1;
    }
    true
}

/// What emitting a stencil does to a block: the locations are checked, the
/// stencil is selected, the pending jumps are settled, and the stencil's code
/// is copied and patched.
pub open spec fn emitted<
    const IN: usize,
    const OUT: usize,
    const MAX_REGS: usize,
    const HOLES: usize,
    const JUMPS: usize,
>(
    v: BlockView,
    lib: StencilLibrary<MAX_REGS>,
    fam: StencilFamily<IN, OUT, MAX_REGS, HOLES, JUMPS>,
    ins: Seq<Location>,
    outs: Seq<Location>,
    holes: Seq<usize>,
    jumps: Seq<JumpTarget>,
) -> Result<PatchState, PatchError> {
    if !normalized_registers(ins + outs, MAX_REGS as nat) {
        Err(PatchError::InvalidRegister)
    } else {
        match fam.selected(ins, outs, holes) {
            None => Err(PatchError::StencilNotFound),
            Some((wide, idx)) => {
                let s = fam.stencils@[idx];
                let code = settle(v.code, v.pending, v.relocations, lib.empty@);
                let data = fam.relocation_data@;
                Ok(
                    patch_run(
                        PatchState {
                            code: code + lib.code@.subrange(
                                s.code_index as int,
                                s.code_index + s.code_len,
                            ),
                            relocations: v.relocations,
                            constants: v.constants,
                            pending: Seq::empty(),
                        },
                        data,
                        s.relocation_index as int,
                        list_end(data, s.relocation_index as int),
                        code.len() as usize,
                        wide,
                        stack_slots(ins + outs),
                        holes,
                        jumps,
                    ),
                )
            },
        }
    }
}

pub proof fn lemma_stack_slots_len(s: Seq<Location>)
    ensures
        stack_slots(s).len() == stack_count(s),
    decreases s.len(),
{
    if s.len() > 0 {
        lemma_stack_slots_len(s.drop_last());
    }
}

impl<const MAX_REGS: usize> PatchBlock<MAX_REGS> {
    /// Emits a stencil: settles the jumps pending from the previous stencil
    /// (cutting a trailing empty stencil when it is the last thing in the
    /// code), then copies the selected stencil and patches it.
    ///
    /// A block is built as follows. This call settles the previous stencil's
    /// jumps to what follows, copies the code and patches inline constants;
    /// the next call settles this stencil's jumps to what follows; linking
    /// (`finalize_into`) settles jumps between blocks, wide constants and
    /// calls to runtime functions. So the last stencil of a block must not
    /// jump to what follows.
    fn emit_one<const IN: usize, const OUT: usize, const HOLES: usize, const JUMPS: usize>(
        &mut self,
        stencils: &StencilFamily<IN, OUT, MAX_REGS, HOLES, JUMPS>,
        inputs: &[Location; IN],
        outputs: &[Location; OUT],
        holes: &[usize; HOLES],
        jumps: &[JumpTarget; JUMPS],
    ) -> (r: Result<(), PatchError>)
        requires
            old(self).wf(),
            stencils.wf(old(self).lib().code@.len(), old(self).lib().rt_symbols@.len(), old(self).lib().empty@.len()),
        ensures
            final(self).wf(),
            final(self).lib() == old(self).lib(),
            final(self)@.ended == old(self)@.ended,
            match emitted(old(self)@, old(self).lib(), *stencils, inputs@, outputs@, holes@, jumps@) {
                Err(e) => r == Err::<(), PatchError>(e) && final(self)@ == old(self)@,
                Ok(st) => r is Ok && final(self).state() == st,
            },
    {
        if !registers_in_range(inputs.as_slice(), outputs.as_slice(), MAX_REGS) {
            return Err(PatchError::InvalidRegister);
        }
        proof {
            lemma_wf_select_ok_in(*stencils, self.lib().code@.len(), self.lib().rt_symbols@.len(), self.lib().empty@.len());
        }
        let selected = stencils.select(inputs, outputs, holes);
        let SelectedStencil { wide, stencil } = match selected {
            Some(s) => s,
            None => {
                return Err(PatchError::StencilNotFound);
            },
        };
        let ghost idx = stencils.selected(inputs@, outputs@, holes@).unwrap().1;
        let ghost v0 = self@;
        self.settle_pending();
        proof {
            let s = inputs@ + outputs@;
            let m = MAX_REGS as nat;
            let half = StencilFamily::<IN, OUT, MAX_REGS, HOLES, JUMPS>::half_len();
            crate::stencils::lemma_index_bound(s, m);
            crate::stencils::lemma_decode_stack_count(s, m);
            lemma_stack_slots_len(s);
            let x = locations_index(s, m) as int;
            assert(s.len() == IN + OUT);
            assert(x < half);
            if wide {
                assert(idx == x + half);
                vstd::arithmetic::div_mod::lemma_fundamental_div_mod_converse(idx, half as int, 1, x);
            } else {
                assert(idx == x);
                vstd::arithmetic::div_mod::lemma_fundamental_div_mod_converse(idx, half as int, 0, x);
            }
            assert(idx % half as int == x);
        }
        self.copy_and_patch(stencils, stencil, inputs, outputs, holes, jumps, wide, Ghost(idx));
        Ok(())
    }
}

} // verus!

verus! {

/// The outcome of emitting into `before` gave `r` and left `after` (whose
/// `ended` flag is checked separately).
pub open spec fn emit_outcome(
    before: BlockView,
    after: PatchState,
    after_view: BlockView,
    result: Result<(), PatchError>,
    outcome: Result<PatchState, PatchError>,
) -> bool {
    match outcome {
        Err(e) => result == Err::<(), PatchError>(e) && after_view.code == before.code
            && after_view.relocations == before.relocations && after_view.constants
            == before.constants && after_view.pending == before.pending,
        Ok(st) => result is Ok && after == st,
    }
}

impl<const MAX_REGS: usize> PatchBlock<MAX_REGS> {
    /// Emits one plain, control-flow-free stencil, which continues with what
    /// follows.
    pub fn emit<const IN: usize, const OUT: usize, const HOLES: usize>(
        &mut self,
        stencil: &StencilFamily<IN, OUT, MAX_REGS, HOLES, 1>,
        inputs: &[Location; IN],
        outputs: &[Location; OUT],
        holes: &[usize; HOLES],
    ) -> (r: Result<(), PatchError>)
        requires
            old(self).wf(),
            stencil.wf(old(self).lib().code@.len(), old(self).lib().rt_symbols@.len(), old(self).lib().empty@.len()),
        ensures
            final(self).wf(),
            final(self).lib() == old(self).lib(),
            final(self)@.ended == old(self)@.ended,
            old(self)@.ended ==> r == Err::<(), PatchError>(PatchError::AlreadyEnded)
                && final(self)@ == old(self)@,
            !old(self)@.ended ==> emit_outcome(
                old(self)@,
                final(self).state(),
                final(self)@,
                r,
                emitted(
                    old(self)@,
                    old(self).lib(),
                    *stencil,
                    inputs@,
                    outputs@,
                    holes@,
                    seq![JumpTarget::Next],
                ),
            ),
    {
        if self.ended {
            return Err(PatchError::AlreadyEnded);
        }
        let jumps = [JumpTarget::Next];
        assert(jumps@ =~= seq![JumpTarget::Next]);
        self.emit_one(stencil, inputs, outputs, holes, &jumps)
    }

    /// Emits a stencil using two value slots as inputs.
    pub fn emit_vv(
        &mut self,
        stencil: &StencilFamily<2, 1, MAX_REGS, 0, 1>,
        src1: Location,
        src2: Location,
        dst: Location,
    ) -> (r: Result<(), PatchError>)
        requires
            old(self).wf(),
            stencil.wf(old(self).lib().code@.len(), old(self).lib().rt_symbols@.len(), old(self).lib().empty@.len()),
        ensures
            final(self).wf(),
            final(self).lib() == old(self).lib(),
            final(self)@.ended == old(self)@.ended,
            old(self)@.ended ==> r == Err::<(), PatchError>(PatchError::AlreadyEnded)
                && final(self)@ == old(self)@,
            !old(self)@.ended ==> emit_outcome(
                old(self)@,
                final(self).state(),
                final(self)@,
                r,
                emitted(
                    old(self)@,
                    old(self).lib(),
                    *stencil,
                    seq![src1, src2],
                    seq![dst],
                    seq![],
                    seq![JumpTarget::Next],
                ),
            ),
    {
        let ins = [src1, src2];
        let outs = [dst];
        let holes: [usize; 0] = [];
        assert(ins@ =~= seq![src1, src2]);
        assert(outs@ =~= seq![dst]);
        assert(holes@ =~= Seq::<usize>::empty());
        self.emit(stencil, &ins, &outs, &holes)
    }

    /// Emits a stencil using a value slot as input.
    pub fn emit_v(
        &mut self,
        stencil: &StencilFamily<1, 1, MAX_REGS, 0, 1>,
        src: Location,
        dst: Location,
    ) -> (r: Result<(), PatchError>)
        requires
            old(self).wf(),
            stencil.wf(old(self).lib().code@.len(), old(self).lib().rt_symbols@.len(), old(self).lib().empty@.len()),
        ensures
            final(self).wf(),
            final(self).lib() == old(self).lib(),
            final(self)@.ended == old(self)@.ended,
            old(self)@.ended ==> r == Err::<(), PatchError>(PatchError::AlreadyEnded)
                && final(self)@ == old(self)@,
            !old(self)@.ended ==> emit_outcome(
                old(self)@,
                final(self).state(),
                final(self)@,
                r,
                emitted(
                    old(self)@,
                    old(self).lib(),
                    *stencil,
                    seq![src],
                    seq![dst],
                    seq![],
                    seq![JumpTarget::Next],
                ),
            ),
    {
        let ins = [src];
        let outs = [dst];
        let holes: [usize; 0] = [];
        assert(ins@ =~= seq![src]);
        assert(outs@ =~= seq![dst]);
        assert(holes@ =~= Seq::<usize>::empty());
        self.emit(stencil, &ins, &outs, &holes)
    }

    /// Emits a stencil with a value slot and an immediate as inputs.
    pub fn emit_vi(
        &mut self,
        stencil: &StencilFamily<1, 1, MAX_REGS, 1, 1>,
        src: Location,
        imm: usize,
        dst: Location,
    ) -> (r: Result<(), PatchError>)
        requires
            old(self).wf(),
            stencil.wf(old(self).lib().code@.len(), old(self).lib().rt_symbols@.len(), old(self).lib().empty@.len()),
        ensures
            final(self).wf(),
            final(self).lib() == old(self).lib(),
            final(self)@.ended == old(self)@.ended,
            old(self)@.ended ==> r == Err::<(), PatchError>(PatchError::AlreadyEnded)
                && final(self)@ == old(self)@,
            !old(self)@.ended ==> emit_outcome(
                old(self)@,
                final(self).state(),
                final(self)@,
                r,
                emitted(
                    old(self)@,
                    old(self).lib(),
                    *stencil,
                    seq![src],
                    seq![dst],
                    seq![imm],
                    seq![JumpTarget::Next],
                ),
            ),
    {
        let ins = [src];
        let outs = [dst];
        let holes = [imm];
        assert(ins@ =~= seq![src]);
        assert(outs@ =~= seq![dst]);
        assert(holes@ =~= seq![imm]);
        self.emit(stencil, &ins, &outs, &holes)
    }

    /// Emits a return stencil; the block ends.
    pub fn ret<const IN: usize, const HOLES: usize>(
        &mut self,
        stencil: &StencilFamily<IN, 0, MAX_REGS, HOLES, 0>,
        inputs: &[Location; IN],
        holes: &[usize; HOLES],
    ) -> (r: Result<(), PatchError>)
        requires
            old(self).wf(),
            stencil.wf(old(self).lib().code@.len(), old(self).lib().rt_symbols@.len(), old(self).lib().empty@.len()),
        ensures
            final(self).wf(),
            final(self).lib() == old(self).lib(),
            final(self)@.ended,
            emit_outcome(
                old(self)@,
                final(self).state(),
                final(self)@,
                r,
                emitted(old(self)@, old(self).lib(), *stencil, inputs@, seq![], holes@, seq![]),
            ),
    {
        self.ended = true;
        let outs: [Location; 0] = [];
        let jumps: [JumpTarget; 0] = [];
        assert(outs@ =~= Seq::<Location>::empty());
        assert(jumps@ =~= Seq::<JumpTarget>::empty());
        self.emit_one(stencil, inputs, &outs, holes, &jumps)
    }

    /// Emits a single-slot return stencil; the block ends.
    pub fn ret_v(&mut self, stencil: &StencilFamily<1, 0, MAX_REGS, 0, 0>, src: Location) -> (r:
        Result<(), PatchError>)
        requires
            old(self).wf(),
            stencil.wf(old(self).lib().code@.len(), old(self).lib().rt_symbols@.len(), old(self).lib().empty@.len()),
        ensures
            final(self).wf(),
            final(self).lib() == old(self).lib(),
            final(self)@.ended,
            emit_outcome(
                old(self)@,
                final(self).state(),
                final(self)@,
                r,
                emitted(old(self)@, old(self).lib(), *stencil, seq![src], seq![], seq![], seq![]),
            ),
    {
        let ins = [src];
        let holes: [usize; 0] = [];
        assert(ins@ =~= seq![src]);
        assert(holes@ =~= Seq::<usize>::empty());
        self.ret(stencil, &ins, &holes)
    }

    /// Emits a final branching stencil; the block ends.
    pub fn end_branch<const IN: usize, const OUT: usize, const HOLES: usize, const JUMPS: usize>(
        &mut self,
        stencil: &StencilFamily<IN, OUT, MAX_REGS, HOLES, JUMPS>,
        inputs: &[Location; IN],
        outputs: &[Location; OUT],
        holes: &[usize; HOLES],
        jumps: &[JumpTarget; JUMPS],
    ) -> (r: Result<(), PatchError>)
        requires
            old(self).wf(),
            stencil.wf(old(self).lib().code@.len(), old(self).lib().rt_symbols@.len(), old(self).lib().empty@.len()),
        ensures
            final(self).wf(),
            final(self).lib() == old(self).lib(),
            final(self)@.ended,
            emit_outcome(
                old(self)@,
                final(self).state(),
                final(self)@,
                r,
                emitted(old(self)@, old(self).lib(), *stencil, inputs@, outputs@, holes@, jumps@),
            ),
    {
        self.ended = true;
        self.branch(stencil, inputs, outputs, holes, jumps)
    }

    /// Emits a branching stencil, but does not end the block.
    pub fn branch<const IN: usize, const OUT: usize, const HOLES: usize, const JUMPS: usize>(
        &mut self,
        stencil: &StencilFamily<IN, OUT, MAX_REGS, HOLES, JUMPS>,
        inputs: &[Location; IN],
        outputs: &[Location; OUT],
        holes: &[usize; HOLES],
        jumps: &[JumpTarget; JUMPS],
    ) -> (r: Result<(), PatchError>)
        requires
            old(self).wf(),
            stencil.wf(old(self).lib().code@.len(), old(self).lib().rt_symbols@.len(), old(self).lib().empty@.len()),
        ensures
            final(self).wf(),
            final(self).lib() == old(self).lib(),
            final(self)@.ended == old(self)@.ended,
            emit_outcome(
                old(self)@,
                final(self).state(),
                final(self)@,
                r,
                emitted(old(self)@, old(self).lib(), *stencil, inputs@, outputs@, holes@, jumps@),
            ),
    {
        self.emit_one(stencil, inputs, outputs, holes, jumps)
    }
}

} // verus!

verus! {

/// The distinct runtime functions the settled relocations call, in order of
/// first call.
pub open spec fn runtime_symbols(rs: Seq<DelayedView>) -> Seq<u16>
    decreases rs.len(),
{
    if rs.len() == 0 {
        Seq::empty()
    } else {
        let acc = runtime_symbols(rs.drop_last());
        match rs.last().target {
            DelayedTarget::Runtime(s) => if acc.contains(s) {
                acc
            } else {
                acc.push(s)
            },
            _ => acc,
        }
    }
}

/// The size of a machine word in bytes.
pub open spec fn word() -> int {
    vstd::layout::size_of::<usize>() as int
}

/// The first multiple of `w` at or after `x`.
pub open spec fn round_up(x: int, w: int) -> int {
    if x % w == 0 {
        x
    } else {
        x + (w - x % w)
    }
}

/// The stencil used to jump to runtime functions: the one for a hole that
/// holds an address of any size.
pub open spec fn long_jump_of<const MAX_REGS: usize>(lib: StencilLibrary<MAX_REGS>) -> Option<
    Stencil<0, 0, 1, 0>,
> {
    match lib.long_jump.selected(seq![], seq![], seq![usize::MAX]) {
        Some((_, i)) => Some(lib.long_jump.stencils@[i]),
        None => None,
    }
}

/// The length of a linked block: its code, one long jump per runtime
/// function called, then (aligned to a word) one word per wide constant and
/// per runtime function address.
pub open spec fn final_len_spec<const MAX_REGS: usize>(v: BlockView, lib: StencilLibrary<MAX_REGS>) -> int {
    let n = runtime_symbols(v.relocations).len();
    let l = match long_jump_of(lib) {
        Some(s) => s.code_len as int,
        None => 0,
    };
    let code_len = v.code.len() + n * l;
    let count = v.constants.len() + n;
    if count == 0 {
        code_len
    } else {
        round_up(code_len, word()) + count * word()
    }
}

pub proof fn lemma_word()
    ensures
        word() == 4 || word() == 8,
{
    broadcast use vstd::layout::layout_of_primitives;

    assert(vstd::layout::size_of::<usize>() * 8 == usize::BITS);
}

/// Every runtime function called appears once, and it exists.
pub proof fn lemma_runtime_symbols(rs: Seq<DelayedView>, n_runtime: int)
    requires
        forall|k: int|
            0 <= k < rs.len() ==> (#[trigger] rs[k].target matches DelayedTarget::Runtime(s) ==> s
                < n_runtime),
    ensures
        runtime_symbols(rs).no_duplicates(),
        forall|k: int| 0 <= k < runtime_symbols(rs).len() ==> #[trigger] runtime_symbols(rs)[k] < n_runtime,
        forall|k: int|
            0 <= k < rs.len() ==> (#[trigger] rs[k].target matches DelayedTarget::Runtime(s)
                ==> runtime_symbols(rs).contains(s)),
        runtime_symbols(rs).len() <= rs.len(),
    decreases rs.len(),
{
    if rs.len() > 0 {
        let t = rs.drop_last();
        assert forall|k: int|
            0 <= k < t.len() implies (#[trigger] t[k].target matches DelayedTarget::Runtime(s) ==> s
            < n_runtime) by {
            assert(t[k] == rs[k]);
        }
        lemma_runtime_symbols(t, n_runtime);
        let acc = runtime_symbols(t);
        assert(rs.last() == rs[rs.len() - 1]);
        assert forall|k: int|
            0 <= k < rs.len() implies (#[trigger] rs[k].target matches DelayedTarget::Runtime(s)
            ==> runtime_symbols(rs).contains(s)) by {
            if k < rs.len() - 1 {
                assert(t[k] == rs[k]);
                if let DelayedTarget::Runtime(s) = rs[k].target {
                    assert(acc.contains(s));
                    let w = choose|w: int| 0 <= w < acc.len() && acc[w] == s;
                    assert(runtime_symbols(rs)[w] == s);
                }
            } else {
                if let DelayedTarget::Runtime(s) = rs[k].target {
                    if !acc.contains(s) {
                        assert(runtime_symbols(rs)[acc.len() as int] == s);
                    }
                }
            }
        }
    }
}

impl<const MAX_REGS: usize> PatchBlock<MAX_REGS> {
    /// The runtime functions called, once each, in order of first call.
    fn runtime_trampoline_symbols(&self) -> (r: Vec<u16>)
        requires
            self.wf(),
        ensures
            r@ == runtime_symbols(self@.relocations),
    {
        let ghost rs = self@.relocations;
        let mut symbols: Vec<u16> = Vec::new();
        let n = self.relocations.len();
        let mut k: usize = 0;
        while k < n
            invariant
                k <= n,
                n == rs.len(),
                rs == views(self.relocations@),
                symbols@ == runtime_symbols(rs.take(k as int)),
            decreases n - k,
        {
            let r = self.relocations[k];
            assert(rs[k as int] == r@);
            assert(rs.take(k as int + 1).drop_last() =~= rs.take(k as int));
            assert(rs.take(k as int + 1).last() == r@);
            match r.target() {
                DelayedTarget::Runtime(symbol) => {
                    let mut found = false;
                    let mut i: usize = 0;
                    while i < symbols.len()
                        invariant
                            i <= symbols@.len(),
                            found == exists|w: int| 0 <= w < i && symbols@[w] == symbol,
                        decreases symbols@.len() - i,
                    {
                        if symbols[i] == symbol {
                            found = true;
                        }
                        i = i + 1;
                    }
                    if !found {
                        symbols.push(symbol);
                    }
                },
                _ => {},
            }
            k = k + 1;
        }
        assert(rs.take(n as int) =~= rs);
        symbols
    }

    /// The stencil used to jump to runtime functions.
    fn long_jump_stencil(&self) -> (r: Option<Stencil<0, 0, 1, 0>>)
        requires
            self.wf(),
        ensures
            r == long_jump_of(self.lib()),
    {
        let ins: [Location; 0] = [];
        let outs: [Location; 0] = [];
        let holes = [usize::MAX];
        assert(ins@ =~= Seq::<Location>::empty());
        assert(outs@ =~= Seq::<Location>::empty());
        assert(holes@ =~= seq![usize::MAX]);
        proof {
            lemma_wf_select_ok_in(*self.lib().long_jump, self.lib().code@.len(), self.lib().rt_symbols@.len(), self.lib().empty@.len());
        }
        match self.library.long_jump.select(&ins, &outs, &holes) {
            Some(selected) => Some(selected.stencil),
            None => None,
        }
    }

    fn final_len(&self) -> (r: usize)
        requires
            self.wf(),
            final_len_spec(self@, self.lib()) <= usize::MAX,
        ensures
            r == final_len_spec(self@, self.lib()),
    {
        proof {
            lemma_word();
        }
        let runtime_trampolines = self.runtime_trampoline_symbols();
        let n = runtime_trampolines.len();
        let l: usize = match self.long_jump_stencil() {
            Some(stencil) => stencil.code_len as usize,
            None => 0,
        };
        let w = core::mem::size_of::<usize>();
        let ghost count_spec = self@.constants.len() + n;
        let ghost x = self@.code.len() + n * l;
        let ghost f = final_len_spec(self@, self.lib());
        proof {
            assert(0 <= n * l) by (nonlinear_arith);
            assert(count_spec <= count_spec * w) by (nonlinear_arith)
                requires
                    count_spec >= 0,
                    w >= 1,
            ;
            vstd::arithmetic::div_mod::lemma_mod_bound(x, w as int);
            assert(round_up(x, w as int) >= x);
            assert(x <= f);
            assert(n * l <= x);
        }
        let code_len = self.code.len() + n * l;
        let constant_count = self.constants.len() + n;
        if constant_count == 0 {
            code_len
        } else {
            let rem = code_len % w;
            let aligned = if rem == 0 {
                code_len
            } else {
                code_len + (w - rem)
            };
            aligned + constant_count * w
        }
    }

    /// The length of the block once linked, or `None` while it has not ended.
    pub fn measure(&self) -> (r: Option<usize>)
        requires
            self.wf(),
            final_len_spec(self@, self.lib()) <= usize::MAX,
        ensures
            r == if self@.ended {
                Some(final_len_spec(self@, self.lib()) as usize)
            } else {
                None
            },
    {
        if !self.ended {
            return None;
        }
        Some(self.final_len())
    }
}

} // verus!

verus! {

/// `map` with `bytes` copied from position `at`.
pub open spec fn copy_bytes(map: Seq<u8>, at: int, bytes: Seq<u8>) -> Seq<u8> {
    Seq::new(map.len(), |i: int| if at <= i < at + bytes.len() { bytes[i - at] } else { map[i] })
}

/// `map` with `n` copies of `code`, one after the other, from `at`.
pub open spec fn trampolines_image(map: Seq<u8>, at: int, code: Seq<u8>, n: nat) -> Seq<u8>
    decreases n,
{
    if n == 0 {
        map
    } else {
        copy_bytes(trampolines_image(map, at, code, (n - 1) as nat), at + (n - 1) * code.len(), code)
    }
}

/// The entries of `data[start..end]` that patch hole 0.
pub open spec fn hole0_entries(data: Seq<Relocation>, start: int, end: int) -> Seq<u64>
    decreases end - start,
{
    if end <= start {
        Seq::empty()
    } else {
        let acc = hole0_entries(data, start, end - 1);
        if patch_info_of(data[end - 1]@) == Some(PatchInfo::Hole(0)) {
            acc.push(data[end - 1]@)
        } else {
            acc
        }
    }
}

/// The relocations of `n` trampolines of `len` bytes copied from `at`: each
/// hole 0 of trampoline `k` reads constant `first_constant + k`.
pub open spec fn trampoline_entries(
    hole0: Seq<u64>,
    at: int,
    len: int,
    n: nat,
    first_constant: int,
) -> Seq<DelayedView>
    decreases n,
{
    if n == 0 {
        Seq::empty()
    } else {
        let k = n - 1;
        trampoline_entries(hole0, at, len, (n - 1) as nat, first_constant) + hole0.map_values(
            |e: u64|
                DelayedView {
                    base: (at + k * len) as usize,
                    entry: e,
                    target: DelayedTarget::Constant((first_constant + k) as u16),
                },
        )
    }
}

/// `map` with the words written one after the other, from `at`, each in
/// big-endian order when `big` holds and little-endian order otherwise.
pub open spec fn write_words(map: Seq<u8>, at: int, words: Seq<usize>, big: bool) -> Seq<u8>
    decreases words.len(),
{
    if words.len() == 0 {
        map
    } else {
        let before = write_words(map, at, words.drop_last(), big);
        let pos = at + (words.len() - 1) * word();
        if big {
            crate::relocation::write_be_spec(before, pos, word() as nat, words.last())
        } else {
            crate::relocation::write_le_spec(before, pos, word() as nat, words.last())
        }
    }
}

/// Where the pieces of a linked block are, relative to its start.
pub struct Layout {
    /// Address of the block.
    pub block_base: int,
    /// Address of the program (block offsets are relative to it).
    pub base: int,
    pub offsets: Seq<usize>,
    /// Where the constants start.
    pub constant_base: int,
    /// The runtime functions, in the order of their trampolines.
    pub symbols: Seq<u16>,
    /// Where the trampolines start, and how long each is.
    pub trampoline_start: int,
    pub trampoline_len: int,
}

/// The address a settled relocation points at.
pub open spec fn target_address(r: DelayedView, l: Layout) -> int {
    match r.target {
        DelayedTarget::Block(b) => l.base + l.offsets[b as int],
        DelayedTarget::Constant(i) => l.block_base + l.constant_base + i * word(),
        DelayedTarget::Runtime(s) => l.block_base + l.trampoline_start + l.symbols.index_of(s)
            * l.trampoline_len,
        DelayedTarget::Next => 0,
    }
}

/// `map` with each relocation written, in order, at its location moved by
/// `shift`, pointing at its target.
pub open spec fn link_all(map: Seq<u8>, shift: int, rs: Seq<DelayedView>, l: Layout) -> Seq<u8>
    decreases rs.len(),
{
    if rs.len() == 0 {
        map
    } else {
        let r = rs.last();
        crate::relocation::write_le_spec(
            link_all(map, shift, rs.drop_last(), l),
            shift + r.location(),
            width_of(r.entry),
            crate::relocation::written_value(
                r.entry,
                r.resolve(l.block_base as usize, target_address(r, l) as usize),
            ),
        )
    }
}

pub proof fn lemma_copy_bytes_len(map: Seq<u8>, at: int, bytes: Seq<u8>)
    ensures
        copy_bytes(map, at, bytes).len() == map.len(),
{
}

pub proof fn lemma_trampolines_len(map: Seq<u8>, at: int, code: Seq<u8>, n: nat)
    ensures
        trampolines_image(map, at, code, n).len() == map.len(),
    decreases n,
{
    if n > 0 {
        lemma_trampolines_len(map, at, code, (n - 1) as nat);
    }
}

pub proof fn lemma_write_words_len(map: Seq<u8>, at: int, words: Seq<usize>, big: bool)
    ensures
        write_words(map, at, words, big).len() == map.len(),
    decreases words.len(),
{
    if words.len() > 0 {
        lemma_write_words_len(map, at, words.drop_last(), big);
    }
}

/// Copies `bytes` into `map` from position `at`.
fn copy_into(map: &mut [u8], at: usize, bytes: &[u8])
    requires
        at + bytes@.len() <= old(map)@.len(),
    ensures
        final(map)@ == copy_bytes(old(map)@, at as int, bytes@),
{
    let ghost m0 = map@;
    let n = bytes.len();
    let len = map.len();
    let mut k: usize = 0;
    while k < n
        invariant
            k <= n,
            len == m0.len(),
            n == bytes@.len(),
            at + n <= m0.len(),
            map@.len() == m0.len(),
            forall|i: int|
                0 <= i < m0.len() ==> #[trigger] map@[i] == if at <= i < at + k {
                    bytes@[i - at]
                } else {
                    m0[i]
                },
        decreases n - k,
    {
        map[at + k] = bytes[k];
        k = k + 1;
    }
    assert(map@ =~= copy_bytes(m0, at as int, bytes@));
}

/// Writes `words` one after the other from `at`, big endian when `big` holds
/// and little endian otherwise.
fn write_words_exec(map: &mut [u8], at: usize, words: &[usize], big: bool)
    requires
        at + words@.len() * word() <= old(map)@.len(),
    ensures
        final(map)@ == write_words(old(map)@, at as int, words@, big),
{
    let ghost m0 = map@;
    let w = core::mem::size_of::<usize>();
    proof {
        lemma_word();
    }
    let n = words.len();
    let len = map.len();
    let mut k: usize = 0;
    let mut pos = at;
    while k < n
        invariant
            k <= n,
            len == m0.len(),
            map@.len() == m0.len(),
            n == words@.len(),
            w == word(),
            w == 4 || w == 8,
            at + n * w <= m0.len(),
            pos == at + k * w,
            map@ == write_words(m0, at as int, words@.take(k as int), big),
        decreases n - k,
    {
        proof {
            assert((k + 1) * w <= n * w) by (nonlinear_arith)
                requires
                    k < n,
                    w > 0,
            ;
            assert((k + 1) * w == k * w + w) by (nonlinear_arith);
            assert(words@.take(k as int + 1).drop_last() =~= words@.take(k as int));
        }
        if big {
            crate::relocation::write_be(map, pos, w, words[k]);
        } else {
            crate::relocation::write_le(map, pos, w, words[k]);
        }
        pos = pos + w;
        k = k + 1;
    }
    assert(words@.take(n as int) =~= words@);
}

} // verus!

verus! {

/// Why linking a block fails, if it does: it has not ended, a jump to what
/// follows is still pending, it calls runtime functions but the library has
/// no long jump stencil, or it jumps to a block that does not exist.
pub open spec fn finalize_error<const MAX_REGS: usize>(
    v: BlockView,
    lib: StencilLibrary<MAX_REGS>,
    offsets: Seq<usize>,
) -> Option<PatchError> {
    if !v.ended {
        Some(PatchError::NotEnded)
    } else if v.pending.len() > 0 {
        Some(PatchError::InvalidEnd)
    } else if runtime_symbols(v.relocations).len() > 0 && long_jump_of(lib) is None {
        Some(PatchError::StencilNotFound)
    } else if exists|k: int|
        0 <= k < v.relocations.len() && (#[trigger] v.relocations[k].target matches DelayedTarget::Block(
            b,
        ) && b >= offsets.len()) {
        Some(PatchError::UnresolvedBlockTarget)
    } else {
        None
    }
}

/// Finalizing gets past the long jump stencil and writes the whole block:
/// it succeeds, or fails on a block target only once everything is written.
pub open spec fn writes_whole<const MAX_REGS: usize>(
    v: BlockView,
    lib: StencilLibrary<MAX_REGS>,
    offsets: Seq<usize>,
) -> bool {
    finalize_error(v, lib, offsets) is None || finalize_error(v, lib, offsets) == Some(
        PatchError::UnresolvedBlockTarget,
    )
}

/// A trampoline relocation fits before `end` and reads one of the first
/// `n_words` constants.
pub open spec fn tramp_ok(e: DelayedView, end: int, n_words: int) -> bool {
    &&& e.fits(end)
    &&& (e.target matches DelayedTarget::Constant(c) && c < n_words)
}

/// The layout of a linked block at `block_base` in a program at `base`.
pub open spec fn layout_of<const MAX_REGS: usize>(
    v: BlockView,
    lib: StencilLibrary<MAX_REGS>,
    base: int,
    block_base: int,
    offsets: Seq<usize>,
) -> Layout {
    let syms = runtime_symbols(v.relocations);
    let n = syms.len();
    let l = if n > 0 {
        long_jump_of(lib).unwrap().code_len as int
    } else {
        0
    };
    let current = v.code.len() + n * l;
    Layout {
        block_base,
        base,
        offsets,
        constant_base: if v.constants.len() == 0 && n == 0 {
            current
        } else {
            round_up(current, word())
        },
        symbols: syms,
        trampoline_start: v.code.len() as int,
        trampoline_len: l,
    }
}

/// The `word()` bytes of `v`, big endian when `big` holds and little endian
/// otherwise.
pub open spec fn word_bytes(v: usize, big: bool) -> Seq<u8> {
    Seq::new(
        word() as nat,
        |i: int| if big { crate::relocation::le_byte(v, (word() - 1 - i) as nat) } else {
            crate::relocation::le_byte(v, i as nat)
        },
    )
}

/// `usize::to_ne_bytes`: the word's bytes in the target's byte order, which
/// is either little or big endian. Which of the two is not stated: it is a
/// property of the target.
#[verifier::external_body]
fn native_bytes(v: usize) -> (r: Vec<u8>)
    ensures
        r@ == word_bytes(v, false) || r@ == word_bytes(v, true),
{
    v.to_ne_bytes().to_vec()
}

/// Whether the target stores words big endian: the bytes of 1 do not start
/// with 1.
pub(crate) fn native_big_endian() -> (r: bool) {
    let one = native_bytes(1);
    proof {
        lemma_word();
    }
    one[0] != 1
}

/// The bytes of `map` once the block is linked into it at `block_offset`:
/// its code, one long jump per runtime function called, its constants and
/// runtime function addresses (from the layout's constant base, in
/// big-endian order when `big` holds and little-endian order otherwise), and
/// every settled relocation written to point at its target.
pub open spec fn linked<const MAX_REGS: usize>(
    v: BlockView,
    lib: StencilLibrary<MAX_REGS>,
    map: Seq<u8>,
    base: int,
    block_offset: int,
    offsets: Seq<usize>,
    big: bool,
) -> Seq<u8> {
    let l = layout_of(v, lib, base, base + block_offset, offsets);
    let n = l.symbols.len();
    let m1 = copy_bytes(map, block_offset, v.code);
    let (m2, trel) = if n > 0 {
        let lj = long_jump_of(lib).unwrap();
        let code = lib.code@.subrange(lj.code_index as int, lj.code_index + lj.code_len);
        let data = lib.long_jump.relocation_data@;
        (
            trampolines_image(m1, block_offset + v.code.len(), code, n),
            trampoline_entries(
                hole0_entries(data, lj.relocation_index as int, list_end(data, lj.relocation_index as int)),
                v.code.len() as int,
                l.trampoline_len,
                n,
                v.constants.len() as int,
            ),
        )
    } else {
        (m1, Seq::empty())
    };
    let words = v.constants + l.symbols.map_values(|s: u16| lib.rt_symbols@[s as int]);
    let m3 = write_words(m2, block_offset + l.constant_base, words, big);
    link_all(m3, block_offset, v.relocations + trel, l)
}

} // verus!

verus! {

impl<const MAX_REGS: usize> PatchBlock<MAX_REGS> {
    /// Links the block into `map` at `block_base_offset`, the program being
    /// at address `base` with blocks at `blocks.offsets` (relative to `base`).
    ///
    /// The code is copied, followed by a long jump per runtime function
    /// called; then, aligned to a word, the wide constants and the runtime
    /// function addresses (in the target's byte order); then every settled relocation is
    /// written: jumps to blocks, to constants and to runtime functions (through
    /// their long jumps).
    ///
    /// On an error other than `NotEnded` and `InvalidEnd`, `map` may be partly
    /// written.
    pub fn finalize_into(
        &self,
        map: &mut [u8],
        base: usize,
        block_base_offset: usize,
        blocks: &ProgramBlocks,
    ) -> (r: Result<(), PatchError>)
        requires
            self.wf(),
            self@.ended && self@.pending.len() == 0 ==> block_base_offset + self@.code.len() <= old(map)@.len()
                && base + block_base_offset <= usize::MAX,
            writes_whole(self@, self.lib(), blocks.offsets@) ==> {
                &&& final_len_spec(self@, self.lib()) <= usize::MAX
                &&& block_base_offset + final_len_spec(self@, self.lib()) <= old(map)@.len()
                &&& base + block_base_offset + final_len_spec(self@, self.lib()) <= usize::MAX
                &&& forall|b: int|
                    0 <= b < blocks.offsets@.len() ==> base + #[trigger] blocks.offsets@[b] <= usize::MAX
            },
        ensures
            r == match finalize_error(self@, self.lib(), blocks.offsets@) {
                Some(e) => Err::<(), PatchError>(e),
                None => Ok(()),
            },
            r is Ok ==> exists|big: bool|
                final(map)@ == #[trigger] linked(
                    self@,
                    self.lib(),
                    old(map)@,
                    base as int,
                    block_base_offset as int,
                    blocks.offsets@,
                    big,
                ),
            (r == Err::<(), PatchError>(PatchError::NotEnded) || r == Err::<(), PatchError>(
                PatchError::InvalidEnd,
            )) ==> final(map)@ == old(map)@,
    {
        let big = native_big_endian();
        let r = self.link_into(map, base, block_base_offset, blocks, big);
        proof {
            if r is Ok {
                assert(final(map)@ == linked(
                    self@,
                    self.lib(),
                    old(map)@,
                    base as int,
                    block_base_offset as int,
                    blocks.offsets@,
                    big,
                ));
            }
        }
        r
    }

    /// `finalize_into` with the words stored big endian when `big` holds
    /// and little endian otherwise.
    pub(crate) fn link_into(
        &self,
        map: &mut [u8],
        base: usize,
        block_base_offset: usize,
        blocks: &ProgramBlocks,
        big: bool,
    ) -> (r: Result<(), PatchError>)
        requires
            self.wf(),
            self@.ended && self@.pending.len() == 0 ==> block_base_offset + self@.code.len() <= old(map)@.len()
                && base + block_base_offset <= usize::MAX,
            writes_whole(self@, self.lib(), blocks.offsets@) ==> {
                &&& final_len_spec(self@, self.lib()) <= usize::MAX
                &&& block_base_offset + final_len_spec(self@, self.lib()) <= old(map)@.len()
                &&& base + block_base_offset + final_len_spec(self@, self.lib()) <= usize::MAX
                &&& forall|b: int|
                    0 <= b < blocks.offsets@.len() ==> base + #[trigger] blocks.offsets@[b] <= usize::MAX
            },
        ensures
            r == match finalize_error(self@, self.lib(), blocks.offsets@) {
                Some(e) => Err::<(), PatchError>(e),
                None => Ok(()),
            },
            r is Ok ==> final(map)@ == linked(
                self@,
                self.lib(),
                old(map)@,
                base as int,
                block_base_offset as int,
                blocks.offsets@,
                big,
            ),
            (r == Err::<(), PatchError>(PatchError::NotEnded) || r == Err::<(), PatchError>(
                PatchError::InvalidEnd,
            )) ==> final(map)@ == old(map)@,
    {
        let ghost v = self@;
        let ghost lib = self.lib();
        let ghost m0 = map@;
        if !self.ended {
            return Err(PatchError::NotEnded);
        }
        if self.next_relocations.len() > 0 {
            return Err(PatchError::InvalidEnd);
        }
        proof {
            lemma_word();
            lemma_runtime_symbols(v.relocations, lib.rt_symbols@.len() as int);
        }
        let bbo = block_base_offset;
        let block_base = base + bbo;
        let runtime_trampolines = self.runtime_trampoline_symbols();
        let ghost syms = runtime_trampolines@;
        let n = runtime_trampolines.len();
        let rt_len = self.library.rt_symbols.len();
        let mut trampoline_addresses: Vec<usize> = vec![0usize; rt_len];
        let mut trampoline_relocations: Vec<DelayedRelocation> = Vec::new();
        let code_len = self.code.len();
        let mut current = code_len;
        copy_into(map, bbo, self.code.as_slice());
        let ghost m1 = map@;
        let ghost f = final_len_spec(v, lib);
        let nconst = self.constants.len();
        let ghost lay = layout_of(v, lib, base as int, block_base as int, blocks.offsets@);
        let ghost h0 = Seq::<u64>::empty();
        let ghost lj_code = Seq::<u8>::empty();
        let mut lj_len: usize = 0;
        proof {
            assert(nconst + n <= (nconst + n) * word()) by (nonlinear_arith)
                requires word() >= 1;
            if n == 0 {
                vstd::arithmetic::div_mod::lemma_mod_bound(v.code.len() as int, word());
            }
        }
        if n > 0 {
            let long_jump = match self.long_jump_stencil() {
                Some(s) => s,
                None => {
                    return Err(PatchError::StencilNotFound);
                },
            };
            let ghost lj_idx = lib.long_jump.selected(seq![], seq![], seq![usize::MAX]).unwrap().1;
            assert(lib.long_jump.stencil_ok(lj_idx, lib.code@.len(), lib.rt_symbols@.len(), lib.empty@.len()));
            let stencil_code = long_jump.code(self.library.code);
            lj_len = stencil_code.len();
            proof {
                let x = v.code.len() + n * lay.trampoline_len;
                assert(lj_len == long_jump.code_len);
                assert(0 <= n * lay.trampoline_len) by (nonlinear_arith)
                    requires lay.trampoline_len >= 0;
                vstd::arithmetic::div_mod::lemma_mod_bound(x, word());
                assert(x <= f);
                assert(nconst + n <= f);
            }
            let data = self.library.long_jump.relocation_data;
            let dlen = data.len();
            let ghost start = long_jump.relocation_index as int;
            proof {
                lj_code = stencil_code@;
                h0 = hole0_entries(data@, start, list_end(data@, start));
                assert(trampoline_entries(h0, code_len as int, lj_len as int, 0, nconst as int) =~= Seq::<DelayedView>::empty());
                assert(views(trampoline_relocations@) =~= Seq::<DelayedView>::empty());
            }
            let mut i: usize = 0;
            while i < n
                invariant
                    i <= n,
                    n == syms.len(),
                    syms == lay.symbols,
                    runtime_trampolines@ == syms,
                    syms.no_duplicates(),
                    forall|k: int| 0 <= k < syms.len() ==> #[trigger] syms[k] < rt_len,
                    rt_len == lib.rt_symbols@.len(),
                    lj_len == lay.trampoline_len,
                    lj_code == stencil_code@,
                    lj_len == lj_code.len(),
                    lj_len == long_jump.code_len,
                    nconst + n <= f,
                    long_jump == lib.long_jump.stencils@[lj_idx],
                    0 <= lj_idx < lib.long_jump.stencils@.len(),
                    lib.long_jump.stencil_ok(lj_idx, lib.code@.len(), lib.rt_symbols@.len(), lib.empty@.len()),
                    data@ == lib.long_jump.relocation_data@,
                    dlen == data@.len(),
                    start == long_jump.relocation_index,
                    h0 == hole0_entries(data@, start, list_end(data@, start)),
                    code_len == v.code.len(),
                    nconst == v.constants.len(),
                    current == code_len + i * lj_len,
                    code_len + n * lj_len <= f,
                    block_base == base + bbo,
                    bbo + f <= m0.len(),
                    block_base + f <= usize::MAX,
                    map@.len() == m0.len(),
                    map@ == trampolines_image(m1, bbo + code_len, lj_code, i as nat),
                    trampoline_addresses@.len() == rt_len,
                    forall|k: int| 0 <= k < i ==> trampoline_addresses@[#[trigger] syms[k] as int] == block_base + code_len + k * lj_len,
                    views(trampoline_relocations@) == trampoline_entries(h0, code_len as int, lj_len as int, i as nat, nconst as int),
                    forall|k: int|
                        0 <= k < trampoline_relocations@.len() ==> tramp_ok(#[trigger] views(trampoline_relocations@)[k], (code_len + i * lj_len) as int, nconst + n),
                decreases n - i,
            {
                proof {
                    assert((i + 1) * lj_len <= n * lj_len) by (nonlinear_arith)
                        requires i < n;
                    assert((i + 1) * lj_len == i * lj_len + lj_len) by (nonlinear_arith);
                }
                let symbol = runtime_trampolines[i];
                let offset = current;
                let next = current + lj_len;
                copy_into(map, bbo + current, stencil_code);
                trampoline_addresses.set(symbol as usize, block_base + offset);
                let ghost tr0 = views(trampoline_relocations@);
                let mut j = long_jump.relocation_index as usize;
                while j < dlen
                    invariant_except_break
                        list_end(data@, start) == list_end(data@, j as int),
                    invariant
                        start <= j <= dlen,
                        dlen == data@.len(),
                        data@ == lib.long_jump.relocation_data@,
                        long_jump == lib.long_jump.stencils@[lj_idx],
                        lib.long_jump.stencil_ok(lj_idx, lib.code@.len(), lib.rt_symbols@.len(), lib.empty@.len()),
                        start == long_jump.relocation_index,
                        lj_len == long_jump.code_len,
                        offset == code_len + i * lj_len,
                        offset + lj_len <= f,
                        f <= usize::MAX,
                        i < n,
                        nconst + n <= f,
                        forall|k: int| start <= k < j ==> !is_invalid_entry(#[trigger] data@[k]),
                        views(trampoline_relocations@) == tr0 + hole0_entries(data@, start, j as int).map_values(
                            |e: u64|
                                DelayedView {
                                    base: (code_len + i * lj_len) as usize,
                                    entry: e,
                                    target: DelayedTarget::Constant((nconst + i) as u16),
                                },
                        ),
                        forall|k: int|
                            0 <= k < trampoline_relocations@.len() ==> tramp_ok(#[trigger] views(trampoline_relocations@)[k], (offset + lj_len) as int, nconst + n),
                    ensures
                        j == list_end(data@, start),
                        views(trampoline_relocations@) == tr0 + hole0_entries(data@, start, list_end(data@, start)).map_values(
                            |e: u64|
                                DelayedView {
                                    base: (code_len + i * lj_len) as usize,
                                    entry: e,
                                    target: DelayedTarget::Constant((nconst + i) as u16),
                                },
                        ),
                        forall|k: int|
                            0 <= k < trampoline_relocations@.len() ==> tramp_ok(#[trigger] views(trampoline_relocations@)[k], (offset + lj_len) as int, nconst + n),
                    decreases dlen - j,
                {
                    let relocation = data[j];
                    if relocation.is_invalid() {
                        assert(list_end(data@, j as int) == j);
                        break;
                    }
                    assert(in_relocation_list(data@, start, j as int));
                    let ghost before = views(trampoline_relocations@);
                    match relocation.patch_info() {
                        Some(PatchInfo::Hole(0)) => {
                            let c: usize = nconst + i;
                            let d = DelayedRelocation::constant(offset, relocation, c as u16);
                            proof {
                                lemma_views_push(trampoline_relocations@, d);
                                assert((c as u16) <= c) by (bit_vector);
                            }
                            trampoline_relocations.push(d);
                        },
                        _ => {},
                    }
                    assert(hole0_entries(data@, start, j as int + 1).map_values(
                        |e: u64|
                            DelayedView {
                                base: (code_len + i * lj_len) as usize,
                                entry: e,
                                target: DelayedTarget::Constant((nconst + i) as u16),
                            },
                    ) =~= if patch_info_of(data@[j as int]@) == Some(PatchInfo::Hole(0)) {
                        hole0_entries(data@, start, j as int).map_values(
                            |e: u64|
                                DelayedView {
                                    base: (code_len + i * lj_len) as usize,
                                    entry: e,
                                    target: DelayedTarget::Constant((nconst + i) as u16),
                                },
                        ).push(DelayedView {
                            base: (code_len + i * lj_len) as usize,
                            entry: data@[j as int]@,
                            target: DelayedTarget::Constant((nconst + i) as u16),
                        })
                    } else {
                        hole0_entries(data@, start, j as int).map_values(
                            |e: u64|
                                DelayedView {
                                    base: (code_len + i * lj_len) as usize,
                                    entry: e,
                                    target: DelayedTarget::Constant((nconst + i) as u16),
                                },
                        )
                    });
                    j = j + 1;
                }
                current = next;
                i = i + 1;
                proof {
                    assert forall|k: int| 0 <= k < i implies trampoline_addresses@[#[trigger] syms[k] as int] == block_base + code_len + k * lj_len by {
                        if k < i - 1 {
                            assert(syms[k] != syms[i - 1]);
                        }
                    }
                }
            }
        }
        let ghost m2 = map@;
        let ghost trel = views(trampoline_relocations@);
        proof {
            if n == 0 {
                assert(trel =~= Seq::<DelayedView>::empty());
            }
            assert(current == v.code.len() + n * lay.trampoline_len);
        }
        let w = core::mem::size_of::<usize>();
        let constant_base = if nconst == 0 && n == 0 {
            current
        } else {
            let rem = current % w;
            let cb = if rem == 0 {
                current
            } else {
                current + (w - rem)
            };
            let mut words: Vec<usize> = Vec::new();
            let mut k: usize = 0;
            while k < nconst
                invariant
                    k <= nconst,
                    nconst == v.constants.len(),
                    self.constants@ == v.constants,
                    words@ == v.constants.take(k as int),
                decreases nconst - k,
            {
                words.push(self.constants[k]);
                assert(v.constants.take(k as int + 1) =~= v.constants.take(k as int).push(v.constants[k as int]));
                k = k + 1;
            }
            let mut k: usize = 0;
            while k < n
                invariant
                    k <= n,
                    n == syms.len(),
                    runtime_trampolines@ == syms,
                    forall|q: int| 0 <= q < syms.len() ==> #[trigger] syms[q] < rt_len,
                    rt_len == lib.rt_symbols@.len(),
                    self.library.rt_symbols@ == lib.rt_symbols@,
                    words@ == v.constants + syms.take(k as int).map_values(|s: u16| lib.rt_symbols@[s as int]),
                decreases n - k,
            {
                let symbol = runtime_trampolines[k];
                words.push(self.library.rt_symbols[symbol as usize]);
                assert(syms.take(k as int + 1).map_values(|s: u16| lib.rt_symbols@[s as int]) =~= syms.take(k as int).map_values(|s: u16| lib.rt_symbols@[s as int]).push(lib.rt_symbols@[symbol as int]));
                k = k + 1;
            }
            assert(syms.take(n as int) =~= syms);
            assert(v.constants.take(nconst as int) =~= v.constants);
            write_words_exec(map, bbo + cb, words.as_slice(), big);
            cb
        };
        let ghost m3 = map@;
        assert(m3 == write_words(m2, bbo + lay.constant_base, v.constants + syms.map_values(|s: u16| lib.rt_symbols@[s as int]), big));
        proof {
            assert(constant_base == lay.constant_base);
            if nconst + n > 0 {
                assert(f == constant_base + (nconst + n) * word());
            }
        }
        let ghost all = v.relocations + trel;
        let nrel = self.relocations.len();
        let mut all_relocations = self.relocations.clone();
        assert(views(all_relocations@) =~= v.relocations);
        all_relocations.append(&mut trampoline_relocations);
        assert(views(all_relocations@) =~= all);
        let total = all_relocations.len();
        proof {
            lemma_copy_bytes_len(m0, bbo as int, v.code);
            lemma_trampolines_len(m1, bbo + code_len, lj_code, n as nat);
            lemma_write_words_len(m2, bbo + lay.constant_base, v.constants + syms.map_values(|s: u16| lib.rt_symbols@[s as int]), big);
        }
        let mut k: usize = 0;
        while k < total
            invariant
                k <= total,
                nrel == v.relocations.len(),
                total == all.len(),
                all == v.relocations + trel,
                views(all_relocations@) == all,
                v.ended,
                v.pending.len() == 0,
                n > 0 ==> long_jump_of(lib) is Some,
                rt_len == lib.rt_symbols@.len(),
                views(self.relocations@) == v.relocations,
                self.wf(),
                self@ == v,
                self.lib() == lib,
                lay == layout_of(v, lib, base as int, block_base as int, blocks.offsets@),
                syms == lay.symbols,
                constant_base == lay.constant_base,
                nconst + n > 0 ==> f == constant_base + (nconst + n) * word(),
                nconst == v.constants.len(),
                n == syms.len(),
                code_len == v.code.len(),
                lj_len == lay.trampoline_len,
                block_base == base + bbo,
                bbo + f <= m0.len(),
                block_base + f <= usize::MAX,
                w == word(),
                w == 4 || w == 8,
                f <= usize::MAX,
                code_len <= f,
                code_len + n * lj_len <= f,
                forall|b: int| 0 <= b < blocks.offsets@.len() ==> base + #[trigger] blocks.offsets@[b] <= usize::MAX,
                forall|q: int| 0 <= q < trel.len() ==> tramp_ok(#[trigger] trel[q], (code_len + n * lj_len) as int, nconst + n),
                forall|q: int| 0 <= q < syms.len() ==> trampoline_addresses@[#[trigger] syms[q] as int] == block_base + code_len + q * lj_len,
                trampoline_addresses@.len() == rt_len,
                forall|q: int| 0 <= q < v.relocations.len() ==> (#[trigger] v.relocations[q].target matches DelayedTarget::Runtime(sy) ==> syms.contains(sy)),
                forall|q: int| 0 <= q < k ==> !(#[trigger] all[q].target matches DelayedTarget::Block(b) && b >= blocks.offsets@.len()),
                map@.len() == m0.len(),
                map@ == link_all(m3, bbo as int, all.take(k as int), lay),
            decreases total - k,
        {
            let r = all_relocations[k];
            assert(all[k as int] == r@);
            proof {
                if k < nrel {
                    assert(settled_ok(v.relocations[k as int], code_len as int, nconst as int, rt_len as int));
                } else {
                    assert(tramp_ok(trel[k - nrel], (code_len + n * lj_len) as int, nconst + n));
                }
            }
            let target: usize = match r.target() {
                DelayedTarget::Block(b) => {
                    match blocks.resolve_target(b) {
                        Some(t) => base + t,
                        None => {
                            assert(finalize_error(v, lib, blocks.offsets@) == Some(PatchError::UnresolvedBlockTarget)) by {
                                assert(v.relocations[k as int] == all[k as int]);
                            }
                            return Err(PatchError::UnresolvedBlockTarget);
                        },
                    }
                },
                DelayedTarget::Constant(c) => {
                    proof {
                        assert((c + 1) * word() <= (nconst + n) * word()) by (nonlinear_arith)
                            requires c < nconst + n, word() >= 0;
                        assert((c + 1) * word() == c * word() + word()) by (nonlinear_arith);
                    }
                    block_base + constant_base + c as usize * w
                },
                DelayedTarget::Runtime(sy) => {
                    proof {
                        assert(syms.contains(sy));
                        let q = syms.index_of(sy);
                        assert(syms[q] == sy);
                    }
                    trampoline_addresses[sy as usize]
                },
                DelayedTarget::Next => {
                    proof {
                        assert(false);
                    }
                    0
                },
            };
            assert(target == target_address(r@, lay));
            let value = r.resolve(block_base, target);
            r.apply_at(map, bbo, value);
            assert(all.take(k as int + 1).drop_last() =~= all.take(k as int));
            k = k + 1;
        }
        assert(all.take(total as int) =~= all);
        assert forall|q: int| 0 <= q < v.relocations.len() implies !(#[trigger] v.relocations[q].target matches DelayedTarget::Block(b) && b >= blocks.offsets@.len()) by {
            assert(all[q] == v.relocations[q]);
        }
        assert(finalize_error(v, lib, blocks.offsets@) is None);
        Ok(())
    }
}

} // verus!

verus! {

/// Stack-slot patches take the slots in order: the `m`-th stack-slot patch
/// of a stencil gets the slot of the `m`-th location on the stack, counting
/// the locations in their given order (inputs first, then outputs, see
/// `lemma_stack_slots_concat`).
pub proof fn lemma_stack_slots_in_order(s: Seq<Location>)
    ensures
        stack_slots(s).len() == stack_count(s),
        forall|k: int|
            0 <= k < s.len() ==> (#[trigger] s[k] matches Location::Stack(i) ==> stack_slots(s)[stack_count(
                s.take(k),
            ) as int] == i as usize),
    decreases s.len(),
{
    if s.len() > 0 {
        let t = s.drop_last();
        lemma_stack_slots_in_order(t);
        assert forall|k: int|
            0 <= k < s.len() implies (#[trigger] s[k] matches Location::Stack(i) ==> stack_slots(s)[stack_count(
                s.take(k),
            ) as int] == i as usize) by {
            if k < t.len() {
                assert(s[k] == t[k]);
                assert(s.take(k) =~= t.take(k));
                if s[k] is Stack {
                    lemma_stack_count_take(t, k);
                }
            } else {
                assert(s.take(k) =~= t);
            }
        }
    }
}

proof fn lemma_stack_count_take(t: Seq<Location>, k: int)
    requires
        0 <= k < t.len(),
        t[k] is Stack,
    ensures
        stack_count(t.take(k)) < stack_count(t),
    decreases t.len(),
{
    if k < t.len() - 1 {
        let u = t.drop_last();
        assert(u.take(k) =~= t.take(k));
        assert(u[k] == t[k]);
        lemma_stack_count_take(u, k);
    } else {
        assert(t.take(k) =~= t.drop_last());
    }
}

/// The slots of the inputs come before those of the outputs.
pub proof fn lemma_stack_slots_concat(a: Seq<Location>, b: Seq<Location>)
    ensures
        stack_slots(a + b) == stack_slots(a) + stack_slots(b),
    decreases b.len(),
{
    if b.len() == 0 {
        assert(a + b =~= a);
        assert(stack_slots(a) + stack_slots(b) =~= stack_slots(a));
    } else {
        lemma_stack_slots_concat(a, b.drop_last());
        assert((a + b).drop_last() =~= a + b.drop_last());
        assert((a + b).last() == b.last());
        match b.last() {
            Location::Stack(i) => {
                assert(stack_slots(a) + stack_slots(b.drop_last()).push(i as usize) =~= (stack_slots(a)
                    + stack_slots(b.drop_last())).push(i as usize));
            },
            Location::Register(_) => {},
        }
    }
}

/// In a wide stencil every hole is read from a constant slot of its own:
/// the relocation each hole adds points at a slot added with it, later
/// holes at later slots, and that slot holds the hole's value. What was
/// there before stays.
pub proof fn lemma_wide_holes_read_their_values(
    st0: PatchState,
    data: Seq<Relocation>,
    start: int,
    j: int,
    from: usize,
    stack_vars: Seq<usize>,
    holes: Seq<usize>,
    jumps: Seq<JumpTarget>,
)
    requires
        start <= j,
        st0.constants.len() + (j - start) <= 0x10000,
    ensures
        ({
            let st = patch_run(st0, data, start, j, from, true, stack_vars, holes, jumps);
            &&& st0.constants.len() <= st.constants.len() <= st0.constants.len() + (j - start)
            &&& forall|c: int| 0 <= c < st0.constants.len() ==> st.constants[c] == st0.constants[c]
            &&& st0.relocations.len() <= st.relocations.len()
            &&& forall|k: int| 0 <= k < st0.relocations.len() ==> st.relocations[k] == st0.relocations[k]
            &&& forall|k: int|
                st0.relocations.len() <= k < st.relocations.len() && patch_info_of(
                    #[trigger] st.relocations[k].entry,
                ) is Some && patch_info_of(st.relocations[k].entry)->Some_0 is Hole ==> {
                    let t = st.relocations[k].target;
                    let i = patch_info_of(st.relocations[k].entry)->Some_0->Hole_0;
                    &&& t is Constant
                    &&& st0.constants.len() <= t->Constant_0 < st.constants.len()
                    &&& st.constants[t->Constant_0 as int] == holes[i as int]
                }
            &&& forall|k: int|
                st0.relocations.len() <= k < st.relocations.len() && (#[trigger] st.relocations[k].target) is Constant
                    ==> st0.constants.len() <= st.relocations[k].target->Constant_0 < st.constants.len()
            &&& forall|k1: int, k2: int|
                st0.relocations.len() <= k1 < k2 < st.relocations.len() && (#[trigger] st.relocations[k1].target) is Constant
                    && (#[trigger] st.relocations[k2].target) is Constant ==> st.relocations[k1].target->Constant_0
                    < st.relocations[k2].target->Constant_0
        }),
    decreases j - start,
{
    if j > start {
        lemma_wide_holes_read_their_values(st0, data, start, j - 1, from, stack_vars, holes, jumps);
        let prev = patch_run(st0, data, start, j - 1, from, true, stack_vars, holes, jumps);
        let st = patch_run(st0, data, start, j, from, true, stack_vars, holes, jumps);
        let b = data[j - 1]@;
        assert(st == patch_step(prev, b, from, true, stack_vars, holes, jumps));
        let n0 = st0.relocations.len() as int;
        match patch_info_of(b) {
            Some(PatchInfo::Hole(i)) => {
                let r = DelayedView {
                    base: from,
                    entry: b,
                    target: DelayedTarget::Constant(prev.constants.len() as u16),
                };
                assert(st.relocations == prev.relocations.push(r));
                assert(st.constants == prev.constants.push(holes[i as int]));
                assert((prev.constants.len() as u16) as int == prev.constants.len());
                assert forall|k: int| 0 <= k < prev.relocations.len() implies st.relocations[k] == prev.relocations[k] by {}
                assert forall|c: int| 0 <= c < prev.constants.len() implies st.constants[c] == prev.constants[c] by {}
                assert(st.relocations[prev.relocations.len() as int] == r);
            },
            _ => {
                assert(st.constants == prev.constants);
                match crate::relocation::delayed_target_of(b, jumps) {
                    Some(DelayedTarget::Next) => {
                        assert(st.relocations == prev.relocations);
                    },
                    Some(t) => {
                        let r = DelayedView { base: from, entry: b, target: t };
                        assert(st.relocations == prev.relocations.push(r));
                        assert(!(t is Constant));
                        assert(!(patch_info_of(b) is Some && patch_info_of(b)->Some_0 is Hole));
                        assert forall|k: int| 0 <= k < prev.relocations.len() implies st.relocations[k]
                            == prev.relocations[k] by {}
                        assert(st.relocations[prev.relocations.len() as int] == r);
                    },
                    None => {
                        assert(st.relocations == prev.relocations);
                    },
                }
            },
        }
    }
}

} // verus!

verus! {

/// Writing bytes elsewhere leaves what reads back from a range alone.
proof fn lemma_read_le_write_disjoint(d: Seq<u8>, at: int, n: nat, at2: int, n2: nat, v: usize)
    requires
        0 <= at,
        at + n <= d.len(),
        at2 + n2 <= at || at + n <= at2,
    ensures
        crate::relocation::read_le_spec(crate::relocation::write_le_spec(d, at2, n2, v), at, n)
            == crate::relocation::read_le_spec(d, at, n),
    decreases n,
{
    if n > 0 {
        lemma_read_le_write_disjoint(d, at, (n - 1) as nat, at2, n2, v);
        assert(crate::relocation::write_le_spec(d, at2, n2, v)[at + n - 1] == d[at + n - 1]);
    }
}

/// What `link_all` writes for a relocation that no later one overwrites
/// reads back as the value it resolves for its target.
proof fn lemma_link_all_reads(map: Seq<u8>, shift: int, rs: Seq<DelayedView>, l: Layout, k: int)
    requires
        0 <= k < rs.len(),
        writable(rs[k].entry, shift + rs[k].base, map.len() as int),
        forall|m: int|
            k < m < rs.len() ==> end_of(#[trigger] rs[m]) <= rs[k].location() || end_of(rs[k]) <= rs[m].location(),
    ensures
        crate::relocation::read_le_spec(link_all(map, shift, rs, l), shift + rs[k].location(), width_of(rs[k].entry))
            == crate::relocation::written_value(
            rs[k].entry,
            rs[k].resolve(l.block_base as usize, target_address(rs[k], l) as usize),
        ) as nat % vstd::arithmetic::power2::pow2(8 * width_of(rs[k].entry)),
    decreases rs.len(),
{
    let t = rs.drop_last();
    let r = rs.last();
    crate::managed::lemma_link_all_len(map, shift, t, l);
    let dest = link_all(map, shift, t, l);
    let value = crate::relocation::written_value(r.entry, r.resolve(l.block_base as usize, target_address(r, l) as usize));
    if k == rs.len() - 1 {
        crate::relocation::lemma_patch_reads_back(
            r.entry,
            dest,
            shift + r.base,
            r.resolve(l.block_base as usize, target_address(r, l) as usize),
        );
        assert(shift + r.base + offset_field(r.entry) == shift + r.location());
    } else {
        assert forall|m: int| k < m < t.len() implies end_of(#[trigger] t[m]) <= t[k].location() || end_of(t[k])
            <= t[m].location() by {
            assert(t[m] == rs[m]);
        }
        assert(t[k] == rs[k]);
        lemma_link_all_reads(map, shift, t, l, k);
        assert(end_of(rs[rs.len() - 1]) <= rs[k].location() || end_of(rs[k]) <= rs[rs.len() - 1].location());
        lemma_read_le_write_disjoint(
            dest,
            shift + rs[k].location(),
            width_of(rs[k].entry),
            shift + r.location(),
            width_of(r.entry),
            value,
        );
    }
}

/// The trampolines' relocations lie from `at` on.
proof fn lemma_trampoline_bases(hole0: Seq<u64>, at: int, len: int, n: nat, first_constant: int)
    requires
        0 <= at,
        0 <= len,
        at + n * len <= usize::MAX,
    ensures
        forall|j: int|
            0 <= j < trampoline_entries(hole0, at, len, n, first_constant).len() ==> #[trigger] trampoline_entries(
                hole0,
                at,
                len,
                n,
                first_constant,
            )[j].base >= at,
    decreases n,
{
    if n > 0 {
        let k = n - 1;
        assert(k * len <= n * len) by (nonlinear_arith)
            requires
                k <= n,
                0 <= len,
        ;
        assert(0 <= k * len) by (nonlinear_arith)
            requires
                0 <= k,
                0 <= len,
        ;
        lemma_trampoline_bases(hole0, at, len, (n - 1) as nat, first_constant);
        let prev = trampoline_entries(hole0, at, len, (n - 1) as nat, first_constant);
        let all = trampoline_entries(hole0, at, len, n, first_constant);
        assert forall|j: int| 0 <= j < all.len() implies #[trigger] all[j].base >= at by {
            if j >= prev.len() {
                assert(all[j].base == (at + k * len) as usize);
            } else {
                assert(all[j] == prev[j]);
            }
        }
    }
}

/// Linking points a jump to another block at that block's address: the
/// program's base plus the block's offset (block offsets are relative to
/// the program's base). The bytes of a settled relocation of the block to
/// block `b`, unless a later relocation overwrites them, read back as the
/// value written for the address `base + offsets[b]`, resolved from where
/// the relocation lies in the program (`base + block_offset` plus its
/// location) and with its addend: for a relative jump, the displacement to
/// that address.
pub proof fn lemma_block_jumps_land<const MAX_REGS: usize>(
    v: BlockView,
    lib: StencilLibrary<MAX_REGS>,
    map: Seq<u8>,
    base: int,
    block_offset: int,
    offsets: Seq<usize>,
    big: bool,
    k: int,
    b: u16,
)
    requires
        0 <= k < v.relocations.len(),
        v.relocations[k].target == DelayedTarget::Block(b),
        forall|j: int| 0 <= j < v.relocations.len() ==> (#[trigger] v.relocations[j]).fits(v.code.len() as int),
        forall|j: int|
            k < j < v.relocations.len() ==> end_of(#[trigger] v.relocations[j]) <= v.relocations[k].location() || end_of(
                v.relocations[k],
            ) <= v.relocations[j].location(),
        0 <= block_offset,
        block_offset + v.code.len() <= map.len(),
        final_len_spec(v, lib) <= usize::MAX,
        runtime_symbols(v.relocations).len() > 0 ==> long_jump_of(lib) is Some,
    ensures
        crate::relocation::read_le_spec(
            linked(v, lib, map, base, block_offset, offsets, big),
            block_offset + v.relocations[k].location(),
            width_of(v.relocations[k].entry),
        ) == crate::relocation::written_value(
            v.relocations[k].entry,
            v.relocations[k].resolve((base + block_offset) as usize, (base + offsets[b as int]) as usize),
        ) as nat % vstd::arithmetic::power2::pow2(8 * width_of(v.relocations[k].entry)),
{
    let l = layout_of(v, lib, base, base + block_offset, offsets);
    let n = l.symbols.len();
    let m1 = copy_bytes(map, block_offset, v.code);
    lemma_copy_bytes_len(map, block_offset, v.code);
    let words = v.constants + l.symbols.map_values(|s: u16| lib.rt_symbols@[s as int]);
    let r = v.relocations[k];
    assert(r.fits(v.code.len() as int));
    lemma_word();
    if n > 0 {
        let lj = long_jump_of(lib).unwrap();
        let code = lib.code@.subrange(lj.code_index as int, lj.code_index + lj.code_len);
        let data = lib.long_jump.relocation_data@;
        lemma_trampolines_len(m1, block_offset + v.code.len(), code, n);
        let m2 = trampolines_image(m1, block_offset + v.code.len(), code, n);
        lemma_write_words_len(m2, block_offset + l.constant_base, words, big);
        let m3 = write_words(m2, block_offset + l.constant_base, words, big);
        let trel = trampoline_entries(
            hole0_entries(data, lj.relocation_index as int, list_end(data, lj.relocation_index as int)),
            v.code.len() as int,
            l.trampoline_len,
            n,
            v.constants.len() as int,
        );
        let cl = v.code.len() + n * l.trampoline_len;
        assert(cl <= final_len_spec(v, lib)) by {
            assert(cl <= round_up(cl, word()));
        }
        lemma_trampoline_bases(
            hole0_entries(data, lj.relocation_index as int, list_end(data, lj.relocation_index as int)),
            v.code.len() as int,
            l.trampoline_len,
            n,
            v.constants.len() as int,
        );
        let rs = v.relocations + trel;
        assert(rs[k] == r);
        assert forall|m: int| k < m < rs.len() implies end_of(#[trigger] rs[m]) <= rs[k].location() || end_of(rs[k])
            <= rs[m].location() by {
            if m < v.relocations.len() {
                assert(rs[m] == v.relocations[m]);
            } else {
                assert(rs[m] == trel[m - v.relocations.len()]);
                assert(trel[m - v.relocations.len()].base >= v.code.len());
            }
        }
        lemma_link_all_reads(m3, block_offset, rs, l, k);
    } else {
        lemma_write_words_len(m1, block_offset + l.constant_base, words, big);
        let m3 = write_words(m1, block_offset + l.constant_base, words, big);
        let rs = v.relocations + Seq::<DelayedView>::empty();
        assert(rs =~= v.relocations);
        lemma_link_all_reads(m3, block_offset, rs, l, k);
    }
}

} // verus!
