//! Assigning value slots to registers and stack slots.
use vstd::prelude::*;

use slab::Slab;

use crate::stencils::Location;

verus! {

#[verifier::external_type_specification]
#[verifier::external_body]
#[verifier::reject_recursive_types(T)]
pub struct ExSlab<T>(Slab<T>);

/// The keys occupied in a slab of unit values.
pub uninterp spec fn unit_slab_keys(s: Slab<()>) -> Set<usize>;

/// The vacant keys of a slab of unit values in the order they are reused,
/// ending with the key after the last entry.
pub uninterp spec fn unit_slab_vacancies(s: Slab<()>) -> Seq<usize>;

/// The occupied entries of a slab of locations.
pub uninterp spec fn location_slab_entries(s: Slab<Location>) -> Map<usize, Location>;

/// The vacant keys of a slab of locations in the order they are reused,
/// ending with the key after the last entry.
pub uninterp spec fn location_slab_vacancies(s: Slab<Location>) -> Seq<usize>;

/// The empty map of locations.
pub open spec fn no_locations() -> Map<usize, Location> {
    Map::empty()
}

/// `Slab::with_capacity`: an empty slab (its first insertion takes key 0).
#[verifier::external_body]
fn unit_slab_with_capacity(capacity: usize) -> (r: Slab<()>)
    ensures
        unit_slab_keys(r) == Set::<usize>::empty(),
        unit_slab_vacancies(r) == seq![0usize],
{
    Slab::with_capacity(capacity)
}

/// `Slab::new` (what `Default` gives): an empty slab.
#[verifier::external_body]
fn unit_slab_new() -> (r: Slab<()>)
    ensures
        unit_slab_keys(r) == Set::<usize>::empty(),
        unit_slab_vacancies(r) == seq![0usize],
{
    Slab::new()
}

/// `Slab::new` (what `Default` gives): an empty slab.
#[verifier::external_body]
fn location_slab_new() -> (r: Slab<Location>)
    ensures
        location_slab_entries(r) == no_locations(),
        location_slab_vacancies(r) == seq![0usize],
{
    Slab::new()
}

/// `Slab::insert`: the value goes to the first vacant key, which comes back;
/// after the last entry, the next vacant key is the one after it.
#[verifier::external_body]
fn unit_slab_insert(s: &mut Slab<()>) -> (key: usize)
    requires
        unit_slab_vacancies(*old(s)).len() >= 1,
        unit_slab_vacancies(*old(s)).len() == 1 ==> unit_slab_vacancies(*old(s))[0] < usize::MAX,
    ensures
        key == unit_slab_vacancies(*old(s))[0],
        unit_slab_keys(*final(s)) == unit_slab_keys(*old(s)).insert(key),
        unit_slab_vacancies(*final(s)) == if unit_slab_vacancies(*old(s)).len() == 1 {
            seq![(key + 1) as usize]
        } else {
            unit_slab_vacancies(*old(s)).drop_first()
        },
{
    s.insert(())
}

/// `Slab::insert`: the value goes to the first vacant key, which comes back;
/// after the last entry, the next vacant key is the one after it.
#[verifier::external_body]
fn location_slab_insert(s: &mut Slab<Location>, value: Location) -> (key: usize)
    requires
        location_slab_vacancies(*old(s)).len() >= 1,
        location_slab_vacancies(*old(s)).len() == 1 ==> location_slab_vacancies(*old(s))[0]
            < usize::MAX,
    ensures
        key == location_slab_vacancies(*old(s))[0],
        location_slab_entries(*final(s)) == location_slab_entries(*old(s)).insert(key, value),
        location_slab_vacancies(*final(s)) == if location_slab_vacancies(*old(s)).len() == 1 {
            seq![(key + 1) as usize]
        } else {
            location_slab_vacancies(*old(s)).drop_first()
        },
{
    s.insert(value)
}

/// `Slab::remove` of an occupied key: the key becomes the first vacant one.
#[verifier::external_body]
fn unit_slab_remove(s: &mut Slab<()>, key: usize)
    requires
        unit_slab_keys(*old(s)).contains(key),
    ensures
        unit_slab_keys(*final(s)) == unit_slab_keys(*old(s)).remove(key),
        unit_slab_vacancies(*final(s)) == seq![key] + unit_slab_vacancies(*old(s)),
{
    s.remove(key);
}

/// `Slab::remove` of an occupied key: its value comes back and the key
/// becomes the first vacant one.
#[verifier::external_body]
fn location_slab_remove(s: &mut Slab<Location>, key: usize) -> (r: Location)
    requires
        location_slab_entries(*old(s)).dom().contains(key),
    ensures
        r == location_slab_entries(*old(s))[key],
        location_slab_entries(*final(s)) == location_slab_entries(*old(s)).remove(key),
        location_slab_vacancies(*final(s)) == seq![key] + location_slab_vacancies(*old(s)),
{
    s.remove(key)
}

/// `Slab::len`: the number of occupied keys.
#[verifier::external_body]
fn unit_slab_len(s: &Slab<()>) -> (r: usize)
    ensures
        r == unit_slab_keys(*s).len(),
{
    s.len()
}

/// `Slab::len`: the number of occupied keys.
#[verifier::external_body]
fn location_slab_len(s: &Slab<Location>) -> (r: usize)
    ensures
        r == location_slab_entries(*s).len(),
{
    s.len()
}

/// Indexing a slab at an occupied key.
#[verifier::external_body]
fn location_slab_get(s: &Slab<Location>, key: usize) -> (r: Location)
    requires
        location_slab_entries(*s).dom().contains(key),
    ensures
        r == location_slab_entries(*s)[key],
{
    s[key]
}

} // verus!

verus! {

/// A block of the function being built.
#[derive(Copy, Clone, PartialEq, Eq, Structural, Debug)]
pub struct BlockId(pub u16);

/// A variable: a value slot, and the block it was created in.
#[derive(Copy, Clone, PartialEq, Eq, Structural, Debug)]
pub struct Value {
    slot: u16,
    pub scope: BlockId,
}

impl Value {
    pub closed spec fn slot_spec(&self) -> u16 {
        self.slot
    }

    pub closed spec fn scope_spec(&self) -> BlockId {
        self.scope
    }

    /// The block the variable was created in.
    pub fn scope(&self) -> (r: BlockId)
        ensures
            r == self.scope_spec(),
    {
        self.scope
    }

    /// The value slot of the variable.
    pub fn slot(&self) -> (r: u16)
        ensures
            r == self.slot_spec(),
    {
        self.slot
    }
}

/// The shape of a slab's keys: the vacant keys, in the order they are
/// reused, are distinct and unoccupied and end with the key after the last
/// entry, which is above every other key; every key below it is either
/// occupied or vacant.
pub open spec fn slab_shape(keys: Set<usize>, vac: Seq<usize>) -> bool {
    &&& keys.finite()
    &&& vac.len() >= 1
    &&& vac.no_duplicates()
    &&& forall|i: int| 0 <= i < vac.len() ==> !keys.contains(#[trigger] vac[i])
    &&& forall|i: int| 0 <= i < vac.len() - 1 ==> #[trigger] vac[i] < vac.last()
    &&& forall|k: usize| keys.contains(k) ==> k < vac.last()
    &&& vac.last() == keys.len() + vac.len() - 1
}

/// Assigns each live variable its own location: a register while fewer than
/// `register_count` are in use, a stack slot otherwise.
pub struct Allocator {
    slots: Slab<Location>,
    registers: Slab<()>,
    stack_slots: Slab<()>,
    stack_size: u16,
    /// The registers the allocator was made with.
    register_count: usize,
}

/// What an allocator holds.
pub struct AllocatorView {
    /// The location of each live value slot.
    pub slots: Map<usize, Location>,
    /// Free value slots, in the order they are reused.
    pub free_slots: Seq<usize>,
    pub registers: Set<usize>,
    /// Free registers, in the order they are reused.
    pub free_registers: Seq<usize>,
    pub stack: Set<usize>,
    /// Free stack slots, in the order they are reused.
    pub free_stack: Seq<usize>,
    /// One past the highest stack slot ever used.
    pub stack_size: u16,
    pub register_count: usize,
}

impl View for Allocator {
    type V = AllocatorView;

    closed spec fn view(&self) -> AllocatorView {
        AllocatorView {
            slots: location_slab_entries(self.slots),
            free_slots: location_slab_vacancies(self.slots),
            registers: unit_slab_keys(self.registers),
            free_registers: unit_slab_vacancies(self.registers),
            stack: unit_slab_keys(self.stack_slots),
            free_stack: unit_slab_vacancies(self.stack_slots),
            stack_size: self.stack_size,
            register_count: self.register_count,
        }
    }
}

impl AllocatorView {
    /// The allocator's invariant: the slabs keep their shape, every live
    /// slot has its own location and every register or stack slot in use
    /// belongs to exactly one live slot; registers stay below the register
    /// count, stack slots below the stack size, and there are fewer than
    /// `u16::MAX` slots.
    pub open spec fn wf(self) -> bool {
        &&& slab_shape(self.slots.dom(), self.free_slots)
        &&& slab_shape(self.registers, self.free_registers)
        &&& slab_shape(self.stack, self.free_stack)
        &&& self.register_count <= 0x10000
        &&& self.free_registers.last() <= self.register_count
        &&& self.free_stack.last() <= 0xffff
        &&& self.free_slots.last() <= 0xffff
        &&& self.registers.len() + self.stack.len() == self.slots.dom().len()
        &&& forall|s: usize|
            #[trigger] self.slots.dom().contains(s) ==> match self.slots[s] {
                Location::Register(r) => self.registers.contains(r as usize),
                Location::Stack(t) => self.stack.contains(t as usize),
            }
        &&& forall|r: usize|
            #[trigger] self.registers.contains(r) ==> r < 0x10000 && exists|s: usize|
                self.slots.dom().contains(s) && self.slots[s] == Location::Register(r as u16)
        &&& forall|t: usize|
            #[trigger] self.stack.contains(t) ==> t < self.stack_size && exists|s: usize|
                self.slots.dom().contains(s) && self.slots[s] == Location::Stack(t as u16)
        &&& forall|s1: usize, s2: usize|
            #[trigger] self.slots.dom().contains(s1) && #[trigger] self.slots.dom().contains(s2)
                && s1 != s2 ==> self.slots[s1] != self.slots[s2]
    }
}

} // verus!

verus! {

/// The keys `from..=to` in order.
pub open spec fn key_range(from: int, to: int) -> Seq<usize> {
    Seq::new((to - from + 1) as nat, |j: int| (from + j) as usize)
}

impl Allocator {
    /// An allocator with `regs` registers, handed out from register 0 up.
    pub fn new(regs: usize) -> (r: Self)
        requires
            regs <= 0x10000,
        ensures
            r@.wf(),
            r@.slots == no_locations(),
            r@.registers == Set::<usize>::empty(),
            r@.stack == Set::<usize>::empty(),
            r@.free_registers == key_range(0, regs as int),
            r@.free_stack == seq![0usize],
            r@.free_slots == seq![0usize],
            r@.stack_size == 0,
            r@.register_count == regs,
    {
        let mut reg_pool = unit_slab_with_capacity(regs);
        let mut k: usize = 0;
        while k < regs
            invariant
                k <= regs <= 0x10000,
                unit_slab_vacancies(reg_pool) == seq![k],
                unit_slab_keys(reg_pool).finite(),
                unit_slab_keys(reg_pool).len() == k,
                forall|x: usize| #[trigger] unit_slab_keys(reg_pool).contains(x) <==> x < k,
            decreases regs - k,
        {
            let ghost before = unit_slab_keys(reg_pool);
            let key = unit_slab_insert(&mut reg_pool);
            assert(!before.contains(key));
            assert(unit_slab_keys(reg_pool).len() == k + 1);
            k = k + 1;
        }
        let mut i = regs;
        while i > 0
            invariant
                i <= regs <= 0x10000,
                unit_slab_vacancies(reg_pool) == key_range(i as int, regs as int),
                unit_slab_keys(reg_pool).finite(),
                forall|x: usize| #[trigger] unit_slab_keys(reg_pool).contains(x) <==> x < i,
            decreases i,
        {
            i = i - 1;
            unit_slab_remove(&mut reg_pool, i);
            assert(unit_slab_vacancies(reg_pool) =~= key_range(i as int, regs as int));
        }
        assert(unit_slab_keys(reg_pool) =~= Set::<usize>::empty());
        let r = Self {
            registers: reg_pool,
            slots: location_slab_new(),
            stack_slots: unit_slab_new(),
            stack_size: 0,
            register_count: regs,
        };
        proof {
            let v = r@;
            assert(v.slots.dom() =~= Set::<usize>::empty());
            assert(key_range(0, regs as int).no_duplicates());
        }
        r
    }

    /// One past the highest stack slot ever used.
    pub fn stack_size(&self) -> (r: u16)
        ensures
            r == self@.stack_size,
    {
        self.stack_size
    }

    /// The number of live variables.
    pub fn live_values(&self) -> (r: usize)
        ensures
            r == self@.slots.dom().len(),
    {
        location_slab_len(&self.slots)
    }

    /// The number of registers in use.
    pub fn registers_in_use(&self) -> (r: usize)
        ensures
            r == self@.registers.len(),
    {
        unit_slab_len(&self.registers)
    }

    /// Where a live variable is.
    pub fn location(&self, value: &Value) -> (r: Location)
        requires
            self@.slots.dom().contains(value.slot_spec() as usize),
        ensures
            r == self@.slots[value.slot_spec() as usize],
    {
        location_slab_get(&self.slots, value.slot as usize)
    }
}

} // verus!

verus! {

/// The vacant keys after an insertion took the first one.
pub open spec fn after_insert(vac: Seq<usize>) -> Seq<usize> {
    if vac.len() == 1 {
        seq![(vac[0] + 1) as usize]
    } else {
        vac.drop_first()
    }
}

/// Inserting at the first vacant key keeps a slab's shape.
proof fn lemma_shape_insert(keys: Set<usize>, vac: Seq<usize>)
    requires
        slab_shape(keys, vac),
        vac.len() == 1 ==> vac[0] < usize::MAX,
    ensures
        slab_shape(keys.insert(vac[0]), after_insert(vac)),
        keys.insert(vac[0]).len() == keys.len() + 1,
        vac[0] <= vac.last(),
        vac.len() == 1 ==> vac[0] == keys.len(),
{
    let k = vac[0];
    let nk = keys.insert(k);
    let nv = after_insert(vac);
    assert(!keys.contains(k));
    if vac.len() > 1 {
        assert(nv.last() == vac.last());
        assert forall|i: int| 0 <= i < nv.len() implies !nk.contains(#[trigger] nv[i]) by {
            assert(nv[i] == vac[i + 1]);
        }
        assert forall|i: int| 0 <= i < nv.len() - 1 implies #[trigger] nv[i] < nv.last() by {
            assert(nv[i] == vac[i + 1]);
        }
        assert(nv.no_duplicates()) by {
            assert forall|i: int, j: int| 0 <= i < nv.len() && 0 <= j < nv.len() && i != j implies nv[i] != nv[j] by {
                assert(nv[i] == vac[i + 1] && nv[j] == vac[j + 1]);
            }
        }
        assert(k < vac.last());
    }
}

/// Removing an occupied key keeps a slab's shape.
proof fn lemma_shape_remove(keys: Set<usize>, vac: Seq<usize>, k: usize)
    requires
        slab_shape(keys, vac),
        keys.contains(k),
    ensures
        slab_shape(keys.remove(k), seq![k] + vac),
        keys.remove(k).len() == keys.len() - 1,
{
    let nk = keys.remove(k);
    let nv = seq![k] + vac;
    assert(nv.last() == vac.last());
    assert forall|i: int| 0 <= i < nv.len() implies !nk.contains(#[trigger] nv[i]) by {
        if i > 0 {
            assert(nv[i] == vac[i - 1]);
        }
    }
    assert forall|i: int| 0 <= i < nv.len() - 1 implies #[trigger] nv[i] < nv.last() by {
        if i > 0 {
            assert(nv[i] == vac[i - 1]);
        }
    }
    assert(nv.no_duplicates()) by {
        assert forall|i: int, j: int| 0 <= i < nv.len() && 0 <= j < nv.len() && i != j implies nv[i] != nv[j] by {
            if i > 0 {
                assert(nv[i] == vac[i - 1]);
            }
            if j > 0 {
                assert(nv[j] == vac[j - 1]);
            }
        }
    }
}

impl Allocator {
    /// The location `allocate` gives the next variable.
    pub open spec fn next_location(v: AllocatorView) -> Location {
        if v.registers.len() < v.register_count {
            Location::Register(v.free_registers[0] as u16)
        } else {
            Location::Stack(v.free_stack[0] as u16)
        }
    }

    /// Gives a new variable of block `scope` a location: the first free
    /// register while fewer than the register count are in use, the first
    /// free stack slot otherwise. There is none once `u16::MAX` variables
    /// are live.
    pub fn allocate(&mut self, scope: BlockId) -> (r: Option<Value>)
        requires
            old(self)@.wf(),
        ensures
            final(self)@.wf(),
            old(self)@.slots.dom().len() >= 0xffff ==> r is None && final(self)@ == old(self)@,
            old(self)@.slots.dom().len() < 0xffff ==> (r matches Some(v) && v.scope_spec() == scope
                && v.slot_spec() == old(self)@.free_slots[0]),
            old(self)@.slots.dom().len() < 0xffff ==> final(self)@ == allocated(old(self)@),
    {
        let ghost o = self@;
        if location_slab_len(&self.slots) >= 0xffff {
            return None;
        }
        proof {
            lemma_shape_insert(o.slots.dom(), o.free_slots);
        }
        let location = if unit_slab_len(&self.registers) < self.register_count {
            proof {
                lemma_shape_insert(o.registers, o.free_registers);
            }
            let key = unit_slab_insert(&mut self.registers);
            Location::Register(key as u16)
        } else {
            proof {
                lemma_shape_insert(o.stack, o.free_stack);
            }
            let key = unit_slab_insert(&mut self.stack_slots);
            if key > 0xffff {
                return None;
            }
            let slot = key as u16;
            if slot + 1 > self.stack_size {
                self.stack_size = slot + 1;
            }
            Location::Stack(slot)
        };
        let key = location_slab_insert(&mut self.slots, location);
        let value = Value { slot: key as u16, scope };
        proof {
            let n = self@;
            let a = allocated(o);
            assert(n.slots.dom() =~= o.slots.dom().insert(o.free_slots[0]));
            assert forall|s: usize| #[trigger] n.slots.dom().contains(s) implies match n.slots[s] {
                Location::Register(r) => n.registers.contains(r as usize),
                Location::Stack(t) => n.stack.contains(t as usize),
            } by {
                if s != key {
                    assert(o.slots.dom().contains(s));
                }
            }
            assert forall|r: usize| #[trigger] n.registers.contains(r) implies r < 0x10000 && exists|s: usize|
                n.slots.dom().contains(s) && n.slots[s] == Location::Register(r as u16) by {
                if o.registers.contains(r) {
                    let s = choose|s: usize| o.slots.dom().contains(s) && o.slots[s] == Location::Register(r as u16);
                    assert(n.slots[s] == o.slots[s]);
                } else {
                    assert(n.slots[key] == location);
                }
            }
            assert forall|t: usize| #[trigger] n.stack.contains(t) implies t < n.stack_size && exists|s: usize|
                n.slots.dom().contains(s) && n.slots[s] == Location::Stack(t as u16) by {
                if o.stack.contains(t) {
                    let s = choose|s: usize| o.slots.dom().contains(s) && o.slots[s] == Location::Stack(t as u16);
                    assert(n.slots[s] == o.slots[s]);
                } else {
                    assert(n.slots[key] == location);
                }
            }
            assert forall|s1: usize, s2: usize|
                #[trigger] n.slots.dom().contains(s1) && #[trigger] n.slots.dom().contains(s2) && s1 != s2
                implies n.slots[s1] != n.slots[s2] by {
                if s1 == key {
                    assert(o.slots.dom().contains(s2));
                } else if s2 == key {
                    assert(o.slots.dom().contains(s1));
                }
            }
            assert(n == a);
        }
        Some(value)
    }
}

/// The allocator after `allocate` gave the next variable its location.
pub open spec fn allocated(o: AllocatorView) -> AllocatorView {
    let loc = Allocator::next_location(o);
    let to_register = o.registers.len() < o.register_count;
    AllocatorView {
        slots: o.slots.insert(o.free_slots[0], loc),
        free_slots: after_insert(o.free_slots),
        registers: if to_register { o.registers.insert(o.free_registers[0]) } else { o.registers },
        free_registers: if to_register { after_insert(o.free_registers) } else { o.free_registers },
        stack: if to_register { o.stack } else { o.stack.insert(o.free_stack[0]) },
        free_stack: if to_register { o.free_stack } else { after_insert(o.free_stack) },
        stack_size: if !to_register && o.free_stack[0] + 1 > o.stack_size {
            (o.free_stack[0] + 1) as u16
        } else {
            o.stack_size
        },
        register_count: o.register_count,
    }
}

} // verus!

verus! {

/// The allocator after the variable in `slot` is dropped: the slot and its
/// register or stack slot become the first free ones.
pub open spec fn dropped(o: AllocatorView, slot: usize) -> AllocatorView {
    match o.slots[slot] {
        Location::Register(r) => AllocatorView {
            slots: o.slots.remove(slot),
            free_slots: seq![slot] + o.free_slots,
            registers: o.registers.remove(r as usize),
            free_registers: seq![r as usize] + o.free_registers,
            ..o
        },
        Location::Stack(t) => AllocatorView {
            slots: o.slots.remove(slot),
            free_slots: seq![slot] + o.free_slots,
            stack: o.stack.remove(t as usize),
            free_stack: seq![t as usize] + o.free_stack,
            ..o
        },
    }
}

impl Allocator {
    /// Frees a live variable's slot and location.
    pub fn drop(&mut self, value: Value)
        requires
            old(self)@.wf(),
            old(self)@.slots.dom().contains(value.slot_spec() as usize),
        ensures
            final(self)@.wf(),
            final(self)@ == dropped(old(self)@, value.slot_spec() as usize),
    {
        let ghost o = self@;
        let slot = value.slot as usize;
        let location = location_slab_remove(&mut self.slots, slot);
        proof {
            lemma_shape_remove(o.slots.dom(), o.free_slots, slot);
        }
        match location {
            Location::Register(reg) => {
                proof {
                    lemma_shape_remove(o.registers, o.free_registers, reg as usize);
                }
                unit_slab_remove(&mut self.registers, reg as usize);
            },
            Location::Stack(t) => {
                proof {
                    lemma_shape_remove(o.stack, o.free_stack, t as usize);
                }
                unit_slab_remove(&mut self.stack_slots, t as usize);
            },
        }
        proof {
            let n = self@;
            assert(n.slots.dom() =~= o.slots.dom().remove(slot));
            assert forall|s: usize| #[trigger] n.slots.dom().contains(s) implies match n.slots[s] {
                Location::Register(r) => n.registers.contains(r as usize),
                Location::Stack(t) => n.stack.contains(t as usize),
            } by {
                assert(o.slots.dom().contains(s) && s != slot);
                assert(o.slots[s] != o.slots[slot]);
            }
            assert forall|r: usize| #[trigger] n.registers.contains(r) implies r < 0x10000 && exists|s: usize|
                n.slots.dom().contains(s) && n.slots[s] == Location::Register(r as u16) by {
                let s = choose|s: usize| o.slots.dom().contains(s) && o.slots[s] == Location::Register(r as u16);
                if s == slot {
                    assert(location == Location::Register(r as u16));
                }
                assert(n.slots[s] == o.slots[s]);
            }
            assert forall|t: usize| #[trigger] n.stack.contains(t) implies t < n.stack_size && exists|s: usize|
                n.slots.dom().contains(s) && n.slots[s] == Location::Stack(t as u16) by {
                let s = choose|s: usize| o.slots.dom().contains(s) && o.slots[s] == Location::Stack(t as u16);
                if s == slot {
                    assert(location == Location::Stack(t as u16));
                }
                assert(n.slots[s] == o.slots[s]);
            }
            assert(n == dropped(o, slot));
        }
    }
}

} // verus!

verus! {

/// Dropping a variable and creating another gives the new one the same
/// value slot; it also gets the same location back when that was a
/// register, or a stack slot while every register is in use.
pub proof fn lemma_drop_then_allocate(a: AllocatorView, slot: usize)
    requires
        a.wf(),
        a.slots.dom().contains(slot),
    ensures
        ({
            let d = dropped(a, slot);
            let n = allocated(d);
            &&& d.free_slots[0] == slot
            &&& (a.slots[slot] matches Location::Register(_) ==> n.slots == a.slots)
            &&& (a.slots[slot] matches Location::Stack(_) && a.registers.len() == a.register_count ==> n.slots
                == a.slots)
        }),
{
    let d = dropped(a, slot);
    lemma_shape_remove(a.slots.dom(), a.free_slots, slot);
    match a.slots[slot] {
        Location::Register(r) => {
            lemma_shape_remove(a.registers, a.free_registers, r as usize);
            assert(a.registers.contains(r as usize));
            assert(r < 0x10000);
            assert(a.registers.finite());
            assert(d.registers.len() < d.register_count) by {
                assert(a.registers.len() <= a.register_count) by {
                    assert(a.free_registers.last() <= a.register_count);
                }
            }
            assert(Allocator::next_location(d) == Location::Register(r));
            assert(allocated(d).slots =~= a.slots);
        },
        Location::Stack(t) => {
            lemma_shape_remove(a.stack, a.free_stack, t as usize);
            if a.registers.len() == a.register_count {
                assert(Allocator::next_location(d) == Location::Stack(t));
                assert(allocated(d).slots =~= a.slots);
            }
        },
    }
}

} // verus!
