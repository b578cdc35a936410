//! Enumerating the locations of a stencil's arguments and returns.
use vstd::prelude::*;

use smallvec::SmallVec;

use crate::stencils::power;

verus! {

/// The locations of a stencil's arguments then returns: `0` for the stack,
/// `r + 1` for register `r`.
#[verifier::external_body]
pub struct RegisterTuple {
    items: SmallVec<[u16; 8]>,
}

/// The entries of a tuple, arguments first.
pub uninterp spec fn register_tuple_items(t: RegisterTuple) -> Seq<u16>;

/// `n` zeros.
pub open spec fn zero_tuple(n: nat) -> Seq<u16> {
    Seq::new(n, |i: int| 0u16)
}

/// `SmallVec::from_elem(0, n)`: `n` zeros. Allocation panics ("capacity
/// overflow") only past `isize::MAX` bytes, which `u16::MAX` entries are
/// far from.
#[verifier::external_body]
fn register_tuple_zeros(n: usize) -> (r: RegisterTuple)
    requires
        n <= 0xffff,
    ensures
        register_tuple_items(r) == zero_tuple(n as nat),
{
    RegisterTuple { items: SmallVec::from_elem(0, n) }
}

/// `SmallVec::len`.
#[verifier::external_body]
fn register_tuple_len(t: &RegisterTuple) -> (r: usize)
    ensures
        r == register_tuple_items(*t).len(),
{
    t.items.len()
}

/// Indexing a `SmallVec` in bounds.
#[verifier::external_body]
fn register_tuple_get(t: &RegisterTuple, i: usize) -> (r: u16)
    requires
        i < register_tuple_items(*t).len(),
    ensures
        r == register_tuple_items(*t)[i as int],
{
    t.items[i]
}

/// Writing an entry of a `SmallVec` in bounds.
#[verifier::external_body]
fn register_tuple_set(t: &mut RegisterTuple, i: usize, v: u16)
    requires
        i < register_tuple_items(*old(t)).len(),
    ensures
        register_tuple_items(*final(t)) == register_tuple_items(*old(t)).update(i as int, v),
{
    t.items[i] = v;
}

/// `SmallVec::to_vec`: the entries, in order.
#[verifier::external_body]
fn register_tuple_to_vec(t: &RegisterTuple) -> (r: Vec<u16>)
    ensures
        r@ == register_tuple_items(*t),
{
    t.items.to_vec()
}

/// Where the group of position `i` starts: arguments and returns are
/// separate groups.
pub open spec fn group_start(inputs: int, i: int) -> int {
    if i >= inputs {
        inputs
    } else {
        0
    }
}

/// `v` can stand at position `i`: no earlier entry of its group holds it.
pub open spec fn free_at(t: Seq<u16>, inputs: int, i: int, v: u16) -> bool {
    forall|j: int| group_start(inputs, i) <= j < i ==> t[j] != v
}

/// Every entry names one of `registers` locations, and no two entries of a
/// group share a register (many can be on the stack).
pub open spec fn valid_tuple(t: Seq<u16>, inputs: int, registers: int) -> bool {
    forall|i: int| 0 <= i < t.len() ==> #[trigger] t[i] < registers && (t[i] != 0 ==> free_at(t, inputs, i, t[i]))
}

/// The smallest value from `v` up that can stand at position `i`.
pub open spec fn bump_from(t: Seq<u16>, inputs: int, registers: int, i: int, v: int) -> Option<u16>
    decreases registers - v,
{
    if v >= registers || v < 0 || v > u16::MAX {
        None
    } else if free_at(t, inputs, i, v as u16) {
        Some(v as u16)
    } else {
        bump_from(t, inputs, registers, i, v + 1)
    }
}

/// The tuple after `t`, changing position `i` or an earlier one: the last
/// position that can take a larger value takes the smallest such, and the
/// positions after it go back to the stack.
pub open spec fn successor_from(t: Seq<u16>, inputs: int, registers: int, i: int) -> Option<Seq<u16>>
    decreases i + 1,
{
    if i < 0 {
        None
    } else {
        match bump_from(t, inputs, registers, i, t[i] + 1) {
            Some(v) => Some(t.take(i) + seq![v] + zero_tuple((t.len() - i - 1) as nat)),
            None => successor_from(t, inputs, registers, i - 1),
        }
    }
}

/// The tuple after `t`, if any.
pub open spec fn successor(t: Seq<u16>, inputs: int, registers: int) -> Option<Seq<u16>> {
    successor_from(t, inputs, registers, t.len() - 1)
}

/// Iterates over the locations of a stencil's arguments and returns.
///
/// In each tuple, `0` puts the argument or return on the stack and `r + 1`
/// in register `r`. Many can be on the stack at once, but two arguments
/// never share a register, nor do two returns; an argument can share a
/// register with a return.
pub struct RegPermutation {
    inputs: usize,
    current: RegisterTuple,
    registers: u16,
    done: bool,
}

/// Where the iteration stands.
pub struct PermView {
    pub inputs: nat,
    /// The tuple `next` returns next.
    pub current: Seq<u16>,
    pub registers: u16,
    pub done: bool,
}

impl View for RegPermutation {
    type V = PermView;

    closed spec fn view(&self) -> PermView {
        PermView {
            inputs: self.inputs as nat,
            current: register_tuple_items(self.current),
            registers: self.registers,
            done: self.done,
        }
    }
}

impl PermView {
    pub open spec fn wf(self) -> bool {
        &&& self.inputs <= self.current.len() <= 0xffff
        &&& self.registers >= 1
        &&& valid_tuple(self.current, self.inputs as int, self.registers as int)
    }
}

proof fn lemma_zero_valid(n: nat, inputs: int, registers: int)
    requires
        registers >= 1,
    ensures
        valid_tuple(zero_tuple(n), inputs, registers),
{
}

impl RegPermutation {
    /// Starts from every argument and return on the stack, with
    /// `registers` locations (the stack counts as one).
    pub fn new(inputs: u16, outputs: u16, registers: u16) -> (r: Self)
        requires
            registers >= 1,
            inputs + outputs <= u16::MAX,
        ensures
            r@.wf(),
            r@.inputs == inputs,
            r@.current == zero_tuple((inputs + outputs) as nat),
            r@.registers == registers,
            !r@.done,
            after_calls(r@, 0),
    {
        proof {
            lemma_zero_valid((inputs + outputs) as nat, inputs as int, registers as int);
        }
        Self {
            inputs: inputs as usize,
            current: register_tuple_zeros((inputs + outputs) as usize),
            registers,
            done: false,
        }
    }

    /// Returns the current tuple and moves to its successor; once there is
    /// none, the iteration is done and returns `None`.
    pub fn next(&mut self) -> (r: Option<Vec<u16>>)
        requires
            old(self)@.wf(),
        ensures
            final(self)@.wf(),
            final(self)@.inputs == old(self)@.inputs,
            final(self)@.registers == old(self)@.registers,
            old(self)@.done ==> r is None && final(self)@ == old(self)@,
            !old(self)@.done ==> (r matches Some(v) && v@ == old(self)@.current && match successor(
                old(self)@.current,
                old(self)@.inputs as int,
                old(self)@.registers as int,
            ) {
                Some(s) => !final(self)@.done && final(self)@.current == s,
                None => final(self)@.done && final(self)@.current == zero_tuple(
                    old(self)@.current.len(),
                ),
            }),
            next_step(
                old(self)@,
                final(self)@,
                match r {
                    Some(v) => Some(v@),
                    None => None,
                },
            ),
    {
        if self.done {
            return None;
        }
        let ghost o = self@;
        let ghost t = o.current;
        let ghost inputs = o.inputs as int;
        let ghost regs = o.registers as int;
        let ret = register_tuple_to_vec(&self.current);
        let len = register_tuple_len(&self.current);
        if len == 0 {
            self.done = true;
            proof {
                assert(t =~= zero_tuple(0));
            }
            return Some(ret);
        }
        let mut i = len;
        while i > 0
            invariant
                0 < i <= len,
                !o.done,
                len == t.len(),
                o.wf(),
                o == old(self)@,
                ret@ == t,
                inputs == o.inputs as int,
                regs == o.registers as int,
                self.registers == o.registers,
                t == o.current,
                inputs == self.inputs,
                regs == self.registers,
                !self.done,
                self.inputs == o.inputs,
                self@.current == t.take(i as int) + zero_tuple((len - i) as nat),
                successor(t, inputs, regs) == successor_from(t, inputs, regs, i - 1),
            decreases i,
        {
            i = i - 1;
            let ghost p = i as int;
            let mut c = register_tuple_get(&self.current, i);
            proof {
                assert(c == t[p]);
                assert(t[p] < regs);
            }
            loop
                invariant_except_break
                    t[p] <= c < regs,
                    self@.current == t.take(p) + seq![c] + zero_tuple((len - p - 1) as nat),
                    bump_from(t, inputs, regs, p, t[p] + 1) == bump_from(t, inputs, regs, p, c + 1),
                invariant
                    0 <= p < len,
                    !o.done,
                    p == i,
                    len == t.len(),
                    o.wf(),
                    o == old(self)@,
                    ret@ == t,
                    inputs == o.inputs as int,
                    regs == o.registers as int,
                    self.registers == o.registers,
                    t == o.current,
                    inputs == self.inputs,
                    regs == self.registers,
                    !self.done,
                    self.inputs == o.inputs,
                    successor(t, inputs, regs) == successor_from(t, inputs, regs, p),
                ensures
                    p > 0,
                    self@.current == t.take(p) + zero_tuple((len - p) as nat),
                    successor(t, inputs, regs) == successor_from(t, inputs, regs, p - 1),
                decreases regs - c,
            {
                let x = c + 1;
                if x >= self.registers {
                    register_tuple_set(&mut self.current, i, 0);
                    proof {
                        assert(self@.current =~= t.take(p) + zero_tuple((len - p) as nat));
                    }
                    proof {
                        assert(bump_from(t, inputs, regs, p, c + 1) is None);
                    }
                    if i == 0 {
                        self.done = true;
                        proof {
                            assert(t.take(0) + zero_tuple(len as nat) =~= zero_tuple(t.len()));
                            lemma_zero_valid(t.len(), inputs, regs);
                        }
                        return Some(ret);
                    }
                    break;
                }
                register_tuple_set(&mut self.current, i, x);
                let start = if i >= self.inputs {
                    self.inputs
                } else {
                    0
                };
                let mut j = start;
                let mut free = true;
                while j < i
                    invariant
                        start == group_start(inputs, p),
                        start <= j <= i,
                        p == i,
                        len == t.len(),
                        p < len,
                        self@.current == t.take(p) + seq![x] + zero_tuple((len - p - 1) as nat),
                        free ==> forall|k: int| start <= k < j ==> t[k] != x,
                        !free ==> !free_at(t, inputs, p, x),
                    decreases i - j,
                {
                    let y = register_tuple_get(&self.current, j);
                    proof {
                        assert(y == t[j as int]);
                    }
                    if y == x {
                        free = false;
                    }
                    j = j + 1;
                }
                c = x;
                if free {
                    proof {
                        assert(free_at(t, inputs, p, x));
                        let s = self@.current;
                        assert(x < regs);
                        assert(regs >= 1);
                        assert forall|k: int| 0 <= k < s.len() implies #[trigger] s[k] < regs && (s[k] != 0 ==> free_at(s, inputs, k, s[k])) by {
                            if k < p {
                                assert(s[k] == t[k]);
                                assert(t[k] < regs);
                                if t[k] != 0 {
                                    assert(free_at(t, inputs, k, t[k]));
                                    assert forall|m: int| group_start(inputs, k) <= m < k implies s[m] != s[k] by {
                                        assert(s[m] == t[m]);
                                    }
                                }
                            } else if k == p {
                                assert forall|m: int| group_start(inputs, k) <= m < k implies s[m] != s[k] by {
                                    assert(s[m] == t[m]);
                                }
                            } else {
                                assert(s[k] == 0);
                            }
                        }
                    }
                    return Some(ret);
                }
            }
        }
        proof {
            assert(false);
        }
        Some(ret)
    }
}

} // verus!

verus! {

/// `a` and `b` agree before position `k`.
pub open spec fn agree(a: Seq<u16>, b: Seq<u16>, k: int) -> bool {
    forall|j: int| 0 <= j < k ==> a[j] == b[j]
}

/// `a` comes before `b`, first differing at position `k`.
pub open spec fn precedes_at(a: Seq<u16>, b: Seq<u16>, k: int) -> bool {
    &&& 0 <= k < a.len()
    &&& a.len() == b.len()
    &&& agree(a, b, k)
    &&& a[k] < b[k]
}

/// `a` comes before `b` in lexicographic order.
pub open spec fn precedes(a: Seq<u16>, b: Seq<u16>) -> bool {
    exists|k: int| #[trigger] precedes_at(a, b, k)
}

proof fn lemma_bump_least(t: Seq<u16>, inputs: int, registers: int, i: int, v: int)
    requires
        0 <= v,
        registers <= 0x10000,
    ensures
        match bump_from(t, inputs, registers, i, v) {
            Some(w) => v <= w < registers && free_at(t, inputs, i, w) && forall|y: int|
                v <= y < w ==> !#[trigger] free_at(t, inputs, i, y as u16),
            None => forall|y: int| v <= y < registers ==> !#[trigger] free_at(t, inputs, i, y as u16),
        },
    decreases registers - v,
{
    if v < registers && !free_at(t, inputs, i, v as u16) {
        lemma_bump_least(t, inputs, registers, i, v + 1);
    }
}

proof fn lemma_first_difference(a: Seq<u16>, b: Seq<u16>, k: int)
    requires
        a.len() == b.len(),
        0 <= k <= a.len(),
        agree(a, b, k),
        a != b,
    ensures
        exists|j: int| k <= j < a.len() && agree(a, b, j) && a[j] != b[j],
    decreases a.len() - k,
{
    if k == a.len() {
        assert(a =~= b);
    } else if a[k] != b[k] {
    } else {
        lemma_first_difference(a, b, k + 1);
    }
}

/// What `successor_from(t, i)` is: the least valid tuple after `t` among
/// those that first differ from `t` at or before position `i`.
proof fn lemma_successor_from(t: Seq<u16>, inputs: int, registers: int, i: int)
    requires
        valid_tuple(t, inputs, registers),
        0 <= inputs,
        1 <= registers <= 0x10000,
        -1 <= i < t.len(),
    ensures
        successor_from(t, inputs, registers, i) matches Some(s) ==> {
            &&& valid_tuple(s, inputs, registers)
            &&& s.len() == t.len()
            &&& exists|k: int| k <= i && #[trigger] precedes_at(t, s, k)
        },
        forall|u: Seq<u16>, k: int|
            k <= i && valid_tuple(u, inputs, registers) && #[trigger] precedes_at(t, u, k)
                ==> (successor_from(t, inputs, registers, i) matches Some(s) && (s == u || precedes(s, u))),
    decreases i + 1,
{
    if i >= 0 {
        lemma_successor_from(t, inputs, registers, i - 1);
        assert(t[i] < registers);
        lemma_bump_least(t, inputs, registers, i, t[i] + 1);
        let n = t.len();
        match bump_from(t, inputs, registers, i, t[i] + 1) {
            Some(w) => {
                let s = t.take(i) + seq![w] + zero_tuple((n - i - 1) as nat);
                assert(s.len() == n);
                assert forall|k: int| 0 <= k < s.len() implies #[trigger] s[k] < registers && (s[k] != 0
                    ==> free_at(s, inputs, k, s[k])) by {
                    if k < i {
                        assert(s[k] == t[k]);
                        if t[k] != 0 {
                            assert(free_at(t, inputs, k, t[k]));
                            assert forall|m: int| group_start(inputs, k) <= m < k implies s[m] != s[k] by {
                                assert(s[m] == t[m]);
                            }
                        }
                    } else if k == i {
                        assert forall|m: int| group_start(inputs, k) <= m < k implies s[m] != s[k] by {
                            assert(s[m] == t[m]);
                        }
                    } else {
                        assert(s[k] == 0);
                    }
                }
                assert(precedes_at(t, s, i));
                assert(successor_from(t, inputs, registers, i) == Some(s));
                assert forall|u: Seq<u16>, k: int|
                    k <= i && valid_tuple(u, inputs, registers) && #[trigger] precedes_at(t, u, k) implies s == u
                        || precedes(s, u) by {
                    if k < i {
                        assert(agree(s, u, k)) by {
                            assert forall|j: int| 0 <= j < k implies s[j] == u[j] by {
                                assert(s[j] == t[j]);
                            }
                        }
                        assert(s[k] == t[k]);
                        assert(precedes_at(s, u, k));
                    } else {
                        assert(u[i] != 0);
                        assert(free_at(u, inputs, i, u[i]));
                        assert(free_at(t, inputs, i, u[i])) by {
                            assert forall|m: int| group_start(inputs, i) <= m < i implies t[m] != u[i] by {
                                assert(t[m] == u[m]);
                            }
                        }
                        let y = u[i] as int;
                        assert(y as u16 == u[i]);
                        assert(free_at(t, inputs, i, y as u16));
                        assert(u[i] >= w);
                        assert(agree(s, u, i)) by {
                            assert forall|j: int| 0 <= j < i implies s[j] == u[j] by {
                                assert(s[j] == t[j]);
                            }
                        }
                        if u[i] > w {
                            assert(precedes_at(s, u, i));
                        } else if s != u {
                            assert(agree(s, u, i + 1));
                            lemma_first_difference(s, u, i + 1);
                            let j = choose|j: int| i + 1 <= j < s.len() && agree(s, u, j) && s[j] != u[j];
                            assert(s[j] == 0);
                            assert(precedes_at(s, u, j));
                        }
                    }
                }
            },
            None => {
                assert(successor_from(t, inputs, registers, i) == successor_from(t, inputs, registers, i - 1));
                assert forall|u: Seq<u16>, k: int|
                    k <= i && valid_tuple(u, inputs, registers) && #[trigger] precedes_at(t, u, k) implies (successor_from(
                        t,
                        inputs,
                        registers,
                        i,
                    ) matches Some(s) && (s == u || precedes(s, u))) by {
                    if k == i {
                        assert(u[i] != 0);
                        assert(free_at(u, inputs, i, u[i]));
                        assert(free_at(t, inputs, i, u[i])) by {
                            assert forall|m: int| group_start(inputs, i) <= m < i implies t[m] != u[i] by {
                                assert(t[m] == u[m]);
                            }
                        }
                        assert(u[i] < registers);
                        let y = u[i] as int;
                        assert(y as u16 == u[i]);
                        assert(free_at(t, inputs, i, y as u16));
                    } else {
                        assert(k <= i - 1);
                    }
                }
            },
        }
    }
}

/// Iterating goes through the valid tuples in lexicographic order, missing
/// none: from a valid tuple, `successor` is the least valid tuple after it,
/// and there is none after it when `successor` gives none. The iteration
/// starts from the least tuple, all on the stack.
pub proof fn lemma_successor_is_next(t: Seq<u16>, inputs: int, registers: int)
    requires
        valid_tuple(t, inputs, registers),
        0 <= inputs,
        1 <= registers <= 0x10000,
    ensures
        successor(t, inputs, registers) matches Some(s) ==> valid_tuple(s, inputs, registers)
            && s.len() == t.len() && precedes(t, s),
        forall|u: Seq<u16>|
            valid_tuple(u, inputs, registers) && #[trigger] precedes(t, u) ==> (successor(t, inputs, registers) matches Some(s)
                && (s == u || precedes(s, u))),
        forall|u: Seq<u16>| u.len() == t.len() && u != zero_tuple(t.len()) ==> #[trigger] precedes(zero_tuple(t.len()), u),
{
    lemma_successor_from(t, inputs, registers, t.len() - 1);
    assert forall|u: Seq<u16>|
        valid_tuple(u, inputs, registers) && #[trigger] precedes(t, u) implies (successor(t, inputs, registers) matches Some(s)
            && (s == u || precedes(s, u))) by {
        let k = choose|k: int| #[trigger] precedes_at(t, u, k);
        assert(k <= t.len() - 1);
    }
    assert forall|u: Seq<u16>| u.len() == t.len() && u != zero_tuple(t.len()) implies #[trigger] precedes(zero_tuple(t.len()), u) by {
        let z = zero_tuple(t.len());
        lemma_first_difference(z, u, 0);
        let j = choose|j: int| 0 <= j < z.len() && agree(z, u, j) && z[j] != u[j];
        assert(precedes_at(z, u, j));
    }
}

} // verus!

verus! {

/// The tuple read as a number in base `r`, first entry most significant.
pub open spec fn tuple_rank(t: Seq<u16>, r: nat) -> nat
    decreases t.len(),
{
    if t.len() == 0 {
        0
    } else {
        t[0] as nat * power(r, (t.len() - 1) as nat) + tuple_rank(t.drop_first(), r)
    }
}

proof fn lemma_rank_bound(t: Seq<u16>, r: nat)
    requires
        forall|i: int| 0 <= i < t.len() ==> t[i] < r,
    ensures
        tuple_rank(t, r) < power(r, t.len()),
    decreases t.len(),
{
    if t.len() > 0 {
        let tail = t.drop_first();
        assert forall|i: int| 0 <= i < tail.len() implies tail[i] < r by {
            assert(tail[i] == t[i + 1]);
        }
        lemma_rank_bound(tail, r);
        let p = power(r, (t.len() - 1) as nat);
        let t0 = t[0] as nat;
        assert(t0 + 1 <= r);
        assert(t0 * p + p <= r * p) by (nonlinear_arith)
            requires
                t0 + 1 <= r,
        ;
        assert(power(r, t.len()) == r * p);
    }
}

proof fn lemma_rank_precedes(a: Seq<u16>, b: Seq<u16>, r: nat, k: int)
    requires
        precedes_at(a, b, k),
        forall|i: int| 0 <= i < a.len() ==> a[i] < r,
        forall|i: int| 0 <= i < b.len() ==> b[i] < r,
    ensures
        tuple_rank(a, r) < tuple_rank(b, r),
    decreases k,
{
    let p = power(r, (a.len() - 1) as nat);
    let ta = a.drop_first();
    let tb = b.drop_first();
    if k == 0 {
        assert forall|i: int| 0 <= i < ta.len() implies ta[i] < r by {
            assert(ta[i] == a[i + 1]);
        }
        lemma_rank_bound(ta, r);
        let a0 = a[0] as nat;
        let b0 = b[0] as nat;
        assert(a0 * p + p <= b0 * p) by (nonlinear_arith)
            requires
                a0 + 1 <= b0,
        ;
    } else {
        assert(a[0] == b[0]);
        assert(precedes_at(ta, tb, k - 1)) by {
            assert forall|j: int| 0 <= j < k - 1 implies ta[j] == tb[j] by {
                assert(ta[j] == a[j + 1] && tb[j] == b[j + 1]);
            }
            assert(ta[k - 1] == a[k] && tb[k - 1] == b[k]);
        }
        assert forall|i: int| 0 <= i < ta.len() implies ta[i] < r by {
            assert(ta[i] == a[i + 1]);
        }
        assert forall|i: int| 0 <= i < tb.len() implies tb[i] < r by {
            assert(tb[i] == b[i + 1]);
        }
        lemma_rank_precedes(ta, tb, r, k - 1);
    }
}

/// Iterating ends: every valid tuple ranks below `registers` to the power
/// of its length, and its successor ranks higher than it.
pub proof fn lemma_successor_ranks_higher(t: Seq<u16>, inputs: int, registers: int)
    requires
        valid_tuple(t, inputs, registers),
        0 <= inputs,
        1 <= registers <= 0x10000,
    ensures
        tuple_rank(t, registers as nat) < power(registers as nat, t.len()),
        successor(t, inputs, registers) matches Some(s) ==> tuple_rank(t, registers as nat) < tuple_rank(
            s,
            registers as nat,
        ) && valid_tuple(s, inputs, registers) && s.len() == t.len(),
{
    assert forall|i: int| 0 <= i < t.len() implies t[i] < registers as nat by {
        assert(t[i] < registers);
    }
    lemma_rank_bound(t, registers as nat);
    lemma_successor_is_next(t, inputs, registers);
    if let Some(s) = successor(t, inputs, registers) {
        let k = choose|k: int| #[trigger] precedes_at(t, s, k);
        assert forall|i: int| 0 <= i < s.len() implies s[i] < registers as nat by {
            assert(s[i] < registers);
        }
        lemma_rank_precedes(t, s, registers as nat, k);
    }
}

} // verus!

verus! {

/// What one call of `next` does (see its contract): from `old` to `new`,
/// returning `r`.
pub open spec fn next_step(old: PermView, new: PermView, r: Option<Seq<u16>>) -> bool {
    &&& new.inputs == old.inputs
    &&& new.registers == old.registers
    &&& old.done ==> r is None && new == old
    &&& !old.done ==> r == Some(old.current) && match successor(
        old.current,
        old.inputs as int,
        old.registers as int,
    ) {
        Some(s) => !new.done && new.current == s,
        None => new.done && new.current == zero_tuple(old.current.len()),
    }
}

/// The iteration stands where `k` calls of `next` leave it: at the `k`-th
/// placement, or done once there is none.
pub open spec fn after_calls(v: PermView, k: nat) -> bool {
    match nth_placement(v.inputs as int, v.current.len(), v.registers as int, k) {
        Some(t) => !v.done && v.current == t,
        None => v.done,
    }
}

/// Successive calls of `next` give the placements in order: a new iteration
/// stands where no call has left it (see `RegPermutation::new`), and from
/// where `k` calls leave it, the next call returns the `k`-th placement
/// (`None` once there is none) and leaves it where `k + 1` calls do. With
/// `lemma_iteration_enumerates`, the calls give every valid placement once,
/// in increasing order, and `None` from then on.
pub proof fn lemma_next_gives_placements(old: PermView, new: PermView, r: Option<Seq<u16>>, k: nat)
    requires
        old.wf(),
        after_calls(old, k),
        next_step(old, new, r),
    ensures
        r == nth_placement(old.inputs as int, old.current.len(), old.registers as int, k),
        new.current.len() == old.current.len(),
        after_calls(new, k + 1),
{
    if !old.done {
        lemma_successor_is_next(old.current, old.inputs as int, old.registers as int);
    }
}

/// The `k`-th tuple the iteration over `len` locations, `inputs` of them
/// arguments, gives, if it gives that many.
pub open spec fn nth_placement(inputs: int, len: nat, registers: int, k: nat) -> Option<Seq<u16>>
    decreases k,
{
    if k == 0 {
        Some(zero_tuple(len))
    } else {
        match nth_placement(inputs, len, registers, (k - 1) as nat) {
            Some(t) => successor(t, inputs, registers),
            None => None,
        }
    }
}

proof fn lemma_reach_from(u: Seq<u16>, inputs: int, registers: int, k: nat)
    requires
        valid_tuple(u, inputs, registers),
        0 <= inputs,
        1 <= registers <= 0x10000,
        nth_placement(inputs, u.len(), registers, k) matches Some(t) && valid_tuple(t, inputs, registers) && (t == u
            || precedes(t, u)),
    ensures
        exists|j: nat| #[trigger] nth_placement(inputs, u.len(), registers, j) == Some(u),
    decreases tuple_rank(u, registers as nat) - tuple_rank(
        nth_placement(inputs, u.len(), registers, k).unwrap(),
        registers as nat,
    ),
{
    let t = nth_placement(inputs, u.len(), registers, k).unwrap();
    let r = registers as nat;
    if t == u {
        assert(nth_placement(inputs, u.len(), registers, k) == Some(u));
    } else {
        lemma_successor_is_next(t, inputs, registers);
        lemma_successor_ranks_higher(t, inputs, registers);
        let s = successor(t, inputs, registers).unwrap();
        assert(nth_placement(inputs, u.len(), registers, k + 1) == Some(s));
        assert forall|i: int| 0 <= i < u.len() implies u[i] < r by {
            assert(u[i] < registers);
        }
        assert forall|i: int| 0 <= i < t.len() implies t[i] < r by {
            assert(t[i] < registers);
        }
        assert forall|i: int| 0 <= i < s.len() implies s[i] < r by {
            assert(s[i] < registers);
        }
        if s != u {
            let m = choose|m: int| #[trigger] precedes_at(s, u, m);
            lemma_rank_precedes(s, u, r, m);
        }
        lemma_reach_from(u, inputs, registers, k + 1);
    }
}

/// Iterating reaches every tuple: each valid tuple is the `k`-th the
/// iteration gives, for some `k`.
pub proof fn lemma_every_tuple_reached(u: Seq<u16>, inputs: int, registers: int)
    requires
        valid_tuple(u, inputs, registers),
        0 <= inputs,
        1 <= registers <= 0x10000,
    ensures
        exists|k: nat| #[trigger] nth_placement(inputs, u.len(), registers, k) == Some(u),
{
    let z = zero_tuple(u.len());
    lemma_zero_valid(u.len(), inputs, registers);
    lemma_successor_is_next(z, inputs, registers);
    assert(z.len() == u.len());
    lemma_reach_from(u, inputs, registers, 0);
}

/// Once the iteration ends, it gives nothing more.
pub proof fn lemma_nth_after_end(inputs: int, len: nat, registers: int, k: nat, j: nat)
    requires
        nth_placement(inputs, len, registers, k) is None,
        k <= j,
    ensures
        nth_placement(inputs, len, registers, j) is None,
    decreases j - k,
{
    if k < j {
        lemma_nth_after_end(inputs, len, registers, k, (j - 1) as nat);
    }
}

} // verus!

verus! {

proof fn lemma_nth_valid(inputs: int, len: nat, registers: int, k: nat)
    requires
        0 <= inputs,
        1 <= registers <= 0x10000,
    ensures
        nth_placement(inputs, len, registers, k) matches Some(t) ==> valid_tuple(t, inputs, registers) && t.len()
            == len,
    decreases k,
{
    if k == 0 {
        lemma_zero_valid(len, inputs, registers);
    } else {
        lemma_nth_valid(inputs, len, registers, (k - 1) as nat);
        if let Some(t) = nth_placement(inputs, len, registers, (k - 1) as nat) {
            lemma_successor_ranks_higher(t, inputs, registers);
        }
    }
}

/// Iterating never gives a tuple twice: later tuples rank higher.
pub proof fn lemma_nth_increasing(inputs: int, len: nat, registers: int, j: nat, k: nat)
    requires
        0 <= inputs,
        1 <= registers <= 0x10000,
        j < k,
        nth_placement(inputs, len, registers, k) is Some,
    ensures
        nth_placement(inputs, len, registers, j) matches Some(a) && tuple_rank(a, registers as nat) < tuple_rank(
            nth_placement(inputs, len, registers, k).unwrap(),
            registers as nat,
        ),
        nth_placement(inputs, len, registers, j) != nth_placement(inputs, len, registers, k),
    decreases k - j,
{
    let p = nth_placement(inputs, len, registers, (k - 1) as nat);
    assert(p is Some);
    let t = p.unwrap();
    lemma_nth_valid(inputs, len, registers, (k - 1) as nat);
    lemma_successor_ranks_higher(t, inputs, registers);
    if j < k - 1 {
        lemma_nth_increasing(inputs, len, registers, j, (k - 1) as nat);
    }
}

} // verus!

verus! {

proof fn lemma_precedes_trans(a: Seq<u16>, b: Seq<u16>, c: Seq<u16>)
    requires
        precedes(a, b),
        precedes(b, c),
    ensures
        precedes(a, c),
{
    let i = choose|i: int| #[trigger] precedes_at(a, b, i);
    let j = choose|j: int| #[trigger] precedes_at(b, c, j);
    let m = if i < j { i } else { j };
    assert(precedes_at(a, c, m));
}

proof fn lemma_nth_ordered(inputs: int, len: nat, registers: int, j: nat, k: nat)
    requires
        0 <= inputs,
        1 <= registers <= 0x10000,
        j < k,
        nth_placement(inputs, len, registers, k) is Some,
    ensures
        nth_placement(inputs, len, registers, j) is Some,
        precedes(
            nth_placement(inputs, len, registers, j).unwrap(),
            nth_placement(inputs, len, registers, k).unwrap(),
        ),
    decreases k - j,
{
    let p = nth_placement(inputs, len, registers, (k - 1) as nat);
    assert(p is Some);
    let t = p.unwrap();
    lemma_nth_valid(inputs, len, registers, (k - 1) as nat);
    lemma_successor_is_next(t, inputs, registers);
    if j < k - 1 {
        lemma_nth_ordered(inputs, len, registers, j, (k - 1) as nat);
        lemma_precedes_trans(
            nth_placement(inputs, len, registers, j).unwrap(),
            t,
            nth_placement(inputs, len, registers, k).unwrap(),
        );
    }
}

proof fn lemma_nth_rank(inputs: int, len: nat, registers: int, k: nat)
    requires
        0 <= inputs,
        1 <= registers <= 0x10000,
        nth_placement(inputs, len, registers, k) is Some,
    ensures
        tuple_rank(nth_placement(inputs, len, registers, k).unwrap(), registers as nat) >= k,
        tuple_rank(nth_placement(inputs, len, registers, k).unwrap(), registers as nat) < power(
            registers as nat,
            len,
        ),
    decreases k,
{
    lemma_nth_valid(inputs, len, registers, k);
    lemma_successor_ranks_higher(nth_placement(inputs, len, registers, k).unwrap(), inputs, registers);
    if k > 0 {
        let p = nth_placement(inputs, len, registers, (k - 1) as nat);
        assert(p is Some);
        lemma_nth_rank(inputs, len, registers, (k - 1) as nat);
        lemma_nth_valid(inputs, len, registers, (k - 1) as nat);
        lemma_successor_ranks_higher(p.unwrap(), inputs, registers);
    }
}

proof fn lemma_first_end(inputs: int, len: nat, registers: int, k: nat)
    requires
        nth_placement(inputs, len, registers, k) is None,
    ensures
        exists|c: nat|
            c <= k && #[trigger] nth_placement(inputs, len, registers, c) is None && forall|j: nat|
                j < c ==> #[trigger] nth_placement(inputs, len, registers, j) is Some,
    decreases k,
{
    if k == 0 {
        assert(nth_placement(inputs, len, registers, 0) is Some);
    } else if nth_placement(inputs, len, registers, (k - 1) as nat) is None {
        lemma_first_end(inputs, len, registers, (k - 1) as nat);
    } else {
        assert forall|j: nat| j < k implies #[trigger] nth_placement(inputs, len, registers, j) is Some by {
            if nth_placement(inputs, len, registers, j) is None {
                lemma_nth_after_end(inputs, len, registers, j, (k - 1) as nat);
            }
        }
    }
}

/// How many tuples the iteration gives before it ends.
pub open spec fn placement_count(inputs: int, len: nat, registers: int) -> nat {
    choose|c: nat|
        #[trigger] nth_placement(inputs, len, registers, c) is None && forall|j: nat|
            j < c ==> #[trigger] nth_placement(inputs, len, registers, j) is Some
}

/// Iterating from every entry on the stack gives exactly the valid tuples
/// of the length, each once, in strictly increasing lexicographic order,
/// and nothing once they are all given.
pub proof fn lemma_iteration_enumerates(inputs: int, len: nat, registers: int)
    requires
        0 <= inputs,
        1 <= registers <= 0x10000,
    ensures
        forall|k: nat|
            k < placement_count(inputs, len, registers) ==> (#[trigger] nth_placement(
                inputs,
                len,
                registers,
                k,
            ) matches Some(t) && valid_tuple(t, inputs, registers) && t.len() == len),
        forall|k: nat|
            placement_count(inputs, len, registers) <= k ==> #[trigger] nth_placement(inputs, len, registers, k) is None,
        forall|j: nat, k: nat|
            j < k < placement_count(inputs, len, registers) ==> precedes(
                #[trigger] nth_placement(inputs, len, registers, j).unwrap(),
                #[trigger] nth_placement(inputs, len, registers, k).unwrap(),
            ),
        forall|u: Seq<u16>|
            valid_tuple(u, inputs, registers) && u.len() == len ==> exists|k: nat|
                k < placement_count(inputs, len, registers) && #[trigger] nth_placement(inputs, len, registers, k)
                    == Some(u),
{
    let bound = power(registers as nat, len);
    if nth_placement(inputs, len, registers, bound) is Some {
        lemma_nth_rank(inputs, len, registers, bound);
    }
    lemma_first_end(inputs, len, registers, bound);
    let count = placement_count(inputs, len, registers);
    assert(nth_placement(inputs, len, registers, count) is None);
    assert forall|k: nat| k < count implies (#[trigger] nth_placement(inputs, len, registers, k) matches Some(t)
        && valid_tuple(t, inputs, registers) && t.len() == len) by {
        lemma_nth_valid(inputs, len, registers, k);
    }
    assert forall|k: nat| count <= k implies #[trigger] nth_placement(inputs, len, registers, k) is None by {
        lemma_nth_after_end(inputs, len, registers, count, k);
    }
    assert forall|j: nat, k: nat| j < k < count implies precedes(
        #[trigger] nth_placement(inputs, len, registers, j).unwrap(),
        #[trigger] nth_placement(inputs, len, registers, k).unwrap(),
    ) by {
        lemma_nth_ordered(inputs, len, registers, j, k);
    }
    assert forall|u: Seq<u16>| valid_tuple(u, inputs, registers) && u.len() == len implies exists|k: nat|
        k < count && #[trigger] nth_placement(inputs, len, registers, k) == Some(u) by {
        lemma_every_tuple_reached(u, inputs, registers);
        let k = choose|k: nat| #[trigger] nth_placement(inputs, len, registers, k) == Some(u);
        if k >= count {
            lemma_nth_after_end(inputs, len, registers, count, k);
        }
    }
}

} // verus!
