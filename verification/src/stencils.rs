//! Stencils, stencil families, and the numbering of stencils by the
//! locations (stack or register) of their inputs and outputs.
use vstd::prelude::*;
use vstd::arithmetic::div_mod::{lemma_mod_breakdown, lemma_div_denominator, lemma_fundamental_div_mod, lemma_small_mod, lemma_mod_bound, lemma_div_pos_is_pos};
use vstd::arithmetic::mul::{lemma_mul_nonnegative, lemma_mul_inequality, lemma_mul_is_commutative, lemma_mul_is_associative, lemma_mul_strictly_positive};

use crate::relocation::{Relocation, PatchInfo};

verus! {

/// Where a value lives when a stencil reads or writes it.
#[derive(Clone, Copy, Debug, PartialEq, Eq, Structural)]
pub enum Location {
    Stack(u16),
    Register(u16),
}

/// The digit a location contributes to a stencil's number: 0 for the stack,
/// `r + 1` for register `r`.
pub open spec fn digit_of(l: Location) -> nat {
    match l {
        Location::Stack(_) => 0,
        Location::Register(r) => (r + 1) as nat,
    }
}

/// The location a digit stands for (stack slots all read as slot 0).
pub open spec fn location_of_digit(d: nat) -> Location {
    if d == 0 {
        Location::Stack(0)
    } else {
        Location::Register((d - 1) as u16)
    }
}

impl Location {
    pub fn from_bits(bits: u16) -> (r: Self)
        ensures
            r == location_of_digit(bits as nat),
    {
        match bits {
            0 => Location::Stack(0),
            _ => Location::Register(bits - 1),
        }
    }

    pub fn into_bits(&self) -> (r: u16)
        requires
            digit_of(*self) <= u16::MAX,
        ensures
            r == digit_of(*self),
    {
        match self {
            Location::Stack(_) => 0,
            Location::Register(i) => i + 1,
        }
    }
}

/// A location's number reads back as the location (a stack slot as slot
/// 0), and a number read as a location gives the number back.
pub proof fn lemma_location_bits_roundtrip(l: Location, bits: u16)
    requires
        digit_of(l) <= u16::MAX,
    ensures
        location_of_digit(digit_of(l)) == match l {
            Location::Stack(_) => Location::Stack(0),
            Location::Register(_) => l,
        },
        digit_of(location_of_digit(bits as nat)) == bits,
{
}

/// `m` to the power `n`.
pub open spec fn power(m: nat, n: nat) -> nat
    decreases n,
{
    if n == 0 {
        1
    } else {
        m * power(m, (n - 1) as nat)
    }
}

/// The number of a sequence of locations, read as digits in base `m`, most
/// significant first.
pub open spec fn locations_index(s: Seq<Location>, m: nat) -> nat
    decreases s.len(),
{
    if s.len() == 0 {
        0
    } else {
        m * locations_index(s.drop_last(), m) + digit_of(s.last())
    }
}

/// The `n` locations whose digits in base `m` are the `n` lowest digits of `i`.
pub open spec fn decode_locations(i: nat, m: nat, n: nat) -> Seq<Location>
    recommends
        m > 0,
    decreases n,
{
    if n == 0 {
        Seq::empty()
    } else {
        decode_locations(i / m, m, (n - 1) as nat).push(location_of_digit(i % m))
    }
}

/// Only stack slot 0 stands for the stack and every register digit is a
/// digit of base `m`: what decoding an index gives back.
pub open spec fn normalized(s: Seq<Location>, m: nat) -> bool {
    forall|k: int|
        0 <= k < s.len() ==> match #[trigger] s[k] {
            Location::Stack(i) => i == 0,
            Location::Register(r) => r + 1 < m,
        }
}

pub proof fn lemma_power_positive(m: nat, n: nat)
    requires
        m > 0,
    ensures
        power(m, n) > 0,
    decreases n,
{
    if n > 0 {
        lemma_power_positive(m, (n - 1) as nat);
        lemma_mul_strictly_positive(m as int, power(m, (n - 1) as nat) as int);
    }
}

pub proof fn lemma_power_adds(m: nat, a: nat, b: nat)
    ensures
        power(m, a + b) == power(m, a) * power(m, b),
    decreases a,
{
    if a > 0 {
        lemma_power_adds(m, (a - 1) as nat, b);
        assert((a + b - 1) as nat == (a - 1) as nat + b);
        assert(power(m, a + b) == m * power(m, (a + b - 1) as nat));
        assert(power(m, a) == m * power(m, (a - 1) as nat));
        lemma_mul_is_associative(m as int, power(m, (a - 1) as nat) as int, power(m, b) as int);
        assert(power(m, a + b) == m * (power(m, (a - 1) as nat) * power(m, b)));
    } else {
        assert(a + b == b);
        assert(power(m, a) == 1);
    }
}

/// Decoding gives back the index, modulo the number of stencils of that
/// arity: `locations_index(decode_locations(i, m, n), m) == i % m^n`.
pub proof fn lemma_decode_index(i: nat, m: nat, n: nat)
    requires
        0 < m <= 0x10000,
    ensures
        decode_locations(i, m, n).len() == n,
        locations_index(decode_locations(i, m, n), m) == i % power(m, n),
        normalized(decode_locations(i, m, n), m),
    decreases n,
{
    let s = decode_locations(i, m, n);
    if n == 0 {
        assert(i % 1 == 0) by (nonlinear_arith);
    } else {
        let p = power(m, (n - 1) as nat);
        lemma_decode_index(i / m, m, (n - 1) as nat);
        assert(power(m, n) == m * p);
        lemma_power_positive(m, (n - 1) as nat);
        lemma_mod_bound(i as int, m as int);
        assert(s.drop_last() =~= decode_locations(i / m, m, (n - 1) as nat));
        assert(digit_of(location_of_digit(i % m)) == i % m);
        lemma_mod_breakdown(i as int, m as int, p as int);
        lemma_mul_is_commutative(m as int, p as int);
        assert forall|k: int| 0 <= k < s.len() implies match #[trigger] s[k] {
            Location::Stack(x) => x == 0,
            Location::Register(r) => r + 1 < m,
        } by {
            if k < s.len() - 1 {
                assert(s[k] == s.drop_last()[k]);
            }
        }
    }
}

pub proof fn lemma_decode_len(i: nat, m: nat, n: nat)
    requires
        m > 0,
    ensures
        decode_locations(i, m, n).len() == n,
    decreases n,
{
    if n > 0 {
        lemma_decode_len(i / m, m, (n - 1) as nat);
        assert(decode_locations(i, m, n) == decode_locations(i / m, m, (n - 1) as nat).push(
            location_of_digit(i % m),
        ));
    } else {
        assert(decode_locations(i, m, n) == Seq::<Location>::empty());
    }
}

/// Splitting: the first `a` of `a + b` decoded locations are the decoding of
/// what is left after the last `b` digits.
pub proof fn lemma_decode_split(i: nat, m: nat, a: nat, b: nat)
    requires
        m > 0,
    ensures
        decode_locations(i, m, a + b) == decode_locations(i / power(m, b), m, a)
            + decode_locations(i, m, b),
    decreases b,
{
    if b == 0 {
        assert(i / 1 == i) by (nonlinear_arith);
        assert(decode_locations(i, m, a + b) =~= decode_locations(i / power(m, b), m, a)
            + decode_locations(i, m, b));
    } else {
        let p = power(m, (b - 1) as nat);
        lemma_decode_split(i / m, m, a, (b - 1) as nat);
        lemma_power_positive(m, (b - 1) as nat);
        lemma_div_denominator(i as int, m as int, p as int);
        assert(power(m, b) == m * p);
        assert((a + b - 1) as nat == a + (b - 1) as nat);
        let lhs = decode_locations(i, m, a + b);
        assert(lhs == decode_locations(i / m, m, a + (b - 1) as nat).push(location_of_digit(i % m)));
        assert(decode_locations(i, m, b) == decode_locations(i / m, m, (b - 1) as nat).push(
            location_of_digit(i % m),
        ));
        assert(decode_locations(i, m, a + b) =~= decode_locations(i / power(m, b), m, a)
            + decode_locations(i, m, b));
    }
}

/// Encoding then decoding gives back the locations, with every stack slot
/// read as slot 0.
pub proof fn lemma_index_decode(s: Seq<Location>, m: nat)
    requires
        normalized(s, m),
        m > 0,
    ensures
        locations_index(s, m) < power(m, s.len()),
        decode_locations(locations_index(s, m), m, s.len()) == s,
    decreases s.len(),
{
    if s.len() > 0 {
        let t = s.drop_last();
        assert(normalized(t, m)) by {
            assert forall|k: int| 0 <= k < t.len() implies match #[trigger] t[k] {
                Location::Stack(x) => x == 0,
                Location::Register(r) => r + 1 < m,
            } by {
                assert(t[k] == s[k]);
            }
        }
        lemma_index_decode(t, m);
        let x = locations_index(t, m);
        let d = digit_of(s.last());
        assert(match s[s.len() - 1] {
            Location::Stack(x) => x == 0,
            Location::Register(r) => r + 1 < m,
        });
        assert(d < m);
        let i = m * x + d;
        assert(i / m == x && i % m == d) by {
            vstd::arithmetic::div_mod::lemma_fundamental_div_mod_converse(
                i as int,
                m as int,
                x as int,
                d as int,
            );
        }
        assert(location_of_digit(d) == s.last());
        assert(x + 1 <= power(m, t.len()));
        lemma_mul_inequality(x as int + 1, power(m, t.len()) as int, m as int);
        lemma_mul_is_commutative(m as int, power(m, t.len()) as int);
        lemma_mul_is_commutative(m as int, x as int + 1);
        assert(m * (x + 1) == m * x + m) by (nonlinear_arith);
        assert(power(m, s.len()) == m * power(m, t.len()));
        assert(decode_locations(i, m, s.len()) =~= s);
    }
}

} // verus!

verus! {

/// A prefix of a sequence of locations never has a larger number (in a base
/// of at least 1).
pub proof fn lemma_index_prefix(s: Seq<Location>, m: nat, j: int)
    requires
        m >= 1,
        0 <= j <= s.len(),
    ensures
        locations_index(s.take(j), m) <= locations_index(s, m),
    decreases s.len() - j,
{
    if j < s.len() {
        lemma_index_prefix(s, m, j + 1);
        let t = s.take(j + 1);
        assert(t.drop_last() =~= s.take(j));
        lemma_mul_inequality(1, m as int, locations_index(s.take(j), m) as int);
    } else {
        assert(s.take(j) =~= s);
    }
}

/// The number of stencils in one half (plain or wide) of a family:
/// `max_regs` to the power of the number of inputs and outputs.
pub fn stencils_len(inputs: usize, outputs: usize, max_regs: usize) -> (r: usize)
    requires
        inputs + outputs <= u32::MAX,
        power(max_regs as nat, (inputs + outputs) as nat) <= usize::MAX,
    ensures
        r == power(max_regs as nat, (inputs + outputs) as nat),
{
    let n: u32 = inputs as u32 + outputs as u32;
    let mut r: usize = 1;
    let mut k: u32 = 0;
    while k < n
        invariant
            k <= n,
            n == inputs + outputs,
            r == power(max_regs as nat, k as nat),
            power(max_regs as nat, n as nat) <= usize::MAX,
        decreases n - k,
    {
        proof {
            lemma_power_adds(max_regs as nat, (k + 1) as nat, (n - k - 1) as nat);
            assert((k + 1) as nat + (n - k - 1) as nat == n as nat);
            assert(power(max_regs as nat, (k + 1) as nat) == max_regs * r);
            if max_regs > 0 {
                lemma_power_positive(max_regs as nat, (n - k - 1) as nat);
                lemma_mul_inequality(
                    1,
                    power(max_regs as nat, (n - k - 1) as nat) as int,
                    power(max_regs as nat, (k + 1) as nat) as int,
                );
                lemma_mul_is_commutative(
                    power(max_regs as nat, (k + 1) as nat) as int,
                    power(max_regs as nat, (n - k - 1) as nat) as int,
                );
                assert(max_regs * r <= power(max_regs as nat, n as nat));
            } else {
                assert(max_regs * r == 0) by (nonlinear_arith)
                    requires
                        max_regs == 0,
                ;
            }
        }
        r = max_regs * r;
        k = k + 1;
    }
    r
}

/// The position of the stencil taking `inputs` and producing `outputs`
/// in a family over `max_regs` locations; the wide half comes after the
/// plain one.
pub fn io_to_index(inputs: &[Location], outputs: &[Location], max_regs: usize, wide: bool) -> (r:
    usize)
    requires
        inputs@.len() + outputs@.len() <= u32::MAX,
        locations_index(inputs@ + outputs@, max_regs as nat) + (if wide {
            power(max_regs as nat, inputs@.len() + outputs@.len())
        } else {
            0
        }) <= usize::MAX,
    ensures
        r == locations_index(inputs@ + outputs@, max_regs as nat) + (if wide {
            power(max_regs as nat, inputs@.len() + outputs@.len())
        } else {
            0
        }),
{
    let ghost s = inputs@ + outputs@;
    let ghost m = max_regs as nat;
    let nin = inputs.len();
    let nout = outputs.len();
    let mut i: usize = 0;
    let mut k: usize = 0;
    while k < nin + nout
        invariant
            k <= nin + nout,
            nin + nout <= u32::MAX,
            nin == inputs@.len(),
            nout == outputs@.len(),
            s == inputs@ + outputs@,
            m == max_regs,
            locations_index(s, m) <= usize::MAX,
            i == locations_index(s.take(k as int), m),
        decreases nin + nout - k,
    {
        let var = if k < nin {
            inputs[k]
        } else {
            outputs[k - nin]
        };
        assert(var == s[k as int]);
        let ghost t = s.take(k as int + 1);
        assert(t.drop_last() =~= s.take(k as int));
        proof {
            if m >= 1 {
                lemma_index_prefix(s, m, k as int + 1);
            }
        }
        let d: usize = match var {
            Location::Stack(_) => 0,
            Location::Register(r) => r as usize + 1,
        };
        i = max_regs * i + d;
        k = k + 1;
    }
    assert(s.take((nin + nout) as int) =~= s);
    if wide {
        i + stencils_len(nin, nout, max_regs)
    } else {
        i
    }
}

} // verus!

verus! {

/// Fills `slots` with the lowest `slots.len()` digits of `index` in base
/// `max_regs` (the last slot takes the lowest digit) and returns what is left.
fn process_index(index: usize, max_regs: usize, slots: &mut [Location]) -> (r: usize)
    requires
        old(slots)@.len() > 0 ==> 1 <= max_regs <= 0x10000,
    ensures
        final(slots)@ == decode_locations(index as nat, max_regs as nat, old(slots)@.len()),
        old(slots)@.len() > 0 ==> r == index as nat / power(max_regs as nat, old(slots)@.len()),
        old(slots)@.len() == 0 ==> r == index,
{
    let len = slots.len();
    let ghost m = max_regs as nat;
    let ghost i0 = index as nat;
    let mut index = index;
    let mut j = len;
    proof {
        if len > 0 {
            lemma_power_positive(m, 0);
        }
        assert(i0 / 1 == i0) by (nonlinear_arith);
    }
    while j > 0
        invariant
            j <= len,
            len == slots@.len(),
            len > 0 ==> 1 <= max_regs <= 0x10000,
            m == max_regs,
            slots@.subrange(j as int, len as int) == decode_locations(i0, m, (len - j) as nat),
            len > 0 ==> index == i0 / power(m, (len - j) as nat),
            len == 0 ==> index == i0,
        decreases j,
    {
        let reg = index % max_regs;
        let ghost c = (len - j) as nat;
        proof {
            lemma_power_positive(m, c);
            lemma_decode_split(i0, m, 1, c);
            lemma_div_denominator(i0 as int, power(m, c) as int, m as int);
            lemma_mul_is_commutative(power(m, c) as int, m as int);
            assert(power(m, c + 1) == m * power(m, c));
            assert(decode_locations(index as nat / m, m, 0) == Seq::<Location>::empty());
            assert(decode_locations(index as nat, m, 1) =~= seq![location_of_digit(index as nat % m)]);
            assert(1 + c == c + 1);
        }
        let loc = if reg == 0 {
            Location::Stack(0)
        } else {
            Location::Register(reg as u16 - 1)
        };
        slots[j - 1] = loc;
        assert(reg <= index) by (nonlinear_arith)
            requires
                reg == index % max_regs,
                max_regs > 0,
        ;
        let ghost old_index = index;
        index = (index - reg) / max_regs;
        proof {
            lemma_fundamental_div_mod(old_index as int, max_regs as int);
            assert((old_index - reg) / (max_regs as int) == old_index / max_regs) by (nonlinear_arith)
                requires
                    reg == old_index % max_regs,
                    max_regs > 0,
                    old_index == max_regs * (old_index / max_regs) + old_index % max_regs,
            ;
            assert(index == (i0 / power(m, c)) / m);
        }
        j = j - 1;
        assert(slots@.subrange(j as int, len as int) =~= decode_locations(i0, m, (len - j) as nat));
    }
    assert(slots@.subrange(0, len as int) =~= slots@);
    index
}

} // verus!

verus! {

/// Reads the locations back from a stencil's position in its family and
/// tells whether it is in the wide half. Stack slots all come back as slot 0.
pub fn index_to_io_lossy(
    index: usize,
    max_regs: usize,
    inputs: &mut [Location],
    outputs: &mut [Location],
) -> (r: bool)
    requires
        old(inputs)@.len() + old(outputs)@.len() > 0 ==> 1 <= max_regs <= 0x10000,
        index as nat / power(max_regs as nat, old(inputs)@.len() + old(outputs)@.len()) <= 1,
    ensures
        final(outputs)@ == decode_locations(index as nat, max_regs as nat, old(outputs)@.len()),
        final(inputs)@ == decode_locations(
            index as nat / power(max_regs as nat, old(outputs)@.len()),
            max_regs as nat,
            old(inputs)@.len(),
        ),
        r == (index as nat / power(max_regs as nat, old(inputs)@.len() + old(outputs)@.len())
            == 1),
{
    let ghost m = max_regs as nat;
    let ghost nin = inputs@.len();
    let ghost nout = outputs@.len();
    proof {
        assert(index as nat / 1 == index as nat) by (nonlinear_arith);
        assert(power(m, 0) == 1);
    }
    let index1 = process_index(index, max_regs, outputs);
    let index2 = process_index(index1, max_regs, inputs);
    proof {
        if nin > 0 && nout > 0 {
            lemma_power_positive(m, nout);
            lemma_power_positive(m, nin);
            lemma_div_denominator(index as int, power(m, nout) as int, power(m, nin) as int);
            lemma_power_adds(m, nout, nin);
            assert(nout + nin == nin + nout);
        }
    }
    index2 == 1
}

/// Numbering and reading back agree: reading back the locations of any
/// position in a family (plain or wide half) and numbering them again gives
/// the same position.
pub proof fn lemma_io_index_roundtrip(index: nat, m: nat, nin: nat, nout: nat)
    requires
        1 <= m <= 0x10000,
        index / power(m, nin + nout) <= 1,
    ensures
        ({
            let outs = decode_locations(index, m, nout);
            let ins = decode_locations(index / power(m, nout), m, nin);
            let wide = index / power(m, nin + nout) == 1;
            locations_index(ins + outs, m) + (if wide {
                power(m, ins.len() + outs.len())
            } else {
                0
            }) == index
        }),
{
    let outs = decode_locations(index, m, nout);
    let ins = decode_locations(index / power(m, nout), m, nin);
    let p = power(m, nin + nout);
    lemma_decode_split(index, m, nin, nout);
    lemma_decode_index(index, m, nin + nout);
    lemma_decode_index(index, m, nout);
    lemma_decode_index(index / power(m, nout), m, nin);
    lemma_power_positive(m, nin + nout);
    lemma_fundamental_div_mod(index as int, p as int);
    let q = index / p;
    assert(q == 0 || q == 1);
    if q == 1 {
        assert(p * q == p) by (nonlinear_arith)
            requires
                q == 1,
        ;
    } else {
        assert(p * q == 0) by (nonlinear_arith)
            requires
                q == 0,
        ;
    }
    assert(ins.len() + outs.len() == nin + nout);
}

/// Reading back the locations of a numbered sequence gives the sequence back
/// (stack slots being slot 0 and registers below `m - 1`).
pub proof fn lemma_index_io_roundtrip(ins: Seq<Location>, outs: Seq<Location>, m: nat)
    requires
        1 <= m,
        normalized(ins + outs, m),
    ensures
        ({
            let index = locations_index(ins + outs, m);
            &&& index < power(m, ins.len() + outs.len())
            &&& decode_locations(index, m, outs.len()) == outs
            &&& decode_locations(index / power(m, outs.len()), m, ins.len()) == ins
        }),
{
    let s = ins + outs;
    let index = locations_index(s, m);
    lemma_index_decode(s, m);
    lemma_decode_split(index, m, ins.len(), outs.len());
    let a = decode_locations(index / power(m, outs.len()), m, ins.len());
    let b = decode_locations(index, m, outs.len());
    lemma_decode_len(index / power(m, outs.len()), m, ins.len());
    lemma_decode_len(index, m, outs.len());
    assert(a + b == ins + outs);
    assert(a =~= (a + b).subrange(0, ins.len() as int));
    assert(b =~= (a + b).subrange(ins.len() as int, s.len() as int));
    assert(ins =~= s.subrange(0, ins.len() as int));
    assert(outs =~= s.subrange(ins.len() as int, s.len() as int));
}

} // verus!

verus! {

/// A stencil: a range of the library's code and the start of its
/// relocation list in its family's relocation pool.
///
/// The relocation list ends at the first `Invalid` (all zero) entry.
#[derive(Clone, Copy, Debug)]
pub struct Stencil<const IN: usize, const OUT: usize, const HOLES: usize, const JUMPS: usize> {
    pub code_index: u32,
    pub code_len: u16,
    pub relocation_index: u16,
}

pub type UntypedStencil = Stencil<0, 0, 0, 0>;

/// Packing of a stencil into 64 bits: code index in the low 32 bits, then
/// the code length, then the relocation index.
pub open spec fn stencil_bits(code_index: u32, code_len: u16, relocation_index: u16) -> u64 {
    (code_index as u64) | ((code_len as u64) << 32u64) | ((relocation_index as u64) << 48u64)
}

impl<const IN: usize, const OUT: usize, const HOLES: usize, const JUMPS: usize> Default for Stencil<
    IN,
    OUT,
    HOLES,
    JUMPS,
> {
    fn default() -> (r: Self)
        ensures
            r.code_index == 0 && r.code_len == 0 && r.relocation_index == 0,
    {
        Stencil { code_index: 0, code_len: 0, relocation_index: 0 }
    }
}

impl<const IN: usize, const OUT: usize, const HOLES: usize, const JUMPS: usize> Stencil<
    IN,
    OUT,
    HOLES,
    JUMPS,
> {
    pub open spec fn spec_into_bits(self) -> u64 {
        stencil_bits(self.code_index, self.code_len, self.relocation_index)
    }

    /// A stencil that is all zero stands for a missing one.
    pub open spec fn is_present(self) -> bool {
        self.spec_into_bits() != 0
    }

    pub fn from_bits(bits: u64) -> (r: Self)
        ensures
            r.code_index == (bits & 0xFFFFFFFF) as u32,
            r.code_len == ((bits >> 32u64) & 0xFFFF) as u16,
            r.relocation_index == ((bits >> 48u64) & 0xFFFF) as u16,
            r.spec_into_bits() == bits,
    {
        let r = Stencil {
            code_index: (bits & 0xFFFFFFFF) as u32,
            code_len: ((bits >> 32u64) & 0xFFFF) as u16,
            relocation_index: ((bits >> 48u64) & 0xFFFF) as u16,
        };
        assert(stencil_bits(
            (bits & 0xFFFFFFFF) as u32,
            ((bits >> 32u64) & 0xFFFF) as u16,
            ((bits >> 48u64) & 0xFFFF) as u16,
        ) == bits) by (bit_vector);
        r
    }

    pub fn into_bits(self) -> (r: u64)
        ensures
            r == self.spec_into_bits(),
    {
        (self.code_index as u64) | ((self.code_len as u64) << 32u64) | ((
        self.relocation_index as u64) << 48u64)
    }

    /// The stencil's machine code within the library's code.
    pub fn code<'a>(&self, store: &'a [u8]) -> (r: &'a [u8])
        requires
            self.code_index + self.code_len <= store@.len(),
        ensures
            r@ == store@.subrange(
                self.code_index as int,
                self.code_index + self.code_len,
            ),
    {
        let _len = store.len();
        vstd::slice::slice_subrange(
            store,
            self.code_index as usize,
            self.code_index as usize + self.code_len as usize,
        )
    }

    /// The relocation pool from this stencil's first relocation on.
    pub fn relocations<'a, const MAX_REGS: usize>(
        &self,
        store: &'a StencilFamily<IN, OUT, MAX_REGS, HOLES, JUMPS>,
    ) -> (r: &'a [Relocation])
        requires
            self.relocation_index <= store.relocation_data@.len(),
        ensures
            r@ == store.relocation_data@.subrange(
                self.relocation_index as int,
                store.relocation_data@.len() as int,
            ),
    {
        vstd::slice::slice_subrange(
            store.relocation_data,
            self.relocation_index as usize,
            store.relocation_data.len(),
        )
    }

    /// The same stencil without its arity.
    pub fn untyped(&self) -> (r: UntypedStencil)
        ensures
            r.code_index == self.code_index,
            r.code_len == self.code_len,
            r.relocation_index == self.relocation_index,
    {
        let bits = self.into_bits();
        let r = UntypedStencil::from_bits(bits);
        proof {
            let (a, b, c) = (self.code_index, self.code_len, self.relocation_index);
            assert({
                let x = stencil_bits(a, b, c);
                &&& (x & 0xFFFFFFFF) as u32 == a
                &&& ((x >> 32u64) & 0xFFFF) as u16 == b
                &&& ((x >> 48u64) & 0xFFFF) as u16 == c
            }) by (bit_vector);
        }
        r
    }
}

/// Packing then unpacking a stencil gives it back.
pub proof fn lemma_stencil_bits_roundtrip(code_index: u32, code_len: u16, relocation_index: u16)
    ensures
        ({
            let x = stencil_bits(code_index, code_len, relocation_index);
            &&& (x & 0xFFFFFFFF) as u32 == code_index
            &&& ((x >> 32u64) & 0xFFFF) as u16 == code_len
            &&& ((x >> 48u64) & 0xFFFF) as u16 == relocation_index
        }),
{
    assert({
        let x = stencil_bits(code_index, code_len, relocation_index);
        &&& (x & 0xFFFFFFFF) as u32 == code_index
        &&& ((x >> 32u64) & 0xFFFF) as u16 == code_len
        &&& ((x >> 48u64) & 0xFFFF) as u16 == relocation_index
    }) by (bit_vector);
}

/// Unpacking then packing any 64-bit word gives it back.
pub proof fn lemma_bits_stencil_roundtrip(bits: u64)
    ensures
        stencil_bits(
            (bits & 0xFFFFFFFF) as u32,
            ((bits >> 32u64) & 0xFFFF) as u16,
            ((bits >> 48u64) & 0xFFFF) as u16,
        ) == bits,
{
    assert(stencil_bits(
        (bits & 0xFFFFFFFF) as u32,
        ((bits >> 32u64) & 0xFFFF) as u16,
        ((bits >> 48u64) & 0xFFFF) as u16,
    ) == bits) by (bit_vector);
}

/// All the variants of one stencil, one for each placement of its inputs and
/// outputs in registers or on the stack (see `io_to_index`).
pub struct StencilFamily<
    const IN: usize,
    const OUT: usize,
    const MAX_REGS: usize,
    const HOLES: usize,
    const JUMPS: usize,
> {
    /// Pool of stencil relocation data, possibly shared by multiple stencils
    pub relocation_data: &'static [Relocation],
    pub stencils: &'static [Stencil<IN, OUT, HOLES, JUMPS>],
}

} // verus!

verus! {

/// The number of locations on the stack.
pub open spec fn stack_count(s: Seq<Location>) -> nat
    decreases s.len(),
{
    if s.len() == 0 {
        0
    } else {
        stack_count(s.drop_last()) + if s.last() is Stack {
            1nat
        } else {
            0nat
        }
    }
}

pub open spec fn is_invalid_entry(r: Relocation) -> bool {
    crate::relocation::encoding_of(r@) == crate::relocation::RelocationEncoding::Invalid
}

/// The entries of `data` from `start` on that a stencil uses: those before
/// the first `Invalid` one.
pub open spec fn in_relocation_list(data: Seq<Relocation>, start: int, j: int) -> bool {
    &&& start <= j < data.len()
    &&& forall|k: int| start <= k < j ==> !is_invalid_entry(#[trigger] data[k])
    &&& !is_invalid_entry(data[j])
}

/// Whether a stencil whose relocation list starts at `j` needs its wide
/// variant for these hole values: some hole relocation cannot hold its
/// value, or the list has no end marker.
pub open spec fn needs_wide(data: Seq<Relocation>, j: int, holes: Seq<usize>) -> bool
    decreases data.len() - j,
{
    if j >= data.len() || j < 0 {
        true
    } else if is_invalid_entry(data[j]) {
        false
    } else if (match crate::relocation::patch_info_of(data[j]@) {
        Some(PatchInfo::Hole(i)) => !crate::relocation::supports_value_spec(
            data[j]@,
            holes[i as int],
        ),
        _ => false,
    }) {
        true
    } else {
        needs_wide(data, j + 1, holes)
    }
}

/// What a relocation of a stencil needs to be patched safely: room in the
/// stencil's code, a known kind, and an index in range for what it refers to.
pub open spec fn relocation_ok(
    b: u64,
    code_len: nat,
    holes: nat,
    n_stack: nat,
    jumps: nat,
    n_runtime: nat,
) -> bool {
    &&& crate::relocation::writable(b, 0, code_len as int)
    &&& match crate::relocation::patch_info_of(b) {
        Some(PatchInfo::Hole(i)) => i < holes,
        Some(PatchInfo::Stack(i)) => i < n_stack,
        Some(PatchInfo::Target(i)) => i < jumps,
        Some(PatchInfo::Runtime(i)) => i < n_runtime,
        None => false,
    }
}

/// How a stencil's relocations lie in its code of `code_len` bytes, whose
/// last `empty_len` bytes may be a jump to the next stencil that is cut when
/// that stencil follows directly: the relocations come in the order of their
/// offsets, each but the last ends before those bytes, and a stencil with
/// relocations is at least that long.
pub open spec fn tail_ok(data: Seq<Relocation>, start: int, code_len: nat, empty_len: nat) -> bool {
    &&& in_relocation_list(data, start, start) ==> empty_len <= code_len
    &&& forall|j: int, k: int|
        #![trigger data[j], data[k]]
        k == j + 1 && in_relocation_list(data, start, j) && in_relocation_list(data, start, k) ==> {
            &&& crate::relocation::offset_field(data[j]@) <= crate::relocation::offset_field(
                data[k]@,
            )
            &&& crate::relocation::offset_field(data[j]@) + crate::relocation::width_of(data[j]@)
                + empty_len <= code_len
        }
}

/// What `select` returns: whether the wide half is used, and the position.
pub struct SelectedStencil<const IN: usize, const OUT: usize, const HOLES: usize, const JUMPS: usize> {
    pub wide: bool,
    pub stencil: Stencil<IN, OUT, HOLES, JUMPS>,
}

impl<
    const IN: usize,
    const OUT: usize,
    const MAX_REGS: usize,
    const HOLES: usize,
    const JUMPS: usize,
> StencilFamily<IN, OUT, MAX_REGS, HOLES, JUMPS> {
    /// The number of stencils in each half of the family.
    pub open spec fn half_len() -> nat {
        power(MAX_REGS as nat, (IN + OUT) as nat)
    }

    /// The family has at least a full plain half, over a base that digits fit.
    pub open spec fn shape_ok(&self) -> bool {
        &&& IN + OUT <= u32::MAX
        &&& 1 <= MAX_REGS <= 0x10000
        &&& Self::half_len() <= self.stencils@.len()
    }

    /// What the present stencil at `idx` needs to be copied and patched into
    /// code, given `code_len` bytes of library code and `n_runtime` runtime
    /// functions.
    pub open spec fn stencil_ok(&self, idx: int, code_len: nat, n_runtime: nat, empty_len: nat) -> bool {
        let s = self.stencils@[idx];
        let data = self.relocation_data@;
        let n_stack = stack_count(
            decode_locations((idx % Self::half_len() as int) as nat, MAX_REGS as nat, (IN + OUT) as nat),
        );
        &&& s.code_index + s.code_len <= code_len
        &&& s.relocation_index <= data.len()
        &&& forall|j: int|
            #![trigger data[j]]
            in_relocation_list(data, s.relocation_index as int, j) ==> relocation_ok(
                data[j]@,
                s.code_len as nat,
                HOLES as nat,
                n_stack,
                JUMPS as nat,
                n_runtime,
            )
        &&& tail_ok(data, s.relocation_index as int, s.code_len as nat, empty_len)
    }

    /// Every present stencil of the family can be copied and patched, and
    /// its relocations lie as `tail_ok` says.
    pub open spec fn wf(&self, code_len: nat, n_runtime: nat, empty_len: nat) -> bool {
        &&& self.shape_ok()
        &&& forall|idx: int|
            0 <= idx < self.stencils@.len() && (#[trigger] self.stencils@[idx]).is_present()
                ==> self.stencil_ok(idx, code_len, n_runtime, empty_len)
    }

    /// What `select` needs: the shape, and hole indices in range in the
    /// relocation lists of present stencils.
    pub open spec fn select_ok(&self) -> bool {
        &&& self.shape_ok()
        &&& forall|idx: int, j: int|
            #![trigger self.stencils@[idx], self.relocation_data@[j]]
            0 <= idx < self.stencils@.len() && self.stencils@[idx].is_present()
                && in_relocation_list(
                self.relocation_data@,
                self.stencils@[idx].relocation_index as int,
                j,
            ) ==> (match crate::relocation::patch_info_of(self.relocation_data@[j]@) {
                Some(PatchInfo::Hole(i)) => i < HOLES,
                _ => true,
            })
    }

    /// The position `select` picks, with whether it is in the wide half.
    pub open spec fn selected(&self, ins: Seq<Location>, outs: Seq<Location>, holes: Seq<usize>) -> Option<
        (bool, int),
    > {
        let idx = locations_index(ins + outs, MAX_REGS as nat) as int;
        let st = self.stencils@;
        if idx >= st.len() || !st[idx].is_present() {
            None
        } else if !needs_wide(self.relocation_data@, st[idx].relocation_index as int, holes) {
            Some((false, idx))
        } else if idx + Self::half_len() >= st.len() || !st[idx + Self::half_len()].is_present() {
            None
        } else {
            Some((true, idx + Self::half_len()))
        }
    }

    pub fn inputs(&self) -> (r: usize)
        ensures
            r == IN,
    {
        IN
    }

    pub fn outputs(&self) -> (r: usize)
        ensures
            r == OUT,
    {
        OUT
    }

    pub fn max_regs(&self) -> (r: usize)
        ensures
            r == MAX_REGS,
    {
        MAX_REGS
    }

    pub fn holes(&self) -> (r: usize)
        ensures
            r == HOLES,
    {
        HOLES
    }

    pub fn jumps(&self) -> (r: usize)
        ensures
            r == JUMPS,
    {
        JUMPS
    }
}

} // verus!

verus! {

impl<
    const IN: usize,
    const OUT: usize,
    const MAX_REGS: usize,
    const HOLES: usize,
    const JUMPS: usize,
> StencilFamily<IN, OUT, MAX_REGS, HOLES, JUMPS> {
    /// Picks the stencil for these input and output locations.
    ///
    /// The plain variant is used when every hole relocation in its list can
    /// hold its hole value; otherwise the wide variant (which reads holes from
    /// constants stored after the code) is used. A position out of the family
    /// or a missing (all zero) stencil gives `None`.
    pub fn select(&self, inputs: &[Location; IN], outputs: &[Location; OUT], holes: &[usize; HOLES]) -> (r:
        Option<SelectedStencil<IN, OUT, HOLES, JUMPS>>)
        requires
            self.select_ok(),
            forall|k: int|
                0 <= k < inputs@.len() + outputs@.len() ==> digit_of(#[trigger] (inputs@
                    + outputs@)[k]) < MAX_REGS,
        ensures
            match self.selected(inputs@, outputs@, holes@) {
                None => r is None,
                Some((w, i)) => r matches Some(sel) && sel.wide == w && sel.stencil
                    == self.stencils@[i],
            },
    {
        let ins = inputs.as_slice();
        let outs = outputs.as_slice();
        let ghost s = ins@ + outs@;
        let len = self.stencils.len();
        proof {
            assert(normalized_registers(s, MAX_REGS as nat));
            lemma_index_bound(s, MAX_REGS as nat);
            assert(ins@.len() == IN && outs@.len() == OUT);
        }
        let index = io_to_index(ins, outs, MAX_REGS, false);
        if index >= len {
            return None;
        }
        let stencil = self.stencils[index];
        if stencil.into_bits() == 0 {
            return None;
        }
        let data = self.relocation_data;
        let mut j = stencil.relocation_index as usize;
        let dlen = data.len();
        let mut wide = true;
        while j < dlen
            invariant_except_break
                wide,
                needs_wide(data@, stencil.relocation_index as int, holes@) == needs_wide(data@, j as int, holes@),
            invariant
                self.select_ok(),
                data@ == self.relocation_data@,
                dlen == data@.len(),
                index < self.stencils@.len(),
                stencil == self.stencils@[index as int],
                stencil.is_present(),
                stencil.relocation_index <= j,
                forall|k: int| stencil.relocation_index <= k < j ==> !is_invalid_entry(#[trigger] data@[k]),
            ensures
                wide == needs_wide(data@, stencil.relocation_index as int, holes@),
            decreases dlen - j,
        {
            let reloc = data[j];
            if reloc.is_invalid() {
                wide = false;
                break;
            }
            match reloc.patch_info() {
                Some(PatchInfo::Hole(i)) => {
                    assert(in_relocation_list(data@, stencil.relocation_index as int, j as int));
                    if !reloc.supports_value(holes[i as usize]) {
                        break;
                    }
                },
                _ => {},
            }
            j = j + 1;
        }
        if !wide {
            return Some(SelectedStencil { wide: false, stencil });
        }
        let half = stencils_len(IN, OUT, MAX_REGS);
        if half >= len - index {
            return None;
        }
        let wide_stencil = self.stencils[index + half];
        if wide_stencil.into_bits() == 0 {
            return None;
        }
        Some(SelectedStencil { wide: true, stencil: wide_stencil })
    }
}

/// Every register location has a digit of base `m`.
pub open spec fn normalized_registers(s: Seq<Location>, m: nat) -> bool {
    forall|k: int| 0 <= k < s.len() ==> digit_of(#[trigger] s[k]) < m
}

/// Locations whose digits are below `m` number below `m^len`.
pub proof fn lemma_index_bound(s: Seq<Location>, m: nat)
    requires
        normalized_registers(s, m),
    ensures
        locations_index(s, m) < power(m, s.len()),
    decreases s.len(),
{
    if s.len() > 0 {
        let t = s.drop_last();
        assert(normalized_registers(t, m)) by {
            assert forall|k: int| 0 <= k < t.len() implies digit_of(#[trigger] t[k]) < m by {
                assert(t[k] == s[k]);
            }
        }
        lemma_index_bound(t, m);
        let x = locations_index(t, m);
        let d = digit_of(s.last());
        assert(d < m) by {
            assert(digit_of(s[s.len() - 1]) < m);
        }
        assert(x + 1 <= power(m, t.len()));
        lemma_mul_inequality(x as int + 1, power(m, t.len()) as int, m as int);
        lemma_mul_is_commutative(m as int, power(m, t.len()) as int);
        lemma_mul_is_commutative(m as int, x as int + 1);
        assert(m * (x + 1) == m * x + m) by (nonlinear_arith);
        assert(power(m, s.len()) == m * power(m, t.len()));
    }
}

} // verus!

verus! {

/// The stack a stencil reads spilled values from and writes them to.
///
/// The compiler will generate code that uses stacks when a variable is
/// determined to be "spilled". Implementations must be inlined and must not
/// involve further linkage, as the stencils are copied out of the compiled
/// code.
pub trait StencilStack {
    fn get(&self, i: usize) -> usize;

    fn set(&mut self, i: usize, v: usize);
}

/// A library of stencils: all stencil code, the code of an empty stencil
/// (used to prune jumps to the next stencil), the stencils that move values
/// and long-jump to runtime functions, and the addresses of runtime functions.
pub struct StencilLibrary<const MAX_REGS: usize> {
    /// All the stencil binary code, referred to by stencils
    pub code: &'static [u8],
    /// The code for an empty stencil, used to prune consecutive jumps
    pub empty: &'static [u8],
    /// Stencils that move a value between locations
    pub moves: &'static StencilFamily<1, 1, MAX_REGS, 0, 1>,
    /// Stencils that jump to an absolute address held in their hole
    pub long_jump: &'static StencilFamily<0, 0, MAX_REGS, 1, 0>,
    /// Addresses of the runtime functions stencils may call
    pub rt_symbols: &'static [usize],
}

impl<const MAX_REGS: usize> StencilLibrary<MAX_REGS> {
    /// The library's families can be copied and patched with its code and
    /// runtime functions.
    pub open spec fn wf(&self) -> bool {
        &&& self.long_jump.wf(self.code@.len(), self.rt_symbols@.len(), self.empty@.len())
        &&& self.moves.wf(self.code@.len(), self.rt_symbols@.len(), self.empty@.len())
    }
}

} // verus!

verus! {

/// Numbering and reading back keeps which locations are on the stack.
pub proof fn lemma_decode_stack_count(s: Seq<Location>, m: nat)
    requires
        m >= 1,
        normalized_registers(s, m),
    ensures
        stack_count(decode_locations(locations_index(s, m), m, s.len())) == stack_count(s),
    decreases s.len(),
{
    if s.len() > 0 {
        let t = s.drop_last();
        assert(normalized_registers(t, m)) by {
            assert forall|k: int| 0 <= k < t.len() implies digit_of(#[trigger] t[k]) < m by {
                assert(t[k] == s[k]);
            }
        }
        lemma_decode_stack_count(t, m);
        let x = locations_index(t, m);
        let d = digit_of(s.last());
        assert(d < m) by {
            assert(digit_of(s[s.len() - 1]) < m);
        }
        let i = m * x + d;
        assert(i / m == x && i % m == d) by {
            vstd::arithmetic::div_mod::lemma_fundamental_div_mod_converse(
                i as int,
                m as int,
                x as int,
                d as int,
            );
        }
        let dec = decode_locations(i, m, s.len());
        assert(dec == decode_locations(x, m, t.len()).push(location_of_digit(d)));
        assert(dec.drop_last() =~= decode_locations(x, m, t.len()));
    }
}

/// A family that can be copied and patched can be selected from.
pub proof fn lemma_wf_select_ok_in<
    const IN: usize,
    const OUT: usize,
    const MAX_REGS: usize,
    const HOLES: usize,
    const JUMPS: usize,
>(fam: StencilFamily<IN, OUT, MAX_REGS, HOLES, JUMPS>, code_len: nat, n_runtime: nat, empty_len: nat)
    requires
        fam.wf(code_len, n_runtime, empty_len),
    ensures
        fam.select_ok(),
{
    assert forall|idx: int, j: int|
        #![trigger fam.stencils@[idx], fam.relocation_data@[j]]
        0 <= idx < fam.stencils@.len() && fam.stencils@[idx].is_present() && in_relocation_list(
            fam.relocation_data@,
            fam.stencils@[idx].relocation_index as int,
            j,
        ) implies (match crate::relocation::patch_info_of(fam.relocation_data@[j]@) {
        Some(PatchInfo::Hole(i)) => i < HOLES,
        _ => true,
    }) by {
        assert(fam.stencil_ok(idx, code_len, n_runtime, empty_len));
    }
}

} // verus!

verus! {

/// The plain half of a family is used exactly when the stencil's relocation
/// list ends (an `Invalid` entry follows it) and every hole relocation in
/// it can hold the value of its hole; otherwise the wide half is used.
pub proof fn lemma_plain_iff_every_hole_fits(data: Seq<Relocation>, j: int, holes: Seq<usize>)
    requires
        0 <= j,
    ensures
        !needs_wide(data, j, holes) <==> {
            &&& exists|e: int| j <= e < data.len() && #[trigger] is_invalid_entry(data[e])
            &&& forall|m: int|
                #![trigger data[m]]
                in_relocation_list(data, j, m) ==> match crate::relocation::patch_info_of(data[m]@) {
                    Some(PatchInfo::Hole(i)) => crate::relocation::supports_value_spec(
                        data[m]@,
                        holes[i as int],
                    ),
                    _ => true,
                }
        },
    decreases data.len() - j,
{
    if j >= data.len() {
    } else if is_invalid_entry(data[j]) {
        assert(is_invalid_entry(data[j]));
        assert forall|m: int| #![trigger data[m]] in_relocation_list(data, j, m) implies false by {
            if m > j {
                assert(!is_invalid_entry(data[j]));
            }
        }
    } else if (match crate::relocation::patch_info_of(data[j]@) {
        Some(PatchInfo::Hole(i)) => !crate::relocation::supports_value_spec(data[j]@, holes[i as int]),
        _ => false,
    }) {
        assert(in_relocation_list(data, j, j));
    } else {
        lemma_plain_iff_every_hole_fits(data, j + 1, holes);
        if exists|e: int| j <= e < data.len() && #[trigger] is_invalid_entry(data[e]) {
            let e = choose|e: int| j <= e < data.len() && #[trigger] is_invalid_entry(data[e]);
            assert(e != j);
            assert(j + 1 <= e < data.len() && is_invalid_entry(data[e]));
        }
        assert forall|m: int| #![trigger data[m]] in_relocation_list(data, j, m) && m != j implies in_relocation_list(
            data,
            j + 1,
            m,
        ) by {}
        assert forall|m: int| #![trigger data[m]] in_relocation_list(data, j + 1, m) implies in_relocation_list(
            data,
            j,
            m,
        ) by {
            assert forall|k: int| j <= k < m implies !is_invalid_entry(#[trigger] data[k]) by {
                if k > j {
                    assert(j + 1 <= k < m);
                }
            }
        }
    }
}

} // verus!
