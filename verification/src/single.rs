//! What the single-stencil attribute generates for one function with the C
//! calling convention: its arguments must come before its holes, its
//! returns are passed on under the names `in0`, `in1`, …, and each hole is
//! read from a static `HOLE0`, `HOLE1`, ….
use vstd::prelude::*;

use crate::expand::{decimal, names};

verus! {

/// An argument of a single stencil: a receiver, or a typed argument with
/// its name when its pattern is a plain identifier and whether it carries
/// `#[hole]`.
#[derive(Debug)]
pub enum SingleArg {
    Receiver,
    Typed { name: Option<String>, hole: bool },
}

/// Why a single stencil's signature is refused.
#[derive(Debug, Clone, Copy, PartialEq, Eq, Structural)]
pub enum SingleError {
    UnsupportedArgType,
    UnsupportedArgPattern,
    InputsAfterHoles,
    ReturnTypeExpected,
}

/// The message for each refused single stencil.
pub open spec fn single_error_text(e: SingleError) -> Seq<char> {
    match e {
        SingleError::UnsupportedArgType => "unsupported arg type"@,
        SingleError::UnsupportedArgPattern => "unsupported arg pattern"@,
        SingleError::InputsAfterHoles => "input args must come before holes"@,
        SingleError::ReturnTypeExpected => "return type expected"@,
    }
}

impl SingleError {
    /// The message for the error.
    pub fn message(&self) -> (r: &'static str)
        ensures
            r@ == single_error_text(*self),
    {
        match self {
            SingleError::UnsupportedArgType => "unsupported arg type",
            SingleError::UnsupportedArgPattern => "unsupported arg pattern",
            SingleError::InputsAfterHoles => "input args must come before holes",
            SingleError::ReturnTypeExpected => "return type expected",
        }
    }
}

/// The signature of a single stencil: its arguments, then its holes, by
/// name, and how many values it returns.
#[derive(Debug)]
pub struct SingleSignature {
    pub inputs: Vec<String>,
    pub holes: Vec<String>,
    pub outputs: usize,
}

/// What is wrong with argument `k`, holes having been met before it or not.
pub open spec fn single_arg_error(a: SingleArg, holes_before: bool) -> Option<SingleError> {
    match a {
        SingleArg::Receiver => Some(SingleError::UnsupportedArgType),
        SingleArg::Typed { name: None, .. } => Some(SingleError::UnsupportedArgPattern),
        SingleArg::Typed { name: Some(_), hole } => if !hole && holes_before {
            Some(SingleError::InputsAfterHoles)
        } else {
            None
        },
    }
}

/// Whether one of the first `k` arguments is a hole.
pub open spec fn hole_before(args: Seq<SingleArg>, k: int) -> bool {
    exists|j: int| 0 <= j < k && (#[trigger] args[j]) matches SingleArg::Typed { hole: true, .. }
}

/// The first refused argument from `k` on, if any.
pub open spec fn first_single_error(args: Seq<SingleArg>, k: int) -> Option<SingleError>
    decreases args.len() - k,
{
    if k < 0 || k >= args.len() {
        None
    } else {
        match single_arg_error(args[k], hole_before(args, k)) {
            Some(e) => Some(e),
            None => first_single_error(args, k + 1),
        }
    }
}

/// The names of the plain arguments, or of the holes, among the first `k`.
pub open spec fn single_names(args: Seq<SingleArg>, k: int, holes: bool) -> Seq<Seq<char>>
    decreases k,
{
    if k <= 0 {
        Seq::empty()
    } else {
        let prev = single_names(args, k - 1, holes);
        match args[k - 1] {
            SingleArg::Typed { name: Some(n), hole } => if hole == holes {
                prev.push(n@)
            } else {
                prev
            },
            _ => prev,
        }
    }
}

impl SingleSignature {
    /// Reads a single stencil's signature from its arguments and its return
    /// type: none, or a type standing for `returns` values (a tuple's
    /// elements, else one).
    pub fn parse(args: &Vec<SingleArg>, returns_count: Option<usize>) -> (r: Result<SingleSignature, SingleError>)
        ensures
            match first_single_error(args@, 0) {
                Some(e) => r == Err::<SingleSignature, SingleError>(e),
                None => match returns_count {
                    None => r == Err::<SingleSignature, SingleError>(SingleError::ReturnTypeExpected),
                    Some(n) => r matches Ok(s) && names(s.inputs@) == single_names(args@, args@.len() as int, false)
                        && names(s.holes@) == single_names(args@, args@.len() as int, true) && s.outputs == n,
                },
            },
    {
        let ghost a = args@;
        let mut inputs: Vec<String> = Vec::new();
        let mut holes: Vec<String> = Vec::new();
        let n = args.len();
        let mut k: usize = 0;
        while k < n
            invariant
                k <= n,
                n == a.len(),
                a == args@,
                first_single_error(a, 0) == first_single_error(a, k as int),
                (holes@.len() > 0) == hole_before(a, k as int),
                names(inputs@) =~= single_names(a, k as int, false),
                names(holes@) =~= single_names(a, k as int, true),
            decreases n - k,
        {
            proof {
                assert(single_names(a, k as int + 1, false) == (match a[k as int] {
                    SingleArg::Typed { name: Some(nm), hole } => if !hole {
                        single_names(a, k as int, false).push(nm@)
                    } else {
                        single_names(a, k as int, false)
                    },
                    _ => single_names(a, k as int, false),
                }));
            }
            match &args[k] {
                SingleArg::Receiver => {
                    return Err(SingleError::UnsupportedArgType);
                },
                SingleArg::Typed { name, hole } => {
                    let nm = match name {
                        Some(nm) => nm,
                        None => {
                            return Err(SingleError::UnsupportedArgPattern);
                        },
                    };
                    if *hole {
                        let ghost h0 = holes@;
                        holes.push(nm.clone());
                        proof {
                            assert(names(holes@) =~= names(h0).push(nm@));
                            assert(a[k as int] matches SingleArg::Typed { hole: true, .. });
                            assert(hole_before(a, k as int + 1)) by {
                                assert(a[k as int] matches SingleArg::Typed { hole: true, .. });
                            }
                        }
                    } else {
                        if holes.len() > 0 {
                            return Err(SingleError::InputsAfterHoles);
                        }
                        let ghost i0 = inputs@;
                        inputs.push(nm.clone());
                        proof {
                            assert(names(inputs@) =~= names(i0).push(nm@));
                            assert(!hole_before(a, k as int + 1)) by {
                                if hole_before(a, k as int + 1) {
                                    let j = choose|j: int|
                                        0 <= j < k + 1 && (#[trigger] a[j]) matches SingleArg::Typed {
                                            hole: true,
                                            ..
                                        };
                                    if j < k {
                                        assert(hole_before(a, k as int));
                                    }
                                }
                            }
                        }
                    }
                },
            }
            k = k + 1;
        }
        match returns_count {
            None => Err(SingleError::ReturnTypeExpected),
            Some(outputs) => Ok(SingleSignature { inputs, holes, outputs }),
        }
    }
}

/// What a single stencil holds: the names its returns are passed on under,
/// what the user's function is called with, and each hole's variable with
/// the static it is read from.
#[derive(Debug)]
pub struct SinglePlan {
    pub output_names: Vec<String>,
    pub impl_args: Vec<String>,
    pub hole_statics: Vec<(String, String)>,
}

/// `in<i>`.
pub open spec fn output_name(i: nat) -> Seq<char> {
    seq!['i', 'n'] + decimal(i)
}

/// `HOLE<i>`.
pub open spec fn hole_static(i: nat) -> Seq<char> {
    seq!['H', 'O', 'L', 'E'] + decimal(i)
}

/// `prefix` followed by the decimal numeral of `i`.
fn numbered(prefix: &[char], i: usize) -> (r: String)
    ensures
        r@ == prefix@ + decimal(i as nat),
{
    let mut s = String::new();
    crate::expand::push_chars(&mut s, prefix);
    crate::expand::push_decimal(&mut s, i as u64);
    s
}

impl SingleSignature {
    /// Plans the stencil: its returns are named `in0`, `in1`, …; the user's
    /// function gets as many of those as there are arguments (no more than
    /// there are returns), then the holes; hole `i` is read from `HOLE<i>`.
    pub fn plan(&self) -> (r: SinglePlan)
        ensures
            names(r.output_names@) == Seq::new(self.outputs as nat, |i: int| output_name(i as nat)),
            names(r.impl_args@) == Seq::new(
                (if self.inputs@.len() < self.outputs { self.inputs@.len() } else { self.outputs as nat }),
                |i: int| output_name(i as nat),
            ) + names(self.holes@),
            r.hole_statics@.map_values(|p: (String, String)| (p.0@, p.1@)) == Seq::new(
                self.holes@.len(),
                |i: int| (self.holes@[i]@, hole_static(i as nat)),
            ),
    {
        let mut output_names: Vec<String> = Vec::new();
        let mut i: usize = 0;
        while i < self.outputs
            invariant
                i <= self.outputs,
                names(output_names@) =~= Seq::new(i as nat, |j: int| output_name(j as nat)),
            decreases self.outputs - i,
        {
            let s = numbered(&['i', 'n'], i);
            let ghost o0 = output_names@;
            output_names.push(s);
            proof {
                assert(names(output_names@) =~= names(o0).push(output_name(i as nat)));
            }
            i = i + 1;
        }
        let take = if self.inputs.len() < self.outputs {
            self.inputs.len()
        } else {
            self.outputs
        };
        let mut impl_args: Vec<String> = Vec::new();
        let mut j: usize = 0;
        while j < take
            invariant
                j <= take,
                take <= self.outputs,
                output_names@.len() == self.outputs,
                names(output_names@) == Seq::new(self.outputs as nat, |j: int| output_name(j as nat)),
                names(impl_args@) =~= Seq::new(j as nat, |k: int| output_name(k as nat)),
            decreases take - j,
        {
            let s = output_names[j].clone();
            proof {
                assert(names(output_names@)[j as int] == output_names@[j as int]@);
            }
            let ghost a0 = impl_args@;
            impl_args.push(s);
            proof {
                assert(names(impl_args@) =~= names(a0).push(output_name(j as nat)));
            }
            j = j + 1;
        }
        let ghost before = names(impl_args@);
        let mut hole_statics: Vec<(String, String)> = Vec::new();
        let mut h: usize = 0;
        while h < self.holes.len()
            invariant
                h <= self.holes@.len(),
                names(impl_args@) =~= before + names(self.holes@).take(h as int),
                hole_statics@.map_values(|p: (String, String)| (p.0@, p.1@)) =~= Seq::new(
                    h as nat,
                    |i: int| (self.holes@[i]@, hole_static(i as nat)),
                ),
            decreases self.holes@.len() - h,
        {
            let name = self.holes[h].clone();
            let st = numbered(&['H', 'O', 'L', 'E'], h);
            let ghost s0 = hole_statics@;
            let ghost a0 = impl_args@;
            hole_statics.push((name.clone(), st));
            impl_args.push(name);
            proof {
                assert(names(impl_args@) =~= names(a0).push(self.holes@[h as int]@));
                assert(names(self.holes@).take(h as int + 1) =~= names(self.holes@).take(h as int).push(
                    self.holes@[h as int]@,
                ));
                assert(hole_statics@.map_values(|p: (String, String)| (p.0@, p.1@)) =~= s0.map_values(
                    |p: (String, String)| (p.0@, p.1@),
                ).push((self.holes@[h as int]@, hole_static(h as nat))));
            }
            h = h + 1;
        }
        proof {
            assert(names(self.holes@).take(self.holes@.len() as int) =~= names(self.holes@));
        }
        SinglePlan { output_names, impl_args, hole_statics }
    }
}

} // verus!
