//! What the `stencil` attribute generates for a stencil family, as plain
//! values: how the function's arguments are read, the family's metadata,
//! and for each placement of its arguments and returns the stencil's
//! symbol, the holes it declares and reads, the call of the user's function
//! and the jump that follows.
use vstd::prelude::*;

use vstd::string::{StrSliceExecFns, StringExecFns};

use crate::extract::{Metadata, hole_word, packed, stack_word, target_word};
use crate::perm::{
    RegPermutation, lemma_every_tuple_reached, lemma_nth_after_end, lemma_nth_increasing, lemma_successor_ranks_higher,
    nth_placement,
    successor, tuple_rank, valid_tuple,
};
use crate::stencils::power;

verus! {

/// `String::push`: the string with the character appended.
#[verifier::external_body]
pub(crate) fn push_char(s: &mut String, c: char)
    ensures
        final(s)@ == old(s)@.push(c),
{
    s.push(c)
}

/// Appends the characters in order.
pub(crate) fn push_chars(s: &mut String, cs: &[char])
    ensures
        final(s)@ == old(s)@ + cs@,
{
    let ghost s0 = s@;
    let mut i: usize = 0;
    while i < cs.len()
        invariant
            i <= cs@.len(),
            s@ == s0 + cs@.take(i as int),
        decreases cs@.len() - i,
    {
        push_char(s, cs[i]);
        proof {
            assert(s0 + cs@.take(i as int + 1) =~= (s0 + cs@.take(i as int)).push(cs@[i as int]));
        }
        i = i + 1;
    }
    proof {
        assert(cs@.take(cs@.len() as int) =~= cs@);
    }
}

/// The character of decimal digit `d`.
pub open spec fn digit_char(d: int) -> char {
    seq!['0', '1', '2', '3', '4', '5', '6', '7', '8', '9'][d]
}

/// The decimal numeral of `n`, without leading zeros.
pub open spec fn decimal(n: nat) -> Seq<char>
    decreases n,
{
    if n < 10 {
        seq![digit_char(n as int)]
    } else {
        decimal(n / 10).push(digit_char((n % 10) as int))
    }
}

/// Appends the decimal numeral of `n`.
pub(crate) fn push_decimal(s: &mut String, n: u64)
    ensures
        final(s)@ == old(s)@ + decimal(n as nat),
    decreases n,
{
    let ghost s0 = s@;
    if n >= 10 {
        push_decimal(s, n / 10);
    }
    let c = match n % 10 {
        0 => '0',
        1 => '1',
        2 => '2',
        3 => '3',
        4 => '4',
        5 => '5',
        6 => '6',
        7 => '7',
        8 => '8',
        _ => '9',
    };
    push_char(s, c);
    proof {
        assert(c == digit_char((n % 10) as int));
        assert(s@ =~= s0 + decimal(n as nat));
    }
}

/// The name of hole `i` of a family.
pub open spec fn hole_name(i: nat) -> Seq<char> {
    hole_word() + decimal(i)
}

/// The name of the `k`-th argument or return kept on the stack.
pub open spec fn stack_name(k: nat) -> Seq<char> {
    stack_word() + decimal(k)
}

/// The name of jump target `i`, the argument `name`.
pub open spec fn target_name(i: nat, name: Seq<char>) -> Seq<char> {
    target_word() + decimal(i) + seq!['_'] + name
}

/// The views of a list of strings.
pub open spec fn names(v: Seq<String>) -> Seq<Seq<char>> {
    v.map_values(|s: String| s@)
}

} // verus!

verus! {

/// How an argument of a stencil function is passed.
#[derive(Debug, Clone, Copy, PartialEq, Eq, Structural)]
pub enum ArgKind {
    /// In a register or on the stack, as the placement decides.
    Arg,
    /// A compile-time constant patched into the code (`#[hole]`).
    Hole,
    /// The stack itself (`#[stack]`).
    Stack,
    /// A jump target (`#[target]`).
    Target,
}

/// An argument of a stencil function as the attribute reads it: a receiver
/// (`self`), or a typed argument with the kind its first `#[hole]`,
/// `#[stack]` or `#[target]` attribute gives it (`Arg` without one) and its
/// name when its pattern is a plain identifier.
#[derive(Debug)]
pub enum ArgSpec {
    Receiver,
    Typed { kind: ArgKind, name: Option<String> },
}

/// The declared return type of a stencil function.
#[derive(Debug, Clone, Copy, PartialEq, Eq, Structural)]
pub enum ReturnShape {
    /// No return type.
    Unit,
    /// A tuple of that many elements.
    Tuple(usize),
    /// A type named by a path.
    Path,
    /// Any other type.
    Other,
}

/// What the user's function is called with, argument by argument.
#[derive(Debug, Clone, Copy, PartialEq, Eq, Structural)]
pub enum CallArg {
    /// The family's argument of that index.
    Arg(u16),
    /// The hole of that index.
    Hole(u16),
    /// The stack.
    Stack,
    /// The jump target of that index.
    Target(u16),
}

/// Why a stencil function's signature is refused.
#[derive(Debug, Clone, Copy, PartialEq, Eq, Structural)]
pub enum SignatureError {
    /// A receiver argument.
    ExpectedType,
    /// A jump target whose pattern is not a plain name.
    ExpectedName,
    /// More arguments, holes and returns than a `u16` counts.
    TooManyArguments,
}

/// The message for a refused signature.
pub open spec fn signature_error_text(e: SignatureError) -> Seq<char> {
    match e {
        SignatureError::ExpectedType => "expected type"@,
        SignatureError::ExpectedName => "expected name"@,
        SignatureError::TooManyArguments => "too many arguments"@,
    }
}

impl SignatureError {
    /// The message for the error.
    pub fn message(&self) -> (r: &'static str)
        ensures
            r@ == signature_error_text(*self),
    {
        match self {
            SignatureError::ExpectedType => "expected type",
            SignatureError::ExpectedName => "expected name",
            SignatureError::TooManyArguments => "too many arguments",
        }
    }
}

/// The signature of a stencil function: what each argument of the user's
/// function is, the numbers of arguments and returns the family places, its
/// holes, and its jump targets with the enum that names them.
#[derive(Debug)]
pub struct FnSignature {
    pub call_args: Vec<CallArg>,
    pub inputs: u16,
    pub outputs: u16,
    pub hole_names: Vec<String>,
    pub target_enum: Option<String>,
    pub target_names: Vec<String>,
}

/// A signature as plain values.
pub struct SigView {
    pub call_args: Seq<CallArg>,
    pub inputs: int,
    pub outputs: int,
    pub hole_names: Seq<Seq<char>>,
    pub target_enum: Option<Seq<char>>,
    pub target_names: Seq<Seq<char>>,
}

impl View for FnSignature {
    type V = SigView;

    open spec fn view(&self) -> SigView {
        SigView {
            call_args: self.call_args@,
            inputs: self.inputs as int,
            outputs: self.outputs as int,
            hole_names: names(self.hole_names@),
            target_enum: match self.target_enum {
                Some(t) => Some(t@),
                None => None,
            },
            target_names: names(self.target_names@),
        }
    }
}

/// The kind of an argument; none for a receiver.
pub open spec fn kind_of(a: ArgSpec) -> Option<ArgKind> {
    match a {
        ArgSpec::Receiver => None,
        ArgSpec::Typed { kind, .. } => Some(kind),
    }
}

/// How many of the first `k` arguments are of kind `kind`.
pub open spec fn count_kind(args: Seq<ArgSpec>, k: int, kind: ArgKind) -> nat
    decreases k,
{
    if k <= 0 {
        0
    } else {
        count_kind(args, k - 1, kind) + if kind_of(args[k - 1]) == Some(kind) {
            1nat
        } else {
            0nat
        }
    }
}

/// What is wrong with an argument, if anything.
pub open spec fn arg_error(a: ArgSpec) -> Option<SignatureError> {
    match a {
        ArgSpec::Receiver => Some(SignatureError::ExpectedType),
        ArgSpec::Typed { kind: ArgKind::Target, name: None } => Some(SignatureError::ExpectedName),
        _ => None,
    }
}

/// What is wrong with the first faulty argument from `k` on, if any.
pub open spec fn first_arg_error(args: Seq<ArgSpec>, k: int) -> Option<SignatureError>
    decreases args.len() - k,
{
    if k < 0 || k >= args.len() {
        None
    } else {
        match arg_error(args[k]) {
            Some(e) => Some(e),
            None => first_arg_error(args, k + 1),
        }
    }
}

/// What the user's function gets for argument `k`: arguments, holes and
/// targets are numbered in order of appearance, each kind on its own.
pub open spec fn call_arg_at(args: Seq<ArgSpec>, k: int) -> CallArg {
    match kind_of(args[k]) {
        Some(ArgKind::Hole) => CallArg::Hole(count_kind(args, k, ArgKind::Hole) as u16),
        Some(ArgKind::Stack) => CallArg::Stack,
        Some(ArgKind::Target) => CallArg::Target(count_kind(args, k, ArgKind::Target) as u16),
        _ => CallArg::Arg(count_kind(args, k, ArgKind::Arg) as u16),
    }
}

/// The names of the jump targets among the first `k` arguments.
pub open spec fn target_names_upto(args: Seq<ArgSpec>, k: int) -> Seq<Seq<char>>
    decreases k,
{
    if k <= 0 {
        Seq::empty()
    } else {
        let prev = target_names_upto(args, k - 1);
        match args[k - 1] {
            ArgSpec::Typed { kind: ArgKind::Target, name: Some(n) } => prev.push(
                target_name(count_kind(args, k - 1, ArgKind::Target), n@),
            ),
            _ => prev,
        }
    }
}

/// How many values a return type stands for.
pub open spec fn return_count(ret: ReturnShape) -> int {
    match ret {
        ReturnShape::Unit => 0,
        ReturnShape::Tuple(n) => n as int,
        ReturnShape::Path => 1,
        ReturnShape::Other => 0,
    }
}

/// The suffix of a family's target enum.
pub open spec fn targets_suffix() -> Seq<char> {
    seq!['_', '_', 't', 'a', 'r', 'g', 'e', 't', 's']
}

/// Whether the function takes a jump target.
pub open spec fn has_targets(args: Seq<ArgSpec>) -> bool {
    count_kind(args, args.len() as int, ArgKind::Target) > 0
}

/// The returns the family places: none when the function picks a jump
/// target, else those of its return type.
pub open spec fn outputs_of(args: Seq<ArgSpec>, ret: ReturnShape) -> int {
    if has_targets(args) {
        0
    } else {
        return_count(ret)
    }
}

/// Too many arguments, holes and returns for a `u16`.
pub open spec fn too_many(args: Seq<ArgSpec>, ret: ReturnShape) -> bool {
    count_kind(args, args.len() as int, ArgKind::Arg) + count_kind(args, args.len() as int, ArgKind::Hole)
        + outputs_of(args, ret) + 1 > u16::MAX
}

/// The signature read from function `fn_name`'s arguments and return type.
pub open spec fn signature_of(fn_name: Seq<char>, args: Seq<ArgSpec>, ret: ReturnShape) -> SigView {
    let n = args.len() as int;
    SigView {
        call_args: Seq::new(args.len(), |k: int| call_arg_at(args, k)),
        inputs: count_kind(args, n, ArgKind::Arg) as int,
        outputs: outputs_of(args, ret),
        hole_names: Seq::new(count_kind(args, n, ArgKind::Hole), |i: int| hole_name(i as nat)),
        target_enum: if has_targets(args) {
            Some(fn_name + targets_suffix())
        } else {
            None
        },
        target_names: target_names_upto(args, n),
    }
}

proof fn lemma_counts_bounded(args: Seq<ArgSpec>, k: int)
    requires
        0 <= k <= args.len(),
    ensures
        count_kind(args, k, ArgKind::Arg) + count_kind(args, k, ArgKind::Hole) + count_kind(
            args,
            k,
            ArgKind::Target,
        ) <= k,
    decreases k,
{
    if k > 0 {
        lemma_counts_bounded(args, k - 1);
    }
}

impl FnSignature {
    /// Reads the signature of stencil function `fn_name` from its arguments
    /// and return type. A function that picks a jump target returns the
    /// target enum, and places no returns.
    pub fn parse(fn_name: &str, args: &Vec<ArgSpec>, ret: ReturnShape) -> (r: Result<FnSignature, SignatureError>)
        requires
            ret == ReturnShape::Other ==> first_arg_error(args@, 0) is Some || has_targets(args@),
        ensures
            match first_arg_error(args@, 0) {
                Some(e) => r == Err::<FnSignature, SignatureError>(e),
                None => if too_many(args@, ret) {
                    r == Err::<FnSignature, SignatureError>(SignatureError::TooManyArguments)
                } else {
                    r matches Ok(s) && s@ == signature_of(fn_name@, args@, ret)
                },
            },
            r matches Ok(s) ==> sig_wf(s@) && s.inputs + s.outputs < u16::MAX,
    {
        let ghost a = args@;
        let n = args.len();
        let mut call_args: Vec<CallArg> = Vec::new();
        let mut inputs: usize = 0;
        let mut hole_names: Vec<String> = Vec::new();
        let mut target_names: Vec<String> = Vec::new();
        let mut k: usize = 0;
        while k < n
            invariant
                k <= n,
                n == a.len(),
                a == args@,
                first_arg_error(a, 0) == first_arg_error(a, k as int),
                inputs == count_kind(a, k as int, ArgKind::Arg),
                hole_names@.len() == count_kind(a, k as int, ArgKind::Hole),
                target_names@.len() == count_kind(a, k as int, ArgKind::Target),
                call_args@ =~= Seq::new(k as nat, |j: int| call_arg_at(a, j)),
                names(hole_names@) =~= Seq::new(hole_names@.len(), |i: int| hole_name(i as nat)),
                names(target_names@) =~= target_names_upto(a, k as int),
            decreases n - k,
        {
            proof {
                lemma_counts_bounded(a, k as int);
            }
            let arg = match &args[k] {
                ArgSpec::Receiver => {
                    return Err(SignatureError::ExpectedType);
                },
                ArgSpec::Typed { kind, name } => match kind {
                    ArgKind::Hole => {
                        let i = hole_names.len();
                        let mut s = String::new();
                        push_chars(&mut s, &['h', 'o', 'l', 'e']);
                        push_decimal(&mut s, i as u64);
                        proof {
                            assert(s@ =~= hole_name(i as nat));
                        }
                        let ghost before = hole_names@;
                        hole_names.push(s);
                        proof {
                            assert(names(hole_names@) =~= names(before).push(hole_name(i as nat)));
                        }
                        CallArg::Hole(i as u16)
                    },
                    ArgKind::Arg => {
                        let i = inputs;
                        inputs = inputs + 1;
                        CallArg::Arg(i as u16)
                    },
                    ArgKind::Stack => CallArg::Stack,
                    ArgKind::Target => {
                        let i = target_names.len();
                        let nm = match name {
                            Some(nm) => nm,
                            None => {
                                return Err(SignatureError::ExpectedName);
                            },
                        };
                        let mut s = String::new();
                        push_chars(&mut s, &['t', 'a', 'r', 'g', 'e', 't']);
                        push_decimal(&mut s, i as u64);
                        push_char(&mut s, '_');
                        s.append(nm.as_str());
                        proof {
                            assert(s@ =~= target_name(i as nat, nm@));
                        }
                        let ghost before = target_names@;
                        target_names.push(s);
                        proof {
                            assert(names(target_names@) =~= names(before).push(target_name(i as nat, nm@)));
                        }
                        CallArg::Target(i as u16)
                    },
                },
            };
            call_args.push(arg);
            proof {
                assert(arg == call_arg_at(a, k as int));
            }
            k = k + 1;
        }
        proof {
            lemma_counts_bounded(a, n as int);
        }
        let has_target = target_names.len() > 0;
        let outputs: usize = if has_target {
            0
        } else {
            match ret {
                ReturnShape::Unit => 0,
                ReturnShape::Tuple(m) => m,
                ReturnShape::Path => 1,
                ReturnShape::Other => 0,
            }
        };
        if outputs > 0xffff || inputs + hole_names.len() > 0xffff || inputs + hole_names.len() + outputs + 1 > 0xffff {
            return Err(SignatureError::TooManyArguments);
        }
        let target_enum = if has_target {
            let mut s = String::new();
            s.append(fn_name);
            push_chars(&mut s, &['_', '_', 't', 'a', 'r', 'g', 'e', 't', 's']);
            Some(s)
        } else {
            None
        };
        let r = FnSignature {
            call_args,
            inputs: inputs as u16,
            outputs: outputs as u16,
            hole_names,
            target_enum,
            target_names,
        };
        proof {
            assert(r@.hole_names =~= signature_of(fn_name@, a, ret).hole_names);
            lemma_signature_wf(fn_name@, a, ret);
        }
        Ok(r)
    }
}

} // verus!

verus! {

/// The options of the `stencil` attribute: whether the family returns to
/// its caller, its calling convention, and its number of register locations
/// (`0` for the default).
#[derive(Debug)]
pub struct FamilyOptions {
    pub returning: bool,
    pub abi: Option<String>,
    pub registers: u16,
}

/// The calling convention of stencils unless set.
pub open spec fn default_abi() -> Seq<char> {
    seq!['r', 'u', 's', 't', '-', 'p', 'r', 'e', 's', 'e', 'r', 'v', 'e', '-', 'n', 'o', 'n', 'e']
}

/// The number of register locations (the stack counts as one): ten unless
/// set.
pub open spec fn registers_of(n: u16) -> u16 {
    if n == 0 {
        10
    } else {
        n
    }
}

impl FamilyOptions {
    /// The number of register locations (the stack counts as one).
    pub fn registers(&self) -> (r: u16)
        ensures
            r == registers_of(self.registers),
            r >= 1,
    {
        if self.registers == 0 {
            10
        } else {
            self.registers
        }
    }

    /// The calling convention of the family's stencils.
    pub fn abi(&self) -> (r: String)
        ensures
            r@ == match self.abi {
                Some(a) => a@,
                None => default_abi(),
            },
    {
        match &self.abi {
            Some(a) => a.clone(),
            None => {
                let mut s = String::new();
                push_chars(
                    &mut s,
                    &['r', 'u', 's', 't', '-', 'p', 'r', 'e', 's', 'e', 'r', 'v', 'e', '-', 'n', 'o', 'n', 'e'],
                );
                s
            },
        }
    }
}

/// Whether a function may name a stencil family: no `__` in its name, but
/// for the empty stencil.
pub open spec fn family_name_ok(name: Seq<char>) -> bool {
    crate::extract::next_sep(name, 0) >= name.len() || name == crate::extract::empty_name()
}

/// Whether a function may name a stencil family (see `family_name_ok`).
pub fn check_family_name(name: &str) -> (r: bool)
    ensures
        r == family_name_ok(name@),
{
    crate::extract::find_sep(name, 0) >= name.unicode_len() || crate::extract::chars_equal(
        name,
        &['_', '_', 'e', 'm', 'p', 't', 'y'],
    )
}

/// A stencil family: its name, the options of its attribute and its
/// signature.
#[derive(Debug)]
pub struct StencilFamily {
    pub name: String,
    pub options: FamilyOptions,
    pub sig: FnSignature,
}

/// The jumps each stencil of the family patches: one per target, none when
/// it returns, else the one to what follows.
pub open spec fn jumps_of(sig: SigView, returning: bool) -> int {
    if sig.target_enum is Some {
        sig.target_names.len() as int
    } else if returning {
        0
    } else {
        1
    }
}

/// The metadata the family stores for extraction.
pub open spec fn metadata_of(sig: SigView, options: FamilyOptions) -> Metadata {
    Metadata {
        inputs: sig.inputs as u16,
        outputs: sig.outputs as u16,
        max_regs: registers_of(options.registers),
        holes: sig.hole_names.len() as u16,
        jumps: jumps_of(sig, options.returning) as u16,
    }
}

impl StencilFamily {
    /// The metadata the family stores for extraction.
    pub fn metadata(&self) -> (r: Metadata)
        ensures
            r == metadata_of(self.sig@, self.options),
    {
        let jumps: usize = if self.sig.target_enum.is_some() {
            self.sig.target_names.len()
        } else if self.options.returning {
            0
        } else {
            1
        };
        Metadata {
            inputs: self.sig.inputs,
            outputs: self.sig.outputs,
            max_regs: self.options.registers(),
            holes: self.sig.hole_names.len() as u16,
            jumps: jumps as u16,
        }
    }

    /// The ten bytes of the family's metadata symbol.
    pub fn meta_bytes(&self) -> (r: [u8; 10])
        ensures
            r@ == packed(metadata_of(self.sig@, self.options)),
    {
        self.metadata().pack()
    }
}

} // verus!

verus! {

/// Where a stencil's wrapper keeps an argument or return: in register `r`,
/// or in the `k`-th stack hole.
#[derive(Debug, Clone, Copy, PartialEq, Eq, Structural)]
pub enum WrapperCallArg {
    Reg(u16),
    Stack(u16),
}

/// What a register argument of a stencil carries: a value passed through
/// untouched (numbered from one), or the argument or return of that index.
#[derive(Debug, Clone, Copy, PartialEq, Eq, Structural)]
pub enum Register {
    Pass(u16),
    Var(u16),
}

/// The largest entry, `0` for none.
pub open spec fn seq_max(s: Seq<u16>) -> u16
    decreases s.len(),
{
    if s.len() == 0 {
        0
    } else {
        let m = seq_max(s.drop_last());
        if s.last() > m {
            s.last()
        } else {
            m
        }
    }
}

/// How many of the first `i` entries are `0` (on the stack).
pub open spec fn zeros_before(s: Seq<u16>, i: int) -> nat
    decreases i,
{
    if i <= 0 {
        0
    } else {
        zeros_before(s, i - 1) + if s[i - 1] == 0 {
            1nat
        } else {
            0nat
        }
    }
}

/// Where entry `i` of a placement is kept: `0` in the next stack hole,
/// `r + 1` in register `r`.
pub open spec fn wrapper_arg(s: Seq<u16>, i: int) -> WrapperCallArg {
    if s[i] == 0 {
        WrapperCallArg::Stack(zeros_before(s, i) as u16)
    } else {
        WrapperCallArg::Reg((s[i] - 1) as u16)
    }
}

/// Where each entry of a placement is kept.
pub open spec fn wrapped(s: Seq<u16>) -> Seq<WrapperCallArg> {
    Seq::new(s.len(), |i: int| wrapper_arg(s, i))
}

/// What register `r` carries for the values `args`: the last of them kept
/// in it, or else the value passed through.
pub open spec fn register_use(args: Seq<WrapperCallArg>, r: int) -> Register
    decreases args.len(),
{
    if args.len() == 0 {
        Register::Pass((r + 1) as u16)
    } else if args.last() == WrapperCallArg::Reg(r as u16) {
        Register::Var((args.len() - 1) as u16)
    } else {
        register_use(args.drop_last(), r)
    }
}

/// The name of a register argument from what it carries in and out.
pub open spec fn reg_name(a: Register, b: Register) -> Seq<char> {
    match (a, b) {
        (Register::Pass(i), Register::Pass(_)) => seq!['p', 'a', 's', 's'] + decimal(i as nat),
        (Register::Var(i), Register::Pass(_)) => seq!['i', 'n'] + decimal(i as nat),
        (Register::Pass(_), Register::Var(j)) => seq!['o', 'u', 't'] + decimal(j as nat),
        (Register::Var(i), Register::Var(j)) => seq!['i', 'n'] + decimal(i as nat) + seq!['_', 'o', 'u', 't']
            + decimal(j as nat),
    }
}

/// The register arguments of the stencil for placement `s` with `n`
/// arguments: as many as the largest location, each named by what it
/// carries.
pub open spec fn reg_names_of(s: Seq<u16>, n: int) -> Seq<Seq<char>> {
    Seq::new(
        seq_max(s) as nat,
        |r: int| reg_name(register_use(wrapped(s).take(n), r), register_use(wrapped(s).skip(n), r)),
    )
}

/// The signature of one stencil of a family: how many of its values are
/// arguments, its register arguments, the names of the values kept on the
/// stack, and where each value is kept.
#[derive(Debug)]
pub struct StencilSignature {
    pub inputs_num: usize,
    pub reg_names: Vec<String>,
    pub stack_arg_names: Vec<String>,
    pub io_locations: Vec<WrapperCallArg>,
}

proof fn lemma_seq_max(s: Seq<u16>)
    ensures
        forall|i: int| 0 <= i < s.len() ==> s[i] <= seq_max(s),
    decreases s.len(),
{
    if s.len() > 0 {
        lemma_seq_max(s.drop_last());
        assert forall|i: int| 0 <= i < s.len() implies s[i] <= seq_max(s) by {
            if i < s.len() - 1 {
                assert(s[i] == s.drop_last()[i]);
            }
        }
    }
}

/// The largest entry.
fn max_location(s: &[u16]) -> (r: u16)
    ensures
        r == seq_max(s@),
{
    let mut m: u16 = 0;
    let mut i: usize = 0;
    assert(s@.take(0) =~= Seq::<u16>::empty());
    while i < s.len()
        invariant
            i <= s@.len(),
            m == seq_max(s@.take(i as int)),
        decreases s@.len() - i,
    {
        proof {
            assert(s@.take(i as int + 1).drop_last() =~= s@.take(i as int));
        }
        if s[i] > m {
            m = s[i];
        }
        i = i + 1;
    }
    assert(s@.take(s@.len() as int) =~= s@);
    m
}

/// What each of `regs` registers carries for the values `args[from..to]`.
fn registers_from_args(args: &Vec<WrapperCallArg>, from: usize, to: usize, regs: u16) -> (r: Vec<Register>)
    requires
        from <= to <= args@.len(),
        forall|i: int| from <= i < to ==> (#[trigger] args@[i] matches WrapperCallArg::Reg(x) ==> x < regs),
    ensures
        r@ == Seq::new(regs as nat, |x: int| register_use(args@.subrange(from as int, to as int), x)),
{
    let mut v: Vec<Register> = Vec::new();
    let mut x: u16 = 0;
    while x < regs
        invariant
            x <= regs,
            v@ =~= Seq::new(x as nat, |y: int| Register::Pass((y + 1) as u16)),
        decreases regs - x,
    {
        v.push(Register::Pass(x + 1));
        x = x + 1;
    }
    let ghost all = args@.subrange(from as int, to as int);
    let mut i: usize = from;
    assert(all.take(0) =~= Seq::<WrapperCallArg>::empty());
    while i < to
        invariant
            from <= i <= to,
            to <= args@.len(),
            all == args@.subrange(from as int, to as int),
            forall|j: int| from <= j < to ==> (#[trigger] args@[j] matches WrapperCallArg::Reg(x) ==> x < regs),
            v@ =~= Seq::new(regs as nat, |y: int| register_use(all.take(i - from), y)),
        decreases to - i,
    {
        let ghost before = v@;
        let ghost k = (i - from) as int;
        proof {
            assert(all.take(k + 1).drop_last() =~= all.take(k));
            assert(all.take(k + 1).last() == args@[i as int]);
        }
        match args[i] {
            WrapperCallArg::Reg(x) => {
                v.set(x as usize, Register::Var((i - from) as u16));
            },
            WrapperCallArg::Stack(_) => {},
        }
        proof {
            assert forall|y: int| 0 <= y < regs implies v@[y] == register_use(all.take(k + 1), y) by {
                assert(before[y] == register_use(all.take(k), y));
            }
        }
        i = i + 1;
    }
    proof {
        assert(all.take(to - from) =~= all);
    }
    v
}

/// The name of a register argument (see `reg_name`).
fn register_name(a: Register, b: Register) -> (r: String)
    ensures
        r@ == reg_name(a, b),
{
    let mut s = String::new();
    match (a, b) {
        (Register::Pass(i), Register::Pass(_)) => {
            push_chars(&mut s, &['p', 'a', 's', 's']);
            push_decimal(&mut s, i as u64);
        },
        (Register::Var(i), Register::Pass(_)) => {
            push_chars(&mut s, &['i', 'n']);
            push_decimal(&mut s, i as u64);
        },
        (Register::Pass(_), Register::Var(j)) => {
            push_chars(&mut s, &['o', 'u', 't']);
            push_decimal(&mut s, j as u64);
        },
        (Register::Var(i), Register::Var(j)) => {
            push_chars(&mut s, &['i', 'n']);
            push_decimal(&mut s, i as u64);
            push_chars(&mut s, &['_', 'o', 'u', 't']);
            push_decimal(&mut s, j as u64);
        },
    }
    proof {
        assert(s@ =~= reg_name(a, b));
    }
    s
}

impl StencilSignature {
    /// The signature of the stencil for placement `io_locations`, whose
    /// first `inputs_num` entries are arguments.
    pub fn new(inputs_num: usize, io_locations: &[u16]) -> (r: Self)
        requires
            inputs_num <= io_locations@.len(),
        ensures
            r.inputs_num == inputs_num,
            r.io_locations@ == wrapped(io_locations@),
            names(r.stack_arg_names@) == Seq::new(
                zeros_before(io_locations@, io_locations@.len() as int),
                |k: int| stack_name(k as nat),
            ),
            names(r.reg_names@) == reg_names_of(io_locations@, inputs_num as int),
    {
        let ghost l = io_locations@;
        let max_regs = max_location(io_locations);
        let mut stack_arg_names: Vec<String> = Vec::new();
        let mut locs: Vec<WrapperCallArg> = Vec::new();
        let n = io_locations.len();
        let mut i: usize = 0;
        while i < n
            invariant
                i <= n,
                n == l.len(),
                l == io_locations@,
                stack_arg_names@.len() == zeros_before(l, i as int),
                zeros_before(l, i as int) <= i,
                names(stack_arg_names@) =~= Seq::new(stack_arg_names@.len(), |k: int| stack_name(k as nat)),
                locs@ =~= Seq::new(i as nat, |j: int| wrapper_arg(l, j)),
            decreases n - i,
        {
            let v = io_locations[i];
            if v == 0 {
                let index = stack_arg_names.len();
                let mut s = String::new();
                push_chars(&mut s, &['s', 't', 'a', 'c', 'k']);
                push_decimal(&mut s, index as u64);
                proof {
                    assert(s@ =~= stack_name(index as nat));
                }
                let ghost before = stack_arg_names@;
                stack_arg_names.push(s);
                proof {
                    assert(names(stack_arg_names@) =~= names(before).push(stack_name(index as nat)));
                }
                locs.push(WrapperCallArg::Stack(index as u16));
            } else {
                locs.push(WrapperCallArg::Reg(v - 1));
            }
            i = i + 1;
        }
        proof {
            lemma_seq_max(l);
            assert(locs@ == wrapped(l));
            assert forall|j: int| 0 <= j < locs@.len() implies (#[trigger] locs@[j] matches WrapperCallArg::Reg(x)
                ==> x < max_regs) by {
                assert(l[j] <= seq_max(l));
            }
            assert(wrapped(l).subrange(0, inputs_num as int) =~= wrapped(l).take(inputs_num as int));
            assert(wrapped(l).subrange(inputs_num as int, n as int) =~= wrapped(l).skip(inputs_num as int));
        }
        let in_regs = registers_from_args(&locs, 0, inputs_num, max_regs);
        let out_regs = registers_from_args(&locs, inputs_num, n, max_regs);
        let mut reg_names: Vec<String> = Vec::new();
        let mut r: u16 = 0;
        while r < max_regs
            invariant
                r <= max_regs,
                max_regs == seq_max(l),
                in_regs@.len() == max_regs,
                out_regs@.len() == max_regs,
                forall|x: int| 0 <= x < max_regs ==> in_regs@[x] == register_use(wrapped(l).take(inputs_num as int), x),
                forall|x: int| 0 <= x < max_regs ==> out_regs@[x] == register_use(wrapped(l).skip(inputs_num as int), x),
                names(reg_names@) =~= reg_names_of(l, inputs_num as int).take(r as int),
            decreases max_regs - r,
        {
            let s = register_name(in_regs[r as usize], out_regs[r as usize]);
            let ghost before = reg_names@;
            reg_names.push(s);
            proof {
                assert(names(reg_names@) =~= names(before).push(s@));
                assert(reg_names_of(l, inputs_num as int).take(r + 1) =~= reg_names_of(l, inputs_num as int).take(
                    r as int,
                ).push(s@));
            }
            r = r + 1;
        }
        proof {
            assert(reg_names_of(l, inputs_num as int).take(max_regs as int) =~= reg_names_of(l, inputs_num as int));
        }
        StencilSignature { inputs_num, reg_names, stack_arg_names, io_locations: locs }
    }
}

} // verus!

verus! {

/// How a stencil gets a value before calling the user's function.
#[derive(Debug)]
pub enum HoleInit {
    /// `var` is the address of the hole symbol.
    Address { var: String, symbol: String },
    /// `var` is read from the stack slot whose index is the address of the
    /// hole symbol.
    StackGet { var: String, symbol: String },
    /// `name` is the target enum's variant of that name.
    Target { name: String },
}

/// A return kept on the stack: `var` is written to the stack slot whose
/// index is the address of the hole symbol.
#[derive(Debug)]
pub struct StackSet {
    pub symbol: String,
    pub var: String,
}

/// What the call of the user's function binds.
#[derive(Debug)]
pub enum Rets {
    /// The jump target it picked.
    Target,
    /// Its one return.
    Single(String),
    /// Its returns, as a tuple.
    Tuple(Vec<String>),
}

/// What a stencil does after the call.
#[derive(Debug)]
pub enum NextStep {
    /// Jumps to the function of the picked target: each variant with its
    /// function's symbol.
    Targets(Vec<(String, String)>),
    /// Returns its register arguments.
    Return,
    /// Jumps to what follows, passing its register arguments on.
    Next,
}

/// What one stencil of a family holds: its symbol, its register arguments,
/// the hole symbols it declares, how it reads its values, the call of the
/// user's function (arguments and what it binds), the returns it writes to
/// the stack, and what it does next.
#[derive(Debug)]
pub struct StencilPlan {
    pub symbol: String,
    pub reg_names: Vec<String>,
    pub hole_defs: Vec<String>,
    pub hole_inits: Vec<HoleInit>,
    pub call_args: Vec<String>,
    pub rets: Rets,
    pub hole_outputs: Vec<StackSet>,
    pub next: NextStep,
}

/// How a stencil gets a value, as plain values.
pub enum HoleInitView {
    Address(Seq<char>, Seq<char>),
    StackGet(Seq<char>, Seq<char>),
    Target(Seq<char>),
}

/// What the call binds, as plain values.
pub enum RetsView {
    Target,
    Single(Seq<char>),
    Tuple(Seq<Seq<char>>),
}

/// What a stencil does after the call, as plain values.
pub enum NextView {
    Targets(Seq<(Seq<char>, Seq<char>)>),
    Return,
    Next,
}

/// A stencil's plan as plain values.
pub struct PlanView {
    pub symbol: Seq<char>,
    pub reg_names: Seq<Seq<char>>,
    pub hole_defs: Seq<Seq<char>>,
    pub hole_inits: Seq<HoleInitView>,
    pub call_args: Seq<Seq<char>>,
    pub rets: RetsView,
    /// Each return kept on the stack: its hole symbol and its variable.
    pub hole_outputs: Seq<(Seq<char>, Seq<char>)>,
    pub next: NextView,
}

/// A value read as plain values.
pub open spec fn init_view(h: HoleInit) -> HoleInitView {
    match h {
        HoleInit::Address { var, symbol } => HoleInitView::Address(var@, symbol@),
        HoleInit::StackGet { var, symbol } => HoleInitView::StackGet(var@, symbol@),
        HoleInit::Target { name } => HoleInitView::Target(name@),
    }
}

impl View for StencilPlan {
    type V = PlanView;

    open spec fn view(&self) -> PlanView {
        PlanView {
            symbol: self.symbol@,
            reg_names: names(self.reg_names@),
            hole_defs: names(self.hole_defs@),
            hole_inits: self.hole_inits@.map_values(|h: HoleInit| init_view(h)),
            call_args: names(self.call_args@),
            rets: match self.rets {
                Rets::Target => RetsView::Target,
                Rets::Single(s) => RetsView::Single(s@),
                Rets::Tuple(v) => RetsView::Tuple(names(v@)),
            },
            hole_outputs: self.hole_outputs@.map_values(|o: StackSet| (o.symbol@, o.var@)),
            next: match self.next {
                NextStep::Targets(v) => NextView::Targets(
                    v@.map_values(|p: (String, String)| (p.0@, p.1@)),
                ),
                NextStep::Return => NextView::Return,
                NextStep::Next => NextView::Next,
            },
        }
    }
}

/// The locations of a placement as a symbol writes them: decimal numbers
/// joined by `_`.
pub open spec fn joined(s: Seq<u16>) -> Seq<char>
    decreases s.len(),
{
    if s.len() == 0 {
        Seq::empty()
    } else if s.len() == 1 {
        decimal(s[0] as nat)
    } else {
        joined(s.drop_last()) + seq!['_'] + decimal(s.last() as nat)
    }
}

/// The symbol of family `name`'s stencil for placement `s` with `n`
/// arguments: `__patchouly__<name>__<arguments>__<returns>`.
pub open spec fn stencil_symbol(name: Seq<char>, s: Seq<u16>, n: int) -> Seq<char> {
    crate::objects::stencil_prefix() + name + seq!['_', '_'] + joined(s.take(n)) + seq!['_', '_'] + joined(s.skip(n))
}

/// A symbol of family `name`: `<name>__<x>`.
pub open spec fn family_symbol(name: Seq<char>, x: Seq<char>) -> Seq<char> {
    name + seq!['_', '_'] + x
}

/// Every argument of the call names a value the signature has.
pub open spec fn sig_wf(sig: SigView) -> bool {
    forall|j: int|
        0 <= j < sig.call_args.len() ==> match #[trigger] sig.call_args[j] {
            CallArg::Arg(i) => i < sig.inputs,
            CallArg::Hole(i) => i < sig.hole_names.len(),
            CallArg::Target(i) => i < sig.target_names.len(),
            CallArg::Stack => true,
        }
}

/// The name of the variable that holds where a value is kept.
pub open spec fn location_var(w: WrapperCallArg, regs: Seq<Seq<char>>) -> Seq<char> {
    match w {
        WrapperCallArg::Reg(r) => regs[r as int],
        WrapperCallArg::Stack(k) => stack_name(k as nat),
    }
}

/// What the user's function is called with for argument `a`.
pub open spec fn call_var(a: CallArg, sig: SigView, w: Seq<WrapperCallArg>, regs: Seq<Seq<char>>) -> Seq<char> {
    match a {
        CallArg::Arg(i) => location_var(w[i as int], regs),
        CallArg::Hole(i) => sig.hole_names[i as int],
        CallArg::Stack => stack_word(),
        CallArg::Target(i) => sig.target_names[i as int],
    }
}

/// The stencil of family `name` with signature `sig` for placement `s`.
pub open spec fn stencil_plan(name: Seq<char>, sig: SigView, returning: bool, s: Seq<u16>) -> PlanView {
    let n = sig.inputs;
    let w = wrapped(s);
    let regs = reg_names_of(s, n);
    let ins = zeros_before(s, n);
    let all = zeros_before(s, s.len() as int);
    let outs = w.skip(n).map_values(|x: WrapperCallArg| location_var(x, regs));
    PlanView {
        symbol: stencil_symbol(name, s, n),
        reg_names: regs,
        hole_defs: sig.hole_names.map_values(|h: Seq<char>| family_symbol(name, h)) + Seq::new(
            all,
            |k: int| family_symbol(name, stack_name(k as nat)),
        ),
        hole_inits: sig.hole_names.map_values(|h: Seq<char>| HoleInitView::Address(h, family_symbol(name, h)))
            + Seq::new(
            ins,
            |k: int| HoleInitView::StackGet(stack_name(k as nat), family_symbol(name, stack_name(k as nat))),
        ) + if sig.target_enum is Some {
            sig.target_names.map_values(|t: Seq<char>| HoleInitView::Target(t))
        } else {
            Seq::empty()
        },
        call_args: sig.call_args.map_values(|a: CallArg| call_var(a, sig, w, regs)),
        rets: if sig.target_enum is Some {
            RetsView::Target
        } else if outs.len() == 1 {
            RetsView::Single(outs[0])
        } else {
            RetsView::Tuple(outs)
        },
        hole_outputs: Seq::new(
            (all - ins) as nat,
            |k: int| (family_symbol(name, stack_name((ins + k) as nat)), stack_name((ins + k) as nat)),
        ),
        next: if sig.target_enum is Some {
            NextView::Targets(sig.target_names.map_values(|t: Seq<char>| (t, family_symbol(name, t))))
        } else if returning {
            NextView::Return
        } else {
            NextView::Next
        },
    }
}

} // verus!

verus! {

/// `<name>__<x>`.
fn family_symbol_string(name: &str, x: &str) -> (r: String)
    ensures
        r@ == family_symbol(name@, x@),
{
    let mut s = String::new();
    s.append(name);
    push_chars(&mut s, &['_', '_']);
    s.append(x);
    proof {
        assert(s@ =~= family_symbol(name@, x@));
    }
    s
}

/// Appends the locations `l[from..to]` joined by `_`.
fn push_joined(s: &mut String, l: &[u16], from: usize, to: usize)
    requires
        from <= to <= l@.len(),
    ensures
        final(s)@ == old(s)@ + joined(l@.subrange(from as int, to as int)),
{
    let ghost s0 = s@;
    let mut i = from;
    proof {
        assert(l@.subrange(from as int, from as int) =~= Seq::<u16>::empty());
        assert(s@ =~= s0 + joined(l@.subrange(from as int, from as int)));
    }
    while i < to
        invariant
            from <= i <= to,
            to <= l@.len(),
            s@ == s0 + joined(l@.subrange(from as int, i as int)),
        decreases to - i,
    {
        let ghost prev = l@.subrange(from as int, i as int);
        let ghost next = l@.subrange(from as int, i as int + 1);
        proof {
            assert(next.drop_last() =~= prev);
            assert(next.last() == l@[i as int]);
        }
        if i > from {
            push_char(s, '_');
        }
        push_decimal(s, l[i] as u64);
        proof {
            if i > from {
                assert(s@ =~= s0 + joined(next));
            } else {
                assert(next =~= seq![l@[i as int]]);
                assert(s@ =~= s0 + joined(next));
            }
        }
        i = i + 1;
    }
}

proof fn lemma_zeros_before(s: Seq<u16>, i: int, j: int)
    requires
        0 <= i <= j <= s.len(),
    ensures
        zeros_before(s, i) <= zeros_before(s, j),
        zeros_before(s, j) <= j,
        zeros_before(s, j) - zeros_before(s, i) <= j - i,
    decreases j,
{
    if j > 0 && i < j {
        lemma_zeros_before(s, i, j - 1);
    } else if j > 0 {
        lemma_zeros_before(s, 0, j - 1);
    }
}

/// The symbol of a stencil (see `stencil_symbol`).
fn plan_symbol(name: &str, l: &[u16], n: usize) -> (r: String)
    requires
        n <= l@.len(),
    ensures
        r@ == stencil_symbol(name@, l@, n as int),
{
    let mut s = String::new();
    push_chars(&mut s, &['_', '_', 'p', 'a', 't', 'c', 'h', 'o', 'u', 'l', 'y', '_', '_']);
    s.append(name);
    push_chars(&mut s, &['_', '_']);
    push_joined(&mut s, l, 0, n);
    push_chars(&mut s, &['_', '_']);
    push_joined(&mut s, l, n, l.len());
    proof {
        assert(l@.subrange(0, n as int) =~= l@.take(n as int));
        assert(l@.subrange(n as int, l@.len() as int) =~= l@.skip(n as int));
        assert(s@ =~= stencil_symbol(name@, l@, n as int));
    }
    s
}

} // verus!

verus! {

/// The hole symbols a stencil declares, how it reads its values, and the
/// returns it writes to the stack (see `stencil_plan`).
fn plan_holes(name: &str, sig: &FnSignature, ss: &StencilSignature, Ghost(l): Ghost<Seq<u16>>) -> (r: (
    Vec<String>,
    Vec<HoleInit>,
    Vec<StackSet>,
))
    requires
        sig.inputs <= l.len() <= u16::MAX,
        ss.io_locations@ == wrapped(l),
        names(ss.stack_arg_names@) == Seq::new(zeros_before(l, l.len() as int), |k: int| stack_name(k as nat)),
    ensures
        names(r.0@) == stencil_plan(name@, sig@, false, l).hole_defs,
        r.1@.map_values(|h: HoleInit| init_view(h)) == stencil_plan(name@, sig@, false, l).hole_inits,
        r.2@.map_values(|o: StackSet| (o.symbol@, o.var@)) == stencil_plan(name@, sig@, false, l).hole_outputs,
{
    let ghost plan = stencil_plan(name@, sig@, false, l);
    let ghost hn = sig@.hole_names;
    let n = sig.inputs as usize;
    let len = ss.io_locations.len();
    let mut defs: Vec<String> = Vec::new();
    let mut inits: Vec<HoleInit> = Vec::new();
    let mut outs: Vec<StackSet> = Vec::new();
    let mut i: usize = 0;
    while i < sig.hole_names.len()
        invariant
            i <= hn.len(),
            hn == sig@.hole_names,
            names(defs@) =~= Seq::new(i as nat, |k: int| family_symbol(name@, hn[k])),
            inits@.map_values(|h: HoleInit| init_view(h)) =~= Seq::new(
                i as nat,
                |k: int| HoleInitView::Address(hn[k], family_symbol(name@, hn[k])),
            ),
        decreases hn.len() - i,
    {
        let h = &sig.hole_names[i];
        let sym = family_symbol_string(name, h.as_str());
        proof {
            assert(h@ == hn[i as int]);
        }
        let ghost d0 = defs@;
        let ghost i0 = inits@;
        let init = HoleInit::Address { var: h.clone(), symbol: sym.clone() };
        inits.push(init);
        defs.push(sym);
        proof {
            assert(names(defs@) =~= names(d0).push(family_symbol(name@, hn[i as int])));
            assert(inits@.map_values(|h: HoleInit| init_view(h)) =~= i0.map_values(|h: HoleInit| init_view(h)).push(
                HoleInitView::Address(hn[i as int], family_symbol(name@, hn[i as int])),
            ));
        }
        i = i + 1;
    }
    let ghost h_defs = names(defs@);
    let ghost h_inits = inits@.map_values(|h: HoleInit| init_view(h));
    proof {
        assert(h_defs =~= hn.map_values(|h: Seq<char>| family_symbol(name@, h)));
        assert(h_inits =~= hn.map_values(|h: Seq<char>| HoleInitView::Address(h, family_symbol(name@, h))));
    }
    let mut j: usize = 0;
    while j < len
        invariant
            j <= len,
            len == l.len(),
            n <= len <= u16::MAX,
            n == sig@.inputs,
            ss.io_locations@ == wrapped(l),
            names(ss.stack_arg_names@) == Seq::new(zeros_before(l, l.len() as int), |k: int| stack_name(k as nat)),
            names(defs@) =~= h_defs + Seq::new(
                zeros_before(l, j as int),
                |k: int| family_symbol(name@, stack_name(k as nat)),
            ),
            j <= n ==> inits@.map_values(|h: HoleInit| init_view(h)) =~= h_inits + Seq::new(
                zeros_before(l, j as int),
                |k: int| HoleInitView::StackGet(stack_name(k as nat), family_symbol(name@, stack_name(k as nat))),
            ),
            j > n ==> inits@.map_values(|h: HoleInit| init_view(h)) =~= h_inits + Seq::new(
                zeros_before(l, n as int),
                |k: int| HoleInitView::StackGet(stack_name(k as nat), family_symbol(name@, stack_name(k as nat))),
            ),
            j <= n ==> outs@.len() == 0,
            j > n ==> outs@.map_values(|o: StackSet| (o.symbol@, o.var@)) =~= Seq::new(
                (zeros_before(l, j as int) - zeros_before(l, n as int)) as nat,
                |k: int|
                    (
                        family_symbol(name@, stack_name((zeros_before(l, n as int) + k) as nat)),
                        stack_name((zeros_before(l, n as int) + k) as nat),
                    ),
            ),
        decreases len - j,
    {
        proof {
            lemma_zeros_before(l, j as int, j as int + 1);
            lemma_zeros_before(l, j as int + 1, len as int);
            if n <= j {
                lemma_zeros_before(l, n as int, j as int);
            }
        }
        let ghost d0 = defs@;
        let ghost i0 = inits@;
        let ghost o0 = outs@;
        match ss.io_locations[j] {
            WrapperCallArg::Stack(k) => {
                proof {
                    assert(ss.io_locations@[j as int] == wrapper_arg(l, j as int));
                    assert(l[j as int] == 0);
                    assert(k == zeros_before(l, j as int));
                    assert(zeros_before(l, j as int + 1) == zeros_before(l, j as int) + 1);
                    assert(names(ss.stack_arg_names@)[k as int] == stack_name(k as nat));
                    assert(names(ss.stack_arg_names@).len() == ss.stack_arg_names@.len());
                    assert(k < ss.stack_arg_names@.len());
                    assert(names(ss.stack_arg_names@)[k as int] == ss.stack_arg_names@[k as int]@);
                }
                let var = ss.stack_arg_names[k as usize].clone();
                let sym = family_symbol_string(name, var.as_str());
                let ghost kk = k as nat;
                proof {
                    assert(var@ == stack_name(kk));
                    assert(sym@ == family_symbol(name@, stack_name(kk)));
                }
                if j < n {
                    inits.push(HoleInit::StackGet { var, symbol: sym.clone() });
                    proof {
                        assert(inits@.map_values(|h: HoleInit| init_view(h)) =~= i0.map_values(|h: HoleInit| init_view(h)).push(
                            HoleInitView::StackGet(stack_name(kk), family_symbol(name@, stack_name(kk))),
                        ));
                    }
                } else {
                    proof {
                        if j == n {
                            assert(outs@.len() == 0);
                        }
                    }
                    outs.push(StackSet { symbol: sym.clone(), var });
                    proof {
                        assert(outs@.map_values(|o: StackSet| (o.symbol@, o.var@)) =~= o0.map_values(|o: StackSet| (o.symbol@, o.var@)).push(
                            (family_symbol(name@, stack_name(kk)), stack_name(kk)),
                        ));
                    }
                }
                defs.push(sym);
                proof {
                    assert(names(defs@) =~= names(d0).push(family_symbol(name@, stack_name(kk))));
                }
            },
            WrapperCallArg::Reg(_) => {
                proof {
                    assert(ss.io_locations@[j as int] == wrapper_arg(l, j as int));
                    assert(l[j as int] != 0);
                }
            },
        }
        j = j + 1;
    }
    proof {
        assert(len == n ==> outs@.len() == 0);
    }
    let ghost before_targets = inits@.map_values(|h: HoleInit| init_view(h));
    if sig.target_enum.is_some() {
        let ghost tn = sig@.target_names;
        let mut t: usize = 0;
        while t < sig.target_names.len()
            invariant
                t <= tn.len(),
                tn == sig@.target_names,
                inits@.map_values(|h: HoleInit| init_view(h)) =~= before_targets + Seq::new(
                    t as nat,
                    |k: int| HoleInitView::Target(tn[k]),
                ),
            decreases tn.len() - t,
        {
            let nm = sig.target_names[t].clone();
            proof {
                assert(nm@ == tn[t as int]);
            }
            let ghost i0 = inits@;
            inits.push(HoleInit::Target { name: nm });
            proof {
                assert(inits@.map_values(|h: HoleInit| init_view(h)) =~= i0.map_values(|h: HoleInit| init_view(h)).push(
                    HoleInitView::Target(tn[t as int]),
                ));
            }
            t = t + 1;
        }
        proof {
            assert(Seq::new(tn.len(), |k: int| HoleInitView::Target(tn[k])) =~= tn.map_values(
                |x: Seq<char>| HoleInitView::Target(x),
            ));
        }
    }
    proof {
        lemma_zeros_before(l, n as int, len as int);
        if len == n {
            assert(outs@.map_values(|o: StackSet| (o.symbol@, o.var@)) =~= plan.hole_outputs);
        }
    }
    (defs, inits, outs)
}

} // verus!

verus! {

proof fn lemma_wrapped_bounds(l: Seq<u16>)
    requires
        l.len() <= u16::MAX,
    ensures
        forall|i: int|
            0 <= i < l.len() ==> match #[trigger] wrapped(l)[i] {
                WrapperCallArg::Reg(r) => r < seq_max(l),
                WrapperCallArg::Stack(k) => k < zeros_before(l, l.len() as int) && k == zeros_before(l, i),
            },
{
    lemma_seq_max(l);
    assert forall|i: int| 0 <= i < l.len() implies match #[trigger] wrapped(l)[i] {
        WrapperCallArg::Reg(r) => r < seq_max(l),
        WrapperCallArg::Stack(k) => k < zeros_before(l, l.len() as int) && k == zeros_before(l, i),
    } by {
        lemma_zeros_before(l, i, i + 1);
        lemma_zeros_before(l, i + 1, l.len() as int);
        assert(l[i] <= seq_max(l));
    }
}

/// The variable holding a value kept at `w` (see `location_var`).
fn location_name(ss: &StencilSignature, w: WrapperCallArg, Ghost(l): Ghost<Seq<u16>>) -> (r: String)
    requires
        names(ss.reg_names@) == reg_names_of(l, ss.inputs_num as int),
        names(ss.stack_arg_names@) == Seq::new(zeros_before(l, l.len() as int), |k: int| stack_name(k as nat)),
        match w {
            WrapperCallArg::Reg(r) => r < seq_max(l),
            WrapperCallArg::Stack(k) => k < zeros_before(l, l.len() as int),
        },
    ensures
        r@ == location_var(w, reg_names_of(l, ss.inputs_num as int)),
{
    match w {
        WrapperCallArg::Reg(x) => {
            proof {
                assert(names(ss.reg_names@).len() == ss.reg_names@.len());
                assert(x < ss.reg_names@.len());
                assert(names(ss.reg_names@)[x as int] == ss.reg_names@[x as int]@);
            }
            ss.reg_names[x as usize].clone()
        },
        WrapperCallArg::Stack(k) => {
            proof {
                assert(names(ss.stack_arg_names@).len() == ss.stack_arg_names@.len());
                assert(k < ss.stack_arg_names@.len());
                assert(names(ss.stack_arg_names@)[k as int] == ss.stack_arg_names@[k as int]@);
            }
            ss.stack_arg_names[k as usize].clone()
        },
    }
}

/// The arguments of the call of the user's function and what it binds (see
/// `stencil_plan`).
fn plan_call(name: &str, sig: &FnSignature, ss: &StencilSignature, Ghost(l): Ghost<Seq<u16>>) -> (r: (
    Vec<String>,
    Rets,
))
    requires
        sig_wf(sig@),
        sig.inputs <= l.len() <= u16::MAX,
        ss.inputs_num == sig.inputs,
        ss.io_locations@ == wrapped(l),
        names(ss.reg_names@) == reg_names_of(l, sig.inputs as int),
        names(ss.stack_arg_names@) == Seq::new(zeros_before(l, l.len() as int), |k: int| stack_name(k as nat)),
    ensures
        names(r.0@) == stencil_plan(name@, sig@, false, l).call_args,
        match r.1 {
            Rets::Target => RetsView::Target,
            Rets::Single(s) => RetsView::Single(s@),
            Rets::Tuple(v) => RetsView::Tuple(names(v@)),
        } == stencil_plan(name@, sig@, false, l).rets,
{
    let ghost plan = stencil_plan(name@, sig@, false, l);
    let ghost regs = reg_names_of(l, sig.inputs as int);
    let ghost w = wrapped(l);
    let ghost ca = sig@.call_args;
    proof {
        lemma_wrapped_bounds(l);
    }
    let mut args: Vec<String> = Vec::new();
    let mut j: usize = 0;
    while j < sig.call_args.len()
        invariant
            j <= ca.len(),
            ca == sig@.call_args,
            sig_wf(sig@),
            sig.inputs <= l.len() <= u16::MAX,
            ss.inputs_num == sig.inputs,
            ss.io_locations@ == w,
            w == wrapped(l),
            regs == reg_names_of(l, sig.inputs as int),
            names(ss.reg_names@) == regs,
            names(ss.stack_arg_names@) == Seq::new(zeros_before(l, l.len() as int), |k: int| stack_name(k as nat)),
            forall|i: int|
                0 <= i < l.len() ==> match #[trigger] wrapped(l)[i] {
                    WrapperCallArg::Reg(r) => r < seq_max(l),
                    WrapperCallArg::Stack(k) => k < zeros_before(l, l.len() as int) && k == zeros_before(l, i),
                },
            names(args@) =~= Seq::new(j as nat, |k: int| call_var(ca[k], sig@, w, regs)),
        decreases ca.len() - j,
    {
        let a = sig.call_args[j];
        proof {
            assert(ca[j as int] == a);
        }
        let s = match a {
            CallArg::Arg(i) => {
                proof {
                    assert(w[i as int] == wrapped(l)[i as int]);
                }
                location_name(ss, ss.io_locations[i as usize], Ghost(l))
            },
            CallArg::Hole(i) => {
                proof {
                    assert(names(sig.hole_names@)[i as int] == sig.hole_names@[i as int]@);
                }
                sig.hole_names[i as usize].clone()
            },
            CallArg::Stack => {
                let mut s = String::new();
                push_chars(&mut s, &['s', 't', 'a', 'c', 'k']);
                s
            },
            CallArg::Target(i) => {
                proof {
                    assert(names(sig.target_names@)[i as int] == sig.target_names@[i as int]@);
                }
                sig.target_names[i as usize].clone()
            },
        };
        proof {
            assert(s@ == call_var(a, sig@, w, regs));
        }
        let ghost a0 = args@;
        args.push(s);
        proof {
            assert(names(args@) =~= names(a0).push(s@));
        }
        j = j + 1;
    }
    proof {
        assert(names(args@) =~= ca.map_values(|a: CallArg| call_var(a, sig@, w, regs)));
    }
    if sig.target_enum.is_some() {
        return (args, Rets::Target);
    }
    let n = sig.inputs as usize;
    let len = ss.io_locations.len();
    let ghost outs_spec = w.skip(n as int).map_values(|x: WrapperCallArg| location_var(x, regs));
    let mut outs: Vec<String> = Vec::new();
    let mut j: usize = n;
    while j < len
        invariant
            n <= j <= len,
            len == l.len(),
            n == sig.inputs,
            sig.inputs <= l.len() <= u16::MAX,
            ss.inputs_num == sig.inputs,
            ss.io_locations@ == w,
            w == wrapped(l),
            regs == reg_names_of(l, sig.inputs as int),
            names(ss.reg_names@) == regs,
            names(ss.stack_arg_names@) == Seq::new(zeros_before(l, l.len() as int), |k: int| stack_name(k as nat)),
            forall|i: int|
                0 <= i < l.len() ==> match #[trigger] wrapped(l)[i] {
                    WrapperCallArg::Reg(r) => r < seq_max(l),
                    WrapperCallArg::Stack(k) => k < zeros_before(l, l.len() as int) && k == zeros_before(l, i),
                },
            outs_spec == w.skip(n as int).map_values(|x: WrapperCallArg| location_var(x, regs)),
            names(outs@) =~= outs_spec.take(j - n),
        decreases len - j,
    {
        proof {
            assert(w[j as int] == wrapped(l)[j as int]);
        }
        let s = location_name(ss, ss.io_locations[j], Ghost(l));
        let ghost o0 = outs@;
        outs.push(s);
        proof {
            assert(outs_spec[j - n] == location_var(w[j as int], regs));
            assert(names(outs@) =~= names(o0).push(s@));
            assert(outs_spec.take(j - n + 1) =~= outs_spec.take(j - n).push(outs_spec[j - n]));
        }
        j = j + 1;
    }
    proof {
        assert(outs_spec.take(len - n) =~= outs_spec);
    }
    if outs.len() == 1 {
        let s = outs[0].clone();
        proof {
            assert(names(outs@)[0] == outs@[0]@);
        }
        (args, Rets::Single(s))
    } else {
        (args, Rets::Tuple(outs))
    }
}

/// What a stencil does after the call (see `stencil_plan`).
fn plan_next(name: &str, sig: &FnSignature, returning: bool) -> (r: NextStep)
    ensures
        match r {
            NextStep::Targets(v) => NextView::Targets(v@.map_values(|p: (String, String)| (p.0@, p.1@))),
            NextStep::Return => NextView::Return,
            NextStep::Next => NextView::Next,
        } == stencil_plan(name@, sig@, returning, Seq::empty()).next,
{
    if sig.target_enum.is_some() {
        let ghost tn = sig@.target_names;
        let mut v: Vec<(String, String)> = Vec::new();
        let mut t: usize = 0;
        while t < sig.target_names.len()
            invariant
                t <= tn.len(),
                tn == sig@.target_names,
                v@.map_values(|p: (String, String)| (p.0@, p.1@)) =~= Seq::new(
                    t as nat,
                    |k: int| (tn[k], family_symbol(name@, tn[k])),
                ),
            decreases tn.len() - t,
        {
            let nm = sig.target_names[t].clone();
            proof {
                assert(nm@ == tn[t as int]);
            }
            let f = family_symbol_string(name, nm.as_str());
            let ghost v0 = v@;
            v.push((nm, f));
            proof {
                assert(v@.map_values(|p: (String, String)| (p.0@, p.1@)) =~= v0.map_values(
                    |p: (String, String)| (p.0@, p.1@),
                ).push((tn[t as int], family_symbol(name@, tn[t as int]))));
            }
            t = t + 1;
        }
        proof {
            assert(v@.map_values(|p: (String, String)| (p.0@, p.1@)) =~= tn.map_values(
                |x: Seq<char>| (x, family_symbol(name@, x)),
            ));
        }
        NextStep::Targets(v)
    } else if returning {
        NextStep::Return
    } else {
        NextStep::Next
    }
}

impl StencilFamily {
    /// The family's stencil for placement `locations`: its first
    /// `sig.inputs` entries place the arguments, the rest the returns, `0`
    /// on the stack and `r + 1` in register `r`.
    pub fn plan_stencil(&self, locations: &[u16]) -> (r: StencilPlan)
        requires
            sig_wf(self.sig@),
            self.sig.inputs <= locations@.len() <= u16::MAX,
        ensures
            r@ == stencil_plan(self.name@, self.sig@, self.options.returning, locations@),
    {
        let ghost l = locations@;
        let n = self.sig.inputs as usize;
        let ss = StencilSignature::new(n, locations);
        let symbol = plan_symbol(self.name.as_str(), locations, n);
        let (hole_defs, hole_inits, hole_outputs) = plan_holes(self.name.as_str(), &self.sig, &ss, Ghost(l));
        let (call_args, rets) = plan_call(self.name.as_str(), &self.sig, &ss, Ghost(l));
        let next = plan_next(self.name.as_str(), &self.sig, self.options.returning);
        let r = StencilPlan {
            symbol,
            reg_names: ss.reg_names,
            hole_defs,
            hole_inits,
            call_args,
            rets,
            hole_outputs,
            next,
        };
        proof {
            let p = stencil_plan(self.name@, self.sig@, self.options.returning, l);
            assert(r@.hole_defs == p.hole_defs);
            assert(r@.hole_inits == p.hole_inits);
            assert(r@.hole_outputs == p.hole_outputs);
            assert(r@.call_args == p.call_args);
            assert(r@.rets == p.rets);
            assert(r@.next == p.next);
        }
        r
    }
}

} // verus!

verus! {

/// A numeral is all digits, with no sign, and spells its number.
proof fn lemma_decimal(n: nat)
    ensures
        decimal(n).len() >= 1,
        crate::extract::all_digits(decimal(n)),
        crate::extract::digits_value(decimal(n)) == n,
        n != 0 ==> decimal(n) != seq!['0'],
        n == 0 ==> decimal(n) == seq!['0'],
    decreases n,
{
    let d = decimal(n);
    if n < 10 {
        assert(d == seq![digit_char(n as int)]);
        assert(d.drop_last() =~= Seq::<char>::empty());
        assert(digit_char(n as int) as u32 == 48 + n) by {
            if n == 0 { } else if n == 1 { } else if n == 2 { } else if n == 3 { } else if n == 4 {
            } else if n == 5 { } else if n == 6 { } else if n == 7 { } else if n == 8 { } else { }
        }
        assert(crate::extract::is_digit(d[0]));
        assert(crate::extract::digits_value(d.drop_last()) == 0);
        assert(d.last() == digit_char(n as int));
        assert(crate::extract::digits_value(d) == 10 * crate::extract::digits_value(d.drop_last()) + (d.last() as u32 - 48));
    } else {
        lemma_decimal(n / 10);
        let p = decimal(n / 10);
        let c = digit_char((n % 10) as int);
        assert(d == p.push(c));
        assert(d.drop_last() =~= p);
        assert(c as u32 == 48 + n % 10) by {
            let m = n % 10;
            if m == 0 { } else if m == 1 { } else if m == 2 { } else if m == 3 { } else if m == 4 {
            } else if m == 5 { } else if m == 6 { } else if m == 7 { } else if m == 8 { } else { }
        }
        assert forall|i: int| 0 <= i < d.len() implies crate::extract::is_digit(#[trigger] d[i]) by {
            if i < p.len() {
                assert(d[i] == p[i]);
            }
        }
        assert(d.last() == c);
        assert(crate::extract::digits_value(d) == 10 * crate::extract::digits_value(p) + (c as u32 - 48));
        assert(10 * (n / 10) + n % 10 == n);
        if d == seq!['0'] {
            assert(d.len() == 1);
        }
    }
}

/// `str::parse::<u16>` reads a numeral back.
proof fn lemma_decimal_parses(n: nat)
    requires
        n <= u16::MAX,
    ensures
        crate::extract::parsed_u16(decimal(n)) == Some(n as u16),
{
    lemma_decimal(n);
    let d = decimal(n);
    assert(crate::extract::is_digit(d[0]));
}

/// Where a placement entry puts its value: `0` on the stack, `r + 1` in
/// register `r`.
pub open spec fn location_of(v: u16) -> crate::stencils::Location {
    if v == 0 {
        crate::stencils::Location::Stack(0)
    } else {
        crate::stencils::Location::Register((v - 1) as u16)
    }
}

/// An argument of a stencil name reads back as the location it was written
/// for.
proof fn lemma_decimal_location(v: u16)
    ensures
        crate::extract::arg_location(decimal(v as nat)) == Some(location_of(v)),
        decimal(v as nat) != seq!['0'] ==> crate::extract::parsed_u16(decimal(v as nat)) != Some(0u16),
{
    lemma_decimal(v as nat);
    lemma_decimal_parses(v as nat);
}

} // verus!

verus! {

/// Joined numerals split off their first numeral.
proof fn lemma_joined_front(a: Seq<u16>)
    requires
        a.len() >= 2,
    ensures
        joined(a) == decimal(a[0] as nat) + seq!['_'] + joined(a.drop_first()),
    decreases a.len(),
{
    if a.len() == 2 {
        assert(a.drop_last().len() == 1);
        assert(a.drop_first().len() == 1);
        assert(joined(a.drop_last()) == decimal(a.drop_last()[0] as nat));
        assert(a.drop_last()[0] == a[0]);
        assert(joined(a.drop_first()) == decimal(a.drop_first()[0] as nat));
        assert(a.drop_first()[0] == a[1]);
        assert(joined(a) == joined(a.drop_last()) + seq!['_'] + decimal(a.last() as nat));
        assert(joined(a) =~= decimal(a[0] as nat) + seq!['_'] + joined(a.drop_first()));
    } else {
        lemma_joined_front(a.drop_last());
        assert(a.drop_last().drop_first() =~= a.drop_first().drop_last());
        assert(a.drop_first().last() == a.last());
        assert(joined(a) =~= decimal(a[0] as nat) + seq!['_'] + joined(a.drop_first()));
    }
}

/// No `__` from `from` to the end of `s`.
pub open spec fn no_sep_from(s: Seq<char>, from: int) -> bool {
    forall|k: int| from <= k && k + 1 < s.len() ==> !(#[trigger] s[k] == '_' && s[k + 1] == '_')
}

/// Joined numerals start and end with a digit and hold no `__`.
proof fn lemma_joined_shape(a: Seq<u16>)
    requires
        a.len() >= 1,
    ensures
        joined(a).len() >= 1,
        crate::extract::is_digit(joined(a)[0]),
        crate::extract::is_digit(joined(a).last()),
        no_sep_from(joined(a), 0),
    decreases a.len(),
{
    lemma_decimal(a.last() as nat);
    let d = decimal(a.last() as nat);
    assert(crate::extract::is_digit(d[0]));
    assert(crate::extract::is_digit(d.last()));
    if a.len() == 1 {
        assert forall|k: int| 0 <= k && k + 1 < d.len() implies !(#[trigger] d[k] == '_' && d[k + 1] == '_') by {
            assert(crate::extract::is_digit(d[k]));
        }
    } else {
        lemma_joined_shape(a.drop_last());
        let p = joined(a.drop_last());
        let j = joined(a);
        assert(j == p + seq!['_'] + d);
        assert(j[0] == p[0]);
        assert(j.last() == d.last());
        assert forall|k: int| 0 <= k && k + 1 < j.len() implies !(#[trigger] j[k] == '_' && j[k + 1] == '_') by {
            if k + 1 < p.len() {
                assert(j[k] == p[k] && j[k + 1] == p[k + 1]);
            } else if k + 1 == p.len() {
                assert(j[k] == p.last());
            } else if k == p.len() {
                assert(j[k + 1] == d[0]);
            } else {
                assert(j[k] == d[k - p.len() - 1]);
                assert(crate::extract::is_digit(d[k - p.len() - 1]));
            }
        }
    }
}

proof fn lemma_next_char_shift(x: Seq<char>, y: Seq<char>, i: int, c: char)
    requires
        0 <= i <= y.len(),
    ensures
        crate::extract::next_char(x + y, x.len() + i, c) == x.len() + crate::extract::next_char(y, i, c),
    decreases y.len() - i,
{
    if i < y.len() {
        assert((x + y)[x.len() + i] == y[i]);
        if y[i] != c {
            lemma_next_char_shift(x, y, i + 1, c);
        }
    }
}

proof fn lemma_args_from_shift(x: Seq<char>, y: Seq<char>, i: int)
    requires
        0 <= i <= y.len(),
    ensures
        crate::extract::args_from(x + y, x.len() + i) == crate::extract::args_from(y, i),
        crate::extract::args_ok_from(x + y, x.len() + i) == crate::extract::args_ok_from(y, i),
    decreases y.len() - i,
{
    let s = x + y;
    let start = x.len() + i;
    lemma_next_char_shift(x, y, i, '_');
    crate::extract::lemma_next_char(y, i, '_');
    let end = crate::extract::next_char(s, start, '_');
    let e2 = crate::extract::next_char(y, i, '_');
    assert(end == x.len() + e2);
    assert(s.subrange(start, end) =~= y.subrange(i, e2));
    if e2 < y.len() {
        lemma_args_from_shift(x, y, e2 + 1);
        assert(end + 1 == x.len() + (e2 + 1));
    }
}

/// Joined numerals read back as the locations they were written for, with
/// no register `-1` met.
proof fn lemma_joined_args(a: Seq<u16>)
    requires
        a.len() >= 1,
    ensures
        crate::extract::args_from(joined(a), 0) == Some(a.map_values(|v: u16| location_of(v))),
        crate::extract::args_ok_from(joined(a), 0),
    decreases a.len(),
{
    let d = decimal(a[0] as nat);
    lemma_decimal(a[0] as nat);
    lemma_decimal_location(a[0]);
    assert forall|k: int| 0 <= k < d.len() implies d[k] != '_' by {
        assert(crate::extract::is_digit(d[k]));
    }
    let j = joined(a);
    if a.len() == 1 {
        assert(j == d);
        crate::extract::lemma_next_char(d, 0, '_');
        assert(crate::extract::next_char(d, 0, '_') == d.len());
        assert(d.subrange(0, d.len() as int) =~= d);
        assert(a.map_values(|v: u16| location_of(v)) =~= seq![location_of(a[0])]);
    } else {
        lemma_joined_front(a);
        let rest = joined(a.drop_first());
        let x = d + seq!['_'];
        assert(j == x + rest);
        assert(j =~= d + (seq!['_'] + rest));
        lemma_next_char_shift(d, seq!['_'] + rest, 0, '_');
        crate::extract::lemma_next_char(d, 0, '_');
        assert(crate::extract::next_char(seq!['_'] + rest, 0, '_') == 0);
        assert(crate::extract::next_char(d + (seq!['_'] + rest), d.len() as int, '_') == d.len());
        assert(crate::extract::next_char(d, 0, '_') == d.len());
        // The first numeral ends at its own length.
        assert(crate::extract::next_char(j, 0, '_') == d.len()) by {
            lemma_next_char_prefix(d, seq!['_'] + rest, 0);
        }
        assert(j.subrange(0, d.len() as int) =~= d);
        lemma_joined_args(a.drop_first());
        lemma_args_from_shift(x, rest, 0);
        assert(x.len() == d.len() + 1);
        assert(a.map_values(|v: u16| location_of(v)) =~= seq![location_of(a[0])] + a.drop_first().map_values(
            |v: u16| location_of(v),
        ));
    }
}

/// Searching past a stretch without `c` goes on where it ends.
proof fn lemma_next_char_prefix(x: Seq<char>, y: Seq<char>, i: int)
    requires
        0 <= i <= x.len(),
        forall|k: int| 0 <= k < x.len() ==> x[k] != '_',
    ensures
        crate::extract::next_char(x + y, i, '_') == crate::extract::next_char(x + y, x.len() as int, '_'),
    decreases x.len() - i,
{
    if i < x.len() {
        assert((x + y)[i] == x[i]);
        lemma_next_char_prefix(x, y, i + 1);
    }
}

} // verus!

verus! {

proof fn lemma_next_sep_at(s: Seq<char>, from: int, j: int)
    requires
        0 <= from <= j,
        j + 1 < s.len(),
        s[j] == '_' && s[j + 1] == '_',
        forall|k: int| from <= k < j ==> !(#[trigger] s[k] == '_' && s[k + 1] == '_'),
    ensures
        crate::extract::next_sep(s, from) == j,
    decreases j - from,
{
    if from < j {
        lemma_next_sep_at(s, from + 1, j);
    }
}

proof fn lemma_next_sep_none(s: Seq<char>, from: int)
    requires
        0 <= from,
        no_sep_from(s, from),
    ensures
        crate::extract::next_sep(s, from) == s.len(),
    decreases s.len() - from,
{
    if from + 1 < s.len() {
        lemma_next_sep_none(s, from + 1);
    }
}

/// The arguments or returns of a placement read back from their numerals.
proof fn lemma_joined_parses(a: Seq<u16>)
    ensures
        crate::extract::parsed_args(joined(a)) == Some(a.map_values(|v: u16| location_of(v))),
        crate::extract::args_ok(joined(a)),
{
    if a.len() == 0 {
        assert(a.map_values(|v: u16| location_of(v)) =~= Seq::empty());
    } else {
        lemma_joined_args(a);
        lemma_joined_shape(a);
    }
}

/// Extraction reads the symbol of each stencil a family generates back as
/// the family's name and the placement's locations (`0` the stack, `r + 1`
/// register `r`), and meets no register `-1` on the way. This holds for a
/// family name with no `__` that does not end in `_`, and for the empty
/// stencil.
#[verifier::spinoff_prover]
#[verifier::rlimit(40)]
pub proof fn lemma_symbol_reads_back(name: Seq<char>, s: Seq<u16>, n: int)
    requires
        0 <= n <= s.len(),
        (crate::extract::next_sep(name, 0) >= name.len() && (name.len() > 0 ==> name.last() != '_')) || (name
            == crate::extract::empty_name() && s.len() == 0),
    ensures
        crate::extract::starts_with(stencil_symbol(name, s, n), crate::objects::stencil_prefix()),
        crate::extract::parsed_name(stencil_symbol(name, s, n).skip(13)) == Some(
            (name, s.take(n).map_values(|v: u16| location_of(v)), s.skip(n).map_values(|v: u16| location_of(v))),
        ),
        crate::extract::name_ok(stencil_symbol(name, s, n).skip(13)),
{
    let a = s.take(n);
    let b = s.skip(n);
    let j1s = joined(a);
    let j2s = joined(b);
    let sep = seq!['_', '_'];
    let body = name + sep + j1s + sep + j2s;
    let sym = stencil_symbol(name, s, n);
    assert(sym =~= crate::objects::stencil_prefix() + body);
    assert(sym.skip(13) =~= body);
    assert(sym.take(13) =~= crate::objects::stencil_prefix());
    if name == crate::extract::empty_name() && s.len() == 0 {
        assert(a =~= Seq::<u16>::empty());
        assert(b =~= Seq::<u16>::empty());
        assert(body =~= crate::extract::empty_symbol());
        assert(a.map_values(|v: u16| location_of(v)) =~= Seq::empty());
        assert(b.map_values(|v: u16| location_of(v)) =~= Seq::empty());
        return;
    }
    let m = name.len() as int;
    let j2 = m + 2 + j1s.len();
    crate::extract::lemma_next_sep(name, 0);
    lemma_joined_parses(a);
    lemma_joined_parses(b);
    if a.len() > 0 {
        lemma_joined_shape(a);
    }
    if b.len() > 0 {
        lemma_joined_shape(b);
    }
    // The name ends at the first `__`.
    assert forall|k: int| 0 <= k < m implies !(#[trigger] body[k] == '_' && body[k + 1] == '_') by {
        assert(body[k] == name[k]);
        if k + 1 < m {
            assert(body[k + 1] == name[k + 1]);
        } else {
            assert(body[k] == name.last());
        }
    }
    assert(body[m] == '_' && body[m + 1] == '_');
    lemma_next_sep_at(body, 0, m);
    // The arguments end at the second.
    assert forall|k: int| m + 2 <= k < j2 implies !(#[trigger] body[k] == '_' && body[k + 1] == '_') by {
        assert(body[k] == j1s[k - m - 2]);
        if k + 1 < j2 {
            assert(body[k + 1] == j1s[k + 1 - m - 2]);
        } else {
            assert(body[k] == j1s.last());
        }
    }
    assert(body[j2] == '_' && body[j2 + 1] == '_');
    lemma_next_sep_at(body, m + 2, j2);
    // The returns hold no further `__`.
    assert forall|k: int| j2 + 2 <= k && k + 1 < body.len() implies !(#[trigger] body[k] == '_' && body[k + 1]
        == '_') by {
        assert(body[k] == j2s[k - j2 - 2]);
        assert(body[k + 1] == j2s[k + 1 - j2 - 2]);
    }
    lemma_next_sep_none(body, j2 + 2);
    assert(body.take(m) =~= name);
    assert(body.subrange(m + 2, j2) =~= j1s);
    assert(body.subrange(j2 + 2, body.len() as int) =~= j2s);
    // The body is not the empty stencil's symbol.
    if body == crate::extract::empty_symbol() {
        let e = crate::extract::empty_symbol();
        assert(e[2] == 'e');
        if m == 0 {
            if j1s.len() > 0 {
                assert(body[2] == j1s[0]);
            } else {
                assert(body[2] == '_');
            }
        } else if m == 1 {
            assert(body[2] == '_');
        } else {
            assert(body[0] == name[0] && body[1] == name[1]);
        }
    }
}

} // verus!

verus! {

proof fn lemma_digits_end(d: Seq<char>, rest: Seq<char>, k: int)
    requires
        0 <= k <= d.len(),
        crate::extract::all_digits(d),
        rest.len() > 0 ==> !crate::extract::is_digit(rest[0]),
    ensures
        crate::extract::digits_end(d + rest, k) == d.len(),
    decreases d.len() - k,
{
    if k < d.len() {
        assert((d + rest)[k] == d[k]);
        lemma_digits_end(d, rest, k + 1);
    } else if rest.len() > 0 {
        assert((d + rest)[k] == rest[0]);
    }
}

/// The leading number of a numeral followed by a non-digit is its number.
proof fn lemma_leading_decimal(i: nat, rest: Seq<char>)
    requires
        i <= u16::MAX,
        rest.len() > 0 ==> !crate::extract::is_digit(rest[0]),
    ensures
        crate::extract::leading_number(decimal(i) + rest) == Some(i as u16),
{
    lemma_decimal(i);
    lemma_decimal_parses(i);
    lemma_digits_end(decimal(i), rest, 0);
    assert((decimal(i) + rest).take(decimal(i).len() as int) =~= decimal(i));
}

/// The jump to what follows holds no `__`.
proof fn lemma_next_symbol_no_sep(m: int)
    requires
        0 <= m,
        m + 1 < crate::extract::next_symbol().len(),
    ensures
        !(crate::extract::next_symbol()[m] == '_' && crate::extract::next_symbol()[m + 1] == '_'),
{
    let s = crate::extract::next_symbol();
    assert(s[0] == 'c' && s[1] == 'o' && s[2] == 'p' && s[3] == 'y' && s[4] == '_' && s[5] == 'a' && s[6] == 'n'
        && s[7] == 'd' && s[8] == '_' && s[9] == 'p' && s[10] == 'a' && s[11] == 't' && s[12] == 'c' && s[13]
        == 'h' && s[14] == '_' && s[15] == 'n' && s[16] == 'e' && s[17] == 'x' && s[18] == 't');
}

/// A family symbol is the family's name, `__`, and more: never the jump to
/// what follows.
proof fn lemma_family_symbol_shape(name: Seq<char>, x: Seq<char>)
    ensures
        crate::extract::starts_with(family_symbol(name, x), name),
        crate::extract::starts_with(family_symbol(name, x).skip(name.len() as int), seq!['_', '_']),
        family_symbol(name, x).skip(name.len() as int + 2) == x,
        family_symbol(name, x) != crate::extract::next_symbol(),
{
    let f = family_symbol(name, x);
    let m = name.len() as int;
    assert(f.take(m) =~= name);
    assert(f.skip(m).take(2) =~= seq!['_', '_']);
    assert(f.skip(m + 2) =~= x);
    if f == crate::extract::next_symbol() {
        assert(f[m] == '_' && f[m + 1] == '_');
        lemma_next_symbol_no_sep(m);
    }
}

/// Extraction reads the hole symbols a stencil declares, and the jump
/// target functions it calls, as the patches they stand for: hole `i`,
/// stack slot `i`, target `i`; each is the family's name, `__` and more, as
/// extraction demands of a stencil's relocations.
pub proof fn lemma_hole_symbols_resolve(name: Seq<char>, i: nat, arg: Seq<char>)
    requires
        i <= u16::MAX,
    ensures
        crate::extract::patch_type_of(name, family_symbol(name, hole_name(i))) == Some(
            crate::extract::PatchType::Hole(i as u16),
        ),
        crate::extract::patch_type_of(name, family_symbol(name, stack_name(i))) == Some(
            crate::extract::PatchType::Stack(i as u16),
        ),
        crate::extract::patch_type_of(name, family_symbol(name, target_name(i, arg))) == Some(
            crate::extract::PatchType::Target(i as u16),
        ),
        forall|x: Seq<char>|
            crate::extract::starts_with(#[trigger] family_symbol(name, x), name) && crate::extract::starts_with(
                family_symbol(name, x).skip(name.len() as int),
                seq!['_', '_'],
            ),
{
    assert forall|x: Seq<char>|
        crate::extract::starts_with(#[trigger] family_symbol(name, x), name) && crate::extract::starts_with(
            family_symbol(name, x).skip(name.len() as int),
            seq!['_', '_'],
        ) by {
        lemma_family_symbol_shape(name, x);
    }
    let d = decimal(i);
    // A hole.
    let h = hole_name(i);
    lemma_family_symbol_shape(name, h);
    lemma_decimal(i);
    assert(h.take(5)[0] == 'h');
    if h.len() >= 6 {
        assert(h.take(6)[0] == 'h');
    }
    assert(h.take(4) =~= hole_word());
    assert(h.skip(4) =~= d + Seq::<char>::empty());
    lemma_leading_decimal(i, Seq::empty());
    // A stack slot.
    let st = stack_name(i);
    lemma_family_symbol_shape(name, st);
    assert(st.take(5) =~= stack_word());
    assert(st.skip(5) =~= d + Seq::<char>::empty());
    // A jump target.
    let t = target_name(i, arg);
    lemma_family_symbol_shape(name, t);
    assert(t.take(5)[0] == 't');
    assert(t.take(6) =~= target_word());
    assert(t.skip(6) =~= d + (seq!['_'] + arg));
    lemma_leading_decimal(i, seq!['_'] + arg);
}

/// The metadata symbol of family `name`.
pub open spec fn meta_symbol(name: Seq<char>) -> Seq<char> {
    crate::objects::stencil_prefix() + name + crate::objects::meta_suffix()
}

impl StencilFamily {
    /// The symbol of the family's metadata.
    pub fn meta_symbol(&self) -> (r: String)
        ensures
            r@ == meta_symbol(self.name@),
    {
        let mut s = String::new();
        push_chars(&mut s, &['_', '_', 'p', 'a', 't', 'c', 'h', 'o', 'u', 'l', 'y', '_', '_']);
        s.append(self.name.as_str());
        push_chars(&mut s, &['_', '_', 'm', 'e', 't', 'a']);
        proof {
            assert(s@ =~= meta_symbol(self.name@));
        }
        s
    }
}

/// Extraction reads a family's metadata symbol back as the metadata the
/// family stores.
pub proof fn lemma_meta_reads_back(sig: SigView, options: FamilyOptions)
    ensures
        crate::extract::unpacked(packed(metadata_of(sig, options))) == Some(metadata_of(sig, options)),
{
    crate::extract::lemma_unpack_pack(metadata_of(sig, options));
}

} // verus!

verus! {

proof fn lemma_count_mono(args: Seq<ArgSpec>, j: int, k: int, kind: ArgKind)
    requires
        0 <= j <= k,
    ensures
        count_kind(args, j, kind) <= count_kind(args, k, kind),
        j < k && kind_of(args[j]) == Some(kind) ==> count_kind(args, j, kind) < count_kind(args, k, kind),
    decreases k - j,
{
    if j < k {
        lemma_count_mono(args, j, k - 1, kind);
    }
}

proof fn lemma_no_arg_error(args: Seq<ArgSpec>, k: int, j: int)
    requires
        0 <= k <= j < args.len(),
        first_arg_error(args, k) is None,
    ensures
        arg_error(args[j]) is None,
    decreases j - k,
{
    if k < j {
        lemma_no_arg_error(args, k + 1, j);
    }
}

proof fn lemma_target_names_len(args: Seq<ArgSpec>, k: int)
    requires
        0 <= k <= args.len(),
        forall|j: int| 0 <= j < k ==> arg_error(#[trigger] args[j]) is None,
    ensures
        target_names_upto(args, k).len() == count_kind(args, k, ArgKind::Target),
    decreases k,
{
    if k > 0 {
        lemma_target_names_len(args, k - 1);
        assert(arg_error(args[k - 1]) is None);
    }
}

/// A signature read without error names, in each argument of the call, a
/// value it has.
proof fn lemma_signature_wf(fn_name: Seq<char>, args: Seq<ArgSpec>, ret: ReturnShape)
    requires
        first_arg_error(args, 0) is None,
        !too_many(args, ret),
    ensures
        sig_wf(signature_of(fn_name, args, ret)),
{
    let n = args.len() as int;
    let sig = signature_of(fn_name, args, ret);
    assert forall|j: int| 0 <= j < n implies arg_error(#[trigger] args[j]) is None by {
        lemma_no_arg_error(args, 0, j);
    }
    lemma_target_names_len(args, n);
    assert forall|j: int| 0 <= j < sig.call_args.len() implies match #[trigger] sig.call_args[j] {
        CallArg::Arg(i) => i < sig.inputs,
        CallArg::Hole(i) => i < sig.hole_names.len(),
        CallArg::Target(i) => i < sig.target_names.len(),
        CallArg::Stack => true,
    } by {
        lemma_count_mono(args, j, n, ArgKind::Arg);
        lemma_count_mono(args, j, n, ArgKind::Hole);
        lemma_count_mono(args, j, n, ArgKind::Target);
        assert(sig.call_args[j] == call_arg_at(args, j));
    }
}

} // verus!

verus! {

/// What the `stencil` attribute generates for a family: its metadata
/// symbol and bytes, and one stencil per placement of its arguments and
/// returns, in the order of the iteration.
#[derive(Debug)]
pub struct FamilyPlan {
    pub meta_symbol: String,
    pub meta: [u8; 10],
    pub stencils: Vec<StencilPlan>,
}

impl StencilFamily {
    /// Plans the family: its metadata, and its stencil for every placement
    /// of its arguments and returns over its register locations.
    pub fn plan(&self) -> (r: FamilyPlan)
        requires
            sig_wf(self.sig@),
            self.sig.inputs + self.sig.outputs < u16::MAX,
        ensures
            r.meta_symbol@ == meta_symbol(self.name@),
            r.meta@ == packed(metadata_of(self.sig@, self.options)),
            nth_placement(
                self.sig.inputs as int,
                (self.sig.inputs + self.sig.outputs) as nat,
                registers_of(self.options.registers) as int,
                r.stencils@.len() as nat,
            ) is None,
            forall|k: int|
                0 <= k < r.stencils@.len() ==> (nth_placement(
                    self.sig.inputs as int,
                    (self.sig.inputs + self.sig.outputs) as nat,
                    registers_of(self.options.registers) as int,
                    k as nat,
                ) matches Some(t) && (#[trigger] r.stencils@[k])@ == stencil_plan(
                    self.name@,
                    self.sig@,
                    self.options.returning,
                    t,
                )),
            forall|u: Seq<u16>|
                valid_tuple(u, self.sig.inputs as int, registers_of(self.options.registers) as int) && u.len()
                    == self.sig.inputs + self.sig.outputs ==> exists|k: nat|
                    k < r.stencils@.len() && #[trigger] nth_placement(
                        self.sig.inputs as int,
                        u.len(),
                        registers_of(self.options.registers) as int,
                        k,
                    ) == Some(u),
            forall|j: nat, k: nat|
                j < k < r.stencils@.len() ==> #[trigger] nth_placement(
                    self.sig.inputs as int,
                    (self.sig.inputs + self.sig.outputs) as nat,
                    registers_of(self.options.registers) as int,
                    j,
                ) != #[trigger] nth_placement(
                    self.sig.inputs as int,
                    (self.sig.inputs + self.sig.outputs) as nat,
                    registers_of(self.options.registers) as int,
                    k,
                ),
    {
        let registers = self.options.registers();
        let ghost inputs = self.sig.inputs as int;
        let ghost len = (self.sig.inputs + self.sig.outputs) as nat;
        let ghost regs = registers as int;
        let mut perm = RegPermutation::new(self.sig.inputs, self.sig.outputs, registers);
        let mut stencils: Vec<StencilPlan> = Vec::new();
        loop
            invariant
                perm@.wf(),
                perm@.inputs == inputs,
                perm@.registers == registers,
                perm@.current.len() == len,
                regs == registers,
                1 <= regs <= u16::MAX,
                inputs == self.sig.inputs,
                len == self.sig.inputs + self.sig.outputs,
                registers == registers_of(self.options.registers),
                sig_wf(self.sig@),
                self.sig.inputs + self.sig.outputs < u16::MAX,
                !perm@.done ==> nth_placement(inputs, len, regs, stencils@.len() as nat) == Some(perm@.current),
                perm@.done ==> nth_placement(inputs, len, regs, stencils@.len() as nat) is None,
                forall|k: int|
                    0 <= k < stencils@.len() ==> (nth_placement(inputs, len, regs, k as nat) matches Some(t) && (
                    #[trigger] stencils@[k])@ == stencil_plan(self.name@, self.sig@, self.options.returning, t)),
            ensures
                nth_placement(inputs, len, regs, stencils@.len() as nat) is None,
                forall|k: int|
                    0 <= k < stencils@.len() ==> (nth_placement(inputs, len, regs, k as nat) matches Some(t) && (
                    #[trigger] stencils@[k])@ == stencil_plan(self.name@, self.sig@, self.options.returning, t)),
            decreases (if perm@.done {
                0
            } else {
                power(regs as nat, len) - tuple_rank(perm@.current, regs as nat) + 1
            }),
        {
            proof {
                if !perm@.done {
                    lemma_successor_ranks_higher(perm@.current, inputs, regs);
                }
            }
            let ghost before = perm@;
            let ghost count = stencils@.len();
            match perm.next() {
                None => {
                    break ;
                },
                Some(t) => {
                    let p = self.plan_stencil(t.as_slice());
                    stencils.push(p);
                    proof {
                        assert(nth_placement(inputs, len, regs, (count + 1) as nat) == successor(
                            before.current,
                            inputs,
                            regs,
                        ));
                        if !perm@.done {
                            lemma_successor_ranks_higher(perm@.current, inputs, regs);
                        }
                        assert forall|k: int|
                            0 <= k < stencils@.len() implies (nth_placement(inputs, len, regs, k as nat) matches Some(
                            tk,
                        ) && (#[trigger] stencils@[k])@ == stencil_plan(
                            self.name@,
                            self.sig@,
                            self.options.returning,
                            tk,
                        )) by {
                            if k == count {
                                assert(stencils@[k] == p);
                            }
                        }
                    }
                },
            }
        }
        proof {
            lemma_plan_covers(inputs, len, regs, stencils@.len() as nat);
            assert forall|j: nat, k: nat| j < k < stencils@.len() implies #[trigger] nth_placement(inputs, len, regs, j)
                != #[trigger] nth_placement(inputs, len, regs, k) by {
                let planned = stencils@[k as int];
                assert(nth_placement(inputs, len, regs, k) is Some);
                lemma_nth_increasing(inputs, len, regs, j, k);
            }
        }
        FamilyPlan { meta_symbol: self.meta_symbol(), meta: self.meta_bytes(), stencils }
    }
}

/// When the iteration ends after `count` tuples, every valid tuple is one of
/// the first `count`.
proof fn lemma_plan_covers(inputs: int, len: nat, registers: int, count: nat)
    requires
        0 <= inputs,
        1 <= registers <= 0x10000,
        nth_placement(inputs, len, registers, count) is None,
    ensures
        forall|u: Seq<u16>|
            valid_tuple(u, inputs, registers) && u.len() == len ==> exists|k: nat|
                k < count && #[trigger] nth_placement(inputs, u.len(), registers, k) == Some(u),
{
    assert forall|u: Seq<u16>| valid_tuple(u, inputs, registers) && u.len() == len implies exists|k: nat|
        k < count && #[trigger] nth_placement(inputs, u.len(), registers, k) == Some(u) by {
        lemma_every_tuple_reached(u, inputs, registers);
        let k = choose|k: nat| #[trigger] nth_placement(inputs, u.len(), registers, k) == Some(u);
        if k >= count {
            lemma_nth_after_end(inputs, len, registers, count, k);
        }
    }
}

} // verus!

verus! {

impl FnSignature {
    /// Whether `parse` can read the return type: any but `Other`, unless an
    /// argument is refused first or the function picks a jump target.
    pub fn return_supported(args: &Vec<ArgSpec>, ret: ReturnShape) -> (r: bool)
        ensures
            r == (ret != ReturnShape::Other || first_arg_error(args@, 0) is Some || has_targets(args@)),
    {
        let ghost a = args@;
        let n = args.len();
        let mut found = false;
        let mut targets: usize = 0;
        let mut k: usize = 0;
        while k < n
            invariant
                k <= n,
                n == a.len(),
                a == args@,
                (first_arg_error(a, 0) is Some) == (found || first_arg_error(a, k as int) is Some),
                targets == count_kind(a, k as int, ArgKind::Target),
                targets <= k,
            decreases n - k,
        {
            match &args[k] {
                ArgSpec::Receiver => {
                    found = true;
                },
                ArgSpec::Typed { kind, name } => {
                    if *kind == ArgKind::Target {
                        targets = targets + 1;
                        if name.is_none() {
                            found = true;
                        }
                    }
                },
            }
            k = k + 1;
        }
        match ret {
            ReturnShape::Other => found || targets > 0,
            _ => true,
        }
    }
}

} // verus!
