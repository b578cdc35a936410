//! What a build script needs to turn compiled stencils into a library: the
//! metadata each stencil family carries, the names of stencil symbols and
//! relocations, and the assembly of families.
use vstd::prelude::*;

use vstd::string::StrSliceExecFns;

use smallvec::SmallVec;

use crate::relocation::{
    PatchKind, Relocation, RelocationEncoding, RelocationFields, addend_field, fields, kind_field,
    patch_id_field,
};
use crate::stencils::{Location, UntypedStencil, digit_of, io_to_index, locations_index, power, stencils_len};

verus! {

/// Why preparing stencils failed.
#[derive(Debug, Clone, Copy, PartialEq, Eq, Structural)]
pub enum BuildError {
    /// The name of the environment variable is empty or blank.
    EmptyIncludeEnv,
    /// A number does not fit the type it is stored as.
    IntConversion,
    /// A value does not fit its relocation field.
    FieldOverflow,
    /// The relocation is written in an encoding stencils do not support.
    UnsupportedEncoding,
    /// The relocation is neither absolute nor relative.
    UnsupportedKind,
    /// A stencil's arguments, returns, holes or jumps differ from its family's.
    FamilyMismatch,
    /// A hole or target id is `u16::MAX`, so the count of ids overflows.
    PatchIdOverflow,
    /// A stencil's placement of arguments and returns lies outside its family.
    OutsideFamily,
}

/// The message for each build error.
pub open spec fn build_error_text(e: BuildError) -> Seq<char> {
    match e {
        BuildError::EmptyIncludeEnv => "include env var name must not be empty"@,
        BuildError::IntConversion => "out of range integral type conversion attempted"@,
        BuildError::FieldOverflow => "Value is too big to fit within the field bits."@,
        BuildError::UnsupportedEncoding => "unsupported relocation encoding"@,
        BuildError::UnsupportedKind => "unsupported relocation kind"@,
        BuildError::FamilyMismatch => "Stencil family mismatch"@,
        BuildError::PatchIdOverflow => "attempt to add with overflow"@,
        BuildError::OutsideFamily => "index out of bounds"@,
    }
}

impl BuildError {
    /// The message for each error.
    pub fn message(&self) -> (r: &'static str)
        ensures
            r@ == build_error_text(*self),
    {
        match self {
            BuildError::EmptyIncludeEnv => "include env var name must not be empty",
            BuildError::IntConversion => "out of range integral type conversion attempted",
            BuildError::FieldOverflow => "Value is too big to fit within the field bits.",
            BuildError::UnsupportedEncoding => "unsupported relocation encoding",
            BuildError::UnsupportedKind => "unsupported relocation kind",
            BuildError::FamilyMismatch => "Stencil family mismatch",
            BuildError::PatchIdOverflow => "attempt to add with overflow",
            BuildError::OutsideFamily => "index out of bounds",
        }
    }
}

/// The shape of a stencil family, as the stencil macro records it.
#[derive(Debug, Clone, Copy, PartialEq, Eq, Structural)]
pub struct Metadata {
    pub inputs: u16,
    pub outputs: u16,
    pub max_regs: u16,
    pub holes: u16,
    pub jumps: u16,
}

/// The little-endian `u16` in `data[at..at + 2]`.
pub open spec fn le16(data: Seq<u8>, at: int) -> u16 {
    (data[at] + 256 * data[at + 1]) as u16
}

/// The metadata held in ten bytes: five little-endian `u16`s.
pub open spec fn unpacked(data: Seq<u8>) -> Option<Metadata> {
    if data.len() != 10 {
        None
    } else {
        Some(
            Metadata {
                inputs: le16(data, 0),
                outputs: le16(data, 2),
                max_regs: le16(data, 4),
                holes: le16(data, 6),
                jumps: le16(data, 8),
            },
        )
    }
}

/// The two little-endian bytes of `v`.
pub open spec fn le_bytes(v: u16) -> Seq<u8> {
    seq![(v % 256) as u8, (v / 256) as u8]
}

/// The ten bytes that hold the metadata.
pub open spec fn packed(m: Metadata) -> Seq<u8> {
    le_bytes(m.inputs) + le_bytes(m.outputs) + le_bytes(m.max_regs) + le_bytes(m.holes) + le_bytes(
        m.jumps,
    )
}

/// Reads a little-endian `u16`.
fn read_le16(data: &[u8], at: usize) -> (r: u16)
    requires
        at + 2 <= data@.len(),
    ensures
        r == le16(data@, at as int),
{
    data[at] as u16 + 256 * data[at + 1] as u16
}

/// Writes a little-endian `u16`.
fn write_le16(bytes: &mut [u8; 10], at: usize, v: u16)
    requires
        at + 2 <= 10,
    ensures
        final(bytes)@ == old(bytes)@.update(at as int, (v % 256) as u8).update(at + 1, (v / 256) as u8),
{
    bytes[at] = (v % 256) as u8;
    bytes[at + 1] = (v / 256) as u8;
}

impl Metadata {
    /// Reads the metadata from the bytes the stencil macro stored; `None`
    /// unless there are exactly ten.
    pub fn unpack(data: &[u8]) -> (r: Option<Self>)
        ensures
            r == unpacked(data@),
    {
        if data.len() != 10 {
            return None;
        }
        Some(
            Metadata {
                inputs: read_le16(data, 0),
                outputs: read_le16(data, 2),
                max_regs: read_le16(data, 4),
                holes: read_le16(data, 6),
                jumps: read_le16(data, 8),
            },
        )
    }

    /// The ten bytes the stencil macro stores for the metadata.
    pub fn pack(&self) -> (r: [u8; 10])
        ensures
            r@ == packed(*self),
    {
        let mut bytes = [0u8; 10];
        write_le16(&mut bytes, 0, self.inputs);
        write_le16(&mut bytes, 2, self.outputs);
        write_le16(&mut bytes, 4, self.max_regs);
        write_le16(&mut bytes, 6, self.holes);
        write_le16(&mut bytes, 8, self.jumps);
        assert(bytes@ =~= packed(*self));
        bytes
    }
}

/// Reading back what was packed gives the metadata again.
pub proof fn lemma_unpack_pack(m: Metadata)
    ensures
        unpacked(packed(m)) == Some(m),
{
    let d = packed(m);
    assert(d.len() == 10);
    assert forall|v: u16| #[trigger] le16(le_bytes(v), 0) == v by {
        assert(v % 256 + 256 * (v / 256) == v);
    }
    assert(le16(d, 0) == le16(le_bytes(m.inputs), 0));
    assert(le16(d, 2) == le16(le_bytes(m.outputs), 0));
    assert(le16(d, 4) == le16(le_bytes(m.max_regs), 0));
    assert(le16(d, 6) == le16(le_bytes(m.holes), 0));
    assert(le16(d, 8) == le16(le_bytes(m.jumps), 0));
}

/// The characters `char::is_whitespace` accepts: those with the Unicode
/// `White_Space` property.
pub open spec fn is_white_space(c: char) -> bool {
    let u = c as u32;
    ||| 0x09 <= u <= 0x0d
    ||| u == 0x20
    ||| u == 0x85
    ||| u == 0xa0
    ||| u == 0x1680
    ||| 0x2000 <= u <= 0x200a
    ||| u == 0x2028
    ||| u == 0x2029
    ||| u == 0x202f
    ||| u == 0x205f
    ||| u == 0x3000
}

fn white_space(c: char) -> (r: bool)
    ensures
        r == is_white_space(c),
{
    let u = c as u32;
    (0x09 <= u && u <= 0x0d) || u == 0x20 || u == 0x85 || u == 0xa0 || u == 0x1680 || (0x2000 <= u
        && u <= 0x200a) || u == 0x2028 || u == 0x2029 || u == 0x202f || u == 0x205f || u == 0x3000
}

/// Whether nothing but white space is left once the string is trimmed.
fn is_blank(s: &str) -> (r: bool)
    ensures
        r == forall|i: int| 0 <= i < s@.len() ==> is_white_space(#[trigger] s@[i]),
{
    let n = s.unicode_len();
    let mut i: usize = 0;
    while i < n
        invariant
            n == s@.len(),
            i <= n,
            forall|j: int| 0 <= j < i ==> is_white_space(#[trigger] s@[j]),
        decreases n - i,
    {
        if !white_space(s.get_char(i)) {
            return false;
        }
        i = i + 1;
    }
    true
}

/// Where the stencils crate lives and which environment variable tells the
/// including crate where the generated bindings are.
#[derive(Debug, Clone)]
pub struct StencilSetup<'a> {
    rel_stencils_dir: &'a str,
    include_env: &'a str,
}

impl<'a> StencilSetup<'a> {
    pub closed spec fn stencils_dir_spec(&self) -> Seq<char> {
        self.rel_stencils_dir@
    }

    pub closed spec fn include_env_spec(&self) -> Seq<char> {
        self.include_env@
    }

    /// A setup for the stencils crate at `rel_stencils_dir`, exporting
    /// `PATCHOULY_STENCILS_RS`.
    pub fn new(rel_stencils_dir: &'a str) -> (r: Self)
        ensures
            r.stencils_dir_spec() == rel_stencils_dir@,
            r.include_env_spec() == STENCILS_RS_ENV@,
    {
        Self { rel_stencils_dir, include_env: STENCILS_RS_ENV }
    }

    /// Exports the bindings under another variable; a name that is empty
    /// once trimmed is refused.
    pub fn with_include_env(self, include_env: &'a str) -> (r: Result<Self, BuildError>)
        ensures
            (forall|i: int| 0 <= i < include_env@.len() ==> is_white_space(#[trigger] include_env@[i]))
                ==> r == Err::<Self, BuildError>(BuildError::EmptyIncludeEnv),
            !(forall|i: int| 0 <= i < include_env@.len() ==> is_white_space(#[trigger] include_env@[i]))
                ==> (r matches Ok(s) && s.stencils_dir_spec() == self.stencils_dir_spec()
                && s.include_env_spec() == include_env@),
    {
        if is_blank(include_env) {
            return Err(BuildError::EmptyIncludeEnv);
        }
        Ok(Self { rel_stencils_dir: self.rel_stencils_dir, include_env })
    }

    /// The directory of the stencils crate, relative to the workspace.
    pub fn rel_stencils_dir(&self) -> (r: &'a str)
        ensures
            r@ == self.stencils_dir_spec(),
    {
        self.rel_stencils_dir
    }

    /// The environment variable the bindings' path is exported under.
    pub fn include_env(&self) -> (r: &'a str)
        ensures
            r@ == self.include_env_spec(),
    {
        self.include_env
    }
}

/// Environment variable consumed by the crate that includes the bindings.
pub const STENCILS_RS_ENV: &'static str = "PATCHOULY_STENCILS_RS";

} // verus!

verus! {

/// An ASCII decimal digit.
pub open spec fn is_digit(c: char) -> bool {
    48 <= c as u32 <= 57
}

/// The value of a decimal numeral.
pub open spec fn digits_value(s: Seq<char>) -> int
    decreases s.len(),
{
    if s.len() == 0 {
        0
    } else {
        10 * digits_value(s.drop_last()) + (s.last() as u32 - 48)
    }
}

pub open spec fn all_digits(s: Seq<char>) -> bool {
    forall|i: int| 0 <= i < s.len() ==> is_digit(#[trigger] s[i])
}

/// What `str::parse::<u16>` gives: an optional `+`, then one or more
/// digits whose value fits.
pub open spec fn parsed_u16(s: Seq<char>) -> Option<u16> {
    let d = if s.len() > 0 && s[0] == '+' {
        s.drop_first()
    } else {
        s
    };
    if d.len() > 0 && all_digits(d) && digits_value(d) <= u16::MAX {
        Some(digits_value(d) as u16)
    } else {
        None
    }
}

/// `x`, or `0x10000` when it is larger.
pub open spec fn cap(x: int) -> int {
    if x > 0x10000 {
        0x10000
    } else {
        x
    }
}

pub(crate) proof fn lemma_digits_nonneg(s: Seq<char>)
    requires
        all_digits(s),
    ensures
        digits_value(s) >= 0,
    decreases s.len(),
{
    if s.len() > 0 {
        assert(all_digits(s.drop_last())) by {
            assert forall|i: int| 0 <= i < s.drop_last().len() implies is_digit(#[trigger] s.drop_last()[i]) by {
                assert(s.drop_last()[i] == s[i]);
            }
        }
        lemma_digits_nonneg(s.drop_last());
        assert(is_digit(s[s.len() - 1]));
    }
}

/// Parses `s[from..to]` as `str::parse::<u16>` does.
fn parse_u16_in(s: &str, from: usize, to: usize) -> (r: Option<u16>)
    requires
        from <= to <= s@.len(),
    ensures
        r == parsed_u16(s@.subrange(from as int, to as int)),
{
    let ghost whole = s@.subrange(from as int, to as int);
    let mut i = from;
    if i < to && s.get_char(i) == '+' {
        i = i + 1;
    }
    let ghost d = s@.subrange(i as int, to as int);
    proof {
        if from < to && s@[from as int] == '+' {
            assert(d =~= whole.drop_first());
        } else {
            assert(d =~= whole);
        }
        assert(d == (if whole.len() > 0 && whole[0] == '+' { whole.drop_first() } else { whole }));
    }
    if i == to {
        proof {
            if from < to && s@[from as int] == '+' {
                assert(whole.len() > 0 && whole[0] == '+');
                assert(whole.drop_first().len() == 0);
            } else {
                assert(whole.len() == 0);
            }
        }
        return None;
    }
    let start = i;
    let mut acc: u32 = 0;
    while i < to
        invariant
            start <= i <= to,
            to <= s@.len(),
            d == s@.subrange(start as int, to as int),
            whole == s@.subrange(from as int, to as int),
            d == (if whole.len() > 0 && whole[0] == '+' { whole.drop_first() } else { whole }),
            all_digits(s@.subrange(start as int, i as int)),
            acc == cap(digits_value(s@.subrange(start as int, i as int))),
        decreases to - i,
    {
        let c = s.get_char(i);
        let u = c as u32;
        if u < 48 || u > 57 {
            proof {
                assert(d[i - start] == c);
                assert(!is_digit(d[i - start]));
                assert(!all_digits(d));
            }
            return None;
        }
        let ghost prev = s@.subrange(start as int, i as int);
        let ghost next = s@.subrange(start as int, i as int + 1);
        proof {
            assert(next.drop_last() =~= prev);
            assert(next.last() == c);
            lemma_digits_nonneg(prev);
            assert(all_digits(next)) by {
                assert forall|k: int| 0 <= k < next.len() implies is_digit(#[trigger] next[k]) by {
                    if k < prev.len() {
                        assert(next[k] == prev[k]);
                    }
                }
            }
        }
        acc = acc * 10 + (u - 48);
        if acc > 0x10000 {
            acc = 0x10000;
        }
        i = i + 1;
    }
    proof {
        assert(s@.subrange(start as int, to as int) =~= d);
        lemma_digits_nonneg(d);
    }
    if acc > 0xffff {
        None
    } else {
        Some(acc as u16)
    }
}

/// The first position from `from` on that holds `c`, or the length.
pub open spec fn next_char(s: Seq<char>, from: int, c: char) -> int
    decreases s.len() - from,
{
    if from >= s.len() {
        s.len() as int
    } else if s[from] == c {
        from
    } else {
        next_char(s, from + 1, c)
    }
}

pub proof fn lemma_next_char(s: Seq<char>, from: int, c: char)
    requires
        0 <= from <= s.len(),
    ensures
        from <= next_char(s, from, c) <= s.len(),
        next_char(s, from, c) < s.len() ==> s[next_char(s, from, c)] == c,
        forall|k: int| from <= k < next_char(s, from, c) ==> s[k] != c,
    decreases s.len() - from,
{
    if from < s.len() && s[from] != c {
        lemma_next_char(s, from + 1, c);
    }
}

/// What an argument of a stencil name stands for: `0` the stack, `r + 1`
/// register `r`.
pub open spec fn arg_location(p: Seq<char>) -> Option<Location> {
    if p == seq!['0'] {
        Some(Location::Stack(0))
    } else {
        match parsed_u16(p) {
            Some(v) => Some(Location::Register((v - 1) as u16)),
            None => None,
        }
    }
}

/// The locations of the `_`-separated arguments from `start` on, the first
/// of which starts at `start`; `None` if one does not parse.
pub open spec fn args_from(s: Seq<char>, start: int) -> Option<Seq<Location>>
    decreases s.len() - start,
{
    if start < 0 || start > s.len() {
        None
    } else {
        let end = next_char(s, start, '_');
        match arg_location(s.subrange(start, end)) {
            None => None,
            Some(x) => if end >= s.len() || end < start {
                Some(seq![x])
            } else {
                match args_from(s, end + 1) {
                    None => None,
                    Some(rest) => Some(seq![x] + rest),
                }
            },
        }
    }
}

/// No argument from `start` on is reached that reads as register `-1`
/// (a numeral of value `0` other than `0` itself).
pub open spec fn args_ok_from(s: Seq<char>, start: int) -> bool
    decreases s.len() - start,
{
    if start < 0 || start > s.len() {
        true
    } else {
        let end = next_char(s, start, '_');
        let p = s.subrange(start, end);
        &&& (p != seq!['0'] ==> parsed_u16(p) != Some(0u16))
        &&& (arg_location(p) is Some && start <= end < s.len() ==> args_ok_from(s, end + 1))
    }
}

/// The locations an argument list of a stencil name stands for; the empty
/// list stands for none.
pub open spec fn parsed_args(s: Seq<char>) -> Option<Seq<Location>> {
    if s.len() == 0 {
        Some(Seq::empty())
    } else {
        args_from(s, 0)
    }
}

pub open spec fn args_ok(s: Seq<char>) -> bool {
    s.len() == 0 || args_ok_from(s, 0)
}

/// `l` followed by what `rest` holds, if anything.
pub open spec fn prefixed(l: Seq<Location>, rest: Option<Seq<Location>>) -> Option<Seq<Location>> {
    match rest {
        None => None,
        Some(r) => Some(l + r),
    }
}

/// The locations of a stencil's arguments or returns.
#[verifier::external_body]
pub struct LocationList {
    items: SmallVec<[Location; 4]>,
}

/// The longest list of locations, and the longest name, this machine can
/// hold: below that, a list's growth never overflows its capacity.
pub open spec fn list_limit() -> int {
    isize::MAX / 16
}

/// The locations of a list, in order.
pub uninterp spec fn location_list_items(l: LocationList) -> Seq<Location>;

/// `SmallVec::new`: an empty list.
#[verifier::external_body]
fn location_list_new() -> (r: LocationList)
    ensures
        location_list_items(r) == Seq::<Location>::empty(),
{
    LocationList { items: SmallVec::new() }
}

/// `SmallVec::push`: the location goes last. Growing panics ("capacity
/// overflow") only when the next power of two above the length, times the
/// size of a location (at most 8 bytes), no longer fits `isize::MAX` bytes,
/// which `list_limit` keeps out.
#[verifier::external_body]
fn location_list_push(l: &mut LocationList, x: Location)
    requires
        location_list_items(*old(l)).len() < list_limit(),
    ensures
        location_list_items(*final(l)) == location_list_items(*old(l)).push(x),
{
    l.items.push(x)
}

/// `SmallVec::as_slice`: the locations, in order.
#[verifier::external_body]
fn location_list_slice(l: &LocationList) -> (r: &[Location])
    ensures
        r@ == location_list_items(*l),
{
    l.items.as_slice()
}

impl LocationList {
    /// The locations, in order.
    pub fn as_slice(&self) -> (r: &[Location])
        ensures
            r@ == location_list_items(*self),
    {
        location_list_slice(self)
    }
}

/// Parses a `_`-separated argument list of a stencil name (see
/// `parsed_args`).
pub fn parse_args(args: &str) -> (r: Option<LocationList>)
    requires
        args_ok(args@),
        args@.len() < list_limit(),
    ensures
        match parsed_args(args@) {
            Some(l) => r matches Some(x) && location_list_items(x) == l,
            None => r is None,
        },
{
    let ghost s = args@;
    let n = args.unicode_len();
    let mut out = location_list_new();
    if n == 0 {
        return Some(out);
    }
    let mut start: usize = 0;
    loop
        invariant
            n == s.len(),
            n > 0,
            n < list_limit(),
            s == args@,
            start <= n,
            args_ok_from(s, start as int),
            args_from(s, 0) == prefixed(location_list_items(out), args_from(s, start as int)),
            location_list_items(out).len() <= start,
        decreases n - start,
    {
        let mut end = start;
        while end < n
            invariant
                start <= end <= n,
                n == s.len(),
                s == args@,
                forall|k: int| start <= k < end ==> s[k] != '_',
            ensures
                start <= end <= n,
                forall|k: int| start <= k < end ==> s[k] != '_',
                end < n ==> s[end as int] == '_',
            decreases n - end,
        {
            if args.get_char(end) == '_' {
                break;
            }
            end = end + 1;
        }
        proof {
            lemma_next_char(s, start as int, '_');
            let e = next_char(s, start as int, '_');
            if e < end {
                assert(s[e] == '_');
            }
            if end < n {
                assert(s[end as int] == '_');
            }
            assert(e == end);
        }
        let ghost part = s.subrange(start as int, end as int);
        let loc = if end == start + 1 && args.get_char(start) == '0' {
            proof {
                assert(part =~= seq!['0']);
            }
            Location::Stack(0)
        } else {
            proof {
                if part == seq!['0'] {
                    assert(part.len() == 1);
                    assert(part[0] == s[start as int]);
                }
            }
            match parse_u16_in(args, start, end) {
                Some(v) => Location::Register(v - 1),
                None => {
                    return None;
                },
            }
        };
        location_list_push(&mut out, loc);
        if end == n {
            return Some(out);
        }
        start = end + 1;
    }
}

/// What a stencil symbol's arguments and returns are placed in.
pub struct StencilArgs {
    pub inputs: LocationList,
    pub outputs: LocationList,
}

impl Default for StencilArgs {
    fn default() -> (r: Self)
        ensures
            location_list_items(r.inputs) == Seq::<Location>::empty(),
            location_list_items(r.outputs) == Seq::<Location>::empty(),
    {
        StencilArgs { inputs: location_list_new(), outputs: location_list_new() }
    }
}

impl StencilArgs {
    /// Parses the argument and return lists of a stencil name; `None` when
    /// either does not parse.
    pub fn parse(inputs: &str, outputs: &str) -> (r: Option<Self>)
        requires
            args_ok(inputs@),
            parsed_args(inputs@) is Some ==> args_ok(outputs@),
            inputs@.len() < list_limit(),
            outputs@.len() < list_limit(),
        ensures
            match (parsed_args(inputs@), parsed_args(outputs@)) {
                (Some(i), Some(o)) => r matches Some(a) && location_list_items(a.inputs) == i
                    && location_list_items(a.outputs) == o,
                _ => r is None,
            },
    {
        let inputs = match parse_args(inputs) {
            Some(l) => l,
            None => {
                return None;
            },
        };
        let outputs = match parse_args(outputs) {
            Some(l) => l,
            None => {
                return None;
            },
        };
        Some(StencilArgs { inputs, outputs })
    }
}

} // verus!

verus! {

/// The first position from `from` on where `__` starts, or the length.
pub open spec fn next_sep(s: Seq<char>, from: int) -> int
    decreases s.len() - from,
{
    if from + 1 >= s.len() {
        s.len() as int
    } else if s[from] == '_' && s[from + 1] == '_' {
        from
    } else {
        next_sep(s, from + 1)
    }
}

pub(crate) proof fn lemma_next_sep(s: Seq<char>, from: int)
    requires
        0 <= from <= s.len(),
    ensures
        from <= next_sep(s, from) <= s.len(),
        next_sep(s, from) < s.len() ==> next_sep(s, from) + 1 < s.len() && s[next_sep(s, from)] == '_'
            && s[next_sep(s, from) + 1] == '_',
        forall|k: int| from <= k < next_sep(s, from) && k + 1 < s.len() ==> !(#[trigger] s[k] == '_' && s[k + 1] == '_'),
    decreases s.len() - from,
{
    if from + 1 < s.len() && !(s[from] == '_' && s[from + 1] == '_') {
        lemma_next_sep(s, from + 1);
    }
}

/// The name of the empty stencil's symbol.
pub open spec fn empty_symbol() -> Seq<char> {
    seq!['_', '_', 'e', 'm', 'p', 't', 'y', '_', '_', '_', '_']
}

/// The name of the empty stencil.
pub open spec fn empty_name() -> Seq<char> {
    seq!['_', '_', 'e', 'm', 'p', 't', 'y']
}

/// Where a stencil symbol splits into name, arguments and returns: the
/// positions of the two `__` separators, as `str::split("__")` finds them,
/// when there are exactly two.
pub open spec fn name_split(s: Seq<char>) -> Option<(int, int)> {
    let j1 = next_sep(s, 0);
    if j1 >= s.len() {
        None
    } else {
        let j2 = next_sep(s, j1 + 2);
        if j2 >= s.len() || next_sep(s, j2 + 2) < s.len() {
            None
        } else {
            Some((j1, j2))
        }
    }
}

/// A stencil symbol `name__args__returns` (with no further `__`), with its
/// arguments and returns parsed; the empty stencil's symbol has none.
pub open spec fn parsed_name(s: Seq<char>) -> Option<(Seq<char>, Seq<Location>, Seq<Location>)> {
    if s == empty_symbol() {
        Some((empty_name(), Seq::empty(), Seq::empty()))
    } else {
        match name_split(s) {
            None => None,
            Some((j1, j2)) => match (
                parsed_args(s.subrange(j1 + 2, j2)),
                parsed_args(s.subrange(j2 + 2, s.len() as int)),
            ) {
                (Some(i), Some(o)) => Some((s.take(j1), i, o)),
                _ => None,
            },
        }
    }
}

/// Parsing the symbol does not reach an argument that reads as register
/// `-1`.
pub open spec fn name_ok(s: Seq<char>) -> bool {
    s != empty_symbol() ==> match name_split(s) {
        None => true,
        Some((j1, j2)) => args_ok(s.subrange(j1 + 2, j2)) && (parsed_args(s.subrange(j1 + 2, j2)) is Some
            ==> args_ok(s.subrange(j2 + 2, s.len() as int))),
    }
}

/// Whether `s` is exactly `lit`.
pub(crate) fn chars_equal(s: &str, lit: &[char]) -> (r: bool)
    ensures
        r == (s@ == lit@),
{
    let n = s.unicode_len();
    if n != lit.len() {
        return false;
    }
    let mut i: usize = 0;
    while i < n
        invariant
            n == s@.len(),
            n == lit@.len(),
            i <= n,
            forall|k: int| 0 <= k < i ==> s@[k] == lit@[k],
        decreases n - i,
    {
        if s.get_char(i) != lit[i] {
            return false;
        }
        i = i + 1;
    }
    assert(s@ =~= lit@);
    true
}

/// The first `__` in `s` from `from` on, or the length.
pub(crate) fn find_sep(s: &str, from: usize) -> (r: usize)
    requires
        from <= s@.len(),
    ensures
        r == next_sep(s@, from as int),
{
    let n = s.unicode_len();
    let mut i = from;
    while n > 0 && i < n - 1
        invariant
            from <= i <= n,
            n == s@.len(),
            next_sep(s@, from as int) == next_sep(s@, i as int),
        decreases n - i,
    {
        if s.get_char(i) == '_' && s.get_char(i + 1) == '_' {
            return i;
        }
        i = i + 1;
    }
    n
}

/// Splits a stencil symbol into its name, arguments and returns (see
/// `parsed_name`).
pub fn parse_name(sym_name: &str) -> (r: Option<(&str, StencilArgs)>)
    requires
        name_ok(sym_name@),
        sym_name@.len() < list_limit(),
    ensures
        match parsed_name(sym_name@) {
            Some((n, i, o)) => r matches Some((name, args)) && name@ == n && location_list_items(args.inputs)
                == i && location_list_items(args.outputs) == o,
            None => r is None,
        },
{
    let s = sym_name;
    if chars_equal(s, &['_', '_', 'e', 'm', 'p', 't', 'y', '_', '_', '_', '_']) {
        let name = "__empty";
        proof {
            reveal_strlit("__empty");
            assert(name@ =~= empty_name());
        }
        return Some((name, StencilArgs::default()));
    }
    proof {
        assert(s@ != empty_symbol());
    }
    let n = s.unicode_len();
    proof {
        lemma_next_sep(s@, 0);
    }
    let j1 = find_sep(s, 0);
    if j1 >= n {
        return None;
    }
    proof {
        lemma_next_sep(s@, j1 + 2);
    }
    let j2 = find_sep(s, j1 + 2);
    if j2 >= n {
        return None;
    }
    proof {
        lemma_next_sep(s@, j2 + 2);
    }
    if find_sep(s, j2 + 2) < n {
        return None;
    }
    let name = s.substring_char(0, j1);
    let inputs = s.substring_char(j1 + 2, j2);
    let outputs = s.substring_char(j2 + 2, n);
    proof {
        assert(s@.take(j1 as int) =~= s@.subrange(0, j1 as int));
    }
    match StencilArgs::parse(inputs, outputs) {
        Some(args) => Some((name, args)),
        None => None,
    }
}

} // verus!

verus! {

/// What a relocation of a stencil patches in.
#[derive(Debug, Clone, Copy, PartialEq, Eq, Structural)]
pub enum PatchType {
    Hole(u16),
    Stack(u16),
    Target(u16),
    /// The jump to what follows the stencil.
    Next,
}

/// The relocation target that jumps to what follows a stencil.
pub open spec fn next_symbol() -> Seq<char> {
    seq!['c', 'o', 'p', 'y', '_', 'a', 'n', 'd', '_', 'p', 'a', 't', 'c', 'h', '_', 'n', 'e', 'x', 't']
}

pub open spec fn stack_word() -> Seq<char> {
    seq!['s', 't', 'a', 'c', 'k']
}

pub open spec fn target_word() -> Seq<char> {
    seq!['t', 'a', 'r', 'g', 'e', 't']
}

pub open spec fn hole_word() -> Seq<char> {
    seq!['h', 'o', 'l', 'e']
}

pub open spec fn starts_with(s: Seq<char>, p: Seq<char>) -> bool {
    p.len() <= s.len() && s.take(p.len() as int) == p
}

/// The first position from `from` on that is not a digit, or the length.
pub open spec fn digits_end(s: Seq<char>, from: int) -> int
    decreases s.len() - from,
{
    if from >= s.len() {
        s.len() as int
    } else if !is_digit(s[from]) {
        from
    } else {
        digits_end(s, from + 1)
    }
}

/// The number the leading digits of `s` spell, if there are some and it
/// fits.
pub open spec fn leading_number(s: Seq<char>) -> Option<u16> {
    parsed_u16(s.take(digits_end(s, 0)))
}

/// The patch a relocation against the symbol `reloc` of stencil `name`
/// stands for: `name__stackN`, `name__targetN`, `name__holeN` (trailing
/// characters after the number ignored), or the jump to what follows.
pub open spec fn patch_type_of(name: Seq<char>, reloc: Seq<char>) -> Option<PatchType> {
    if reloc == next_symbol() {
        Some(PatchType::Next)
    } else {
        let rest = reloc.skip(name.len() as int + 2);
        if starts_with(rest, stack_word()) {
            match leading_number(rest.skip(5)) {
                Some(i) => Some(PatchType::Stack(i)),
                None => None,
            }
        } else if starts_with(rest, target_word()) {
            match leading_number(rest.skip(6)) {
                Some(i) => Some(PatchType::Target(i)),
                None => None,
            }
        } else if starts_with(rest, hole_word()) {
            match leading_number(rest.skip(4)) {
                Some(i) => Some(PatchType::Hole(i)),
                None => None,
            }
        } else {
            None
        }
    }
}

/// Whether `s[at..]` starts with `lit`.
pub(crate) fn has_prefix_at(s: &str, at: usize, lit: &[char]) -> (r: bool)
    requires
        at <= s@.len(),
    ensures
        r == starts_with(s@.skip(at as int), lit@),
{
    let n = s.unicode_len();
    if lit.len() > n - at {
        return false;
    }
    let mut i: usize = 0;
    while i < lit.len()
        invariant
            n == s@.len(),
            at + lit@.len() <= n,
            i <= lit@.len(),
            forall|k: int| 0 <= k < i ==> s@[at + k] == lit@[k],
        decreases lit@.len() - i,
    {
        if s.get_char(at + i) != lit[i] {
            proof {
                assert(s@.skip(at as int).take(lit@.len() as int)[i as int] == s@[at + i]);
            }
            return false;
        }
        i = i + 1;
    }
    assert(s@.skip(at as int).take(lit@.len() as int) =~= lit@);
    true
}

/// Parses the leading digits of `s[from..]` (see `leading_number`).
fn parse_leading(s: &str, from: usize) -> (r: Option<u16>)
    requires
        from <= s@.len(),
    ensures
        r == leading_number(s@.skip(from as int)),
{
    let ghost t = s@.skip(from as int);
    let n = s.unicode_len();
    let mut end = from;
    while end < n
        invariant
            from <= end <= n,
            n == s@.len(),
            t == s@.skip(from as int),
            digits_end(t, 0) == digits_end(t, end - from),
        ensures
            from <= end <= n,
            digits_end(t, 0) == end - from,
        decreases n - end,
    {
        let u = s.get_char(end) as u32;
        if u < 48 || u > 57 {
            proof {
                assert(t[end - from] == s@[end as int]);
                assert(digits_end(t, end - from) == end - from);
            }
            break;
        }
        proof {
            assert(t[end - from] == s@[end as int]);
        }
        end = end + 1;
    }
    proof {
        assert(t.take(end - from) =~= s@.subrange(from as int, end as int));
    }
    parse_u16_in(s, from, end)
}

/// The patch a relocation against symbol `reloc` in stencil `name` stands
/// for (see `patch_type_of`). Other than the jump to what follows, the
/// symbol must be the stencil's name followed by `__`.
pub fn get_patch_type(name: &str, reloc: &str) -> (r: Option<PatchType>)
    requires
        reloc@ != next_symbol() ==> starts_with(reloc@, name@) && starts_with(
            reloc@.skip(name@.len() as int),
            seq!['_', '_'],
        ),
    ensures
        r == patch_type_of(name@, reloc@),
{
    if chars_equal(
        reloc,
        &['c', 'o', 'p', 'y', '_', 'a', 'n', 'd', '_', 'p', 'a', 't', 'c', 'h', '_', 'n', 'e', 'x', 't'],
    ) {
        return Some(PatchType::Next);
    }
    let n = reloc.unicode_len();
    let at = name.unicode_len() + 2;
    proof {
        assert(reloc@.skip(at as int) =~= reloc@.skip(name@.len() as int + 2));
    }
    if has_prefix_at(reloc, at, &['s', 't', 'a', 'c', 'k']) {
        proof {
            assert(reloc@.skip(at as int).skip(5) =~= reloc@.skip(at + 5));
        }
        match parse_leading(reloc, at + 5) {
            Some(i) => Some(PatchType::Stack(i)),
            None => None,
        }
    } else if has_prefix_at(reloc, at, &['t', 'a', 'r', 'g', 'e', 't']) {
        proof {
            assert(reloc@.skip(at as int).skip(6) =~= reloc@.skip(at + 6));
        }
        match parse_leading(reloc, at + 6) {
            Some(i) => Some(PatchType::Target(i)),
            None => None,
        }
    } else if has_prefix_at(reloc, at, &['h', 'o', 'l', 'e']) {
        proof {
            assert(reloc@.skip(at as int).skip(4) =~= reloc@.skip(at + 4));
        }
        match parse_leading(reloc, at + 4) {
            Some(i) => Some(PatchType::Hole(i)),
            None => None,
        }
    } else {
        None
    }
}

} // verus!

verus! {

/// How the object file says a relocation is written, as far as stencils
/// care.
#[derive(Debug, Clone, Copy, PartialEq, Eq, Structural)]
pub enum ObjectEncoding {
    Generic,
    X86Signed,
    Other,
}

/// What the object file says a relocation is computed against.
#[derive(Debug, Clone, Copy, PartialEq, Eq, Structural)]
pub enum ObjectKind {
    Absolute,
    Relative,
    PltRelative,
    Other,
}

/// The relocation `new_relocation` makes, or its error.
pub open spec fn relocation_of(
    offset: u64,
    encoding: ObjectEncoding,
    kind: ObjectKind,
    size: u8,
    addend: i64,
    patch: PatchType,
) -> Result<RelocationFields, BuildError> {
    if offset > u16::MAX {
        Err(BuildError::IntConversion)
    } else if encoding == ObjectEncoding::Other {
        Err(BuildError::UnsupportedEncoding)
    } else if kind == ObjectKind::Other {
        Err(BuildError::UnsupportedKind)
    } else if addend < i16::MIN || addend > i16::MAX {
        Err(BuildError::IntConversion)
    } else if addend < -2048 || addend > 2047 {
        Err(BuildError::FieldOverflow)
    } else {
        let (k, id) = match patch {
            PatchType::Hole(i) => (PatchKind::Hole, i),
            PatchType::Stack(i) => (PatchKind::Stack, i),
            PatchType::Target(i) => (PatchKind::Target, i),
            PatchType::Next => (PatchKind::Target, 0u16),
        };
        Ok(
            RelocationFields {
                offset: offset as u16,
                encoding: if encoding == ObjectEncoding::Generic {
                    RelocationEncoding::Generic.spec_into_bits()
                } else {
                    RelocationEncoding::X86Signed.spec_into_bits()
                },
                relative: kind != ObjectKind::Absolute,
                size,
                addend: ((addend as i16 as u16) & 0xfff) as u16,
                kind: k.spec_into_bits(),
                patch_id: id,
            },
        )
    }
}

/// Turns a relocation of a stencil's object code into a stencil
/// relocation: its offset must fit 16 bits, its encoding be plain or
/// sign-extending, it must be absolute or relative, and its addend must fit
/// 12 signed bits. A jump to what follows becomes target 0.
pub fn new_relocation(
    offset: u64,
    encoding: ObjectEncoding,
    kind: ObjectKind,
    size: u8,
    addend: i64,
    patch: PatchType,
) -> (r: Result<Relocation, BuildError>)
    ensures
        match relocation_of(offset, encoding, kind, size, addend, patch) {
            Ok(f) => r matches Ok(x) && fields(x@) == f,
            Err(e) => r == Err::<Relocation, BuildError>(e),
        },
{
    let mut reloc = Relocation::new();
    if offset > 0xffff {
        return Err(BuildError::IntConversion);
    }
    reloc.set_offset(offset as u16);
    let enc = match encoding {
        ObjectEncoding::Generic => RelocationEncoding::Generic,
        ObjectEncoding::X86Signed => RelocationEncoding::X86Signed,
        ObjectEncoding::Other => {
            return Err(BuildError::UnsupportedEncoding);
        },
    };
    reloc.set_encoding(enc);
    let relative = match kind {
        ObjectKind::Absolute => false,
        ObjectKind::Relative | ObjectKind::PltRelative => true,
        ObjectKind::Other => {
            return Err(BuildError::UnsupportedKind);
        },
    };
    reloc.set_relative(relative);
    reloc.set_size(size);
    if addend < -0x8000 || addend > 0x7fff {
        return Err(BuildError::IntConversion);
    }
    if reloc.checked_set_addend(addend as i16).is_err() {
        return Err(BuildError::FieldOverflow);
    }
    let (k, id) = match patch {
        PatchType::Hole(i) => (PatchKind::Hole, i),
        PatchType::Stack(i) => (PatchKind::Stack, i),
        PatchType::Target(i) => (PatchKind::Target, i),
        PatchType::Next => (PatchKind::Target, 0u16),
    };
    reloc.set_patch_kind(k);
    reloc.set_patch_id(id);
    Ok(reloc)
}

} // verus!

verus! {

/// A stencil family being assembled: its shape, the relocation lists of
/// its stencils (each ended by an all-zero entry) and, for each placement
/// of arguments and returns, the stencil's code and relocation list.
pub struct FamilyBuild {
    pub inputs: usize,
    pub outputs: usize,
    pub max_regs: usize,
    pub holes: usize,
    pub jumps: usize,
    pub relocation_data: Vec<Relocation>,
    pub stencils: Vec<UntypedStencil>,
}

/// The largest patch id plus one among the relocations of this kind, or 0.
pub open spec fn patch_count(rs: Seq<u64>, kind: PatchKind) -> int
    decreases rs.len(),
{
    if rs.len() == 0 {
        0
    } else {
        let m = patch_count(rs.drop_last(), kind);
        let r = rs.last();
        if PatchKind::spec_from_bits(kind_field(r)) == kind && patch_id_field(r) + 1 > m {
            patch_id_field(r) + 1
        } else {
            m
        }
    }
}

/// The bits of each relocation.
pub open spec fn relocation_bits(rs: Seq<Relocation>) -> Seq<u64> {
    rs.map_values(|r: Relocation| r@)
}

/// Each known list is stored from its start and ended by an all-zero entry;
/// no list is known twice.
pub open spec fn lists_ok(data: Seq<u64>, lists: Seq<(Seq<u64>, usize)>) -> bool {
    &&& forall|k: int|
        0 <= k < lists.len() ==> {
            let (key, start) = #[trigger] lists[k];
            &&& start + key.len() < data.len()
            &&& data.subrange(start as int, start + key.len()) == key
            &&& data[start + key.len()] == 0
        }
    &&& forall|a: int, b: int| 0 <= a < lists.len() && 0 <= b < lists.len() && a != b ==> (#[trigger] lists[a]).0 != (#[trigger] lists[b]).0
}

/// Assembles a family from its stencils, storing each distinct relocation
/// list once.
pub struct StencilFamilyBuilder {
    family: FamilyBuild,
    existing_relocations: Vec<(Vec<u64>, usize)>,
}

/// What a family builder holds.
pub struct BuilderView {
    pub inputs: usize,
    pub outputs: usize,
    pub max_regs: usize,
    pub holes: usize,
    pub jumps: usize,
    pub data: Seq<u64>,
    pub stencils: Seq<UntypedStencil>,
    /// Each stored relocation list and where it starts.
    pub lists: Seq<(Seq<u64>, usize)>,
}

impl View for StencilFamilyBuilder {
    type V = BuilderView;

    closed spec fn view(&self) -> BuilderView {
        BuilderView {
            inputs: self.family.inputs,
            outputs: self.family.outputs,
            max_regs: self.family.max_regs,
            holes: self.family.holes,
            jumps: self.family.jumps,
            data: relocation_bits(self.family.relocation_data@),
            stencils: self.family.stencils@,
            lists: self.existing_relocations@.map_values(|e: (Vec<u64>, usize)| (e.0@, e.1)),
        }
    }
}

impl BuilderView {
    pub open spec fn wf(self) -> bool {
        &&& lists_ok(self.data, self.lists)
        &&& self.inputs <= 0xffff
        &&& self.outputs <= 0xffff
        &&& self.stencils.len() == power(self.max_regs as nat, (self.inputs + self.outputs) as nat)
    }

    /// Where the list `key` is stored, if it is.
    pub open spec fn start_of(self, key: Seq<u64>) -> Option<usize> {
        if exists|k: int| 0 <= k < self.lists.len() && (#[trigger] self.lists[k]).0 == key {
            Some(self.lists[choose|k: int| 0 <= k < self.lists.len() && (#[trigger] self.lists[k]).0 == key].1)
        } else {
            None
        }
    }
}

/// The stencil that stands for a missing one: all zero.
pub open spec fn empty_stencil() -> UntypedStencil {
    UntypedStencil { code_index: 0, code_len: 0, relocation_index: 0 }
}

/// A family builder of this shape with nothing added.
pub open spec fn fresh_builder(m: Metadata) -> BuilderView {
    BuilderView {
        inputs: m.inputs as usize,
        outputs: m.outputs as usize,
        max_regs: m.max_regs as usize,
        holes: m.holes as usize,
        jumps: m.jumps as usize,
        data: Seq::empty(),
        stencils: Seq::new(power(m.max_regs as nat, (m.inputs + m.outputs) as nat), |j: int| empty_stencil()),
        lists: Seq::empty(),
    }
}

/// The all-zero stencil is the missing one.
pub proof fn lemma_empty_stencil_missing()
    ensures
        !empty_stencil().is_present(),
{
    assert(crate::stencils::stencil_bits(0, 0, 0) == 0) by (bit_vector);
}

/// A relocation list's place: where it is already stored, or the end of
/// the data, where it is appended with its all-zero end.
pub open spec fn stored(v: BuilderView, key: Seq<u64>) -> (BuilderView, usize) {
    match v.start_of(key) {
        Some(s) => (v, s),
        None => (
            BuilderView {
                data: v.data + key + seq![0u64],
                lists: v.lists.push((key, v.data.len() as usize)),
                ..v
            },
            v.data.len() as usize,
        ),
    }
}

impl StencilFamilyBuilder {
    /// An empty family of this shape, with room for every placement of its
    /// arguments and returns.
    pub fn new(metadata: Metadata) -> (r: Self)
        requires
            power(metadata.max_regs as nat, (metadata.inputs + metadata.outputs) as nat) <= usize::MAX,
        ensures
            r@.wf(),
            r@ == fresh_builder(metadata),
    {
        let inputs = metadata.inputs as usize;
        let outputs = metadata.outputs as usize;
        let max_regs = metadata.max_regs as usize;
        let len = stencils_len(inputs, outputs, max_regs);
        let mut stencils: Vec<UntypedStencil> = Vec::new();
        let mut i: usize = 0;
        while i < len
            invariant
                i <= len,
                stencils@ == Seq::new(i as nat, |j: int| empty_stencil()),
            decreases len - i,
        {
            stencils.push(UntypedStencil { code_index: 0, code_len: 0, relocation_index: 0 });
            proof {
                assert(stencils@ =~= Seq::new((i + 1) as nat, |j: int| empty_stencil()));
            }
            i = i + 1;
        }
        let family = FamilyBuild {
            inputs,
            outputs,
            max_regs,
            holes: metadata.holes as usize,
            jumps: metadata.jumps as usize,
            relocation_data: Vec::new(),
            stencils,
        };
        let r = Self { family, existing_relocations: Vec::new() };
        proof {
            assert(r@.data =~= Seq::<u64>::empty());
            assert(r@.lists =~= Seq::<(Seq<u64>, usize)>::empty());
        }
        r
    }

    /// The assembled family.
    pub fn finalize(self) -> (r: FamilyBuild)
        ensures
            r.inputs == self@.inputs,
            r.outputs == self@.outputs,
            r.max_regs == self@.max_regs,
            r.holes == self@.holes,
            r.jumps == self@.jumps,
            relocation_bits(r.relocation_data@) == self@.data,
            r.stencils@ == self@.stencils,
    {
        self.family
    }
}

} // verus!

verus! {

/// Adding a stencil: its holes and jumps (the largest id plus one of its
/// hole and target relocations, which overflows for the id `u16::MAX`) and
/// its arguments and returns must match the family; its relocation list is
/// stored unless it already is; its code range and list start must fit the
/// stencil's fields, and its placement of arguments and returns must lie in
/// the family; then it takes the family's entry for that placement.
pub open spec fn added(
    v: BuilderView,
    code_start: usize,
    code_end: usize,
    ins: Seq<Location>,
    outs: Seq<Location>,
    rs: Seq<u64>,
) -> (BuilderView, Result<(), BuildError>) {
    let holes = patch_count(rs, PatchKind::Hole);
    let jumps = patch_count(rs, PatchKind::Target);
    if !ids_ok(rs) {
        (v, Err(BuildError::PatchIdOverflow))
    } else if v.inputs != ins.len() || v.outputs != outs.len() || v.holes != holes || v.jumps != jumps {
        (v, Err(BuildError::FamilyMismatch))
    } else {
        let (w, start) = stored(v, rs);
        let len: int = if code_end > code_start {
            code_end - code_start
        } else {
            0
        };
        let idx = locations_index(ins + outs, v.max_regs as nat) as int;
        if code_start > u32::MAX || len > u16::MAX || start > u16::MAX {
            (w, Err(BuildError::IntConversion))
        } else if idx >= v.stencils.len() {
            (w, Err(BuildError::OutsideFamily))
        } else {
            (
                BuilderView {
                    stencils: w.stencils.update(
                        idx,
                        UntypedStencil {
                            code_index: code_start as u32,
                            code_len: len as u16,
                            relocation_index: start as u16,
                        },
                    ),
                    ..w
                },
                Ok(()),
            )
        }
    }
}

/// Taking more locations never lowers the number of a placement (over at
/// least one location).
proof fn lemma_index_grows(s: Seq<Location>, m: nat, k: int)
    requires
        m >= 1,
        0 <= k <= s.len(),
    ensures
        locations_index(s.take(k), m) <= locations_index(s, m),
    decreases s.len() - k,
{
    if k < s.len() {
        lemma_index_grows(s.drop_last(), m, k);
        assert(s.drop_last().take(k) =~= s.take(k));
        let x = locations_index(s.drop_last(), m);
        assert(x <= m * x) by (nonlinear_arith)
            requires
                m >= 1,
        ;
    } else {
        assert(s.take(k) =~= s);
    }
}

/// One more digit of a placement's number, if the number still fits.
fn index_step(acc: usize, m: usize, l: Location) -> (r: Option<usize>)
    ensures
        r == (if m * acc + digit_of(l) <= usize::MAX {
            Some((m * acc + digit_of(l)) as usize)
        } else {
            None
        }),
{
    let d: usize = match l {
        Location::Stack(_) => 0,
        Location::Register(r) => r as usize + 1,
    };
    match acc.checked_mul(m) {
        Some(x) => x.checked_add(d),
        None => {
            proof {
                assert(m * acc == acc * m) by (nonlinear_arith);
            }
            None
        },
    }
}

/// The number of the placement of `ins` then `outs` over `m` locations, if
/// it fits a `usize`.
fn checked_index(ins: &[Location], outs: &[Location], m: usize) -> (r: Option<usize>)
    ensures
        r == (if locations_index(ins@ + outs@, m as nat) <= usize::MAX {
            Some(locations_index(ins@ + outs@, m as nat) as usize)
        } else {
            None
        }),
{
    let ghost s = ins@ + outs@;
    let mut acc: usize = 0;
    let mut k: usize = 0;
    while k < ins.len()
        invariant
            k <= ins@.len(),
            s == ins@ + outs@,
            acc == locations_index(s.take(k as int), m as nat),
        decreases ins@.len() - k,
    {
        proof {
            assert(ins@[k as int] == s[k as int]);
            assert(s.take(k as int + 1).drop_last() =~= s.take(k as int));
        }
        match index_step(acc, m, ins[k]) {
            Some(x) => {
                acc = x;
            },
            None => {
                proof {
                    if m >= 1 {
                        lemma_index_grows(s, m as nat, k as int + 1);
                    } else {
                        assert(m * acc == 0) by (nonlinear_arith)
                            requires
                                m == 0,
                        ;
                    }
                }
                return None;
            },
        }
        k = k + 1;
    }
    let mut j: usize = 0;
    while j < outs.len()
        invariant
            j <= outs@.len(),
            k == ins@.len(),
            s == ins@ + outs@,
            acc == locations_index(s.take(k + j), m as nat),
        decreases outs@.len() - j,
    {
        proof {
            assert(outs@[j as int] == s[k + j]);
            assert(s.take(k + j + 1).drop_last() =~= s.take(k + j));
        }
        match index_step(acc, m, outs[j]) {
            Some(x) => {
                acc = x;
            },
            None => {
                proof {
                    if m >= 1 {
                        lemma_index_grows(s, m as nat, k + j + 1);
                    } else {
                        assert(m * acc == 0) by (nonlinear_arith)
                            requires
                                m == 0,
                        ;
                    }
                }
                return None;
            },
        }
        j = j + 1;
    }
    proof {
        assert(s.take(k + j) =~= s);
    }
    Some(acc)
}

/// No hole or target relocation has the largest id, whose successor does
/// not fit a `u16`.
pub open spec fn ids_ok(rs: Seq<u64>) -> bool {
    forall|k: int|
        0 <= k < rs.len() && (PatchKind::spec_from_bits(kind_field(#[trigger] rs[k])) == PatchKind::Hole
            || PatchKind::spec_from_bits(kind_field(rs[k])) == PatchKind::Target) ==> patch_id_field(rs[k])
            < u16::MAX
}

fn same_bits(a: &Vec<u64>, b: &Vec<u64>) -> (r: bool)
    ensures
        r == (a@ == b@),
{
    if a.len() != b.len() {
        return false;
    }
    let mut i: usize = 0;
    while i < a.len()
        invariant
            a@.len() == b@.len(),
            i <= a@.len(),
            forall|k: int| 0 <= k < i ==> a@[k] == b@[k],
        decreases a@.len() - i,
    {
        if a[i] != b[i] {
            return false;
        }
        i = i + 1;
    }
    assert(a@ =~= b@);
    true
}

impl StencilFamilyBuilder {
    /// Where the relocation list `key` is stored, storing it if needed.
    fn store(&mut self, key: Vec<u64>) -> (r: usize)
        requires
            old(self)@.wf(),
        ensures
            final(self)@.wf(),
            (final(self)@, r) == stored(old(self)@, key@),
    {
        let ghost v = self@;
        let n = self.existing_relocations.len();
        let mut e: usize = 0;
        while e < n
            invariant
                e <= n,
                n == self.existing_relocations@.len(),
                self@ == v,
                v.wf(),
                forall|j: int| 0 <= j < e ==> (#[trigger] v.lists[j]).0 != key@,
            decreases n - e,
        {
            if same_bits(&self.existing_relocations[e].0, &key) {
                let start = self.existing_relocations[e].1;
                proof {
                    assert(v.lists[e as int].0 == key@);
                    let k = choose|k: int| 0 <= k < v.lists.len() && (#[trigger] v.lists[k]).0 == key@;
                    if k != e {
                        assert(v.lists[k].0 != v.lists[e as int].0);
                        assert(false);
                    }
                }
                return start;
            }
            e = e + 1;
        }
        let start = self.family.relocation_data.len();
        let ghost d0 = self.family.relocation_data@;
        let mut k: usize = 0;
        while k < key.len()
            invariant
                k <= key@.len(),
                self.family.relocation_data@.len() == d0.len() + k,
                relocation_bits(self.family.relocation_data@) == relocation_bits(d0) + key@.take(k as int),
                self.existing_relocations@ == old(self).existing_relocations@,
                self.family.stencils@ == old(self).family.stencils@,
                self.family.inputs == old(self).family.inputs,
                self.family.outputs == old(self).family.outputs,
                self.family.max_regs == old(self).family.max_regs,
                self.family.holes == old(self).family.holes,
                self.family.jumps == old(self).family.jumps,
                d0 == old(self).family.relocation_data@,
            decreases key@.len() - k,
        {
            let ghost before = self.family.relocation_data@;
            let x = Relocation::from_bits(key[k]);
            self.family.relocation_data.push(x);
            proof {
                assert(self.family.relocation_data@ == before.push(x));
                assert(relocation_bits(before.push(x)) =~= relocation_bits(before).push(x@));
                assert(key@.take(k as int + 1) =~= key@.take(k as int).push(key@[k as int]));
                assert(relocation_bits(self.family.relocation_data@) =~= relocation_bits(d0) + key@.take(k as int + 1));
            }
            k = k + 1;
        }
        self.family.relocation_data.push(Relocation::new());
        self.existing_relocations.push((key, start));
        proof {
            let w = self@;
            let st = stored(v, key@);
            assert(key@.take(key@.len() as int) =~= key@);
            assert(w.data =~= v.data + key@ + seq![0u64]);
            assert(w.lists =~= v.lists.push((key@, start)));
            assert(forall|j: int| 0 <= j < v.lists.len() ==> (#[trigger] v.lists[j]).0 != key@);
            assert forall|j: int| 0 <= j < w.lists.len() implies {
                let (kk, s) = #[trigger] w.lists[j];
                &&& s + kk.len() < w.data.len()
                &&& w.data.subrange(s as int, s + kk.len()) == kk
                &&& w.data[s + kk.len()] == 0
            } by {
                if j < v.lists.len() {
                    let (kk, s) = v.lists[j];
                    assert(w.lists[j] == v.lists[j]);
                    assert(w.data.subrange(s as int, s + kk.len()) =~= v.data.subrange(s as int, s + kk.len()));
                } else {
                    assert(w.data.subrange(start as int, start + key@.len()) =~= key@);
                }
            }
            assert forall|a: int, b: int| 0 <= a < w.lists.len() && 0 <= b < w.lists.len() && a != b implies (#[trigger] w.lists[a]).0
                != (#[trigger] w.lists[b]).0 by {
                if a < v.lists.len() && b < v.lists.len() {
                    assert(w.lists[a] == v.lists[a] && w.lists[b] == v.lists[b]);
                } else if a < v.lists.len() {
                    assert(w.lists[a] == v.lists[a]);
                } else {
                    assert(w.lists[b] == v.lists[b]);
                }
            }
        }
        start
    }

    /// Adds a stencil whose code is `code` in the library's code, whose
    /// arguments and returns are placed as `io` says and whose relocations
    /// are `relocations` (see `added`).
    pub fn add_stencil(&mut self, code: core::ops::Range<usize>, io: StencilArgs, relocations: &[Relocation]) -> (r:
        Result<(), BuildError>)
        requires
            old(self)@.wf(),
        ensures
            final(self)@.wf(),
            (final(self)@, r) == added(
                old(self)@,
                code.start,
                code.end,
                location_list_items(io.inputs),
                location_list_items(io.outputs),
                relocation_bits(relocations@),
            ),
    {
        let ghost v = self@;
        let ghost rs = relocation_bits(relocations@);
        let n = relocations.len();
        let mut holes: usize = 0;
        let mut jumps: usize = 0;
        let mut key: Vec<u64> = Vec::new();
        let mut k: usize = 0;
        while k < n
            invariant
                k <= n,
                n == rs.len(),
                rs == relocation_bits(relocations@),
                ids_ok(rs.take(k as int)),
                self@ == v,
                v.wf(),
                holes == patch_count(rs.take(k as int), PatchKind::Hole),
                jumps == patch_count(rs.take(k as int), PatchKind::Target),
                key@ == rs.take(k as int),
                holes <= 0x10000,
                jumps <= 0x10000,
            decreases n - k,
        {
            let r = relocations[k];
            proof {
                assert(rs.take(k as int + 1).drop_last() =~= rs.take(k as int));
                assert(rs.take(k as int + 1).last() == rs[k as int]);
                assert(rs[k as int] == r@);
                assert(rs.take(k as int + 1) =~= rs.take(k as int).push(r@));
            }
            let kind = r.patch_kind();
            if (kind == PatchKind::Hole || kind == PatchKind::Target) && r.patch_id() == 0xffff {
                proof {
                    assert(!ids_ok(rs)) by {
                        assert(rs[k as int] == r@);
                    }
                }
                return Err(BuildError::PatchIdOverflow);
            }
            proof {
                assert(ids_ok(rs.take(k as int + 1))) by {
                    assert forall|j: int| 0 <= j < k + 1 implies (PatchKind::spec_from_bits(kind_field(#[trigger] rs.take(k as int + 1)[j]))
                        == PatchKind::Hole || PatchKind::spec_from_bits(kind_field(rs.take(k as int + 1)[j])) == PatchKind::Target)
                        ==> patch_id_field(rs.take(k as int + 1)[j]) < u16::MAX by {
                        if j < k {
                            assert(rs.take(k as int + 1)[j] == rs.take(k as int)[j]);
                        }
                    }
                }
            }
            match kind {
                PatchKind::Hole => {
                    let c = r.patch_id() as usize + 1;
                    if c > holes {
                        holes = c;
                    }
                },
                PatchKind::Target => {
                    let c = r.patch_id() as usize + 1;
                    if c > jumps {
                        jumps = c;
                    }
                },
                _ => {},
            }
            key.push(r.into_bits());
            k = k + 1;
        }
        proof {
            assert(rs.take(n as int) =~= rs);
        }
        let ins = io.inputs.as_slice();
        let outs = io.outputs.as_slice();
        let slen = self.family.stencils.len();
        if self.family.inputs != ins.len() || self.family.outputs != outs.len() || self.family.holes != holes
            || self.family.jumps != jumps {
            return Err(BuildError::FamilyMismatch);
        }
        let start = self.store(key);
        let len = if code.end > code.start {
            code.end - code.start
        } else {
            0
        };
        if code.start > 0xffff_ffff || len > 0xffff || start > 0xffff {
            return Err(BuildError::IntConversion);
        }
        let stencil = UntypedStencil { code_index: code.start as u32, code_len: len as u16, relocation_index: start as u16 };
        let index = match checked_index(ins, outs, self.family.max_regs) {
            Some(i) => i,
            None => {
                return Err(BuildError::OutsideFamily);
            },
        };
        if index >= slen {
            return Err(BuildError::OutsideFamily);
        }
        self.family.stencils.set(index, stencil);
        proof {
            let w = self@;
            assert(w.data == stored(v, key@).0.data);
        }
        Ok(())
    }
}

} // verus!

verus! {

/// Whether parsing the argument list reaches no argument that reads as
/// register `-1` (see `args_ok`), and then whether it parses.
fn scan_args(args: &str) -> (r: (bool, bool))
    ensures
        r.0 == args_ok(args@),
        r.0 ==> r.1 == parsed_args(args@) is Some,
{
    let ghost s = args@;
    let n = args.unicode_len();
    if n == 0 {
        return (true, true);
    }
    let mut start: usize = 0;
    loop
        invariant
            n == s.len(),
            n > 0,
            s == args@,
            start <= n,
            args_ok(s) == args_ok_from(s, start as int),
            args_ok_from(s, start as int) ==> (parsed_args(s) is Some <==> args_from(s, start as int) is Some),
        decreases n - start,
    {
        let mut end = start;
        while end < n
            invariant
                start <= end <= n,
                n == s.len(),
                s == args@,
                forall|k: int| start <= k < end ==> s[k] != '_',
            ensures
                start <= end <= n,
                forall|k: int| start <= k < end ==> s[k] != '_',
                end < n ==> s[end as int] == '_',
            decreases n - end,
        {
            if args.get_char(end) == '_' {
                break;
            }
            end = end + 1;
        }
        proof {
            lemma_next_char(s, start as int, '_');
            let e = next_char(s, start as int, '_');
            if e < end {
                assert(s[e] == '_');
            }
            assert(e == end);
        }
        let ghost part = s.subrange(start as int, end as int);
        let zero = end > start && end - start == 1 && args.get_char(start) == '0';
        proof {
            if zero {
                assert(part =~= seq!['0']);
            } else if part == seq!['0'] {
                assert(part.len() == 1);
                assert(part[0] == s[start as int]);
            }
        }
        if !zero {
            match parse_u16_in(args, start, end) {
                Some(v) => {
                    if v == 0 {
                        return (false, false);
                    }
                },
                None => {
                    return (true, false);
                },
            }
        }
        if end == n {
            return (true, true);
        }
        start = end + 1;
    }
}

/// Whether parsing the argument list reaches no argument that reads as
/// register `-1` (see `args_ok`).
pub fn args_parse_safely(args: &str) -> (r: bool)
    ensures
        r == args_ok(args@),
{
    scan_args(args).0
}

/// Whether parsing the symbol reaches no argument that reads as register
/// `-1` (see `name_ok`).
pub fn name_parses_safely(sym_name: &str) -> (r: bool)
    ensures
        r == name_ok(sym_name@),
{
    let s = sym_name;
    if chars_equal(s, &['_', '_', 'e', 'm', 'p', 't', 'y', '_', '_', '_', '_']) {
        return true;
    }
    let n = s.unicode_len();
    proof {
        lemma_next_sep(s@, 0);
    }
    let j1 = find_sep(s, 0);
    if j1 >= n {
        return true;
    }
    proof {
        lemma_next_sep(s@, j1 + 2);
    }
    let j2 = find_sep(s, j1 + 2);
    if j2 >= n {
        return true;
    }
    proof {
        lemma_next_sep(s@, j2 + 2);
    }
    if find_sep(s, j2 + 2) < n {
        return true;
    }
    let inputs = s.substring_char(j1 + 2, j2);
    let outputs = s.substring_char(j2 + 2, n);
    let (safe, parses) = scan_args(inputs);
    if !safe {
        return false;
    }
    if parses {
        args_parse_safely(outputs)
    } else {
        true
    }
}

} // verus!

verus! {

/// A character trimmed off a line (white space) or off the package name
/// (a quote).
pub open spec fn trimmed_char(c: char, quotes: bool) -> bool {
    if quotes {
        c == '"'
    } else {
        is_white_space(c)
    }
}

/// The first position in `i..j` whose character is not trimmed, or `j`.
pub open spec fn trim_from(s: Seq<char>, i: int, j: int, quotes: bool) -> int
    decreases j - i,
{
    if i >= j {
        j
    } else if trimmed_char(s[i], quotes) {
        trim_from(s, i + 1, j, quotes)
    } else {
        i
    }
}

/// The end of `a..j` once trimmed characters are taken off its end.
pub open spec fn trim_back(s: Seq<char>, a: int, j: int, quotes: bool) -> int
    decreases j - a,
{
    if j <= a {
        a
    } else if trimmed_char(s[j - 1], quotes) {
        trim_back(s, a, j - 1, quotes)
    } else {
        j
    }
}

/// The key of the package name in a `Cargo.toml` line.
pub open spec fn name_key() -> Seq<char> {
    seq!['n', 'a', 'm', 'e', ' ', '=', ' ']
}

/// The package name of a `Cargo.toml` text, from the line starting at
/// `start` on: the first line that, trimmed, starts with `name = `, with
/// the rest trimmed of quotes.
pub open spec fn manifest_name_from(s: Seq<char>, start: int) -> Option<Seq<char>>
    decreases s.len() - start,
{
    if start < 0 || start > s.len() {
        None
    } else {
        let end = next_char(s, start, '\n');
        proof {
            lemma_next_char(s, start, '\n');
        }
        let a = trim_from(s, start, end, false);
        let b = trim_back(s, a, end, false);
        if b - a >= 7 && s.subrange(a, a + 7) == name_key() {
            let qa = trim_from(s, a + 7, b, true);
            let qb = trim_back(s, qa, b, true);
            Some(s.subrange(qa, qb))
        } else if end < s.len() {
            manifest_name_from(s, end + 1)
        } else {
            None
        }
    }
}

/// `-` written as `_`.
pub open spec fn dash_to_underscore(c: char) -> char {
    if c == '-' {
        '_'
    } else {
        c
    }
}

/// The file the compiled library of package `name` is written to.
pub open spec fn rlib_file_name(name: Seq<char>) -> Seq<char> {
    seq!['l', 'i', 'b'] + name.map_values(|c: char| dash_to_underscore(c)) + seq!['.', 'r', 'l', 'i', 'b']
}

fn trim_from_exec(s: &str, i: usize, j: usize, quotes: bool) -> (r: usize)
    requires
        i <= j <= s@.len(),
    ensures
        r == trim_from(s@, i as int, j as int, quotes),
        i <= r <= j,
{
    let mut k = i;
    while k < j
        invariant
            i <= k <= j,
            j <= s@.len(),
            trim_from(s@, i as int, j as int, quotes) == trim_from(s@, k as int, j as int, quotes),
        decreases j - k,
    {
        let c = s.get_char(k);
        let t = if quotes {
            c == '"'
        } else {
            white_space(c)
        };
        if !t {
            return k;
        }
        k = k + 1;
    }
    k
}

fn trim_back_exec(s: &str, a: usize, j: usize, quotes: bool) -> (r: usize)
    requires
        a <= j <= s@.len(),
    ensures
        r == trim_back(s@, a as int, j as int, quotes),
        a <= r <= j,
{
    let mut k = j;
    while k > a
        invariant
            a <= k <= j,
            j <= s@.len(),
            trim_back(s@, a as int, j as int, quotes) == trim_back(s@, a as int, k as int, quotes),
        decreases k - a,
    {
        let c = s.get_char(k - 1);
        let t = if quotes {
            c == '"'
        } else {
            white_space(c)
        };
        if !t {
            return k;
        }
        k = k - 1;
    }
    k
}

/// The file name of the compiled library whose `Cargo.toml` reads
/// `manifest`: `lib<name>.rlib`, with `-` in the package name written `_`;
/// `None` when no line names the package.
pub fn manifest_rlib_name(manifest: &str) -> (r: Option<String>)
    ensures
        match manifest_name_from(manifest@, 0) {
            Some(n) => r matches Some(f) && f@ == rlib_file_name(n),
            None => r is None,
        },
{
    let s = manifest;
    let n = s.unicode_len();
    let mut start: usize = 0;
    loop
        invariant
            start <= n,
            n == s@.len(),
            manifest_name_from(s@, 0) == manifest_name_from(s@, start as int),
            s@ == manifest@,
        decreases n - start,
    {
        let mut end = start;
        while end < n && s.get_char(end) != '\n'
            invariant
                start <= end <= n,
                n == s@.len(),
                manifest_name_from(s@, 0) == manifest_name_from(s@, start as int),
                s@ == manifest@,
                next_char(s@, start as int, '\n') == next_char(s@, end as int, '\n'),
            decreases n - end,
        {
            end = end + 1;
        }
        proof {
            lemma_next_char(s@, start as int, '\n');
            assert(next_char(s@, end as int, '\n') == end);
        }
        let a = trim_from_exec(s, start, end, false);
        let b = trim_back_exec(s, a, end, false);
        let ghost key: Seq<char> = seq!['n', 'a', 'm', 'e', ' ', '=', ' '];
        if b - a >= 7 && has_prefix_at(s, a, &['n', 'a', 'm', 'e', ' ', '=', ' ']) {
            proof {
                assert(s@.skip(a as int).take(7) =~= s@.subrange(a as int, a + 7));
                assert(s@.subrange(a as int, a + 7) == name_key());
            }
            let qa = trim_from_exec(s, a + 7, b, true);
            let qb = trim_back_exec(s, qa, b, true);
            proof {
                assert(manifest_name_from(s@, start as int) == Some(s@.subrange(qa as int, qb as int)));
            }
            let mut f = String::new();
            crate::expand::push_chars(&mut f, &['l', 'i', 'b']);
            let ghost f0 = f@;
            let mut k = qa;
            while k < qb
                invariant
                    qa <= k <= qb,
                    qb <= n,
                    n == s@.len(),
                    manifest_name_from(s@, 0) == manifest_name_from(s@, start as int),
                    s@ == manifest@,
                    manifest_name_from(s@, start as int) == Some(s@.subrange(qa as int, qb as int)),
                    f0 == seq!['l', 'i', 'b'],
                    f@ == f0 + s@.subrange(qa as int, k as int).map_values(|c: char| dash_to_underscore(c)),
                decreases qb - k,
            {
                let c = s.get_char(k);
                crate::expand::push_char(&mut f, if c == '-' { '_' } else { c });
                proof {
                    assert(s@.subrange(qa as int, k + 1).map_values(|c: char| dash_to_underscore(c))
                        =~= s@.subrange(qa as int, k as int).map_values(|c: char| dash_to_underscore(c)).push(
                        dash_to_underscore(c),
                    ));
                }
                k = k + 1;
            }
            crate::expand::push_chars(&mut f, &['.', 'r', 'l', 'i', 'b']);
            proof {
                assert(f@ =~= rlib_file_name(s@.subrange(qa as int, qb as int)));
                assert(manifest_name_from(s@, start as int) == Some(s@.subrange(qa as int, qb as int)));
            }
            return Some(f);
        }
        proof {
            if b - a >= 7 {
                assert(s@.skip(a as int).take(7) =~= s@.subrange(a as int, a + 7));
                assert(s@.subrange(a as int, a + 7) != name_key());
            }
        }
        if end >= n {
            proof {
                assert(manifest_name_from(s@, start as int) is None);
            }
            return None;
        }
        start = end + 1;
    }
}

} // verus!
