//! Collecting stencil families from the symbols of a compiled stencils
//! crate: which symbols are stencils, their code and relocations, and the
//! metadata of each family.
use vstd::prelude::*;

use vstd::string::StrSliceExecFns;

use crate::extract::{
    BuildError, BuilderView, FamilyBuild, build_error_text, Metadata, ObjectEncoding, ObjectKind, StencilFamilyBuilder,
    added, fresh_builder, get_patch_type, location_list_items, name_ok, new_relocation,
    next_symbol, parse_name, parsed_name, patch_type_of, relocation_bits, relocation_of,
    starts_with, unpacked, chars_equal, has_prefix_at, name_parses_safely,
};
use crate::relocation::{Relocation, RelocationFields, fields, offset_field};
use crate::stencils::power;
use crate::archive::{archive_members, read_archive, read_members, reads_from};

verus! {

/// What a symbol of an object file is.
#[derive(Debug, Clone, Copy, PartialEq, Eq, Structural)]
pub enum SymbolClass {
    Text,
    Data,
    Other,
}

/// What a relocation of a stencil's section points at.
#[derive(Debug)]
pub enum TargetSymbol {
    /// Not a symbol, or a symbol that cannot be read: the stencil is left
    /// out.
    Skip,
    /// A symbol defined in the object file: stencils must not call or read
    /// anything that is not inlined.
    Defined,
    /// An undefined symbol, by name.
    Undefined(String),
}

/// A relocation of a stencil's section.
#[derive(Debug)]
pub struct ObjectRelocation {
    pub offset: u64,
    pub target: TargetSymbol,
    pub encoding: ObjectEncoding,
    pub kind: ObjectKind,
    pub size: u8,
    pub addend: i64,
}

/// A symbol of an object file: its name when it reads as UTF-8, the bytes
/// it covers in its section when there are some, and the relocations of
/// that section.
#[derive(Debug)]
pub struct ObjectSymbol {
    pub class: SymbolClass,
    pub name: Option<String>,
    pub data: Option<Vec<u8>>,
    pub relocations: Vec<ObjectRelocation>,
}

/// The symbols of an object file, in its symbol table's order.
#[derive(Debug)]
pub struct ObjectFile {
    pub symbols: Vec<ObjectSymbol>,
}

/// What went wrong extracting stencils.
#[derive(Debug, Clone, Copy, PartialEq, Eq, Structural)]
pub enum ExtractErrorKind {
    /// A stencil calls or reads something defined outside it.
    NotInlined,
    /// A stencil family has no metadata symbol.
    NoMeta,
    /// Families were built for different numbers of registers.
    MaxRegsMismatch,
    /// A relocation or stencil does not fit.
    Build(BuildError),
    /// The stencils break an assumption the build cannot go on without.
    Halted(HaltReason),
    /// The archive, one of its members or an object file in it could not
    /// be read; the error's `stencil` holds what the reader reported.
    Read,
}

/// What the build cannot go on without.
#[derive(Debug, Clone, Copy, PartialEq, Eq, Structural)]
pub enum HaltReason {
    /// An argument of a stencil name reads as register `-1`.
    NegativeRegister,
    /// A relocation of a stencil is against a symbol that is neither one of
    /// the stencil's own (`<stencil>__…`) nor the jump to what follows.
    ForeignRelocation,
    /// A family has more placements than a `usize` can count.
    FamilyTooLarge,
    /// No symbol names the library.
    NoLibName,
    /// A symbol name is so long that the lists read from it could outgrow
    /// what this machine can address (see `list_limit`).
    CapacityOverflow,
}

/// An extraction error and the stencil it came from.
#[derive(Debug)]
pub struct ExtractError {
    pub kind: ExtractErrorKind,
    pub stencil: String,
}

/// The message for each kind of extraction error.
pub open spec fn extract_error_text(k: ExtractErrorKind) -> Seq<char> {
    match k {
        ExtractErrorKind::NotInlined => "all function calls/data in stencils must be inlined"@,
        ExtractErrorKind::NoMeta => "no meta symbol for"@,
        ExtractErrorKind::MaxRegsMismatch => "all stencils must have the same max_regs"@,
        ExtractErrorKind::Build(e) => build_error_text(e),
        ExtractErrorKind::Halted(HaltReason::NegativeRegister) => "attempt to subtract with overflow"@,
        ExtractErrorKind::Halted(HaltReason::ForeignRelocation) => "relocation against another stencil's symbol"@,
        ExtractErrorKind::Halted(HaltReason::FamilyTooLarge) => "attempt to multiply with overflow"@,
        ExtractErrorKind::Halted(HaltReason::NoLibName) => "called `Option::unwrap()` on a `None` value"@,
        ExtractErrorKind::Halted(HaltReason::CapacityOverflow) => "capacity overflow"@,
        ExtractErrorKind::Read => "failed to read the stencils archive"@,
    }
}

impl ExtractError {
    /// The message for the error.
    pub fn message(&self) -> (r: &'static str)
        ensures
            r@ == extract_error_text(self.kind),
    {
        match self.kind {
            ExtractErrorKind::NotInlined => "all function calls/data in stencils must be inlined",
            ExtractErrorKind::NoMeta => "no meta symbol for",
            ExtractErrorKind::MaxRegsMismatch => "all stencils must have the same max_regs",
            ExtractErrorKind::Build(e) => e.message(),
            ExtractErrorKind::Halted(HaltReason::NegativeRegister) => "attempt to subtract with overflow",
            ExtractErrorKind::Halted(HaltReason::ForeignRelocation) => "relocation against another stencil's symbol",
            ExtractErrorKind::Halted(HaltReason::FamilyTooLarge) => "attempt to multiply with overflow",
            ExtractErrorKind::Halted(HaltReason::NoLibName) => "called `Option::unwrap()` on a `None` value",
            ExtractErrorKind::Halted(HaltReason::CapacityOverflow) => "capacity overflow",
            ExtractErrorKind::Read => "failed to read the stencils archive",
        }
    }
}

/// The stencils of a compiled stencils crate: the library's name, all
/// stencil code, the number of registers, and each family (by name, in the
/// order first met).
pub struct Extracted {
    pub lib_name: String,
    pub all_code: Vec<u8>,
    pub max_regs: usize,
    pub families: Vec<(String, FamilyBuild)>,
}

/// The prefix of stencil symbols.
pub open spec fn stencil_prefix() -> Seq<char> {
    seq!['_', '_', 'p', 'a', 't', 'c', 'h', 'o', 'u', 'l', 'y', '_', '_']
}

/// The symbol holding the library's name.
pub open spec fn lib_name_symbol() -> Seq<char> {
    seq!['_', '_', 'S', 'T', 'E', 'N', 'C', 'I', 'L', '_', 'A', 'P', 'I', '_', 'N', 'A', 'M', 'E']
}

/// The suffix of a family's metadata symbol.
pub open spec fn meta_suffix() -> Seq<char> {
    seq!['_', '_', 'm', 'e', 't', 'a']
}

/// What `String::from_utf8_lossy` reads from the bytes.
pub uninterp spec fn utf8_lossy(bytes: Seq<u8>) -> Seq<char>;

/// `String::from_utf8_lossy`, owned: the bytes as UTF-8, each invalid
/// sequence replaced. What that gives is named, not stated.
#[verifier::external_body]
fn lossy_string(bytes: &[u8]) -> (r: String)
    ensures
        r@ == utf8_lossy(bytes@),
{
    String::from_utf8_lossy(bytes).into_owned()
}

/// The relocation entry with these fields.
pub open spec fn bits_of(f: RelocationFields) -> u64 {
    choose|b: u64| fields(b) == f
}

/// Where extraction stands: the library's name once seen, the stencil code
/// so far, the number of registers once a family fixed it, and the families
/// met so far.
pub struct ExtractState {
    pub lib_name: Option<Seq<char>>,
    pub code: Seq<u8>,
    pub max_regs: Option<u16>,
    pub families: Seq<(Seq<char>, BuilderView)>,
}

/// What a step of extraction comes to: going on, or an error and the
/// stencil (or symbol) it came from.
pub enum Outcome {
    Next(ExtractState),
    Fail(ExtractErrorKind, Seq<char>),
}

/// What the relocations of a stencil's section come to, from `k` on: the
/// entries, or that the stencil is left out, or an error.
pub enum RelocOutcome {
    Keep(Seq<u64>),
    Skip,
    Fail(ExtractErrorKind),
}

/// The relocations of stencil `name` from `k` on: each must target an
/// undefined symbol whose name says what it patches (a target that is not
/// a readable symbol, or a name that says nothing, leaves the stencil out);
/// one against another symbol than `name__…` or the jump to what follows
/// halts.
pub open spec fn relocs_from(name: Seq<char>, rs: Seq<ObjectRelocation>, k: int) -> RelocOutcome
    decreases rs.len() - k,
{
    if k < 0 || k >= rs.len() {
        RelocOutcome::Keep(Seq::empty())
    } else {
        let r = rs[k];
        match r.target {
            TargetSymbol::Skip => RelocOutcome::Skip,
            TargetSymbol::Defined => RelocOutcome::Fail(ExtractErrorKind::NotInlined),
            TargetSymbol::Undefined(rn) => if rn@ != next_symbol() && !(starts_with(rn@, name) && starts_with(
                rn@.skip(name.len() as int),
                seq!['_', '_'],
            )) {
                RelocOutcome::Fail(ExtractErrorKind::Halted(HaltReason::ForeignRelocation))
            } else {
                match patch_type_of(name, rn@) {
                    None => RelocOutcome::Skip,
                    Some(p) => match relocation_of(r.offset, r.encoding, r.kind, r.size, r.addend, p) {
                        Err(e) => RelocOutcome::Fail(ExtractErrorKind::Build(e)),
                        Ok(f) => match relocs_from(name, rs, k + 1) {
                            RelocOutcome::Keep(tail) => RelocOutcome::Keep(seq![bits_of(f)] + tail),
                            other => other,
                        },
                    },
                }
            },
        }
    }
}

/// The first family named `name`, if any.
pub open spec fn family_index(fams: Seq<(Seq<char>, BuilderView)>, name: Seq<char>) -> Option<int>
    decreases fams.len(),
{
    if fams.len() == 0 {
        None
    } else {
        match family_index(fams.drop_last(), name) {
            Some(i) => Some(i),
            None => if fams.last().0 == name {
                Some(fams.len() - 1)
            } else {
                None
            },
        }
    }
}

/// The metadata of family `name` in the file: that of the first symbol named
/// `__patchouly__<name>__meta`, if it has data that unpacks.
pub open spec fn meta_of(file: Seq<ObjectSymbol>, name: Seq<char>) -> Option<Metadata>
    decreases file.len(),
{
    if file.len() == 0 {
        None
    } else {
        let s = file[0];
        if s.name matches Some(n) && n@ == stencil_prefix() + name + meta_suffix() {
            match s.data {
                Some(d) => unpacked(d@),
                None => None,
            }
        } else {
            meta_of(file.drop_first(), name)
        }
    }
}

/// One symbol of a file: a data symbol may name the library; a text symbol
/// named `__patchouly__<stencil>` with data is a stencil, whose code is
/// appended and which joins its family (made from the family's metadata
/// symbol when first met).
pub open spec fn symbol_step(st: ExtractState, file: Seq<ObjectSymbol>, sym: ObjectSymbol) -> Outcome {
    match sym.class {
        SymbolClass::Other => Outcome::Next(st),
        SymbolClass::Data => match (sym.name, sym.data) {
            (Some(n), Some(d)) => if n@ == lib_name_symbol() {
                Outcome::Next(ExtractState { lib_name: Some(utf8_lossy(d@)), ..st })
            } else {
                Outcome::Next(st)
            },
            _ => Outcome::Next(st),
        },
        SymbolClass::Text => match sym.name {
            None => Outcome::Next(st),
            Some(n) => if !starts_with(n@, stencil_prefix()) {
                Outcome::Next(st)
            } else {
                let rest = n@.skip(13);
                if !name_ok(rest) {
                    Outcome::Fail(ExtractErrorKind::Halted(HaltReason::NegativeRegister), rest)
                } else {
                    match parsed_name(rest) {
                        None => Outcome::Next(st),
                        Some((name, ins, outs)) => match sym.data {
                            None => Outcome::Next(st),
                            Some(code) => match relocs_from(name, sym.relocations@, 0) {
                                RelocOutcome::Skip => Outcome::Next(st),
                                RelocOutcome::Fail(k) => Outcome::Fail(k, name),
                                RelocOutcome::Keep(rs) => {
                                    let code2 = st.code + code@;
                                    let (b, made) = match family_index(st.families, name) {
                                        Some(i) => (Some(st.families[i].1), None::<Metadata>),
                                        None => match meta_of(file, name) {
                                            None => (None, None),
                                            Some(m) => (Some(fresh_builder(m)), Some(m)),
                                        },
                                    };
                                    if b is None {
                                        Outcome::Fail(ExtractErrorKind::NoMeta, name)
                                    } else if made matches Some(m) && st.max_regs matches Some(x) && x
                                        != m.max_regs {
                                        Outcome::Fail(ExtractErrorKind::MaxRegsMismatch, name)
                                    } else if made matches Some(m) && power(
                                        m.max_regs as nat,
                                        (m.inputs + m.outputs) as nat,
                                    ) > usize::MAX {
                                        Outcome::Fail(ExtractErrorKind::Halted(HaltReason::FamilyTooLarge), name)
                                    } else {
                                        match added(
                                            b.unwrap(),
                                            st.code.len() as usize,
                                            (st.code.len() + code@.len()) as usize,
                                            ins,
                                            outs,
                                            sorted_by_offset(rs),
                                        ) {
                                            (b2, Err(e)) => Outcome::Fail(ExtractErrorKind::Build(e), name),
                                            (b2, Ok(())) => Outcome::Next(
                                                ExtractState {
                                                    code: code2,
                                                    max_regs: match made {
                                                        Some(m) => Some(m.max_regs),
                                                        None => st.max_regs,
                                                    },
                                                    families: match family_index(st.families, name) {
                                                        Some(i) => st.families.update(i, (name, b2)),
                                                        None => st.families.push((name, b2)),
                                                    },
                                                    ..st
                                                },
                                            ),
                                        }
                                    }
                                },
                            },
                        },
                    }
                }
            },
        },
    }
}

/// `s` with `x` placed after the last entry whose offset is not larger
/// than its own.
pub open spec fn insert_by_offset(s: Seq<u64>, x: u64) -> Seq<u64>
    decreases s.len(),
{
    if s.len() == 0 {
        seq![x]
    } else if offset_field(s.last()) <= offset_field(x) {
        s.push(x)
    } else {
        insert_by_offset(s.drop_last(), x).push(s.last())
    }
}

/// The relocation entries sorted by offset, those of equal offset in the
/// order given.
pub open spec fn sorted_by_offset(s: Seq<u64>) -> Seq<u64>
    decreases s.len(),
{
    if s.len() == 0 {
        s
    } else {
        insert_by_offset(sorted_by_offset(s.drop_last()), s.last())
    }
}

/// The symbols of a file from `j` on.
pub open spec fn run_symbols(st: ExtractState, file: Seq<ObjectSymbol>, j: int) -> Outcome
    decreases file.len() - j,
{
    if j < 0 || j >= file.len() {
        Outcome::Next(st)
    } else {
        match symbol_step(st, file, file[j]) {
            Outcome::Next(s2) => run_symbols(s2, file, j + 1),
            other => other,
        }
    }
}

/// The files from `i` on.
pub open spec fn run_files(st: ExtractState, files: Seq<ObjectFile>, i: int) -> Outcome
    decreases files.len() - i,
{
    if i < 0 || i >= files.len() {
        Outcome::Next(st)
    } else {
        match run_symbols(st, files[i].symbols@, 0) {
            Outcome::Next(s2) => run_files(s2, files, i + 1),
            other => other,
        }
    }
}

pub open spec fn initial_state() -> ExtractState {
    ExtractState { lib_name: None, code: Seq::empty(), max_regs: None, families: Seq::empty() }
}

/// The end of extraction: it halts when no symbol named the library.
pub open spec fn finished(st: ExtractState) -> Outcome {
    if st.lib_name is None {
        Outcome::Fail(ExtractErrorKind::Halted(HaltReason::NoLibName), Seq::empty())
    } else {
        Outcome::Next(st)
    }
}

/// Extraction from the files: the state after every symbol of every file,
/// or the first error; it halts when no symbol named the library.
pub open spec fn extraction(files: Seq<ObjectFile>) -> Outcome {
    match run_files(initial_state(), files, 0) {
        Outcome::Next(st) => finished(st),
        other => other,
    }
}

/// `r` is what the outcome `o` of extraction gives: the library's name, its
/// code, its number of registers and its families, or the error.
pub open spec fn extracted_as(o: Outcome, r: Result<Extracted, ExtractError>) -> bool {
    match o {
        Outcome::Next(st) => r matches Ok(x) && Some(x.lib_name@) == st.lib_name && x.all_code@ == st.code
            && x.max_regs == (match st.max_regs {
            Some(m) => m as usize,
            None => 0usize,
        }) && x.families@.len() == st.families.len() && forall|i: int|
            0 <= i < st.families.len() ==> (#[trigger] x.families@[i]).0@ == st.families[i].0 && finalized(
                st.families[i].1,
                x.families@[i].1,
            ),
        Outcome::Fail(k, nm) => r matches Err(e) && e.kind == k && e.stencil@ == nm,
    }
}

/// The symbol's name is shorter than `list_limit` characters.
pub open spec fn name_fits(s: ObjectSymbol) -> bool {
    s.name matches Some(n) ==> n@.len() < crate::extract::list_limit()
}

/// Every symbol name is shorter than `list_limit` characters.
pub open spec fn names_fit(files: Seq<ObjectFile>) -> bool {
    forall|i: int, j: int|
        0 <= i < files.len() && 0 <= j < files[i].symbols@.len() ==> name_fits(
            #[trigger] files[i].symbols@[j],
        )
}

} // verus!

verus! {

/// `o` with the entries `prefix` before those it keeps.
pub open spec fn after(prefix: Seq<u64>, o: RelocOutcome) -> RelocOutcome {
    match o {
        RelocOutcome::Keep(t) => RelocOutcome::Keep(prefix + t),
        other => other,
    }
}

proof fn lemma_bits_of(x: u64)
    ensures
        bits_of(fields(x)) == x,
{
    let b = bits_of(fields(x));
    assert(fields(b) == fields(x));
    crate::relocation::lemma_fields_determine_bits(b, x);
}

/// Whether `s` starts with `p`.
fn str_starts_with(s: &str, p: &str) -> (r: bool)
    ensures
        r == starts_with(s@, p@),
{
    let n = s.unicode_len();
    let m = p.unicode_len();
    if m > n {
        return false;
    }
    let mut i: usize = 0;
    while i < m
        invariant
            n == s@.len(),
            m == p@.len(),
            m <= n,
            i <= m,
            forall|k: int| 0 <= k < i ==> s@[k] == p@[k],
        decreases m - i,
    {
        if s.get_char(i) != p.get_char(i) {
            proof {
                assert(s@.take(m as int)[i as int] == s@[i as int]);
            }
            return false;
        }
        i = i + 1;
    }
    assert(s@.take(m as int) =~= p@);
    true
}

/// The relocations of stencil `name` (see `relocs_from`).
fn stencil_relocations(name: &str, rs: &Vec<ObjectRelocation>) -> (r: Result<Option<Vec<Relocation>>, ExtractErrorKind>)
    ensures
        match relocs_from(name@, rs@, 0) {
            RelocOutcome::Keep(bits) => r matches Ok(Some(v)) && relocation_bits(v@) == bits,
            RelocOutcome::Skip => r matches Ok(None),
            RelocOutcome::Fail(k) => r == Err::<Option<Vec<Relocation>>, ExtractErrorKind>(k),
        },
{
    let mut out: Vec<Relocation> = Vec::new();
    let n = rs.len();
    let mut k: usize = 0;
    while k < n
        invariant
            k <= n,
            n == rs@.len(),
            relocs_from(name@, rs@, 0) == after(relocation_bits(out@), relocs_from(name@, rs@, k as int)),
        decreases n - k,
    {
        let r = &rs[k];
        match &r.target {
            TargetSymbol::Skip => {
                return Ok(None);
            },
            TargetSymbol::Defined => {
                return Err(ExtractErrorKind::NotInlined);
            },
            TargetSymbol::Undefined(rn) => {
                let rs_name = rn.as_str();
                if !chars_equal(
                    rs_name,
                    &['c', 'o', 'p', 'y', '_', 'a', 'n', 'd', '_', 'p', 'a', 't', 'c', 'h', '_', 'n', 'e', 'x', 't'],
                ) {
                    let own = str_starts_with(rs_name, name) && has_prefix_at(rs_name, name.unicode_len(), &['_', '_']);
                    if !own {
                        return Err(ExtractErrorKind::Halted(HaltReason::ForeignRelocation));
                    }
                }
                let patch = match get_patch_type(name, rs_name) {
                    Some(p) => p,
                    None => {
                        return Ok(None);
                    },
                };
                match new_relocation(r.offset, r.encoding, r.kind, r.size, r.addend, patch) {
                    Ok(x) => {
                        let ghost before = out@;
                        out.push(x);
                        proof {
                            let f = relocation_of(r.offset, r.encoding, r.kind, r.size, r.addend, patch).unwrap();
                            lemma_bits_of(x@);
                            assert(bits_of(f) == x@);
                            assert(relocation_bits(out@) =~= relocation_bits(before).push(x@));
                            match relocs_from(name@, rs@, k as int + 1) {
                                RelocOutcome::Keep(t) => {
                                    assert(relocation_bits(before) + (seq![x@] + t) =~= relocation_bits(out@) + t);
                                },
                                _ => {},
                            }
                        }
                    },
                    Err(e) => {
                        return Err(ExtractErrorKind::Build(e));
                    },
                }
            },
        }
        k = k + 1;
    }
    proof {
        assert(relocation_bits(out@) + Seq::<u64>::empty() =~= relocation_bits(out@));
    }
    Ok(Some(out))
}

} // verus!

verus! {

/// The relocations sorted by offset (see `sorted_by_offset`).
fn sort_by_offset(v: Vec<Relocation>) -> (r: Vec<Relocation>)
    ensures
        relocation_bits(r@) == sorted_by_offset(relocation_bits(v@)),
{
    let ghost all = relocation_bits(v@);
    let mut out: Vec<Relocation> = Vec::new();
    let mut i: usize = 0;
    assert(all.take(0) =~= Seq::<u64>::empty());
    while i < v.len()
        invariant
            i <= v@.len(),
            all == relocation_bits(v@),
            relocation_bits(out@) == sorted_by_offset(all.take(i as int)),
        decreases v@.len() - i,
    {
        let x = v[i];
        let ghost o = relocation_bits(out@);
        let mut p = out.len();
        proof {
            assert(o.take(p as int) =~= o);
            assert(o.skip(p as int) =~= Seq::<u64>::empty());
        }
        while p > 0 && out[p - 1].offset() > x.offset()
            invariant
                p <= out@.len(),
                o == relocation_bits(out@),
                insert_by_offset(o, x@) == insert_by_offset(o.take(p as int), x@) + o.skip(p as int),
                forall|k: int| p <= k < o.len() ==> offset_field(#[trigger] o[k]) > offset_field(x@),
            decreases p,
        {
            proof {
                let t = o.take(p as int);
                assert(t.last() == o[p - 1]);
                assert(t.drop_last() =~= o.take(p - 1));
                assert(o.skip(p - 1) =~= seq![o[p - 1]] + o.skip(p as int));
                assert(insert_by_offset(t, x@) == insert_by_offset(o.take(p - 1), x@).push(o[p - 1]));
                assert(insert_by_offset(o.take(p - 1), x@).push(o[p - 1]) + o.skip(p as int)
                    =~= insert_by_offset(o.take(p - 1), x@) + o.skip(p - 1));
            }
            p = p - 1;
        }
        proof {
            let t = o.take(p as int);
            if p > 0 {
                assert(t.last() == o[p - 1]);
                assert(insert_by_offset(t, x@) == t.push(x@));
            } else {
                assert(t =~= Seq::<u64>::empty());
                assert(insert_by_offset(t, x@) == seq![x@]);
            }
        }
        out.insert(p, x);
        proof {
            assert(relocation_bits(out@) =~= o.take(p as int) + seq![x@] + o.skip(p as int));
            assert(insert_by_offset(o, x@) =~= o.take(p as int) + seq![x@] + o.skip(p as int));
            assert(all.take(i as int + 1).drop_last() =~= all.take(i as int));
            assert(all.take(i as int + 1).last() == x@);
        }
        i = i + 1;
    }
    proof {
        assert(all.take(v@.len() as int) =~= all);
    }
    out
}

/// Whether the two strings hold the same characters.
fn strs_equal(a: &str, b: &str) -> (r: bool)
    ensures
        r == (a@ == b@),
{
    let n = a.unicode_len();
    if n != b.unicode_len() {
        return false;
    }
    let mut i: usize = 0;
    while i < n
        invariant
            n == a@.len(),
            n == b@.len(),
            i <= n,
            forall|k: int| 0 <= k < i ==> a@[k] == b@[k],
        decreases n - i,
    {
        if a.get_char(i) != b.get_char(i) {
            return false;
        }
        i = i + 1;
    }
    assert(a@ =~= b@);
    true
}

/// Whether `s` is the metadata symbol of family `name`.
fn is_meta_name(s: &str, name: &str) -> (r: bool)
    ensures
        r == (s@ == stencil_prefix() + name@ + meta_suffix()),
{
    let n = s.unicode_len();
    let m = name.unicode_len();
    let ghost want = stencil_prefix() + name@ + meta_suffix();
    if m > n || n - m != 19 {
        return false;
    }
    if !has_prefix_at(s, 0, &['_', '_', 'p', 'a', 't', 'c', 'h', 'o', 'u', 'l', 'y', '_', '_']) {
        proof {
            if s@ == want {
                assert(s@.skip(0).take(13) =~= stencil_prefix());
            }
        }
        return false;
    }
    let mut i: usize = 0;
    while i < m
        invariant
            n == s@.len(),
            m == name@.len(),
            n == m + 19,
            i <= m,
            want == stencil_prefix() + name@ + meta_suffix(),
            forall|k: int| 0 <= k < i ==> s@[13 + k] == name@[k],
        decreases m - i,
    {
        if s.get_char(13 + i) != name.get_char(i) {
            proof {
                if s@ == want {
                    assert(stencil_prefix().len() == 13);
                    assert((stencil_prefix() + name@)[13 + i] == name@[i as int]);
                    assert(want[13 + i] == name@[i as int]);
                }
            }
            return false;
        }
        i = i + 1;
    }
    if !has_prefix_at(s, 13 + m, &['_', '_', 'm', 'e', 't', 'a']) {
        proof {
            if s@ == want {
                assert(s@.skip(13 + m).take(6) =~= meta_suffix());
            }
        }
        return false;
    }
    proof {
        assert(s@.skip(0).take(13) == stencil_prefix());
        assert(s@.skip(13 + m).take(6) == meta_suffix());
        assert forall|k: int| 0 <= k < n implies s@[k] == want[k] by {
            if k < 13 {
                assert(s@[k] == s@.skip(0).take(13)[k]);
            } else if k < 13 + m {
                assert(s@[k] == name@[k - 13]);
            } else {
                assert(s@[k] == s@.skip(13 + m).take(6)[k - 13 - m]);
            }
        }
        assert(s@ =~= want);
    }
    true
}

/// The metadata of family `name` in the file (see `meta_of`).
fn find_meta(file: &Vec<ObjectSymbol>, name: &str) -> (r: Option<Metadata>)
    ensures
        r == meta_of(file@, name@),
{
    let n = file.len();
    let mut j: usize = 0;
    assert(file@.skip(0) =~= file@);
    while j < n
        invariant
            j <= n,
            n == file@.len(),
            meta_of(file@, name@) == meta_of(file@.skip(j as int), name@),
        decreases n - j,
    {
        let s = &file[j];
        proof {
            assert(file@.skip(j as int)[0] == file@[j as int]);
            assert(file@.skip(j as int).drop_first() =~= file@.skip(j as int + 1));
        }
        match &s.name {
            Some(nm) => {
                if is_meta_name(nm.as_str(), name) {
                    return match &s.data {
                        Some(d) => Metadata::unpack(d.as_slice()),
                        None => None,
                    };
                }
            },
            None => {},
        }
        j = j + 1;
    }
    None
}

/// The first family named `name` stays the first once more are added.
proof fn lemma_family_index_prefix(fams: Seq<(Seq<char>, BuilderView)>, name: Seq<char>, k: int)
    requires
        0 <= k <= fams.len(),
        family_index(fams.take(k), name) is Some,
    ensures
        family_index(fams, name) == family_index(fams.take(k), name),
    decreases fams.len() - k,
{
    if k < fams.len() {
        assert(fams.drop_last().take(k) =~= fams.take(k));
        lemma_family_index_prefix(fams.drop_last(), name, k);
    } else {
        assert(fams.take(k) =~= fams);
    }
}

/// The first family named `name` is named `name`.
proof fn lemma_family_index_found(fams: Seq<(Seq<char>, BuilderView)>, name: Seq<char>)
    ensures
        family_index(fams, name) matches Some(i) ==> 0 <= i < fams.len() && fams[i].0 == name,
    decreases fams.len(),
{
    if fams.len() > 0 {
        lemma_family_index_found(fams.drop_last(), name);
    }
}

/// The number of placements of a family, if a `usize` can count them.
fn family_len(m: Metadata) -> (r: Option<usize>)
    ensures
        r == (if power(m.max_regs as nat, (m.inputs + m.outputs) as nat) <= usize::MAX {
            Some(power(m.max_regs as nat, (m.inputs + m.outputs) as nat) as usize)
        } else {
            None
        }),
{
    let base = m.max_regs as usize;
    let n = m.inputs as usize + m.outputs as usize;
    let mut acc: usize = 1;
    let mut k: usize = 0;
    while k < n
        invariant
            k <= n,
            n == m.inputs + m.outputs,
            base == m.max_regs,
            acc == power(base as nat, k as nat),
        decreases n - k,
    {
        proof {
            assert(power(base as nat, (k + 1) as nat) == base * power(base as nat, k as nat));
        }
        match acc.checked_mul(base) {
            Some(x) => {
                proof {
                    assert(x == base * acc) by (nonlinear_arith)
                        requires
                            x == acc * base,
                    ;
                }
                acc = x;
            },
            None => {
                proof {
                    assert(acc * base == base * acc) by (nonlinear_arith);
                    crate::stencils::lemma_power_adds(base as nat, (k + 1) as nat, (n - k - 1) as nat);
                    assert((k + 1) as nat + (n - k - 1) as nat == n as nat);
                    crate::stencils::lemma_power_positive(base as nat, (n - k - 1) as nat);
                    let p1 = power(base as nat, (k + 1) as nat);
                    let p2 = power(base as nat, (n - k - 1) as nat);
                    assert(p1 <= p1 * p2) by (nonlinear_arith)
                        requires
                            p2 >= 1,
                    ;
                }
                return None;
            },
        }
        k = k + 1;
    }
    Some(acc)
}

/// The families of the extraction so far, by name, with their builders.
struct Collector {
    lib_name: Option<String>,
    all_code: Vec<u8>,
    max_regs: Option<u16>,
    families: Vec<(String, StencilFamilyBuilder)>,
}

impl View for Collector {
    type V = ExtractState;

    closed spec fn view(&self) -> ExtractState {
        ExtractState {
            lib_name: match self.lib_name {
                Some(s) => Some(s@),
                None => None,
            },
            code: self.all_code@,
            max_regs: self.max_regs,
            families: self.families@.map_values(|p: (String, StencilFamilyBuilder)| (p.0@, p.1@)),
        }
    }
}

impl Collector {
    closed spec fn wf(&self) -> bool {
        forall|i: int| 0 <= i < self.families@.len() ==> (#[trigger] self.families@[i]).1@.wf()
    }

    /// The first family named `name` (see `family_index`).
    fn find_family(&self, name: &str) -> (r: Option<usize>)
        ensures
            match family_index(self@.families, name@) {
                Some(i) => r == Some(i as usize),
                None => r is None,
            },
            r matches Some(i) ==> i < self.families@.len() && family_index(self@.families, name@) == Some(
                i as int,
            ),
    {
        let ghost fams = self@.families;
        let n = self.families.len();
        let mut i: usize = 0;
        while i < n
            invariant
                i <= n,
                n == fams.len(),
                fams == self@.families,
                family_index(fams.take(i as int), name@) is None,
            decreases n - i,
        {
            if strs_equal(self.families[i].0.as_str(), name) {
                proof {
                    assert(fams.take(i as int + 1).drop_last() =~= fams.take(i as int));
                    assert(fams.take(i as int + 1).last() == fams[i as int]);
                    lemma_family_index_prefix(fams, name@, i as int + 1);
                }
                return Some(i);
            }
            proof {
                assert(fams.take(i as int + 1).drop_last() =~= fams.take(i as int));
                assert(fams.take(i as int + 1).last() == fams[i as int]);
            }
            i = i + 1;
        }
        proof {
            assert(fams.take(n as int) =~= fams);
        }
        None
    }

    /// Appends a stencil's code.
    fn append_code(&mut self, code: &Vec<u8>)
        ensures
            final(self)@ == (ExtractState { code: old(self)@.code + code@, ..old(self)@ }),
            final(self).wf() == old(self).wf(),
    {
        let ghost c0 = self.all_code@;
        let mut i: usize = 0;
        while i < code.len()
            invariant
                i <= code@.len(),
                self.all_code@ == c0 + code@.take(i as int),
                self.lib_name == old(self).lib_name,
                self.max_regs == old(self).max_regs,
                self.families == old(self).families,
            decreases code@.len() - i,
        {
            self.all_code.push(code[i]);
            proof {
                assert(code@.take(i as int + 1) =~= code@.take(i as int).push(code@[i as int]));
            }
            i = i + 1;
        }
        proof {
            assert(code@.take(code@.len() as int) =~= code@);
            assert(self@.families =~= old(self)@.families);
        }
    }
}

} // verus!

verus! {

impl Collector {
    /// Handles one symbol of a file (see `symbol_step`).
    fn process_symbol(&mut self, file: &Vec<ObjectSymbol>, sym: &ObjectSymbol) -> (r: Result<(), ExtractError>)
        requires
            old(self).wf(),
            name_fits(*sym),
        ensures
            match symbol_step(old(self)@, file@, *sym) {
                Outcome::Next(s2) => r is Ok && final(self)@ == s2 && final(self).wf(),
                Outcome::Fail(k, nm) => r matches Err(e) && e.kind == k && e.stencil@ == nm,
            },
    {
        let ghost st = self@;
        match sym.class {
            SymbolClass::Other => {
                return Ok(());
            },
            SymbolClass::Data => {
                match (&sym.name, &sym.data) {
                    (Some(n), Some(d)) => {
                        if chars_equal(
                            n.as_str(),
                            &['_', '_', 'S', 'T', 'E', 'N', 'C', 'I', 'L', '_', 'A', 'P', 'I', '_', 'N', 'A', 'M', 'E'],
                        ) {
                            self.lib_name = Some(lossy_string(d.as_slice()));
                        }
                    },
                    _ => {},
                }
                return Ok(());
            },
            SymbolClass::Text => {},
        }
        let n = match &sym.name {
            Some(n) => n.as_str(),
            None => {
                return Ok(());
            },
        };
        if !has_prefix_at(n, 0, &['_', '_', 'p', 'a', 't', 'c', 'h', 'o', 'u', 'l', 'y', '_', '_']) {
            proof {
                assert(n@.skip(0) =~= n@);
            }
            return Ok(());
        }
        proof {
            assert(n@.skip(0) =~= n@);
        }
        let len = n.unicode_len();
        let rest = n.substring_char(13, len);
        proof {
            assert(rest@ =~= n@.skip(13));
        }
        if !name_parses_safely(rest) {
            return Err(ExtractError { kind: ExtractErrorKind::Halted(HaltReason::NegativeRegister), stencil: rest.to_owned() });
        }
        let (name, io) = match parse_name(rest) {
            Some(x) => x,
            None => {
                return Ok(());
            },
        };
        let code = match &sym.data {
            Some(d) => d,
            None => {
                return Ok(());
            },
        };
        let rels = match stencil_relocations(name, &sym.relocations) {
            Ok(Some(v)) => v,
            Ok(None) => {
                return Ok(());
            },
            Err(k) => {
                return Err(ExtractError { kind: k, stencil: name.to_owned() });
            },
        };
        let ghost ins = location_list_items(io.inputs);
        let ghost outs = location_list_items(io.outputs);
        let ghost rs = relocation_bits(rels@);
        proof {
            assert(parsed_name(n@.skip(13)) == Some((name@, ins, outs)));
            assert(relocs_from(name@, sym.relocations@, 0) == RelocOutcome::Keep(rs));
        }
        let rels = sort_by_offset(rels);
        let start = self.all_code.len();
        match self.find_family(name) {
            Some(i) => {
                proof {
                    assert(self.families@[i as int].1@.wf());
                }
                self.append_code(code);
                let end = self.all_code.len();
                let ghost mid = self.families@;
                proof {
                    let b = st.families[i as int].1;
                    assert(family_index(st.families, name@) == Some(i as int));
                    assert(self.families@[i as int].1@ == b);
                    assert(start == st.code.len() && end == st.code.len() + code@.len());
                }
                let res = self.families[i].1.add_stencil(start..end, io, rels.as_slice());
                match res {
                    Ok(()) => {
                        proof {
                            let s2 = self@;
                            lemma_family_index_found(st.families, name@);
                            assert forall|k: int| 0 <= k < s2.families.len() && k != i implies s2.families[k] == st.families[k] by {
                                assert(self.families@[k] == mid[k]);
                            }
                            assert(s2.families =~= st.families.update(i as int, (name@, s2.families[i as int].1)));
                            assert forall|k: int| 0 <= k < self.families@.len() implies (#[trigger] self.families@[k]).1@.wf() by {
                                if k != i {
                                    assert(self.families@[k].1@ == self@.families[k].1);
                                    assert(old(self).families@[k].1@ == old(self)@.families[k].1);
                                    assert(self@.families[k] == old(self)@.families[k]);
                                }
                            }
                        }
                        Ok(())
                    },
                    Err(e) => Err(ExtractError { kind: ExtractErrorKind::Build(e), stencil: name.to_owned() }),
                }
            },
            None => {
                let m = match find_meta(file, name) {
                    Some(m) => m,
                    None => {
                        return Err(ExtractError { kind: ExtractErrorKind::NoMeta, stencil: name.to_owned() });
                    },
                };
                match self.max_regs {
                    Some(x) => {
                        if x != m.max_regs {
                            return Err(
                                ExtractError { kind: ExtractErrorKind::MaxRegsMismatch, stencil: name.to_owned() },
                            );
                        }
                    },
                    None => {},
                }
                if family_len(m).is_none() {
                    return Err(ExtractError { kind: ExtractErrorKind::Halted(HaltReason::FamilyTooLarge), stencil: name.to_owned() });
                }
                let mut b = StencilFamilyBuilder::new(m);
                self.append_code(code);
                let end = self.all_code.len();
                let res = b.add_stencil(start..end, io, rels.as_slice());
                match res {
                    Ok(()) => {
                        self.max_regs = Some(m.max_regs);
                        self.families.push((name.to_owned(), b));
                        proof {
                            let s2 = self@;
                            assert(s2.families =~= st.families.push((name@, b@)));
                            assert forall|k: int| 0 <= k < self.families@.len() implies (#[trigger] self.families@[k]).1@.wf() by {
                                if k < old(self).families@.len() {
                                    assert(self.families@[k].1@ == self@.families[k].1);
                                    assert(old(self).families@[k].1@ == old(self)@.families[k].1);
                                    assert(self@.families[k] == old(self)@.families[k]);
                                }
                            }
                        }
                        Ok(())
                    },
                    Err(e) => Err(ExtractError { kind: ExtractErrorKind::Build(e), stencil: name.to_owned() }),
                }
            },
        }
    }
}

/// The assembled family of a builder.
pub open spec fn finalized(v: BuilderView, f: FamilyBuild) -> bool {
    &&& f.inputs == v.inputs
    &&& f.outputs == v.outputs
    &&& f.max_regs == v.max_regs
    &&& f.holes == v.holes
    &&& f.jumps == v.jumps
    &&& relocation_bits(f.relocation_data@) == v.data
    &&& f.stencils@ == v.stencils
}

/// Collects the stencil families from the symbols of a compiled stencils
/// crate's object files (see `extraction`), for files on which the build
/// goes on: no argument reads as register `-1`, no relocation targets
/// another stencil, no family is too large, and a symbol names the library.
pub fn extract_symbols(files: &Vec<ObjectFile>) -> (r: Result<Extracted, ExtractError>)
    requires
        names_fit(files@),
        !(extraction(files@) matches Outcome::Fail(ExtractErrorKind::Halted(_), _)),
    ensures
        extracted_as(extraction(files@), r),
{
    checked_extract_symbols(files)
}

/// Collects the stencil families from the symbols of a compiled stencils
/// crate's object files (see `extraction`); where the build cannot go on,
/// the error says why (`Halted`).
pub fn checked_extract_symbols(files: &Vec<ObjectFile>) -> (r: Result<Extracted, ExtractError>)
    requires
        names_fit(files@),
    ensures
        extracted_as(extraction(files@), r),
{
    match collect(files) {
        Ok(c) => finish(c),
        Err(e) => Err(e),
    }
}

/// The state after every symbol of every file, or the first error.
fn collect(files: &Vec<ObjectFile>) -> (r: Result<Collector, ExtractError>)
    requires
        names_fit(files@),
    ensures
        match run_files(initial_state(), files@, 0) {
            Outcome::Next(st) => r matches Ok(c) && c@ == st && c.wf(),
            Outcome::Fail(k, nm) => r matches Err(e) && e.kind == k && e.stencil@ == nm,
        },
{
    let mut c = Collector { lib_name: None, all_code: Vec::new(), max_regs: None, families: Vec::new() };
    proof {
        assert(c@.families =~= Seq::<(Seq<char>, BuilderView)>::empty());
        assert(c@ == initial_state());
    }
    let ghost total = run_files(initial_state(), files@, 0);
    let nf = files.len();
    let mut i: usize = 0;
    while i < nf
        invariant
            i <= nf,
            nf == files@.len(),
            names_fit(files@),
            c.wf(),
            total == run_files(initial_state(), files@, 0),
            total == run_files(c@, files@, i as int),
        decreases nf - i,
    {
        let syms = &files[i].symbols;
        let ns = syms.len();
        let mut j: usize = 0;
        while j < ns
            invariant
                i < nf,
                j <= ns,
                nf == files@.len(),
                ns == syms@.len(),
                syms@ == files@[i as int].symbols@,
                names_fit(files@),
                c.wf(),
                total == run_files(initial_state(), files@, 0),
                total == (match run_symbols(c@, syms@, j as int) {
                    Outcome::Next(s2) => run_files(s2, files@, i + 1),
                    o => o,
                }),
            decreases ns - j,
        {
            let ghost before = c@;
            proof {
                assert(name_fits(files@[i as int].symbols@[j as int]));
            }
            match c.process_symbol(syms, &syms[j]) {
                Ok(()) => {},
                Err(e) => {
                    proof {
                        assert(total == symbol_step(before, syms@, syms@[j as int]));
                    }
                    return Err(e);
                },
            }
            j = j + 1;
        }
        i = i + 1;
    }
    Ok(c)
}

/// The families once every symbol is read, or `NoLibName` when no symbol
/// named the library.
fn finish(c: Collector) -> (r: Result<Extracted, ExtractError>)
    requires
        c.wf(),
    ensures
        extracted_as(finished(c@), r),
{
    let lib_name = match c.lib_name {
        Some(n) => n,
        None => {
            return Err(ExtractError { kind: ExtractErrorKind::Halted(HaltReason::NoLibName), stencil: String::new() });
        },
    };
    let mut fams = c.families;
    let ghost sf = c@.families;
    let mut out: Vec<(String, FamilyBuild)> = Vec::new();
    while fams.len() > 0
        invariant
            out@.len() + fams@.len() == sf.len(),
            forall|k: int| 0 <= k < fams@.len() ==> (fams@[k].0@, fams@[k].1@) == sf[out@.len() + k],
            forall|k: int|
                0 <= k < out@.len() ==> (#[trigger] out@[k]).0@ == sf[k].0 && finalized(sf[k].1, out@[k].1),
        decreases fams@.len(),
    {
        let ghost f0 = fams@;
        let (name, b) = fams.remove(0);
        proof {
            assert((name@, b@) == sf[out@.len() as int]);
            assert forall|k: int| 0 <= k < fams@.len() implies (fams@[k].0@, fams@[k].1@) == sf[out@.len() + 1 + k] by {
                assert(fams@[k] == f0[k + 1]);
            }
        }
        let f = b.finalize();
        out.push((name, f));
    }
    Ok(Extracted { lib_name, all_code: c.all_code, max_regs: match c.max_regs { Some(m) => m as usize, None => 0 }, families: out })
}

/// Whether every symbol name is shorter than `list_limit` characters.
fn names_within(files: &Vec<ObjectFile>) -> (r: bool)
    ensures
        r == names_fit(files@),
{
    let limit: usize = (isize::MAX / 16) as usize;
    let nf = files.len();
    let mut i: usize = 0;
    while i < nf
        invariant
            i <= nf,
            nf == files@.len(),
            limit == crate::extract::list_limit(),
            forall|a: int, b: int|
                0 <= a < i && 0 <= b < files@[a].symbols@.len() ==> name_fits(#[trigger] files@[a].symbols@[b]),
        decreases nf - i,
    {
        let syms = &files[i].symbols;
        let ns = syms.len();
        let mut j: usize = 0;
        while j < ns
            invariant
                i < nf,
                j <= ns,
                nf == files@.len(),
                ns == syms@.len(),
                syms@ == files@[i as int].symbols@,
                limit == crate::extract::list_limit(),
                forall|a: int, b: int|
                    0 <= a < i && 0 <= b < files@[a].symbols@.len() ==> name_fits(#[trigger] files@[a].symbols@[b]),
                forall|b: int| 0 <= b < j ==> name_fits(#[trigger] files@[i as int].symbols@[b]),
            decreases ns - j,
        {
            match &syms[j].name {
                Some(n) => {
                    if n.as_str().unicode_len() >= limit {
                        assert(!name_fits(files@[i as int].symbols@[j as int]));
                        return false;
                    }
                },
                None => {},
            }
            j = j + 1;
        }
        i = i + 1;
    }
    true
}

/// What extracting from an archive comes to once the object files `fs`
/// are read from its members, up to the first one that could not be read
/// (`stop`): a name too long for this machine halts; then an error in the
/// files read comes first, then the read error, then the end of
/// extraction.
pub open spec fn archive_extracted(
    fs: Seq<ObjectFile>,
    stop: Option<String>,
    r: Result<Extracted, ExtractError>,
) -> bool {
    if !names_fit(fs) {
        r matches Err(e) && e.kind == ExtractErrorKind::Halted(HaltReason::CapacityOverflow)
    } else {
        match run_files(initial_state(), fs, 0) {
            Outcome::Next(st) => match stop {
                Some(m) => r matches Err(e) && e.kind == ExtractErrorKind::Read && e.stencil == m,
                None => extracted_as(finished(st), r),
            },
            other => extracted_as(other, r),
        }
    }
}

/// Extracts the stencil families from the bytes of a compiled stencils
/// crate's `.rlib`: the object files among its members (`*.o`) are read in
/// order and their symbols collected (see `extraction`). What the archive
/// and object reader reports stops the extraction as a `Read` error, after
/// the errors of the files read before it.
pub fn extract_archive(archive: &[u8]) -> (r: Result<Extracted, ExtractError>)
    ensures
        match archive_members(archive@) {
            Err(m) => r matches Err(e) && e.kind == ExtractErrorKind::Read && e.stencil == m,
            Ok(ms) => exists|fs: Seq<ObjectFile>, stop: Option<String>|
                #[trigger] reads_from(ms, 0, fs, stop) && archive_extracted(fs, stop, r),
        },
{
    let members = match read_archive(archive) {
        Ok(ms) => ms,
        Err(m) => {
            return Err(ExtractError { kind: ExtractErrorKind::Read, stencil: m });
        },
    };
    let ghost ms = members@;
    let (files, stop) = read_members(members);
    let r = if !names_within(&files) {
        Err(ExtractError { kind: ExtractErrorKind::Halted(HaltReason::CapacityOverflow), stencil: String::new() })
    } else {
        match collect(&files) {
            Err(e) => Err(e),
            Ok(c) => match stop {
                Some(m) => Err(ExtractError { kind: ExtractErrorKind::Read, stencil: m }),
                None => finish(c),
            },
        }
    };
    proof {
        match archive_members(archive@) {
            Ok(ms2) => {
                assert(ms2 == ms);
                assert(reads_from(ms2, 0, files@, stop) && archive_extracted(files@, stop, r));
            },
            Err(_) => {},
        }
    }
    r
}

} // verus!

verus! {

/// The entries' offsets never decrease.
pub open spec fn offsets_sorted(s: Seq<u64>) -> bool {
    forall|i: int, j: int| 0 <= i <= j < s.len() ==> offset_field(#[trigger] s[i]) <= offset_field(#[trigger] s[j])
}

proof fn lemma_insert_bounded(t: Seq<u64>, x: u64, b: u16)
    requires
        offset_field(x) <= b,
        forall|i: int| 0 <= i < t.len() ==> offset_field(#[trigger] t[i]) <= b,
    ensures
        forall|k: int| 0 <= k < insert_by_offset(t, x).len() ==> offset_field(#[trigger] insert_by_offset(t, x)[k]) <= b,
    decreases t.len(),
{
    if t.len() > 0 && offset_field(t.last()) > offset_field(x) {
        lemma_insert_bounded(t.drop_last(), x, b);
        let r = insert_by_offset(t.drop_last(), x);
        assert forall|k: int| 0 <= k < r.push(t.last()).len() implies offset_field(#[trigger] r.push(t.last())[k]) <= b by {
            if k < r.len() {
                assert(r.push(t.last())[k] == r[k]);
            }
        }
    }
}

proof fn lemma_insert_sorted(t: Seq<u64>, x: u64)
    requires
        offsets_sorted(t),
    ensures
        offsets_sorted(insert_by_offset(t, x)),
        insert_by_offset(t, x).to_multiset() == t.to_multiset().insert(x),
    decreases t.len(),
{
    broadcast use vstd::seq_lib::group_to_multiset_ensures;

    if t.len() == 0 {
        assert(seq![x] =~= Seq::<u64>::empty().push(x));
    } else if offset_field(t.last()) <= offset_field(x) {
    } else {
        let d = t.drop_last();
        assert(offsets_sorted(d)) by {
            assert forall|i: int, j: int| 0 <= i <= j < d.len() implies offset_field(#[trigger] d[i]) <= offset_field(
                #[trigger] d[j],
            ) by {
                assert(d[i] == t[i] && d[j] == t[j]);
            }
        }
        lemma_insert_sorted(d, x);
        let r = insert_by_offset(d, x);
        assert forall|i: int| 0 <= i < d.len() implies offset_field(#[trigger] d[i]) <= offset_field(t.last()) by {
            assert(d[i] == t[i]);
        }
        lemma_insert_bounded(d, x, offset_field(t.last()));
        let q = r.push(t.last());
        assert forall|i: int, j: int| 0 <= i <= j < q.len() implies offset_field(#[trigger] q[i]) <= offset_field(
            #[trigger] q[j],
        ) by {
            if j < r.len() {
                assert(q[i] == r[i] && q[j] == r[j]);
            } else if i < r.len() {
                assert(q[i] == r[i]);
            }
        }
        assert(t =~= d.push(t.last()));
    }
}

/// Sorting by offset gives entries whose offsets never decrease, and the
/// same entries as before.
pub proof fn lemma_sorted_by_offset(s: Seq<u64>)
    ensures
        offsets_sorted(sorted_by_offset(s)),
        sorted_by_offset(s).to_multiset() == s.to_multiset(),
    decreases s.len(),
{
    broadcast use vstd::seq_lib::group_to_multiset_ensures;

    if s.len() > 0 {
        lemma_sorted_by_offset(s.drop_last());
        lemma_insert_sorted(sorted_by_offset(s.drop_last()), s.last());
        assert(s =~= s.drop_last().push(s.last()));
    }
}

} // verus!
