//! Reading a compiled stencils crate's `.rlib`: its members, the object
//! files among them (named `*.o`), and their symbols and relocations, which
//! are then collected into stencil families.
use vstd::prelude::*;

use object::{
    Object as _, ObjectSection as _, ObjectSymbol as _, RelocationEncoding, RelocationKind, RelocationTarget,
    SectionIndex, SymbolIndex, SymbolKind,
};

use crate::extract::{ObjectEncoding, ObjectKind};
use crate::objects::{ObjectFile, ObjectRelocation, ObjectSymbol, SymbolClass, TargetSymbol};

verus! {

/// A member of an archive: its name, and its data or why it could not be
/// read.
pub struct ArchiveMember {
    pub name: Vec<u8>,
    pub data: Result<Vec<u8>, String>,
}

/// A symbol as an object file's symbol table gives it: what it is, its name
/// when it reads as UTF-8, the section it is defined in, and its address
/// and size.
pub struct SymbolFacts {
    pub class: SymbolClass,
    pub name: Option<String>,
    pub section: Option<usize>,
    pub address: u64,
    pub size: u64,
}

/// A relocation of a section as the object file gives it: where it is, the
/// index of the symbol it is against (if it is against one), and how it is
/// written.
pub struct RelocationFacts {
    pub offset: u64,
    pub symbol: Option<usize>,
    pub encoding: ObjectEncoding,
    pub kind: ObjectKind,
    pub size: u8,
    pub addend: i64,
}

/// A symbol a relocation is against: whether it is defined in the object
/// file, and its name when it reads as UTF-8.
pub struct TargetFacts {
    pub defined: bool,
    pub name: Option<String>,
}

/// What `ArchiveFile::parse` and its member iterator read from an archive:
/// each member, up to and including the first one that cannot be read,
/// with the data `ArchiveMember::data` gives; or why the archive cannot be
/// read.
pub uninterp spec fn archive_members(archive: Seq<u8>) -> Result<Seq<Result<ArchiveMember, String>>, String>;

/// What `object::File::parse` and its symbol iterator read from an object
/// file: its symbols in order, or why it cannot be read.
pub uninterp spec fn object_symbols(data: Seq<u8>) -> Result<Seq<SymbolFacts>, String>;

/// The bytes `Section::data_range` gives for a symbol's address and size in
/// a section of an object file, if it gives some.
pub uninterp spec fn symbol_bytes(data: Seq<u8>, section: usize, address: u64, size: u64) -> Option<Seq<u8>>;

/// The relocations `Section::relocations` gives for a section of an object
/// file, in order.
pub uninterp spec fn section_relocations(data: Seq<u8>, section: usize) -> Seq<RelocationFacts>;

/// The symbol `File::symbol_by_index` gives for an index of an object file,
/// if there is one.
pub uninterp spec fn relocation_target(data: Seq<u8>, symbol: usize) -> Option<TargetFacts>;

/// The members of an archive, read with `object`'s `ArchiveFile::parse`,
/// `members` and each member's `name` and `data`. Reader errors come as
/// their messages. What is read is named, not stated.
#[verifier::external_body]
pub(crate) fn read_archive(archive: &[u8]) -> (r: Result<Vec<Result<ArchiveMember, String>>, String>)
    ensures
        archive_members(archive@) == match r {
            Ok(v) => Ok::<Seq<Result<ArchiveMember, String>>, String>(v@),
            Err(e) => Err(e),
        },
{
    let ar = object::read::archive::ArchiveFile::parse(archive).map_err(|e| e.to_string())?;
    let mut out = Vec::new();
    for m in ar.members() {
        out.push(m.map_err(|e| e.to_string()).map(|m| ArchiveMember {
            name: m.name().to_vec(),
            data: m.data(archive).map(|d| d.to_vec()).map_err(|e| e.to_string()),
        }));
    }
    Ok(out)
}

/// The symbols of an object file, read with `object::File::parse` and
/// `symbols`, each with its kind (text, data or another), `name`,
/// `section_index`, `address` and `size`. What is read is named, not
/// stated.
#[verifier::external_body]
fn read_object_symbols(data: &[u8]) -> (r: Result<Vec<SymbolFacts>, String>)
    ensures
        object_symbols(data@) == match r {
            Ok(v) => Ok::<Seq<SymbolFacts>, String>(v@),
            Err(e) => Err(e),
        },
{
    let file = object::File::parse(data).map_err(|e| e.to_string())?;
    let mut out = Vec::new();
    for s in file.symbols() {
        let class = match s.kind() {
            SymbolKind::Text => SymbolClass::Text,
            SymbolKind::Data => SymbolClass::Data,
            _ => SymbolClass::Other,
        };
        let name = s.name().ok().map(str::to_string);
        let section = s.section_index().map(|i| i.0);
        out.push(SymbolFacts { class, name, section, address: s.address(), size: s.size() });
    }
    Ok(out)
}

/// A symbol's bytes in its section: `Section::data_range` for its address
/// and size, where the file, the section and the range can be read. What
/// it gives is named, not stated.
#[verifier::external_body]
fn read_symbol_bytes(data: &[u8], section: usize, address: u64, size: u64) -> (r: Option<Vec<u8>>)
    ensures
        symbol_bytes(data@, section, address, size) == match r {
            Some(v) => Some(v@),
            None => None::<Seq<u8>>,
        },
{
    let file = object::File::parse(data).ok()?;
    let section = file.section_by_index(SectionIndex(section)).ok()?;
    section.data_range(address, size).ok().flatten().map(|d| d.to_vec())
}

/// The relocations of a section: `Section::relocations`, each with its
/// offset, the index of the symbol it is against, its encoding and kind
/// (as far as stencils tell them apart), size and addend; none where the
/// file or section cannot be read. What it gives is named, not stated.
#[verifier::external_body]
fn read_section_relocations(data: &[u8], section: usize) -> (r: Vec<RelocationFacts>)
    ensures
        r@ == section_relocations(data@, section),
{
    let Ok(file) = object::File::parse(data) else { return Vec::new() };
    let Ok(section) = file.section_by_index(SectionIndex(section)) else { return Vec::new() };
    section.relocations().map(|(offset, r)| RelocationFacts {
        offset,
        symbol: match r.target() { RelocationTarget::Symbol(i) => Some(i.0), _ => None },
        encoding: match r.encoding() { RelocationEncoding::Generic => ObjectEncoding::Generic, RelocationEncoding::X86Signed => ObjectEncoding::X86Signed, _ => ObjectEncoding::Other },
        kind: match r.kind() { RelocationKind::Absolute => ObjectKind::Absolute, RelocationKind::Relative => ObjectKind::Relative, RelocationKind::PltRelative => ObjectKind::PltRelative, _ => ObjectKind::Other },
        size: r.size(),
        addend: r.addend(),
    }).collect()
}

/// The symbol a relocation is against: `File::symbol_by_index`, whether it
/// has a `section_index`, and its `name`; none where the file or symbol
/// cannot be read. What it gives is named, not stated.
#[verifier::external_body]
fn read_relocation_target(data: &[u8], symbol: usize) -> (r: Option<TargetFacts>)
    ensures
        r == relocation_target(data@, symbol),
{
    let file = object::File::parse(data).ok()?;
    let s = file.symbol_by_index(SymbolIndex(symbol)).ok()?;
    Some(TargetFacts { defined: s.section_index().is_some(), name: s.name().ok().map(str::to_string) })
}

/// The library's form of a relocation the object file `data` gives: what
/// it is against is skipped unless it is a readable symbol, which is either
/// defined in the file or undefined and named.
pub open spec fn relocation_read(data: Seq<u8>, f: RelocationFacts, r: ObjectRelocation) -> bool {
    &&& r.offset == f.offset
    &&& r.encoding == f.encoding
    &&& r.kind == f.kind
    &&& r.size == f.size
    &&& r.addend == f.addend
    &&& match f.symbol {
        None => r.target is Skip,
        Some(i) => match relocation_target(data, i) {
            None => r.target is Skip,
            Some(t) => if t.defined {
                r.target is Defined
            } else {
                match t.name {
                    Some(n) => r.target == TargetSymbol::Undefined(n),
                    None => r.target is Skip,
                }
            },
        },
    }
}

/// The bytes of an optional buffer.
pub open spec fn bytes_of(o: Option<Vec<u8>>) -> Option<Seq<u8>> {
    match o {
        Some(v) => Some(v@),
        None => None,
    }
}

/// The library's form of a symbol the object file `data` gives: its class
/// and name, its bytes when it is defined in a section, and, for a text
/// symbol with bytes, the relocations of its section.
pub open spec fn symbol_read(data: Seq<u8>, f: SymbolFacts, s: ObjectSymbol) -> bool {
    &&& s.class == f.class
    &&& s.name == f.name
    &&& bytes_of(s.data) == match f.section {
        Some(i) => symbol_bytes(data, i, f.address, f.size),
        None => None,
    }
    &&& if f.class == SymbolClass::Text && s.data is Some {
        let rs = section_relocations(data, f.section->0);
        &&& s.relocations@.len() == rs.len()
        &&& forall|k: int| 0 <= k < rs.len() ==> relocation_read(data, rs[k], #[trigger] s.relocations@[k])
    } else {
        s.relocations@.len() == 0
    }
}

/// The library's form of the object file `data`, whose symbol table gives
/// `facts`.
pub open spec fn object_read(data: Seq<u8>, facts: Seq<SymbolFacts>, f: ObjectFile) -> bool {
    &&& f.symbols@.len() == facts.len()
    &&& forall|k: int| 0 <= k < facts.len() ==> symbol_read(data, facts[k], #[trigger] f.symbols@[k])
}

fn object_relocation(data: &[u8], f: RelocationFacts) -> (r: ObjectRelocation)
    ensures
        relocation_read(data@, f, r),
{
    let target = match f.symbol {
        None => TargetSymbol::Skip,
        Some(i) => match read_relocation_target(data, i) {
            None => TargetSymbol::Skip,
            Some(t) => if t.defined {
                TargetSymbol::Defined
            } else {
                match t.name {
                    Some(n) => TargetSymbol::Undefined(n),
                    None => TargetSymbol::Skip,
                }
            },
        },
    };
    ObjectRelocation {
        offset: f.offset,
        target,
        encoding: f.encoding,
        kind: f.kind,
        size: f.size,
        addend: f.addend,
    }
}

fn object_symbol(data: &[u8], f: SymbolFacts) -> (r: ObjectSymbol)
    ensures
        symbol_read(data@, f, r),
{
    let bytes = match f.section {
        Some(i) => read_symbol_bytes(data, i, f.address, f.size),
        None => None,
    };
    let mut relocations: Vec<ObjectRelocation> = Vec::new();
    if f.class == SymbolClass::Text && bytes.is_some() {
        let section = match f.section {
            Some(i) => i,
            None => 0,
        };
        let mut rs = read_section_relocations(data, section);
        let ghost all = rs@;
        let n = rs.len();
        while rs.len() > 0
            invariant
                n == all.len(),
                relocations@.len() + rs@.len() == n,
                forall|k: int| 0 <= k < rs@.len() ==> rs@[k] == all[relocations@.len() + k],
                forall|k: int|
                    0 <= k < relocations@.len() ==> relocation_read(data@, all[k], #[trigger] relocations@[k]),
            decreases rs@.len(),
        {
            let ghost before = rs@;
            let f0 = rs.remove(0);
            proof {
                assert(f0 == all[relocations@.len() as int]);
                assert forall|k: int| 0 <= k < rs@.len() implies rs@[k] == all[relocations@.len() + 1 + k] by {
                    assert(rs@[k] == before[k + 1]);
                }
            }
            relocations.push(object_relocation(data, f0));
        }
    }
    ObjectSymbol { class: f.class, name: f.name, data: bytes, relocations }
}

/// Reads an object file into the library's form: each symbol of its symbol
/// table with its bytes and, for text symbols, its section's relocations;
/// or what kept the file from being read.
pub fn read_object(data: &[u8]) -> (r: Result<ObjectFile, String>)
    ensures
        match object_symbols(data@) {
            Ok(facts) => r matches Ok(f) && object_read(data@, facts, f),
            Err(e) => r == Err::<ObjectFile, String>(e),
        },
{
    let mut facts = match read_object_symbols(data) {
        Ok(v) => v,
        Err(e) => {
            return Err(e);
        },
    };
    let ghost all = facts@;
    let n = facts.len();
    let mut symbols: Vec<ObjectSymbol> = Vec::new();
    while facts.len() > 0
        invariant
            n == all.len(),
            object_symbols(data@) == Ok::<Seq<SymbolFacts>, String>(all),
            symbols@.len() + facts@.len() == n,
            forall|k: int| 0 <= k < facts@.len() ==> facts@[k] == all[symbols@.len() + k],
            forall|k: int| 0 <= k < symbols@.len() ==> symbol_read(data@, all[k], #[trigger] symbols@[k]),
        decreases facts@.len(),
    {
        let ghost before = facts@;
        let f0 = facts.remove(0);
        proof {
            assert(f0 == all[symbols@.len() as int]);
            assert forall|k: int| 0 <= k < facts@.len() implies facts@[k] == all[symbols@.len() + 1 + k] by {
                assert(facts@[k] == before[k + 1]);
            }
        }
        symbols.push(object_symbol(data, f0));
    }
    Ok(ObjectFile { symbols })
}

/// Whether an archive member's name is that of an object file: it ends
/// with `.o`.
pub open spec fn is_object_name(name: Seq<u8>) -> bool {
    name.len() >= 2 && name[name.len() - 2] == 46u8 && name[name.len() - 1] == 111u8
}

/// Reading members `i..` of an archive whose members are `ms` gives the
/// object files `fs`, read from the members named `*.o` in order, and stops
/// at the first member, member's data or object file that cannot be read,
/// with what the reader reported (`stop`).
pub open spec fn reads_from(
    ms: Seq<Result<ArchiveMember, String>>,
    i: int,
    fs: Seq<ObjectFile>,
    stop: Option<String>,
) -> bool
    decreases ms.len() - i,
{
    if i < 0 || i >= ms.len() {
        fs.len() == 0 && stop is None
    } else {
        match ms[i] {
            Err(e) => fs.len() == 0 && stop == Some(e),
            Ok(m) => if !is_object_name(m.name@) {
                reads_from(ms, i + 1, fs, stop)
            } else {
                match m.data {
                    Err(e) => fs.len() == 0 && stop == Some(e),
                    Ok(d) => match object_symbols(d@) {
                        Err(e) => fs.len() == 0 && stop == Some(e),
                        Ok(facts) => fs.len() > 0 && object_read(d@, facts, fs[0]) && reads_from(
                            ms,
                            i + 1,
                            fs.drop_first(),
                            stop,
                        ),
                    },
                }
            },
        }
    }
}

/// Reads the object files of an archive's members, in order, up to the
/// first one that cannot be read (see `reads_from`).
pub(crate) fn read_members(members: Vec<Result<ArchiveMember, String>>) -> (r: (
    Vec<ObjectFile>,
    Option<String>,
))
    ensures
        reads_from(members@, 0, r.0@, r.1),
{
    let ghost all = members@;
    let n = members.len();
    let mut members = members;
    let mut files: Vec<ObjectFile> = Vec::new();
    let mut stop: Option<String> = None;
    while members.len() > 0 && stop.is_none()
        invariant
            n == all.len(),
            members@.len() <= n,
            forall|k: int| 0 <= k < members@.len() ==> members@[k] == all[n - members@.len() + k],
            stop is None ==> forall|fr: Seq<ObjectFile>, st: Option<String>|
                #[trigger] reads_from(all, n - members@.len(), fr, st) ==> reads_from(all, 0, files@ + fr, st),
            stop is Some ==> reads_from(all, 0, files@, stop),
        decreases members@.len(),
    {
        let ghost c = n - members@.len();
        let ghost before = members@;
        let ghost files0 = files@;
        let m0 = members.remove(0);
        proof {
            assert(m0 == all[c]);
            assert forall|k: int| 0 <= k < members@.len() implies members@[k] == all[n - members@.len() + k] by {
                assert(members@[k] == before[k + 1]);
            }
        }
        match m0 {
            Err(e) => {
                proof {
                    assert(reads_from(all, c, Seq::empty(), Some(e)));
                    assert(files@ + Seq::<ObjectFile>::empty() =~= files@);
                }
                stop = Some(e);
            },
            Ok(m) => {
                let len = m.name.len();
                let object = len >= 2 && m.name[len - 2] == 46u8 && m.name[len - 1] == 111u8;
                if !object {
                    proof {
                        assert forall|fr: Seq<ObjectFile>, st: Option<String>|
                            #[trigger] reads_from(all, c + 1, fr, st) implies reads_from(all, 0, files@ + fr, st) by {
                            assert(reads_from(all, c, fr, st));
                        }
                    }
                } else {
                    match m.data {
                        Err(e) => {
                            proof {
                                assert(reads_from(all, c, Seq::empty(), Some(e)));
                                assert(files@ + Seq::<ObjectFile>::empty() =~= files@);
                            }
                            stop = Some(e);
                        },
                        Ok(d) => match read_object(d.as_slice()) {
                            Err(e) => {
                                proof {
                                    assert(reads_from(all, c, Seq::empty(), Some(e)));
                                    assert(files@ + Seq::<ObjectFile>::empty() =~= files@);
                                }
                                stop = Some(e);
                            },
                            Ok(f) => {
                                files.push(f);
                                proof {
                                    assert forall|fr: Seq<ObjectFile>, st: Option<String>|
                                        #[trigger] reads_from(all, c + 1, fr, st) implies reads_from(
                                        all,
                                        0,
                                        files@ + fr,
                                        st,
                                    ) by {
                                        let g = seq![f] + fr;
                                        assert(g.drop_first() =~= fr);
                                        assert(g[0] == f);
                                        assert(reads_from(all, c, g, st));
                                        assert(files0 + g =~= files@ + fr);
                                    }
                                }
                            },
                        },
                    }
                }
            },
        }
    }
    proof {
        if stop is None {
            assert(members@.len() == 0);
            assert(reads_from(all, n - members@.len(), Seq::empty(), None));
            assert(files@ + Seq::<ObjectFile>::empty() =~= files@);
        }
    }
    (files, stop)
}

} // verus!
