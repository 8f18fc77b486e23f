//! An opened library: the absolute path it was resolved to, together with
//! the tables read from its bytes. Parsing the bytes is the ELF parser's
//! work and stands behind a trusted wrapper; everything downstream works on
//! the extracted `ElfData` alone.

use vstd::prelude::*;
use crate::elfdata::{DynEntry, ElfData, ElfDataV, SymEntry};
use crate::pathstr::{basename, basename_spec};

verus! {

/// What the ELF parser extracts from a byte image: `None` when the bytes do
/// not parse as ELF, otherwise the dynamic entries and dynamic symbols with
/// their string-table lookups. The result is a function of the bytes alone.
pub uninterp spec fn elf_tables_of(bytes: Seq<u8>) -> Option<ElfDataV>;

/// Relies on goblin's `Elf::parse` and `Strtab::get_at`: reads the dynamic
/// section as tag/value pairs, with the dynamic string table's entry at each
/// value, and the dynamic symbol table with the entry at each name offset.
/// Bytes goblin refuses yield `None`; a missing dynamic section yields no
/// dynamic entries; a lookup that misses the table or does not decode yields
/// `None` for that string.
#[verifier::external_body]
fn parse_elf_bytes(bytes: &Vec<u8>) -> (r: Option<ElfData>)
    ensures
        r is Some <==> elf_tables_of(bytes@) is Some,
        r is Some ==> r->0@ == elf_tables_of(bytes@)->0,
{
    let elf = match goblin::elf::Elf::parse(bytes) { Ok(e) => e, Err(_) => return None };
    let lookup = |off: usize| elf.dynstrtab.get_at(off).map(|s| s.to_string());
    let dyns = elf.dynamic.as_ref().map_or(Vec::new(), |d| {
        d.dyns.iter().map(|e| DynEntry { tag: e.d_tag, val: e.d_val, string: lookup(e.d_val as usize) }).collect()
    });
    let syms = elf.dynsyms.iter().map(|s| SymEntry {
        name: lookup(s.st_name), info: s.st_info, other: s.st_other, shndx: s.st_shndx,
    }).collect();
    Some(ElfData { dyns, syms })
}

/// A library the walker has opened: the path it was resolved to and the
/// tables read from its file.
#[derive(Debug)]
pub struct Library {
    pub path: String,
    pub data: ElfData,
}

impl Library {
    /// Couples a path with already-extracted tables; this is how callers that
    /// do not go through a file image build a `Library`.
    pub fn new(path: String, data: ElfData) -> (r: Self)
        ensures
            r.path == path,
            r.data == data,
    {
        Library { path, data }
    }

    /// Parses a file image read from `path`; `None` when the bytes do not
    /// parse as ELF.
    pub fn try_from_bytes(path: String, bytes: &Vec<u8>) -> (r: Option<Self>)
        ensures
            r is Some <==> elf_tables_of(bytes@) is Some,
            r is Some ==> r->0.path == path && r->0.data@ == elf_tables_of(bytes@)->0,
    {
        match parse_elf_bytes(bytes) {
            Some(data) => Some(Library { path, data }),
            None => None,
        }
    }

    /// The library's base-name: the final component of its path.
    pub fn get_name(&self) -> (r: String)
        ensures
            r@ == basename_spec(self.path@),
    {
        basename(self.path.as_str())
    }
}

} // verus!
