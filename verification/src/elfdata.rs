//! The library's own view of the parts of an ELF file that the analysis
//! reads: the dynamic section as tag/value pairs, each with the dynamic
//! string-table lookup at its value, and the dynamic symbol table with the
//! lookup at each symbol's name offset. The `DynInfo` extraction walks the
//! dynamic entries and collects the `RPATH`, `RUNPATH` and `NEEDED` lists.

use vstd::prelude::*;
use crate::strutil::{split_on, split_str};

verus! {

/// Dynamic-section tag for a needed library name.
pub const DT_NEEDED: u64 = 1;

/// Dynamic-section tag for the deprecated search-path list.
pub const DT_RPATH: u64 = 15;

/// Dynamic-section tag for the modern search-path list.
pub const DT_RUNPATH: u64 = 29;

/// Symbol binding for global symbols (high four bits of `st_info`).
pub const BIND_GLOBAL: u8 = 1;

/// Symbol visibility for hidden symbols.
pub const VIS_HIDDEN: u8 = 2;

/// Section index of an undefined symbol.
pub const SHN_UNDEF: usize = 0;

/// One dynamic-section entry, with the dynamic string table's entry at its
/// value when that lookup succeeds and decodes.
#[derive(Debug)]
pub struct DynEntry {
    pub tag: u64,
    pub val: u64,
    pub string: Option<String>,
}

pub ghost struct DynEntryV {
    pub tag: u64,
    pub val: u64,
    pub string: Option<Seq<char>>,
}

impl View for DynEntry {
    type V = DynEntryV;

    open spec fn view(&self) -> DynEntryV {
        DynEntryV { tag: self.tag, val: self.val, string: self.string.deep_view() }
    }
}

/// One dynamic symbol, with the dynamic string table's entry at its name
/// offset when that lookup succeeds and decodes.
#[derive(Debug)]
pub struct SymEntry {
    pub name: Option<String>,
    pub info: u8,
    pub other: u8,
    pub shndx: usize,
}

pub ghost struct SymEntryV {
    pub name: Option<Seq<char>>,
    pub info: u8,
    pub other: u8,
    pub shndx: usize,
}

impl View for SymEntry {
    type V = SymEntryV;

    open spec fn view(&self) -> SymEntryV {
        SymEntryV {
            name: self.name.deep_view(),
            info: self.info,
            other: self.other,
            shndx: self.shndx,
        }
    }
}

/// Everything the analysis reads from one parsed ELF file. A file without a
/// dynamic section has no dynamic entries.
#[derive(Debug)]
pub struct ElfData {
    pub dyns: Vec<DynEntry>,
    pub syms: Vec<SymEntry>,
}

pub ghost struct ElfDataV {
    pub dyns: Seq<DynEntryV>,
    pub syms: Seq<SymEntryV>,
}

impl View for ElfData {
    type V = ElfDataV;

    open spec fn view(&self) -> ElfDataV {
        ElfDataV {
            dyns: self.dyns@.map_values(|d: DynEntry| d@),
            syms: self.syms@.map_values(|s: SymEntry| s@),
        }
    }
}

/// Whether a dynamic tag is one whose string the analysis needs.
pub open spec fn string_tag(tag: u64) -> bool {
    tag == DT_NEEDED || tag == DT_RPATH || tag == DT_RUNPATH
}

/// Whether every entry the analysis needs a string for has one.
pub open spec fn dyns_ok(dyns: Seq<DynEntryV>) -> bool {
    forall|i: int| 0 <= i < dyns.len() && string_tag(#[trigger] dyns[i].tag) ==> dyns[i].string is Some
}

/// The index of the first entry whose needed string is missing, when one is.
pub open spec fn first_bad_dyn(dyns: Seq<DynEntryV>) -> int
    decreases dyns.len(),
{
    if dyns.len() == 0 {
        0
    } else if string_tag(dyns[0].tag) && dyns[0].string is None {
        0
    } else {
        1 + first_bad_dyn(dyns.drop_first())
    }
}

/// The concatenated `RPATH` segments, in dynamic-section order, each colon
/// list split into its segments.
pub open spec fn rpaths_spec(dyns: Seq<DynEntryV>) -> Seq<Seq<char>>
    decreases dyns.len(),
{
    if dyns.len() == 0 {
        Seq::<Seq<char>>::empty()
    } else {
        let rest = rpaths_spec(dyns.drop_last());
        let d = dyns.last();
        if d.tag == DT_RPATH && d.string is Some {
            rest + split_on(d.string->0, ':')
        } else {
            rest
        }
    }
}

/// The concatenated `RUNPATH` segments, as for `rpaths_spec`.
pub open spec fn runpaths_spec(dyns: Seq<DynEntryV>) -> Seq<Seq<char>>
    decreases dyns.len(),
{
    if dyns.len() == 0 {
        Seq::<Seq<char>>::empty()
    } else {
        let rest = runpaths_spec(dyns.drop_last());
        let d = dyns.last();
        if d.tag == DT_RUNPATH && d.string is Some {
            rest + split_on(d.string->0, ':')
        } else {
            rest
        }
    }
}

/// The `NEEDED` names in dynamic-section order; an empty name is discarded.
pub open spec fn needed_spec(dyns: Seq<DynEntryV>) -> Seq<Seq<char>>
    decreases dyns.len(),
{
    if dyns.len() == 0 {
        Seq::<Seq<char>>::empty()
    } else {
        let rest = needed_spec(dyns.drop_last());
        let d = dyns.last();
        if d.tag == DT_NEEDED && d.string is Some && d.string->0.len() > 0 {
            rest.push(d.string->0)
        } else {
            rest
        }
    }
}

/// A dynamic entry the analysis needed a string for, but whose string-table
/// lookup failed or did not decode.
#[derive(Debug)]
pub struct DynStringError {
    pub tag: u64,
    pub val: u64,
}

/// The three ordered lists the walker takes from a library's dynamic section.
#[derive(Debug)]
pub struct DynInfo {
    pub rpath: Vec<String>,
    pub runpath: Vec<String>,
    pub libs: Vec<String>,
}

impl DynInfo {
    /// An empty `DynInfo`, as for a file without a dynamic section.
    pub fn new() -> (r: Self)
        ensures
            r.rpath.deep_view() == Seq::<Seq<char>>::empty(),
            r.runpath.deep_view() == Seq::<Seq<char>>::empty(),
            r.libs.deep_view() == Seq::<Seq<char>>::empty(),
    {
        let r = DynInfo { rpath: Vec::new(), runpath: Vec::new(), libs: Vec::new() };
        proof {
            assert(r.rpath.deep_view() =~= Seq::<Seq<char>>::empty());
            assert(r.runpath.deep_view() =~= Seq::<Seq<char>>::empty());
            assert(r.libs.deep_view() =~= Seq::<Seq<char>>::empty());
        }
        r
    }

    /// Walks the dynamic entries and collects the `RPATH`, `RUNPATH` and
    /// `NEEDED` lists, splitting the path lists on `:`. Fails on the first
    /// entry whose needed string is absent.
    pub fn from_data(data: &ElfData) -> (r: Result<DynInfo, DynStringError>)
        ensures
            r is Ok <==> dyns_ok(data@.dyns),
            r is Ok ==> r->Ok_0.rpath.deep_view() == rpaths_spec(data@.dyns),
            r is Ok ==> r->Ok_0.runpath.deep_view() == runpaths_spec(data@.dyns),
            r is Ok ==> r->Ok_0.libs.deep_view() == needed_spec(data@.dyns),
            r is Err ==> {
                let i = first_bad_dyn(data@.dyns);
                &&& 0 <= i < data@.dyns.len()
                &&& string_tag(data@.dyns[i].tag)
                &&& data@.dyns[i].string is None
                &&& r->Err_0.tag == data@.dyns[i].tag
                &&& r->Err_0.val == data@.dyns[i].val
            },
    {
        let mut info = DynInfo::new();
        let n = data.dyns.len();
        let mut i: usize = 0;
        proof {
            assert(data@.dyns.take(0) =~= Seq::<DynEntryV>::empty());
        }
        while i < n
            invariant
                0 <= i <= n,
                n == data.dyns.len(),
                data@.dyns.len() == n,
                dyns_ok(data@.dyns.take(i as int)),
                info.rpath.deep_view() == rpaths_spec(data@.dyns.take(i as int)),
                info.runpath.deep_view() == runpaths_spec(data@.dyns.take(i as int)),
                info.libs.deep_view() == needed_spec(data@.dyns.take(i as int)),
            decreases n - i,
        {
            let d = &data.dyns[i];
            proof {
                assert(data@.dyns[i as int] == d@);
                assert(data@.dyns.take(i + 1).drop_last() =~= data@.dyns.take(i as int));
                assert(data@.dyns.take(i + 1).last() == data@.dyns[i as int]);
            }
            if d.tag == DT_RPATH || d.tag == DT_RUNPATH || d.tag == DT_NEEDED {
                match &d.string {
                    Some(s) => {
                        if d.tag == DT_RPATH {
                            let mut segs = split_str(s.as_str(), ':');
                            let ghost pre = info.rpath.deep_view();
                            let ghost add = segs.deep_view();
                            proof {
                                assert(pre + add =~= rpaths_spec(data@.dyns.take(i + 1)));
                            }
                            info.rpath.append(&mut segs);
                            proof {
                                assert(info.rpath.deep_view() =~= pre + add);
                            }
                        } else if d.tag == DT_RUNPATH {
                            let mut segs = split_str(s.as_str(), ':');
                            let ghost pre = info.runpath.deep_view();
                            let ghost add = segs.deep_view();
                            proof {
                                assert(pre + add =~= runpaths_spec(data@.dyns.take(i + 1)));
                            }
                            info.runpath.append(&mut segs);
                            proof {
                                assert(info.runpath.deep_view() =~= pre + add);
                            }
                        } else {
                            if !s.as_str().is_empty() {
                                info.libs.push(s.clone());
                                proof {
                                    assert(info.libs.deep_view() =~= needed_spec(
                                        data@.dyns.take(i + 1),
                                    ));
                                }
                            } else {
                                proof {
                                    assert(info.libs.deep_view() =~= needed_spec(
                                        data@.dyns.take(i + 1),
                                    ));
                                }
                            }
                        }
                    },
                    None => {
                        proof {
                            lemma_first_bad_dyn(data@.dyns, i as int);
                        }
                        return Err(DynStringError { tag: d.tag, val: d.val });
                    },
                }
            } else {
                proof {
                    assert(info.rpath.deep_view() =~= rpaths_spec(data@.dyns.take(i + 1)));
                    assert(info.runpath.deep_view() =~= runpaths_spec(data@.dyns.take(i + 1)));
                    assert(info.libs.deep_view() =~= needed_spec(data@.dyns.take(i + 1)));
                }
            }
            i += 1;
        }
        proof {
            assert(data@.dyns.take(n as int) =~= data@.dyns);
        }
        Ok(info)
    }
}

/// If entries before `i` are all in order and entry `i` lacks its needed
/// string, then `i` is the first bad entry.
pub proof fn lemma_first_bad_dyn(dyns: Seq<DynEntryV>, i: int)
    requires
        0 <= i < dyns.len(),
        dyns_ok(dyns.take(i)),
        string_tag(dyns[i].tag),
        dyns[i].string is None,
    ensures
        first_bad_dyn(dyns) == i,
        !dyns_ok(dyns),
    decreases i,
{
    if i == 0 {
    } else {
        assert(dyns.take(i)[0] == dyns[0]);
        assert(!(string_tag(dyns[0].tag) && dyns[0].string is None));
        let t = dyns.drop_first();
        assert(t.take(i - 1) =~= dyns.take(i).drop_first());
        assert forall|k: int|
            0 <= k < t.take(i - 1).len() && string_tag(
                #[trigger] t.take(i - 1)[k].tag,
            ) implies t.take(i - 1)[k].string is Some by {
            assert(t.take(i - 1)[k] == dyns.take(i)[k + 1]);
        }
        lemma_first_bad_dyn(t, i - 1);
    }
}

} // verus!
