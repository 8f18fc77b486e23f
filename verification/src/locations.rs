//! Search methods and the ordered directory list they produce. A
//! `LibraryLocations` is built per dependent library by walking the method
//! list; probing it for a needed name is first-hit, with the existence
//! answers supplied by the caller of the walk.

use vstd::prelude::*;
use crate::pathstr::{path_join, path_join_spec, substitute_origin, substitute_origin_spec};
use crate::strutil::eq_str;
use crate::strutil::starts_with_str;

verus! {

/// Which search method contributed a directory; kept for diagnostics.
#[derive(PartialEq, Eq, Structural, Clone, Copy, Debug)]
pub enum OriginTag {
    RPath,
    RunPath,
    LdLibraryPath,
    LdConfig,
    Fixed,
}

/// One directory to probe, with the method that contributed it.
pub struct Location {
    pub dir: String,
    pub tag: OriginTag,
}

pub ghost struct LocationV {
    pub dir: Seq<char>,
    pub tag: OriginTag,
}

impl View for Location {
    type V = LocationV;

    open spec fn view(&self) -> LocationV {
        LocationV { dir: self.dir@, tag: self.tag }
    }
}

impl Clone for Location {
    fn clone(&self) -> (r: Self)
        ensures
            r@ == self@,
    {
        Location { dir: self.dir.clone(), tag: self.tag }
    }
}

/// The ordered list of directories a dependent's needed names are probed in.
pub struct LibraryLocations {
    pub entries: Vec<Location>,
}

impl View for LibraryLocations {
    type V = Seq<LocationV>;

    open spec fn view(&self) -> Seq<LocationV> {
        self.entries@.map_values(|l: Location| l@)
    }
}

/// The position of the first `true` in the sequence, or `-1` when there is
/// none.
pub open spec fn first_true(bs: Seq<bool>) -> int
    decreases bs.len(),
{
    if bs.len() == 0 {
        -1
    } else if bs[0] {
        0
    } else {
        let r = first_true(bs.drop_first());
        if r == -1 {
            -1
        } else {
            1 + r
        }
    }
}

pub proof fn lemma_first_true(bs: Seq<bool>)
    ensures
        -1 <= first_true(bs) < bs.len(),
        first_true(bs) == -1 ==> forall|k: int| 0 <= k < bs.len() ==> !bs[k],
        first_true(bs) >= 0 ==> first_true(bs) < bs.len() && bs[first_true(bs)],
        forall|k: int| 0 <= k < first_true(bs) ==> !bs[k],
    decreases bs.len(),
{
    if bs.len() == 0 {
    } else if bs[0] {
    } else {
        let t = bs.drop_first();
        lemma_first_true(t);
        if first_true(bs) == -1 {
            assert(first_true(t) == -1);
            assert forall|k: int| 0 <= k < bs.len() implies !bs[k] by {
                if k > 0 {
                    assert(!t[k - 1]);
                }
            }
        } else {
            assert(first_true(bs) == 1 + first_true(t));
            assert forall|k: int| 0 <= k < first_true(bs) implies !bs[k] by {
                if k > 0 {
                    assert(!t[k - 1]);
                }
            }
        }
    }
}

/// If nothing before `i` is `true` and `bs[i]` is, then `i` is the first.
pub proof fn lemma_first_true_at(bs: Seq<bool>, i: int)
    requires
        0 <= i < bs.len(),
        bs[i],
        forall|k: int| 0 <= k < i ==> !bs[k],
    ensures
        first_true(bs) == i,
    decreases i,
{
    if i == 0 {
    } else {
        assert(!bs[0]);
        let t = bs.drop_first();
        assert(forall|k: int| 0 <= k < i - 1 ==> t[k] == bs[k + 1]);
        lemma_first_true_at(t, i - 1);
    }
}

impl LibraryLocations {
    /// An empty location list.
    pub fn new() -> (r: Self)
        ensures
            r@ == Seq::<LocationV>::empty(),
    {
        let r = LibraryLocations { entries: Vec::new() };
        proof {
            assert(r@ =~= Seq::<LocationV>::empty());
        }
        r
    }

    /// A deep copy, entry for entry.
    pub fn duplicate(&self) -> (r: Self)
        ensures
            r@ == self@,
    {
        let mut entries: Vec<Location> = Vec::new();
        let mut i: usize = 0;
        while i < self.entries.len()
            invariant
                0 <= i <= self.entries.len(),
                entries@.map_values(|l: Location| l@) =~= self@.take(i as int),
            decreases self.entries.len() - i,
        {
            let ghost predeep = entries@.map_values(|l: Location| l@);
            let c = self.entries[i].clone();
            let ghost cv = c@;
            entries.push(c);
            proof {
                assert(entries@.map_values(|l: Location| l@) =~= predeep.push(cv));
                assert(self@.take(i + 1) =~= self@.take(i as int).push(self@[i as int]));
            }
            i += 1;
        }
        let r = LibraryLocations { entries };
        proof {
            assert(self@.take(self.entries.len() as int) =~= self@);
        }
        r
    }

    /// Appends one directory.
    pub fn push_dir(&mut self, dir: String, tag: OriginTag)
        ensures
            final(self)@ == old(self)@.push(LocationV { dir: dir@, tag }),
    {
        self.entries.push(Location { dir, tag });
        proof {
            assert(final(self)@ =~= old(self)@.push(LocationV { dir: dir@, tag }));
        }
    }

    /// Appends one search-path entry for each element, with every `$ORIGIN`
    /// replaced by the dependent's directory.
    pub fn extend_substituted(&mut self, entries: &Vec<String>, origin: &str, tag: OriginTag)
        ensures
            final(self)@ == old(self)@ + entries.deep_view().map_values(
                |e: Seq<char>| LocationV { dir: substitute_origin_spec(e, origin@), tag },
            ),
    {
        let ghost added = entries.deep_view().map_values(
            |e: Seq<char>| LocationV { dir: substitute_origin_spec(e, origin@), tag },
        );
        let mut i: usize = 0;
        proof {
            assert(self@ + added.take(0) =~= self@);
        }
        while i < entries.len()
            invariant
                0 <= i <= entries.len(),
                entries.deep_view().len() == entries.len(),
                added == entries.deep_view().map_values(
                    |e: Seq<char>| LocationV { dir: substitute_origin_spec(e, origin@), tag },
                ),
                self@ =~= old(self)@ + added.take(i as int),
            decreases entries.len() - i,
        {
            let dir = substitute_origin(entries[i].as_str(), origin);
            let ghost predeep = self@;
            let ghost dv = dir@;
            self.entries.push(Location { dir, tag });
            proof {
                assert(self@ =~= predeep.push(LocationV { dir: dv, tag }));
                assert(entries.deep_view()[i as int] == entries@[i as int]@);
                assert(added[i as int] == LocationV {
                    dir: substitute_origin_spec(entries.deep_view()[i as int], origin@),
                    tag,
                });
                assert(added.take(i + 1) =~= added.take(i as int).push(added[i as int]));
                assert(self@ =~= old(self)@ + added.take(i + 1));
            }
            i += 1;
        }
        proof {
            assert(added.take(entries.len() as int) =~= added);
        }
    }

    /// The candidate path for the needed name under each directory, in order.
    pub fn candidate_paths(&self, lib_name: &str) -> (r: Vec<String>)
        ensures
            r.deep_view().len() == self@.len(),
            forall|i: int| 0 <= i < self@.len() ==> r.deep_view()[i] == path_join_spec(
                self@[i].dir,
                lib_name@,
            ),
    {
        let mut r: Vec<String> = Vec::new();
        let mut i: usize = 0;
        while i < self.entries.len()
            invariant
                0 <= i <= self.entries.len(),
                r.deep_view().len() == i,
                forall|k: int| 0 <= k < i ==> r.deep_view()[k] == path_join_spec(
                    self@[k].dir,
                    lib_name@,
                ),
            decreases self.entries.len() - i,
        {
            let p = path_join(self.entries[i].dir.as_str(), lib_name);
            let ghost predeep = r.deep_view();
            r.push(p);
            proof {
                assert(r.deep_view() =~= predeep.push(p@));
            }
            i += 1;
        }
        r
    }

    /// First-hit probe: the first directory whose candidate path exists gives
    /// the resolution; `exists` answers, per directory in order, whether
    /// `dir/name` names an existing file.
    pub fn try_find_library(&self, lib_name: &str, exists: &Vec<bool>) -> (r: Option<String>)
        requires
            exists@.len() == self@.len(),
        ensures
            r is Some <==> first_true(exists@) >= 0,
            r is Some ==> r->0@ == path_join_spec(
                self@[first_true(exists@)].dir,
                lib_name@,
            ),
    {
        let mut i: usize = 0;
        while i < self.entries.len()
            invariant
                0 <= i <= self.entries.len(),
                exists@.len() == self@.len(),
                self@.len() == self.entries.len(),
                forall|k: int| 0 <= k < i ==> !exists@[k],
            decreases self.entries.len() - i,
        {
            if exists[i] {
                proof {
                    lemma_first_true_at(exists@, i as int);
                }
                return Some(path_join(self.entries[i].dir.as_str(), lib_name));
            }
            i += 1;
        }
        proof {
            lemma_first_true(exists@);
            if first_true(exists@) >= 0 {
                assert(exists@[first_true(exists@)]);
            }
        }
        None
    }
}

/// A search strategy: three context-sensitive methods that read the current
/// dependent's ELF data or the environment, and two static ones.
pub enum LibSearchMethod {
    RPath,
    RunPath,
    LDLibraryPath,
    LDConfig(String),
    Fixed(String),
}

pub ghost enum LibSearchMethodV {
    RPath,
    RunPath,
    LDLibraryPath,
    LDConfig(Seq<char>),
    Fixed(Seq<char>),
}

impl View for LibSearchMethod {
    type V = LibSearchMethodV;

    open spec fn view(&self) -> LibSearchMethodV {
        match self {
            LibSearchMethod::RPath => LibSearchMethodV::RPath,
            LibSearchMethod::RunPath => LibSearchMethodV::RunPath,
            LibSearchMethod::LDLibraryPath => LibSearchMethodV::LDLibraryPath,
            LibSearchMethod::LDConfig(p) => LibSearchMethodV::LDConfig(p@),
            LibSearchMethod::Fixed(p) => LibSearchMethodV::Fixed(p@),
        }
    }
}

impl DeepView for LibSearchMethod {
    type V = LibSearchMethodV;

    open spec fn deep_view(&self) -> LibSearchMethodV {
        self.view()
    }
}

/// The token naming the `RPath` method on the command line.
pub open spec fn tok_rpath() -> Seq<char> {
    seq!['r', 'p', 'a', 't', 'h']
}

/// The token naming the `RunPath` method.
pub open spec fn tok_runpath() -> Seq<char> {
    seq!['r', 'u', 'n', 'p', 'a', 't', 'h']
}

/// The token naming the `LDLibraryPath` method.
pub open spec fn tok_ld_library_path() -> Seq<char> {
    seq!['l', 'd', '_', 'l', 'i', 'b', 'r', 'a', 'r', 'y', '_', 'p', 'a', 't', 'h']
}

/// The prefix naming the `LDConfig` method, followed by the file's path.
pub open spec fn tok_ldconfig_prefix() -> Seq<char> {
    seq!['l', 'd', 'c', 'o', 'n', 'f', 'i', 'g', ':']
}

/// What each token parses to: the three fixed tokens name the
/// context-sensitive methods, the `ldconfig:` prefix carries the
/// configuration file's path, and any other string is a fixed directory.
pub open spec fn parse_method_spec(v: Seq<char>) -> LibSearchMethodV {
    if v == tok_rpath() {
        LibSearchMethodV::RPath
    } else if v == tok_runpath() {
        LibSearchMethodV::RunPath
    } else if v == tok_ld_library_path() {
        LibSearchMethodV::LDLibraryPath
    } else if v.len() >= tok_ldconfig_prefix().len() && v.take(
        tok_ldconfig_prefix().len() as int,
    ) == tok_ldconfig_prefix() {
        LibSearchMethodV::LDConfig(v.skip(tok_ldconfig_prefix().len() as int))
    } else {
        LibSearchMethodV::Fixed(v)
    }
}

impl LibSearchMethod {
    /// Parses a command-line token into the method it names.
    pub fn parse(s: &str) -> (r: Self)
        ensures
            r@ == parse_method_spec(s@),
    {
        proof {
            reveal_strlit("rpath");
            reveal_strlit("runpath");
            reveal_strlit("ld_library_path");
            reveal_strlit("ldconfig:");
            assert("rpath"@ =~= tok_rpath());
            assert("runpath"@ =~= tok_runpath());
            assert("ld_library_path"@ =~= tok_ld_library_path());
            assert("ldconfig:"@ =~= tok_ldconfig_prefix());
        }
        if eq_str(s, "rpath") {
            LibSearchMethod::RPath
        } else if eq_str(s, "runpath") {
            LibSearchMethod::RunPath
        } else if eq_str(s, "ld_library_path") {
            LibSearchMethod::LDLibraryPath
        } else if starts_with_str(s, "ldconfig:") {
            let len: usize = s.unicode_len();
            let rest = String::from_str(s.substring_char(9, len));
            proof {
                assert(s@.subrange(9, s@.len() as int) =~= s@.skip(9));
            }
            LibSearchMethod::LDConfig(rest)
        } else {
            LibSearchMethod::Fixed(String::from_str(s))
        }
    }
}

/// The error type of parsing a search method; never constructed, since every
/// string parses to some method.
pub enum NoError {
    Unreachable,
}

impl core::str::FromStr for LibSearchMethod {
    type Err = NoError;

    fn from_str(s: &str) -> Result<Self, NoError> {
        Ok(LibSearchMethod::parse(s))
    }
}

/// The methods GNU ld.so uses when nothing else is specified: `RPATH`,
/// `RUNPATH`, `LD_LIBRARY_PATH`, the loader configuration, then `/usr/lib`
/// and `/lib`.
pub fn gnuld_default_search_methods() -> (r: Vec<LibSearchMethod>)
    ensures
        r.deep_view() =~= seq![
            LibSearchMethodV::RPath,
            LibSearchMethodV::RunPath,
            LibSearchMethodV::LDLibraryPath,
            LibSearchMethodV::LDConfig(seq!['/', 'e', 't', 'c', '/', 'l', 'd', '.', 's', 'o', '.', 'c', 'o', 'n', 'f']),
            LibSearchMethodV::Fixed(seq!['/', 'u', 's', 'r', '/', 'l', 'i', 'b']),
            LibSearchMethodV::Fixed(seq!['/', 'l', 'i', 'b']),
        ],
{
    proof {
        reveal_strlit("/etc/ld.so.conf");
        reveal_strlit("/usr/lib");
        reveal_strlit("/lib");
    }
    let mut r: Vec<LibSearchMethod> = Vec::new();
    r.push(LibSearchMethod::RPath);
    r.push(LibSearchMethod::RunPath);
    r.push(LibSearchMethod::LDLibraryPath);
    r.push(LibSearchMethod::LDConfig(String::from_str("/etc/ld.so.conf")));
    r.push(LibSearchMethod::Fixed(String::from_str("/usr/lib")));
    r.push(LibSearchMethod::Fixed(String::from_str("/lib")));
    proof {
        assert("/etc/ld.so.conf"@ =~= seq![
            '/', 'e', 't', 'c', '/', 'l', 'd', '.', 's', 'o', '.', 'c', 'o', 'n', 'f',
        ]);
        assert("/usr/lib"@ =~= seq!['/', 'u', 's', 'r', '/', 'l', 'i', 'b']);
        assert("/lib"@ =~= seq!['/', 'l', 'i', 'b']);
        assert forall|k: int| 0 <= k < r@.len() implies r.deep_view()[k] == r@[k].deep_view() by {}
    }
    r
}

/// The label under which each origin tag is printed.
pub open spec fn tag_label(t: OriginTag) -> Seq<char> {
    match t {
        OriginTag::RPath => seq!['r', 'p', 'a', 't', 'h'],
        OriginTag::RunPath => seq!['r', 'u', 'n', 'p', 'a', 't', 'h'],
        OriginTag::LdLibraryPath => seq![
            'L', 'D', '_', 'L', 'I', 'B', 'R', 'A', 'R', 'Y', '_', 'P', 'A', 'T', 'H',
        ],
        OriginTag::LdConfig => seq!['l', 'd', 'c', 'o', 'n', 'f', 'i', 'g'],
        OriginTag::Fixed => seq!['f', 'i', 'x', 'e', 'd'],
    }
}

/// A string wrapped in double quotes, as paths are printed.
pub open spec fn quoted(s: Seq<char>) -> Seq<char> {
    seq!['"'] + s + seq!['"']
}

/// One printed line of a location list: a tab, the quoted directory, and
/// the parenthesised origin label.
pub open spec fn loc_line(l: LocationV) -> Seq<char> {
    seq!['\t'] + quoted(l.dir) + seq![' ', '('] + tag_label(l.tag) + seq![')', '\n']
}

/// The concatenated lines of a location list.
pub open spec fn loc_lines(locs: Seq<LocationV>) -> Seq<char>
    decreases locs.len(),
{
    if locs.len() == 0 {
        Seq::<char>::empty()
    } else {
        loc_lines(locs.drop_last()) + loc_line(locs.last())
    }
}

/// How a location list is printed: a bracket, one line per directory with
/// its origin, and a closing bracket.
pub open spec fn locations_display(locs: Seq<LocationV>) -> Seq<char> {
    seq!['[', '\n'] + loc_lines(locs) + seq![']', '\n']
}

impl OriginTag {
    /// The tag's printed label.
    pub fn label(&self) -> (r: &'static str)
        ensures
            r@ == tag_label(*self),
    {
        match self {
            OriginTag::RPath => {
                let r = "rpath";
                proof {
                    reveal_strlit("rpath");
                    assert(r@ =~= tag_label(OriginTag::RPath));
                }
                r
            },
            OriginTag::RunPath => {
                let r = "runpath";
                proof {
                    reveal_strlit("runpath");
                    assert(r@ =~= tag_label(OriginTag::RunPath));
                }
                r
            },
            OriginTag::LdLibraryPath => {
                let r = "LD_LIBRARY_PATH";
                proof {
                    reveal_strlit("LD_LIBRARY_PATH");
                    assert(r@ =~= tag_label(OriginTag::LdLibraryPath));
                }
                r
            },
            OriginTag::LdConfig => {
                let r = "ldconfig";
                proof {
                    reveal_strlit("ldconfig");
                    assert(r@ =~= tag_label(OriginTag::LdConfig));
                }
                r
            },
            OriginTag::Fixed => {
                let r = "fixed";
                proof {
                    reveal_strlit("fixed");
                    assert(r@ =~= tag_label(OriginTag::Fixed));
                }
                r
            },
        }
    }
}

impl LibraryLocations {
    /// Renders the list as it is printed in diagnostics: one line per
    /// directory with its origin tag.
    pub fn to_display_string(&self) -> (r: String)
        ensures
            r@ == locations_display(self@),
    {
        let mut r = String::new();
        r.append("[\n");
        proof {
            reveal_strlit("[\n");
            assert("[\n"@ =~= seq!['[', '\n']);
            assert(r@ == seq!['[', '\n'] + loc_lines(self@.take(0))) by {
                assert(loc_lines(self@.take(0)) =~= Seq::<char>::empty());
                assert(r@ =~= seq!['[', '\n'] + Seq::<char>::empty());
            }
        }
        let mut i: usize = 0;
        while i < self.entries.len()
            invariant
                0 <= i <= self.entries.len(),
                self@.len() == self.entries.len(),
                r@ == seq!['[', '\n'] + loc_lines(self@.take(i as int)),
            decreases self.entries.len() - i,
        {
            r.append("\t\"");
            r.append(self.entries[i].dir.as_str());
            r.append("\" (");
            r.append(self.entries[i].tag.label());
            r.append(")\n");
            proof {
                reveal_strlit("\t\"");
                reveal_strlit("\" (");
                reveal_strlit(")\n");
                assert("\t\""@ =~= seq!['\t', '"']);
                assert("\" ("@ =~= seq!['"', ' ', '(']);
                assert(")\n"@ =~= seq![')', '\n']);
                assert(self@.take(i + 1).drop_last() =~= self@.take(i as int));
                assert(self@.take(i + 1).last() == self@[i as int]);
                assert(r@ =~= seq!['[', '\n'] + loc_lines(self@.take(i + 1)));
            }
            i += 1;
        }
        r.append("]\n");
        proof {
            reveal_strlit("]\n");
            assert("]\n"@ =~= seq![']', '\n']);
            assert(self@.take(self.entries.len() as int) =~= self@);
            assert(r@ =~= locations_display(self@));
        }
        r
    }
}

} // verus!