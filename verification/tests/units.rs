//! Unit tests of the string, path, configuration and report functions.

use elfdeps::conf::{parse_conf, ConfDirective};
use elfdeps::elfdata::{DynEntry, DynInfo, ElfData};
use elfdeps::library::Library;
use elfdeps::locations::{
    gnuld_default_search_methods, LibSearchMethod, LibraryLocations, Location, OriginTag,
};
use elfdeps::pathstr::{basename, parent_dir, path_join, substitute_origin};
use elfdeps::problems::LibResolveProblem;
use elfdeps::report::{libs_to_key, symbols_to_key};
use elfdeps::strutil::{bytes_to_string_lossy, split_bytes, split_str, trim_str};
use elfdeps::symbols::SymbolSummary;
use elfdeps::walker::{Action, Event, Phase, Walk};
use std::str::FromStr;

#[test]
fn split_str_matches_std() {
    let r = split_str("a:b::c", ':');
    assert_eq!(r, vec!["a", "b", "", "c"]);
    let r = split_str("", ':');
    assert_eq!(r, vec![""]);
    let r = split_str("a:", ':');
    assert_eq!(r, vec!["a", ""]);
}

#[test]
fn split_bytes_matches_std() {
    let r = split_bytes(&b"/p1:/p2".to_vec(), b':');
    assert_eq!(r, vec![b"/p1".to_vec(), b"/p2".to_vec()]);
    let r = split_bytes(&Vec::new(), b':');
    assert_eq!(r, vec![Vec::<u8>::new()]);
}

#[test]
fn lossy_decoding() {
    assert_eq!(bytes_to_string_lossy(&b"abc".to_vec()), "abc");
    assert_eq!(bytes_to_string_lossy(&vec![0xffu8]), "\u{fffd}");
}

#[test]
fn path_components() {
    assert_eq!(basename("/a/bin/app"), "app");
    assert_eq!(basename("app"), "app");
    assert_eq!(parent_dir("/a/bin/app"), "/a/bin");
    assert_eq!(parent_dir("/app"), "/");
    assert_eq!(parent_dir("app"), "/");
    assert_eq!(path_join("/a/lib", "libfoo.so"), "/a/lib/libfoo.so");
    assert_eq!(path_join("/a/lib/", "libfoo.so"), "/a/lib/libfoo.so");
    assert_eq!(path_join("", "libfoo.so"), "libfoo.so");
    // An absolute needed name replaces the directory, as Path::join does.
    assert_eq!(path_join("/a/lib", "/opt/libx.so"), "/opt/libx.so");
}

#[test]
fn origin_replacement() {
    assert_eq!(substitute_origin("$ORIGIN/../lib", "/opt/x/bin"), "/opt/x/bin/../lib");
    assert_eq!(substitute_origin("/plain", "/opt"), "/plain");
    assert_eq!(
        substitute_origin("$ORIGIN:$ORIGIN/lib", "/o"),
        "/o:/o/lib"
    );
}

#[test]
fn trim_strips_whitespace() {
    assert_eq!(trim_str("  /usr/lib \t\r"), "/usr/lib");
    assert_eq!(trim_str(""), "");
    assert_eq!(trim_str("   "), "");
    // The Unicode whitespace that str::trim strips is stripped too.
    assert_eq!(trim_str("\u{a0}\u{2003}/opt/lib\u{3000}"), "/opt/lib");
}

#[test]
fn search_method_tokens() {
    assert!(matches!(LibSearchMethod::from_str("rpath"), Ok(LibSearchMethod::RPath)));
    assert!(matches!(LibSearchMethod::from_str("runpath"), Ok(LibSearchMethod::RunPath)));
    assert!(matches!(
        LibSearchMethod::from_str("ld_library_path"),
        Ok(LibSearchMethod::LDLibraryPath)
    ));
    match LibSearchMethod::from_str("ldconfig:/etc/ld.so.conf") {
        Ok(LibSearchMethod::LDConfig(p)) => assert_eq!(p, "/etc/ld.so.conf"),
        _ => panic!("expected LDConfig"),
    }
    match LibSearchMethod::from_str("/usr/local/lib") {
        Ok(LibSearchMethod::Fixed(p)) => assert_eq!(p, "/usr/local/lib"),
        _ => panic!("expected Fixed"),
    }
}

#[test]
fn default_methods_mimic_gnu_ld() {
    let m = gnuld_default_search_methods();
    assert_eq!(m.len(), 6);
    assert!(matches!(&m[0], LibSearchMethod::RPath));
    assert!(matches!(&m[1], LibSearchMethod::RunPath));
    assert!(matches!(&m[2], LibSearchMethod::LDLibraryPath));
    match &m[3] {
        LibSearchMethod::LDConfig(p) => assert_eq!(p, "/etc/ld.so.conf"),
        _ => panic!("expected LDConfig"),
    }
    match &m[4] {
        LibSearchMethod::Fixed(p) => assert_eq!(p, "/usr/lib"),
        _ => panic!("expected Fixed"),
    }
    match &m[5] {
        LibSearchMethod::Fixed(p) => assert_eq!(p, "/lib"),
        _ => panic!("expected Fixed"),
    }
}

#[test]
fn conf_lines_classified() {
    let text = String::from("/one\n# comment\n   \n\t/two\t\nincl") + "ude /etc/x/*.conf\n";
    let dirs = parse_conf(&text);
    assert_eq!(dirs.len(), 3);
    match &dirs[0] {
        ConfDirective::Dir(d) => assert_eq!(d, "/one"),
        _ => panic!("expected Dir"),
    }
    match &dirs[1] {
        ConfDirective::Dir(d) => assert_eq!(d, "/two"),
        _ => panic!("expected Dir"),
    }
    match &dirs[2] {
        ConfDirective::Pattern(p) => assert_eq!(p, "/etc/x/*.conf"),
        _ => panic!("expected Pattern"),
    }
}

#[test]
fn dyninfo_extraction() {
    let data = ElfData {
        dyns: vec![
            DynEntry { tag: 15, val: 0, string: Some("/a:/b".to_string()) },
            DynEntry { tag: 29, val: 0, string: Some("/r".to_string()) },
            DynEntry { tag: 1, val: 0, string: Some("libx.so".to_string()) },
            DynEntry { tag: 1, val: 0, string: Some(String::new()) },
            DynEntry { tag: 6, val: 99, string: None },
        ],
        syms: vec![],
    };
    let info = DynInfo::from_data(&data).unwrap();
    assert_eq!(info.rpath, vec!["/a", "/b"]);
    assert_eq!(info.runpath, vec!["/r"]);
    assert_eq!(info.libs, vec!["libx.so"]);

    let bad = ElfData {
        dyns: vec![DynEntry { tag: 29, val: 7, string: None }],
        syms: vec![],
    };
    let err = DynInfo::from_data(&bad).unwrap_err();
    assert_eq!(err.tag, 29);
    assert_eq!(err.val, 7);
}

#[test]
fn first_hit_probing() {
    let mut locs = LibraryLocations::new();
    locs.push_dir("/one".to_string(), OriginTag::Fixed);
    locs.push_dir("/two".to_string(), OriginTag::Fixed);
    locs.push_dir("/three".to_string(), OriginTag::Fixed);
    let candidates = locs.candidate_paths("libq.so");
    assert_eq!(candidates, vec!["/one/libq.so", "/two/libq.so", "/three/libq.so"]);
    let hit = locs.try_find_library("libq.so", &vec![false, true, true]);
    assert_eq!(hit.unwrap(), "/two/libq.so");
    let miss = locs.try_find_library("libq.so", &vec![false, false, false]);
    assert!(miss.is_none());
}

#[test]
fn library_names() {
    let lib = Library::new(
        "/a/lib/libfoo.so".to_string(),
        ElfData { dyns: vec![], syms: vec![] },
    );
    assert_eq!(lib.get_name(), "libfoo.so");
}

#[test]
fn parse_rejects_garbage_and_accepts_minimal_elf() {
    assert!(Library::try_from_bytes("/x".to_string(), &b"not an elf".to_vec()).is_none());
    assert!(Library::try_from_bytes("/x".to_string(), &Vec::new()).is_none());

    // A minimal little-endian ELF64 shared object: a bare header with no
    // program headers and no section headers.
    let mut bytes = vec![0u8; 64];
    bytes[0] = 0x7f;
    bytes[1] = b'E';
    bytes[2] = b'L';
    bytes[3] = b'F';
    bytes[4] = 2; // 64-bit
    bytes[5] = 1; // little endian
    bytes[6] = 1; // version
    bytes[16] = 3; // ET_DYN
    bytes[18] = 0x3e; // x86-64
    bytes[20] = 1; // e_version
    let lib = Library::try_from_bytes("/x".to_string(), &bytes);
    match lib {
        Some(l) => {
            assert_eq!(l.data.dyns.len(), 0);
            assert_eq!(l.data.syms.len(), 0);
        }
        None => panic!("minimal ELF header should parse"),
    }
}

#[test]
fn group_keys_are_sorted_joins() {
    let names = vec!["libB.so".to_string(), "libA.so".to_string(), "libB.so".to_string()];
    assert_eq!(libs_to_key(&names), "libA.so, libB.so, libB.so");
    let one = vec!["only".to_string()];
    assert_eq!(libs_to_key(&one), "only");
    let none: Vec<String> = Vec::new();
    assert_eq!(libs_to_key(&none), "");
}

#[test]
fn symbol_keys_demangle() {
    let syms = vec!["_ZN3foo3barEv".to_string(), "plain_c".to_string()];
    let key = symbols_to_key(&syms);
    assert!(key.contains("foo::bar"));
    assert!(key.contains("plain_c"));
    let plain = vec!["zeta".to_string(), "alpha".to_string()];
    assert_eq!(symbols_to_key(&plain), "alpha, zeta");
}

#[test]
fn problem_messages() {
    let mut locs = LibraryLocations::new();
    locs.push_dir("/a/lib".to_string(), OriginTag::RPath);
    let p = LibResolveProblem::Unresolved {
        dependent_lib: "/a/bin/app".to_string(),
        lib_name: "libfoo.so".to_string(),
        locations: locs,
    };
    assert_eq!(
        p.to_message(),
        "\"/a/bin/app\": Could not resolve dependency to library \"libfoo.so\". \
         Search locations are: [\n\t\"/a/lib\" (rpath)\n]\n"
    );
}

#[test]
fn summary_classifications() {
    // One library exporting a visible global, hiding another, importing a
    // third, and carrying an empty-named symbol to be discarded.
    let (mut w, _a) = Walk::new(
        "/l/libx.so".to_string(),
        vec![LibSearchMethod::Fixed("/l".to_string())],
        None,
    );
    let data = ElfData {
        dyns: vec![],
        syms: vec![
            elfdeps::elfdata::SymEntry { name: Some("vis".to_string()), info: 0x12, other: 0, shndx: 5 },
            elfdeps::elfdata::SymEntry { name: Some("hid".to_string()), info: 0x12, other: 2, shndx: 5 },
            elfdeps::elfdata::SymEntry { name: Some("imp".to_string()), info: 0x12, other: 0, shndx: 0 },
            elfdeps::elfdata::SymEntry { name: Some(String::new()), info: 0x12, other: 0, shndx: 5 },
            elfdeps::elfdata::SymEntry { name: Some("loc".to_string()), info: 0x02, other: 0, shndx: 5 },
        ],
    };
    let r = w.step(Event::LibraryOpened(Ok(Library::new("/l/libx.so".to_string(), data))));
    w = r.0;
    assert!(matches!(r.1, Action::Finished));
    assert!(matches!(w.phase, Phase::Done));
    let s = SymbolSummary::from_libs(&w.deps);
    let get = |m: &Vec<(String, Vec<String>)>, k: &str| -> Option<Vec<String>> {
        m.iter().find(|(s, _)| s == k).map(|(_, v)| v.clone())
    };
    assert_eq!(get(&s.exported, "vis").unwrap(), vec!["libx.so"]);
    assert!(get(&s.exported, "hid").is_none());
    assert!(get(&s.exported, "loc").is_none());
    assert_eq!(get(&s.unresolved, "imp").unwrap(), vec!["libx.so"]);
    assert_eq!(get(&s.defined, "vis").unwrap(), vec!["libx.so"]);
    assert_eq!(get(&s.defined, "hid").unwrap(), vec!["libx.so"]);
    assert!(get(&s.defined, "imp").is_none());
    assert!(get(&s.defined, "").is_none());
}

#[test]
fn unresolved_groups_skip_defined_symbols() {
    let (mut w, _a) = Walk::new(
        "/l/liba.so".to_string(),
        vec![LibSearchMethod::Fixed("/l".to_string())],
        None,
    );
    let data = ElfData {
        dyns: vec![],
        syms: vec![
            elfdeps::elfdata::SymEntry { name: Some("self_sat".to_string()), info: 0x12, other: 0, shndx: 0 },
            elfdeps::elfdata::SymEntry { name: Some("self_sat".to_string()), info: 0x12, other: 0, shndx: 4 },
            elfdeps::elfdata::SymEntry { name: Some("truly_missing".to_string()), info: 0x12, other: 0, shndx: 0 },
        ],
    };
    let r = w.step(Event::LibraryOpened(Ok(Library::new("/l/liba.so".to_string(), data))));
    w = r.0;
    let s = SymbolSummary::from_libs(&w.deps);
    let groups = s.unresolved_symbol_groups();
    assert_eq!(groups.len(), 1);
    assert_eq!(groups[0].0, "liba.so");
    assert_eq!(groups[0].1, vec!["truly_missing".to_string()]);
}

#[test]
fn locations_are_copied_into_problems() {
    let mut locs = LibraryLocations::new();
    locs.push_dir("/d".to_string(), OriginTag::Fixed);
    let copy = locs.duplicate();
    assert_eq!(copy.entries.len(), 1);
    let Location { dir, tag } = &copy.entries[0];
    assert_eq!(dir, "/d");
    assert!(matches!(tag, OriginTag::Fixed));
}
