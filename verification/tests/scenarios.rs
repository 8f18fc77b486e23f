//! End-to-end scenarios: the walk driven against an in-memory filesystem.

use elfdeps::deps::LibraryDependencies;
use elfdeps::elfdata::{DynEntry, ElfData, SymEntry};
use elfdeps::library::Library;
use elfdeps::locations::LibSearchMethod;
use elfdeps::problems::LibResolveProblem;
use elfdeps::symbols::SymbolSummary;
use elfdeps::walker::{Action, Event, LibOpenError, Phase, SimError, Walk};

/// A file in the fake filesystem: an ELF with the given dynamic entries and
/// symbols, or a plain text file (for loader configuration).
enum FakeFile {
    Elf {
        rpath: Option<&'static str>,
        runpath: Option<&'static str>,
        needed: Vec<&'static str>,
        syms: Vec<(&'static str, u8, u8, usize)>,
    },
    Text(&'static str),
}

fn build_elf(
    rpath: Option<&str>,
    runpath: Option<&str>,
    needed: &[&str],
    syms: &[(&str, u8, u8, usize)],
) -> ElfData {
    let mut dyns = Vec::new();
    if let Some(r) = rpath {
        dyns.push(DynEntry { tag: 15, val: 0, string: Some(r.to_string()) });
    }
    if let Some(r) = runpath {
        dyns.push(DynEntry { tag: 29, val: 0, string: Some(r.to_string()) });
    }
    for n in needed {
        dyns.push(DynEntry { tag: 1, val: 0, string: Some(n.to_string()) });
    }
    let syms = syms
        .iter()
        .map(|(name, info, other, shndx)| SymEntry {
            name: Some(name.to_string()),
            info: *info,
            other: *other,
            shndx: *shndx,
        })
        .collect();
    ElfData { dyns, syms }
}

/// Runs the machine to completion against the fake filesystem; glob
/// patterns expand to the listed paths.
fn run_walk(
    entry: &str,
    methods: Vec<LibSearchMethod>,
    env: Option<Vec<u8>>,
    fs: &[(&str, FakeFile)],
    globs: &[(&str, Vec<&str>)],
) -> Walk {
    let (mut w, mut a) = Walk::new(entry.to_string(), methods, env);
    for _ in 0..10_000 {
        let ev = match &a {
            Action::OpenLibrary { path } => {
                match fs.iter().find(|(p, _)| p == path) {
                    Some((_, FakeFile::Elf { rpath, runpath, needed, syms })) => {
                        let data = build_elf(*rpath, *runpath, needed, syms);
                        Event::LibraryOpened(Ok(Library::new(path.clone(), data)))
                    }
                    Some((_, FakeFile::Text(_))) => {
                        Event::LibraryOpened(Err(LibOpenError::NotElf))
                    }
                    None => Event::LibraryOpened(Err(LibOpenError::NotReadable)),
                }
            }
            Action::ReadConfFile { path } => match fs.iter().find(|(p, _)| p == path) {
                Some((_, FakeFile::Text(t))) => Event::ConfFile(Some(t.to_string())),
                _ => Event::ConfFile(None),
            },
            Action::ExpandGlob { pattern } => {
                match globs.iter().find(|(g, _)| g == pattern) {
                    Some((_, paths)) => Event::GlobPaths(Some(
                        paths.iter().map(|p| p.to_string()).collect(),
                    )),
                    None => Event::GlobPaths(None),
                }
            }
            Action::CheckPaths { paths } => Event::PathsChecked(
                paths.iter().map(|c| fs.iter().any(|(p, _)| p == c)).collect(),
            ),
            Action::Finished | Action::Failed => return w,
        };
        let r = w.step(ev);
        w = r.0;
        a = r.1;
    }
    panic!("walk did not terminate");
}

fn opened_paths(deps: &LibraryDependencies) -> Vec<String> {
    deps.opened_libs.iter().map(|l| l.path.clone()).collect()
}

fn resolved_pairs(deps: &LibraryDependencies) -> Vec<(String, String)> {
    deps.resolved.clone()
}

fn rd_of<'a>(deps: &'a LibraryDependencies, path: &str) -> Option<&'a Vec<String>> {
    deps.reverse_dependencies
        .iter()
        .find(|(p, _)| p == path)
        .map(|(_, l)| l)
}

fn fixed(p: &str) -> LibSearchMethod {
    LibSearchMethod::Fixed(p.to_string())
}

#[test]
fn chain_all_resolved() {
    let fs = vec![
        (
            "/a/bin/app",
            FakeFile::Elf { rpath: None, runpath: None, needed: vec!["libfoo.so"], syms: vec![] },
        ),
        (
            "/a/lib/libfoo.so",
            FakeFile::Elf { rpath: None, runpath: None, needed: vec!["libbar.so"], syms: vec![] },
        ),
        (
            "/a/lib/libbar.so",
            FakeFile::Elf { rpath: None, runpath: None, needed: vec![], syms: vec![] },
        ),
    ];
    let w = run_walk("/a/bin/app", vec![fixed("/a/lib")], None, &fs, &[]);
    assert!(matches!(w.phase, Phase::Done));
    assert_eq!(
        opened_paths(&w.deps),
        vec!["/a/bin/app", "/a/lib/libfoo.so", "/a/lib/libbar.so"]
    );
    assert_eq!(w.deps.problems.len(), 0);
    assert_eq!(rd_of(&w.deps, "/a/lib/libfoo.so").unwrap(), &vec!["/a/bin/app".to_string()]);
    assert_eq!(
        rd_of(&w.deps, "/a/lib/libbar.so").unwrap(),
        &vec!["/a/lib/libfoo.so".to_string()]
    );
    assert!(rd_of(&w.deps, "/a/bin/app").is_none());
}

#[test]
fn unresolved_leaf() {
    let fs = vec![
        (
            "/a/bin/app",
            FakeFile::Elf { rpath: None, runpath: None, needed: vec!["libfoo.so"], syms: vec![] },
        ),
        (
            "/a/lib/libfoo.so",
            FakeFile::Elf { rpath: None, runpath: None, needed: vec!["libbar.so"], syms: vec![] },
        ),
    ];
    let w = run_walk("/a/bin/app", vec![fixed("/a/lib")], None, &fs, &[]);
    assert!(matches!(w.phase, Phase::Done));
    assert_eq!(w.deps.problems.len(), 1);
    match &w.deps.problems[0] {
        LibResolveProblem::Unresolved { dependent_lib, lib_name, .. } => {
            assert_eq!(dependent_lib, "/a/lib/libfoo.so");
            assert_eq!(lib_name, "libbar.so");
        }
        _ => panic!("expected Unresolved"),
    }
}

#[test]
fn shared_dependency() {
    let fs = vec![
        (
            "/a/bin/app",
            FakeFile::Elf {
                rpath: None,
                runpath: None,
                needed: vec!["libfoo.so", "libbaz.so"],
                syms: vec![],
            },
        ),
        (
            "/a/lib/libfoo.so",
            FakeFile::Elf {
                rpath: None,
                runpath: None,
                needed: vec!["libcommon.so"],
                syms: vec![],
            },
        ),
        (
            "/a/lib/libbaz.so",
            FakeFile::Elf {
                rpath: None,
                runpath: None,
                needed: vec!["libcommon.so"],
                syms: vec![],
            },
        ),
        (
            "/a/lib/libcommon.so",
            FakeFile::Elf { rpath: None, runpath: None, needed: vec![], syms: vec![] },
        ),
    ];
    let w = run_walk("/a/bin/app", vec![fixed("/a/lib")], None, &fs, &[]);
    assert!(matches!(w.phase, Phase::Done));
    assert_eq!(w.deps.problems.len(), 0);
    assert_eq!(
        rd_of(&w.deps, "/a/lib/libcommon.so").unwrap(),
        &vec!["/a/lib/libfoo.so".to_string(), "/a/lib/libbaz.so".to_string()]
    );
    let commons = opened_paths(&w.deps)
        .iter()
        .filter(|p| p.as_str() == "/a/lib/libcommon.so")
        .count();
    assert_eq!(commons, 1);
}

#[test]
fn resolve_conflict() {
    let fs = vec![
        (
            "/a/bin/app",
            FakeFile::Elf {
                rpath: Some("/a/lib"),
                runpath: None,
                needed: vec!["libz.so", "libother.so"],
                syms: vec![],
            },
        ),
        (
            "/a/lib/libz.so",
            FakeFile::Elf { rpath: None, runpath: None, needed: vec![], syms: vec![] },
        ),
        (
            "/b/lib/libz.so",
            FakeFile::Elf { rpath: None, runpath: None, needed: vec![], syms: vec![] },
        ),
        (
            "/b/lib/libother.so",
            FakeFile::Elf {
                rpath: Some("/b/lib"),
                runpath: None,
                needed: vec!["libz.so"],
                syms: vec![],
            },
        ),
    ];
    let methods = vec![LibSearchMethod::RPath, fixed("/b/lib")];
    let w = run_walk("/a/bin/app", methods, None, &fs, &[]);
    assert!(matches!(w.phase, Phase::Done));
    assert_eq!(w.deps.problems.len(), 1);
    match &w.deps.problems[0] {
        LibResolveProblem::ResolveConflict {
            dependent_lib,
            lib_name,
            resolve_path,
            prev_resolved_path,
            first_resolver,
            ..
        } => {
            assert_eq!(dependent_lib, "/b/lib/libother.so");
            assert_eq!(lib_name, "libz.so");
            assert_eq!(resolve_path, "/b/lib/libz.so");
            assert_eq!(prev_resolved_path, "/a/lib/libz.so");
            assert_eq!(first_resolver, "/a/bin/app");
        }
        _ => panic!("expected ResolveConflict"),
    }
}

#[test]
fn origin_substitution() {
    let fs = vec![
        (
            "/opt/x/bin/app",
            FakeFile::Elf {
                rpath: Some("$ORIGIN/../lib"),
                runpath: None,
                needed: vec!["liby.so"],
                syms: vec![],
            },
        ),
        (
            "/opt/x/bin/../lib/liby.so",
            FakeFile::Elf { rpath: None, runpath: None, needed: vec![], syms: vec![] },
        ),
    ];
    let w = run_walk("/opt/x/bin/app", vec![LibSearchMethod::RPath], None, &fs, &[]);
    assert!(matches!(w.phase, Phase::Done));
    assert_eq!(w.deps.problems.len(), 0);
    let pairs = resolved_pairs(&w.deps);
    let liby = pairs.iter().find(|(n, _)| n == "liby.so").unwrap();
    assert_eq!(liby.1, "/opt/x/bin/../lib/liby.so");
}

#[test]
fn duplicate_exports() {
    // A global, visible, defined symbol has the binding nibble 1 in
    // `st_info`; an import has section index 0.
    let fs = vec![
        (
            "/a/bin/app",
            FakeFile::Elf {
                rpath: None,
                runpath: None,
                needed: vec!["libA.so", "libB.so", "libC.so"],
                syms: vec![],
            },
        ),
        (
            "/a/lib/libA.so",
            FakeFile::Elf {
                rpath: None,
                runpath: None,
                needed: vec![],
                syms: vec![("malloc", 0x12, 0, 7)],
            },
        ),
        (
            "/a/lib/libB.so",
            FakeFile::Elf {
                rpath: None,
                runpath: None,
                needed: vec![],
                syms: vec![("malloc", 0x12, 0, 9)],
            },
        ),
        (
            "/a/lib/libC.so",
            FakeFile::Elf {
                rpath: None,
                runpath: None,
                needed: vec![],
                syms: vec![("malloc", 0x12, 0, 0)],
            },
        ),
    ];
    let w = run_walk("/a/bin/app", vec![fixed("/a/lib")], None, &fs, &[]);
    assert!(matches!(w.phase, Phase::Done));
    let summary = SymbolSummary::from_libs(&w.deps);
    let groups = summary.duplicate_export_groups();
    assert_eq!(groups.len(), 1);
    assert_eq!(groups[0].0, "libA.so, libB.so");
    assert_eq!(groups[0].1, vec!["malloc".to_string()]);
}

#[test]
fn deterministic_reruns() {
    let fs = vec![
        (
            "/a/bin/app",
            FakeFile::Elf {
                rpath: None,
                runpath: None,
                needed: vec!["libfoo.so", "libbaz.so"],
                syms: vec![],
            },
        ),
        (
            "/a/lib/libfoo.so",
            FakeFile::Elf {
                rpath: None,
                runpath: None,
                needed: vec!["libcommon.so", "libmissing.so"],
                syms: vec![],
            },
        ),
        (
            "/a/lib/libbaz.so",
            FakeFile::Elf {
                rpath: None,
                runpath: None,
                needed: vec!["libcommon.so"],
                syms: vec![],
            },
        ),
        (
            "/a/lib/libcommon.so",
            FakeFile::Elf { rpath: None, runpath: None, needed: vec![], syms: vec![] },
        ),
    ];
    let w1 = run_walk("/a/bin/app", vec![fixed("/a/lib")], None, &fs, &[]);
    let w2 = run_walk("/a/bin/app", vec![fixed("/a/lib")], None, &fs, &[]);
    assert_eq!(opened_paths(&w1.deps), opened_paths(&w2.deps));
    assert_eq!(resolved_pairs(&w1.deps), resolved_pairs(&w2.deps));
    assert_eq!(w1.deps.reverse_dependencies, w2.deps.reverse_dependencies);
    let m1: Vec<String> = w1.deps.problems.iter().map(|p| p.to_message()).collect();
    let m2: Vec<String> = w2.deps.problems.iter().map(|p| p.to_message()).collect();
    assert_eq!(m1, m2);
}

#[test]
fn entry_not_readable() {
    let w = run_walk("/missing/app", vec![fixed("/a/lib")], None, &[], &[]);
    match &w.phase {
        Phase::Failed { error: SimError::NotReadable { path } } => {
            assert_eq!(path, "/missing/app");
        }
        _ => panic!("expected NotReadable"),
    }
}

#[test]
fn entry_not_elf() {
    let fs = vec![("/a/file.txt", FakeFile::Text("hello"))];
    let w = run_walk("/a/file.txt", vec![fixed("/a/lib")], None, &fs, &[]);
    assert!(matches!(
        &w.phase,
        Phase::Failed { error: SimError::NotElf { .. } }
    ));
}

#[test]
fn dynamic_string_missing_is_fatal() {
    let (mut w, a) = Walk::new("/a/app".to_string(), vec![fixed("/a/lib")], None);
    assert!(matches!(&a, Action::OpenLibrary { .. }));
    let data = ElfData {
        dyns: vec![DynEntry { tag: 1, val: 42, string: None }],
        syms: vec![],
    };
    let r = w.step(Event::LibraryOpened(Ok(Library::new("/a/app".to_string(), data))));
    w = r.0;
    match &w.phase {
        Phase::Failed { error: SimError::BadDynString { path, tag, val } } => {
            assert_eq!(path, "/a/app");
            assert_eq!(*tag, 1);
            assert_eq!(*val, 42);
        }
        _ => panic!("expected BadDynString"),
    }
    assert!(matches!(r.1, Action::Failed));
}

#[test]
fn conf_unreadable_is_fatal() {
    let fs = vec![(
        "/a/app",
        FakeFile::Elf { rpath: None, runpath: None, needed: vec!["libq.so"], syms: vec![] },
    )];
    let methods = vec![LibSearchMethod::LDConfig("/etc/ld.so.conf".to_string())];
    let w = run_walk("/a/app", methods, None, &fs, &[]);
    match &w.phase {
        Phase::Failed { error: SimError::ConfUnreadable { path } } => {
            assert_eq!(path, "/etc/ld.so.conf");
        }
        _ => panic!("expected ConfUnreadable"),
    }
}

#[test]
fn glob_failure_is_fatal() {
    let text = String::from("incl") + "ude /etc/extra/*.conf\n";
    let leaked: &'static str = Box::leak(text.into_boxed_str());
    let fs = vec![
        (
            "/a/app",
            FakeFile::Elf { rpath: None, runpath: None, needed: vec!["libq.so"], syms: vec![] },
        ),
        ("/etc/ld.so.conf", FakeFile::Text(leaked)),
    ];
    let methods = vec![LibSearchMethod::LDConfig("/etc/ld.so.conf".to_string())];
    let w = run_walk("/a/app", methods, None, &fs, &[]);
    match &w.phase {
        Phase::Failed { error: SimError::GlobFailed { pattern } } => {
            assert_eq!(pattern, "/etc/extra/*.conf");
        }
        _ => panic!("expected GlobFailed"),
    }
}

#[test]
fn conf_directories_are_probed_in_order() {
    let text = String::from("/one\n# comment\n  \nincl") + "ude /etc/more/*.conf\n/three\n";
    let leaked: &'static str = Box::leak(text.into_boxed_str());
    let fs = vec![
        (
            "/a/app",
            FakeFile::Elf { rpath: None, runpath: None, needed: vec!["libq.so"], syms: vec![] },
        ),
        ("/etc/ld.so.conf", FakeFile::Text(leaked)),
        ("/etc/more/extra.conf", FakeFile::Text("/two\n")),
        (
            "/two/libq.so",
            FakeFile::Elf { rpath: None, runpath: None, needed: vec![], syms: vec![] },
        ),
        (
            "/three/libq.so",
            FakeFile::Elf { rpath: None, runpath: None, needed: vec![], syms: vec![] },
        ),
    ];
    let methods = vec![LibSearchMethod::LDConfig("/etc/ld.so.conf".to_string())];
    let globs = vec![("/etc/more/*.conf", vec!["/etc/more/extra.conf"])];
    let w = run_walk("/a/app", methods, None, &fs, &globs);
    assert!(matches!(w.phase, Phase::Done));
    // /one has no file; the directive-pulled /two comes before /three.
    let pairs = resolved_pairs(&w.deps);
    let q = pairs.iter().find(|(n, _)| n == "libq.so").unwrap();
    assert_eq!(q.1, "/two/libq.so");
}

#[test]
fn ld_library_path_splits_raw_bytes() {
    let fs = vec![
        (
            "/a/app",
            FakeFile::Elf { rpath: None, runpath: None, needed: vec!["libq.so"], syms: vec![] },
        ),
        (
            "/p2/libq.so",
            FakeFile::Elf { rpath: None, runpath: None, needed: vec![], syms: vec![] },
        ),
    ];
    let env = Some(b"/p1:/p2".to_vec());
    let w = run_walk("/a/app", vec![LibSearchMethod::LDLibraryPath], env, &fs, &[]);
    assert!(matches!(w.phase, Phase::Done));
    let pairs = resolved_pairs(&w.deps);
    let q = pairs.iter().find(|(n, _)| n == "libq.so").unwrap();
    assert_eq!(q.1, "/p2/libq.so");
}

#[test]
fn unresolved_but_previously_resolved() {
    // app resolves libz.so under its rpath; libother.so cannot see it at
    // all, since its own search paths hold no libz.so.
    let fs = vec![
        (
            "/a/bin/app",
            FakeFile::Elf {
                rpath: Some("/a/lib"),
                runpath: None,
                needed: vec!["libz.so", "libother.so"],
                syms: vec![],
            },
        ),
        (
            "/a/lib/libz.so",
            FakeFile::Elf { rpath: None, runpath: None, needed: vec![], syms: vec![] },
        ),
        (
            "/a/lib/libother.so",
            FakeFile::Elf {
                rpath: None,
                runpath: None,
                needed: vec!["libz.so"],
                syms: vec![],
            },
        ),
    ];
    let methods = vec![LibSearchMethod::RPath];
    let w = run_walk("/a/bin/app", methods, None, &fs, &[]);
    assert!(matches!(w.phase, Phase::Done));
    assert_eq!(w.deps.problems.len(), 1);
    match &w.deps.problems[0] {
        LibResolveProblem::UnresolvedButPreviouslyResolved {
            dependent_lib,
            lib_name,
            prev_resolved_path,
            first_resolver,
            ..
        } => {
            assert_eq!(dependent_lib, "/a/lib/libother.so");
            assert_eq!(lib_name, "libz.so");
            assert_eq!(prev_resolved_path, "/a/lib/libz.so");
            assert_eq!(first_resolver, "/a/bin/app");
        }
        _ => panic!("expected UnresolvedButPreviouslyResolved"),
    }
}
