//! Parsing of ld.so.conf-style files: one directive per line, `#` comments,
//! and a directive that pulls further files in by glob pattern. Reading the
//! files and expanding the globs is the walk driver's work; this module only
//! classifies lines.

use vstd::prelude::*;
use crate::strutil::{split_on, split_str, trim_spec, trim_str, starts_with_str};

verus! {

/// One meaningful line of a loader-configuration file: a directory to
/// append, or a glob pattern naming further files to parse.
#[derive(Debug)]
pub enum ConfDirective {
    Dir(String),
    Pattern(String),
}

pub ghost enum ConfDirectiveV {
    Dir(Seq<char>),
    Pattern(Seq<char>),
}

impl View for ConfDirective {
    type V = ConfDirectiveV;

    open spec fn view(&self) -> ConfDirectiveV {
        match self {
            ConfDirective::Dir(s) => ConfDirectiveV::Dir(s@),
            ConfDirective::Pattern(s) => ConfDirectiveV::Pattern(s@),
        }
    }
}

impl DeepView for ConfDirective {
    type V = ConfDirectiveV;

    open spec fn deep_view(&self) -> ConfDirectiveV {
        self.view()
    }
}

/// The keyword, followed by one space, that marks a line as a glob pattern
/// for further configuration files.
pub open spec fn pattern_prefix() -> Seq<char> {
    seq!['i', 'n', 'c', 'l', 'u', 'd', 'e', ' ']
}

/// How one line is classified, after trimming: empty lines and `#` comments
/// carry nothing, a line led by the pattern keyword carries the rest as a
/// glob pattern, and any other line is a directory.
pub open spec fn classify_line(line: Seq<char>) -> Option<ConfDirectiveV> {
    let t = trim_spec(line);
    if t.len() == 0 {
        None
    } else if t[0] == '#' {
        None
    } else if t.len() >= pattern_prefix().len() && t.take(pattern_prefix().len() as int)
        == pattern_prefix() {
        Some(ConfDirectiveV::Pattern(t.skip(pattern_prefix().len() as int)))
    } else {
        Some(ConfDirectiveV::Dir(t))
    }
}

/// The directives of the lines, in order, dropping lines that carry nothing.
pub open spec fn directives_of_lines(lines: Seq<Seq<char>>) -> Seq<ConfDirectiveV>
    decreases lines.len(),
{
    if lines.len() == 0 {
        Seq::<ConfDirectiveV>::empty()
    } else {
        let rest = directives_of_lines(lines.drop_last());
        match classify_line(lines.last()) {
            Some(d) => rest.push(d),
            None => rest,
        }
    }
}

/// The directives of a whole file's content, split into lines on `\n`.
pub open spec fn conf_directives_spec(content: Seq<char>) -> Seq<ConfDirectiveV> {
    directives_of_lines(split_on(content, '\n'))
}

/// Builds the pattern keyword at run time.
fn pattern_prefix_exec() -> (r: String)
    ensures
        r@ == pattern_prefix(),
{
    let mut r = String::from_str("incl");
    r.append("ude ");
    proof {
        reveal_strlit("incl");
        reveal_strlit("ude ");
        assert("incl"@ + "ude "@ =~= pattern_prefix());
    }
    r
}

/// Classifies one line.
fn classify_line_exec(line: &str) -> (r: Option<ConfDirective>)
    ensures
        r.deep_view() == classify_line(line@),
{
    let t = trim_str(line);
    let prefix = pattern_prefix_exec();
    if t.as_str().is_empty() {
        None
    } else if t.as_str().get_char(0) == '#' {
        None
    } else if starts_with_str(t.as_str(), prefix.as_str()) {
        let len: usize = t.as_str().unicode_len();
        let rest = String::from_str(t.as_str().substring_char(8, len));
        proof {
            assert(t@.subrange(8, t@.len() as int) =~= t@.skip(8));
        }
        Some(ConfDirective::Pattern(rest))
    } else {
        Some(ConfDirective::Dir(t))
    }
}

/// Parses a configuration file's content into its directives, in order.
pub fn parse_conf(content: &str) -> (r: Vec<ConfDirective>)
    ensures
        r.deep_view() == conf_directives_spec(content@),
{
    let lines = split_str(content, '\n');
    let mut r: Vec<ConfDirective> = Vec::new();
    let mut i: usize = 0;
    proof {
        assert(lines.deep_view().take(0) =~= Seq::<Seq<char>>::empty());
        assert(r.deep_view() =~= directives_of_lines(lines.deep_view().take(0)));
    }
    while i < lines.len()
        invariant
            0 <= i <= lines.len(),
            lines.deep_view().len() == lines.len(),
            r.deep_view() == directives_of_lines(lines.deep_view().take(i as int)),
        decreases lines.len() - i,
    {
        let ghost predeep = r.deep_view();
        let d = classify_line_exec(lines[i].as_str());
        proof {
            assert(lines.deep_view().take(i + 1).drop_last() =~= lines.deep_view().take(i as int));
            assert(lines.deep_view().take(i + 1).last() == lines.deep_view()[i as int]);
            assert(lines.deep_view()[i as int] == lines@[i as int]@);
        }
        match d {
            Some(dir) => {
                let ghost dv = dir.deep_view();
                r.push(dir);
                proof {
                    assert(r.deep_view() =~= predeep.push(dv));
                }
            },
            None => {},
        }
        i += 1;
    }
    proof {
        assert(lines.deep_view().take(lines.len() as int) =~= lines.deep_view());
    }
    r
}

} // verus!
