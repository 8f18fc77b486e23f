//! The per-edge resolution problems the walker records. Every field is a
//! plain string; a problem can be printed without further lookups.

use vstd::prelude::*;
use crate::locations::{locations_display, quoted, LibraryLocations, LocationV};

verus! {

/// One problem found while resolving a NEEDED edge. `Unresolved`: the name's
/// first encounter found no file. `UnresolvedButPreviouslyResolved`: this
/// dependent cannot find the name, but an earlier dependent resolved it.
/// `ResolveConflict`: this dependent would resolve the name to a different
/// path than the one it was first resolved to.
pub enum LibResolveProblem {
    Unresolved {
        dependent_lib: String,
        lib_name: String,
        locations: LibraryLocations,
    },
    UnresolvedButPreviouslyResolved {
        dependent_lib: String,
        lib_name: String,
        locations: LibraryLocations,
        prev_resolved_path: String,
        first_resolver: String,
    },
    ResolveConflict {
        dependent_lib: String,
        lib_name: String,
        resolve_path: String,
        locations: LibraryLocations,
        prev_resolved_path: String,
        first_resolver: String,
    },
}

pub ghost enum LibResolveProblemV {
    Unresolved {
        dependent_lib: Seq<char>,
        lib_name: Seq<char>,
        locations: Seq<LocationV>,
    },
    UnresolvedButPreviouslyResolved {
        dependent_lib: Seq<char>,
        lib_name: Seq<char>,
        locations: Seq<LocationV>,
        prev_resolved_path: Seq<char>,
        first_resolver: Seq<char>,
    },
    ResolveConflict {
        dependent_lib: Seq<char>,
        lib_name: Seq<char>,
        resolve_path: Seq<char>,
        locations: Seq<LocationV>,
        prev_resolved_path: Seq<char>,
        first_resolver: Seq<char>,
    },
}

impl View for LibResolveProblem {
    type V = LibResolveProblemV;

    open spec fn view(&self) -> LibResolveProblemV {
        match self {
            LibResolveProblem::Unresolved { dependent_lib, lib_name, locations } => {
                LibResolveProblemV::Unresolved {
                    dependent_lib: dependent_lib@,
                    lib_name: lib_name@,
                    locations: locations@,
                }
            },
            LibResolveProblem::UnresolvedButPreviouslyResolved {
                dependent_lib,
                lib_name,
                locations,
                prev_resolved_path,
                first_resolver,
            } => {
                LibResolveProblemV::UnresolvedButPreviouslyResolved {
                    dependent_lib: dependent_lib@,
                    lib_name: lib_name@,
                    locations: locations@,
                    prev_resolved_path: prev_resolved_path@,
                    first_resolver: first_resolver@,
                }
            },
            LibResolveProblem::ResolveConflict {
                dependent_lib,
                lib_name,
                resolve_path,
                locations,
                prev_resolved_path,
                first_resolver,
            } => {
                LibResolveProblemV::ResolveConflict {
                    dependent_lib: dependent_lib@,
                    lib_name: lib_name@,
                    resolve_path: resolve_path@,
                    locations: locations@,
                    prev_resolved_path: prev_resolved_path@,
                    first_resolver: first_resolver@,
                }
            },
        }
    }
}

impl DeepView for LibResolveProblem {
    type V = LibResolveProblemV;

    open spec fn deep_view(&self) -> LibResolveProblemV {
        self.view()
    }
}

/// The one-line message of an `Unresolved` problem.
pub open spec fn msg_unresolved(dependent: Seq<char>, name: Seq<char>, locs: Seq<LocationV>) -> Seq<
    char,
> {
    quoted(dependent) + ": Could not resolve dependency to library "@ + quoted(name)
        + ". Search locations are: "@ + locations_display(locs)
}

/// The one-line message of an `UnresolvedButPreviouslyResolved` problem.
pub open spec fn msg_unresolved_prev(
    dependent: Seq<char>,
    name: Seq<char>,
    locs: Seq<LocationV>,
    prev: Seq<char>,
    first_resolver: Seq<char>,
) -> Seq<char> {
    quoted(dependent) + ": Could not resolve dependency "@ + quoted(name)
        + ", but it is already resolved to "@ + quoted(prev) + " by "@ + quoted(first_resolver)
        + ". Search locations are: "@ + locations_display(locs)
}

/// The one-line message of a `ResolveConflict` problem.
pub open spec fn msg_conflict(
    dependent: Seq<char>,
    name: Seq<char>,
    resolve_path: Seq<char>,
    locs: Seq<LocationV>,
    prev: Seq<char>,
    first_resolver: Seq<char>,
) -> Seq<char> {
    quoted(dependent) + ": Would resolve dependency "@ + quoted(name) + " to "@ + quoted(
        resolve_path,
    ) + ", but it is already resolved to "@ + quoted(prev) + " by "@ + quoted(first_resolver)
        + ". Search locations are: "@ + locations_display(locs)
}

/// The message of a problem record, by its shape.
pub open spec fn message_spec(p: LibResolveProblemV) -> Seq<char> {
    match p {
        LibResolveProblemV::Unresolved { dependent_lib, lib_name, locations } => msg_unresolved(
            dependent_lib,
            lib_name,
            locations,
        ),
        LibResolveProblemV::UnresolvedButPreviouslyResolved {
            dependent_lib,
            lib_name,
            locations,
            prev_resolved_path,
            first_resolver,
        } => msg_unresolved_prev(
            dependent_lib,
            lib_name,
            locations,
            prev_resolved_path,
            first_resolver,
        ),
        LibResolveProblemV::ResolveConflict {
            dependent_lib,
            lib_name,
            resolve_path,
            locations,
            prev_resolved_path,
            first_resolver,
        } => msg_conflict(
            dependent_lib,
            lib_name,
            resolve_path,
            locations,
            prev_resolved_path,
            first_resolver,
        ),
    }
}

/// Appends a double-quoted string.
fn push_quoted(r: &mut String, s: &str)
    ensures
        final(r)@ == old(r)@ + quoted(s@),
{
    r.append("\"");
    r.append(s);
    r.append("\"");
    proof {
        reveal_strlit("\"");
        assert("\""@ =~= seq!['"']);
        assert(final(r)@ =~= old(r)@ + quoted(s@));
    }
}

impl LibResolveProblem {
    /// Renders the problem as the single diagnostic line the reports print.
    pub fn to_message(&self) -> (r: String)
        ensures
            r@ == message_spec(self@),
    {
        let mut r = String::new();
        match self {
            LibResolveProblem::Unresolved { dependent_lib, lib_name, locations } => {
                push_quoted(&mut r, dependent_lib.as_str());
                r.append(": Could not resolve dependency to library ");
                push_quoted(&mut r, lib_name.as_str());
                r.append(". Search locations are: ");
                let locs = locations.to_display_string();
                r.append(locs.as_str());
            },
            LibResolveProblem::UnresolvedButPreviouslyResolved {
                dependent_lib,
                lib_name,
                locations,
                prev_resolved_path,
                first_resolver,
            } => {
                push_quoted(&mut r, dependent_lib.as_str());
                r.append(": Could not resolve dependency ");
                push_quoted(&mut r, lib_name.as_str());
                r.append(", but it is already resolved to ");
                push_quoted(&mut r, prev_resolved_path.as_str());
                r.append(" by ");
                push_quoted(&mut r, first_resolver.as_str());
                r.append(". Search locations are: ");
                let locs = locations.to_display_string();
                r.append(locs.as_str());
            },
            LibResolveProblem::ResolveConflict {
                dependent_lib,
                lib_name,
                resolve_path,
                locations,
                prev_resolved_path,
                first_resolver,
            } => {
                push_quoted(&mut r, dependent_lib.as_str());
                r.append(": Would resolve dependency ");
                push_quoted(&mut r, lib_name.as_str());
                r.append(" to ");
                push_quoted(&mut r, resolve_path.as_str());
                r.append(", but it is already resolved to ");
                push_quoted(&mut r, prev_resolved_path.as_str());
                r.append(" by ");
                push_quoted(&mut r, first_resolver.as_str());
                r.append(". Search locations are: ");
                let locs = locations.to_display_string();
                r.append(locs.as_str());
            },
        }
        r
    }
}

} // verus!