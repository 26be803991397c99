//! The tree-merging decisions: for each entry of a package directory,
//! whether to create a link in the target tree, replace an existing one,
//! recurse into a merged directory, or skip; and the safety check that
//! guards removal of a recorded link.

use crate::registry::{LinkRecord, LinkRecordV};
use vstd::prelude::*;

verus! {

/// What stands in the target tree at the location an entry maps to.
pub enum TargetState {
    /// Nothing exists at the target location.
    Absent,
    /// A symlink exists there, carrying `dest` as its on-disk target.
    Symlink { dest: String },
    /// A real (non-link) directory exists there.
    RealDir,
    /// Something else exists there (a regular file, a device, ...).
    Other,
}

/// The mathematical content of a target state.
pub enum TargetStateV {
    Absent,
    Symlink { dest: Seq<char> },
    RealDir,
    Other,
}

impl View for TargetState {
    type V = TargetStateV;

    open spec fn view(&self) -> TargetStateV {
        match self {
            TargetState::Absent => TargetStateV::Absent,
            TargetState::Symlink { dest } => TargetStateV::Symlink { dest: dest@ },
            TargetState::RealDir => TargetStateV::RealDir,
            TargetState::Other => TargetStateV::Other,
        }
    }
}

/// What the walk does with one entry.
#[derive(Clone, Copy, PartialEq, Eq, Structural, Debug)]
pub enum Action {
    /// Create a symlink at the target location.
    Create,
    /// Delete the existing occupant, then create the symlink.
    Replace,
    /// Merge: descend into the entry and the existing real directory.
    Recurse,
    /// Leave the target location untouched.
    Skip,
}

/// The decision for one package entry: directories merge with existing
/// real directories and never displace anything without force; files
/// yield to any existing occupant unless force is given.
pub open spec fn spec_plan(entry_is_dir: bool, st: TargetStateV, force: bool) -> Action {
    if entry_is_dir {
        match st {
            TargetStateV::Absent => Action::Create,
            TargetStateV::Symlink { .. } => if force {
                Action::Replace
            } else {
                Action::Skip
            },
            TargetStateV::RealDir => Action::Recurse,
            TargetStateV::Other => Action::Skip,
        }
    } else {
        match st {
            TargetStateV::Absent => Action::Create,
            _ => if force {
                Action::Replace
            } else {
                Action::Skip
            },
        }
    }
}

/// Decides what to do with one entry of a package directory.
pub fn plan_entry(entry_is_dir: bool, st: &TargetState, force: bool) -> (a: Action)
    ensures
        a == spec_plan(entry_is_dir, st@, force),
{
    if entry_is_dir {
        match st {
            TargetState::Absent => Action::Create,
            TargetState::Symlink { .. } => if force {
                Action::Replace
            } else {
                Action::Skip
            },
            TargetState::RealDir => Action::Recurse,
            TargetState::Other => Action::Skip,
        }
    } else {
        match st {
            TargetState::Absent => Action::Create,
            _ => if force {
                Action::Replace
            } else {
                Action::Skip
            },
        }
    }
}

/// The target state after the planned action is carried out. `dest` is
/// the on-disk target a created link carries; it is fixed by the entry's
/// origin and the link location alone.
pub open spec fn apply_plan(st: TargetStateV, entry_is_dir: bool, force: bool, dest: Seq<char>) -> TargetStateV {
    match spec_plan(entry_is_dir, st, force) {
        Action::Create => TargetStateV::Symlink { dest },
        Action::Replace => TargetStateV::Symlink { dest },
        Action::Recurse => st,
        Action::Skip => st,
    }
}

/// Law: linking without force is idempotent. After one pass, a second
/// pass creates no link and replaces nothing: it merges again exactly
/// where the first pass merged, and skips everything else, so the target
/// state is left as the first pass left it.
pub proof fn lemma_link_idempotent(entry_is_dir: bool, st: TargetStateV, dest: Seq<char>)
    ensures
        ({
            let st1 = apply_plan(st, entry_is_dir, false, dest);
            let a2 = spec_plan(entry_is_dir, st1, false);
            &&& a2 != Action::Create
            &&& a2 != Action::Replace
            &&& apply_plan(st1, entry_is_dir, false, dest) == st1
            &&& (a2 == Action::Recurse <==> spec_plan(entry_is_dir, st, false) == Action::Recurse)
        }),
{
}

/// Law: linking with force is idempotent in end state. A second forced
/// pass deletes and recreates a link, but the link it leaves carries the
/// same destination, so the final target state is unchanged.
pub proof fn lemma_force_link_idempotent(entry_is_dir: bool, st: TargetStateV, dest: Seq<char>)
    ensures
        apply_plan(apply_plan(st, entry_is_dir, true, dest), entry_is_dir, true, dest)
            == apply_plan(st, entry_is_dir, true, dest),
{
}

/// One entry of the package directory level being walked: its name,
/// whether it is a directory, and what occupies its target location.
pub struct LevelEntry {
    pub name: String,
    pub is_dir: bool,
    pub state: TargetState,
}

/// The walk's outcome for one entry: the action to carry out, and, for
/// an action that creates a link, the path the new link carries and the
/// record the registry gains once the link exists.
pub struct PlannedEntry {
    pub name: String,
    pub action: Action,
    pub dest: Option<String>,
    pub record: Option<LinkRecord>,
}

/// What the walk owes for one planned entry.
pub open spec fn planned_ok(
    p: PlannedEntry,
    e: LevelEntry,
    pkg_name: Seq<char>,
    pkg_path: Seq<char>,
    target_path: Seq<char>,
    force: bool,
) -> bool {
    let origin = pkg_path + seq!['/'] + e.name@;
    let target = target_path + seq!['/'] + e.name@;
    let a = spec_plan(e.is_dir, e.state@, force);
    &&& p.name@ == e.name@
    &&& p.action == a
    &&& (p.dest is Some <==> (a == Action::Create || a == Action::Replace))
    &&& (p.record is Some <==> (a == Action::Create || a == Action::Replace))
    &&& (p.dest is Some ==> p.dest.unwrap()@ == crate::pathutil::spec_relative(origin, target))
    &&& (p.record is Some ==> p.record.unwrap()@ == LinkRecordV {
        package: pkg_name,
        origin,
        symlink: target,
    })
}

/// Plans one directory level of the merge walk: decides every entry of
/// the package directory `pkg_path` against the matching target
/// directory `target_path`, and for each link to be made computes the
/// path the link carries and the registry record of it. The caller
/// carries the actions out in order and walks one level deeper wherever
/// an entry is to be merged.
pub fn link_entries(
    pkg_name: &str,
    pkg_path: &str,
    target_path: &str,
    entries: &Vec<LevelEntry>,
    force: bool,
) -> (r: Vec<PlannedEntry>)
    requires
        crate::is_abs(pkg_path@),
        crate::is_abs(target_path@),
    ensures
        r@.len() == entries@.len(),
        forall|i: int|
            0 <= i < r@.len() ==> #[trigger] planned_ok(
                r@[i],
                entries@[i],
                pkg_name@,
                pkg_path@,
                target_path@,
                force,
            ),
{
    let mut r: Vec<PlannedEntry> = Vec::new();
    let mut i: usize = 0;
    while i < entries.len()
        invariant
            i <= entries.len(),
            r@.len() == i,
            crate::is_abs(pkg_path@),
            crate::is_abs(target_path@),
            forall|t: int|
                0 <= t < i ==> #[trigger] planned_ok(
                    r@[t],
                    entries@[t],
                    pkg_name@,
                    pkg_path@,
                    target_path@,
                    force,
                ),
        decreases entries.len() - i,
    {
        let e = &entries[i];
        let action = plan_entry(e.is_dir, &e.state, force);
        let ghost r0 = r@;
        if action == Action::Create || action == Action::Replace {
            let origin = crate::pathutil::join_path(pkg_path, e.name.as_str());
            let target = crate::pathutil::join_path(target_path, e.name.as_str());
            assert(crate::is_abs(origin@));
            assert(crate::is_abs(target@));
            let dest = match crate::pathutil::relative(origin.as_str(), target.as_str()) {
                Ok(d) => d,
                Err(_) => {
                    proof {
                        assert(false);
                    }
                    String::new()
                },
            };
            let record = LinkRecord::new(pkg_name, origin.as_str(), target.as_str());
            r.push(
                PlannedEntry { name: e.name.clone(), action, dest: Some(dest), record: Some(
                    record,
                ) },
            );
        } else {
            r.push(PlannedEntry { name: e.name.clone(), action, dest: None, record: None });
        }
        proof {
            assert(r@ == r0.push(r@[i as int]));
            assert(planned_ok(
                r@[i as int],
                entries@[i as int],
                pkg_name@,
                pkg_path@,
                target_path@,
                force,
            ));
            assert(forall|t: int| 0 <= t < i ==> r@[t] == r0[t]);
        }
        i = i + 1;
    }
    r
}

/// What comparing filesystem identities of the record's origin and the
/// location the symlink currently resolves to can yield.
#[derive(Clone, Copy, PartialEq, Eq, Structural, Debug)]
pub enum IdentityOutcome {
    /// Both identities could be read and they are the same object.
    Match,
    /// Both identities could be read and they differ.
    Mismatch,
    /// At least one identity could not be read.
    Unknown,
}

/// Classifies the identity check: each side is the (device, serial)
/// identity of a path, or nothing where it could not be read.
pub fn classify_identity(origin_id: Option<(u64, u64)>, resolved_id: Option<(u64, u64)>) -> (r:
    IdentityOutcome)
    ensures
        origin_id is Some && resolved_id is Some ==> r == (if origin_id.unwrap().0
            == resolved_id.unwrap().0 && origin_id.unwrap().1 == resolved_id.unwrap().1 {
            IdentityOutcome::Match
        } else {
            IdentityOutcome::Mismatch
        }),
        origin_id is None || resolved_id is None ==> r == IdentityOutcome::Unknown,
{
    match (origin_id, resolved_id) {
        (Some(a), Some(b)) => {
            if a.0 == b.0 && a.1 == b.1 {
                IdentityOutcome::Match
            } else {
                IdentityOutcome::Mismatch
            }
        },
        _ => IdentityOutcome::Unknown,
    }
}

/// Refusal to remove a link that verifiably points elsewhere.
#[derive(Clone, Copy, PartialEq, Eq, Debug)]
pub enum UnlinkError {
    IdentityMismatch,
}

/// Decides whether a recorded symlink may be removed. Removal is blocked
/// exactly when force was not given and the identity check conclusively
/// shows the link points at a different object; a check that could not
/// be carried out permits removal (fail-open).
pub fn check_unlink(force: bool, outcome: IdentityOutcome) -> (r: Result<(), UnlinkError>)
    ensures
        r is Err <==> !force && outcome == IdentityOutcome::Mismatch,
{
    if force {
        Ok(())
    } else {
        match outcome {
            IdentityOutcome::Mismatch => Err(UnlinkError::IdentityMismatch),
            _ => Ok(()),
        }
    }
}

/// Whether a directory name may stand as a package: names beginning
/// with the reserved wildcard marker are excluded.
pub open spec fn pkg_name_visible(name: Seq<char>) -> bool {
    !(name.len() > 0 && name[0] == '*')
}

/// The names selected from a directory listing: real directories whose
/// name does not begin with the reserved marker.
pub open spec fn selected(entries: Seq<(Seq<char>, bool)>) -> Seq<Seq<char>>
    decreases entries.len(),
{
    if entries.len() == 0 {
        Seq::empty()
    } else {
        let r = selected(entries.drop_last());
        let e = entries.last();
        if e.1 && pkg_name_visible(e.0) {
            r.push(e.0)
        } else {
            r
        }
    }
}

/// Picks the entries of the current directory that stand as packages
/// when every package is asked for. Each entry is a name paired with
/// whether it is a directory.
pub fn select_packages(entries: &Vec<(String, bool)>) -> (r: Vec<String>)
    ensures
        r.deep_view() == selected(entries.deep_view()),
{
    let mut r: Vec<String> = Vec::new();
    let mut i: usize = 0;
    proof {
        assert(entries.deep_view().subrange(0, 0) =~= Seq::<(Seq<char>, bool)>::empty());
        assert(r.deep_view() =~= Seq::<Seq<char>>::empty());
    }
    while i < entries.len()
        invariant
            i <= entries.len(),
            r.deep_view() == selected(entries.deep_view().subrange(0, i as int)),
        decreases entries.len() - i,
    {
        let ghost pre = entries.deep_view().subrange(0, i as int);
        let ghost pre1 = entries.deep_view().subrange(0, i as int + 1);
        assert(pre1.drop_last() =~= pre);
        assert(pre1.last() == entries.deep_view()[i as int]);
        let is_dir = entries[i].1;
        let name = &entries[i].0;
        let visible = !(name.unicode_len() > 0 && name.get_char(0) == '*');
        if is_dir && visible {
            let owned = name.clone();
            assert(r.deep_view().len() == r@.len());
            let ghost r0 = r@;
            r.push(owned);
            proof {
                assert(r@ == r0.push(owned));
                assert(r.deep_view() =~= selected(pre).push(entries.deep_view()[i as int].0));
            }
        }
        i = i + 1;
    }
    proof {
        assert(entries.deep_view().subrange(0, entries@.len() as int) =~= entries.deep_view());
    }
    r
}

/// Whether the package list holds the wildcard, asking for every
/// available package.
pub fn wants_all(packages: &Vec<String>) -> (r: bool)
    ensures
        r == exists|i: int| 0 <= i < packages@.len() && packages@[i]@ == "*"@,
{
    let mut i: usize = 0;
    while i < packages.len()
        invariant
            i <= packages.len(),
            forall|j: int| 0 <= j < i ==> packages@[j]@ != "*"@,
        decreases packages.len() - i,
    {
        if crate::str_eq(packages[i].as_str(), "*") {
            assert(packages@[i as int]@ == "*"@);
            return true;
        }
        i = i + 1;
    }
    false
}

} // verus!
