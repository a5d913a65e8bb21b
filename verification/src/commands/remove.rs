//! `pave remove`: take a directory off the PATH, or block one that comes
//! from elsewhere.

use vstd::prelude::*;
use vstd::string::*;
use crate::cli::Shell;
use crate::platform::Platform;
use crate::text::{views, owned};
use crate::components::{has_same, same_path};
use crate::path_store::{PathEntry, texts, canons};
use crate::util::ui::{success, warn, hint, hint_reload, status_line, hint_line, reload_message, Tone};

verus! {

/// An entry offered for removal: a directory, and whether `pave` manages
/// it (otherwise it comes from the environment and can only be blocked).
pub struct RemoveEntry {
    pub path: String,
    pub managed: bool,
}

/// What the program found out since the last action.
#[allow(inconsistent_fields)]
pub enum RemoveEvent {
    /// The command starts, with the path to remove or none (pick one).
    Start { path: Option<String> },
    /// The store was asked to remove `path`; whether it did.
    Removed { path: String, removed: bool },
    /// Whether `path` is on the PATH of the environment.
    InEnv { path: String, in_env: bool },
    /// `path` was blocked.
    Blocked { path: String },
    /// The managed directories and the directories of the PATH, each with
    /// its canonical form (empty when it could not be resolved).
    Listed { managed: Vec<PathEntry>, env_dirs: Vec<PathEntry> },
    /// The user's pick among `entries`, or none.
    Picked { entries: Vec<RemoveEntry>, choice: Option<usize> },
    /// The picked managed entry `path` was removed.
    EntryRemoved { path: String },
    /// The picked entry `path` from the environment was blocked.
    EntryBlocked { path: String },
}

/// What the program does next.
#[allow(inconsistent_fields)]
pub enum RemoveAction {
    /// Remove `path` from the store; report `Removed`.
    Remove { path: String },
    /// Look for `path` on the PATH; report `InEnv`.
    CheckEnv { path: String },
    /// Block `path`; report `Blocked`.
    Block { path: String },
    /// Read the managed list and the PATH; report `Listed`.
    List,
    /// Let the user pick one of `entries`, shown as `labels`; report `Picked`.
    Ask { entries: Vec<RemoveEntry>, labels: Vec<String>, prompt: String },
    /// Remove the picked managed entry; report `EntryRemoved`.
    RemoveEntry { path: String },
    /// Block the picked entry; report `EntryBlocked`.
    BlockEntry { path: String },
    /// Print `lines` and end successfully.
    Finish { lines: Vec<String> },
    /// End with the error `message`.
    Fail { message: String },
}

pub open spec fn entry_views(v: Seq<RemoveEntry>) -> Seq<(Seq<char>, bool)> {
    v.map_values(|e: RemoveEntry| (e.path@, e.managed))
}

/// The directories of the PATH offered for blocking: each one whose
/// canonical form is not the same path as a managed one's or an earlier
/// one's.
pub open spec fn env_rows(p: Platform, dirs: Seq<Seq<char>>, canon: Seq<Seq<char>>, managed_canon: Seq<Seq<char>>) -> Seq<Seq<char>>
    decreases dirs.len(),
{
    if dirs.len() == 0 || canon.len() != dirs.len() {
        Seq::<Seq<char>>::empty()
    } else if has_same(p, managed_canon + canon.drop_last(), canon.last()) {
        env_rows(p, dirs.drop_last(), canon.drop_last(), managed_canon)
    } else {
        env_rows(p, dirs.drop_last(), canon.drop_last(), managed_canon).push(dirs.last())
    }
}

/// The entries offered for removal: every managed directory, then (except
/// on Windows) the directories of the PATH that are not already offered.
pub open spec fn removal_entries(p: Platform, managed: Seq<PathEntry>, dirs: Seq<PathEntry>) -> Seq<(Seq<char>, bool)> {
    texts(managed).map_values(|m: Seq<char>| (m, true)) + if p == Platform::Windows {
        Seq::<(Seq<char>, bool)>::empty()
    } else {
        env_rows(p, texts(dirs), canons(dirs), canons(managed)).map_values(|d: Seq<char>| (d, false))
    }
}

/// The rows offered for blocking are directories of the PATH.
proof fn lemma_env_rows_from_dirs(p: Platform, dirs: Seq<Seq<char>>, canon: Seq<Seq<char>>, mc: Seq<Seq<char>>, x: Seq<char>)
    requires
        env_rows(p, dirs, canon, mc).contains(x),
    ensures
        dirs.contains(x),
    decreases dirs.len(),
{
    let r1 = env_rows(p, dirs.drop_last(), canon.drop_last(), mc);
    if r1.contains(x) {
        lemma_env_rows_from_dirs(p, dirs.drop_last(), canon.drop_last(), mc, x);
        let k = choose|k: int| 0 <= k < dirs.drop_last().len() && dirs.drop_last()[k] == x;
        assert(dirs[k] == x);
    } else {
        let r = env_rows(p, dirs, canon, mc);
        let k = choose|k: int| 0 <= k < r.len() && r[k] == x;
        if k < r1.len() {
            assert(r1[k] == x);
        }
        assert(dirs[dirs.len() - 1] == x);
    }
}

/// The picker of `pave remove` offers every managed directory first, in
/// order and marked as managed, whatever its canonical form (a directory
/// since deleted too); after them come only directories of the PATH,
/// marked as not managed, and none on Windows.
pub proof fn law_removal_offers_every_managed(p: Platform, managed: Seq<PathEntry>, dirs: Seq<PathEntry>)
    ensures
        removal_entries(p, managed, dirs).len() >= managed.len(),
        forall|i: int| 0 <= i < managed.len() ==> #[trigger] removal_entries(p, managed, dirs)[i] == (
        managed[i].text@,
        true,
        ),
        forall|i: int|
            managed.len() <= i < removal_entries(p, managed, dirs).len() ==> !(#[trigger] removal_entries(
                p,
                managed,
                dirs,
            )[i]).1 && texts(dirs).contains(removal_entries(p, managed, dirs)[i].0),
        p == Platform::Windows ==> removal_entries(p, managed, dirs).len() == managed.len(),
{
    let r = removal_entries(p, managed, dirs);
    let a = texts(managed).map_values(|m: Seq<char>| (m, true));
    assert forall|i: int| 0 <= i < managed.len() implies #[trigger] r[i] == (managed[i].text@, true) by {
        assert(r[i] == a[i]);
    }
    if p != Platform::Windows {
        let rows = env_rows(p, texts(dirs), canons(dirs), canons(managed));
        assert forall|i: int| managed.len() <= i < r.len() implies !(#[trigger] r[i]).1 && texts(dirs).contains(r[i].0) by {
            let k = i - managed.len();
            assert(r[i] == (rows[k], false));
            assert(rows.contains(rows[k]));
            lemma_env_rows_from_dirs(p, texts(dirs), canons(dirs), canons(managed), rows[k]);
        }
    }
}

/// How an entry is shown in the picker: environment entries are marked.
pub open spec fn entry_label(e: (Seq<char>, bool)) -> Seq<char> {
    if e.1 {
        e.0
    } else {
        e.0 + " (env)"@
    }
}

/// The entries offered for removal.
pub fn removal_entries_of(managed: &Vec<PathEntry>, env_dirs: &Vec<PathEntry>, p: Platform) -> (r: Vec<RemoveEntry>)
    ensures
        entry_views(r@) == removal_entries(p, managed@, env_dirs@),
{
    let ghost vm = texts(managed@);
    let mut out: Vec<RemoveEntry> = Vec::new();
    let mut i: usize = 0;
    while i < managed.len()
        invariant
            i <= managed@.len(),
            vm == texts(managed@),
            entry_views(out@) == vm.take(i as int).map_values(|m: Seq<char>| (m, true)),
        decreases managed@.len() - i,
    {
        let ghost before = entry_views(out@);
        out.push(RemoveEntry { path: managed[i].text.clone(), managed: true });
        proof {
            assert(vm.take(i + 1) =~= vm.take(i as int).push(vm[i as int]));
            assert(entry_views(out@) =~= before.push((vm[i as int], true)));
            assert(vm.take(i + 1).map_values(|m: Seq<char>| (m, true)) =~= vm.take(i as int).map_values(
                |m: Seq<char>| (m, true),
            ).push((vm[i as int], true)));
        }
        i = i + 1;
    }
    let ghost head = entry_views(out@);
    proof {
        assert(vm.take(i as int) =~= vm);
    }
    if p == Platform::Windows {
        proof {
            assert(entry_views(out@) =~= head + Seq::<(Seq<char>, bool)>::empty());
        }
        return out;
    }
    let ghost vd = texts(env_dirs@);
    let ghost vc = canons(env_dirs@);
    let ghost mc = canons(managed@);
    let mut j: usize = 0;
    while j < env_dirs.len()
        invariant
            j <= env_dirs@.len(),
            vd == texts(env_dirs@),
            vc == canons(env_dirs@),
            mc == canons(managed@),
            entry_views(out@) == head + env_rows(p, vd.take(j as int), vc.take(j as int), mc).map_values(
                |d: Seq<char>| (d, false),
            ),
        decreases env_dirs@.len() - j,
    {
        let ghost before = entry_views(out@);
        let ghost rows = env_rows(p, vd.take(j as int), vc.take(j as int), mc);
        proof {
            assert(vd.take(j + 1).drop_last() =~= vd.take(j as int));
            assert(vc.take(j + 1).drop_last() =~= vc.take(j as int));
            assert(vd.take(j + 1).last() == vd[j as int]);
            assert(vc.take(j + 1).last() == vc[j as int]);
        }
        let seen = holds_canonical_prefix(managed, managed.len(), env_dirs[j].canonical.as_str(), p)
            || holds_canonical_prefix(env_dirs, j, env_dirs[j].canonical.as_str(), p);
        proof {
            assert(canons(managed@).take(managed@.len() as int) =~= mc);
        }
        proof {
            lemma_has_same_concat(p, mc, vc.take(j as int), vc[j as int]);
        }
        if !seen {
            out.push(RemoveEntry { path: env_dirs[j].text.clone(), managed: false });
            proof {
                assert(entry_views(out@) =~= before.push((vd[j as int], false)));
                assert(rows.push(vd[j as int]).map_values(|d: Seq<char>| (d, false)) =~= rows.map_values(
                    |d: Seq<char>| (d, false),
                ).push((vd[j as int], false)));
            }
        }
        j = j + 1;
    }
    proof {
        assert(vd.take(j as int) =~= vd);
        assert(vc.take(j as int) =~= vc);
    }
    out
}

pub proof fn lemma_has_same_concat(p: Platform, a: Seq<Seq<char>>, b: Seq<Seq<char>>, x: Seq<char>)
    ensures
        has_same(p, a + b, x) == (has_same(p, a, x) || has_same(p, b, x)),
{
    if has_same(p, a + b, x) {
        let k = choose|k: int| 0 <= k < (a + b).len() && #[trigger] same_path(p, (a + b)[k], x);
        if k < a.len() {
            assert(same_path(p, a[k], x));
        } else {
            assert(same_path(p, b[k - a.len()], x));
        }
    }
    if has_same(p, a, x) {
        let k = choose|k: int| 0 <= k < a.len() && #[trigger] same_path(p, a[k], x);
        assert(same_path(p, (a + b)[k], x));
    }
    if has_same(p, b, x) {
        let k = choose|k: int| 0 <= k < b.len() && #[trigger] same_path(p, b[k], x);
        assert(same_path(p, (a + b)[k + a.len()], x));
    }
}

/// Whether the canonical form of one of the first `n` members of `v` is the
/// same path as `x`.
fn holds_canonical_prefix(v: &Vec<PathEntry>, n: usize, x: &str, p: Platform) -> (r: bool)
    requires
        n <= v@.len(),
    ensures
        r == has_same(p, canons(v@).take(n as int), x@),
{
    let mut i: usize = 0;
    while i < n
        invariant
            i <= n <= v@.len(),
            forall|k: int| 0 <= k < i ==> !same_path(p, #[trigger] canons(v@)[k], x@),
        decreases n - i,
    {
        if crate::components::paths_equal(v[i].canonical.as_str(), x, p) {
            proof {
                assert(same_path(p, canons(v@).take(n as int)[i as int], x@));
            }
            return true;
        }
        i = i + 1;
    }
    proof {
        if has_same(p, canons(v@).take(n as int), x@) {
            let k = choose|k: int| 0 <= k < n && #[trigger] same_path(p, canons(v@).take(n as int)[k], x@);
            assert(canons(v@).take(n as int)[k] == canons(v@)[k]);
        }
    }
    false
}

/// The labels of the entries in the picker.
pub fn entry_labels(entries: &Vec<RemoveEntry>) -> (r: Vec<String>)
    ensures
        r@.len() == entries@.len(),
        forall|i: int| 0 <= i < r@.len() ==> #[trigger] r@[i]@ == entry_label(entry_views(entries@)[i]),
{
    let mut out: Vec<String> = Vec::new();
    let mut i: usize = 0;
    while i < entries.len()
        invariant
            i <= entries@.len(),
            out@.len() == i,
            forall|k: int| 0 <= k < i ==> #[trigger] out@[k]@ == entry_label(entry_views(entries@)[k]),
        decreases entries@.len() - i,
    {
        let mut label = entries[i].path.clone();
        if !entries[i].managed {
            label.append(" (env)");
        }
        out.push(label);
        i = i + 1;
    }
    out
}

/// `a` followed by `b`.
fn concat(a: &str, b: &str) -> (r: String)
    ensures
        r@ == a@ + b@,
{
    let mut s = String::from_str(a);
    s.append(b);
    s
}

/// The lines that report a finished removal or block: a success line with
/// `what` and `path`, optionally a hint, then the reload hint.
fn finish_lines(what: &str, path: &str, extra: Option<&str>, shell: Option<Shell>, p: Platform) -> (r: Vec<String>)
    ensures
        extra is None ==> r@.len() == 2,
        extra is Some ==> r@.len() == 3 && hint_line(extra->0@, r@[1]@),
        status_line("✓"@, Tone::Success, what@ + path@, r@[0]@),
        hint_line(reload_message(shell, p), r@[r@.len() - 1]@),
{
    let mut lines: Vec<String> = Vec::new();
    let msg = concat(what, path);
    lines.push(success(msg.as_str()));
    match extra {
        Some(h) => lines.push(hint(h)),
        None => {},
    }
    lines.push(hint_reload(shell, p));
    lines
}

/// The lines `lines` report a finished step: a success line with `what`
/// and `path`, then the reload hint.
pub open spec fn reports(lines: Seq<String>, what: Seq<char>, path: Seq<char>, shell: Option<Shell>, p: Platform) -> bool {
    &&& lines.len() == 2
    &&& status_line("✓"@, Tone::Success, what + path, lines[0]@)
    &&& hint_line(reload_message(shell, p), lines[1]@)
}

/// The next step of `pave remove` after `event`, for the detected `shell`.
pub fn run(event: RemoveEvent, shell: Option<Shell>, p: Platform) -> (r: RemoveAction)
    requires
        event matches RemoveEvent::Picked { entries, choice } ==> (choice matches Some(i) ==> i < entries@.len()),
    ensures
        match event {
            RemoveEvent::Start { path } => match path {
                Some(x) => r matches RemoveAction::Remove { path } && path@ == x@,
                None => r is List,
            },
            RemoveEvent::Removed { path: x, removed } => if removed {
                r matches RemoveAction::Finish { lines } && reports(lines@, "Removed from PATH: "@, x@, shell, p)
            } else {
                r matches RemoveAction::CheckEnv { path } && path@ == x@
            },
            RemoveEvent::InEnv { path: x, in_env } => if !in_env {
                r matches RemoveAction::Fail { message } && message@ == "'"@ + x@ + "' is not on PATH"@
            } else if p == Platform::Windows {
                r matches RemoveAction::Fail { message } && message@ == "'"@ + x@
                    + "' is a system PATH entry and cannot be removed without admin rights"@
            } else {
                r matches RemoveAction::Block { path } && path@ == x@
            },
            RemoveEvent::Blocked { path: x } => r matches RemoveAction::Finish { lines } && lines@.len() == 3
                && status_line("✓"@, Tone::Success, "Blocked from PATH: "@ + x@, lines@[0]@)
                && hint_line("This path comes from your shell config, not pave."@, lines@[1]@)
                && hint_line(reload_message(shell, p), lines@[2]@),
            RemoveEvent::Listed { managed, env_dirs } => {
                let entries = removal_entries(p, managed@, env_dirs@);
                if entries.len() == 0 {
                    r matches RemoveAction::Finish { lines } && lines@.len() == 1
                        && status_line("!"@, Tone::Warning, "No PATH entries to remove."@, lines@[0]@)
                } else {
                    r matches RemoveAction::Ask { entries: offered, labels, prompt }
                        && entry_views(offered@) == entries
                        && labels@.len() == entries.len()
                        && (forall|i: int| 0 <= i < labels@.len() ==> #[trigger] labels@[i]@ == entry_label(entries[i]))
                        && prompt@ == "Select an entry to remove from PATH"@
                }
            },
            RemoveEvent::Picked { entries, choice } => match choice {
                None => r matches RemoveAction::Finish { lines } && lines@.len() == 0,
                Some(i) => if entries@[i as int].managed {
                    r matches RemoveAction::RemoveEntry { path } && path@ == entries@[i as int].path@
                } else {
                    r matches RemoveAction::BlockEntry { path } && path@ == entries@[i as int].path@
                },
            },
            RemoveEvent::EntryRemoved { path: x } => r matches RemoveAction::Finish { lines } && reports(
                lines@,
                "Removed: "@,
                x@,
                shell,
                p,
            ),
            RemoveEvent::EntryBlocked { path: x } => r matches RemoveAction::Finish { lines } && reports(
                lines@,
                "Blocked: "@,
                x@,
                shell,
                p,
            ),
        },
{
    match event {
        RemoveEvent::Start { path } => match path {
            Some(x) => RemoveAction::Remove { path: x },
            None => RemoveAction::List,
        },
        RemoveEvent::Removed { path, removed } => {
            if removed {
                RemoveAction::Finish { lines: finish_lines("Removed from PATH: ", path.as_str(), None, shell, p) }
            } else {
                RemoveAction::CheckEnv { path }
            }
        },
        RemoveEvent::InEnv { path, in_env } => {
            if !in_env {
                let mut m = owned("'");
                m.append(path.as_str());
                m.append("' is not on PATH");
                RemoveAction::Fail { message: m }
            } else if p == Platform::Windows {
                let mut m = owned("'");
                m.append(path.as_str());
                m.append("' is a system PATH entry and cannot be removed without admin rights");
                RemoveAction::Fail { message: m }
            } else {
                RemoveAction::Block { path }
            }
        },
        RemoveEvent::Blocked { path } => RemoveAction::Finish {
            lines: finish_lines(
                "Blocked from PATH: ",
                path.as_str(),
                Some("This path comes from your shell config, not pave."),
                shell,
                p,
            ),
        },
        RemoveEvent::Listed { managed, env_dirs } => {
            let entries = removal_entries_of(&managed, &env_dirs, p);
            if entries.len() == 0 {
                let mut lines: Vec<String> = Vec::new();
                lines.push(warn("No PATH entries to remove."));
                RemoveAction::Finish { lines }
            } else {
                let labels = entry_labels(&entries);
                RemoveAction::Ask { entries, labels, prompt: owned("Select an entry to remove from PATH") }
            }
        },
        RemoveEvent::Picked { entries, choice } => match choice {
            None => RemoveAction::Finish { lines: Vec::new() },
            Some(i) => {
                let e = &entries[i];
                if e.managed {
                    RemoveAction::RemoveEntry { path: e.path.clone() }
                } else {
                    RemoveAction::BlockEntry { path: e.path.clone() }
                }
            },
        },
        RemoveEvent::EntryRemoved { path } => RemoveAction::Finish {
            lines: finish_lines("Removed: ", path.as_str(), None, shell, p),
        },
        RemoveEvent::EntryBlocked { path } => RemoveAction::Finish {
            lines: finish_lines("Blocked: ", path.as_str(), None, shell, p),
        },
    }
}

} // verus!
