//! Shell detection and the PATH value `pave` hands to a shell.

use vstd::prelude::*;
use crate::text::{fields, views, split_nonempty, join, holds_text};
use crate::cli::Shell;
use crate::platform::Platform;
use crate::components::{file_name, file_name_of, compare_text, Rank, opt_view};
use crate::util::path::{lowercase, to_lowercase};

verus! {

/// What the environment tells about the shell `pave` runs in.
pub struct ShellEnv {
    /// `NU_VERSION` is set.
    pub nu_version: bool,
    /// `XONSHRC` is set.
    pub xonshrc: bool,
    /// `FISH_VERSION` is set.
    pub fish_version: bool,
    /// `ZSH_VERSION` is set.
    pub zsh_version: bool,
    /// `BASH_VERSION` is set.
    pub bash_version: bool,
    /// `PSModulePath` is set.
    pub ps_module_path: bool,
    /// The value of `SHELL`, if set.
    pub shell: Option<String>,
    /// The executable name of the parent process (Windows), if known.
    pub parent_process: Option<String>,
}

/// The shell a login-shell program name stands for.
pub open spec fn shell_named(name: Seq<char>) -> Option<Shell> {
    if name == "bash"@ {
        Some(Shell::Bash)
    } else if name == "zsh"@ {
        Some(Shell::Zsh)
    } else if name == "fish"@ {
        Some(Shell::Fish)
    } else if name == "nu"@ {
        Some(Shell::Nushell)
    } else if name == "xonsh"@ {
        Some(Shell::Xonsh)
    } else if name == "pwsh"@ {
        Some(Shell::Pwsh)
    } else {
        None
    }
}

/// The shell a parent-process executable name (in lower case) stands for.
pub open spec fn shell_of_process(name: Seq<char>) -> Option<Shell> {
    if name == "bash.exe"@ {
        Some(Shell::Bash)
    } else if name == "pwsh.exe"@ || name == "powershell.exe"@ {
        Some(Shell::Pwsh)
    } else if name == "nu.exe"@ {
        Some(Shell::Nushell)
    } else if name == "fish.exe"@ || name == "fish"@ {
        Some(Shell::Fish)
    } else if name == "xonsh.exe"@ {
        Some(Shell::Xonsh)
    } else if name == "zsh.exe"@ {
        Some(Shell::Zsh)
    } else {
        None
    }
}

/// The shell `pave` runs in, judged from the environment: the variables
/// each shell sets, in a fixed order (Nushell, Xonsh, Fish, Zsh, Bash, and
/// on Unix PowerShell), then the file name of `SHELL`, then on Windows the
/// parent process.
pub open spec fn detected_shell(env: ShellEnv, p: Platform) -> Option<Shell> {
    if env.nu_version {
        Some(Shell::Nushell)
    } else if env.xonshrc {
        Some(Shell::Xonsh)
    } else if env.fish_version {
        Some(Shell::Fish)
    } else if env.zsh_version {
        Some(Shell::Zsh)
    } else if env.bash_version {
        Some(Shell::Bash)
    } else if p == Platform::Unix && env.ps_module_path {
        Some(Shell::Pwsh)
    } else if env.shell is Some && file_name_of(p, env.shell->0@) is Some && shell_named(
        file_name_of(p, env.shell->0@)->0,
    ) is Some {
        shell_named(file_name_of(p, env.shell->0@)->0)
    } else if p == Platform::Windows && env.parent_process is Some {
        shell_of_process(lowercase(env.parent_process->0@))
    } else {
        None
    }
}

/// The variables a shell sets decide it before anything else, in a fixed
/// order: `NU_VERSION`, `XONSHRC`, `FISH_VERSION`, `ZSH_VERSION`,
/// `BASH_VERSION`, and on Unix `PSModulePath`; `SHELL` and the parent
/// process count only when none of these is set.
pub proof fn law_shell_variables_first(env: ShellEnv, p: Platform)
    ensures
        env.nu_version ==> detected_shell(env, p) == Some(Shell::Nushell),
        !env.nu_version && env.xonshrc ==> detected_shell(env, p) == Some(Shell::Xonsh),
        !env.nu_version && !env.xonshrc && env.fish_version ==> detected_shell(env, p) == Some(Shell::Fish),
        !env.nu_version && !env.xonshrc && !env.fish_version && env.zsh_version ==> detected_shell(env, p)
            == Some(Shell::Zsh),
        !env.nu_version && !env.xonshrc && !env.fish_version && !env.zsh_version && env.bash_version
            ==> detected_shell(env, p) == Some(Shell::Bash),
        p == Platform::Unix && !env.nu_version && !env.xonshrc && !env.fish_version && !env.zsh_version
            && !env.bash_version && env.ps_module_path ==> detected_shell(env, p) == Some(Shell::Pwsh),
{
}

fn is_text(a: &str, b: &str) -> (r: bool)
    ensures
        r == (a@ == b@),
{
    compare_text(a, b) == Rank::Same
}

fn shell_for_name(name: &str) -> (r: Option<Shell>)
    ensures
        r == shell_named(name@),
{
    if is_text(name, "bash") {
        Some(Shell::Bash)
    } else if is_text(name, "zsh") {
        Some(Shell::Zsh)
    } else if is_text(name, "fish") {
        Some(Shell::Fish)
    } else if is_text(name, "nu") {
        Some(Shell::Nushell)
    } else if is_text(name, "xonsh") {
        Some(Shell::Xonsh)
    } else if is_text(name, "pwsh") {
        Some(Shell::Pwsh)
    } else {
        None
    }
}

fn shell_for_process(name: &str) -> (r: Option<Shell>)
    ensures
        r == shell_of_process(name@),
{
    if is_text(name, "bash.exe") {
        Some(Shell::Bash)
    } else if is_text(name, "pwsh.exe") || is_text(name, "powershell.exe") {
        Some(Shell::Pwsh)
    } else if is_text(name, "nu.exe") {
        Some(Shell::Nushell)
    } else if is_text(name, "fish.exe") || is_text(name, "fish") {
        Some(Shell::Fish)
    } else if is_text(name, "xonsh.exe") {
        Some(Shell::Xonsh)
    } else if is_text(name, "zsh.exe") {
        Some(Shell::Zsh)
    } else {
        None
    }
}

/// The shell `pave` runs in, judged from the environment.
pub fn detect_shell(env: &ShellEnv, p: Platform) -> (r: Option<Shell>)
    ensures
        r == detected_shell(*env, p),
{
    if env.nu_version {
        return Some(Shell::Nushell);
    }
    if env.xonshrc {
        return Some(Shell::Xonsh);
    }
    if env.fish_version {
        return Some(Shell::Fish);
    }
    if env.zsh_version {
        return Some(Shell::Zsh);
    }
    if env.bash_version {
        return Some(Shell::Bash);
    }
    if p == Platform::Unix && env.ps_module_path {
        return Some(Shell::Pwsh);
    }
    if let Some(sh) = &env.shell {
        if let Some(name) = file_name(sh.as_str(), p) {
            let found = shell_for_name(name.as_str());
            if found.is_some() {
                return found;
            }
        }
    }
    if p == Platform::Windows {
        if let Some(parent) = &env.parent_process {
            let lower = to_lowercase(parent.as_str());
            return shell_for_process(lower.as_str());
        }
    }
    None
}

/// The members of `xs` in order, each only at its first occurrence.
pub open spec fn unique_in_order(xs: Seq<Seq<char>>) -> Seq<Seq<char>>
    decreases xs.len(),
{
    if xs.len() == 0 {
        Seq::<Seq<char>>::empty()
    } else if xs.drop_last().contains(xs.last()) {
        unique_in_order(xs.drop_last())
    } else {
        unique_in_order(xs.drop_last()).push(xs.last())
    }
}

/// The members of `dirs`, in order and with repetitions, that are neither
/// managed nor blocked.
pub open spec fn unlisted(dirs: Seq<Seq<char>>, managed: Seq<Seq<char>>, blocked: Seq<Seq<char>>) -> Seq<Seq<char>>
    decreases dirs.len(),
{
    if dirs.len() == 0 {
        Seq::<Seq<char>>::empty()
    } else if !managed.contains(dirs.last()) && !blocked.contains(dirs.last()) {
        unlisted(dirs.drop_last(), managed, blocked).push(dirs.last())
    } else {
        unlisted(dirs.drop_last(), managed, blocked)
    }
}

/// The directories of the PATH that `pave` computes from the directories
/// of the current PATH: the managed ones first, in their order and once
/// each, then the current ones that are neither managed nor blocked.
pub open spec fn env_dirs(dirs: Seq<Seq<char>>, managed: Seq<Seq<char>>, blocked: Seq<Seq<char>>) -> Seq<Seq<char>> {
    unique_in_order(managed) + unlisted(dirs, managed, blocked)
}

/// The directories of the PATH handed to the shell on Unix, computed from
/// the current PATH value, the managed directories and the blocked ones.
pub fn compute_env_path(current_path: &str, managed: &Vec<String>, blocked: &Vec<String>) -> (r: Vec<String>)
    ensures
        views(r@) == env_dirs(fields(current_path@, ':'), views(managed@), views(blocked@)),
{
    let ghost m = views(managed@);
    let ghost b = views(blocked@);
    let mut out: Vec<String> = Vec::new();
    let mut i: usize = 0;
    while i < managed.len()
        invariant
            i <= managed@.len(),
            m == views(managed@),
            views(out@) == unique_in_order(m.take(i as int)),
        decreases managed@.len() - i,
    {
        let ghost before = out@;
        proof {
            assert(m.take(i + 1).drop_last() =~= m.take(i as int));
            assert(m.take(i + 1).last() == managed@[i as int]@);
        }
        if !holds_text(&out, managed[i].as_str()) {
            out.push(managed[i].clone());
            proof {
                assert(views(out@) =~= views(before).push(managed@[i as int]@));
            }
        }
        proof {
            lemma_unique_contains(m.take(i as int), managed@[i as int]@);
        }
        i = i + 1;
    }
    proof {
        assert(m.take(i as int) =~= m);
    }
    let ghost head = views(out@);
    let dirs = split_nonempty(current_path, ':');
    let ghost d = views(dirs@);
    let mut j: usize = 0;
    while j < dirs.len()
        invariant
            j <= dirs@.len(),
            m == views(managed@),
            b == views(blocked@),
            d == views(dirs@),
            views(out@) == head + unlisted(d.take(j as int), m, b),
        decreases dirs@.len() - j,
    {
        let ghost before = out@;
        proof {
            assert(d.take(j + 1).drop_last() =~= d.take(j as int));
            assert(d.take(j + 1).last() == dirs@[j as int]@);
        }
        if !holds_text(managed, dirs[j].as_str()) && !holds_text(blocked, dirs[j].as_str()) {
            out.push(dirs[j].clone());
            proof {
                assert(views(out@) =~= views(before).push(dirs@[j as int]@));
            }
        }
        j = j + 1;
    }
    proof {
        assert(d.take(j as int) =~= d);
    }
    out
}

/// A member of `xs` occurs in its first occurrences, and nothing else does.
pub proof fn lemma_unique_contains(xs: Seq<Seq<char>>, x: Seq<char>)
    ensures
        unique_in_order(xs).contains(x) == xs.contains(x),
    decreases xs.len(),
{
    if xs.len() > 0 {
        lemma_unique_contains(xs.drop_last(), x);
        let u = unique_in_order(xs.drop_last());
        if xs.drop_last().contains(x) {
            let k = choose|k: int| 0 <= k < xs.drop_last().len() && xs.drop_last()[k] == x;
            assert(xs[k] == x);
        }
        if xs.contains(x) && !xs.drop_last().contains(x) {
            let k = choose|k: int| 0 <= k < xs.len() && xs[k] == x;
            if k < xs.len() - 1 {
                assert(xs.drop_last()[k] == x);
            }
            assert(xs.last() == x);
        }
        if !xs.drop_last().contains(xs.last()) {
            assert(u.push(xs.last()).last() == xs.last());
            if u.push(xs.last()).contains(x) && x != xs.last() {
                let k = choose|k: int| 0 <= k < u.push(xs.last()).len() && u.push(xs.last())[k] == x;
                assert(u[k] == x);
            }
            if u.contains(x) {
                let k = choose|k: int| 0 <= k < u.len() && u[k] == x;
                assert(u.push(xs.last())[k] == x);
            }
        } else {
            if xs.contains(x) && x == xs.last() {
                assert(u.contains(x));
            }
        }
    }
}


/// Keeping first occurrences leaves no duplicates.
pub proof fn lemma_unique_no_dups(xs: Seq<Seq<char>>)
    ensures
        unique_in_order(xs).no_duplicates(),
    decreases xs.len(),
{
    if xs.len() > 0 {
        lemma_unique_no_dups(xs.drop_last());
        lemma_unique_contains(xs.drop_last(), xs.last());
        let u = unique_in_order(xs.drop_last());
        if !xs.drop_last().contains(xs.last()) {
            let v = u.push(xs.last());
            assert forall|i: int, j: int| 0 <= i < v.len() && 0 <= j < v.len() && i != j implies v[i] != v[j] by {
                if i < u.len() && j < u.len() {
                    assert(v[i] == u[i] && v[j] == u[j]);
                } else if i < u.len() {
                    assert(v[i] == u[i]);
                    assert(u.contains(v[i]));
                } else if j < u.len() {
                    assert(v[j] == u[j]);
                    assert(u.contains(v[j]));
                }
            }
        }
    }
}

/// Filtering goes piecewise over a concatenation.
pub proof fn lemma_unlisted_concat(d1: Seq<Seq<char>>, d2: Seq<Seq<char>>, m: Seq<Seq<char>>, b: Seq<Seq<char>>)
    ensures
        unlisted(d1 + d2, m, b) == unlisted(d1, m, b) + unlisted(d2, m, b),
    decreases d2.len(),
{
    if d2.len() == 0 {
        assert(d1 + d2 =~= d1);
        assert(unlisted(d1, m, b) + unlisted(d2, m, b) =~= unlisted(d1, m, b));
    } else {
        lemma_unlisted_concat(d1, d2.drop_last(), m, b);
        assert((d1 + d2).drop_last() =~= d1 + d2.drop_last());
        assert((d1 + d2).last() == d2.last());
        assert(unlisted(d1 + d2, m, b) =~= unlisted(d1, m, b) + unlisted(d2, m, b));
    }
}

/// What `unlisted` keeps is in `dirs` and neither managed nor blocked.
pub proof fn lemma_unlisted_members(d: Seq<Seq<char>>, m: Seq<Seq<char>>, b: Seq<Seq<char>>, x: Seq<char>)
    ensures
        unlisted(d, m, b).contains(x) == (d.contains(x) && !m.contains(x) && !b.contains(x)),
    decreases d.len(),
{
    if d.len() > 0 {
        lemma_unlisted_members(d.drop_last(), m, b, x);
        let u = unlisted(d.drop_last(), m, b);
        if d.drop_last().contains(x) {
            let k = choose|k: int| 0 <= k < d.drop_last().len() && d.drop_last()[k] == x;
            assert(d[k] == x);
        }
        if d.contains(x) && !d.drop_last().contains(x) {
            let k = choose|k: int| 0 <= k < d.len() && d[k] == x;
            if k < d.len() - 1 {
                assert(d.drop_last()[k] == x);
            }
        }
        if !m.contains(d.last()) && !b.contains(d.last()) {
            let v = u.push(d.last());
            assert(v[v.len() - 1] == d.last());
            if v.contains(x) && x != d.last() {
                let k = choose|k: int| 0 <= k < v.len() && v[k] == x;
                assert(u[k] == x);
            }
            if u.contains(x) {
                let k = choose|k: int| 0 <= k < u.len() && u[k] == x;
                assert(v[k] == x);
            }
        }
    }
}

/// Directories that are all managed leave nothing after filtering.
pub proof fn lemma_unlisted_of_managed(d: Seq<Seq<char>>, m: Seq<Seq<char>>, b: Seq<Seq<char>>)
    requires
        forall|i: int| 0 <= i < d.len() ==> m.contains(#[trigger] d[i]),
    ensures
        unlisted(d, m, b) == Seq::<Seq<char>>::empty(),
    decreases d.len(),
{
    if d.len() > 0 {
        assert(m.contains(d[d.len() - 1]));
        assert forall|i: int| 0 <= i < d.drop_last().len() implies m.contains(#[trigger] d.drop_last()[i]) by {
            assert(d.drop_last()[i] == d[i]);
        }
        lemma_unlisted_of_managed(d.drop_last(), m, b);
    }
}

/// Filtering twice filters as once.
pub proof fn lemma_unlisted_idempotent(d: Seq<Seq<char>>, m: Seq<Seq<char>>, b: Seq<Seq<char>>)
    ensures
        unlisted(unlisted(d, m, b), m, b) == unlisted(d, m, b),
    decreases d.len(),
{
    if d.len() > 0 {
        let d1 = d.drop_last();
        lemma_unlisted_idempotent(d1, m, b);
        let u = unlisted(d1, m, b);
        if !m.contains(d.last()) && !b.contains(d.last()) {
            let v = u.push(d.last());
            assert(v.drop_last() =~= u);
            assert(v.last() == d.last());
        }
    }
}

/// The managed directories come first in the computed PATH, each exactly
/// once and in their own order; every managed directory is there.
pub proof fn law_env_managed_first(dirs: Seq<Seq<char>>, managed: Seq<Seq<char>>, blocked: Seq<Seq<char>>)
    ensures
        env_dirs(dirs, managed, blocked).take(unique_in_order(managed).len() as int) == unique_in_order(managed),
        forall|x: Seq<char>| managed.contains(x) ==> #[trigger] env_dirs(dirs, managed, blocked).contains(x),
        forall|i: int, j: int|
            0 <= i < j < env_dirs(dirs, managed, blocked).len() && #[trigger] env_dirs(dirs, managed, blocked)[i]
                == #[trigger] env_dirs(dirs, managed, blocked)[j] ==> !managed.contains(env_dirs(dirs, managed, blocked)[i]),
        forall|i: int, j: int|
            0 <= i < env_dirs(dirs, managed, blocked).len() && 0 <= j < env_dirs(dirs, managed, blocked).len()
                && managed.contains(#[trigger] env_dirs(dirs, managed, blocked)[j])
                && !managed.contains(#[trigger] env_dirs(dirs, managed, blocked)[i]) ==> j < i,
{
    let u = unique_in_order(managed);
    let o = unlisted(dirs, managed, blocked);
    let r = env_dirs(dirs, managed, blocked);
    assert(r.take(u.len() as int) =~= u);
    lemma_unique_no_dups(managed);
    assert forall|x: Seq<char>| managed.contains(x) implies #[trigger] r.contains(x) by {
        lemma_unique_contains(managed, x);
        let k = choose|k: int| 0 <= k < u.len() && u[k] == x;
        assert(r[k] == x);
    }
    assert forall|i: int| u.len() <= i < r.len() implies !managed.contains(#[trigger] r[i]) by {
        assert(r[i] == o[i - u.len()]);
        assert(o.contains(r[i]));
        lemma_unlisted_members(dirs, managed, blocked, r[i]);
    }
    assert forall|i: int| 0 <= i < u.len() implies managed.contains(#[trigger] r[i]) by {
        assert(r[i] == u[i]);
        assert(u.contains(u[i]));
        lemma_unique_contains(managed, u[i]);
    }
    assert forall|i: int, j: int|
        0 <= i < j < r.len() && #[trigger] r[i] == #[trigger] r[j] implies !managed.contains(r[i]) by {
        if managed.contains(r[i]) {
            if j >= u.len() {
                assert(!managed.contains(r[j]));
            } else {
                assert(r[i] == u[i] && r[j] == u[j]);
            }
        }
    }
}

/// Nothing blocked stays on the computed PATH unless it is managed, and
/// everything else on the current PATH stays.
pub proof fn law_env_blocked_and_kept(dirs: Seq<Seq<char>>, managed: Seq<Seq<char>>, blocked: Seq<Seq<char>>, x: Seq<char>)
    ensures
        env_dirs(dirs, managed, blocked).contains(x) && blocked.contains(x) ==> managed.contains(x),
        env_dirs(dirs, managed, blocked).contains(x) ==> managed.contains(x) || dirs.contains(x),
        dirs.contains(x) && !blocked.contains(x) ==> env_dirs(dirs, managed, blocked).contains(x),
{
    let u = unique_in_order(managed);
    let o = unlisted(dirs, managed, blocked);
    let r = env_dirs(dirs, managed, blocked);
    lemma_unique_contains(managed, x);
    lemma_unlisted_members(dirs, managed, blocked, x);
    if r.contains(x) {
        let k = choose|k: int| 0 <= k < r.len() && r[k] == x;
        if k < u.len() {
            assert(u[k] == x);
        } else {
            assert(o[k - u.len()] == x);
        }
    }
    if u.contains(x) {
        let k = choose|k: int| 0 <= k < u.len() && u[k] == x;
        assert(r[k] == x);
    }
    if o.contains(x) {
        let k = choose|k: int| 0 <= k < o.len() && o[k] == x;
        assert(r[k + u.len()] == x);
    }
    if dirs.contains(x) && !blocked.contains(x) && managed.contains(x) {
        assert(u.contains(x));
    }
}

/// Computing the PATH again from a computed PATH changes nothing.
pub proof fn law_env_idempotent(dirs: Seq<Seq<char>>, managed: Seq<Seq<char>>, blocked: Seq<Seq<char>>)
    ensures
        env_dirs(env_dirs(dirs, managed, blocked), managed, blocked) == env_dirs(dirs, managed, blocked),
{
    let u = unique_in_order(managed);
    let o = unlisted(dirs, managed, blocked);
    lemma_unlisted_concat(u, o, managed, blocked);
    assert forall|i: int| 0 <= i < u.len() implies managed.contains(#[trigger] u[i]) by {
        assert(u.contains(u[i]));
        lemma_unique_contains(managed, u[i]);
    }
    lemma_unlisted_of_managed(u, managed, blocked);
    lemma_unlisted_idempotent(dirs, managed, blocked);
    assert(Seq::<Seq<char>>::empty() + o =~= o);
}

/// A shell that sets its PATH to the `:`-joined output and runs `pave env`
/// again gets the same directories, when no managed directory holds `:`.
pub proof fn law_env_path_round_trip(current: Seq<char>, managed: Seq<Seq<char>>, blocked: Seq<Seq<char>>)
    requires
        forall|i: int| 0 <= i < managed.len() ==> !(#[trigger] managed[i]).contains(':'),
    ensures
        env_dirs(fields(join(env_dirs(fields(current, ':'), managed, blocked), seq![':']), ':'), managed, blocked)
            == env_dirs(fields(current, ':'), managed, blocked),
{
    let d = fields(current, ':');
    let u = unique_in_order(managed);
    let l = unlisted(d, managed, blocked);
    let r = env_dirs(d, managed, blocked);
    crate::text::lemma_fields_clean(current, ':');
    // Every entry of the output is free of `:`; those after the managed
    // ones are also non-empty.
    assert forall|i: int| 0 <= i < l.len() implies #[trigger] l[i].len() > 0 && !l[i].contains(':') by {
        lemma_unlisted_members(d, managed, blocked, l[i]);
        assert(l.contains(l[i]));
        let k = choose|k: int| 0 <= k < d.len() && d[k] == l[i];
        assert(d[k].len() > 0 && !d[k].contains(':'));
    }
    assert forall|i: int| 0 <= i < u.len() implies managed.contains(#[trigger] u[i]) by {
        lemma_unique_contains(managed, u[i]);
        assert(u.contains(u[i]));
    }
    assert forall|i: int| 0 <= i < r.len() implies !(#[trigger] r[i]).contains(':') by {
        if i < u.len() {
            assert(r[i] == u[i]);
            assert(managed.contains(u[i]));
            let k = choose|k: int| 0 <= k < managed.len() && managed[k] == u[i];
            assert(!managed[k].contains(':'));
        } else {
            assert(r[i] == l[i - u.len()]);
        }
    }
    // Reading the joined output back drops only its empty entries.
    if r.len() > 0 {
        crate::text::lemma_split_join(r, ':');
    } else {
        assert(join(r, seq![':']) =~= Seq::<char>::empty());
        crate::text::lemma_nonempty_only_blank();
    }
    assert(fields(join(r, seq![':']), ':') == crate::text::nonempty_only(r));
    crate::text::lemma_nonempty_only_concat(u, l);
    crate::text::lemma_nonempty_only_id(l);
    let nu = crate::text::nonempty_only(u);
    crate::text::lemma_nonempty_only_members(u);
    assert forall|i: int| 0 <= i < nu.len() implies managed.contains(#[trigger] nu[i]) by {
        assert(u.contains(nu[i]));
        let k = choose|k: int| 0 <= k < u.len() && u[k] == nu[i];
        assert(managed.contains(u[k]));
    }
    // The managed entries are filtered out again, and the rest is kept.
    lemma_unlisted_concat(nu, l, managed, blocked);
    lemma_unlisted_of_managed(nu, managed, blocked);
    lemma_unlisted_idempotent(d, managed, blocked);
    assert(Seq::<Seq<char>>::empty() + l =~= l);
}


/// `ds` without the members equal to `x`, in order (`retain(|d| d != x)`).
pub open spec fn without(ds: Seq<Seq<char>>, x: Seq<char>) -> Seq<Seq<char>>
    decreases ds.len(),
{
    if ds.len() == 0 {
        Seq::<Seq<char>>::empty()
    } else if ds.last() == x {
        without(ds.drop_last(), x)
    } else {
        without(ds.drop_last(), x).push(ds.last())
    }
}

/// The members of `ds` not in `b`, in order.
pub open spec fn not_in(ds: Seq<Seq<char>>, b: Seq<Seq<char>>) -> Seq<Seq<char>>
    decreases ds.len(),
{
    if ds.len() == 0 {
        Seq::<Seq<char>>::empty()
    } else if b.contains(ds.last()) {
        not_in(ds.drop_last(), b)
    } else {
        not_in(ds.drop_last(), b).push(ds.last())
    }
}

/// Taking out each blocked directory in turn.
pub open spec fn drop_blocked(ds: Seq<Seq<char>>, blocked: Seq<Seq<char>>) -> Seq<Seq<char>>
    decreases blocked.len(),
{
    if blocked.len() == 0 {
        ds
    } else {
        without(drop_blocked(ds, blocked.drop_last()), blocked.last())
    }
}

/// Moving each managed directory to the front, the last one first: the
/// directory is taken out wherever it is and put in front.
pub open spec fn front_managed(ds: Seq<Seq<char>>, managed: Seq<Seq<char>>) -> Seq<Seq<char>>
    decreases managed.len(),
{
    if managed.len() == 0 {
        ds
    } else {
        seq![managed[0]] + without(front_managed(ds, managed.drop_first()), managed[0])
    }
}

proof fn lemma_push_contains(b: Seq<Seq<char>>, x: Seq<char>, d: Seq<char>)
    ensures
        b.push(x).contains(d) == (b.contains(d) || d == x),
{
    if b.push(x).contains(d) {
        let k = choose|k: int| 0 <= k < b.push(x).len() && b.push(x)[k] == d;
        if k < b.len() {
            assert(b[k] == d);
        }
    }
    if b.contains(d) {
        let k = choose|k: int| 0 <= k < b.len() && b[k] == d;
        assert(b.push(x)[k] == d);
    }
    if d == x {
        assert(b.push(x)[b.len() as int] == d);
    }
}

proof fn lemma_without_not_in(ds: Seq<Seq<char>>, b: Seq<Seq<char>>, x: Seq<char>)
    ensures
        without(not_in(ds, b), x) == not_in(ds, b.push(x)),
    decreases ds.len(),
{
    if ds.len() > 0 {
        lemma_without_not_in(ds.drop_last(), b, x);
        lemma_push_contains(b, x, ds.last());
        let n = not_in(ds.drop_last(), b);
        if !b.contains(ds.last()) {
            assert(n.push(ds.last()).drop_last() =~= n);
            assert(n.push(ds.last()).last() == ds.last());
        }
    }
}

proof fn lemma_not_in_members(ds: Seq<Seq<char>>, b1: Seq<Seq<char>>, b2: Seq<Seq<char>>)
    requires
        forall|x: Seq<char>| #[trigger] b1.contains(x) == b2.contains(x),
    ensures
        not_in(ds, b1) == not_in(ds, b2),
    decreases ds.len(),
{
    if ds.len() > 0 {
        lemma_not_in_members(ds.drop_last(), b1, b2);
        assert(b1.contains(ds.last()) == b2.contains(ds.last()));
    }
}

proof fn lemma_without_concat(a: Seq<Seq<char>>, c: Seq<Seq<char>>, x: Seq<char>)
    ensures
        without(a + c, x) == without(a, x) + without(c, x),
    decreases c.len(),
{
    if c.len() == 0 {
        assert(a + c =~= a);
        assert(without(a, x) + without(c, x) =~= without(a, x));
    } else {
        lemma_without_concat(a, c.drop_last(), x);
        assert((a + c).drop_last() =~= a + c.drop_last());
        assert((a + c).last() == c.last());
        assert(without(a + c, x) =~= without(a, x) + without(c, x));
    }
}

proof fn lemma_unique_front(m0: Seq<char>, rest: Seq<Seq<char>>)
    ensures
        unique_in_order(seq![m0] + rest) == seq![m0] + without(unique_in_order(rest), m0),
    decreases rest.len(),
{
    let m = seq![m0] + rest;
    if rest.len() == 0 {
        assert(m =~= seq![m0]);
        assert(m.drop_last() =~= Seq::<Seq<char>>::empty());
        assert(unique_in_order(m.drop_last()) == Seq::<Seq<char>>::empty());
        assert(!m.drop_last().contains(m.last()));
        assert(m.last() == m0);
        assert(unique_in_order(m) =~= seq![m0]);
        assert(seq![m0] + without(unique_in_order(rest), m0) =~= seq![m0]);
    } else {
        let y = rest.last();
        let r2 = rest.drop_last();
        lemma_unique_front(m0, r2);
        assert(m.drop_last() =~= seq![m0] + r2);
        assert(m.last() == y);
        assert((seq![m0] + r2).contains(y) == (y == m0 || r2.contains(y))) by {
            if (seq![m0] + r2).contains(y) {
                let k = choose|k: int| 0 <= k < (seq![m0] + r2).len() && (seq![m0] + r2)[k] == y;
                if k > 0 {
                    assert(r2[k - 1] == y);
                }
            }
            if y == m0 {
                assert((seq![m0] + r2)[0] == y);
            }
            if r2.contains(y) {
                let k = choose|k: int| 0 <= k < r2.len() && r2[k] == y;
                assert((seq![m0] + r2)[k + 1] == y);
            }
        }
        let u2 = unique_in_order(r2);
        if y == m0 {
            if !r2.contains(y) {
                assert(without(u2.push(y), m0) == without(u2, m0)) by {
                    assert(u2.push(y).drop_last() =~= u2);
                }
            }
        } else if !r2.contains(y) {
            assert(without(u2.push(y), m0) =~= without(u2, m0).push(y)) by {
                assert(u2.push(y).drop_last() =~= u2);
            }
            assert(seq![m0] + without(u2, m0).push(y) =~= (seq![m0] + without(u2, m0)).push(y));
        }
    }
}

proof fn lemma_front_managed(d: Seq<Seq<char>>, m: Seq<Seq<char>>)
    ensures
        front_managed(d, m) == unique_in_order(m) + not_in(d, m),
    decreases m.len(),
{
    if m.len() == 0 {
        assert(not_in(d, m) == d) by {
            lemma_not_in_empty(d, m);
        }
        assert(unique_in_order(m) + d =~= d);
    } else {
        let m0 = m[0];
        let rest = m.drop_first();
        lemma_front_managed(d, rest);
        assert(m =~= seq![m0] + rest);
        lemma_unique_front(m0, rest);
        lemma_without_concat(unique_in_order(rest), not_in(d, rest), m0);
        lemma_without_not_in(d, rest, m0);
        assert forall|x: Seq<char>| #[trigger] rest.push(m0).contains(x) == m.contains(x) by {
            lemma_push_contains(rest, m0, x);
            if m.contains(x) {
                let k = choose|k: int| 0 <= k < m.len() && m[k] == x;
                if k > 0 {
                    assert(rest[k - 1] == x);
                }
            }
            if rest.contains(x) {
                let k = choose|k: int| 0 <= k < rest.len() && rest[k] == x;
                assert(m[k + 1] == x);
            }
            if x == m0 {
                assert(m[0] == x);
            }
        }
        lemma_not_in_members(d, rest.push(m0), m);
        assert(seq![m0] + (without(unique_in_order(rest), m0) + not_in(d, m)) =~= (seq![m0] + without(
            unique_in_order(rest),
            m0,
        )) + not_in(d, m));
    }
}

proof fn lemma_not_in_empty(d: Seq<Seq<char>>, m: Seq<Seq<char>>)
    requires
        m.len() == 0,
    ensures
        not_in(d, m) == d,
    decreases d.len(),
{
    if d.len() > 0 {
        lemma_not_in_empty(d.drop_last(), m);
        assert(!m.contains(d.last()));
        assert(d.drop_last().push(d.last()) =~= d);
    }
}

proof fn lemma_drop_blocked(ds: Seq<Seq<char>>, b: Seq<Seq<char>>)
    ensures
        drop_blocked(ds, b) == not_in(ds, b),
    decreases b.len(),
{
    if b.len() == 0 {
        lemma_not_in_empty(ds, b);
    } else {
        lemma_drop_blocked(ds, b.drop_last());
        lemma_without_not_in(ds, b.drop_last(), b.last());
        assert(b.drop_last().push(b.last()) =~= b);
    }
}

proof fn lemma_not_in_twice(ds: Seq<Seq<char>>, m: Seq<Seq<char>>, b: Seq<Seq<char>>)
    ensures
        not_in(not_in(ds, b), m) == unlisted(ds, m, b),
    decreases ds.len(),
{
    if ds.len() > 0 {
        lemma_not_in_twice(ds.drop_last(), m, b);
        let n = not_in(ds.drop_last(), b);
        if !b.contains(ds.last()) {
            assert(n.push(ds.last()).drop_last() =~= n);
            assert(n.push(ds.last()).last() == ds.last());
        }
    }
}

/// The PATH `pave env` computes is what taking out each blocked directory,
/// then moving each managed directory to the front (the last one first)
/// gives.
pub proof fn law_env_matches_procedure(dirs: Seq<Seq<char>>, managed: Seq<Seq<char>>, blocked: Seq<Seq<char>>)
    ensures
        front_managed(drop_blocked(dirs, blocked), managed) == env_dirs(dirs, managed, blocked),
{
    lemma_drop_blocked(dirs, blocked);
    lemma_front_managed(not_in(dirs, blocked), managed);
    lemma_not_in_twice(dirs, managed, blocked);
}


/// Filtering with a longer block list filters what the shorter one kept.
pub proof fn lemma_unlisted_more(d: Seq<Seq<char>>, m: Seq<Seq<char>>, b: Seq<Seq<char>>, b2: Seq<Seq<char>>)
    requires
        forall|x: Seq<char>| b.contains(x) ==> #[trigger] b2.contains(x),
    ensures
        unlisted(d, m, b2) == unlisted(unlisted(d, m, b), m, b2),
    decreases d.len(),
{
    if d.len() > 0 {
        let d1 = d.drop_last();
        let x = d.last();
        lemma_unlisted_more(d1, m, b, b2);
        let u = unlisted(d1, m, b);
        if !m.contains(x) && !b.contains(x) {
            assert(u.push(x).drop_last() =~= u);
            assert(u.push(x).last() == x);
        }
    }
}

/// Blocking more directories never adds one to the computed PATH: the
/// managed directories still come first, the same as before, and the rest
/// is what the shorter block list kept, filtered once more.
pub proof fn law_env_block_more(
    dirs: Seq<Seq<char>>,
    managed: Seq<Seq<char>>,
    blocked: Seq<Seq<char>>,
    more: Seq<Seq<char>>,
)
    requires
        forall|x: Seq<char>| blocked.contains(x) ==> #[trigger] more.contains(x),
    ensures
        env_dirs(dirs, managed, more) == unique_in_order(managed) + unlisted(
            unlisted(dirs, managed, blocked),
            managed,
            more,
        ),
        env_dirs(dirs, managed, more).take(unique_in_order(managed).len() as int) == env_dirs(
            dirs,
            managed,
            blocked,
        ).take(unique_in_order(managed).len() as int),
{
    lemma_unlisted_more(dirs, managed, blocked, more);
    let k = unique_in_order(managed).len() as int;
    assert(env_dirs(dirs, managed, more).take(k) =~= unique_in_order(managed));
    assert(env_dirs(dirs, managed, blocked).take(k) =~= unique_in_order(managed));
}

/// A process in a snapshot of the running processes.
pub struct ProcessEntry {
    pub pid: u32,
    pub parent_pid: u32,
    /// The name of its executable file.
    pub exe_name: String,
}

/// The first process in `ps` with the id `pid`.
pub open spec fn process_with(ps: Seq<ProcessEntry>, pid: u32) -> Option<ProcessEntry>
    decreases ps.len(),
{
    if ps.len() == 0 {
        None
    } else if ps[0].pid == pid {
        Some(ps[0])
    } else {
        process_with(ps.drop_first(), pid)
    }
}

/// The executable name of the parent of the process `pid`, both looked up
/// in the snapshot `ps` by their first entry.
pub open spec fn parent_name(ps: Seq<ProcessEntry>, pid: u32) -> Option<Seq<char>> {
    match process_with(ps, pid) {
        Some(me) => match process_with(ps, me.parent_pid) {
            Some(parent) => Some(parent.exe_name@),
            None => None,
        },
        None => None,
    }
}

fn find_process(ps: &Vec<ProcessEntry>, pid: u32) -> (r: Option<usize>)
    ensures
        match r {
            Some(i) => i < ps@.len() && process_with(ps@, pid) == Some(ps@[i as int]),
            None => process_with(ps@, pid) is None,
        },
{
    let mut i: usize = 0;
    proof {
        assert(ps@.skip(0) =~= ps@);
    }
    while i < ps.len()
        invariant
            i <= ps@.len(),
            process_with(ps@, pid) == process_with(ps@.skip(i as int), pid),
        decreases ps@.len() - i,
    {
        proof {
            assert(ps@.skip(i as int)[0] == ps@[i as int]);
            assert(ps@.skip(i as int).drop_first() =~= ps@.skip(i + 1));
        }
        if ps[i].pid == pid {
            return Some(i);
        }
        i = i + 1;
    }
    None
}

/// The executable name of the parent of the process `pid`, from a snapshot
/// of the running processes.
pub fn parent_process_name(snapshot: &Vec<ProcessEntry>, pid: u32) -> (r: Option<String>)
    ensures
        opt_view(r) == parent_name(snapshot@, pid),
{
    match find_process(snapshot, pid) {
        Some(i) => match find_process(snapshot, snapshot[i].parent_pid) {
            Some(k) => Some(snapshot[k].exe_name.clone()),
            None => None,
        },
        None => None,
    }
}

} // verus!
