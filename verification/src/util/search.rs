//! Searching the filesystem for an executable: which directories to offer.

use vstd::prelude::*;
use crate::platform::Platform;
use vstd::string::*;
use crate::text::{views, decimal, decimal_string};
use crate::components::{
    Component, Rank, parts, parts_less, parts_view, same_path, has_same, parent_of, opt_view, parent,
    components, compare_parts, lemma_parts_less_irreflexive, lemma_parts_less_transitive,
    lemma_parts_less_total,
};

verus! {

/// The parents of those of `files` that have one, in order.
pub open spec fn parents_of(p: Platform, files: Seq<Seq<char>>) -> Seq<Seq<char>>
    decreases files.len(),
{
    if files.len() == 0 {
        Seq::<Seq<char>>::empty()
    } else {
        match parent_of(p, files.last()) {
            Some(d) => parents_of(p, files.drop_last()).push(d),
            None => parents_of(p, files.drop_last()),
        }
    }
}

/// The members of `xs` in order, each only where no earlier one is the same
/// path.
pub open spec fn distinct_paths(p: Platform, xs: Seq<Seq<char>>) -> Seq<Seq<char>>
    decreases xs.len(),
{
    if xs.len() == 0 {
        Seq::<Seq<char>>::empty()
    } else if has_same(p, distinct_paths(p, xs.drop_last()), xs.last()) {
        distinct_paths(p, xs.drop_last())
    } else {
        distinct_paths(p, xs.drop_last()).push(xs.last())
    }
}

/// `xs` is in strictly increasing path order.
pub open spec fn sorted_paths(p: Platform, xs: Seq<Seq<char>>) -> bool {
    forall|i: int, j: int| 0 <= i < j < xs.len() ==> parts_less(#[trigger] parts(p, xs[i]), #[trigger] parts(p, xs[j]))
}

/// Both sequences hold the same members.
pub open spec fn same_members(a: Seq<Seq<char>>, b: Seq<Seq<char>>) -> bool {
    forall|x: Seq<char>| #[trigger] a.contains(x) == b.contains(x)
}

/// Lists with the same members hold the same paths.
pub proof fn lemma_has_same_members(p: Platform, a: Seq<Seq<char>>, b: Seq<Seq<char>>, x: Seq<char>)
    requires
        same_members(a, b),
    ensures
        has_same(p, a, x) == has_same(p, b, x),
{
    if has_same(p, a, x) {
        let k = choose|k: int| 0 <= k < a.len() && #[trigger] same_path(p, a[k], x);
        assert(a.contains(a[k]));
        assert(b.contains(a[k]));
        let m = choose|m: int| 0 <= m < b.len() && b[m] == a[k];
        assert(same_path(p, b[m], x));
    }
    if has_same(p, b, x) {
        let k = choose|k: int| 0 <= k < b.len() && #[trigger] same_path(p, b[k], x);
        assert(b.contains(b[k]));
        assert(a.contains(b[k]));
        let m = choose|m: int| 0 <= m < a.len() && a[m] == b[k];
        assert(same_path(p, a[m], x));
    }
}

/// The keys are the components of the paths, one for one.
pub open spec fn keyed(p: Platform, out: Seq<String>, keys: Seq<Vec<Component>>) -> bool {
    &&& keys.len() == out.len()
    &&& forall|j: int| 0 <= j < out.len() ==> parts_view(#[trigger] keys[j]@) == parts(p, out[j]@)
}

/// Puts `x` into the sorted list `out` (with its components in `keys`),
/// unless a member is already the same path.
fn insert_path(out: &mut Vec<String>, keys: &mut Vec<Vec<Component>>, x: String, p: Platform)
    requires
        keyed(p, old(out)@, old(keys)@),
        sorted_paths(p, views(old(out)@)),
    ensures
        keyed(p, final(out)@, final(keys)@),
        sorted_paths(p, views(final(out)@)),
        has_same(p, views(old(out)@), x@) ==> views(final(out)@) == views(old(out)@),
        !has_same(p, views(old(out)@), x@) ==> same_members(views(final(out)@), views(old(out)@).push(x@))
            && views(final(out)@).len() == views(old(out)@).len() + 1,
{
    let ghost vo = views(out@);
    let key = components(x.as_str(), p);
    let ghost kx = parts(p, x@);
    let mut k: usize = 0;
    let mut dup = false;
    while k < keys.len()
        invariant_except_break
            !dup,
        invariant
            k <= keys@.len() == out@.len(),
            vo == views(out@),
            parts_view(key@) == kx,
            keyed(p, out@, keys@),
            forall|j: int| 0 <= j < k ==> parts_less(#[trigger] parts(p, out@[j]@), kx),
        ensures
            dup ==> k < out@.len() && parts(p, out@[k as int]@) == kx,
            !dup && k < out@.len() ==> parts_less(kx, parts(p, out@[k as int]@)),
        decreases keys@.len() - k,
    {
        let c = compare_parts(&key, &keys[k]);
        if c == Rank::Same {
            dup = true;
            break;
        }
        if c == Rank::Less {
            break;
        }
        k = k + 1;
    }
    if dup {
        proof {
            assert(same_path(p, vo[k as int], x@));
        }
        return;
    }
    proof {
        assert forall|j: int| 0 <= j < vo.len() implies parts(p, vo[j]) != kx by {
            if j < k {
                lemma_parts_less_irreflexive(kx);
            } else {
                if j > k {
                    lemma_parts_less_transitive(kx, parts(p, vo[k as int]), parts(p, vo[j]));
                }
                lemma_parts_less_irreflexive(kx);
            }
        }
        if has_same(p, vo, x@) {
            let m = choose|m: int| 0 <= m < vo.len() && #[trigger] same_path(p, vo[m], x@);
            assert(false);
        }
    }
    let ghost old_out = out@;
    let ghost old_keys = keys@;
    let ghost px = x@;
    out.insert(k, x);
    keys.insert(k, key);
    proof {
        let vn = views(out@);
        assert(vn =~= vo.insert(k as int, px));
        assert forall|j: int| 0 <= j < out@.len() implies parts_view(#[trigger] keys@[j]@) == parts(p, out@[j]@) by {
            if j < k {
                assert(out@[j] == old_out[j] && keys@[j] == old_keys[j]);
            } else if j > k {
                assert(out@[j] == old_out[j - 1] && keys@[j] == old_keys[j - 1]);
            }
        }
        assert forall|j: int| 0 <= j < vo.len() && j >= k implies parts_less(kx, #[trigger] parts(p, vo[j])) by {
            if j > k {
                lemma_parts_less_transitive(kx, parts(p, vo[k as int]), parts(p, vo[j]));
            }
        }
        assert forall|a: int, b: int| 0 <= a < b < vn.len() implies parts_less(#[trigger] parts(p, vn[a]), #[trigger] parts(p, vn[b])) by {
            if b < k {
                assert(vn[a] == vo[a] && vn[b] == vo[b]);
            } else if b == k {
                assert(vn[a] == vo[a] && vn[b] == px);
            } else if a < k {
                assert(vn[a] == vo[a] && vn[b] == vo[b - 1]);
                assert(parts_less(parts(p, vo[a]), kx));
                assert(parts_less(kx, parts(p, vo[b - 1])));
                lemma_parts_less_transitive(parts(p, vo[a]), kx, parts(p, vo[b - 1]));
            } else if a == k {
                assert(vn[a] == px && vn[b] == vo[b - 1]);
            } else {
                assert(vn[a] == vo[a - 1] && vn[b] == vo[b - 1]);
            }
        }
        let dn = vo.push(px);
        assert forall|y: Seq<char>| #[trigger] vn.contains(y) == dn.contains(y) by {
            if vn.contains(y) {
                let j = choose|j: int| 0 <= j < vn.len() && vn[j] == y;
                if j < k {
                    assert(dn[j] == y);
                } else if j > k {
                    assert(dn[j - 1] == y);
                } else {
                    assert(dn[vo.len() as int] == y);
                }
            }
            if dn.contains(y) {
                let m = choose|m: int| 0 <= m < dn.len() && dn[m] == y;
                if m < k {
                    assert(vn[m] == y);
                } else if m < vo.len() {
                    assert(vn[m + 1] == y);
                } else {
                    assert(vn[k as int] == y);
                }
            }
        }
    }
}

/// `xs` once per path, in path order: where members are the same path, the
/// first is kept. This is what collecting paths into a set and sorting
/// them gives.
pub fn sorted_distinct_paths(xs: &Vec<String>, p: Platform) -> (r: Vec<String>)
    ensures
        sorted_paths(p, views(r@)),
        same_members(views(r@), distinct_paths(p, views(xs@))),
        views(r@).len() == distinct_paths(p, views(xs@)).len(),
{
    let ghost vx = views(xs@);
    let mut out: Vec<String> = Vec::new();
    let mut keys: Vec<Vec<Component>> = Vec::new();
    let mut i: usize = 0;
    while i < xs.len()
        invariant
            i <= xs@.len(),
            vx == views(xs@),
            keyed(p, out@, keys@),
            sorted_paths(p, views(out@)),
            same_members(views(out@), distinct_paths(p, vx.take(i as int))),
            views(out@).len() == distinct_paths(p, vx.take(i as int)).len(),
        decreases xs@.len() - i,
    {
        let ghost d = distinct_paths(p, vx.take(i as int));
        let ghost before = views(out@);
        proof {
            assert(vx.take(i + 1).drop_last() =~= vx.take(i as int));
            assert(vx.take(i + 1).last() == vx[i as int]);
            lemma_has_same_members(p, before, d, vx[i as int]);
        }
        insert_path(&mut out, &mut keys, xs[i].clone(), p);
        proof {
            let after = views(out@);
            if !has_same(p, d, vx[i as int]) {
                let dn = d.push(vx[i as int]);
                assert forall|y: Seq<char>| #[trigger] after.contains(y) == dn.contains(y) by {
                    assert(after.contains(y) == before.push(vx[i as int]).contains(y));
                    if before.push(vx[i as int]).contains(y) {
                        let j = choose|j: int| 0 <= j < before.len() + 1 && before.push(vx[i as int])[j] == y;
                        if j < before.len() {
                            assert(before.contains(y));
                            assert(d.contains(y));
                            let m = choose|m: int| 0 <= m < d.len() && d[m] == y;
                            assert(dn[m] == y);
                        } else {
                            assert(dn[d.len() as int] == y);
                        }
                    }
                    if dn.contains(y) {
                        let m = choose|m: int| 0 <= m < dn.len() && dn[m] == y;
                        if m < d.len() {
                            assert(d.contains(y));
                            assert(before.contains(y));
                            let j = choose|j: int| 0 <= j < before.len() && before[j] == y;
                            assert(before.push(vx[i as int])[j] == y);
                        } else {
                            assert(before.push(vx[i as int])[before.len() as int] == y);
                        }
                    }
                }
            }
        }
        i = i + 1;
    }
    proof {
        assert(vx.take(i as int) =~= vx);
    }
    out
}

/// The parents of those of `files` that have one, in order.
pub fn parents(files: &Vec<String>, p: Platform) -> (r: Vec<String>)
    ensures
        views(r@) == parents_of(p, views(files@)),
{
    let ghost vf = views(files@);
    let mut out: Vec<String> = Vec::new();
    let mut i: usize = 0;
    while i < files.len()
        invariant
            i <= files@.len(),
            vf == views(files@),
            views(out@) == parents_of(p, vf.take(i as int)),
        decreases files@.len() - i,
    {
        let ghost before = views(out@);
        proof {
            assert(vf.take(i + 1).drop_last() =~= vf.take(i as int));
            assert(vf.take(i + 1).last() == vf[i as int]);
        }
        match parent(files[i].as_str(), p) {
            Some(d) => {
                let ghost dv = d@;
                out.push(d);
                proof {
                    assert(views(out@) =~= before.push(dv));
                }
            },
            None => {},
        }
        i = i + 1;
    }
    proof {
        assert(vf.take(i as int) =~= vf);
    }
    out
}

/// The directories that hold the found `files`, as the search offers them:
/// the parent of each file that has one, once per path, in path order.
/// Where two parents are the same path, the text of the first is kept.
pub fn search_parent_dirs(files: &Vec<String>, p: Platform) -> (r: Vec<String>)
    ensures
        sorted_paths(p, views(r@)),
        same_members(views(r@), distinct_paths(p, parents_of(p, views(files@)))),
        views(r@).len() == distinct_paths(p, parents_of(p, views(files@))).len(),
{
    let ps = parents(files, p);
    sorted_distinct_paths(&ps, p)
}

/// Every member of `xs` is the same path as some member of its distinct
/// paths.
pub proof fn lemma_distinct_covers(p: Platform, xs: Seq<Seq<char>>)
    ensures
        forall|i: int| 0 <= i < xs.len() ==> has_same(p, distinct_paths(p, xs), #[trigger] xs[i]),
    decreases xs.len(),
{
    if xs.len() > 0 {
        let ys = xs.drop_last();
        lemma_distinct_covers(p, ys);
        let d = distinct_paths(p, ys);
        let dn = distinct_paths(p, xs);
        assert forall|i: int| 0 <= i < xs.len() implies has_same(p, dn, #[trigger] xs[i]) by {
            if i < ys.len() {
                assert(xs[i] == ys[i]);
                assert(has_same(p, d, ys[i]));
                let k = choose|k: int| 0 <= k < d.len() && #[trigger] same_path(p, d[k], ys[i]);
                if !has_same(p, d, xs.last()) {
                    assert(dn[k] == d[k]);
                }
                assert(same_path(p, dn[k], xs[i]));
            } else {
                if !has_same(p, d, xs.last()) {
                    assert(same_path(p, dn[d.len() as int], xs[i]));
                }
            }
        }
    }
}

/// Every file that has a parent contributes it.
pub proof fn lemma_parents_cover(p: Platform, files: Seq<Seq<char>>)
    ensures
        forall|i: int| 0 <= i < files.len() && (#[trigger] parent_of(p, files[i])) is Some ==> parents_of(p, files).contains(
            parent_of(p, files[i])->0,
        ),
    decreases files.len(),
{
    if files.len() > 0 {
        let gs = files.drop_last();
        lemma_parents_cover(p, gs);
        let ps = parents_of(p, gs);
        assert forall|i: int| 0 <= i < files.len() && (#[trigger] parent_of(p, files[i])) is Some implies parents_of(p, files).contains(
            parent_of(p, files[i])->0,
        ) by {
            if i < gs.len() {
                assert(files[i] == gs[i]);
                let x = parent_of(p, gs[i])->0;
                assert(ps.contains(x));
                let k = choose|k: int| 0 <= k < ps.len() && ps[k] == x;
                if parent_of(p, files.last()) is Some {
                    assert(parents_of(p, files)[k] == x);
                }
            } else {
                assert(files[i] == files.last());
                assert(parents_of(p, files)[ps.len() as int] == parent_of(p, files[i])->0);
            }
        }
    }
}

/// The directories a search offers cover every found file: each file's
/// parent is the same path as one of them; and no two of them are the same
/// path.
pub proof fn law_search_dirs(p: Platform, files: Seq<Seq<char>>, dirs: Seq<Seq<char>>)
    requires
        sorted_paths(p, dirs),
        same_members(dirs, distinct_paths(p, parents_of(p, files))),
    ensures
        forall|i: int| 0 <= i < files.len() && (#[trigger] parent_of(p, files[i])) is Some ==> has_same(p, dirs, parent_of(p, files[i])->0),
        forall|i: int, j: int| 0 <= i < j < dirs.len() ==> !same_path(p, #[trigger] dirs[i], #[trigger] dirs[j]),
{
    let ps = parents_of(p, files);
    let d = distinct_paths(p, ps);
    lemma_parents_cover(p, files);
    lemma_distinct_covers(p, ps);
    lemma_has_same_members(p, dirs, d, Seq::<char>::empty());
    assert forall|i: int| 0 <= i < files.len() && (#[trigger] parent_of(p, files[i])) is Some implies has_same(p, dirs, parent_of(p, files[i])->0) by {
        let x = parent_of(p, files[i])->0;
        assert(ps.contains(x));
        let k = choose|k: int| 0 <= k < ps.len() && ps[k] == x;
        assert(has_same(p, d, ps[k]));
        lemma_has_same_members(p, dirs, d, x);
    }
    assert forall|i: int, j: int| 0 <= i < j < dirs.len() implies !same_path(p, #[trigger] dirs[i], #[trigger] dirs[j]) by {
        lemma_parts_less_irreflexive(parts(p, dirs[i]));
    }
}

/// The progress message shown after `count` entries, every thousandth one.
pub open spec fn progress_text(count: u64) -> Option<Seq<char>> {
    if count % 1000 == 0 {
        Some("Searching... "@ + decimal(count as nat) + " entries scanned"@)
    } else {
        None
    }
}

/// The progress message to show once `count` entries have been scanned.
pub fn progress_message(count: u64) -> (r: Option<String>)
    ensures
        opt_view(r) == progress_text(count),
{
    if count % 1000 != 0 {
        return None;
    }
    let mut msg = String::from_str("Searching... ");
    let num = decimal_string(count);
    msg.append(num.as_str());
    msg.append(" entries scanned");
    Some(msg)
}

/// The message that closes a search of `total` entries.
pub fn searched_message(total: u64) -> (r: String)
    ensures
        r@ == "Searched "@ + decimal(total as nat) + " entries."@,
{
    let mut msg = String::from_str("Searched ");
    let num = decimal_string(total);
    msg.append(num.as_str());
    msg.append(" entries.");
    msg
}

/// The directories a search skips unless asked to look everywhere.
pub open spec fn skipped_dirs() -> Seq<Seq<char>> {
    seq!["node_modules"@, ".git"@, "__pycache__"@, ".cache"@, "site-packages"@]
}

/// The system directories a search on Windows skips.
pub open spec fn skipped_windows_dirs() -> Seq<Seq<char>> {
    seq!["Windows/WinSxS"@, "Windows/assembly"@, "Windows/servicing"@]
}

/// The override globs that exclude the skipped directories: `!**/<dir>/`
/// for each skipped name anywhere, and on Windows `!<dir>/` for each
/// skipped system directory under the root.
pub open spec fn override_globs_of(p: Platform) -> Seq<Seq<char>> {
    skipped_dirs().map_values(|d: Seq<char>| "!**/"@ + d + "/"@) + if p == Platform::Windows {
        skipped_windows_dirs().map_values(|d: Seq<char>| "!"@ + d + "/"@)
    } else {
        Seq::<Seq<char>>::empty()
    }
}

fn glob_for(prefix: &str, dir: &str) -> (r: String)
    ensures
        r@ == prefix@ + dir@ + "/"@,
{
    let mut g = String::from_str(prefix);
    g.append(dir);
    g.append("/");
    g
}

/// The override globs a search without `--all` adds.
pub fn override_globs(p: Platform) -> (r: Vec<String>)
    ensures
        views(r@) == override_globs_of(p),
{
    let mut out: Vec<String> = Vec::new();
    out.push(glob_for("!**/", "node_modules"));
    out.push(glob_for("!**/", ".git"));
    out.push(glob_for("!**/", "__pycache__"));
    out.push(glob_for("!**/", ".cache"));
    out.push(glob_for("!**/", "site-packages"));
    if p == Platform::Windows {
        out.push(glob_for("!", "Windows/WinSxS"));
        out.push(glob_for("!", "Windows/assembly"));
        out.push(glob_for("!", "Windows/servicing"));
    }
    proof {
        assert(views(out@) =~= override_globs_of(p));
    }
    out
}

/// The Windows file attributes of files kept in the cloud (recall on data
/// access, recall on open, offline).
pub open spec fn cloud_attrs() -> u32 {
    0x00400000u32 | 0x00040000u32 | 0x00001000u32
}

/// Whether a file with these Windows attributes is a cloud placeholder that
/// the search skips.
pub fn is_cloud_placeholder(attrs: u32) -> (r: bool)
    ensures
        r == (attrs & cloud_attrs() != 0),
{
    attrs & (0x00400000u32 | 0x00040000u32 | 0x00001000u32) != 0
}

} // verus!
