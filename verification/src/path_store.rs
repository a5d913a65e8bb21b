//! The directories `pave` manages and the ones it blocks: how the lists are
//! stored and how adding, removing and blocking change them.
//!
//! On Unix each list is a file with one directory per line; on Windows the
//! managed list is the user's `Path` registry value, `;`-separated, and
//! nothing is blocked.

use vstd::prelude::*;
use crate::platform::Platform;
use crate::text::{
    views, fields, text_lines, terminated, join, clean_entries, split_nonempty, nonempty_lines,
    terminated_lines, join_with, lemma_fields_join, lemma_lines_terminated,
};
use crate::components::{same_path, has_same, paths_equal};

verus! {

/// The managed directories stored in `contents`: the non-empty lines of
/// the list file on Unix, the non-empty `;`-separated entries of the
/// registry value on Windows.
pub open spec fn managed_entries(p: Platform, contents: Seq<char>) -> Seq<Seq<char>> {
    if p == Platform::Windows {
        fields(contents, ';')
    } else {
        text_lines(contents)
    }
}

/// The text that stores the managed directories `paths`.
pub open spec fn managed_text(p: Platform, paths: Seq<Seq<char>>) -> Seq<char> {
    if p == Platform::Windows {
        join(paths, seq![';'])
    } else {
        terminated(paths)
    }
}

/// Entries that can be stored and read back: non-empty, without the
/// character that ends or separates entries, and (on Unix) not ending in a
/// carriage return.
pub open spec fn storable(p: Platform, paths: Seq<Seq<char>>) -> bool {
    if p == Platform::Windows {
        clean_entries(paths, ';')
    } else {
        clean_entries(paths, '\n') && forall|i: int| 0 <= i < paths.len() ==> (#[trigger] paths[i]).last() != '\r'
    }
}

/// The managed directories stored in `contents`.
pub fn list_managed(contents: &str, p: Platform) -> (r: Vec<String>)
    ensures
        views(r@) == managed_entries(p, contents@),
{
    if p == Platform::Windows {
        split_nonempty(contents, ';')
    } else {
        nonempty_lines(contents)
    }
}

/// The text that stores the managed directories `paths`: one per line on
/// Unix, joined with `;` on Windows.
pub fn write_managed(paths: &Vec<String>, p: Platform) -> (r: String)
    ensures
        r@ == managed_text(p, views(paths@)),
{
    if p == Platform::Windows {
        let sep = ";";
        proof {
            reveal_strlit(";");
            assert(sep@ =~= seq![';']);
        }
        join_with(paths, sep)
    } else {
        terminated_lines(paths)
    }
}

/// The blocked directories stored in `contents`: the non-empty lines of the
/// list file on Unix; none on Windows.
pub fn list_blocked(contents: &str, p: Platform) -> (r: Vec<String>)
    ensures
        p == Platform::Windows ==> r@.len() == 0,
        p == Platform::Unix ==> views(r@) == text_lines(contents@),
{
    if p == Platform::Windows {
        Vec::new()
    } else {
        nonempty_lines(contents)
    }
}

/// The text of the blocked list file, one directory per line; nothing to
/// write on Windows.
pub fn write_blocked(paths: &Vec<String>, p: Platform) -> (r: Option<String>)
    ensures
        p == Platform::Windows ==> r is None,
        p == Platform::Unix ==> r is Some && r->0@ == terminated(views(paths@)),
{
    if p == Platform::Windows {
        None
    } else {
        Some(terminated_lines(paths))
    }
}

/// Reading back what was written gives the same managed directories.
pub proof fn law_managed_round_trip(p: Platform, paths: Seq<Seq<char>>)
    requires
        storable(p, paths),
    ensures
        managed_entries(p, managed_text(p, paths)) == paths,
{
    if p == Platform::Windows {
        lemma_fields_join(paths, ';');
    } else {
        lemma_lines_terminated(paths);
    }
}

/// Reading back the blocked list file gives the same directories.
pub proof fn law_blocked_round_trip(paths: Seq<Seq<char>>)
    requires
        storable(Platform::Unix, paths),
    ensures
        text_lines(terminated(paths)) == paths,
{
    lemma_lines_terminated(paths);
}

/// The members of `xs` that are not the same path as `x`, in order.
pub open spec fn without_path(p: Platform, xs: Seq<Seq<char>>, x: Seq<char>) -> Seq<Seq<char>>
    decreases xs.len(),
{
    if xs.len() == 0 {
        Seq::<Seq<char>>::empty()
    } else if same_path(p, xs.last(), x) {
        without_path(p, xs.drop_last(), x)
    } else {
        without_path(p, xs.drop_last(), x).push(xs.last())
    }
}

/// A directory as it is written, with its canonical form (the text itself,
/// or empty, when it could not be resolved).
pub struct PathEntry {
    pub text: String,
    pub canonical: String,
}

/// The written forms of `v`.
pub open spec fn texts(v: Seq<PathEntry>) -> Seq<Seq<char>> {
    v.map_values(|e: PathEntry| e.text@)
}

/// The canonical forms of `v`.
pub open spec fn canons(v: Seq<PathEntry>) -> Seq<Seq<char>> {
    v.map_values(|e: PathEntry| e.canonical@)
}

/// The members of `v` whose canonical form is not the same path as `x`,
/// in order.
pub open spec fn kept_entries(p: Platform, v: Seq<PathEntry>, x: Seq<char>) -> Seq<PathEntry>
    decreases v.len(),
{
    if v.len() == 0 {
        Seq::<PathEntry>::empty()
    } else if same_path(p, v.last().canonical@, x) {
        kept_entries(p, v.drop_last(), x)
    } else {
        kept_entries(p, v.drop_last(), x).push(v.last())
    }
}

/// What adding a directory does to the lists.
pub struct AddPlan {
    /// Whether the directory was added (it was not managed yet).
    pub added: bool,
    /// The managed list to store, when `added`.
    pub managed: Vec<String>,
    /// The blocked list to store, when the directory was blocked.
    pub blocked: Option<Vec<String>>,
}

/// Whether some member of `v` is the same path as `x`.
pub fn holds_path(v: &Vec<String>, x: &str, p: Platform) -> (r: bool)
    ensures
        r == has_same(p, views(v@), x@),
{
    let mut i: usize = 0;
    while i < v.len()
        invariant
            i <= v@.len(),
            forall|k: int| 0 <= k < i ==> !same_path(p, #[trigger] views(v@)[k], x@),
        decreases v@.len() - i,
    {
        if paths_equal(v[i].as_str(), x, p) {
            proof {
                assert(same_path(p, views(v@)[i as int], x@));
            }
            return true;
        }
        i = i + 1;
    }
    false
}

/// The members of `xs` that are not the same path as `x`.
fn retain_other_paths(xs: &Vec<String>, x: &str, p: Platform) -> (r: Vec<String>)
    ensures
        views(r@) == without_path(p, views(xs@), x@),
{
    let ghost vx = views(xs@);
    let mut out: Vec<String> = Vec::new();
    let mut i: usize = 0;
    while i < xs.len()
        invariant
            i <= xs@.len(),
            vx == views(xs@),
            views(out@) == without_path(p, vx.take(i as int), x@),
        decreases xs@.len() - i,
    {
        let ghost before = out@;
        proof {
            assert(vx.take(i + 1).drop_last() =~= vx.take(i as int));
            assert(vx.take(i + 1).last() == xs@[i as int]@);
        }
        if !paths_equal(xs[i].as_str(), x, p) {
            out.push(xs[i].clone());
            proof {
                assert(views(out@) =~= views(before).push(xs@[i as int]@));
            }
        }
        i = i + 1;
    }
    proof {
        assert(vx.take(i as int) =~= vx);
    }
    out
}

/// The written forms of the members of `v` whose canonical form is not the
/// same path as `x`.
fn retain_unmatched(v: &Vec<PathEntry>, x: &str, p: Platform) -> (r: Vec<String>)
    ensures
        views(r@) == texts(kept_entries(p, v@, x@)),
{
    let mut out: Vec<String> = Vec::new();
    let mut i: usize = 0;
    while i < v.len()
        invariant
            i <= v@.len(),
            views(out@) == texts(kept_entries(p, v@.take(i as int), x@)),
        decreases v@.len() - i,
    {
        let ghost before = out@;
        let ghost k = kept_entries(p, v@.take(i as int), x@);
        proof {
            assert(v@.take(i + 1).drop_last() =~= v@.take(i as int));
            assert(v@.take(i + 1).last() == v@[i as int]);
        }
        if !paths_equal(v[i].canonical.as_str(), x, p) {
            out.push(v[i].text.clone());
            proof {
                assert(texts(k.push(v@[i as int])) =~= texts(k).push(v@[i as int].text@));
                assert(views(out@) =~= views(before).push(v@[i as int].text@));
            }
        }
        i = i + 1;
    }
    proof {
        assert(v@.take(i as int) =~= v@);
    }
    out
}

/// Whether the canonical form of some member of `v` is the same path as
/// `x`.
fn holds_canonical(v: &Vec<PathEntry>, x: &str, p: Platform) -> (r: bool)
    ensures
        r == has_same(p, canons(v@), x@),
{
    let mut i: usize = 0;
    while i < v.len()
        invariant
            i <= v@.len(),
            forall|k: int| 0 <= k < i ==> !same_path(p, #[trigger] canons(v@)[k], x@),
        decreases v@.len() - i,
    {
        if paths_equal(v[i].canonical.as_str(), x, p) {
            proof {
                assert(same_path(p, canons(v@)[i as int], x@));
            }
            return true;
        }
        i = i + 1;
    }
    false
}

/// Adds the (canonical) directory `path` to the managed list: nothing
/// changes when a managed entry is already the same path; otherwise the
/// directory is appended, and taken off the blocked list if it was there.
pub fn add(managed: &Vec<String>, blocked: &Vec<String>, path: &String, p: Platform) -> (r: AddPlan)
    ensures
        r.added == !has_same(p, views(managed@), path@),
        r.added ==> views(r.managed@) == views(managed@).push(path@),
        !r.added ==> views(r.managed@) == views(managed@) && r.blocked is None,
        r.added ==> (r.blocked is Some <==> has_same(p, views(blocked@), path@)),
        r.blocked is Some ==> views(r.blocked->0@) == without_path(p, views(blocked@), path@),
{
    if holds_path(managed, path.as_str(), p) {
        return AddPlan { added: false, managed: managed.clone(), blocked: None };
    }
    let blocked_now = if holds_path(blocked, path.as_str(), p) {
        Some(retain_other_paths(blocked, path.as_str(), p))
    } else {
        None
    };
    let mut next = managed.clone();
    let ghost before = views(next@);
    next.push(path.clone());
    proof {
        assert(views(next@) =~= before.push(path@));
    }
    AddPlan { added: true, managed: next, blocked: blocked_now }
}

/// Removes the directory whose canonical form is `target` from the managed
/// list, comparing it with the canonical form of each entry. `None` when no
/// entry matched; otherwise the entries that stay, to be stored.
pub fn remove(managed: &Vec<PathEntry>, target: &String, p: Platform) -> (r: Option<Vec<String>>)
    ensures
        r is None <==> !has_same(p, canons(managed@), target@),
        r is Some ==> views(r->0@) == texts(kept_entries(p, managed@, target@)),
{
    if !holds_canonical(managed, target.as_str(), p) {
        return None;
    }
    Some(retain_unmatched(managed, target.as_str(), p))
}

/// Blocks the directory whose canonical form is `target`: `None` when a
/// blocked entry's canonical form is already the same path; otherwise the
/// blocked list with `target` appended, to be stored.
pub fn block(blocked: &Vec<PathEntry>, target: &String, p: Platform) -> (r: Option<Vec<String>>)
    ensures
        r is None <==> has_same(p, canons(blocked@), target@),
        r is Some ==> views(r->0@) == texts(blocked@).push(target@),
{
    if holds_canonical(blocked, target.as_str(), p) {
        return None;
    }
    let mut next: Vec<String> = Vec::new();
    let mut i: usize = 0;
    while i < blocked.len()
        invariant
            i <= blocked@.len(),
            views(next@) == texts(blocked@.take(i as int)),
        decreases blocked@.len() - i,
    {
        let ghost before = next@;
        next.push(blocked[i].text.clone());
        proof {
            assert(blocked@.take(i + 1) =~= blocked@.take(i as int).push(blocked@[i as int]));
            assert(texts(blocked@.take(i + 1)) =~= texts(blocked@.take(i as int)).push(blocked@[i as int].text@));
            assert(views(next@) =~= views(before).push(blocked@[i as int].text@));
        }
        i = i + 1;
    }
    proof {
        assert(blocked@.take(i as int) =~= blocked@);
    }
    let ghost before = next@;
    next.push(target.clone());
    proof {
        assert(views(next@) =~= views(before).push(target@));
    }
    Some(next)
}

/// Whether one of the directories of the PATH, by their canonical forms
/// (`dirs`), is the same path as `target`.
pub fn is_in_env_path(dirs: &Vec<String>, target: &String, p: Platform) -> (r: bool)
    ensures
        r == has_same(p, views(dirs@), target@),
{
    holds_path(dirs, target.as_str(), p)
}

/// After a directory is added, adding it again adds nothing: the stored
/// list then holds an entry that is the same path.
pub proof fn law_add_then_present(p: Platform, managed: Seq<Seq<char>>, path: Seq<char>)
    ensures
        has_same(p, managed.push(path), path),
{
    assert(same_path(p, managed.push(path)[managed.len() as int], path));
}

/// Adding a directory unblocks it: no entry of the stored blocked list is
/// the same path any more.
pub proof fn law_add_unblocks(p: Platform, blocked: Seq<Seq<char>>, path: Seq<char>)
    ensures
        !has_same(p, without_path(p, blocked, path), path),
    decreases blocked.len(),
{
    if blocked.len() > 0 {
        law_add_unblocks(p, blocked.drop_last(), path);
        let w = without_path(p, blocked.drop_last(), path);
        if !same_path(p, blocked.last(), path) {
            let v = w.push(blocked.last());
            if has_same(p, v, path) {
                let k = choose|k: int| 0 <= k < v.len() && #[trigger] same_path(p, v[k], path);
                if k < w.len() {
                    assert(same_path(p, w[k], path));
                }
            }
        }
    }
}

/// Blocking a directory twice blocks it once: after the first block the
/// list holds it, and the second finds it.
pub proof fn law_block_then_present(p: Platform, canonical: Seq<Seq<char>>, target: Seq<char>)
    ensures
        has_same(p, canonical.push(target), target),
{
    assert(same_path(p, canonical.push(target)[canonical.len() as int], target));
}

/// A list whose entries are all another path than `x` keeps them all.
pub proof fn lemma_kept_all(p: Platform, v: Seq<PathEntry>, x: Seq<char>)
    requires
        !has_same(p, canons(v), x),
    ensures
        kept_entries(p, v, x) == v,
    decreases v.len(),
{
    if v.len() > 0 {
        let v1 = v.drop_last();
        assert(canons(v)[v.len() - 1] == v.last().canonical@);
        assert(!same_path(p, v.last().canonical@, x));
        assert forall|k: int| 0 <= k < v1.len() implies !#[trigger] same_path(p, canons(v1)[k], x) by {
            assert(canons(v1)[k] == canons(v)[k]);
        }
        lemma_kept_all(p, v1, x);
        assert(v1.push(v.last()) =~= v);
    }
}

/// Removing a directory right after adding it gives back the list as it
/// was: when no entry was already that directory, the entry added is the
/// one removal finds, and it alone goes.
pub proof fn law_remove_undoes_add(p: Platform, managed: Seq<PathEntry>, added: PathEntry)
    requires
        !has_same(p, canons(managed), added.canonical@),
    ensures
        has_same(p, canons(managed.push(added)), added.canonical@),
        kept_entries(p, managed.push(added), added.canonical@) == managed,
{
    let v = managed.push(added);
    assert(v.drop_last() =~= managed);
    assert(canons(v)[managed.len() as int] == added.canonical@);
    assert(same_path(p, canons(v)[managed.len() as int], added.canonical@));
    lemma_kept_all(p, managed, added.canonical@);
}

/// After a removal, no remaining entry is the removed directory, and every
/// entry that is another directory remains.
pub proof fn law_remove_then_absent(p: Platform, managed: Seq<PathEntry>, target: Seq<char>)
    ensures
        !has_same(p, canons(kept_entries(p, managed, target)), target),
        forall|e: PathEntry| managed.contains(e) && !same_path(p, e.canonical@, target) ==> #[trigger] kept_entries(
            p,
            managed,
            target,
        ).contains(e),
    decreases managed.len(),
{
    if managed.len() > 0 {
        let m1 = managed.drop_last();
        law_remove_then_absent(p, m1, target);
        let k1 = kept_entries(p, m1, target);
        let k = kept_entries(p, managed, target);
        if has_same(p, canons(k), target) {
            let j = choose|j: int| 0 <= j < canons(k).len() && #[trigger] same_path(p, canons(k)[j], target);
            if j < k1.len() {
                assert(canons(k)[j] == canons(k1)[j]);
                assert(same_path(p, canons(k1)[j], target));
            }
        }
        assert forall|e: PathEntry| managed.contains(e) && !same_path(p, e.canonical@, target) implies #[trigger] k.contains(e) by {
            let i = choose|i: int| 0 <= i < managed.len() && managed[i] == e;
            if i < m1.len() {
                assert(m1[i] == e);
                assert(k1.contains(e));
                let j = choose|j: int| 0 <= j < k1.len() && k1[j] == e;
                if !same_path(p, managed.last().canonical@, target) {
                    assert(k[j] == e);
                }
            } else {
                assert(k[k1.len() as int] == e);
            }
        }
    }
}

/// The PATH value Windows builds from the system and the user value:
/// whichever is non-empty, or both joined with `;`.
pub open spec fn combined_path(sys: Seq<char>, user: Seq<char>) -> Seq<char> {
    if sys.len() == 0 {
        user
    } else if user.len() == 0 {
        sys
    } else {
        sys + seq![';'] + user
    }
}

/// The PATH in effect on Windows before environment strings are expanded:
/// the system value and the user value combined.
pub fn effective_registry_path(sys: &str, user: &str) -> (r: String)
    ensures
        r@ == combined_path(sys@, user@),
{
    let ns = sys.unicode_len();
    let nu = user.unicode_len();
    if ns == 0 {
        String::from_str(user)
    } else if nu == 0 {
        String::from_str(sys)
    } else {
        let mut out = String::from_str(sys);
        out.append(";");
        out.append(user);
        proof {
            reveal_strlit(";");
        }
        out
    }
}


/// The UTF-16 code units of a character.
pub open spec fn utf16_units(c: char) -> Seq<u16> {
    let v = c as int;
    if v < 0x10000 {
        seq![v as u16]
    } else {
        seq![(0xD800 + (v - 0x10000) / 0x400) as u16, (0xDC00 + (v - 0x10000) % 0x400) as u16]
    }
}

/// The UTF-16 encoding of a text.
pub open spec fn utf16(s: Seq<char>) -> Seq<u16>
    decreases s.len(),
{
    if s.len() == 0 {
        Seq::<u16>::empty()
    } else {
        utf16(s.drop_last()) + utf16_units(s.last())
    }
}

/// Each code unit as two bytes, low byte first.
pub open spec fn le_bytes(us: Seq<u16>) -> Seq<u8>
    decreases us.len(),
{
    if us.len() == 0 {
        Seq::<u8>::empty()
    } else {
        le_bytes(us.drop_last()) + seq![(us.last() % 256) as u8, (us.last() / 256) as u8]
    }
}

/// The bytes of a `REG_EXPAND_SZ` registry value holding `s`: its UTF-16
/// code units and a terminating zero unit, low byte first.
pub open spec fn reg_expand_sz(s: Seq<char>) -> Seq<u8> {
    le_bytes(utf16(s).push(0u16))
}

proof fn lemma_le_bytes_push(us: Seq<u16>, u: u16)
    ensures
        le_bytes(us.push(u)) == le_bytes(us) + seq![(u % 256) as u8, (u / 256) as u8],
{
    assert(us.push(u).drop_last() =~= us);
}

fn push_unit(out: &mut Vec<u8>, u: u16)
    ensures
        final(out)@ == old(out)@ + seq![(u % 256) as u8, (u / 256) as u8],
{
    out.push((u % 256) as u8);
    out.push((u / 256) as u8);
    proof {
        assert(final(out)@ =~= old(out)@ + seq![(u % 256) as u8, (u / 256) as u8]);
    }
}

/// The registry encoding of `s` (`REG_EXPAND_SZ`): UTF-16, zero-terminated,
/// little-endian.
pub fn to_reg_expand_sz(s: &str) -> (r: Vec<u8>)
    ensures
        r@ == reg_expand_sz(s@),
{
    let n = s.unicode_len();
    let mut out: Vec<u8> = Vec::new();
    let mut i: usize = 0;
    while i < n
        invariant
            i <= n == s@.len(),
            out@ == le_bytes(utf16(s@.take(i as int))),
        decreases n - i,
    {
        let c = s.get_char(i);
        let v = c as u32;
        let ghost units = utf16(s@.take(i as int));
        proof {
            assert(s@.take(i + 1).drop_last() =~= s@.take(i as int));
            assert(s@.take(i + 1).last() == c);
        }
        if v < 0x10000 {
            let u = v as u16;
            push_unit(&mut out, u);
            proof {
                lemma_le_bytes_push(units, u);
                assert(utf16(s@.take(i + 1)) =~= units.push(u));
            }
        } else {
            let w = v - 0x10000;
            let hi = (0xD800 + w / 0x400) as u16;
            let lo = (0xDC00 + w % 0x400) as u16;
            push_unit(&mut out, hi);
            push_unit(&mut out, lo);
            proof {
                lemma_le_bytes_push(units, hi);
                lemma_le_bytes_push(units.push(hi), lo);
                assert(utf16(s@.take(i + 1)) =~= units.push(hi).push(lo));
            }
        }
        i = i + 1;
    }
    proof {
        assert(s@.take(n as int) =~= s@);
        lemma_le_bytes_push(utf16(s@), 0u16);
    }
    push_unit(&mut out, 0);
    out
}

} // verus!
