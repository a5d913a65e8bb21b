//! `pave env`: print the PATH for a shell.

use vstd::prelude::*;
use vstd::string::*;
use crate::cli::Shell;
use crate::platform::{Platform, list_sep};
use crate::text::{views, join, terminated, fields, join_with, terminated_lines, split_nonempty, substring};
use crate::util::path::{lowercase, to_lowercase};
use crate::text::holds_text;

verus! {

/// What `pave env` prints for `shell`, given the directories of the PATH:
/// for Bash and Zsh the directories joined with `:`; for Fish, Xonsh and
/// Nushell one per line; for PowerShell joined with the platform's PATH
/// separator.
pub open spec fn env_output(parts: Seq<Seq<char>>, shell: Shell, p: Platform) -> Seq<char> {
    match shell {
        Shell::Bash | Shell::Zsh => join(parts, seq![':']),
        Shell::Fish | Shell::Xonsh | Shell::Nushell => terminated(parts),
        Shell::Pwsh => join(parts, seq![list_sep(p)]),
    }
}

/// The text `pave env` prints for `shell`.
pub fn output(parts: &Vec<String>, shell: Shell, p: Platform) -> (r: String)
    ensures
        r@ == env_output(views(parts@), shell, p),
{
    match shell {
        Shell::Bash | Shell::Zsh => {
            let sep = ":";
            proof {
                reveal_strlit(":");
                assert(sep@ =~= seq![':']);
            }
            join_with(parts, sep)
        },
        Shell::Fish | Shell::Xonsh | Shell::Nushell => terminated_lines(parts),
        Shell::Pwsh => {
            let sep = if p == Platform::Windows {
                ";"
            } else {
                ":"
            };
            proof {
                reveal_strlit(";");
                reveal_strlit(":");
                assert(sep@ =~= seq![list_sep(p)]);
            }
            join_with(parts, sep)
        },
    }
}

/// `x` without its trailing `c`s.
pub open spec fn trim_trailing(x: Seq<char>, c: char) -> Seq<char>
    decreases x.len(),
{
    if x.len() > 0 && x.last() == c {
        trim_trailing(x.drop_last(), c)
    } else {
        x
    }
}

/// The form under which Windows PATH entries are compared: lower case,
/// without trailing backslashes.
pub open spec fn registry_key(x: Seq<char>) -> Seq<char> {
    lowercase(trim_trailing(x, '\\'))
}

/// The members of `entries` whose key is not among `keys`, in order.
pub open spec fn outside_keys(entries: Seq<Seq<char>>, keys: Seq<Seq<char>>) -> Seq<Seq<char>>
    decreases entries.len(),
{
    if entries.len() == 0 {
        Seq::<Seq<char>>::empty()
    } else if keys.contains(registry_key(entries.last())) {
        outside_keys(entries.drop_last(), keys)
    } else {
        outside_keys(entries.drop_last(), keys).push(entries.last())
    }
}

fn key_of(x: &str) -> (r: String)
    ensures
        r@ == registry_key(x@),
{
    let mut end = x.unicode_len();
    proof {
        assert(x@.take(end as int) =~= x@);
    }
    while end > 0 && x.get_char(end - 1) == '\\'
        invariant
            end <= x@.len(),
            trim_trailing(x@, '\\') == trim_trailing(x@.take(end as int), '\\'),
        decreases end,
    {
        proof {
            assert(x@.take(end as int).drop_last() =~= x@.take(end - 1));
        }
        end = end - 1;
    }
    let t = substring(x, 0, end);
    proof {
        assert(x@.subrange(0, end as int) =~= x@.take(end as int));
    }
    to_lowercase(t.as_str())
}

/// The entries of the current Windows PATH (`;`-separated, non-empty)
/// that the registry PATH `parts` does not already hold, compared by key.
pub fn extra_entries(current: &str, parts: &Vec<String>) -> (r: Vec<String>)
    ensures
        views(r@) == outside_keys(fields(current@, ';'), views(parts@).map_values(|x: Seq<char>| registry_key(x))),
{
    let ghost vp = views(parts@);
    let mut keys: Vec<String> = Vec::new();
    let mut i: usize = 0;
    while i < parts.len()
        invariant
            i <= parts@.len(),
            vp == views(parts@),
            views(keys@) == vp.take(i as int).map_values(|x: Seq<char>| registry_key(x)),
        decreases parts@.len() - i,
    {
        let ghost before = views(keys@);
        let k = key_of(parts[i].as_str());
        keys.push(k);
        proof {
            assert(vp.take(i + 1) =~= vp.take(i as int).push(vp[i as int]));
            assert(views(keys@) =~= before.push(registry_key(vp[i as int])));
            assert(vp.take(i + 1).map_values(|x: Seq<char>| registry_key(x)) =~= vp.take(i as int).map_values(
                |x: Seq<char>| registry_key(x),
            ).push(registry_key(vp[i as int])));
        }
        i = i + 1;
    }
    proof {
        assert(vp.take(i as int) =~= vp);
    }
    let entries = split_nonempty(current, ';');
    let ghost ve = views(entries@);
    let ghost vk = views(keys@);
    let mut out: Vec<String> = Vec::new();
    let mut j: usize = 0;
    while j < entries.len()
        invariant
            j <= entries@.len(),
            ve == views(entries@),
            vk == views(keys@),
            views(out@) == outside_keys(ve.take(j as int), vk),
        decreases entries@.len() - j,
    {
        let ghost before = out@;
        proof {
            assert(ve.take(j + 1).drop_last() =~= ve.take(j as int));
            assert(ve.take(j + 1).last() == ve[j as int]);
        }
        let k = key_of(entries[j].as_str());
        if !holds_text(&keys, k.as_str()) {
            out.push(entries[j].clone());
            proof {
                assert(views(out@) =~= views(before).push(ve[j as int]));
            }
        }
        j = j + 1;
    }
    proof {
        assert(ve.take(j as int) =~= ve);
    }
    out
}

/// `acc` with each of `xs` appended that it does not hold yet.
pub open spec fn merge_new(acc: Seq<Seq<char>>, xs: Seq<Seq<char>>) -> Seq<Seq<char>>
    decreases xs.len(),
{
    if xs.len() == 0 {
        acc
    } else {
        let a = merge_new(acc, xs.drop_last());
        if a.contains(xs.last()) {
            a
        } else {
            a.push(xs.last())
        }
    }
}

/// `converted` with the entries of each of `additions` merged in, in turn.
pub open spec fn merge_all(converted: Seq<Seq<char>>, additions: Seq<Seq<Seq<char>>>) -> Seq<Seq<char>>
    decreases additions.len(),
{
    if additions.len() == 0 {
        converted
    } else {
        merge_new(merge_all(converted, additions.drop_last()), additions.last())
    }
}

pub open spec fn nested_views(v: Seq<Vec<String>>) -> Seq<Seq<Seq<char>>> {
    v.map_values(|x: Vec<String>| views(x@))
}

fn merge_into(acc: &mut Vec<String>, xs: &Vec<String>)
    ensures
        views(final(acc)@) == merge_new(views(old(acc)@), views(xs@)),
{
    let ghost start = views(acc@);
    let ghost vx = views(xs@);
    let mut i: usize = 0;
    while i < xs.len()
        invariant
            i <= xs@.len(),
            vx == views(xs@),
            views(acc@) == merge_new(start, vx.take(i as int)),
        decreases xs@.len() - i,
    {
        let ghost before = acc@;
        proof {
            assert(vx.take(i + 1).drop_last() =~= vx.take(i as int));
            assert(vx.take(i + 1).last() == vx[i as int]);
        }
        if !holds_text(acc, xs[i].as_str()) {
            acc.push(xs[i].clone());
            proof {
                assert(views(acc@) =~= views(before).push(vx[i as int]));
            }
        }
        i = i + 1;
    }
    proof {
        assert(vx.take(i as int) =~= vx);
    }
}

/// The PATH for Bash and Zsh on Windows: the converted registry PATH, then
/// the converted forms of the other entries of the current PATH, each only
/// once.
pub fn merge_converted(converted: Vec<String>, additions: &Vec<Vec<String>>) -> (r: Vec<String>)
    ensures
        views(r@) == merge_all(views(converted@), nested_views(additions@)),
{
    let ghost va = nested_views(additions@);
    let mut acc = converted;
    let ghost start = views(acc@);
    let mut i: usize = 0;
    while i < additions.len()
        invariant
            i <= additions@.len(),
            va == nested_views(additions@),
            views(acc@) == merge_all(start, va.take(i as int)),
        decreases additions@.len() - i,
    {
        proof {
            assert(va.take(i + 1).drop_last() =~= va.take(i as int));
            assert(va.take(i + 1).last() == views(additions@[i as int]@));
        }
        merge_into(&mut acc, &additions[i]);
        i = i + 1;
    }
    proof {
        assert(va.take(i as int) =~= va);
    }
    acc
}

/// The characters with the Unicode `White_Space` property, which
/// `str::trim` removes.
pub open spec fn is_white_space(c: char) -> bool {
    ('\u{9}' <= c && c <= '\u{d}') || c == ' ' || c == '\u{85}' || c == '\u{a0}' || c == '\u{1680}'
        || ('\u{2000}' <= c && c <= '\u{200a}') || c == '\u{2028}' || c == '\u{2029}' || c == '\u{202f}'
        || c == '\u{205f}' || c == '\u{3000}'
}

fn white_space(c: char) -> (r: bool)
    ensures
        r == is_white_space(c),
{
    ('\u{9}' <= c && c <= '\u{d}') || c == ' ' || c == '\u{85}' || c == '\u{a0}' || c == '\u{1680}'
        || ('\u{2000}' <= c && c <= '\u{200a}') || c == '\u{2028}' || c == '\u{2029}' || c == '\u{202f}'
        || c == '\u{205f}' || c == '\u{3000}'
}

/// `x` without leading white space.
pub open spec fn trim_start(x: Seq<char>) -> Seq<char>
    decreases x.len(),
{
    if x.len() > 0 && is_white_space(x[0]) {
        trim_start(x.drop_first())
    } else {
        x
    }
}

/// `x` without trailing white space.
pub open spec fn trim_end(x: Seq<char>) -> Seq<char>
    decreases x.len(),
{
    if x.len() > 0 && is_white_space(x.last()) {
        trim_end(x.drop_last())
    } else {
        x
    }
}

/// The directories in what `cygpath -u -p` printed: the output without
/// surrounding white space, split at `:`, empty entries left out.
pub fn parse_cygpath_output(stdout: &str) -> (r: Vec<String>)
    ensures
        views(r@) == fields(trim_end(trim_start(stdout@)), ':'),
{
    let n = stdout.unicode_len();
    let mut a: usize = 0;
    proof {
        assert(stdout@.skip(0) =~= stdout@);
    }
    while a < n && white_space(stdout.get_char(a))
        invariant
            a <= n == stdout@.len(),
            trim_start(stdout@) == trim_start(stdout@.skip(a as int)),
        decreases n - a,
    {
        proof {
            assert(stdout@.skip(a as int).drop_first() =~= stdout@.skip(a + 1));
        }
        a = a + 1;
    }
    let mut b: usize = n;
    proof {
        assert(stdout@.subrange(a as int, n as int) =~= stdout@.skip(a as int));
    }
    while b > a && white_space(stdout.get_char(b - 1))
        invariant
            a <= b <= n == stdout@.len(),
            trim_end(trim_start(stdout@)) == trim_end(stdout@.subrange(a as int, b as int)),
        decreases b,
    {
        proof {
            assert(stdout@.subrange(a as int, b as int).drop_last() =~= stdout@.subrange(a as int, b - 1));
        }
        b = b - 1;
    }
    let t = substring(stdout, a, b);
    split_nonempty(t.as_str(), ':')
}

} // verus!
