//! The directories of the PATH, executable names and files.

use vstd::prelude::*;
use vstd::string::*;
use crate::platform::{Platform, list_sep, list_separator};
use crate::text::{views, fields, split, split_nonempty, substring, holds_text, owned};
use crate::components::{
    Component, Part, parts, parts_view, components, extension, extension_of, extension_of_name,
    name_extension, parent, parent_of, opt_view, has_prefix, prefix_len, lemma_prefix_bounds,
    path_prefix,
};

verus! {

/// What `str::to_lowercase` returns for a text: its lower-case form by the
/// Unicode `Lowercase` mapping.
pub uninterp spec fn lowercase(s: Seq<char>) -> Seq<char>;

/// Calls `str::to_lowercase`, whose result is named `lowercase`.
#[verifier::external_body]
pub(crate) fn to_lowercase(s: &str) -> (r: String)
    ensures
        r@ == lowercase(s@),
{
    s.to_lowercase()
}

/// The directories on a PATH value: its non-empty entries, split at `:`
/// (Unix) or `;` (Windows).
pub fn path_dirs(path_var: &str, p: Platform) -> (r: Vec<String>)
    ensures
        views(r@) == fields(path_var@, list_sep(p)),
{
    split_nonempty(path_var, list_separator(p))
}

/// All entries of a PATH value, empty ones included.
pub fn env_path_entries(path_var: &str, p: Platform) -> (r: Vec<String>)
    ensures
        views(r@) == split(path_var@, list_sep(p)),
{
    let sep = list_separator(p);
    let n = path_var.unicode_len();
    let mut out: Vec<String> = Vec::new();
    let mut start: usize = 0;
    let mut i: usize = 0;
    proof {
        assert(path_var@.subrange(0, 0) =~= Seq::<char>::empty());
    }
    while i < n
        invariant
            n == path_var@.len(),
            sep == list_sep(p),
            start <= i <= n,
            split(path_var@.subrange(0, i as int), sep).len() >= 1,
            views(out@) == split(path_var@.subrange(0, i as int), sep).drop_last(),
            path_var@.subrange(start as int, i as int) == split(path_var@.subrange(0, i as int), sep).last(),
        decreases n - i,
    {
        let c = path_var.get_char(i);
        let ghost pre = path_var@.subrange(0, i as int);
        let ghost post = path_var@.subrange(0, i + 1);
        proof {
            assert(post.drop_last() =~= pre);
            assert(post.last() == c);
            crate::text::lemma_split_nonempty(pre, sep);
        }
        if c == sep {
            let ghost before = out@;
            let piece = substring(path_var, start, i);
            out.push(piece);
            proof {
                let sp = split(pre, sep);
                assert(split(post, sep) == sp.push(Seq::<char>::empty()));
                assert(split(post, sep).drop_last() =~= sp);
                assert(sp =~= sp.drop_last().push(sp.last()));
                assert(views(out@) =~= views(before).push(piece@));
            }
            start = i + 1;
        } else {
            proof {
                let sp = split(pre, sep);
                assert(split(post, sep).drop_last() =~= sp.drop_last());
                assert(path_var@.subrange(start as int, i + 1) =~= sp.last().push(c));
            }
        }
        i = i + 1;
    }
    let ghost before = out@;
    let piece = substring(path_var, start, n);
    out.push(piece);
    proof {
        assert(path_var@.subrange(0, n as int) =~= path_var@);
        let sp = split(path_var@, sep);
        crate::text::lemma_split_nonempty(path_var@, sep);
        assert(sp =~= sp.drop_last().push(sp.last()));
        assert(views(out@) =~= views(before).push(piece@));
    }
    out
}

/// The extensions Windows runs as programs.
pub open spec fn exe_exts() -> Seq<Seq<char>> {
    seq![seq!['e', 'x', 'e'], seq!['c', 'm', 'd'], seq!['b', 'a', 't'], seq!['c', 'o', 'm'], seq!['p', 's', '1']]
}

/// The file names under which an executable called `name` (already in lower
/// case) is looked for: the name itself, and on Windows, unless it already
/// ends in one of the executable extensions, the name with each of them.
pub open spec fn candidates_of(p: Platform, name: Seq<char>) -> Seq<Seq<char>> {
    if p == Platform::Windows && !(match extension_of(p, name) {
        Some(e) => exe_exts().contains(e),
        None => false,
    }) {
        seq![name] + with_exts(name, exe_exts())
    } else {
        seq![name]
    }
}

/// `name` with each of `exts` appended after a dot.
pub open spec fn with_exts(name: Seq<char>, exts: Seq<Seq<char>>) -> Seq<Seq<char>> {
    exts.map_values(|e: Seq<char>| name + seq!['.'] + e)
}

/// The extensions Windows runs as programs, as strings.
fn exe_extensions() -> (r: Vec<String>)
    ensures
        views(r@) == exe_exts(),
{
    let a = String::from_str("exe");
    let b = String::from_str("cmd");
    let c = String::from_str("bat");
    let d = String::from_str("com");
    let e = String::from_str("ps1");
    proof {
        reveal_strlit("exe");
        reveal_strlit("cmd");
        reveal_strlit("bat");
        reveal_strlit("com");
        reveal_strlit("ps1");
        assert(a@ =~= seq!['e', 'x', 'e']);
        assert(b@ =~= seq!['c', 'm', 'd']);
        assert(c@ =~= seq!['b', 'a', 't']);
        assert(d@ =~= seq!['c', 'o', 'm']);
        assert(e@ =~= seq!['p', 's', '1']);
    }
    let mut v: Vec<String> = Vec::new();
    v.push(a);
    v.push(b);
    v.push(c);
    v.push(d);
    v.push(e);
    proof {
        assert(views(v@) =~= exe_exts());
    }
    v
}

/// The file names under which the executable `name_lower` is looked for.
pub fn executable_candidates(name_lower: &str, p: Platform) -> (r: Vec<String>)
    ensures
        views(r@) == candidates_of(p, name_lower@),
{
    let mut out: Vec<String> = Vec::new();
    out.push(String::from_str(name_lower));
    if p == Platform::Windows {
        let exts = exe_extensions();
        let has_ext = match extension(name_lower, p) {
            Some(e) => holds_text(&exts, e.as_str()),
            None => false,
        };
        if !has_ext {
            let mut i: usize = 0;
            while i < exts.len()
                invariant
                    i <= exts@.len(),
                    views(exts@) == exe_exts(),
                    views(out@) == seq![name_lower@] + with_exts(name_lower@, exe_exts().take(i as int)),
                decreases exts@.len() - i,
            {
                let ghost before = out@;
                let mut cand = String::from_str(name_lower);
                cand.append(".");
                cand.append(exts[i].as_str());
                proof {
                    reveal_strlit(".");
                    assert(cand@ =~= name_lower@ + seq!['.'] + exts@[i as int]@);
                }
                out.push(cand);
                proof {
                    let t = exe_exts().take(i as int);
                    assert(exe_exts().take(i + 1) =~= t.push(exe_exts()[i as int]));
                    assert(with_exts(name_lower@, t.push(exe_exts()[i as int])) =~= with_exts(name_lower@, t).push(
                        name_lower@ + seq!['.'] + exe_exts()[i as int],
                    ));
                    assert(views(out@) =~= views(before).push(cand@));
                    assert(views(out@) =~= seq![name_lower@] + with_exts(name_lower@, exe_exts().take(i + 1)));
                }
                i = i + 1;
            }
            proof {
                assert(exe_exts().take(5) =~= exe_exts());
            }
        }
    }
    proof {
        assert(views(out@) =~= candidates_of(p, name_lower@));
    }
    out
}

/// The file names under which an executable called `name` is looked for,
/// from the name as the user gave it.
pub fn search_candidates(name: &str, p: Platform) -> (r: Vec<String>)
    ensures
        views(r@) == candidates_of(p, lowercase(name@)),
{
    let lower = to_lowercase(name);
    executable_candidates(lower.as_str(), p)
}

/// Whether a file name, in lower case, is one of `candidates`.
pub fn matches_candidate(file_name: &str, candidates: &Vec<String>) -> (r: bool)
    ensures
        r == views(candidates@).contains(lowercase(file_name@)),
{
    let lower = to_lowercase(file_name);
    holds_text(candidates, lower.as_str())
}

/// Whether `needle` occurs in `hay`.
pub open spec fn occurs_in(needle: Seq<char>, hay: Seq<char>) -> bool {
    exists|i: int| 0 <= i && i + needle.len() <= hay.len() && #[trigger] hay.subrange(i, i + needle.len()) == needle
}

/// Whether `needle` occurs in `hay`, as `str::contains` decides.
pub fn text_contains(hay: &str, needle: &str) -> (r: bool)
    ensures
        r == occurs_in(needle@, hay@),
{
    let n = hay.unicode_len();
    let m = needle.unicode_len();
    if m > n {
        return false;
    }
    let mut i: usize = 0;
    while i <= n - m
        invariant
            n == hay@.len(),
            m == needle@.len(),
            m <= n,
            i <= n - m + 1,
            forall|k: int| 0 <= k < i ==> #[trigger] hay@.subrange(k, k + m) != needle@,
        decreases n - m + 1 - i,
    {
        let mut j: usize = 0;
        let mut same = true;
        while j < m
            invariant
                n == hay@.len(),
                m == needle@.len(),
                i + m <= n,
                j <= m,
                same == (forall|t: int| 0 <= t < j ==> hay@[i + t] == needle@[t]),
            decreases m - j,
        {
            if hay.get_char(i + j) != needle.get_char(j) {
                same = false;
            }
            j = j + 1;
        }
        if same {
            proof {
                assert(hay@.subrange(i as int, i + m) =~= needle@);
            }
            return true;
        }
        proof {
            let t = choose|t: int| 0 <= t < m && hay@[i + t] != needle@[t];
            assert(hay@.subrange(i as int, i + m)[t] != needle@[t]);
        }
        i = i + 1;
    }
    false
}

/// Whether a file found on the PATH matches a search: its name, in lower
/// case, holds the query in lower case.
pub fn name_matches(file_name: &str, query: &str) -> (r: bool)
    ensures
        r == occurs_in(lowercase(query@), lowercase(file_name@)),
{
    let lower = to_lowercase(file_name);
    let query_lower = to_lowercase(query);
    text_contains(lower.as_str(), query_lower.as_str())
}

/// A Unix permission mode with some execute bit set.
pub open spec fn mode_executable(mode: u32) -> bool {
    mode & 0o111u32 != 0
}

/// Whether a file can be run: a regular file that on Unix has an execute
/// bit in `mode` (no mode counts as none) and on Windows has one of the
/// executable extensions, in any case.
pub open spec fn executable(path: Seq<char>, is_file: bool, mode: Option<u32>, p: Platform) -> bool {
    is_file && if p == Platform::Windows {
        match extension_of(p, path) {
            Some(e) => exe_exts().contains(lowercase(e)),
            None => false,
        }
    } else {
        match mode {
            Some(m) => mode_executable(m),
            None => false,
        }
    }
}

/// Whether the file at `path` can be run, from whether it is a regular file
/// and (on Unix) its permission mode.
pub fn is_executable(path: &str, is_file: bool, mode: Option<u32>, p: Platform) -> (r: bool)
    ensures
        r == executable(path@, is_file, mode, p),
{
    if !is_file {
        return false;
    }
    if p == Platform::Windows {
        match extension(path, p) {
            Some(e) => {
                let lower = to_lowercase(e.as_str());
                let exts = exe_extensions();
                holds_text(&exts, lower.as_str())
            },
            None => false,
        }
    } else {
        match mode {
            Some(m) => m & 0o111u32 != 0,
            None => false,
        }
    }
}

/// The directory to add for a path the user named: its canonical form, or
/// the parent of that when it is a file.
pub open spec fn dir_to_add(canonical: Option<Seq<char>>, original: Seq<char>, is_file: bool, p: Platform) -> Result<Seq<char>, Seq<char>> {
    match canonical {
        None => Err(seq!['C', 'a', 'n', 'n', 'o', 't', ' ', 'r', 'e', 's', 'o', 'l', 'v', 'e', ' ', 'p', 'a', 't', 'h', ':', ' '] + original),
        Some(c) => if is_file {
            match parent_of(p, c) {
                Some(d) => Ok(d),
                None => Err(seq!['F', 'i', 'l', 'e', ' ', 'h', 'a', 's', ' ', 'n', 'o', ' ', 'p', 'a', 'r', 'e', 'n', 't', ' ', 'd', 'i', 'r', 'e', 'c', 't', 'o', 'r', 'y', ':', ' '] + c),
            }
        } else {
            Ok(c)
        },
    }
}

pub open spec fn result_view(r: Result<String, String>) -> Result<Seq<char>, Seq<char>> {
    match r {
        Ok(x) => Ok(x@),
        Err(e) => Err(e@),
    }
}

/// The directory `pave add` adds for an existing path: from its canonical
/// form (`None` when it could not be resolved) and whether that is a file.
pub fn resolve_dir_to_add(canonical: Option<String>, original: &str, is_file: bool, p: Platform) -> (r: Result<String, String>)
    ensures
        result_view(r) == dir_to_add(opt_view(canonical), original@, is_file, p),
{
    match canonical {
        None => {
            let mut msg = String::from_str("Cannot resolve path: ");
            msg.append(original);
            proof {
                reveal_strlit("Cannot resolve path: ");
                assert(msg@ =~= seq!['C', 'a', 'n', 'n', 'o', 't', ' ', 'r', 'e', 's', 'o', 'l', 'v', 'e', ' ', 'p', 'a', 't', 'h', ':', ' '] + original@);
            }
            Err(msg)
        },
        Some(c) => {
            if is_file {
                match parent(c.as_str(), p) {
                    Some(d) => Ok(d),
                    None => {
                        let mut msg = String::from_str("File has no parent directory: ");
                        msg.append(c.as_str());
                        proof {
                            reveal_strlit("File has no parent directory: ");
                            assert(msg@ =~= seq!['F', 'i', 'l', 'e', ' ', 'h', 'a', 's', ' ', 'n', 'o', ' ', 'p', 'a', 'r', 'e', 'n', 't', ' ', 'd', 'i', 'r', 'e', 'c', 't', 'o', 'r', 'y', ':', ' '] + c@);
                        }
                        Err(msg)
                    },
                }
            } else {
                Ok(c)
            }
        },
    }
}


/// The root under which the filesystem search starts: `/` on Unix; on
/// Windows the prefix of the current directory followed by `\` (such as
/// `X:\` or `\\server\share\`) when it has one, else `\`, and `/` when the current directory has no component. An
/// unknown current directory counts as `.`.
pub open spec fn drive_root_of(cwd: Option<Seq<char>>, p: Platform) -> Seq<char> {
    if p == Platform::Unix {
        "/"@
    } else {
        let c = match cwd {
            Some(x) => x,
            None => "."@,
        };
        if parts(p, c).len() == 0 {
            "/"@
        } else if has_prefix(p, c) {
            c.take(prefix_len(p, c)) + "\\"@
        } else {
            "\\"@
        }
    }
}

/// The root under which the filesystem search starts.
pub fn drive_root(cwd: Option<String>, p: Platform) -> (r: String)
    ensures
        r@ == drive_root_of(opt_view(cwd), p),
{
    if p == Platform::Unix {
        return owned("/");
    }
    let c = match cwd {
        Some(x) => x,
        None => owned("."),
    };
    let comps = components(c.as_str(), p);
    proof {
        assert(parts_view(comps@).len() == comps@.len());
        lemma_prefix_bounds(p, c@);
    }
    if comps.len() == 0 {
        return owned("/");
    }
    match path_prefix(c.as_str(), p) {
        Some((_, k)) => {
            let mut root = substring(c.as_str(), 0, k);
            root.append("\\");
            root
        },
        None => owned("\\"),
    }
}


/// A file listed in a directory of the PATH.
pub struct FileEntry {
    /// Its name in the directory.
    pub name: String,
    /// Its path: the directory joined with the name.
    pub path: String,
    /// Whether the entry itself is a regular file (links not followed).
    pub entry_is_file: bool,
    /// Whether the path leads to a regular file (links followed).
    pub is_file: bool,
    /// Its permission mode, where known.
    pub mode: Option<u32>,
}

/// The paths of the entries of `es` that are regular files named as one of
/// `cands` in lower case, in order.
pub open spec fn named_files(cands: Seq<Seq<char>>, es: Seq<FileEntry>) -> Seq<Seq<char>>
    decreases es.len(),
{
    if es.len() == 0 {
        Seq::<Seq<char>>::empty()
    } else {
        let e = es.last();
        named_files(cands, es.drop_last()) + if e.entry_is_file && cands.contains(lowercase(e.name@)) {
            seq![e.path@]
        } else {
            Seq::<Seq<char>>::empty()
        }
    }
}

/// `named_files` over each listing in turn.
pub open spec fn named_files_in(cands: Seq<Seq<char>>, ls: Seq<Vec<FileEntry>>) -> Seq<Seq<char>>
    decreases ls.len(),
{
    if ls.len() == 0 {
        Seq::<Seq<char>>::empty()
    } else {
        named_files_in(cands, ls.drop_last()) + named_files(cands, ls.last()@)
    }
}

/// The paths of the entries of `es` whose lower-case names hold the
/// lower-case `query` and that can be run, in order.
pub open spec fn matching_executables(p: Platform, query: Seq<char>, es: Seq<FileEntry>) -> Seq<Seq<char>>
    decreases es.len(),
{
    if es.len() == 0 {
        Seq::<Seq<char>>::empty()
    } else {
        let e = es.last();
        matching_executables(p, query, es.drop_last()) + if occurs_in(lowercase(query), lowercase(e.name@))
            && executable(e.path@, e.is_file, e.mode, p) {
            seq![e.path@]
        } else {
            Seq::<Seq<char>>::empty()
        }
    }
}

/// `matching_executables` over each listing in turn.
pub open spec fn matching_executables_in(p: Platform, query: Seq<char>, ls: Seq<Vec<FileEntry>>) -> Seq<Seq<char>>
    decreases ls.len(),
{
    if ls.len() == 0 {
        Seq::<Seq<char>>::empty()
    } else {
        matching_executables_in(p, query, ls.drop_last()) + matching_executables(p, query, ls.last()@)
    }
}

/// The files on the PATH that stand for the executable `name`, given the
/// listing of each PATH directory in order (empty where a directory could
/// not be read): the regular files whose lower-case names are candidates
/// for `name`, directory by directory, in listing order.
pub fn find_on_path(name: &str, listings: &Vec<Vec<FileEntry>>, p: Platform) -> (r: Vec<String>)
    ensures
        views(r@) == named_files_in(candidates_of(p, lowercase(name@)), listings@),
{
    let cands = search_candidates(name, p);
    let ghost cs = views(cands@);
    let ghost ls = listings@;
    let mut out: Vec<String> = Vec::new();
    let mut i: usize = 0;
    while i < listings.len()
        invariant
            i <= ls.len(),
            ls == listings@,
            cs == views(cands@),
            cs == candidates_of(p, lowercase(name@)),
            views(out@) == named_files_in(cs, ls.take(i as int)),
        decreases ls.len() - i,
    {
        let es = &listings[i];
        let ghost base = views(out@);
        let mut j: usize = 0;
        while j < es.len()
            invariant
                j <= es@.len(),
                cs == views(cands@),
                views(out@) == base + named_files(cs, es@.take(j as int)),
            decreases es@.len() - j,
        {
            let e = &es[j];
            let ghost before = views(out@);
            proof {
                assert(es@.take(j + 1).drop_last() =~= es@.take(j as int));
                assert(es@.take(j + 1).last() == es@[j as int]);
            }
            if e.entry_is_file && matches_candidate(e.name.as_str(), &cands) {
                out.push(e.path.clone());
                proof {
                    assert(views(out@) =~= before.push(e.path@));
                    assert(views(out@) =~= base + named_files(cs, es@.take(j + 1)));
                }
            } else {
                proof {
                    assert(named_files(cs, es@.take(j + 1)) =~= named_files(cs, es@.take(j as int)));
                }
            }
            j = j + 1;
        }
        proof {
            assert(es@.take(j as int) =~= es@);
            assert(ls.take(i + 1).drop_last() =~= ls.take(i as int));
            assert(ls.take(i + 1).last() == ls[i as int]);
        }
        i = i + 1;
    }
    proof {
        assert(ls.take(i as int) =~= ls);
    }
    out
}

/// The executables on the PATH whose names hold `query` (ignoring case),
/// given the listing of each PATH directory in order (empty where a
/// directory could not be read), directory by directory, in listing order.
pub fn search_executables(query: &str, listings: &Vec<Vec<FileEntry>>, p: Platform) -> (r: Vec<String>)
    ensures
        views(r@) == matching_executables_in(p, query@, listings@),
{
    let ghost ls = listings@;
    let mut out: Vec<String> = Vec::new();
    let mut i: usize = 0;
    while i < listings.len()
        invariant
            i <= ls.len(),
            ls == listings@,
            views(out@) == matching_executables_in(p, query@, ls.take(i as int)),
        decreases ls.len() - i,
    {
        let es = &listings[i];
        let ghost base = views(out@);
        let mut j: usize = 0;
        while j < es.len()
            invariant
                j <= es@.len(),
                views(out@) == base + matching_executables(p, query@, es@.take(j as int)),
            decreases es@.len() - j,
        {
            let e = &es[j];
            let ghost before = views(out@);
            proof {
                assert(es@.take(j + 1).drop_last() =~= es@.take(j as int));
                assert(es@.take(j + 1).last() == es@[j as int]);
            }
            if name_matches(e.name.as_str(), query) && is_executable(e.path.as_str(), e.is_file, e.mode, p) {
                out.push(e.path.clone());
                proof {
                    assert(views(out@) =~= before.push(e.path@));
                    assert(views(out@) =~= base + matching_executables(p, query@, es@.take(j + 1)));
                }
            } else {
                proof {
                    assert(matching_executables(p, query@, es@.take(j + 1)) =~= matching_executables(p, query@, es@.take(j as int)));
                }
            }
            j = j + 1;
        }
        proof {
            assert(es@.take(j as int) =~= es@);
            assert(ls.take(i + 1).drop_last() =~= ls.take(i as int));
            assert(ls.take(i + 1).last() == ls[i as int]);
        }
        i = i + 1;
    }
    proof {
        assert(ls.take(i as int) =~= ls);
    }
    out
}


/// Queries that agree in lower case match the same entries.
pub proof fn lemma_matching_ignores_case(p: Platform, a: Seq<char>, b: Seq<char>, es: Seq<FileEntry>)
    requires
        lowercase(a) == lowercase(b),
    ensures
        matching_executables(p, a, es) == matching_executables(p, b, es),
    decreases es.len(),
{
    if es.len() > 0 {
        lemma_matching_ignores_case(p, a, b, es.drop_last());
    }
}

/// Searches ignore case: names that agree in lower case have the same
/// candidates, so they find the same files on the PATH and on disk, and
/// queries that agree in lower case find the same executables.
pub proof fn law_search_ignores_case(p: Platform, a: Seq<char>, b: Seq<char>, listings: Seq<Vec<FileEntry>>)
    requires
        lowercase(a) == lowercase(b),
    ensures
        candidates_of(p, lowercase(a)) == candidates_of(p, lowercase(b)),
        named_files_in(candidates_of(p, lowercase(a)), listings) == named_files_in(
            candidates_of(p, lowercase(b)),
            listings,
        ),
        matching_executables_in(p, a, listings) == matching_executables_in(p, b, listings),
    decreases listings.len(),
{
    if listings.len() > 0 {
        law_search_ignores_case(p, a, b, listings.drop_last());
        lemma_matching_ignores_case(p, a, b, listings.last()@);
    }
}


/// Adding a file adds its directory: the parent under the platform's own
/// path rules. That parent is a proper beginning of the file's path, and
/// keeps its prefix (on Windows its drive, share or device) whole, so it
/// is never empty there. A file without a parent is refused.
pub proof fn law_file_resolves_to_its_parent(c: Seq<char>, original: Seq<char>, p: Platform)
    ensures
        dir_to_add(Some(c), original, true, p) is Ok <==> parent_of(p, c) is Some,
        dir_to_add(Some(c), original, true, p) matches Ok(x) ==> x == parent_of(p, c)->0 && x.len() < c.len()
            && x == c.take(x.len() as int) && (has_prefix(p, c) ==> x.len() >= prefix_len(p, c) && x.take(
            prefix_len(p, c),
        ) == c.take(prefix_len(p, c))),
        dir_to_add(Some(c), original, false, p) == Ok::<Seq<char>, Seq<char>>(c),
{
    crate::components::lemma_parent_is_proper_prefix(p, c);
    if let Some(x) = parent_of(p, c) {
        if has_prefix(p, c) {
            assert(x.take(prefix_len(p, c)) =~= c.take(prefix_len(p, c)));
        }
    }
}


/// Whether `q` occurs in `n` at some position, spelled out.
pub open spec fn holds_at_some_place(n: Seq<char>, q: Seq<char>) -> bool {
    exists|k: int| 0 <= k && k + q.len() <= n.len() && #[trigger] n.subrange(k, k + q.len()) == q
}

/// Whether the search for `query` must report the entry `e`: its lower-case
/// name holds the lower-case query somewhere, and it can be run.
pub open spec fn reported(p: Platform, query: Seq<char>, e: FileEntry) -> bool {
    holds_at_some_place(lowercase(e.name@), lowercase(query)) && executable(e.path@, e.is_file, e.mode, p)
}

proof fn lemma_matching_has(p: Platform, query: Seq<char>, es: Seq<FileEntry>, j: int)
    requires
        0 <= j < es.len(),
        reported(p, query, es[j]),
    ensures
        matching_executables(p, query, es).contains(es[j].path@),
    decreases es.len(),
{
    let m1 = matching_executables(p, query, es.drop_last());
    let m = matching_executables(p, query, es);
    if j == es.len() - 1 {
        assert(occurs_in(lowercase(query), lowercase(es[j].name@)));
        assert(m[m1.len() as int] == es[j].path@);
    } else {
        assert(es.drop_last()[j] == es[j]);
        lemma_matching_has(p, query, es.drop_last(), j);
        let k = choose|k: int| 0 <= k < m1.len() && m1[k] == es[j].path@;
        assert(m[k] == m1[k]);
    }
}

proof fn lemma_matching_only(p: Platform, query: Seq<char>, es: Seq<FileEntry>, x: Seq<char>)
    requires
        matching_executables(p, query, es).contains(x),
    ensures
        exists|j: int| 0 <= j < es.len() && (#[trigger] es[j]).path@ == x && reported(p, query, es[j]),
    decreases es.len(),
{
    let m1 = matching_executables(p, query, es.drop_last());
    let m = matching_executables(p, query, es);
    let e = es.last();
    let k = choose|k: int| 0 <= k < m.len() && m[k] == x;
    if k < m1.len() {
        assert(m1[k] == x);
        lemma_matching_only(p, query, es.drop_last(), x);
        let j = choose|j: int| 0 <= j < es.drop_last().len() && (#[trigger] es.drop_last()[j]).path@ == x
            && reported(p, query, es.drop_last()[j]);
        assert(es[j] == es.drop_last()[j]);
    } else {
        assert(occurs_in(lowercase(query), lowercase(e.name@)));
        assert(es[es.len() - 1] == e);
    }
}

proof fn lemma_matching_in_has(p: Platform, query: Seq<char>, ls: Seq<Vec<FileEntry>>, i: int, j: int)
    requires
        0 <= i < ls.len(),
        0 <= j < ls[i]@.len(),
        reported(p, query, ls[i]@[j]),
    ensures
        matching_executables_in(p, query, ls).contains(ls[i]@[j].path@),
    decreases ls.len(),
{
    let m1 = matching_executables_in(p, query, ls.drop_last());
    let m2 = matching_executables(p, query, ls.last()@);
    let m = matching_executables_in(p, query, ls);
    if i == ls.len() - 1 {
        lemma_matching_has(p, query, ls.last()@, j);
        let k = choose|k: int| 0 <= k < m2.len() && m2[k] == ls[i]@[j].path@;
        assert(m[m1.len() + k] == m2[k]);
    } else {
        assert(ls.drop_last()[i] == ls[i]);
        lemma_matching_in_has(p, query, ls.drop_last(), i, j);
        let k = choose|k: int| 0 <= k < m1.len() && m1[k] == ls[i]@[j].path@;
        assert(m[k] == m1[k]);
    }
}

proof fn lemma_matching_in_only(p: Platform, query: Seq<char>, ls: Seq<Vec<FileEntry>>, x: Seq<char>)
    requires
        matching_executables_in(p, query, ls).contains(x),
    ensures
        exists|i: int, j: int| 0 <= i < ls.len() && 0 <= j < ls[i]@.len() && (#[trigger] ls[i]@[j]).path@ == x
            && reported(p, query, ls[i]@[j]),
    decreases ls.len(),
{
    let m1 = matching_executables_in(p, query, ls.drop_last());
    let m2 = matching_executables(p, query, ls.last()@);
    let m = matching_executables_in(p, query, ls);
    let k = choose|k: int| 0 <= k < m.len() && m[k] == x;
    if k < m1.len() {
        assert(m1[k] == x);
        lemma_matching_in_only(p, query, ls.drop_last(), x);
        let (i, j) = choose|i: int, j: int| 0 <= i < ls.drop_last().len() && 0 <= j < ls.drop_last()[i]@.len()
            && (#[trigger] ls.drop_last()[i]@[j]).path@ == x && reported(p, query, ls.drop_last()[i]@[j]);
        assert(ls[i] == ls.drop_last()[i]);
        assert(ls[i]@[j] == ls.drop_last()[i]@[j]);
    } else {
        assert(m2[k - m1.len()] == x);
        lemma_matching_only(p, query, ls.last()@, x);
        let j = choose|j: int| 0 <= j < ls.last()@.len() && (#[trigger] ls.last()@[j]).path@ == x
            && reported(p, query, ls.last()@[j]);
        let i = ls.len() - 1;
        assert(ls[i]@[j] == ls.last()@[j]);
    }
}

/// `pave search` reports an entry of a PATH directory exactly when its
/// lower-case name holds the lower-case query anywhere (at the start, in
/// the middle or at the end) and it can be run: every such entry's path is
/// in the result, and every path in the result is such an entry's.
pub proof fn law_search_reports_names_holding_query(p: Platform, query: Seq<char>, listings: Seq<Vec<FileEntry>>)
    ensures
        forall|i: int, j: int|
            0 <= i < listings.len() && 0 <= j < listings[i]@.len() && reported(p, query, #[trigger] listings[i]@[j])
                ==> matching_executables_in(p, query, listings).contains(listings[i]@[j].path@),
        forall|x: Seq<char>|
            #[trigger] matching_executables_in(p, query, listings).contains(x) ==> exists|i: int, j: int|
                0 <= i < listings.len() && 0 <= j < listings[i]@.len() && (#[trigger] listings[i]@[j]).path@ == x
                    && reported(p, query, listings[i]@[j]),
{
    assert forall|i: int, j: int|
        0 <= i < listings.len() && 0 <= j < listings[i]@.len() && reported(p, query, #[trigger] listings[i]@[j])
        implies matching_executables_in(p, query, listings).contains(listings[i]@[j].path@) by {
        lemma_matching_in_has(p, query, listings, i, j);
    }
    assert forall|x: Seq<char>| #[trigger] matching_executables_in(p, query, listings).contains(x) implies exists|
        i: int,
        j: int,
    |
        0 <= i < listings.len() && 0 <= j < listings[i]@.len() && (#[trigger] listings[i]@[j]).path@ == x
            && reported(p, query, listings[i]@[j]) by {
        lemma_matching_in_only(p, query, listings, x);
    }
}

} // verus!
