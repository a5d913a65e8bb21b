//! Paths seen as sequences of components, the way `std::path::Path`
//! compares, orders and takes apart paths.
//!
//! A path is a string. Its components are: an optional prefix (Windows
//! only: a drive `X:`, a UNC share `\\server\share`, a device `\\.\name`,
//! or one of the verbatim forms `\\?\name`, `\\?\UNC\server\share`,
//! `\\?\X:`), a root (a separator right after the prefix, or implied by a
//! UNC or device prefix), an optional current-directory marker (a leading
//! `.` piece of a path without root or prefix), and then one component for
//! each piece between separators that is neither empty nor `.`; the piece
//! `..` is the parent-directory component. After a verbatim prefix only
//! `\` separates pieces and a `.` piece is a current-directory component.
//! Two paths are the same path when their components are equal.

use vstd::prelude::*;
use vstd::string::*;
use crate::platform::{Platform, is_sep, is_separator};
use crate::text::substring;

verus! {

/// A Windows path prefix, as a mathematical value; drive letters are kept
/// by the code of their upper-case form.
pub enum Pfx {
    Verbatim(Seq<char>),
    VerbatimUNC(Seq<char>, Seq<char>),
    VerbatimDisk(u32),
    DeviceNS(Seq<char>),
    UNC(Seq<char>, Seq<char>),
    Disk(u32),
}

/// A Windows path prefix, as an executable value.
pub enum PathPrefix {
    Verbatim(String),
    VerbatimUNC(String, String),
    VerbatimDisk(u32),
    DeviceNS(String),
    UNC(String, String),
    Disk(u32),
}

impl View for PathPrefix {
    type V = Pfx;

    open spec fn view(&self) -> Pfx {
        match self {
            PathPrefix::Verbatim(x) => Pfx::Verbatim(x@),
            PathPrefix::VerbatimUNC(a, b) => Pfx::VerbatimUNC(a@, b@),
            PathPrefix::VerbatimDisk(d) => Pfx::VerbatimDisk(*d),
            PathPrefix::DeviceNS(x) => Pfx::DeviceNS(x@),
            PathPrefix::UNC(a, b) => Pfx::UNC(a@, b@),
            PathPrefix::Disk(d) => Pfx::Disk(*d),
        }
    }
}

/// A component, as a mathematical value.
pub enum Part {
    Prefix(Pfx),
    Root,
    Cur,
    Parent,
    Normal(Seq<char>),
}

/// A component, as an executable value.
pub enum Component {
    Prefix(PathPrefix),
    RootDir,
    CurDir,
    ParentDir,
    Normal(String),
}

impl View for Component {
    type V = Part;

    open spec fn view(&self) -> Part {
        match self {
            Component::Prefix(x) => Part::Prefix(x@),
            Component::RootDir => Part::Root,
            Component::CurDir => Part::Cur,
            Component::ParentDir => Part::Parent,
            Component::Normal(s) => Part::Normal(s@),
        }
    }
}

pub open spec fn parts_view(v: Seq<Component>) -> Seq<Part> {
    v.map_values(|c: Component| c@)
}

pub open spec fn is_ascii_alpha(c: char) -> bool {
    ('a' <= c && c <= 'z') || ('A' <= c && c <= 'Z')
}

/// The code of the upper-case form of an ASCII letter.
pub open spec fn upper_code(c: char) -> u32 {
    if 'a' <= c && c <= 'z' {
        (c as u32 - 32) as u32
    } else {
        c as u32
    }
}

/// Either Windows separator.
pub open spec fn sep2(c: char) -> bool {
    c == '\\' || c == '/'
}

/// A separator inside a prefix: only `\` in verbatim ones.
pub open spec fn win_sep(v: bool, c: char) -> bool {
    c == '\\' || (!v && c == '/')
}

/// The first index from `from` on that holds a separator, or the length.
pub open spec fn sep_end(s: Seq<char>, from: int, v: bool) -> int
    decreases s.len() - from,
{
    if from >= s.len() {
        s.len() as int
    } else if win_sep(v, s[from]) {
        from
    } else {
        sep_end(s, from + 1, v)
    }
}

pub proof fn lemma_sep_end(s: Seq<char>, from: int, v: bool)
    requires
        0 <= from <= s.len(),
    ensures
        from <= sep_end(s, from, v) <= s.len(),
    decreases s.len() - from,
{
    if from < s.len() && !win_sep(v, s[from]) {
        lemma_sep_end(s, from + 1, v);
    }
}

/// The text between `from` and the next separator.
pub open spec fn next_piece(s: Seq<char>, from: int, v: bool) -> Seq<char> {
    s.subrange(from, sep_end(s, from, v))
}

/// The piece after the separator that ends the piece at `from`, if any.
pub open spec fn piece_after(s: Seq<char>, from: int, v: bool) -> Seq<char> {
    let e = sep_end(s, from, v);
    if e < s.len() {
        next_piece(s, e + 1, v)
    } else {
        Seq::<char>::empty()
    }
}

/// The length of a prefix made of a marker of length `m` and the pieces
/// `a` and `b` (`b` and its separator left out when empty).
pub open spec fn pair_len(m: int, a: Seq<char>, b: Seq<char>) -> int {
    m + a.len() as int + if b.len() > 0 {
        1 + b.len() as int
    } else {
        0int
    }
}

/// The prefix at the start of a Windows path and its length, as
/// `std::path` parses it.
pub open spec fn win_prefix(s: Seq<char>) -> Option<(Pfx, int)> {
    let n = s.len();
    if n >= 2 && sep2(s[0]) && sep2(s[1]) {
        if n >= 4 && s[0] == '\\' && s[1] == '\\' && s[2] == '?' && s[3] == '\\' {
            if n >= 8 && s[4] == 'U' && s[5] == 'N' && s[6] == 'C' && sep2(s[7]) {
                let server = next_piece(s, 8, true);
                let share = piece_after(s, 8, true);
                Some((Pfx::VerbatimUNC(server, share), pair_len(8, server, share)))
            } else if n >= 6 && s[5] == ':' && is_ascii_alpha(s[4]) && (n == 6 || s[6] == '\\') {
                Some((Pfx::VerbatimDisk(upper_code(s[4])), 6int))
            } else {
                let x = next_piece(s, 4, true);
                Some((Pfx::Verbatim(x), 4 + x.len() as int))
            }
        } else if n >= 4 && s[2] == '.' && sep2(s[3]) {
            let x = next_piece(s, 4, false);
            Some((Pfx::DeviceNS(x), 4 + x.len() as int))
        } else {
            let server = next_piece(s, 2, false);
            let share = piece_after(s, 2, false);
            if server.len() > 0 && share.len() > 0 {
                Some((Pfx::UNC(server, share), pair_len(2, server, share)))
            } else {
                None
            }
        }
    } else if n >= 2 && s[1] == ':' && is_ascii_alpha(s[0]) {
        Some((Pfx::Disk(upper_code(s[0])), 2int))
    } else {
        None
    }
}

/// The prefix of `s` and its length; Unix paths have none.
pub open spec fn prefix_info(p: Platform, s: Seq<char>) -> Option<(Pfx, int)> {
    if p == Platform::Windows {
        win_prefix(s)
    } else {
        None
    }
}

pub open spec fn has_prefix(p: Platform, s: Seq<char>) -> bool {
    prefix_info(p, s) is Some
}

pub open spec fn prefix_len(p: Platform, s: Seq<char>) -> int {
    match prefix_info(p, s) {
        Some(x) => x.1,
        None => 0,
    }
}

/// Whether `s` has a verbatim prefix.
pub open spec fn verbatim(p: Platform, s: Seq<char>) -> bool {
    match prefix_info(p, s) {
        Some((Pfx::Verbatim(_), _)) => true,
        Some((Pfx::VerbatimUNC(_, _), _)) => true,
        Some((Pfx::VerbatimDisk(_), _)) => true,
        _ => false,
    }
}

/// Whether `s` has no prefix or a drive prefix.
pub open spec fn plain_or_disk(p: Platform, s: Seq<char>) -> bool {
    match prefix_info(p, s) {
        Some((Pfx::Disk(_), _)) => true,
        Some(_) => false,
        None => true,
    }
}

/// Whether a separator follows the prefix.
pub open spec fn has_root(p: Platform, s: Seq<char>) -> bool {
    s.len() > prefix_len(p, s) && is_sep(p, s[prefix_len(p, s)])
}

/// Whether the path has a root without a separator for it: after a UNC or
/// device prefix.
pub open spec fn implied_root(p: Platform, s: Seq<char>) -> bool {
    !has_root(p, s) && !plain_or_disk(p, s) && !verbatim(p, s)
}

/// Where the pieces after prefix and root begin.
pub open spec fn body_start(p: Platform, s: Seq<char>) -> int {
    prefix_len(p, s) + if has_root(p, s) {
        1int
    } else {
        0int
    }
}

/// Whether the body starts with a `.` piece that stands for the current
/// directory (only without a root, and without a prefix other than a
/// drive).
pub open spec fn cur_skip(p: Platform, s: Seq<char>) -> bool {
    let k = prefix_len(p, s);
    !has_root(p, s) && plain_or_disk(p, s) && s.len() > k && s[k] == '.' && (s.len() == k + 1
        || is_sep(p, s[k + 1]))
}

/// The length of the text before the first body component.
pub open spec fn lead_len(p: Platform, s: Seq<char>) -> int {
    body_start(p, s) + if cur_skip(p, s) {
        1int
    } else {
        0int
    }
}

/// A separator between pieces of the body: only `\` after a verbatim
/// prefix.
pub open spec fn bsep(p: Platform, v: bool, c: char) -> bool {
    if v {
        c == '\\'
    } else {
        is_sep(p, c)
    }
}

/// The pieces of `x` between separators, empty pieces included.
pub open spec fn pieces(p: Platform, v: bool, x: Seq<char>) -> Seq<Seq<char>>
    decreases x.len(),
{
    if x.len() == 0 {
        seq![Seq::<char>::empty()]
    } else {
        let ps = pieces(p, v, x.drop_last());
        if bsep(p, v, x.last()) {
            ps.push(Seq::<char>::empty())
        } else {
            ps.update(ps.len() - 1, ps.last().push(x.last()))
        }
    }
}

pub open spec fn dot() -> Seq<char> {
    seq!['.']
}

pub open spec fn dot_dot() -> Seq<char> {
    seq!['.', '.']
}

/// The component a piece contributes: none for an empty piece, nor for a
/// `.` piece unless the path is verbatim.
pub open spec fn piece_parts(x: Seq<char>, v: bool) -> Seq<Part> {
    if x.len() == 0 {
        Seq::<Part>::empty()
    } else if x == dot() {
        if v {
            seq![Part::Cur]
        } else {
            Seq::<Part>::empty()
        }
    } else if x == dot_dot() {
        seq![Part::Parent]
    } else {
        seq![Part::Normal(x)]
    }
}

pub open spec fn body_parts(xs: Seq<Seq<char>>, v: bool) -> Seq<Part>
    decreases xs.len(),
{
    if xs.len() == 0 {
        Seq::<Part>::empty()
    } else {
        body_parts(xs.drop_last(), v) + piece_parts(xs.last(), v)
    }
}

pub open spec fn head_parts(p: Platform, s: Seq<char>) -> Seq<Part> {
    (match prefix_info(p, s) {
        Some(x) => seq![Part::Prefix(x.0)],
        None => Seq::<Part>::empty(),
    }) + (if has_root(p, s) || implied_root(p, s) {
        seq![Part::Root]
    } else {
        Seq::<Part>::empty()
    }) + (if cur_skip(p, s) && !has_prefix(p, s) {
        seq![Part::Cur]
    } else {
        Seq::<Part>::empty()
    })
}

/// The components of the path `s`.
pub open spec fn parts(p: Platform, s: Seq<char>) -> Seq<Part> {
    head_parts(p, s) + body_parts(pieces(p, verbatim(p, s), s.skip(body_start(p, s))), verbatim(p, s))
}

/// Whether `a` and `b` name the same path, as `==` on `Path` decides.
pub open spec fn same_path(p: Platform, a: Seq<char>, b: Seq<char>) -> bool {
    parts(p, a) == parts(p, b)
}

/// Whether some member of `ys` is the same path as `x`.
pub open spec fn has_same(p: Platform, ys: Seq<Seq<char>>, x: Seq<char>) -> bool {
    exists|k: int| 0 <= k < ys.len() && #[trigger] same_path(p, ys[k], x)
}

/// A prefix is at least two characters long and fits in the path.
pub proof fn lemma_prefix_bounds(p: Platform, s: Seq<char>)
    ensures
        has_prefix(p, s) ==> 2 <= prefix_len(p, s) <= s.len(),
        !has_prefix(p, s) ==> prefix_len(p, s) == 0,
{
    let n = s.len() as int;
    if n >= 8 {
        lemma_sep_end(s, 8, true);
        let e = sep_end(s, 8, true);
        if e < n {
            lemma_sep_end(s, e + 1, true);
        }
    }
    if n >= 4 {
        lemma_sep_end(s, 4, true);
        lemma_sep_end(s, 4, false);
    }
    if n >= 2 {
        lemma_sep_end(s, 2, false);
        let e = sep_end(s, 2, false);
        if e < n {
            lemma_sep_end(s, e + 1, false);
        }
    }
}

/// Cutting text at separators gives at least one piece.
pub proof fn lemma_pieces_nonempty(p: Platform, v: bool, x: Seq<char>)
    ensures
        pieces(p, v, x).len() >= 1,
    decreases x.len(),
{
    if x.len() > 0 {
        lemma_pieces_nonempty(p, v, x.drop_last());
    }
}

fn is_ascii_letter(c: char) -> (r: bool)
    ensures
        r == is_ascii_alpha(c),
{
    ('a' <= c && c <= 'z') || ('A' <= c && c <= 'Z')
}

fn upper_letter_code(c: char) -> (r: u32)
    ensures
        r == upper_code(c),
{
    if 'a' <= c && c <= 'z' {
        (c as u32) - 32
    } else {
        c as u32
    }
}

fn is_sep2(c: char) -> (r: bool)
    ensures
        r == sep2(c),
{
    c == '\\' || c == '/'
}

/// The first index from `from` on that holds a separator, or the length.
fn find_sep(s: &str, from: usize, v: bool) -> (r: usize)
    requires
        from <= s@.len(),
    ensures
        r == sep_end(s@, from as int, v),
        from <= r <= s@.len(),
{
    let n = s.unicode_len();
    let mut i: usize = from;
    while i < n
        invariant
            from <= i <= n == s@.len(),
            sep_end(s@, from as int, v) == sep_end(s@, i as int, v),
        decreases n - i,
    {
        let c = s.get_char(i);
        if c == '\\' || (!v && c == '/') {
            return i;
        }
        i = i + 1;
    }
    i
}

/// The piece between `from` and the next separator, and where it ends.
fn piece_at(s: &str, from: usize, v: bool) -> (r: (String, usize))
    requires
        from <= s@.len(),
    ensures
        r.0@ == next_piece(s@, from as int, v),
        r.1 == sep_end(s@, from as int, v),
        from <= r.1 <= s@.len(),
{
    let e = find_sep(s, from, v);
    (substring(s, from, e), e)
}

/// The piece after the separator that ends the piece at `from`.
fn second_piece(s: &str, from: usize, v: bool) -> (r: String)
    requires
        from <= s@.len(),
    ensures
        r@ == piece_after(s@, from as int, v),
{
    let e = find_sep(s, from, v);
    if e < s.unicode_len() {
        let (x, _) = piece_at(s, e + 1, v);
        x
    } else {
        String::new()
    }
}

/// The prefix of the Windows path `s` and its length.
fn windows_prefix(s: &str) -> (r: Option<(PathPrefix, usize)>)
    ensures
        match r {
            Some((x, k)) => win_prefix(s@) == Some((x@, k as int)),
            None => win_prefix(s@) is None,
        },
{
    let n = s.unicode_len();
    if n >= 2 && is_sep2(s.get_char(0)) && is_sep2(s.get_char(1)) {
        if n >= 4 && s.get_char(0) == '\\' && s.get_char(1) == '\\' && s.get_char(2) == '?'
            && s.get_char(3) == '\\' {
            if n >= 8 && s.get_char(4) == 'U' && s.get_char(5) == 'N' && s.get_char(6) == 'C'
                && is_sep2(s.get_char(7)) {
                let (server, _) = piece_at(s, 8, true);
                let share = second_piece(s, 8, true);
                proof {
                    lemma_prefix_bounds(Platform::Windows, s@);
                }
                let k = if share.unicode_len() > 0 {
                    8 + server.unicode_len() + 1 + share.unicode_len()
                } else {
                    8 + server.unicode_len()
                };
                return Some((PathPrefix::VerbatimUNC(server, share), k));
            }
            if n >= 6 && s.get_char(5) == ':' && is_ascii_letter(s.get_char(4)) && (n == 6
                || s.get_char(6) == '\\') {
                return Some((PathPrefix::VerbatimDisk(upper_letter_code(s.get_char(4))), 6));
            }
            let (x, e) = piece_at(s, 4, true);
            return Some((PathPrefix::Verbatim(x), e));
        }
        if n >= 4 && s.get_char(2) == '.' && is_sep2(s.get_char(3)) {
            let (x, e) = piece_at(s, 4, false);
            return Some((PathPrefix::DeviceNS(x), e));
        }
        let (server, _) = piece_at(s, 2, false);
        let share = second_piece(s, 2, false);
        if server.unicode_len() > 0 && share.unicode_len() > 0 {
            proof {
                lemma_prefix_bounds(Platform::Windows, s@);
            }
            let k = 2 + server.unicode_len() + 1 + share.unicode_len();
            return Some((PathPrefix::UNC(server, share), k));
        }
        return None;
    }
    if n >= 2 && s.get_char(1) == ':' && is_ascii_letter(s.get_char(0)) {
        return Some((PathPrefix::Disk(upper_letter_code(s.get_char(0))), 2));
    }
    None
}

/// The prefix of `s` and its length.
pub fn path_prefix(s: &str, p: Platform) -> (r: Option<(PathPrefix, usize)>)
    ensures
        match r {
            Some((x, k)) => prefix_info(p, s@) == Some((x@, k as int)),
            None => prefix_info(p, s@) is None,
        },
{
    if p == Platform::Windows {
        windows_prefix(s)
    } else {
        None
    }
}

fn body_separator(p: Platform, v: bool, c: char) -> (r: bool)
    ensures
        r == bsep(p, v, c),
{
    if v {
        c == '\\'
    } else {
        is_separator(p, c)
    }
}

/// Appends the component of the piece `s[lo..hi]`, if it has one.
fn push_piece(out: &mut Vec<Component>, s: &str, lo: usize, hi: usize, v: bool)
    requires
        lo <= hi <= s@.len(),
    ensures
        parts_view(final(out)@) == parts_view(old(out)@) + piece_parts(s@.subrange(lo as int, hi as int), v),
{
    let ghost x = s@.subrange(lo as int, hi as int);
    let ghost before = out@;
    if hi == lo {
        proof {
            assert(parts_view(out@) =~= parts_view(before) + piece_parts(x, v));
        }
        return;
    }
    if hi - lo == 1 && s.get_char(lo) == '.' {
        if v {
            out.push(Component::CurDir);
        }
        proof {
            assert(x =~= dot());
            assert(parts_view(out@) =~= parts_view(before) + piece_parts(x, v));
        }
        return;
    }
    if hi - lo == 2 && s.get_char(lo) == '.' && s.get_char(lo + 1) == '.' {
        out.push(Component::ParentDir);
        proof {
            assert(x =~= dot_dot());
            assert(parts_view(out@) =~= parts_view(before) + piece_parts(x, v));
        }
        return;
    }
    let text = substring(s, lo, hi);
    out.push(Component::Normal(text));
    proof {
        assert(x.len() == hi - lo);
        if x.len() > 0 {
            assert(x[0] == s@[lo as int]);
        }
        if x.len() > 1 {
            assert(x[1] == s@[lo + 1]);
        }
        if x == dot() {
            assert(x[0] == '.');
        }
        if x == dot_dot() {
            assert(x[0] == '.' && x[1] == '.');
        }
        assert(parts_view(out@) =~= parts_view(before) + piece_parts(x, v));
    }
}

/// How a path begins.
pub struct Layout {
    /// The prefix, if any.
    pub prefix: Option<PathPrefix>,
    /// The length of the prefix (0 without one).
    pub prefix_len: usize,
    /// Whether the prefix is verbatim.
    pub verbatim: bool,
    /// Whether a separator follows the prefix.
    pub root: bool,
    /// Whether the root is implied by the prefix.
    pub implied_root: bool,
    /// Whether the body starts with a `.` piece for the current directory.
    pub cur: bool,
}

pub open spec fn layout_of(l: Layout, p: Platform, s: Seq<char>) -> bool {
    &&& match l.prefix {
        Some(x) => prefix_info(p, s) == Some((x@, l.prefix_len as int)),
        None => prefix_info(p, s) is None && l.prefix_len == 0,
    }
    &&& l.prefix_len == prefix_len(p, s)
    &&& l.prefix_len <= s.len()
    &&& l.verbatim == verbatim(p, s)
    &&& l.root == has_root(p, s)
    &&& l.implied_root == implied_root(p, s)
    &&& l.cur == cur_skip(p, s)
}

/// How `s` begins: prefix, root and leading `.` piece.
fn layout(s: &str, p: Platform) -> (r: Layout)
    ensures
        layout_of(r, p, s@),
{
    proof {
        lemma_prefix_bounds(p, s@);
    }
    let n = s.unicode_len();
    let pre = path_prefix(s, p);
    let (prefix, pl, verb, plain) = match pre {
        Some((x, k)) => {
            let verb = match &x {
                PathPrefix::Verbatim(_) => true,
                PathPrefix::VerbatimUNC(_, _) => true,
                PathPrefix::VerbatimDisk(_) => true,
                _ => false,
            };
            let plain = match &x {
                PathPrefix::Disk(_) => true,
                _ => false,
            };
            (Some(x), k, verb, plain)
        },
        None => (None, 0, false, true),
    };
    let root = n > pl && is_separator(p, s.get_char(pl));
    let cur = !root && plain && n > pl && s.get_char(pl) == '.' && (n == pl + 1 || is_separator(
        p,
        s.get_char(pl + 1),
    ));
    Layout { prefix, prefix_len: pl, verbatim: verb, root, implied_root: !root && !plain && !verb, cur }
}

/// The length of the text before the first body component.
fn lead_length(s: &str, p: Platform) -> (r: usize)
    ensures
        r == lead_len(p, s@),
        r <= s@.len(),
{
    let l = layout(s, p);
    let n = s.unicode_len();
    let mut k: usize = l.prefix_len;
    proof {
        assert(l.root ==> k < n);
        assert(l.cur ==> !l.root && k < n);
    }
    if l.root {
        k = k + 1;
    }
    if l.cur {
        k = k + 1;
    }
    k
}

/// The components of the path `s`, as `Path::components` yields them.
pub fn components(s: &str, p: Platform) -> (r: Vec<Component>)
    ensures
        parts_view(r@) == parts(p, s@),
{
    let n = s.unicode_len();
    let l = layout(s, p);
    let v = l.verbatim;
    let b: usize = if l.root {
        l.prefix_len + 1
    } else {
        l.prefix_len
    };
    let has_pre = l.prefix.is_some();
    let mut out: Vec<Component> = Vec::new();
    match l.prefix {
        Some(x) => out.push(Component::Prefix(x)),
        None => {},
    }
    if l.root || l.implied_root {
        out.push(Component::RootDir);
    }
    if l.cur && !has_pre {
        out.push(Component::CurDir);
    }
    let ghost head = head_parts(p, s@);
    let ghost body = s@.skip(b as int);
    proof {
        assert(b == body_start(p, s@));
        assert(has_pre == has_prefix(p, s@));
        assert(parts_view(out@) =~= head);
        assert(s@.subrange(b as int, b as int) =~= Seq::<char>::empty());
    }
    let mut start: usize = b;
    let mut i: usize = b;
    while i < n
        invariant
            n == s@.len(),
            b <= start <= i <= n,
            v == verbatim(p, s@),
            body == s@.skip(b as int),
            pieces(p, v, s@.subrange(b as int, i as int)).len() >= 1,
            parts_view(out@) == head + body_parts(
                pieces(p, v, s@.subrange(b as int, i as int)).drop_last(),
                v,
            ),
            s@.subrange(start as int, i as int) == pieces(p, v, s@.subrange(b as int, i as int)).last(),
        decreases n - i,
    {
        let c = s.get_char(i);
        let ghost pre = s@.subrange(b as int, i as int);
        let ghost post = s@.subrange(b as int, i + 1);
        proof {
            assert(post.drop_last() =~= pre);
            assert(post.last() == c);
            lemma_pieces_nonempty(p, v, pre);
        }
        if body_separator(p, v, c) {
            push_piece(&mut out, s, start, i, v);
            proof {
                let ps = pieces(p, v, pre);
                assert(pieces(p, v, post) == ps.push(Seq::<char>::empty()));
                assert(pieces(p, v, post).drop_last() =~= ps);
                assert(ps =~= ps.drop_last().push(ps.last()));
                assert(body_parts(ps, v) == body_parts(ps.drop_last(), v) + piece_parts(ps.last(), v));
                assert(parts_view(out@) =~= head + body_parts(pieces(p, v, post).drop_last(), v));
            }
            start = i + 1;
        } else {
            proof {
                let ps = pieces(p, v, pre);
                assert(pieces(p, v, post).drop_last() =~= ps.drop_last());
                assert(s@.subrange(start as int, i + 1) =~= ps.last().push(c));
            }
        }
        i = i + 1;
    }
    push_piece(&mut out, s, start, n, v);
    proof {
        let ps = pieces(p, v, s@.subrange(b as int, n as int));
        assert(s@.subrange(b as int, n as int) =~= body);
        assert(ps =~= ps.drop_last().push(ps.last()));
        assert(body_parts(ps, v) == body_parts(ps.drop_last(), v) + piece_parts(ps.last(), v));
        assert(parts_view(out@) =~= head + body_parts(pieces(p, v, body), v));
    }
    out
}

/// The outcome of comparing two values.
#[derive(Clone, Copy, Debug, PartialEq, Eq, Structural)]
pub enum Rank {
    Less,
    Same,
    Greater,
}

/// Lexicographic order on sequences built from a strict order on elements.
pub open spec fn lex_less<T>(a: Seq<T>, b: Seq<T>, lt: spec_fn(T, T) -> bool) -> bool
    decreases a.len(),
{
    if b.len() == 0 {
        false
    } else if a.len() == 0 {
        true
    } else if lt(a[0], b[0]) {
        true
    } else if a[0] == b[0] {
        lex_less(a.drop_first(), b.drop_first(), lt)
    } else {
        false
    }
}

/// `lt` is a strict total order.
pub open spec fn strict_total<T>(lt: spec_fn(T, T) -> bool) -> bool {
    &&& forall|x: T| !#[trigger] lt(x, x)
    &&& forall|x: T, y: T, z: T| #[trigger] lt(x, y) && #[trigger] lt(y, z) ==> lt(x, z)
    &&& forall|x: T, y: T| x != y ==> #[trigger] lt(x, y) || #[trigger] lt(y, x)
}

/// Under a strict order, no sequence is lexicographically before itself.
pub proof fn lemma_lex_irreflexive<T>(a: Seq<T>, lt: spec_fn(T, T) -> bool)
    requires
        strict_total(lt),
    ensures
        !lex_less(a, a, lt),
    decreases a.len(),
{
    if a.len() > 0 {
        assert(!lt(a[0], a[0]));
        lemma_lex_irreflexive(a.drop_first(), lt);
    }
}

/// Under a strict total order, the lexicographic order is transitive.
pub proof fn lemma_lex_transitive<T>(a: Seq<T>, b: Seq<T>, c: Seq<T>, lt: spec_fn(T, T) -> bool)
    requires
        strict_total(lt),
        lex_less(a, b, lt),
        lex_less(b, c, lt),
    ensures
        lex_less(a, c, lt),
    decreases a.len(),
{
    if a.len() > 0 && b.len() > 0 && c.len() > 0 {
        if lt(a[0], b[0]) {
            if lt(b[0], c[0]) {
                assert(lt(a[0], c[0]));
            } else {
                assert(b[0] == c[0]);
            }
        } else {
            assert(a[0] == b[0]);
            if !lt(b[0], c[0]) {
                assert(b[0] == c[0]);
                lemma_lex_transitive(a.drop_first(), b.drop_first(), c.drop_first(), lt);
            }
        }
    }
}

/// Under a strict total order, of two different sequences one is
/// lexicographically first.
pub proof fn lemma_lex_total<T>(a: Seq<T>, b: Seq<T>, lt: spec_fn(T, T) -> bool)
    requires
        strict_total(lt),
        a != b,
    ensures
        lex_less(a, b, lt) || lex_less(b, a, lt),
    decreases a.len(),
{
    if a.len() == 0 {
        assert(b.len() > 0) by {
            if b.len() == 0 {
                assert(a =~= b);
            }
        }
    } else if b.len() > 0 {
        if a[0] == b[0] {
            assert(a.drop_first() != b.drop_first()) by {
                if a.drop_first() == b.drop_first() {
                    assert(a =~= seq![a[0]] + a.drop_first());
                    assert(b =~= seq![b[0]] + b.drop_first());
                }
            }
            lemma_lex_total(a.drop_first(), b.drop_first(), lt);
        } else {
            assert(lt(a[0], b[0]) || lt(b[0], a[0]));
        }
    }
}

/// The lexicographic extension of a strict total order is one too.
pub proof fn lemma_lex_strict_total<T>(lt: spec_fn(T, T) -> bool)
    requires
        strict_total(lt),
    ensures
        strict_total(|a: Seq<T>, b: Seq<T>| lex_less(a, b, lt)),
{
    let lx = |a: Seq<T>, b: Seq<T>| lex_less(a, b, lt);
    assert forall|a: Seq<T>| !#[trigger] lx(a, a) by {
        lemma_lex_irreflexive(a, lt);
    }
    assert forall|a: Seq<T>, b: Seq<T>, c: Seq<T>| #[trigger] lx(a, b) && #[trigger] lx(b, c) implies lx(a, c) by {
        lemma_lex_transitive(a, b, c, lt);
    }
    assert forall|a: Seq<T>, b: Seq<T>| a != b implies #[trigger] lx(a, b) || #[trigger] lx(b, a) by {
        lemma_lex_total(a, b, lt);
    }
}

/// Past a common beginning of length `i`, the order is decided by the rest.
pub proof fn lemma_lex_skip<T>(a: Seq<T>, b: Seq<T>, lt: spec_fn(T, T) -> bool, i: int)
    requires
        strict_total(lt),
        0 <= i <= a.len(),
        i <= b.len(),
        a.take(i) == b.take(i),
    ensures
        lex_less(a, b, lt) == lex_less(a.skip(i), b.skip(i), lt),
    decreases i,
{
    if i == 0 {
        assert(a.skip(0) =~= a);
        assert(b.skip(0) =~= b);
    } else {
        assert(a[0] == a.take(i)[0]);
        assert(b[0] == b.take(i)[0]);
        assert(!lt(a[0], a[0]));
        assert(a.drop_first().take(i - 1) =~= a.take(i).drop_first());
        assert(b.drop_first().take(i - 1) =~= b.take(i).drop_first());
        lemma_lex_skip(a.drop_first(), b.drop_first(), lt, i - 1);
        assert(a.drop_first().skip(i - 1) =~= a.skip(i));
        assert(b.drop_first().skip(i - 1) =~= b.skip(i));
    }
}

pub open spec fn char_lt(x: char, y: char) -> bool {
    x < y
}

pub open spec fn char_order() -> spec_fn(char, char) -> bool {
    |x: char, y: char| char_lt(x, y)
}

/// The order of names: by code points, as the bytes of UTF-8 text order.
pub open spec fn text_less(a: Seq<char>, b: Seq<char>) -> bool {
    lex_less(a, b, char_order())
}

pub open spec fn part_rank(x: Part) -> int {
    match x {
        Part::Prefix(_) => 0,
        Part::Root => 1,
        Part::Cur => 2,
        Part::Parent => 3,
        Part::Normal(_) => 4,
    }
}

pub open spec fn pfx_rank(x: Pfx) -> int {
    match x {
        Pfx::Verbatim(_) => 0,
        Pfx::VerbatimUNC(_, _) => 1,
        Pfx::VerbatimDisk(_) => 2,
        Pfx::DeviceNS(_) => 3,
        Pfx::UNC(_, _) => 4,
        Pfx::Disk(_) => 5,
    }
}

/// Pairs of names in order: by the first, then by the second.
pub open spec fn pair_less(a: Seq<char>, b: Seq<char>, c: Seq<char>, d: Seq<char>) -> bool {
    text_less(a, c) || (a == c && text_less(b, d))
}

/// The order of prefixes, as `Ord` on `std::path::Prefix` gives it: by
/// kind first (in the order the kinds are declared), then by their parts.
pub open spec fn pfx_less(x: Pfx, y: Pfx) -> bool {
    pfx_rank(x) < pfx_rank(y) || match (x, y) {
        (Pfx::Verbatim(a), Pfx::Verbatim(b)) => text_less(a, b),
        (Pfx::VerbatimUNC(a, b), Pfx::VerbatimUNC(c, d)) => pair_less(a, b, c, d),
        (Pfx::VerbatimDisk(a), Pfx::VerbatimDisk(b)) => a < b,
        (Pfx::DeviceNS(a), Pfx::DeviceNS(b)) => text_less(a, b),
        (Pfx::UNC(a, b), Pfx::UNC(c, d)) => pair_less(a, b, c, d),
        (Pfx::Disk(a), Pfx::Disk(b)) => a < b,
        _ => false,
    }
}

/// The order of components: by kind first (prefix, root, `.`, `..`,
/// names), then by prefix or by name.
pub open spec fn part_less(x: Part, y: Part) -> bool {
    part_rank(x) < part_rank(y) || match (x, y) {
        (Part::Prefix(a), Part::Prefix(b)) => pfx_less(a, b),
        (Part::Normal(a), Part::Normal(b)) => text_less(a, b),
        _ => false,
    }
}

pub open spec fn part_order() -> spec_fn(Part, Part) -> bool {
    |x: Part, y: Part| part_less(x, y)
}

/// The order of paths, as `Ord` on `Path` gives it: by components,
/// lexicographically.
pub open spec fn parts_less(a: Seq<Part>, b: Seq<Part>) -> bool {
    lex_less(a, b, part_order())
}

/// Characters are strictly and totally ordered by code point.
pub proof fn lemma_char_order()
    ensures
        strict_total(char_order()),
{
}

/// Names are strictly and totally ordered.
pub proof fn lemma_text_order()
    ensures
        strict_total(|a: Seq<char>, b: Seq<char>| text_less(a, b)),
{
    lemma_char_order();
    lemma_lex_strict_total(char_order());
    let l1 = |a: Seq<char>, b: Seq<char>| text_less(a, b);
    let l2 = |a: Seq<char>, b: Seq<char>| lex_less(a, b, char_order());
    assert(forall|a: Seq<char>, b: Seq<char>| #[trigger] l1(a, b) == l2(a, b));
}

/// The order of prefixes is a strict total order.
pub proof fn lemma_pfx_order()
    ensures
        strict_total(|x: Pfx, y: Pfx| pfx_less(x, y)),
{
    lemma_text_order();
    let tl = |a: Seq<char>, b: Seq<char>| text_less(a, b);
    let lt = |x: Pfx, y: Pfx| pfx_less(x, y);
    assert forall|x: Pfx| !#[trigger] lt(x, x) by {
        match x {
            Pfx::Verbatim(a) => assert(!tl(a, a)),
            Pfx::VerbatimUNC(a, b) => {
                assert(!tl(a, a));
                assert(!tl(b, b));
            },
            Pfx::DeviceNS(a) => assert(!tl(a, a)),
            Pfx::UNC(a, b) => {
                assert(!tl(a, a));
                assert(!tl(b, b));
            },
            _ => {},
        }
    }
    assert forall|x: Pfx, y: Pfx, z: Pfx| #[trigger] lt(x, y) && #[trigger] lt(y, z) implies lt(x, z) by {
        match (x, y, z) {
            (Pfx::Verbatim(a), Pfx::Verbatim(b), Pfx::Verbatim(c)) => {
                if tl(a, b) && tl(b, c) {
                    assert(tl(a, c));
                }
            },
            (Pfx::DeviceNS(a), Pfx::DeviceNS(b), Pfx::DeviceNS(c)) => {
                if tl(a, b) && tl(b, c) {
                    assert(tl(a, c));
                }
            },
            (Pfx::VerbatimUNC(a1, a2), Pfx::VerbatimUNC(b1, b2), Pfx::VerbatimUNC(c1, c2)) => {
                if tl(a1, b1) && tl(b1, c1) {
                    assert(tl(a1, c1));
                }
                if tl(a2, b2) && tl(b2, c2) {
                    assert(tl(a2, c2));
                }
            },
            (Pfx::UNC(a1, a2), Pfx::UNC(b1, b2), Pfx::UNC(c1, c2)) => {
                if tl(a1, b1) && tl(b1, c1) {
                    assert(tl(a1, c1));
                }
                if tl(a2, b2) && tl(b2, c2) {
                    assert(tl(a2, c2));
                }
            },
            _ => {},
        }
    }
    assert forall|x: Pfx, y: Pfx| x != y implies #[trigger] lt(x, y) || #[trigger] lt(y, x) by {
        match (x, y) {
            (Pfx::Verbatim(a), Pfx::Verbatim(b)) => {
                assert(a != b);
                assert(tl(a, b) || tl(b, a));
            },
            (Pfx::DeviceNS(a), Pfx::DeviceNS(b)) => {
                assert(a != b);
                assert(tl(a, b) || tl(b, a));
            },
            (Pfx::VerbatimUNC(a1, a2), Pfx::VerbatimUNC(b1, b2)) => {
                if a1 != b1 {
                    assert(tl(a1, b1) || tl(b1, a1));
                } else {
                    assert(a2 != b2);
                    assert(tl(a2, b2) || tl(b2, a2));
                }
            },
            (Pfx::UNC(a1, a2), Pfx::UNC(b1, b2)) => {
                if a1 != b1 {
                    assert(tl(a1, b1) || tl(b1, a1));
                } else {
                    assert(a2 != b2);
                    assert(tl(a2, b2) || tl(b2, a2));
                }
            },
            _ => {},
        }
    }
}

/// No component is ordered before itself.
pub proof fn lemma_part_irreflexive(x: Part)
    ensures
        !part_less(x, x),
{
    lemma_part_order();
    let lt = part_order();
    assert(!lt(x, x));
}

/// The order of components is a strict total order.
pub proof fn lemma_part_order()
    ensures
        strict_total(part_order()),
{
    lemma_text_order();
    lemma_pfx_order();
    let tl = |a: Seq<char>, b: Seq<char>| text_less(a, b);
    let pl = |x: Pfx, y: Pfx| pfx_less(x, y);
    let lt = part_order();
    assert forall|x: Part| !#[trigger] lt(x, x) by {
        match x {
            Part::Normal(a) => assert(!tl(a, a)),
            Part::Prefix(a) => assert(!pl(a, a)),
            _ => {},
        }
    }
    assert forall|x: Part, y: Part, z: Part| #[trigger] lt(x, y) && #[trigger] lt(y, z) implies lt(x, z) by {
        match (x, y, z) {
            (Part::Normal(a), Part::Normal(b), Part::Normal(c)) => {
                if tl(a, b) && tl(b, c) {
                    assert(tl(a, c));
                }
            },
            (Part::Prefix(a), Part::Prefix(b), Part::Prefix(c)) => {
                if pl(a, b) && pl(b, c) {
                    assert(pl(a, c));
                }
            },
            _ => {},
        }
    }
    assert forall|x: Part, y: Part| x != y implies #[trigger] lt(x, y) || #[trigger] lt(y, x) by {
        match (x, y) {
            (Part::Normal(a), Part::Normal(b)) => {
                assert(a != b);
                assert(tl(a, b) || tl(b, a));
            },
            (Part::Prefix(a), Part::Prefix(b)) => {
                assert(a != b);
                assert(pl(a, b) || pl(b, a));
            },
            _ => {},
        }
    }
}

/// Paths are strictly and totally ordered by their components: of two
/// different paths exactly one comes first, and the order is transitive.
pub proof fn lemma_path_order()
    ensures
        strict_total(|a: Seq<Part>, b: Seq<Part>| parts_less(a, b)),
{
    lemma_part_order();
    lemma_lex_strict_total(part_order());
    let l1 = |a: Seq<Part>, b: Seq<Part>| parts_less(a, b);
    let l2 = |a: Seq<Part>, b: Seq<Part>| lex_less(a, b, part_order());
    assert(forall|a: Seq<Part>, b: Seq<Part>| #[trigger] l1(a, b) == l2(a, b));
}

/// No path comes before itself.
pub proof fn lemma_parts_less_irreflexive(a: Seq<Part>)
    ensures
        !parts_less(a, a),
{
    lemma_part_order();
    lemma_lex_irreflexive(a, part_order());
}

/// A path before a path before a third comes before the third.
pub proof fn lemma_parts_less_transitive(a: Seq<Part>, b: Seq<Part>, c: Seq<Part>)
    requires
        parts_less(a, b),
        parts_less(b, c),
    ensures
        parts_less(a, c),
{
    lemma_part_order();
    lemma_lex_transitive(a, b, c, part_order());
}

/// Of two different paths, one comes first.
pub proof fn lemma_parts_less_total(a: Seq<Part>, b: Seq<Part>)
    requires
        a != b,
    ensures
        parts_less(a, b) || parts_less(b, a),
{
    lemma_part_order();
    lemma_lex_total(a, b, part_order());
}

/// Compares two names by code points.
pub fn compare_text(a: &str, b: &str) -> (r: Rank)
    ensures
        (r == Rank::Less) == text_less(a@, b@),
        (r == Rank::Same) == (a@ == b@),
        (r == Rank::Greater) == text_less(b@, a@),
{
    let ghost lt = char_order();
    proof {
        lemma_char_order();
        lemma_lex_strict_total(lt);
        lemma_lex_irreflexive(a@, lt);
        lemma_lex_irreflexive(b@, lt);
    }
    let na = a.unicode_len();
    let nb = b.unicode_len();
    let mut i: usize = 0;
    while i < na && i < nb
        invariant
            na == a@.len(),
            nb == b@.len(),
            i <= na,
            i <= nb,
            lt == char_order(),
            strict_total(lt),
            a@.take(i as int) == b@.take(i as int),
        decreases na - i,
    {
        let x = a.get_char(i);
        let y = b.get_char(i);
        if x < y || y < x {
            proof {
                lemma_lex_skip(a@, b@, lt, i as int);
                lemma_lex_skip(b@, a@, lt, i as int);
                assert(a@.skip(i as int)[0] == x);
                assert(b@.skip(i as int)[0] == y);
                assert(a@[i as int] != b@[i as int]);
                assert(lt(x, y) == (x < y));
                assert(lt(y, x) == (y < x));
                assert(lex_less(a@.skip(i as int), b@.skip(i as int), lt) == (x < y));
                assert(lex_less(b@.skip(i as int), a@.skip(i as int), lt) == (y < x));
            }
            if x < y {
                return Rank::Less;
            } else {
                return Rank::Greater;
            }
        }
        proof {
            assert(x == y);
            assert(a@.take(i + 1) =~= a@.take(i as int).push(x));
            assert(b@.take(i + 1) =~= b@.take(i as int).push(y));
        }
        i = i + 1;
    }
    proof {
        lemma_lex_skip(a@, b@, lt, i as int);
        lemma_lex_skip(b@, a@, lt, i as int);
        if na == nb {
            assert(a@ =~= a@.take(i as int));
            assert(b@ =~= b@.take(i as int));
        } else {
            assert(a@.len() != b@.len());
        }
    }
    if na < nb {
        Rank::Less
    } else if nb < na {
        Rank::Greater
    } else {
        Rank::Same
    }
}

/// Compares two pairs of names: by the first, then by the second.
fn compare_pair(a: &str, b: &str, c: &str, d: &str) -> (r: Rank)
    ensures
        (r == Rank::Less) == pair_less(a@, b@, c@, d@),
        (r == Rank::Same) == (a@ == c@ && b@ == d@),
        (r == Rank::Greater) == pair_less(c@, d@, a@, b@),
{
    proof {
        lemma_text_order();
        let tl = |x: Seq<char>, y: Seq<char>| text_less(x, y);
        assert(!tl(a@, a@));
    }
    let r = compare_text(a, c);
    if r != Rank::Same {
        return r;
    }
    compare_text(b, d)
}

fn compare_code(a: u32, b: u32) -> (r: Rank)
    ensures
        (r == Rank::Less) == (a < b),
        (r == Rank::Same) == (a == b),
        (r == Rank::Greater) == (b < a),
{
    if a < b {
        Rank::Less
    } else if b < a {
        Rank::Greater
    } else {
        Rank::Same
    }
}

fn prefix_rank(x: &PathPrefix) -> (r: u8)
    ensures
        r as int == pfx_rank(x@),
{
    match x {
        PathPrefix::Verbatim(_) => 0,
        PathPrefix::VerbatimUNC(_, _) => 1,
        PathPrefix::VerbatimDisk(_) => 2,
        PathPrefix::DeviceNS(_) => 3,
        PathPrefix::UNC(_, _) => 4,
        PathPrefix::Disk(_) => 5,
    }
}

/// Compares two prefixes as `Ord` on `std::path::Prefix` does.
pub fn compare_prefix(x: &PathPrefix, y: &PathPrefix) -> (r: Rank)
    ensures
        (r == Rank::Less) == pfx_less(x@, y@),
        (r == Rank::Same) == (x@ == y@),
        (r == Rank::Greater) == pfx_less(y@, x@),
{
    proof {
        lemma_pfx_order();
        let pl = |u: Pfx, w: Pfx| pfx_less(u, w);
        assert(!pl(x@, x@));
        assert(!pl(y@, y@));
    }
    let rx = prefix_rank(x);
    let ry = prefix_rank(y);
    if rx < ry {
        return Rank::Less;
    }
    if ry < rx {
        return Rank::Greater;
    }
    match (x, y) {
        (PathPrefix::Verbatim(a), PathPrefix::Verbatim(b)) => compare_text(a.as_str(), b.as_str()),
        (PathPrefix::DeviceNS(a), PathPrefix::DeviceNS(b)) => compare_text(a.as_str(), b.as_str()),
        (PathPrefix::VerbatimUNC(a, b), PathPrefix::VerbatimUNC(c, d)) => compare_pair(
            a.as_str(),
            b.as_str(),
            c.as_str(),
            d.as_str(),
        ),
        (PathPrefix::UNC(a, b), PathPrefix::UNC(c, d)) => compare_pair(
            a.as_str(),
            b.as_str(),
            c.as_str(),
            d.as_str(),
        ),
        (PathPrefix::VerbatimDisk(a), PathPrefix::VerbatimDisk(b)) => compare_code(*a, *b),
        (PathPrefix::Disk(a), PathPrefix::Disk(b)) => compare_code(*a, *b),
        _ => Rank::Same,
    }
}

/// Compares two components.
pub fn compare_part(x: &Component, y: &Component) -> (r: Rank)
    ensures
        (r == Rank::Less) == part_less(x@, y@),
        (r == Rank::Same) == (x@ == y@),
        (r == Rank::Greater) == part_less(y@, x@),
{
    proof {
        lemma_part_irreflexive(x@);
        lemma_part_irreflexive(y@);
    }
    let rx: u8 = match x {
        Component::Prefix(_) => 0,
        Component::RootDir => 1,
        Component::CurDir => 2,
        Component::ParentDir => 3,
        Component::Normal(_) => 4,
    };
    let ry: u8 = match y {
        Component::Prefix(_) => 0,
        Component::RootDir => 1,
        Component::CurDir => 2,
        Component::ParentDir => 3,
        Component::Normal(_) => 4,
    };
    if rx < ry {
        return Rank::Less;
    }
    if ry < rx {
        return Rank::Greater;
    }
    match (x, y) {
        (Component::Prefix(a), Component::Prefix(b)) => {
            let r = compare_prefix(a, b);
            proof {
                if r == Rank::Same {
                    assert(x@ == y@);
                }
            }
            r
        },
        (Component::Normal(a), Component::Normal(b)) => {
            let r = compare_text(a.as_str(), b.as_str());
            proof {
                if r == Rank::Same {
                    assert(x@ == y@);
                }
            }
            r
        },
        _ => Rank::Same,
    }
}

/// Compares two component sequences as `Ord` on `Path` does.
pub fn compare_parts(a: &Vec<Component>, b: &Vec<Component>) -> (r: Rank)
    ensures
        (r == Rank::Less) == parts_less(parts_view(a@), parts_view(b@)),
        (r == Rank::Same) == (parts_view(a@) == parts_view(b@)),
        (r == Rank::Greater) == parts_less(parts_view(b@), parts_view(a@)),
{
    let ghost lt = part_order();
    let ghost va = parts_view(a@);
    let ghost vb = parts_view(b@);
    proof {
        lemma_part_order();
        lemma_lex_strict_total(lt);
        lemma_lex_irreflexive(va, lt);
        lemma_lex_irreflexive(vb, lt);
    }
    let na = a.len();
    let nb = b.len();
    let mut i: usize = 0;
    while i < na && i < nb
        invariant
            na == a@.len(),
            nb == b@.len(),
            va == parts_view(a@),
            vb == parts_view(b@),
            lt == part_order(),
            strict_total(lt),
            i <= na,
            i <= nb,
            va.take(i as int) == vb.take(i as int),
        decreases na - i,
    {
        let r = compare_part(&a[i], &b[i]);
        if r != Rank::Same {
            proof {
                lemma_lex_skip(va, vb, lt, i as int);
                lemma_lex_skip(vb, va, lt, i as int);
                let (xa, xb) = (a@[i as int]@, b@[i as int]@);
                assert(va.skip(i as int)[0] == xa);
                assert(vb.skip(i as int)[0] == xb);
                assert(va[i as int] != vb[i as int]);
                assert(lt(xa, xb) == part_less(xa, xb));
                assert(lt(xb, xa) == part_less(xb, xa));
                assert(lex_less(va.skip(i as int), vb.skip(i as int), lt) == part_less(xa, xb));
                assert(lex_less(vb.skip(i as int), va.skip(i as int), lt) == part_less(xb, xa));
            }
            return r;
        }
        proof {
            assert(va.take(i + 1) =~= va.take(i as int).push(va[i as int]));
            assert(vb.take(i + 1) =~= vb.take(i as int).push(vb[i as int]));
        }
        i = i + 1;
    }
    proof {
        lemma_lex_skip(va, vb, lt, i as int);
        lemma_lex_skip(vb, va, lt, i as int);
        if na == nb {
            assert(va =~= va.take(i as int));
            assert(vb =~= vb.take(i as int));
        } else {
            assert(va.len() != vb.len());
        }
    }
    if na < nb {
        Rank::Less
    } else if nb < na {
        Rank::Greater
    } else {
        Rank::Same
    }
}

/// Whether `a` and `b` name the same path, as `==` on `Path` decides.
pub fn paths_equal(a: &str, b: &str, p: Platform) -> (r: bool)
    ensures
        r == same_path(p, a@, b@),
{
    let ca = components(a, p);
    let cb = components(b, p);
    compare_parts(&ca, &cb) == Rank::Same
}


/// The largest index in `lo..end` that holds a separator, or -1.
pub open spec fn last_sep(p: Platform, v: bool, s: Seq<char>, lo: int, end: int) -> int
    decreases end - lo,
{
    if end <= lo {
        -1
    } else if bsep(p, v, s[end - 1]) {
        end - 1
    } else {
        last_sep(p, v, s, lo, end - 1)
    }
}

pub proof fn lemma_last_sep(p: Platform, v: bool, s: Seq<char>, lo: int, end: int)
    ensures
        last_sep(p, v, s, lo, end) == -1 || (lo <= last_sep(p, v, s, lo, end) < end),
    decreases end - lo,
{
    if end > lo && !bsep(p, v, s[end - 1]) {
        lemma_last_sep(p, v, s, lo, end - 1);
    }
}

/// Scanning back from `end`, where the last component begins.
pub open spec fn comp_start(p: Platform, v: bool, s: Seq<char>, lo: int, end: int) -> int {
    if last_sep(p, v, s, lo, end) < 0 {
        lo
    } else {
        last_sep(p, v, s, lo, end) + 1
    }
}

/// Scanning back from `end`, where the text before the last component and
/// its separator ends.
pub open spec fn rest_end(p: Platform, v: bool, s: Seq<char>, lo: int, end: int) -> int {
    if last_sep(p, v, s, lo, end) < 0 {
        lo
    } else {
        last_sep(p, v, s, lo, end)
    }
}

/// A piece that is a component: not empty, and not `.` unless the path
/// is verbatim.
pub open spec fn is_real(c: Seq<char>, v: bool) -> bool {
    c.len() > 0 && (v || c != dot())
}

/// The end of `s[..end]` once trailing empty and `.` pieces (with their
/// separators) are taken off, never going below `lo`.
pub open spec fn trim_end(p: Platform, v: bool, s: Seq<char>, lo: int, end: int) -> int
    decreases end,
{
    if 0 <= lo < end {
        proof {
            lemma_last_sep(p, v, s, lo, end);
        }
        if is_real(s.subrange(comp_start(p, v, s, lo, end), end), v) {
            end
        } else {
            trim_end(p, v, s, lo, rest_end(p, v, s, lo, end))
        }
    } else {
        end
    }
}

/// Scanning back from `end` for the last component: the end of the text
/// before it, trimmed, if there is one.
pub open spec fn parent_end(p: Platform, v: bool, s: Seq<char>, lo: int, end: int) -> Option<int>
    decreases end,
{
    if 0 <= lo < end {
        proof {
            lemma_last_sep(p, v, s, lo, end);
        }
        if is_real(s.subrange(comp_start(p, v, s, lo, end), end), v) {
            Some(trim_end(p, v, s, lo, rest_end(p, v, s, lo, end)))
        } else {
            parent_end(p, v, s, lo, rest_end(p, v, s, lo, end))
        }
    } else {
        None
    }
}

/// Scanning back from `end`, the text of the last component, if any.
pub open spec fn last_piece(p: Platform, v: bool, s: Seq<char>, lo: int, end: int) -> Option<Seq<char>>
    decreases end,
{
    if 0 <= lo < end {
        proof {
            lemma_last_sep(p, v, s, lo, end);
        }
        if is_real(s.subrange(comp_start(p, v, s, lo, end), end), v) {
            Some(s.subrange(comp_start(p, v, s, lo, end), end))
        } else {
            last_piece(p, v, s, lo, rest_end(p, v, s, lo, end))
        }
    } else {
        None
    }
}

/// The parent of the path `s`, as `Path::parent` gives it: the text before
/// the last component, without trailing separators or `.` pieces; none when
/// the path ends in a root or a prefix or has no component.
pub open spec fn parent_of(p: Platform, s: Seq<char>) -> Option<Seq<char>> {
    let lo = lead_len(p, s);
    let v = verbatim(p, s);
    match parent_end(p, v, s, lo, s.len() as int) {
        Some(e) => Some(s.take(e)),
        None => if cur_skip(p, s) && !has_prefix(p, s) {
            Some(s.take(lo - 1))
        } else {
            None
        },
    }
}

/// Trimming from `end` stops between `lo` and `end`.
pub proof fn lemma_trim_end_bounds(p: Platform, v: bool, s: Seq<char>, lo: int, end: int)
    requires
        0 <= lo <= end,
    ensures
        lo <= trim_end(p, v, s, lo, end) <= end,
    decreases end,
{
    if lo < end {
        lemma_last_sep(p, v, s, lo, end);
        if !is_real(s.subrange(comp_start(p, v, s, lo, end), end), v) {
            lemma_trim_end_bounds(p, v, s, lo, rest_end(p, v, s, lo, end));
        }
    }
}

/// Where the parent found scanning back from `end` ends: at or after
/// `lo`, and before `end`.
pub proof fn lemma_parent_end_bounds(p: Platform, v: bool, s: Seq<char>, lo: int, end: int)
    requires
        0 <= lo <= end,
    ensures
        parent_end(p, v, s, lo, end) matches Some(e) ==> lo <= e < end,
    decreases end,
{
    if lo < end {
        lemma_last_sep(p, v, s, lo, end);
        let re = rest_end(p, v, s, lo, end);
        if is_real(s.subrange(comp_start(p, v, s, lo, end), end), v) {
            lemma_trim_end_bounds(p, v, s, lo, re);
        } else {
            lemma_parent_end_bounds(p, v, s, lo, re);
        }
    }
}

/// The text before the first body component fits in the path and holds
/// the prefix.
pub proof fn lemma_lead_bounds(p: Platform, s: Seq<char>)
    ensures
        0 <= prefix_len(p, s) <= lead_len(p, s) <= s.len(),
{
    lemma_prefix_bounds(p, s);
}

/// The parent of a path is a proper beginning of its text, and keeps the
/// path's prefix (such as a drive `X:`) whole.
pub proof fn lemma_parent_is_proper_prefix(p: Platform, s: Seq<char>)
    ensures
        parent_of(p, s) matches Some(x) ==> x.len() < s.len() && x == s.take(x.len() as int) && (
        has_prefix(p, s) ==> x.len() >= prefix_len(p, s)),
{
    lemma_lead_bounds(p, s);
    let lo = lead_len(p, s);
    lemma_parent_end_bounds(p, verbatim(p, s), s, lo, s.len() as int);
    if let Some(x) = parent_of(p, s) {
        match parent_end(p, verbatim(p, s), s, lo, s.len() as int) {
            Some(e) => {
                assert(x == s.take(e));
                assert(s.take(e).len() == e);
                assert(s.take(e).take(e) =~= s.take(e));
            },
            None => {
                assert(x == s.take(lo - 1));
                assert(s.take(lo - 1).take(lo - 1) =~= s.take(lo - 1));
            },
        }
    }
}

/// The final component of `s` when it is a name, as `Path::file_name`
/// gives it.
pub open spec fn file_name_of(p: Platform, s: Seq<char>) -> Option<Seq<char>> {
    match last_piece(p, verbatim(p, s), s, lead_len(p, s), s.len() as int) {
        Some(c) => if c == dot_dot() || c == dot() {
            None
        } else {
            Some(c)
        },
        None => None,
    }
}

/// The largest index of a `.` in `x`, or -1.
pub open spec fn last_dot(x: Seq<char>) -> int
    decreases x.len(),
{
    if x.len() == 0 {
        -1
    } else if x.last() == '.' {
        x.len() - 1
    } else {
        last_dot(x.drop_last())
    }
}

/// The extension of a file name: the text after its last `.`, unless there
/// is no `.` or the only one starts the name.
pub open spec fn name_extension(x: Seq<char>) -> Option<Seq<char>> {
    if last_dot(x) <= 0 {
        None
    } else {
        Some(x.skip(last_dot(x) + 1))
    }
}

/// The extension of the path `s`, as `Path::extension` gives it.
pub open spec fn extension_of(p: Platform, s: Seq<char>) -> Option<Seq<char>> {
    match file_name_of(p, s) {
        Some(x) => name_extension(x),
        None => None,
    }
}

pub open spec fn opt_view(o: Option<String>) -> Option<Seq<char>> {
    match o {
        Some(x) => Some(x@),
        None => None,
    }
}

fn last_separator(s: &str, p: Platform, v: bool, lo: usize, end: usize) -> (r: Option<usize>)
    requires
        lo <= end <= s@.len(),
    ensures
        match r {
            Some(k) => k == last_sep(p, v, s@, lo as int, end as int) && k >= 0,
            None => last_sep(p, v, s@, lo as int, end as int) == -1,
        },
{
    let mut k: usize = end;
    while k > lo
        invariant
            lo <= k <= end <= s@.len(),
            last_sep(p, v, s@, lo as int, end as int) == last_sep(p, v, s@, lo as int, k as int),
        decreases k,
    {
        if body_separator(p, v, s.get_char(k - 1)) {
            return Some(k - 1);
        }
        k = k - 1;
    }
    None
}

/// Where the last component of `s[..end]` starts and where the text
/// before it ends.
fn back_step(s: &str, p: Platform, v: bool, lo: usize, end: usize) -> (r: (usize, usize))
    requires
        lo < end <= s@.len(),
    ensures
        r.0 == comp_start(p, v, s@, lo as int, end as int),
        r.1 == rest_end(p, v, s@, lo as int, end as int),
        lo <= r.1 < r.0 <= end || (r.1 == lo && r.0 == lo),
{
    proof {
        lemma_last_sep(p, v, s@, lo as int, end as int);
    }
    match last_separator(s, p, v, lo, end) {
        Some(k) => (k + 1, k),
        None => (lo, lo),
    }
}

/// Whether `s[lo..hi]` is a component: not empty, and not `.` unless the
/// path is verbatim.
fn real_piece(s: &str, lo: usize, hi: usize, v: bool) -> (r: bool)
    requires
        lo <= hi <= s@.len(),
    ensures
        r == is_real(s@.subrange(lo as int, hi as int), v),
{
    let ghost x = s@.subrange(lo as int, hi as int);
    if hi == lo {
        return false;
    }
    if !v && hi - lo == 1 && s.get_char(lo) == '.' {
        proof {
            assert(x =~= dot());
        }
        return false;
    }
    proof {
        assert(x.len() == hi - lo);
        assert(x[0] == s@[lo as int]);
        if x == dot() {
            assert(x[0] == '.');
        }
    }
    true
}

fn trim_back(s: &str, p: Platform, v: bool, lo: usize, end: usize) -> (r: usize)
    requires
        lo <= end <= s@.len(),
    ensures
        r == trim_end(p, v, s@, lo as int, end as int),
        r <= end,
{
    let mut e: usize = end;
    while e > lo
        invariant
            lo <= e <= end <= s@.len(),
            trim_end(p, v, s@, lo as int, end as int) == trim_end(p, v, s@, lo as int, e as int),
        decreases e,
    {
        let (cs, re) = back_step(s, p, v, lo, e);
        if real_piece(s, cs, e, v) {
            return e;
        }
        e = re;
    }
    e
}

/// The parent of the path `s`, as `Path::parent` gives it.
pub fn parent(s: &str, p: Platform) -> (r: Option<String>)
    ensures
        opt_view(r) == parent_of(p, s@),
{
    let l = layout(s, p);
    let v = l.verbatim;
    let lo = lead_length(s, p);
    let n = s.unicode_len();
    let mut e: usize = n;
    while e > lo
        invariant
            lo <= e <= n,
            n == s@.len(),
            lo == lead_len(p, s@),
            v == verbatim(p, s@),
            parent_end(p, v, s@, lo as int, n as int) == parent_end(p, v, s@, lo as int, e as int),
        decreases e,
    {
        let (cs, re) = back_step(s, p, v, lo, e);
        if real_piece(s, cs, e, v) {
            let t = trim_back(s, p, v, lo, re);
            return Some(crate::text::substring(s, 0, t));
        }
        e = re;
    }
    if l.cur && l.prefix.is_none() {
        Some(crate::text::substring(s, 0, lo - 1))
    } else {
        None
    }
}

/// The final component of `s` when it is a name, as `Path::file_name`
/// gives it.
pub fn file_name(s: &str, p: Platform) -> (r: Option<String>)
    ensures
        opt_view(r) == file_name_of(p, s@),
{
    let v = layout(s, p).verbatim;
    let lo = lead_length(s, p);
    let n = s.unicode_len();
    let mut e: usize = n;
    while e > lo
        invariant
            lo <= e <= n,
            n == s@.len(),
            lo == lead_len(p, s@),
            v == verbatim(p, s@),
            last_piece(p, v, s@, lo as int, n as int) == last_piece(p, v, s@, lo as int, e as int),
        decreases e,
    {
        let (cs, re) = back_step(s, p, v, lo, e);
        if real_piece(s, cs, e, v) {
            let name = crate::text::substring(s, cs, e);
            if e - cs == 2 && s.get_char(cs) == '.' && s.get_char(cs + 1) == '.' {
                proof {
                    assert(name@ =~= dot_dot());
                }
                return None;
            }
            if e - cs == 1 && s.get_char(cs) == '.' {
                proof {
                    assert(name@ =~= dot());
                }
                return None;
            }
            proof {
                assert(name@[0] == s@[cs as int]);
                if name@.len() == 2 {
                    assert(name@[1] == s@[cs + 1]);
                }
                if name@ == dot_dot() {
                    assert(name@[0] == '.' && name@[1] == '.');
                }
                if name@ == dot() {
                    assert(name@[0] == '.');
                }
            }
            return Some(name);
        }
        e = re;
    }
    None
}

/// The extension of a file name, as `Path::extension` takes it from the
/// file name.
pub fn extension_of_name(x: &str) -> (r: Option<String>)
    ensures
        opt_view(r) == name_extension(x@),
{
    let n = x.unicode_len();
    let mut k: usize = n;
    proof {
        assert(x@.take(n as int) =~= x@);
    }
    while k > 0
        invariant
            k <= n == x@.len(),
            last_dot(x@) == last_dot(x@.take(k as int)),
        decreases k,
    {
        proof {
            assert(x@.take(k as int).drop_last() =~= x@.take(k - 1));
        }
        if x.get_char(k - 1) == '.' {
            if k == 1 {
                return None;
            }
            return Some(crate::text::substring(x, k, n));
        }
        k = k - 1;
    }
    None
}

/// The extension of the path `s`, as `Path::extension` gives it.
pub fn extension(s: &str, p: Platform) -> (r: Option<String>)
    ensures
        opt_view(r) == extension_of(p, s@),
{
    match file_name(s, p) {
        Some(name) => extension_of_name(name.as_str()),
        None => None,
    }
}

} // verus!
