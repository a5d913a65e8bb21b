//! Splitting and joining of text: PATH values, line-oriented list files.

use vstd::prelude::*;
use vstd::string::*;

verus! {

/// The pieces of `s` between occurrences of `sep`, empty pieces included.
/// A string without `sep` is one piece; the empty string is one empty piece.
pub open spec fn split(s: Seq<char>, sep: char) -> Seq<Seq<char>>
    decreases s.len(),
{
    if s.len() == 0 {
        seq![Seq::<char>::empty()]
    } else {
        let pieces = split(s.drop_last(), sep);
        if s.last() == sep {
            pieces.push(Seq::<char>::empty())
        } else {
            pieces.update(pieces.len() - 1, pieces.last().push(s.last()))
        }
    }
}

/// The non-empty members of `xs`, in order.
pub open spec fn nonempty_only(xs: Seq<Seq<char>>) -> Seq<Seq<char>>
    decreases xs.len(),
{
    if xs.len() == 0 {
        Seq::<Seq<char>>::empty()
    } else if xs.last().len() > 0 {
        nonempty_only(xs.drop_last()).push(xs.last())
    } else {
        nonempty_only(xs.drop_last())
    }
}

/// The non-empty pieces of `s` between occurrences of `sep`.
pub open spec fn fields(s: Seq<char>, sep: char) -> Seq<Seq<char>> {
    nonempty_only(split(s, sep))
}

/// The character sequences of a sequence of strings.
pub open spec fn views(v: Seq<String>) -> Seq<Seq<char>> {
    v.map_values(|x: String| x@)
}

/// `xs` joined with `sep` between neighbours.
pub open spec fn join(xs: Seq<Seq<char>>, sep: Seq<char>) -> Seq<char>
    decreases xs.len(),
{
    if xs.len() == 0 {
        Seq::<char>::empty()
    } else if xs.len() == 1 {
        xs[0]
    } else {
        join(xs.drop_last(), sep) + sep + xs.last()
    }
}

/// Splitting gives at least one piece.
pub proof fn lemma_split_nonempty(s: Seq<char>, sep: char)
    ensures
        split(s, sep).len() >= 1,
    decreases s.len(),
{
    if s.len() > 0 {
        lemma_split_nonempty(s.drop_last(), sep);
    }
}

/// The characters of `s` from `lo` up to `hi`, as an owned string.
pub fn substring(s: &str, lo: usize, hi: usize) -> (r: String)
    requires
        lo <= hi <= s@.len(),
    ensures
        r@ == s@.subrange(lo as int, hi as int),
{
    let t = s.substring_char(lo, hi);
    String::from_str(t)
}

/// The non-empty pieces of `s` between occurrences of `sep`, as `str::split`
/// followed by a filter on emptiness gives them.
pub fn split_nonempty(s: &str, sep: char) -> (r: Vec<String>)
    ensures
        views(r@) == fields(s@, sep),
{
    let n = s.unicode_len();
    let mut out: Vec<String> = Vec::new();
    let mut start: usize = 0;
    let mut i: usize = 0;
    proof {
        assert(s@.subrange(0, 0) =~= Seq::<char>::empty());
    }
    while i < n
        invariant
            n == s@.len(),
            start <= i <= n,
            split(s@.subrange(0, i as int), sep).len() >= 1,
            views(out@) == nonempty_only(split(s@.subrange(0, i as int), sep).drop_last()),
            s@.subrange(start as int, i as int) == split(s@.subrange(0, i as int), sep).last(),
        decreases n - i,
    {
        let c = s.get_char(i);
        let ghost pre = s@.subrange(0, i as int);
        let ghost post = s@.subrange(0, i + 1);
        proof {
            assert(post.drop_last() =~= pre);
            assert(post.last() == c);
            lemma_split_nonempty(pre, sep);
            let sp = split(pre, sep);
            if c == sep {
                assert(split(post, sep) == sp.push(Seq::<char>::empty()));
                assert(split(post, sep).drop_last() =~= sp);
                assert(sp.last().len() == i - start);
            } else {
                assert(split(post, sep).drop_last() =~= sp.drop_last());
                assert(s@.subrange(start as int, i + 1) =~= sp.last().push(c));
            }
        }
        if c == sep {
            if start < i {
                let ghost before = out@;
                let piece = substring(s, start, i);
                out.push(piece);
                proof {
                    assert(views(out@) =~= views(before).push(piece@));
                }
            }
            start = i + 1;
        }
        i = i + 1;
    }
    if start < n {
        let ghost before = out@;
        let piece = substring(s, start, n);
        out.push(piece);
        proof {
            assert(views(out@) =~= views(before).push(piece@));
        }
    }
    proof {
        assert(s@.subrange(0, n as int) =~= s@);
    }
    out
}


/// `x` without one trailing carriage return.
pub open spec fn strip_cr(x: Seq<char>) -> Seq<char> {
    if x.len() > 0 && x.last() == '\r' {
        x.drop_last()
    } else {
        x
    }
}

/// Each of `xs` without one trailing carriage return.
pub open spec fn strip_all(xs: Seq<Seq<char>>) -> Seq<Seq<char>> {
    xs.map_values(|x: Seq<char>| strip_cr(x))
}

/// The lines of `s` as `str::lines` gives them, empty ones included: the
/// pieces between newlines, each that a newline ends without one trailing
/// carriage return; nothing after a final newline.
pub open spec fn line_pieces(s: Seq<char>) -> Seq<Seq<char>> {
    let ps = split(s, '\n');
    strip_all(ps.drop_last()).push(ps.last())
}

/// The non-empty lines of `s`.
pub open spec fn text_lines(s: Seq<char>) -> Seq<Seq<char>> {
    nonempty_only(line_pieces(s))
}

/// Each of `xs` followed by a newline: a list written one entry per line.
pub open spec fn terminated(xs: Seq<Seq<char>>) -> Seq<char>
    decreases xs.len(),
{
    if xs.len() == 0 {
        Seq::<char>::empty()
    } else {
        terminated(xs.drop_last()) + xs.last() + seq!['\n']
    }
}

/// No member of `xs` is empty or holds `c`.
pub open spec fn clean_entries(xs: Seq<Seq<char>>, c: char) -> bool {
    forall|i: int| 0 <= i < xs.len() ==> #[trigger] xs[i].len() > 0 && !xs[i].contains(c)
}

/// Text without the separator splits into itself alone.
pub proof fn lemma_split_no_sep(x: Seq<char>, sep: char)
    requires
        !x.contains(sep),
    ensures
        split(x, sep) == seq![x],
    decreases x.len(),
{
    if x.len() > 0 {
        assert(!x.drop_last().contains(sep)) by {
            if x.drop_last().contains(sep) {
                let k = choose|k: int| 0 <= k < x.drop_last().len() && x.drop_last()[k] == sep;
                assert(x[k] == sep);
            }
        }
        lemma_split_no_sep(x.drop_last(), sep);
        assert(x.last() != sep) by {
            assert(x[x.len() - 1] == x.last());
        }
        assert(x.drop_last().push(x.last()) =~= x);
        assert(split(x, sep) =~= seq![x]);
    } else {
        assert(x =~= Seq::<char>::empty());
    }
}

/// Splitting at a separator splits the two sides apart.
pub proof fn lemma_split_concat(a: Seq<char>, b: Seq<char>, sep: char)
    ensures
        split(a + seq![sep] + b, sep) == split(a, sep) + split(b, sep),
    decreases b.len(),
{
    let whole = a + seq![sep] + b;
    if b.len() == 0 {
        assert(whole.drop_last() =~= a);
        assert(split(b, sep) =~= seq![Seq::<char>::empty()]);
        assert(split(whole, sep) =~= split(a, sep) + split(b, sep));
    } else {
        let b1 = b.drop_last();
        lemma_split_concat(a, b1, sep);
        assert(whole.drop_last() =~= a + seq![sep] + b1);
        assert(whole.last() == b.last());
        lemma_split_nonempty(b1, sep);
        lemma_split_nonempty(a, sep);
        assert(split(whole, sep) =~= split(a, sep) + split(b, sep));
    }
}

/// Dropping empty entries goes piecewise over a concatenation.
pub proof fn lemma_nonempty_only_concat(xs: Seq<Seq<char>>, ys: Seq<Seq<char>>)
    ensures
        nonempty_only(xs + ys) == nonempty_only(xs) + nonempty_only(ys),
    decreases ys.len(),
{
    if ys.len() == 0 {
        assert(xs + ys =~= xs);
        assert(nonempty_only(xs) + nonempty_only(ys) =~= nonempty_only(xs));
    } else {
        lemma_nonempty_only_concat(xs, ys.drop_last());
        assert((xs + ys).drop_last() =~= xs + ys.drop_last());
        assert((xs + ys).last() == ys.last());
        if ys.last().len() > 0 {
            assert(nonempty_only(xs + ys) =~= nonempty_only(xs) + nonempty_only(ys));
        } else {
            assert(nonempty_only(xs + ys) =~= nonempty_only(xs) + nonempty_only(ys));
        }
    }
}

/// A lone empty entry is dropped.
pub proof fn lemma_nonempty_only_blank()
    ensures
        nonempty_only(seq![Seq::<char>::empty()]) == Seq::<Seq<char>>::empty(),
{
    let xs = seq![Seq::<char>::empty()];
    assert(xs.len() == 1);
    assert(xs.last() == Seq::<char>::empty());
    assert(xs.drop_last() =~= Seq::<Seq<char>>::empty());
    assert(nonempty_only(xs.drop_last()) == Seq::<Seq<char>>::empty());
}

/// A list without empty entries is kept as it is.
pub proof fn lemma_nonempty_only_id(xs: Seq<Seq<char>>)
    requires
        forall|i: int| 0 <= i < xs.len() ==> #[trigger] xs[i].len() > 0,
    ensures
        nonempty_only(xs) == xs,
    decreases xs.len(),
{
    if xs.len() > 0 {
        lemma_nonempty_only_id(xs.drop_last());
        assert(xs[xs.len() - 1].len() > 0);
        assert(xs.drop_last().push(xs.last()) =~= xs);
    }
}

/// Joining with a separator that no entry holds, then splitting there,
/// gives the entries back.
pub proof fn lemma_split_join(xs: Seq<Seq<char>>, sep: char)
    requires
        xs.len() > 0,
        forall|i: int| 0 <= i < xs.len() ==> !(#[trigger] xs[i]).contains(sep),
    ensures
        split(join(xs, seq![sep]), sep) == xs,
    decreases xs.len(),
{
    assert(!xs[xs.len() - 1].contains(sep));
    if xs.len() == 1 {
        lemma_split_no_sep(xs[0], sep);
        assert(seq![xs[0]] =~= xs);
    } else {
        let xs1 = xs.drop_last();
        assert forall|i: int| 0 <= i < xs1.len() implies !(#[trigger] xs1[i]).contains(sep) by {
            assert(xs1[i] == xs[i]);
        }
        lemma_split_join(xs1, sep);
        lemma_split_concat(join(xs1, seq![sep]), xs.last(), sep);
        lemma_split_no_sep(xs.last(), sep);
        assert(xs1.push(xs.last()) =~= xs);
    }
}

/// The entries of a PATH-style list survive being joined and split again.
pub proof fn lemma_fields_join(xs: Seq<Seq<char>>, sep: char)
    requires
        clean_entries(xs, sep),
    ensures
        fields(join(xs, seq![sep]), sep) == xs,
{
    assert forall|i: int| 0 <= i < xs.len() implies #[trigger] xs[i].len() > 0 by {
        assert(xs[i].len() > 0 && !xs[i].contains(sep));
    }
    if xs.len() == 0 {
        assert(split(Seq::<char>::empty(), sep) =~= seq![Seq::<char>::empty()]);
        lemma_nonempty_only_blank();
    } else {
        assert forall|i: int| 0 <= i < xs.len() implies !(#[trigger] xs[i]).contains(sep) by {
            assert(xs[i].len() > 0 && !xs[i].contains(sep));
        }
        lemma_split_join(xs, sep);
        lemma_nonempty_only_id(xs);
    }
}

/// Lines each ending in a newline split back into the lines and one
/// empty piece after the last newline.
pub proof fn lemma_split_terminated(xs: Seq<Seq<char>>)
    requires
        forall|i: int| 0 <= i < xs.len() ==> !(#[trigger] xs[i]).contains('\n'),
    ensures
        split(terminated(xs), '\n') == xs.push(Seq::<char>::empty()),
    decreases xs.len(),
{
    if xs.len() == 0 {
        assert(split(Seq::<char>::empty(), '\n') =~= seq![Seq::<char>::empty()]);
    } else {
        let xs1 = xs.drop_last();
        let x = xs.last();
        assert(!xs[xs.len() - 1].contains('\n'));
        assert forall|i: int| 0 <= i < xs1.len() implies !(#[trigger] xs1[i]).contains('\n') by {
            assert(xs1[i] == xs[i]);
        }
        lemma_split_terminated(xs1);
        let t1 = terminated(xs1);
        lemma_split_no_sep(x, '\n');
        assert(split(Seq::<char>::empty(), '\n') =~= seq![Seq::<char>::empty()]);
        lemma_split_concat(t1 + x, Seq::<char>::empty(), '\n');
        assert(terminated(xs) =~= (t1 + x) + seq!['\n'] + Seq::<char>::empty());
        if xs1.len() == 0 {
            assert(t1 + x =~= x);
        } else {
            let t0 = terminated(xs1.drop_last()) + xs1.last();
            assert(t1 =~= t0 + seq!['\n'] + Seq::<char>::empty());
            lemma_split_concat(t0, Seq::<char>::empty(), '\n');
            let e = Seq::<char>::empty();
            assert((split(t0, '\n') + seq![e]).drop_last() =~= split(t0, '\n'));
            assert((xs1.push(e)).drop_last() =~= xs1);
            assert(split(t0, '\n') =~= xs1);
            assert(t1 + x =~= t0 + seq!['\n'] + x);
            lemma_split_concat(t0, x, '\n');
        }
        assert(split(terminated(xs), '\n') =~= xs.push(Seq::<char>::empty()));
    }
}

/// A list written one entry per line reads back as the same list, when no
/// entry is empty, holds a newline or ends in a carriage return.
pub proof fn lemma_lines_terminated(xs: Seq<Seq<char>>)
    requires
        clean_entries(xs, '\n'),
        forall|i: int| 0 <= i < xs.len() ==> (#[trigger] xs[i]).last() != '\r',
    ensures
        text_lines(terminated(xs)) == xs,
{
    assert forall|i: int| 0 <= i < xs.len() implies !(#[trigger] xs[i]).contains('\n') by {
        assert(xs[i].len() > 0 && !xs[i].contains('\n'));
    }
    lemma_split_terminated(xs);
    let ps = split(terminated(xs), '\n');
    assert(ps.drop_last() =~= xs);
    assert(strip_all(xs) =~= xs) by {
        assert forall|i: int| 0 <= i < xs.len() implies strip_cr(xs[i]) == xs[i] by {
            assert(xs[i].len() > 0 && xs[i].last() != '\r');
        }
    }
    assert(line_pieces(terminated(xs)) =~= xs + seq![Seq::<char>::empty()]);
    lemma_nonempty_only_concat(xs, seq![Seq::<char>::empty()]);
    lemma_nonempty_only_blank();
    assert forall|i: int| 0 <= i < xs.len() implies #[trigger] xs[i].len() > 0 by {
        assert(xs[i].len() > 0 && !xs[i].contains('\n'));
    }
    lemma_nonempty_only_id(xs);
}

/// `items` joined with `sep` between neighbours, as `[String]::join` does.
pub fn join_with(items: &Vec<String>, sep: &str) -> (r: String)
    ensures
        r@ == join(views(items@), sep@),
{
    let mut out = String::new();
    let mut i: usize = 0;
    while i < items.len()
        invariant
            i <= items@.len(),
            out@ == join(views(items@.take(i as int)), sep@),
        decreases items@.len() - i,
    {
        proof {
            assert(views(items@.take(i + 1)).drop_last() =~= views(items@.take(i as int)));
            assert(views(items@.take(i + 1)).last() == items@[i as int]@);
        }
        if i > 0 {
            out.append(sep);
        }
        out.append(items[i].as_str());
        i = i + 1;
    }
    proof {
        assert(items@.take(i as int) =~= items@);
    }
    out
}

/// Each of `items` followed by a newline, as writing them with `writeln!`
/// one after another does.
pub fn terminated_lines(items: &Vec<String>) -> (r: String)
    ensures
        r@ == terminated(views(items@)),
{
    let mut out = String::new();
    let mut i: usize = 0;
    while i < items.len()
        invariant
            i <= items@.len(),
            out@ == terminated(views(items@.take(i as int))),
        decreases items@.len() - i,
    {
        proof {
            assert(views(items@.take(i + 1)).drop_last() =~= views(items@.take(i as int)));
            assert(views(items@.take(i + 1)).last() == items@[i as int]@);
        }
        out.append(items[i].as_str());
        out.append("\n");
        proof {
            reveal_strlit("\n");
        }
        i = i + 1;
    }
    proof {
        assert(items@.take(i as int) =~= items@);
    }
    out
}

/// The non-empty lines of `s`, as `str::lines` followed by a filter on
/// emptiness gives them.
pub fn nonempty_lines(s: &str) -> (r: Vec<String>)
    ensures
        views(r@) == text_lines(s@),
{
    let n = s.unicode_len();
    let mut out: Vec<String> = Vec::new();
    let mut start: usize = 0;
    let mut i: usize = 0;
    proof {
        assert(s@.subrange(0, 0) =~= Seq::<char>::empty());
    }
    while i < n
        invariant
            n == s@.len(),
            start <= i <= n,
            split(s@.subrange(0, i as int), '\n').len() >= 1,
            views(out@) == nonempty_only(strip_all(split(s@.subrange(0, i as int), '\n').drop_last())),
            s@.subrange(start as int, i as int) == split(s@.subrange(0, i as int), '\n').last(),
        decreases n - i,
    {
        let c = s.get_char(i);
        let ghost pre = s@.subrange(0, i as int);
        let ghost post = s@.subrange(0, i + 1);
        let ghost sp = split(pre, '\n');
        proof {
            assert(post.drop_last() =~= pre);
            assert(post.last() == c);
            lemma_split_nonempty(pre, '\n');
            if c == '\n' {
                assert(split(post, '\n') == sp.push(Seq::<char>::empty()));
                assert(split(post, '\n').drop_last() =~= sp);
                assert(sp =~= sp.drop_last().push(sp.last()));
                assert(strip_all(sp) =~= strip_all(sp.drop_last()).push(strip_cr(sp.last())));
                let target = strip_all(sp.drop_last()).push(strip_cr(sp.last()));
                assert(target.drop_last() =~= strip_all(sp.drop_last()));
                assert(target.last() == strip_cr(sp.last()));
            } else {
                assert(split(post, '\n').drop_last() =~= sp.drop_last());
                assert(s@.subrange(start as int, i + 1) =~= sp.last().push(c));
            }
        }
        if c == '\n' {
            let mut end = i;
            if end > start && s.get_char(end - 1) == '\r' {
                end = end - 1;
            }
            proof {
                let piece = s@.subrange(start as int, i as int);
                if piece.len() > 0 {
                    assert(piece.last() == s@[i - 1]);
                }
                assert(s@.subrange(start as int, end as int) =~= strip_cr(piece));
            }
            if start < end {
                let ghost before = out@;
                let piece = crate::text::substring(s, start, end);
                out.push(piece);
                proof {
                    assert(views(out@) =~= views(before).push(piece@));
                }
            }
            start = i + 1;
        }
        i = i + 1;
    }
    proof {
        assert(s@.subrange(0, n as int) =~= s@);
        let sp = split(s@, '\n');
        lemma_split_nonempty(s@, '\n');
        assert(line_pieces(s@).drop_last() =~= strip_all(sp.drop_last()));
        assert(line_pieces(s@).last() == sp.last());
    }
    if start < n {
        let ghost before = out@;
        let piece = substring(s, start, n);
        out.push(piece);
        proof {
            assert(views(out@) =~= views(before).push(piece@));
        }
    }
    out
}


/// No piece of a split holds the separator.
pub proof fn lemma_split_clean(s: Seq<char>, sep: char)
    ensures
        forall|i: int| 0 <= i < split(s, sep).len() ==> !(#[trigger] split(s, sep)[i]).contains(sep),
    decreases s.len(),
{
    if s.len() > 0 {
        lemma_split_clean(s.drop_last(), sep);
        lemma_split_nonempty(s.drop_last(), sep);
        let ps = split(s.drop_last(), sep);
        let qs = split(s, sep);
        assert forall|i: int| 0 <= i < qs.len() implies !(#[trigger] qs[i]).contains(sep) by {
            if s.last() == sep {
                if i < ps.len() {
                    assert(qs[i] == ps[i]);
                } else {
                    assert(qs[i] =~= Seq::<char>::empty());
                }
            } else {
                if i < ps.len() - 1 {
                    assert(qs[i] == ps[i]);
                } else {
                    let y = ps.last().push(s.last());
                    assert(qs[i] == y);
                    assert(!ps[ps.len() - 1].contains(sep));
                    if y.contains(sep) {
                        let k = choose|k: int| 0 <= k < y.len() && y[k] == sep;
                        if k < y.len() - 1 {
                            assert(ps.last()[k] == sep);
                        }
                    }
                }
            }
        }
    }
}

/// What is kept is non-empty and was in the list.
pub proof fn lemma_nonempty_only_members(xs: Seq<Seq<char>>)
    ensures
        forall|i: int| 0 <= i < nonempty_only(xs).len() ==> (#[trigger] nonempty_only(xs)[i]).len() > 0
            && xs.contains(nonempty_only(xs)[i]),
    decreases xs.len(),
{
    if xs.len() > 0 {
        lemma_nonempty_only_members(xs.drop_last());
        let ys = nonempty_only(xs.drop_last());
        let zs = nonempty_only(xs);
        assert forall|i: int| 0 <= i < zs.len() implies (#[trigger] zs[i]).len() > 0 && xs.contains(zs[i]) by {
            if i < ys.len() {
                assert(zs[i] == ys[i]);
                assert(xs.drop_last().contains(ys[i]));
                let k = choose|k: int| 0 <= k < xs.drop_last().len() && xs.drop_last()[k] == ys[i];
                assert(xs[k] == ys[i]);
            } else {
                assert(zs[i] == xs.last());
                assert(xs[xs.len() - 1] == xs.last());
            }
        }
    }
}

/// Every field is non-empty and free of the separator.
pub proof fn lemma_fields_clean(s: Seq<char>, sep: char)
    ensures
        clean_entries(fields(s, sep), sep),
{
    lemma_split_clean(s, sep);
    lemma_nonempty_only_members(split(s, sep));
    let f = fields(s, sep);
    let ps = split(s, sep);
    assert forall|i: int| 0 <= i < f.len() implies #[trigger] f[i].len() > 0 && !f[i].contains(sep) by {
        assert(f[i].len() > 0 && ps.contains(f[i]));
        let k = choose|k: int| 0 <= k < ps.len() && ps[k] == f[i];
        assert(!ps[k].contains(sep));
    }
}


/// The decimal digits.
pub open spec fn digit_chars() -> Seq<char> {
    seq!['0', '1', '2', '3', '4', '5', '6', '7', '8', '9']
}

/// The decimal notation of `n`, as `Display` for integers writes it.
pub open spec fn decimal(n: nat) -> Seq<char>
    decreases n,
{
    if n < 10 {
        seq![digit_chars()[n as int]]
    } else {
        decimal(n / 10).push(digit_chars()[(n % 10) as int])
    }
}

fn digit_text(d: u64) -> (r: &'static str)
    requires
        d < 10,
    ensures
        r@ == seq![digit_chars()[d as int]],
{
    proof {
        reveal_strlit("0");
        reveal_strlit("1");
        reveal_strlit("2");
        reveal_strlit("3");
        reveal_strlit("4");
        reveal_strlit("5");
        reveal_strlit("6");
        reveal_strlit("7");
        reveal_strlit("8");
        reveal_strlit("9");
    }
    let r = if d == 0 {
        "0"
    } else if d == 1 {
        "1"
    } else if d == 2 {
        "2"
    } else if d == 3 {
        "3"
    } else if d == 4 {
        "4"
    } else if d == 5 {
        "5"
    } else if d == 6 {
        "6"
    } else if d == 7 {
        "7"
    } else if d == 8 {
        "8"
    } else {
        "9"
    };
    proof {
        assert(r@ =~= seq![digit_chars()[d as int]]);
    }
    r
}

/// The decimal notation of `n`.
pub fn decimal_string(n: u64) -> (r: String)
    ensures
        r@ == decimal(n as nat),
    decreases n,
{
    if n < 10 {
        String::from_str(digit_text(n))
    } else {
        let mut s = decimal_string(n / 10);
        let ghost before = s@;
        s.append(digit_text(n % 10));
        proof {
            assert(s@ =~= before.push(digit_chars()[(n % 10) as int]));
        }
        s
    }
}

/// Whether `v` holds a string equal to `x`.
pub fn holds_text(v: &Vec<String>, x: &str) -> (r: bool)
    ensures
        r == views(v@).contains(x@),
{
    let target = String::from_str(x);
    let mut i: usize = 0;
    while i < v.len()
        invariant
            i <= v@.len(),
            target@ == x@,
            forall|k: int| 0 <= k < i ==> v@[k]@ != x@,
        decreases v@.len() - i,
    {
        if v[i] == target {
            proof {
                assert(views(v@)[i as int] == x@);
            }
            return true;
        }
        i = i + 1;
    }
    proof {
        if views(v@).contains(x@) {
            let k = choose|k: int| 0 <= k < views(v@).len() && views(v@)[k] == x@;
            assert(v@[k]@ == x@);
        }
    }
    false
}

/// An owned copy of `s`.
pub fn owned(s: &str) -> (r: String)
    ensures
        r@ == s@,
{
    String::from_str(s)
}

} // verus!
