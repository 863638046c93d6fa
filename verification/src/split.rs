//! Splitting text into lines and words, and joining pieces back together.
use crate::text::{is_whitespace_char, is_ws, push_char};
use vstd::prelude::*;

verus! {

/// What separates the pieces of a text.
#[derive(Clone, Copy)]
pub enum Separator {
    /// Any whitespace character (splitting into words).
    Whitespace,
    /// One given character (a line feed for lines, `:` for search paths).
    Char(char),
}

/// Whether `c` separates pieces.
pub open spec fn is_separator(c: char, sep: Separator) -> bool {
    match sep {
        Separator::Whitespace => is_ws(c),
        Separator::Char(d) => c == d,
    }
}

/// The pieces of `s` between separators, in order; there is always one more
/// piece than separators, so empty pieces are kept.
pub open spec fn split_by(s: Seq<char>, sep: Separator) -> Seq<Seq<char>>
    decreases s.len(),
{
    if s.len() == 0 {
        seq![Seq::<char>::empty()]
    } else {
        let init = split_by(s.drop_last(), sep);
        if is_separator(s.last(), sep) {
            init.push(Seq::<char>::empty())
        } else {
            init.update(init.len() - 1, init.last().push(s.last()))
        }
    }
}

/// The lines of `s`: the pieces between line feeds. A carriage return that
/// ends a line stays in it, and a final line feed leaves a last empty line;
/// both are whitespace, which every user of the lines trims away, so for those
/// users this agrees with `str::lines`.
pub open spec fn lines_spec(s: Seq<char>) -> Seq<Seq<char>> {
    split_by(s, Separator::Char('\n'))
}

/// The non-empty pieces of `ps`, in order.
pub open spec fn nonempty_pieces(ps: Seq<Seq<char>>) -> Seq<Seq<char>>
    decreases ps.len(),
{
    if ps.len() == 0 {
        Seq::empty()
    } else if ps.last().len() > 0 {
        nonempty_pieces(ps.drop_last()).push(ps.last())
    } else {
        nonempty_pieces(ps.drop_last())
    }
}

/// The words of `s`: its maximal runs of non-whitespace characters
/// (`str::split_whitespace`).
pub open spec fn words_spec(s: Seq<char>) -> Seq<Seq<char>> {
    nonempty_pieces(split_by(s, Separator::Whitespace))
}

/// The pieces `ps` with `sep` between each two (`[T]::join`).
pub open spec fn join_spec(ps: Seq<Seq<char>>, sep: Seq<char>) -> Seq<char>
    decreases ps.len(),
{
    if ps.len() == 0 {
        Seq::empty()
    } else if ps.len() == 1 {
        ps[0]
    } else {
        join_spec(ps.drop_last(), sep) + sep + ps.last()
    }
}

/// Every non-empty piece is non-empty, and comes from the pieces.
pub proof fn lemma_nonempty_pieces(ps: Seq<Seq<char>>)
    ensures
        forall|i: int|
            0 <= i < nonempty_pieces(ps).len() ==> (#[trigger] nonempty_pieces(ps)[i]).len() > 0,
    decreases ps.len(),
{
    if ps.len() > 0 {
        lemma_nonempty_pieces(ps.drop_last());
        let r = nonempty_pieces(ps.drop_last());
        if ps.last().len() > 0 {
            assert forall|i: int| 0 <= i < nonempty_pieces(ps).len() implies (#[trigger] nonempty_pieces(
                ps,
            )[i]).len() > 0 by {
                if i < r.len() {
                    assert(nonempty_pieces(ps)[i] == r[i]);
                }
            }
        }
    }
}

/// Joining pieces keeps at least the first one.
pub proof fn lemma_join_len(ps: Seq<Seq<char>>, sep: Seq<char>)
    requires
        ps.len() > 0,
    ensures
        join_spec(ps, sep).len() >= ps[0].len(),
    decreases ps.len(),
{
    if ps.len() > 1 {
        lemma_join_len(ps.drop_last(), sep);
    }
}

/// There is always at least one piece.
pub proof fn lemma_split_len(s: Seq<char>, sep: Separator)
    ensures
        split_by(s, sep).len() >= 1,
    decreases s.len(),
{
    if s.len() > 0 {
        lemma_split_len(s.drop_last(), sep);
    }
}

/// No piece holds a separator.
pub proof fn lemma_split_pieces_lack_separator(s: Seq<char>, sep: Separator)
    ensures
        forall|i: int, k: int|
            0 <= i < split_by(s, sep).len() && 0 <= k < split_by(s, sep)[i].len() ==> !is_separator(
                #[trigger] split_by(s, sep)[i][k],
                sep,
            ),
    decreases s.len(),
{
    if s.len() > 0 {
        lemma_split_pieces_lack_separator(s.drop_last(), sep);
        lemma_split_len(s.drop_last(), sep);
        let init = split_by(s.drop_last(), sep);
        if !is_separator(s.last(), sep) {
            let r = split_by(s, sep);
            assert forall|i: int, k: int| 0 <= i < r.len() && 0 <= k < r[i].len() implies !is_separator(
                #[trigger] r[i][k],
                sep,
            ) by {
                if i < init.len() - 1 {
                    assert(r[i] == init[i]);
                } else if k < init.last().len() {
                    assert(r[i][k] == init[init.len() - 1][k]);
                }
            }
        }
    }
}

/// A text without separators is one piece.
pub proof fn lemma_split_single(s: Seq<char>, sep: Separator)
    requires
        forall|k: int| 0 <= k < s.len() ==> !is_separator(#[trigger] s[k], sep),
    ensures
        split_by(s, sep) == seq![s],
    decreases s.len(),
{
    if s.len() > 0 {
        lemma_split_single(s.drop_last(), sep);
        assert(s.drop_last().push(s.last()) =~= s);
    } else {
        assert(s =~= Seq::<char>::empty());
    }
}

/// Splitting `a`, a separator, then `b` gives the pieces of `a`, then those
/// of `b`.
pub proof fn lemma_split_concat(a: Seq<char>, c: char, b: Seq<char>, sep: Separator)
    requires
        is_separator(c, sep),
    ensures
        split_by(a.push(c) + b, sep) == split_by(a, sep) + split_by(b, sep),
    decreases b.len(),
{
    lemma_split_len(a, sep);
    if b.len() == 0 {
        assert(a.push(c) + b =~= a.push(c));
        assert(a.push(c).drop_last() =~= a);
        assert(split_by(a, sep) + split_by(b, sep) =~= split_by(a, sep).push(Seq::<char>::empty()));
    } else {
        let t = a.push(c) + b;
        lemma_split_concat(a, c, b.drop_last(), sep);
        lemma_split_len(b.drop_last(), sep);
        assert(t.drop_last() =~= a.push(c) + b.drop_last());
        assert(t.last() == b.last());
        let x = split_by(a, sep);
        let y = split_by(b.drop_last(), sep);
        if is_separator(b.last(), sep) {
            assert((x + y).push(Seq::<char>::empty()) =~= x + y.push(Seq::<char>::empty()));
        } else {
            assert((x + y).update((x + y).len() - 1, (x + y).last().push(b.last())) =~= x + y.update(
                y.len() - 1,
                y.last().push(b.last()),
            ));
        }
    }
}

/// Joining pieces without separators by one separator, then splitting at it,
/// gives the pieces back.
pub proof fn lemma_split_join(ps: Seq<Seq<char>>, c: char, sep: Separator)
    requires
        ps.len() >= 1,
        is_separator(c, sep),
        forall|i: int, k: int|
            0 <= i < ps.len() && 0 <= k < ps[i].len() ==> !is_separator(#[trigger] ps[i][k], sep),
    ensures
        split_by(join_spec(ps, seq![c]), sep) == ps,
    decreases ps.len(),
{
    if ps.len() == 1 {
        let p = ps[0];
        assert forall|k: int| 0 <= k < p.len() implies !is_separator(#[trigger] p[k], sep) by {
            assert(ps[0][k] == p[k]);
        }
        lemma_split_single(p, sep);
        assert(ps =~= seq![p]);
    } else {
        let init = ps.drop_last();
        assert forall|i: int, k: int| 0 <= i < init.len() && 0 <= k < init[i].len() implies !is_separator(
            #[trigger] init[i][k],
            sep,
        ) by {
            assert(init[i] == ps[i]);
        }
        lemma_split_join(init, c, sep);
        let l = ps.last();
        assert forall|k: int| 0 <= k < l.len() implies !is_separator(#[trigger] l[k], sep) by {
            assert(ps[ps.len() - 1][k] == l[k]);
        }
        lemma_split_single(l, sep);
        let j = join_spec(init, seq![c]);
        assert(j + seq![c] + l =~= j.push(c) + l);
        lemma_split_concat(j, c, l, sep);
        assert(init + seq![l] =~= ps);
    }
}

/// The text that each pair of bounds marks in `v`.
pub open spec fn pieces_of(v: Seq<char>, bounds: Seq<(usize, usize)>) -> Seq<Seq<char>> {
    bounds.map_values(|b: (usize, usize)| v.subrange(b.0 as int, b.1 as int))
}

/// Every pair of bounds lies within `from..to`, in order.
pub open spec fn bounds_within(bounds: Seq<(usize, usize)>, from: int, to: int) -> bool {
    forall|k: int|
        0 <= k < bounds.len() ==> from <= (#[trigger] bounds[k]).0 <= bounds[k].1 <= to
}

/// Whether `c` separates pieces (see `is_separator`).
pub fn is_separator_char(c: char, sep: Separator) -> (b: bool)
    ensures
        b == is_separator(c, sep),
{
    match sep {
        Separator::Whitespace => is_whitespace_char(c),
        Separator::Char(d) => c == d,
    }
}

/// The bounds in `v` of the pieces of `v[from..to]` (see `split_by`).
pub fn split_bounds(v: &Vec<char>, from: usize, to: usize, sep: Separator) -> (r: Vec<(usize, usize)>)
    requires
        from <= to <= v@.len(),
    ensures
        r@.len() >= 1,
        bounds_within(r@, from as int, to as int),
        pieces_of(v@, r@) == split_by(v@.subrange(from as int, to as int), sep),
{
    let mut r: Vec<(usize, usize)> = Vec::new();
    let mut start = from;
    let mut i = from;
    assert(v@.subrange(from as int, from as int) =~= Seq::<char>::empty());
    assert(pieces_of(v@, r@).push(v@.subrange(start as int, i as int)) =~= seq![
        Seq::<char>::empty(),
    ]);
    while i < to
        invariant
            from <= start <= i <= to,
            to <= v@.len(),
            bounds_within(r@, from as int, start as int),
            split_by(v@.subrange(from as int, i as int), sep) == pieces_of(v@, r@).push(
                v@.subrange(start as int, i as int),
            ),
        decreases to - i,
    {
        let ghost before = v@.subrange(from as int, i as int);
        let ghost after = v@.subrange(from as int, i + 1);
        assert(after.drop_last() =~= before);
        assert(after.last() == v@[i as int]);
        let c = v[i];
        if is_separator_char(c, sep) {
            r.push((start, i));
            start = i + 1;
            assert(pieces_of(v@, r@) =~= pieces_of(v@, r@.drop_last()).push(
                v@.subrange(r@.last().0 as int, i as int),
            ));
            assert(v@.subrange(start as int, i + 1) =~= Seq::<char>::empty());
        } else {
            assert(v@.subrange(start as int, i + 1) =~= v@.subrange(start as int, i as int).push(c));
        }
        i = i + 1;
        assert(split_by(v@.subrange(from as int, i as int), sep) =~= pieces_of(v@, r@).push(
            v@.subrange(start as int, i as int),
        ));
    }
    r.push((start, to));
    assert(pieces_of(v@, r@) =~= pieces_of(v@, r@.drop_last()).push(
        v@.subrange(start as int, to as int),
    ));
    r
}

/// The bounds in `v` of the words of `v[from..to]` (see `words_spec`).
pub fn word_bounds(v: &Vec<char>, from: usize, to: usize) -> (r: Vec<(usize, usize)>)
    requires
        from <= to <= v@.len(),
    ensures
        bounds_within(r@, from as int, to as int),
        pieces_of(v@, r@) == words_spec(v@.subrange(from as int, to as int)),
{
    let all = split_bounds(v, from, to, Separator::Whitespace);
    let ghost ps = pieces_of(v@, all@);
    let mut r: Vec<(usize, usize)> = Vec::new();
    let mut k: usize = 0;
    while k < all.len()
        invariant
            to <= v@.len(),
            k <= all@.len(),
            ps == pieces_of(v@, all@),
            bounds_within(all@, from as int, to as int),
            bounds_within(r@, from as int, to as int),
            pieces_of(v@, r@) == nonempty_pieces(ps.take(k as int)),
        decreases all@.len() - k,
    {
        let b = all[k];
        assert(ps.take(k + 1).drop_last() =~= ps.take(k as int));
        assert(ps.take(k + 1).last() == v@.subrange(b.0 as int, b.1 as int));
        if b.0 < b.1 {
            r.push(b);
            assert(pieces_of(v@, r@) =~= pieces_of(v@, r@.drop_last()).push(
                v@.subrange(b.0 as int, b.1 as int),
            ));
        }
        k = k + 1;
    }
    assert(ps.take(all@.len() as int) =~= ps);
    r
}

/// Appends `v[from..to]` to `s`.
pub fn push_range(s: &mut String, v: &Vec<char>, from: usize, to: usize)
    requires
        from <= to <= v@.len(),
    ensures
        final(s)@ == old(s)@ + v@.subrange(from as int, to as int),
{
    let ghost start = s@;
    let mut i = from;
    while i < to
        invariant
            from <= i <= to,
            to <= v@.len(),
            s@ == start + v@.subrange(from as int, i as int),
        decreases to - i,
    {
        push_char(s, v[i]);
        i = i + 1;
        assert(s@ =~= start + v@.subrange(from as int, i as int));
    }
}

/// The pieces `bounds[..count]` of `v`, with `sep` between each two.
pub fn join_bounds(v: &Vec<char>, bounds: &Vec<(usize, usize)>, count: usize, sep: char) -> (s:
    String)
    requires
        count <= bounds@.len(),
        bounds_within(bounds@, 0, v@.len() as int),
    ensures
        s@ == join_spec(pieces_of(v@, bounds@).take(count as int), seq![sep]),
{
    let ghost ps = pieces_of(v@, bounds@);
    let mut s = String::new();
    let mut m: usize = 0;
    while m < count
        invariant
            count <= bounds@.len(),
            bounds_within(bounds@, 0, v@.len() as int),
            ps == pieces_of(v@, bounds@),
            m <= count,
            s@ == join_spec(ps.take(m as int), seq![sep]),
        decreases count - m,
    {
        let b = bounds[m];
        assert(ps.take(m + 1).drop_last() =~= ps.take(m as int));
        assert(ps.take(m + 1).last() == v@.subrange(b.0 as int, b.1 as int));
        if m > 0 {
            push_char(&mut s, sep);
        }
        push_range(&mut s, v, b.0, b.1);
        m = m + 1;
        proof {
            if m == 1 {
                assert(s@ =~= ps.take(1)[0]);
            } else {
                assert(s@ =~= join_spec(ps.take(m - 1), seq![sep]) + seq![sep] + ps.take(
                    m as int,
                ).last());
            }
        }
    }
    s
}

} // verus!
