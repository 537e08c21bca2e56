//! Byte strings cut into lines.
//!
//! A line ends with a line feed. The bytes behind the last line feed are the
//! unfinished line.

use vstd::prelude::*;
use vstd::slice::slice_subrange;

verus! {

/// The byte that ends a line.
pub const NL: u8 = 10;

/// The position of the first `b`, or the length.
pub open spec fn first_at(s: Seq<u8>, b: u8) -> int
    decreases s.len(),
{
    if s.len() == 0 || s[0] == b {
        0
    } else {
        1 + first_at(s.drop_first(), b)
    }
}

/// How often `b` occurs.
pub open spec fn count_of(s: Seq<u8>, b: u8) -> nat
    decreases s.len(),
{
    if s.len() == 0 {
        0
    } else {
        count_of(s.drop_last(), b) + if s.last() == b {
            1nat
        } else {
            0nat
        }
    }
}

/// The number of line feeds.
pub open spec fn newlines(s: Seq<u8>) -> nat {
    count_of(s, NL)
}

/// The finished lines, each with its line feed.
pub open spec fn finished(s: Seq<u8>) -> Seq<Seq<u8>>
    decreases s.len(),
{
    let k = first_at(s, NL);
    if 0 <= k < s.len() {
        seq![s.take(k + 1)] + finished(s.skip(k + 1))
    } else {
        Seq::empty()
    }
}

/// The bytes behind the last line feed.
pub open spec fn unfinished(s: Seq<u8>) -> Seq<u8>
    decreases s.len(),
{
    let k = first_at(s, NL);
    if 0 <= k < s.len() {
        unfinished(s.skip(k + 1))
    } else {
        s
    }
}

/// The pieces between line feeds, without them. There is always one more
/// piece than there are line feeds.
pub open spec fn pieces(s: Seq<u8>) -> Seq<Seq<u8>>
    decreases s.len(),
{
    let k = first_at(s, NL);
    if 0 <= k < s.len() {
        seq![s.take(k)] + pieces(s.skip(k + 1))
    } else {
        seq![s]
    }
}

/// Texts with a line feed between each two.
pub open spec fn joined(parts: Seq<Seq<u8>>) -> Seq<u8>
    decreases parts.len(),
{
    if parts.len() == 0 {
        Seq::empty()
    } else if parts.len() == 1 {
        parts[0]
    } else {
        parts[0].push(NL) + joined(parts.drop_first())
    }
}

/// All lines of a byte string, the unfinished one at its end included.
pub open spec fn all_lines(s: Seq<u8>) -> Seq<Seq<u8>> {
    if unfinished(s).len() > 0 {
        finished(s).push(unfinished(s))
    } else {
        finished(s)
    }
}

/// What each element of a list of slices holds.
pub open spec fn views(v: Seq<&[u8]>) -> Seq<Seq<u8>> {
    v.map_values(|x: &[u8]| x@)
}

// ---------------------------------------------------------------------
// Facts
// ---------------------------------------------------------------------

/// The first position of a byte lies in the string, nothing before it is that
/// byte, and it is missing exactly when the position is the length.
pub proof fn first_at_is_first(s: Seq<u8>, b: u8)
    ensures
        0 <= first_at(s, b) <= s.len(),
        forall|j: int| 0 <= j < first_at(s, b) ==> s[j] != b,
        first_at(s, b) < s.len() ==> s[first_at(s, b)] == b,
    decreases s.len(),
{
    if s.len() > 0 && s[0] != b {
        first_at_is_first(s.drop_first(), b);
        assert forall|j: int| 0 <= j < first_at(s, b) implies s[j] != b by {
            if j > 0 {
                assert(s[j] == s.drop_first()[j - 1]);
            }
        }
    }
}

/// A position with the byte, and without it before, is the first position.
pub proof fn first_at_unique(s: Seq<u8>, b: u8, k: int)
    requires
        0 <= k <= s.len(),
        forall|j: int| 0 <= j < k ==> s[j] != b,
        k < s.len() ==> s[k] == b,
    ensures
        first_at(s, b) == k,
{
    first_at_is_first(s, b);
    let f = first_at(s, b);
    if f < k {
        assert(s[f] != b);
    } else if k < f {
        assert(s[k] != b);
    }
}

/// Counts add up over a cut.
pub proof fn count_adds(a: Seq<u8>, c: Seq<u8>, b: u8)
    ensures
        count_of(a + c, b) == count_of(a, b) + count_of(c, b),
    decreases c.len(),
{
    if c.len() == 0 {
        assert(a + c =~= a);
    } else {
        count_adds(a, c.drop_last(), b);
        assert((a + c).drop_last() =~= a + c.drop_last());
        assert((a + c).last() == c.last());
    }
}

/// A byte that does not occur is counted zero times.
pub proof fn count_none(s: Seq<u8>, b: u8)
    requires
        forall|j: int| 0 <= j < s.len() ==> s[j] != b,
    ensures
        count_of(s, b) == 0,
    decreases s.len(),
{
    if s.len() > 0 {
        count_none(s.drop_last(), b);
    }
}

/// A count is at most the length.
pub proof fn count_le_len(s: Seq<u8>, b: u8)
    ensures
        count_of(s, b) <= s.len(),
    decreases s.len(),
{
    if s.len() > 0 {
        count_le_len(s.drop_last(), b);
    }
}

/// The finished lines followed by the unfinished one are the whole string, and
/// there are as many finished lines as line feeds.
pub proof fn finished_and_unfinished_are_all(s: Seq<u8>)
    ensures
        finished(s).flatten() + unfinished(s) == s,
        finished(s).len() == newlines(s),
        newlines(unfinished(s)) == 0,
    decreases s.len(),
{
    first_at_is_first(s, NL);
    let k = first_at(s, NL);
    if k < s.len() {
        let rest = s.skip(k + 1);
        finished_and_unfinished_are_all(rest);
        assert(finished(s).drop_first() =~= finished(rest));
        assert(finished(s).first() == s.take(k + 1));
        assert(s =~= s.take(k + 1) + rest);
        count_adds(s.take(k + 1), rest, NL);
        assert(s.take(k + 1).drop_last() =~= s.take(k));
        count_none(s.take(k), NL);
        assert(finished(s).flatten() =~= s.take(k + 1) + finished(rest).flatten());
    } else {
        count_none(s, NL);
        assert(finished(s).flatten() =~= Seq::<u8>::empty());
    }
}

/// Joining the pieces with line feeds gives the string back, and there is one
/// piece more than there are line feeds.
pub proof fn pieces_join_back(s: Seq<u8>)
    ensures
        joined(pieces(s)) == s,
        pieces(s).len() == newlines(s) + 1,
        forall|i: int| 0 <= i < pieces(s).len() ==> newlines(#[trigger] pieces(s)[i]) == 0,
    decreases s.len(),
{
    first_at_is_first(s, NL);
    let k = first_at(s, NL);
    if k < s.len() {
        let rest = s.skip(k + 1);
        pieces_join_back(rest);
        assert(pieces(s).drop_first() =~= pieces(rest));
        count_none(s.take(k), NL);
        assert(s =~= s.take(k).push(NL) + rest);
        count_adds(s.take(k).push(NL), rest, NL);
        assert(s.take(k).push(NL).drop_last() =~= s.take(k));
        assert forall|i: int| 0 <= i < pieces(s).len() implies newlines(#[trigger] pieces(s)[i]) == 0 by {
            if i > 0 {
                assert(pieces(s)[i] == pieces(rest)[i - 1]);
            }
        }
    } else {
        count_none(s, NL);
    }
}

/// Pieces without line feeds survive joining and cutting.
pub proof fn joined_cut_back(parts: Seq<Seq<u8>>)
    requires
        parts.len() > 0,
        forall|i: int| 0 <= i < parts.len() ==> newlines(#[trigger] parts[i]) == 0,
    ensures
        pieces(joined(parts)) == parts,
    decreases parts.len(),
{
    let s = joined(parts);
    let p = parts[0];
    assert(newlines(p) == 0);
    no_newline_inside(p);
    if parts.len() == 1 {
        first_at_unique(s, NL, s.len() as int);
        assert(pieces(s) =~= parts);
    } else {
        let rest = parts.drop_first();
        assert forall|i: int| 0 <= i < rest.len() implies newlines(#[trigger] rest[i]) == 0 by {
            assert(rest[i] == parts[i + 1]);
        }
        joined_cut_back(rest);
        assert forall|j: int| 0 <= j < p.len() implies s[j] != NL by {
            assert(s[j] == p[j]);
        }
        assert(s[p.len() as int] == NL);
        first_at_unique(s, NL, p.len() as int);
        assert(s.take(p.len() as int) =~= p);
        assert(s.skip(p.len() as int + 1) =~= joined(rest));
        assert(pieces(s) =~= parts);
    }
}

/// A string that counts no line feed holds none.
pub proof fn no_newline_inside(s: Seq<u8>)
    requires
        newlines(s) == 0,
    ensures
        forall|j: int| 0 <= j < s.len() ==> s[j] != NL,
    decreases s.len(),
{
    if s.len() > 0 {
        no_newline_inside(s.drop_last());
        assert forall|j: int| 0 <= j < s.len() implies s[j] != NL by {
            if j < s.len() - 1 {
                assert(s[j] == s.drop_last()[j]);
            }
        }
    }
}

// ---------------------------------------------------------------------
// Executable counterparts
// ---------------------------------------------------------------------

/// The position of the first `b` at or behind `from`, or the length.
pub fn find_from(s: &[u8], b: u8, from: usize) -> (r: usize)
    requires
        from <= s@.len(),
    ensures
        r == from + first_at(s@.skip(from as int), b),
        from <= r <= s@.len(),
{
    let mut i: usize = from;
    while i < s.len()
        invariant
            from <= i <= s@.len(),
            from + first_at(s@.skip(from as int), b) == i + first_at(s@.skip(i as int), b),
        decreases s@.len() - i,
    {
        if s[i] == b {
            return i;
        }
        assert(s@.skip(i as int).drop_first() =~= s@.skip(i + 1));
        i += 1;
    }
    i
}

/// How many line feeds a byte string holds.
pub fn count_newlines(s: &[u8]) -> (r: u64)
    ensures
        r == newlines(s@),
{
    let mut n: u64 = 0;
    let mut i: usize = 0;
    let len: usize = s.len();
    while i < len
        invariant
            i <= len,
            len == s@.len(),
            n == newlines(s@.take(i as int)),
            n <= i,
        decreases len - i,
    {
        assert(s@.take(i + 1).drop_last() =~= s@.take(i as int));
        if s[i] == NL {
            n += 1;
        }
        i += 1;
    }
    assert(s@.take(s@.len() as int) =~= s@);
    n
}

/// The pieces between line feeds.
pub fn split_pieces<'a>(s: &'a [u8]) -> (r: Vec<&'a [u8]>)
    ensures
        views(r@) == pieces(s@),
{
    let mut out: Vec<&'a [u8]> = Vec::new();
    let mut start: usize = 0;
    assert(s@.skip(0) =~= s@);
    assert(views(out@) + pieces(s@.skip(0)) =~= pieces(s@));
    loop
        invariant
            start <= s@.len(),
            views(out@) + pieces(s@.skip(start as int)) == pieces(s@),
        decreases s@.len() - start,
    {
        let end: usize = find_from(s, NL, start);
        let ghost rest = s@.skip(start as int);
        let ghost k = first_at(rest, NL);
        let piece = slice_subrange(s, start, end);
        let ghost before = out@;
        out.push(piece);
        assert(views(out@) =~= views(before).push(piece@));
        assert(piece@ =~= rest.take(k));
        if end == s.len() {
            assert(rest.take(k) =~= rest);
            assert(views(out@) =~= pieces(s@));
            return out;
        }
        assert(rest.skip(k + 1) =~= s@.skip(end + 1));
        assert(views(out@) + pieces(s@.skip(end + 1)) =~= views(before) + pieces(rest));
        start = end + 1;
    }
}

/// The finished lines, each with its line feed.
pub fn split_finished<'a>(s: &'a [u8]) -> (r: Vec<&'a [u8]>)
    ensures
        views(r@) == finished(s@),
{
    let mut out: Vec<&'a [u8]> = Vec::new();
    let mut start: usize = 0;
    assert(s@.skip(0) =~= s@);
    assert(views(out@) + finished(s@.skip(0)) =~= finished(s@));
    loop
        invariant
            start <= s@.len(),
            views(out@) + finished(s@.skip(start as int)) == finished(s@),
        decreases s@.len() - start,
    {
        let end: usize = find_from(s, NL, start);
        let ghost rest = s@.skip(start as int);
        let ghost k = first_at(rest, NL);
        if end == s.len() {
            assert(views(out@) =~= finished(s@));
            return out;
        }
        let line = slice_subrange(s, start, end + 1);
        let ghost before = out@;
        out.push(line);
        assert(views(out@) =~= views(before).push(line@));
        assert(line@ =~= rest.take(k + 1));
        assert(rest.skip(k + 1) =~= s@.skip(end + 1));
        assert(views(out@) + finished(s@.skip(end + 1)) =~= views(before) + finished(rest));
        start = end + 1;
    }
}

/// Appends a byte string.
pub fn append_bytes(out: &mut Vec<u8>, s: &[u8])
    ensures
        final(out)@ == old(out)@ + s@,
{
    out.extend_from_slice(s);
    assert(out@ =~= old(out)@ + s@);
}

// ---------------------------------------------------------------------
// Laws
// ---------------------------------------------------------------------

/// Counting counts: every occurrence adds one, and no other byte adds anything.
pub proof fn count_is_the_number(s: Seq<u8>, x: u8, b: u8)
    ensures
        count_of(Seq::<u8>::empty(), b) == 0,
        x == b ==> count_of(s.push(x), b) == count_of(s, b) + 1,
        x != b ==> count_of(s.push(x), b) == count_of(s, b),
        newlines(s) == count_of(s, 10u8),
        count_of(s, b) == s.filter(|c: u8| c == b).len(),
    decreases s.len(),
{
    assert(s.push(x).drop_last() =~= s);
    reveal(Seq::filter);
    if s.len() > 0 {
        count_is_the_number(s.drop_last(), s.last(), b);
    }
}

/// The first line of a byte string is everything up to its first line feed.
pub proof fn first_line_comes_first(t: Seq<u8>, rest: Seq<u8>)
    requires
        forall|i: int| 0 <= i < t.len() ==> t[i] != 10u8,
    ensures
        finished(t.push(10u8) + rest) == seq![t.push(10u8)] + finished(rest),
        unfinished(t.push(10u8) + rest) == unfinished(rest),
        all_lines(t.push(10u8) + rest) == seq![t.push(10u8)] + all_lines(rest),
        pieces(t.push(10u8) + rest) == seq![t] + pieces(rest),
        first_at(t.push(10u8) + rest, 10u8) == t.len(),
        first_at(t, 10u8) == t.len(),
        finished(t).len() == 0,
        unfinished(t) == t,
        pieces(t) == seq![t],
        all_lines(t) == if t.len() > 0 {
            seq![t]
        } else {
            Seq::empty()
        },
{
    let s = t.push(10u8) + rest;
    assert(s[t.len() as int] == 10u8);
    assert forall|j: int| 0 <= j < t.len() implies s[j] != NL by {
        assert(s[j] == t[j]);
    }
    first_at_unique(s, NL, t.len() as int);
    first_at_unique(t, NL, t.len() as int);
    assert(s.take(t.len() as int + 1) =~= t.push(10u8));
    assert(s.take(t.len() as int) =~= t);
    assert(s.skip(t.len() as int + 1) =~= rest);
    if unfinished(rest).len() > 0 {
        assert(all_lines(s) =~= seq![t.push(10u8)] + all_lines(rest));
    }
    if t.len() > 0 {
        assert(all_lines(t) =~= seq![t]);
    }
}

/// Every finished line ends with its only line feed, the unfinished one has none,
/// and together they are the byte string.
pub proof fn lines_end_with_a_line_feed(s: Seq<u8>)
    ensures
        finished(s).flatten() + unfinished(s) == s,
        all_lines(s).flatten() == s,
        forall|i: int|
            0 <= i < finished(s).len() ==> (#[trigger] finished(s)[i]).len() > 0 && finished(
                s,
            )[i].last() == 10u8 && !finished(s)[i].drop_last().contains(10u8),
        !unfinished(s).contains(10u8),
        forall|i: int| 0 <= i < all_lines(s).len() ==> (#[trigger] all_lines(s)[i]).len() > 0,
    decreases s.len(),
{
    finished_and_unfinished_are_all(s);
    no_newline_inside(unfinished(s));
    first_at_is_first(s, NL);
    let k = first_at(s, NL);
    if k < s.len() {
        let rest = s.skip(k + 1);
        lines_end_with_a_line_feed(rest);
        assert forall|i: int| 0 <= i < finished(s).len() implies (#[trigger] finished(s)[i]).len()
            > 0 && finished(s)[i].last() == 10u8 && !finished(s)[i].drop_last().contains(10u8) by {
            if i == 0 {
                assert(s.take(k + 1).drop_last() =~= s.take(k));
            } else {
                assert(finished(s)[i] == finished(rest)[i - 1]);
            }
        }
    }
    let f = finished(s);
    let u = unfinished(s);
    if u.len() > 0 {
        f.lemma_flatten_push(u);
    } else {
        assert(f.flatten() + u =~= f.flatten());
    }
}

/// Joining puts one line feed between each two texts.
pub proof fn joining_puts_line_feeds_between(parts: Seq<Seq<u8>>, p: Seq<u8>)
    ensures
        joined(seq![p]) == p,
        parts.len() > 0 ==> joined(parts.push(p)) == joined(parts).push(10u8) + p,
    decreases parts.len(),
{
    if parts.len() == 1 {
        assert(parts.push(p).drop_first() =~= seq![p]);
        assert(joined(seq![p]) == p);
    } else if parts.len() > 1 {
        joining_puts_line_feeds_between(parts.drop_first(), p);
        assert(parts.push(p).drop_first() =~= parts.drop_first().push(p));
        assert(joined(parts.push(p)) =~= joined(parts).push(10u8) + p);
    }
}

/// A byte string ends inside of a line exactly where no line feed ends it.
pub proof fn only_a_line_feed_ends_a_line(s: Seq<u8>)
    ensures
        unfinished(s).len() == 0 <==> s.len() == 0 || s.last() == 10u8,
    decreases s.len(),
{
    first_at_is_first(s, NL);
    let k = first_at(s, NL);
    if k < s.len() {
        only_a_line_feed_ends_a_line(s.skip(k + 1));
        if k + 1 < s.len() {
            assert(s.skip(k + 1).last() == s.last());
        } else {
            assert(s.last() == s[k]);
        }
    } else if s.len() > 0 {
        assert(s.last() == s[s.len() - 1]);
    }
}

/// Behind the end of a line the lines go on as if nothing came before.
pub proof fn lines_go_on_behind_a_line(a: Seq<u8>, b: Seq<u8>)
    requires
        a.len() == 0 || a.last() == 10u8,
    ensures
        finished(a + b) == finished(a) + finished(b),
        unfinished(a + b) == unfinished(b),
        all_lines(a + b) == all_lines(a) + all_lines(b),
    decreases a.len(),
{
    if a.len() == 0 {
        assert(a + b =~= b);
        assert(first_at(a, NL) == 0);
        assert(all_lines(a) =~= Seq::<Seq<u8>>::empty());
        assert(finished(a) + finished(b) =~= finished(b));
        assert(all_lines(a) + all_lines(b) =~= all_lines(b));
    } else {
        first_at_is_first(a, NL);
        let k = first_at(a, NL);
        assert(a[a.len() - 1] == 10u8);
        let t = a.take(k);
        let rest = a.skip(k + 1);
        assert(a =~= t.push(10u8) + rest);
        assert(a + b =~= t.push(10u8) + (rest + b));
        if rest.len() > 0 {
            assert(rest.last() == a.last());
        }
        first_line_comes_first(t, rest);
        first_line_comes_first(t, rest + b);
        lines_go_on_behind_a_line(rest, b);
        assert(finished(a + b) =~= finished(a) + finished(b));
        assert(all_lines(a + b) =~= all_lines(a) + all_lines(b));
    }
}

} // verus!
