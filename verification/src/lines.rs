//! Text as lines: how the bytes of a file divide into lines.
//!
//! A line ends at a line feed; a carriage return directly before that line
//! feed belongs to the line ending. What follows the last line feed is a
//! line of its own unless it is empty.

use vstd::prelude::*;
use vstd::slice::slice_subrange;

verus! {

pub const LINE_FEED: u8 = 10;

pub const CARRIAGE_RETURN: u8 = 13;

/// The index of the first `b` in `t`, or the length of `t` where there is
/// none.
pub open spec fn find_byte(t: Seq<u8>, b: u8) -> int
    decreases t.len(),
{
    if t.len() == 0 || t[0] == b {
        0
    } else {
        1 + find_byte(t.subrange(1, t.len() as int), b)
    }
}

/// What follows the first `b` in `t`; empty where there is none.
pub open spec fn after_byte(t: Seq<u8>, b: u8) -> Seq<u8> {
    if find_byte(t, b) < t.len() {
        t.subrange(find_byte(t, b) + 1, t.len() as int)
    } else {
        Seq::empty()
    }
}

/// What precedes the first `b` in `t`; all of `t` where there is none.
pub open spec fn before_byte(t: Seq<u8>, b: u8) -> Seq<u8> {
    t.subrange(0, find_byte(t, b))
}

/// `find_byte` is the one index below which no `b` stands and at which
/// `t` ends or holds `b`.
pub proof fn lemma_find_byte(t: Seq<u8>, b: u8)
    ensures
        0 <= find_byte(t, b) <= t.len(),
        find_byte(t, b) < t.len() ==> t[find_byte(t, b)] == b,
        forall|j: int| 0 <= j < find_byte(t, b) ==> t[j] != b,
    decreases t.len(),
{
    if t.len() == 0 || t[0] == b {
    } else {
        let rest = t.subrange(1, t.len() as int);
        lemma_find_byte(rest, b);
        assert forall|j: int| 0 <= j < find_byte(t, b) implies t[j] != b by {
            if j > 0 {
                assert(t[j] == rest[j - 1]);
            }
        }
    }
}

/// An index below which no `b` stands and at which `t` ends or holds `b`
/// is `find_byte`.
pub proof fn lemma_find_byte_unique(t: Seq<u8>, b: u8, k: int)
    requires
        0 <= k <= t.len(),
        k < t.len() ==> t[k] == b,
        forall|j: int| 0 <= j < k ==> t[j] != b,
    ensures
        find_byte(t, b) == k,
{
    lemma_find_byte(t, b);
    let f = find_byte(t, b);
    if f < k {
        assert(t[f] != b);
    }
}

/// Whether `b` stands nowhere in `t`.
pub open spec fn free_of(t: Seq<u8>, b: u8) -> bool {
    forall|i: int| 0 <= i < t.len() ==> #[trigger] t[i] != b
}

/// A text that is free of `b`, then `b`, then more text divides at that
/// `b`.
pub proof fn lemma_divide_joined(head: Seq<u8>, b: u8, tail: Seq<u8>)
    requires
        free_of(head, b),
    ensures
        find_byte(head + seq![b] + tail, b) == head.len(),
        before_byte(head + seq![b] + tail, b) == head,
        after_byte(head + seq![b] + tail, b) == tail,
{
    let whole = head + seq![b] + tail;
    assert(whole[head.len() as int] == b);
    assert forall|j: int| 0 <= j < head.len() implies whole[j] != b by {
        assert(whole[j] == head[j]);
    }
    lemma_find_byte_unique(whole, b, head.len() as int);
    assert(before_byte(whole, b) =~= head);
    assert(after_byte(whole, b) =~= tail);
}

/// The first line of a non-empty text, without its line ending.
pub open spec fn first_line(t: Seq<u8>) -> Seq<u8> {
    let line = before_byte(t, LINE_FEED);
    if line.len() < t.len() && line.len() > 0 && line.last() == CARRIAGE_RETURN {
        line.drop_last()
    } else {
        line
    }
}

/// The lines of a text, in order.
pub open spec fn split_lines(t: Seq<u8>) -> Seq<Seq<u8>>
    decreases t.len(),
    via split_lines_decreases
{
    if t.len() == 0 {
        Seq::empty()
    } else {
        seq![first_line(t)] + split_lines(after_byte(t, LINE_FEED))
    }
}

/// Whether a text is made of whole lines: it is empty or ends in a line
/// feed.
pub open spec fn ends_lines(t: Seq<u8>) -> bool {
    t.len() == 0 || t.last() == LINE_FEED
}

/// The lines of whole lines followed by more text are the lines of the
/// one followed by the lines of the other.
pub proof fn lemma_split_lines_joined(x: Seq<u8>, y: Seq<u8>)
    requires
        ends_lines(x),
    ensures
        split_lines(x + y) == split_lines(x) + split_lines(y),
    decreases x.len(),
{
    if x.len() == 0 {
        assert(x + y =~= y);
        assert(split_lines(x) + split_lines(y) =~= split_lines(y));
    } else {
        let whole = x + y;
        let k = find_byte(x, LINE_FEED);
        lemma_find_byte(x, LINE_FEED);
        if k == x.len() {
            assert(x[x.len() - 1] != LINE_FEED);
        }
        assert(whole[k] == x[k]);
        assert forall|j: int| 0 <= j < k implies whole[j] != LINE_FEED by {
            assert(whole[j] == x[j]);
        }
        lemma_find_byte_unique(whole, LINE_FEED, k);
        assert(before_byte(whole, LINE_FEED) =~= before_byte(x, LINE_FEED));
        let rest = after_byte(x, LINE_FEED);
        assert(after_byte(whole, LINE_FEED) =~= rest + y);
        if rest.len() > 0 {
            assert(rest.last() == x.last());
        }
        lemma_split_lines_joined(rest, y);
        assert(split_lines(whole) =~= split_lines(x) + split_lines(y));
    }
}

/// A line that holds no line feed and does not end in a carriage return,
/// followed by a line feed, is that one line.
pub proof fn lemma_split_one_line(line: Seq<u8>)
    requires
        free_of(line, LINE_FEED),
        line.len() == 0 || line.last() != CARRIAGE_RETURN,
    ensures
        split_lines(line + seq![LINE_FEED]) == seq![line],
{
    let t = line + seq![LINE_FEED];
    lemma_divide_joined(line, LINE_FEED, Seq::empty());
    assert(t =~= line + seq![LINE_FEED] + Seq::<u8>::empty());
    assert(split_lines(Seq::<u8>::empty()) =~= Seq::<Seq<u8>>::empty());
    assert(split_lines(t) =~= seq![line]);
}

#[via_fn]
proof fn split_lines_decreases(t: Seq<u8>) {
    lemma_find_byte(t, LINE_FEED);
}

/// Finds the first `b` in `s`.
pub fn find(s: &[u8], b: u8) -> (k: usize)
    ensures
        k == find_byte(s@, b),
        k <= s.len(),
{
    let mut k: usize = 0;
    while k < s.len() && s[k] != b
        invariant
            k <= s.len(),
            forall|j: int| 0 <= j < k ==> s@[j] != b,
        decreases s.len() - k,
    {
        k += 1;
    }
    proof {
        lemma_find_byte_unique(s@, b, k as int);
    }
    k
}

/// Divides `s` at its first `b`: what precedes it and what follows it.
pub fn split_at_byte(s: &[u8], b: u8) -> (r: (&[u8], &[u8]))
    ensures
        r.0@ == before_byte(s@, b),
        r.1@ == after_byte(s@, b),
        r.1@.len() < s@.len() || s@.len() == 0,
{
    let k = find(s, b);
    let head = slice_subrange(s, 0, k);
    let tail = if k < s.len() {
        slice_subrange(s, k + 1, s.len())
    } else {
        slice_subrange(s, k, k)
    };
    assert(tail@ =~= after_byte(s@, b));
    (head, tail)
}

/// Takes the first line off a non-empty text: the line, and the text that
/// follows its line ending.
pub fn split_first_line(t: &[u8]) -> (r: (&[u8], &[u8]))
    requires
        t@.len() > 0,
    ensures
        r.0@ == first_line(t@),
        r.1@ == after_byte(t@, LINE_FEED),
        split_lines(t@) == seq![r.0@] + split_lines(r.1@),
        r.1@.len() < t@.len(),
{
    let (head, tail) = split_at_byte(t, LINE_FEED);
    let n = head.len();
    let line = if n < t.len() && n > 0 && head[n - 1] == CARRIAGE_RETURN {
        slice_subrange(head, 0, n - 1)
    } else {
        head
    };
    (line, tail)
}

} // verus!
