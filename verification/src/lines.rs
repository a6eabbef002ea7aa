//! Lines of a byte stream, as `BufRead::read_line` and `BufRead::lines` cut them.
use vstd::prelude::*;

verus! {

/// The line feed byte.
pub const LF: u8 = 10;

/// The carriage return byte.
pub const CR: u8 = 13;

/// The number of bytes before the first line feed of `s` (all of `s` when it has none).
pub open spec fn line_len(s: Seq<u8>) -> nat
    decreases s.len(),
{
    if s.len() == 0 || s[0] == LF {
        0
    } else {
        1 + line_len(s.drop_first())
    }
}

/// `l` without one carriage return at its end.
pub open spec fn strip_cr(l: Seq<u8>) -> Seq<u8> {
    if l.len() > 0 && l.last() == CR {
        l.drop_last()
    } else {
        l
    }
}

/// The bytes that `read_line` takes from the front of `s` (the line feed included)
/// and what is left after them.
pub open spec fn read_line(s: Seq<u8>) -> (Seq<u8>, Seq<u8>) {
    let k = line_len(s) as int;
    if k < s.len() {
        (s.take(k + 1), s.skip(k + 1))
    } else {
        (s, Seq::empty())
    }
}

/// One step of `lines()` on a non-empty `s`: the line, without its line feed and
/// without a carriage return just before it, and what is left after the line.
pub open spec fn next_line(s: Seq<u8>) -> (Seq<u8>, Seq<u8>) {
    let k = line_len(s) as int;
    if k < s.len() {
        (strip_cr(s.take(k)), s.skip(k + 1))
    } else {
        (s, Seq::empty())
    }
}

/// What `line_len` is.
pub proof fn lemma_line_len(s: Seq<u8>)
    ensures
        line_len(s) <= s.len(),
        forall|j: int| 0 <= j < line_len(s) ==> s[j] != LF,
        line_len(s) < s.len() ==> s[line_len(s) as int] == LF,
    decreases s.len(),
{
    if s.len() > 0 && s[0] != LF {
        lemma_line_len(s.drop_first());
        assert forall|j: int| 0 <= j < line_len(s) implies s[j] != LF by {
            if j > 0 {
                assert(s[j] == s.drop_first()[j - 1]);
            }
        }
    }
}

/// `line_len` is the first line feed, if any.
pub proof fn lemma_line_len_at(s: Seq<u8>, k: int)
    requires
        0 <= k <= s.len(),
        forall|j: int| 0 <= j < k ==> s[j] != LF,
        k == s.len() || s[k] == LF,
    ensures
        line_len(s) == k,
    decreases k,
{
    if k > 0 {
        assert forall|j: int| 0 <= j < k - 1 implies s.drop_first()[j] != LF by {
            assert(s.drop_first()[j] == s[j + 1]);
        }
        lemma_line_len_at(s.drop_first(), k - 1);
    }
}

/// The rest after a line is shorter than the input.
pub proof fn lemma_next_line_shorter(s: Seq<u8>)
    requires
        s.len() > 0,
    ensures
        next_line(s).1.len() < s.len(),
        read_line(s).1.len() < s.len(),
        read_line(s).0.len() > 0,
        read_line(s).0 + read_line(s).1 == s,
{
    lemma_line_len(s);
    let k = line_len(s) as int;
    if k < s.len() {
        assert(s.take(k + 1) + s.skip(k + 1) =~= s);
    } else {
        assert(s + Seq::<u8>::empty() =~= s);
    }
}

/// Finds the line that starts at `start`: the line is `input[start..r.0]` and the
/// next one starts at `r.1`.
pub fn find_line(input: &[u8], start: usize) -> (r: (usize, usize))
    requires
        start < input@.len(),
    ensures
        start <= r.0 <= r.1 <= input@.len(),
        start < r.1,
        next_line(input@.subrange(start as int, input@.len() as int)) == (
            input@.subrange(start as int, r.0 as int),
            input@.subrange(r.1 as int, input@.len() as int),
        ),
{
    let ghost s = input@.subrange(start as int, input@.len() as int);
    let mut i = start;
    while i < input.len() && input[i] != LF
        invariant
            start <= i <= input@.len(),
            s == input@.subrange(start as int, input@.len() as int),
            forall|j: int| start <= j < i ==> input@[j] != LF,
        decreases input.len() - i,
    {
        i = i + 1;
    }
    proof {
        lemma_line_len_at(s, i - start);
    }
    if i == input.len() {
        assert(s =~= input@.subrange(start as int, i as int));
        assert(input@.subrange(i as int, input@.len() as int) =~= Seq::<u8>::empty());
        (i, i)
    } else {
        let ghost k = i - start;
        assert(s.skip(k + 1) =~= input@.subrange(i + 1, input@.len() as int));
        assert(s.take(k) =~= input@.subrange(start as int, i as int));
        if i > start && input[i - 1] == CR {
            assert(s.take(k).drop_last() =~= input@.subrange(start as int, i - 1));
            (i - 1, i + 1)
        } else {
            (i, i + 1)
        }
    }
}

/// The end of the bytes that `read_line` takes from the front of `input`.
pub fn find_read_line(input: &[u8]) -> (end: usize)
    ensures
        end <= input@.len(),
        read_line(input@) == (
            input@.subrange(0, end as int),
            input@.subrange(end as int, input@.len() as int),
        ),
{
    let mut i: usize = 0;
    while i < input.len() && input[i] != LF
        invariant
            i <= input@.len(),
            forall|j: int| 0 <= j < i ==> input@[j] != LF,
        decreases input.len() - i,
    {
        i = i + 1;
    }
    proof {
        lemma_line_len_at(input@, i as int);
    }
    if i == input.len() {
        assert(input@.subrange(0, i as int) =~= input@);
        assert(input@.subrange(i as int, input@.len() as int) =~= Seq::<u8>::empty());
        i
    } else {
        assert(input@.take(i + 1) =~= input@.subrange(0, i + 1));
        assert(input@.skip(i + 1) =~= input@.subrange(i + 1, input@.len() as int));
        i + 1
    }
}

/// Bytes whose first line ends inside them: what follows them does not change
/// that line.
pub proof fn lemma_lines_prefix_within(a: Seq<u8>, x: Seq<u8>)
    requires
        line_len(a) < a.len(),
    ensures
        line_len(a + x) == line_len(a),
        next_line(a + x) == (next_line(a).0, next_line(a).1 + x),
        read_line(a + x) == (read_line(a).0, read_line(a).1 + x),
        read_line(a).1 == next_line(a).1,
        next_line(a).1 == a.skip(line_len(a) as int + 1),
{
    lemma_line_len(a);
    let k = line_len(a) as int;
    assert forall|j: int| 0 <= j < k implies (a + x)[j] != LF by {
        assert((a + x)[j] == a[j]);
    }
    assert((a + x)[k] == a[k]);
    lemma_line_len_at(a + x, k);
    assert((a + x).take(k) =~= a.take(k));
    assert((a + x).take(k + 1) =~= a.take(k + 1));
    assert((a + x).skip(k + 1) =~= a.skip(k + 1) + x);
}

/// Bytes that end with a line feed: their first line ends inside them.
pub proof fn lemma_lines_prefix(a: Seq<u8>, x: Seq<u8>)
    requires
        a.len() > 0,
        a.last() == LF,
    ensures
        line_len(a + x) == line_len(a),
        line_len(a) < a.len(),
        next_line(a + x) == (next_line(a).0, next_line(a).1 + x),
        read_line(a + x) == (read_line(a).0, read_line(a).1 + x),
        next_line(a).1.len() == 0 || next_line(a).1.last() == LF,
        read_line(a).1 == next_line(a).1,
{
    lemma_line_len(a);
    let k = line_len(a) as int;
    if k == a.len() {
        assert(a[a.len() - 1] == LF);
        assert(false);
    }
    lemma_lines_prefix_within(a, x);
}

/// A line of bytes `w` with no line feed, followed by one: `lines()` yields `w`
/// without a carriage return at its end, and goes on after the line feed.
pub proof fn lemma_next_line_of(w: Seq<u8>, x: Seq<u8>)
    requires
        forall|j: int| 0 <= j < w.len() ==> w[j] != LF,
    ensures
        next_line(w + seq![LF] + x) == (strip_cr(w), x),
{
    let s = w + seq![LF] + x;
    assert forall|j: int| 0 <= j < w.len() implies s[j] != LF by {
        assert(s[j] == w[j]);
    }
    assert(s[w.len() as int] == LF);
    lemma_line_len_at(s, w.len() as int);
    assert(s.take(w.len() as int) =~= w);
    assert(s.skip(w.len() as int + 1) =~= x);
}

/// Lines, each followed by a line feed.
pub open spec fn join_lines(ls: Seq<Seq<u8>>) -> Seq<u8>
    decreases ls.len(),
{
    if ls.len() == 0 {
        Seq::empty()
    } else {
        ls[0] + seq![LF] + join_lines(ls.drop_first())
    }
}

} // verus!
