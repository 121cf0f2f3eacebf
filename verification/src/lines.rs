use vstd::prelude::*;

verus! {

// The byte value of the line terminator, `\n`.
pub open spec fn line_feed() -> u8 {
    10
}

/// Length in bytes of the first physical line of `data`, terminator
/// included: everything up to and including the first line feed, or all of
/// `data` when no line feed occurs.
pub open spec fn first_line_len(data: Seq<u8>) -> int
    decreases data.len(),
{
    if data.len() == 0 {
        0
    } else if data[0] == line_feed() {
        1
    } else {
        1 + first_line_len(data.skip(1))
    }
}

/// The physical lines of `data`, in order. Each line keeps its terminating
/// line feed; only a final line at the very end of the data may lack one.
/// Empty data has no lines.
pub open spec fn lines_of(data: Seq<u8>) -> Seq<Seq<u8>>
    decreases data.len(),
    via lines_of_decreases
{
    if data.len() == 0 {
        Seq::empty()
    } else {
        seq![data.take(first_line_len(data))] + lines_of(data.skip(first_line_len(data)))
    }
}

#[via_fn]
proof fn lines_of_decreases(data: Seq<u8>) {
    lemma_first_line_len_bounds(data);
}

/// A physical line with its trailing line feed removed, when one is present.
pub open spec fn strip_line_feed(line: Seq<u8>) -> Seq<u8> {
    if line.len() > 0 && line.last() == line_feed() {
        line.drop_last()
    } else {
        line
    }
}

/// True when `n` splits `data` at a line boundary: at the very start, at the
/// very end, or right after a line feed.
pub open spec fn is_line_boundary(data: Seq<u8>, n: int) -> bool {
    0 <= n <= data.len() && (n == 0 || n == data.len() || data[n - 1] == line_feed())
}

/// The first line of nonempty data is nonempty and no longer than the data.
pub proof fn lemma_first_line_len_bounds(data: Seq<u8>)
    ensures
        data.len() > 0 ==> 1 <= first_line_len(data) <= data.len(),
    decreases data.len(),
{
    if data.len() > 0 && data[0] != line_feed() {
        lemma_first_line_len_bounds(data.skip(1));
        if data.len() == 1 {
            assert(data.skip(1).len() == 0);
            assert(first_line_len(data.skip(1)) == 0);
        }
    }
}

/// When the first line feed of `data` sits at index `j`, the first line is
/// exactly the `j + 1` bytes up to and including it.
pub proof fn lemma_first_line_len_at_feed(data: Seq<u8>, j: int)
    requires
        0 <= j < data.len(),
        data[j] == line_feed(),
        forall|i: int| 0 <= i < j ==> data[i] != line_feed(),
    ensures
        first_line_len(data) == j + 1,
    decreases j,
{
    if j > 0 {
        let tail = data.skip(1);
        assert(forall|i: int| 0 <= i < j - 1 ==> tail[i] == data[i + 1] && tail[i] != line_feed());
        lemma_first_line_len_at_feed(tail, j - 1);
    }
}

/// When `data` holds no line feed at all, it is one single line.
pub proof fn lemma_first_line_len_no_feed(data: Seq<u8>)
    requires
        forall|i: int| 0 <= i < data.len() ==> data[i] != line_feed(),
    ensures
        first_line_len(data) == data.len(),
    decreases data.len(),
{
    if data.len() > 0 {
        let tail = data.skip(1);
        assert(forall|i: int| 0 <= i < tail.len() ==> tail[i] == data[i + 1] && tail[i]
            != line_feed());
        lemma_first_line_len_no_feed(tail);
    }
}

/// No byte of the first line before its last is a line feed.
pub proof fn lemma_first_line_no_interior_feed(data: Seq<u8>)
    ensures
        forall|i: int| 0 <= i < first_line_len(data) - 1 ==> data[i] != line_feed(),
    decreases data.len(),
{
    if data.len() > 0 && data[0] != line_feed() {
        let tail = data.skip(1);
        lemma_first_line_len_bounds(data);
        lemma_first_line_no_interior_feed(tail);
        assert forall|i: int| 0 <= i < first_line_len(data) - 1 implies data[i]
            != line_feed() by {
            if i > 0 {
                assert(tail[i - 1] == data[i]);
            }
        }
    }
}

/// A prefix that contains the whole first line has the same first line.
pub proof fn lemma_first_line_len_of_prefix(data: Seq<u8>, m: int)
    requires
        0 <= m <= data.len(),
        first_line_len(data) <= m,
    ensures
        first_line_len(data.take(m)) == first_line_len(data),
    decreases m,
{
    lemma_first_line_len_bounds(data);
    if data.len() > 0 {
        let pre = data.take(m);
        if data[0] != line_feed() {
            lemma_first_line_len_bounds(data.skip(1));
            lemma_first_line_len_of_prefix(data.skip(1), m - 1);
            assert(pre.skip(1) =~= data.skip(1).take(m - 1));
        }
    }
}

/// There are never more lines than bytes.
pub proof fn lemma_lines_count_le_len(data: Seq<u8>)
    ensures
        lines_of(data).len() <= data.len(),
    decreases data.len(),
{
    if data.len() > 0 {
        lemma_first_line_len_bounds(data);
        lemma_lines_count_le_len(data.skip(first_line_len(data)));
    }
}

/// A single physical line — nonempty, with a line feed only possibly at the
/// very end — is split into exactly itself.
pub proof fn lemma_lines_of_single(line: Seq<u8>)
    requires
        line.len() > 0,
        forall|i: int| 0 <= i < line.len() - 1 ==> line[i] != line_feed(),
    ensures
        lines_of(line) =~= seq![line],
{
    if line.last() == line_feed() {
        lemma_first_line_len_at_feed(line, line.len() - 1);
    } else {
        lemma_first_line_len_no_feed(line);
    }
    assert(line.take(line.len() as int) =~= line);
    assert(line.skip(line.len() as int) =~= Seq::<u8>::empty());
    assert(lines_of(Seq::<u8>::empty()) =~= Seq::<Seq<u8>>::empty());
    assert(lines_of(line) =~= seq![line.take(line.len() as int)] + lines_of(
        line.skip(line.len() as int),
    ));
}

/// Splitting at a line boundary splits the lines: the lines of the whole are
/// the lines of the prefix followed by the lines of the suffix.
pub proof fn lemma_lines_split_at_boundary(data: Seq<u8>, n: int)
    requires
        is_line_boundary(data, n),
    ensures
        lines_of(data) =~= lines_of(data.take(n)) + lines_of(data.skip(n)),
    decreases n,
{
    if n == 0 {
        assert(data.take(0) =~= Seq::<u8>::empty());
        assert(data.skip(0) =~= data);
    } else {
        let k = first_line_len(data);
        lemma_first_line_len_bounds(data);
        // The first line ends at or before the boundary.
        if n < data.len() {
            lemma_first_line_no_interior_feed(data);
            if k > n {
                assert(data[n - 1] != line_feed());
                assert(false);
            }
        }
        let pre = data.take(n);
        lemma_first_line_len_of_prefix(data, n);
        assert(first_line_len(pre) == k);
        assert(pre.take(k) =~= data.take(k));
        assert(pre.skip(k) =~= data.skip(k).take(n - k));
        assert(data.skip(k).skip(n - k) =~= data.skip(n));
        lemma_lines_split_at_boundary(data.skip(k), n - k);
        assert(lines_of(data) =~= seq![data.take(k)] + lines_of(data.skip(k)));
    }
}

} // verus!
