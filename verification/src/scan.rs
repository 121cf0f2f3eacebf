use vstd::prelude::*;

use vstd::string::StringExecFns;

use crate::lines::lines_of;
use crate::matcher::Matcher;
use crate::reader::{FileReader, ReadResult, line_readable, line_selected, line_text};
use crate::types::OptionalResult;

verus! {

/// The view of one reported match: its 1-based line number and its text.
pub open spec fn record_view(rec: ReadResult) -> (int, Seq<char>) {
    (rec.line_number as int, rec.line_content@)
}

/// What a full scan reports for `lines` from 0-based index `from` on: for
/// every line up to the first unreadable one, the pair of its 1-based number
/// and its text whenever the line satisfies the active condition.
pub open spec fn matches_from(
    lines: Seq<Seq<u8>>,
    from: int,
    pattern: Seq<char>,
    fold_case: bool,
    invert: bool,
) -> Seq<(int, Seq<char>)>
    decreases lines.len() - from,
{
    if from < 0 || from >= lines.len() {
        Seq::empty()
    } else if !line_readable(lines[from]) {
        Seq::empty()
    } else if line_selected(lines[from], pattern, fold_case, invert) {
        seq![(from + 1, line_text(lines[from]))] + matches_from(
            lines,
            from + 1,
            pattern,
            fold_case,
            invert,
        )
    } else {
        matches_from(lines, from + 1, pattern, fold_case, invert)
    }
}

/// Whether a full scan of `lines` from index `from` on runs into a line that
/// cannot be read as text.
pub open spec fn scan_fails(lines: Seq<Seq<u8>>, from: int) -> bool
    decreases lines.len() - from,
{
    if from < 0 || from >= lines.len() {
        false
    } else if !line_readable(lines[from]) {
        true
    } else {
        scan_fails(lines, from + 1)
    }
}

/// Lines that are readable but not selected contribute nothing to a scan.
proof fn lemma_matches_skip(
    lines: Seq<Seq<u8>>,
    a: int,
    b: int,
    pattern: Seq<char>,
    fold_case: bool,
    invert: bool,
)
    requires
        0 <= a <= b <= lines.len(),
        forall|j: int|
            a <= j < b ==> line_readable(lines[j]) && !line_selected(
                lines[j],
                pattern,
                fold_case,
                invert,
            ),
    ensures
        matches_from(lines, a, pattern, fold_case, invert) == matches_from(
            lines,
            b,
            pattern,
            fold_case,
            invert,
        ),
    decreases b - a,
{
    if a < b {
        lemma_matches_skip(lines, a + 1, b, pattern, fold_case, invert);
    }
}

/// A scan over wholly readable lines never fails.
proof fn lemma_scan_fails_none(lines: Seq<Seq<u8>>, from: int)
    requires
        0 <= from <= lines.len(),
        forall|j: int| from <= j < lines.len() ==> line_readable(lines[j]),
    ensures
        !scan_fails(lines, from),
    decreases lines.len() - from,
{
    if from < lines.len() {
        lemma_scan_fails_none(lines, from + 1);
    }
}

/// A scan that reaches an unreadable line fails.
proof fn lemma_scan_fails_at(lines: Seq<Seq<u8>>, from: int, j: int)
    requires
        0 <= from <= j < lines.len(),
        forall|i: int| from <= i < j ==> line_readable(lines[i]),
        !line_readable(lines[j]),
    ensures
        scan_fails(lines, from),
    decreases j - from,
{
    if from < j {
        lemma_scan_fails_at(lines, from + 1, j);
    }
}

/// Scans one file's whole content: drives a fresh line source until it is
/// exhausted or fails, collecting every reported match in order. Returns the
/// matches and, when some line could not be read as text, the failure
/// message; a failure abandons the rest of the content but keeps the matches
/// reported before it.
#[verifier::loop_isolation(false)]
pub fn scan_content(content: Vec<u8>, pattern: &Matcher, invert: bool) -> (r: (
    Vec<ReadResult>,
    Option<String>,
))
    ensures
        r.0@.map_values(|rec: ReadResult| record_view(rec)) == matches_from(
            lines_of(content@),
            0,
            pattern.spec_pattern(),
            pattern.spec_fold_case(),
            invert,
        ),
        r.1 is Some <==> scan_fails(lines_of(content@), 0),
        r.1 matches Some(msg) ==> msg@ == "Cannot read file: stream did not contain valid UTF-8"@,
{
    let ghost lines = lines_of(content@);
    let ghost p = pattern.spec_pattern();
    let ghost f = pattern.spec_fold_case();
    let mut source = FileReader::new(content);
    let mut results: Vec<ReadResult> = Vec::new();
    proof {
        assert(results@.map_values(|rec: ReadResult| record_view(rec)) =~= Seq::<(
            int,
            Seq<char>,
        )>::empty());
    }
    loop
        invariant
            source.wf(),
            !source.has_failed(),
            source.all_lines() == lines,
            p == pattern.spec_pattern(),
            f == pattern.spec_fold_case(),
            0 <= source.consumed() <= lines.len(),
            forall|j: int| 0 <= j < source.consumed() ==> line_readable(lines[j]),
            results@.map_values(|rec: ReadResult| record_view(rec)) + matches_from(
                lines,
                source.consumed(),
                p,
                f,
                invert,
            ) == matches_from(lines, 0, p, f, invert),
        decreases lines.len() - source.consumed(),
    {
        let ghost a = source.consumed();
        match source.read_next(pattern, invert) {
            OptionalResult::Matched(rec) => {
                let ghost c = source.consumed();
                proof {
                    lemma_matches_skip(lines, a, c - 1, p, f, invert);
                }
                let ghost before = results@;
                results.push(rec);
                proof {
                    assert(results@.map_values(|x: ReadResult| record_view(x)) =~= before
                        .map_values(|x: ReadResult| record_view(x)).push(record_view(rec)));
                    assert(matches_from(lines, c - 1, p, f, invert) == seq![
                        (c, line_text(lines[c - 1])),
                    ] + matches_from(lines, c, p, f, invert));
                    assert(before.map_values(|x: ReadResult| record_view(x)).push(record_view(rec))
                        + matches_from(lines, c, p, f, invert) =~= before.map_values(
                        |x: ReadResult| record_view(x),
                    ) + matches_from(lines, c - 1, p, f, invert));
                }
            },
            OptionalResult::Exhausted => {
                proof {
                    lemma_matches_skip(lines, a, lines.len() as int, p, f, invert);
                    assert(matches_from(lines, lines.len() as int, p, f, invert) =~= Seq::<(
                        int,
                        Seq<char>,
                    )>::empty());
                    assert(results@.map_values(|rec: ReadResult| record_view(rec)) =~= results@
                        .map_values(|rec: ReadResult| record_view(rec)) + Seq::<(
                        int,
                        Seq<char>,
                    )>::empty());
                    lemma_scan_fails_none(lines, 0);
                }
                return (results, None);
            },
            OptionalResult::Failed(msg) => {
                let ghost c = source.consumed();
                proof {
                    lemma_matches_skip(lines, a, c - 1, p, f, invert);
                    assert(matches_from(lines, c - 1, p, f, invert) =~= Seq::<(
                        int,
                        Seq<char>,
                    )>::empty());
                    assert(results@.map_values(|rec: ReadResult| record_view(rec)) =~= results@
                        .map_values(|rec: ReadResult| record_view(rec)) + Seq::<(
                        int,
                        Seq<char>,
                    )>::empty());
                    lemma_scan_fails_at(lines, 0, c - 1);
                }
                return (results, Some(msg));
            },
        }
    }
}

/// The 1-based numbers of the lines that a scan with the given polarity
/// selects.
pub open spec fn selected_numbers(
    lines: Seq<Seq<u8>>,
    pattern: Seq<char>,
    fold_case: bool,
    invert: bool,
) -> Set<int> {
    Set::new(
        |n: int| 1 <= n <= lines.len() && line_selected(lines[n - 1], pattern, fold_case, invert),
    )
}

/// Every record of a scan names a selected line in range and carries that
/// line's text.
proof fn lemma_matches_sound(
    lines: Seq<Seq<u8>>,
    from: int,
    pattern: Seq<char>,
    fold_case: bool,
    invert: bool,
)
    requires
        0 <= from <= lines.len(),
    ensures
        forall|i: int|
            #![trigger matches_from(lines, from, pattern, fold_case, invert)[i]]
            0 <= i < matches_from(lines, from, pattern, fold_case, invert).len() ==> ({
                let rec = matches_from(lines, from, pattern, fold_case, invert)[i];
                &&& from + 1 <= rec.0 <= lines.len()
                &&& line_selected(lines[rec.0 - 1], pattern, fold_case, invert)
                &&& rec.1 == line_text(lines[rec.0 - 1])
            }),
    decreases lines.len() - from,
{
    if from < lines.len() && line_readable(lines[from]) {
        lemma_matches_sound(lines, from + 1, pattern, fold_case, invert);
        let mf = matches_from(lines, from, pattern, fold_case, invert);
        let tail = matches_from(lines, from + 1, pattern, fold_case, invert);
        if line_selected(lines[from], pattern, fold_case, invert) {
            assert(forall|i: int| 1 <= i < mf.len() ==> mf[i] == tail[i - 1]);
        }
    }
}

/// Every selected line of a wholly readable suffix is reported by the scan.
proof fn lemma_matches_covers(
    lines: Seq<Seq<u8>>,
    from: int,
    pattern: Seq<char>,
    fold_case: bool,
    invert: bool,
    n: int,
)
    requires
        0 <= from <= lines.len(),
        forall|j: int| from <= j < lines.len() ==> line_readable(lines[j]),
        from + 1 <= n <= lines.len(),
        line_selected(lines[n - 1], pattern, fold_case, invert),
    ensures
        exists|i: int|
            0 <= i < matches_from(lines, from, pattern, fold_case, invert).len()
                && matches_from(lines, from, pattern, fold_case, invert)[i].0 == n,
    decreases lines.len() - from,
{
    let mf = matches_from(lines, from, pattern, fold_case, invert);
    let tail = matches_from(lines, from + 1, pattern, fold_case, invert);
    if n == from + 1 {
        assert(mf[0].0 == n);
    } else {
        lemma_matches_covers(lines, from + 1, pattern, fold_case, invert, n);
        let i = choose|i: int| 0 <= i < tail.len() && tail[i].0 == n;
        if line_selected(lines[from], pattern, fold_case, invert) {
            assert(mf[i + 1].0 == n);
        } else {
            assert(mf[i].0 == n);
        }
    }
}

/// Invert semantics, first half: for a fixed file and matcher, the line
/// numbers selected with the invert flag off and those selected with it on
/// are disjoint, and together they are exactly the file's line numbers.
pub proof fn lemma_invert_partition(lines: Seq<Seq<u8>>, pattern: Seq<char>, fold_case: bool)
    ensures
        selected_numbers(lines, pattern, fold_case, false).disjoint(
            selected_numbers(lines, pattern, fold_case, true),
        ),
        selected_numbers(lines, pattern, fold_case, false) + selected_numbers(
            lines,
            pattern,
            fold_case,
            true,
        ) =~= Set::new(|n: int| 1 <= n <= lines.len()),
{
    assert forall|n: int|
        selected_numbers(lines, pattern, fold_case, false).contains(n) implies !selected_numbers(
        lines,
        pattern,
        fold_case,
        true,
    ).contains(n) by {}
}

/// Invert semantics, second half: when every line of the file is readable,
/// a full scan reports a line number exactly when its polarity selects it.
pub proof fn lemma_scan_reports_selected(
    lines: Seq<Seq<u8>>,
    pattern: Seq<char>,
    fold_case: bool,
    invert: bool,
)
    requires
        forall|j: int| 0 <= j < lines.len() ==> line_readable(lines[j]),
    ensures
        forall|n: int|
            #[trigger] selected_numbers(lines, pattern, fold_case, invert).contains(n) <==> exists|
                i: int,
            |
                0 <= i < matches_from(lines, 0, pattern, fold_case, invert).len() && matches_from(
                    lines,
                    0,
                    pattern,
                    fold_case,
                    invert,
                )[i].0 == n,
{
    let mf = matches_from(lines, 0, pattern, fold_case, invert);
    lemma_matches_sound(lines, 0, pattern, fold_case, invert);
    assert forall|n: int|
        #[trigger] selected_numbers(lines, pattern, fold_case, invert).contains(n) implies exists|
        i: int,
    | 0 <= i < mf.len() && mf[i].0 == n by {
        lemma_matches_covers(lines, 0, pattern, fold_case, invert, n);
    }
}

/// The message reported when a file cannot be opened: it always names the
/// offending path, framed in quotes, followed by the underlying cause.
pub fn open_failure_message(path: &str, cause: &str) -> (r: String)
    ensures
        r@ == "Cannot open file \""@ + path@ + "\": "@ + cause@,
        exists|i: int|
            #![trigger r@.subrange(i, i + path@.len() as int)]
            0 <= i && i + path@.len() <= r@.len() && r@.subrange(i, i + path@.len() as int)
                == path@,
{
    let mut r = "Cannot open file \"".to_owned();
    r.append(path);
    r.append("\": ");
    r.append(cause);
    proof {
        reveal_strlit("Cannot open file \"");
        assert(r@.subrange(18, 18 + path@.len() as int) =~= path@);
    }
    r
}

} // verus!

