use vstd::prelude::*;
use vstd::utf8::{
    valid_utf8, decode_utf8, decode_first_scalar, pop_first_scalar, length_of_first_scalar,
    is_leading_byte_width_1,
};

use crate::lines::{
    line_feed, first_line_len, lines_of, strip_line_feed, is_line_boundary,
    lemma_first_line_len_at_feed, lemma_first_line_len_bounds, lemma_first_line_len_no_feed,
    lemma_first_line_no_interior_feed, lemma_lines_count_le_len, lemma_lines_of_single,
    lemma_lines_split_at_boundary,
};
use crate::matcher::{Matcher, regex_accepts};
use crate::types::OptionalResult;

verus! {

/// The text of a physical line: its bytes after terminator stripping,
/// decoded as UTF-8.
pub open spec fn line_text(line: Seq<u8>) -> Seq<char> {
    decode_utf8(strip_line_feed(line))
}

/// A physical line can be read as text when its stripped bytes are valid
/// UTF-8.
pub open spec fn line_readable(line: Seq<u8>) -> bool {
    valid_utf8(strip_line_feed(line))
}

/// The active condition of a scan: the matcher accepts the line's text, with
/// the polarity flipped when `invert` is set.
pub open spec fn line_selected(
    line: Seq<u8>,
    pattern: Seq<char>,
    fold_case: bool,
    invert: bool,
) -> bool {
    regex_accepts(pattern, fold_case, line_text(line)) != invert
}

/// Relies on `String::from_utf8`: conversion succeeds exactly when the bytes
/// are valid UTF-8, and then yields their decoding.
#[verifier::external_body]
fn bytes_to_text(bytes: Vec<u8>) -> (r: Option<String>)
    ensures
        r is Some <==> valid_utf8(bytes@),
        r matches Some(s) ==> s@ == decode_utf8(bytes@),
{
    String::from_utf8(bytes).ok()
}

/// Text decoded from bytes that hold no line feed holds no line feed either:
/// UTF-8 encodes `\n` as the single byte 10, and byte 10 never occurs inside
/// the encoding of any other character.
pub proof fn lemma_decode_no_line_feed(bytes: Seq<u8>)
    requires
        valid_utf8(bytes),
        forall|i: int| 0 <= i < bytes.len() ==> bytes[i] != line_feed(),
    ensures
        forall|i: int| 0 <= i < decode_utf8(bytes).len() ==> decode_utf8(bytes)[i] != '\n',
    decreases bytes.len(),
{
    if bytes.len() > 0 {
        let s = decode_first_scalar(bytes);
        let b0 = bytes[0];
        if is_leading_byte_width_1(b0) {
            assert(b0 <= 0x7f && b0 != 10 ==> ((b0 & 0x7f) as u32) != 10 && ((b0
                & 0x7f) as u32) <= 0x7f) by (bit_vector);
        } else if vstd::utf8::is_leading_byte_width_2(b0) {
            let b1 = bytes[1];
            assert(((((b0 & 0x1f) as u32) << 6) | ((b1 & 0x3f) as u32)) <= 0x7ff) by (bit_vector);
        } else if vstd::utf8::is_leading_byte_width_3(b0) {
            let b1 = bytes[1];
            let b2 = bytes[2];
            assert(((((b0 & 0x0f) as u32) << 12) | (((b1 & 0x3f) as u32) << 6) | ((b2
                & 0x3f) as u32)) <= 0xffff) by (bit_vector);
        }
        assert(s != 10);
        assert(vstd::utf8::is_scalar(s));
        assert((s as char) != '\n');
        let rest = pop_first_scalar(bytes);
        assert(forall|i: int|
            0 <= i < rest.len() ==> rest[i] == bytes[i + length_of_first_scalar(bytes)]);
        lemma_decode_no_line_feed(rest);
        let d = decode_utf8(bytes);
        assert(d =~= seq![(s as char)] + decode_utf8(rest));
        assert forall|i: int| 0 <= i < d.len() implies d[i] != '\n' by {
            if i > 0 {
                assert(d[i] == decode_utf8(rest)[i - 1]);
            }
        }
    }
}

/// One reported match: the content of a line with its terminator stripped,
/// and the line's 1-based position in the file.
pub struct ReadResult {
    pub line_content: String,
    pub line_number: usize,
}

/// A resumable line source over the contents of one file. It owns the bytes
/// it scans and a monotonically increasing line counter; each `read_next`
/// call advances through the content until a line satisfies the active
/// condition, the content runs out, or a line cannot be read as text.
pub struct FileReader {
    content: Vec<u8>,
    pos: usize,
    line_counter: usize,
    failed: bool,
}

impl FileReader {
    /// All physical lines of the scanned content.
    pub closed spec fn all_lines(&self) -> Seq<Seq<u8>> {
        lines_of(self.content@)
    }

    /// The line counter: how many physical lines have been consumed.
    pub closed spec fn consumed(&self) -> int {
        self.line_counter as int
    }

    /// Whether the source has failed; a failed source never resumes.
    pub closed spec fn has_failed(&self) -> bool {
        self.failed
    }

    /// Internal consistency: the read position sits at a line boundary and
    /// the line counter equals the number of lines before it.
    pub closed spec fn wf(&self) -> bool {
        &&& self.pos <= self.content@.len()
        &&& is_line_boundary(self.content@, self.pos as int)
        &&& self.line_counter as int == lines_of(self.content@.take(self.pos as int)).len()
    }

    /// Creates a source over the given file content; nothing is consumed yet.
    pub fn new(content: Vec<u8>) -> (r: FileReader)
        ensures
            r.wf(),
            r.all_lines() == lines_of(content@),
            r.consumed() == 0,
            !r.has_failed(),
    {
        let r = FileReader { content, pos: 0, line_counter: 0, failed: false };
        proof {
            assert(r.content@.take(0) =~= Seq::<u8>::empty());
            assert(lines_of(Seq::<u8>::empty()) =~= Seq::<Seq<u8>>::empty());
        }
        r
    }

    /// Reads the raw bytes of the next physical line, terminator included,
    /// and advances past it; returns an empty buffer at end of input. The
    /// line counter is not touched here.
    fn read_line(&mut self) -> (line: Vec<u8>)
        requires
            old(self).wf(),
        ensures
            final(self).content@ == old(self).content@,
            final(self).line_counter == old(self).line_counter,
            final(self).failed == old(self).failed,
            old(self).pos <= final(self).pos <= final(self).content@.len(),
            is_line_boundary(final(self).content@, final(self).pos as int),
            old(self).pos == old(self).content@.len() ==> line@.len() == 0 && final(self).pos
                == old(self).pos,
            old(self).pos < old(self).content@.len() ==> ({
                let rem = old(self).content@.skip(old(self).pos as int);
                &&& line@ == rem.take(first_line_len(rem))
                &&& final(self).pos == old(self).pos + first_line_len(rem)
            }),
    {
        let ghost start = self.pos as int;
        let ghost data = self.content@;
        let mut line: Vec<u8> = Vec::new();
        let mut done = false;
        proof {
            assert(line@ =~= data.subrange(start, start));
        }
        while !done && self.pos < self.content.len()
            invariant
                self.content@ == data,
                self.line_counter == old(self).line_counter,
                self.failed == old(self).failed,
                0 <= start <= self.pos as int <= data.len(),
                line@ == data.subrange(start, self.pos as int),
                forall|i: int| start <= i < self.pos as int - 1 ==> data[i] != line_feed(),
                done <==> (self.pos as int > start && data[self.pos as int - 1] == line_feed()),
            decreases data.len() - self.pos as int,
        {
            let b = self.content[self.pos];
            self.pos = self.pos + 1;
            line.push(b);
            if b == 10 {
                done = true;
            }
            proof {
                let p = self.pos as int;
                assert(b == data[p - 1]);
                assert(line@.len() == p - start);
                assert(forall|i: int|
                    0 <= i < p - 1 - start ==> line@[i] == data.subrange(start, p - 1)[i]);
                assert(line@ =~= data.subrange(start, p));
            }
        }
        proof {
            if start < data.len() {
                let rem = data.skip(start);
                assert(forall|i: int| 0 <= i < rem.len() ==> rem[i] == data[start + i]);
                if done {
                    lemma_first_line_len_at_feed(rem, self.pos as int - 1 - start);
                } else {
                    assert(self.pos as int == data.len());
                    lemma_first_line_len_no_feed(rem);
                }
                assert(line@ =~= rem.take(first_line_len(rem)));
            } else {
                assert(line@ =~= Seq::<u8>::empty());
            }
        }
        line
    }

    /// Pulls the next line satisfying the active condition. Lines are read
    /// one at a time; the counter increments once per physical line read,
    /// matched or not. Returns `Matched` with the stripped content and the
    /// counter value for the first satisfying line, `Exhausted` at end of
    /// input, and `Failed` for a line that cannot be read as text — after
    /// which the source stays failed and every further call fails again.
    pub fn read_next(&mut self, pattern: &Matcher, invert: bool) -> (r: OptionalResult<
        ReadResult,
        String,
    >)
        requires
            old(self).wf(),
        ensures
            final(self).wf(),
            final(self).all_lines() == old(self).all_lines(),
            old(self).consumed() <= final(self).consumed() <= old(self).all_lines().len(),
            old(self).has_failed() ==> r is Failed && *final(self) == *old(self),
            !old(self).has_failed() && old(self).consumed() == old(self).all_lines().len()
                ==> r is Exhausted,
            !old(self).has_failed() ==> (r matches OptionalResult::Matched(rec) ==> ({
                let lines = old(self).all_lines();
                let c = final(self).consumed();
                &&& old(self).consumed() < c <= lines.len()
                &&& rec.line_number == c
                &&& line_readable(lines[c - 1])
                &&& line_selected(
                    lines[c - 1],
                    pattern.spec_pattern(),
                    pattern.spec_fold_case(),
                    invert,
                )
                &&& rec.line_content@ == line_text(lines[c - 1])
                &&& !rec.line_content@.contains('\n')
                &&& forall|j: int|
                    old(self).consumed() <= j < c - 1 ==> line_readable(lines[j])
                        && !line_selected(
                        lines[j],
                        pattern.spec_pattern(),
                        pattern.spec_fold_case(),
                        invert,
                    )
                &&& !final(self).has_failed()
            })),
            !old(self).has_failed() ==> (r is Exhausted ==> ({
                let lines = old(self).all_lines();
                &&& final(self).consumed() == lines.len()
                &&& forall|j: int|
                    old(self).consumed() <= j < lines.len() ==> line_readable(lines[j])
                        && !line_selected(
                        lines[j],
                        pattern.spec_pattern(),
                        pattern.spec_fold_case(),
                        invert,
                    )
                &&& !final(self).has_failed()
            })),
            !old(self).has_failed() ==> (r matches OptionalResult::Failed(msg) ==> ({
                let lines = old(self).all_lines();
                let c = final(self).consumed();
                &&& old(self).consumed() < c <= lines.len()
                &&& !line_readable(lines[c - 1])
                &&& msg@ == "Cannot read file: stream did not contain valid UTF-8"@
                &&& forall|j: int|
                    old(self).consumed() <= j < c - 1 ==> line_readable(lines[j])
                        && !line_selected(
                        lines[j],
                        pattern.spec_pattern(),
                        pattern.spec_fold_case(),
                        invert,
                    )
                &&& final(self).has_failed()
            })),
    {
        proof {
            lemma_lines_split_at_boundary(self.content@, self.pos as int);
        }
        if self.failed {
            return OptionalResult::Failed(
                "Cannot read file: stream did not contain valid UTF-8".to_owned(),
            );
        }
        let ghost lines = self.all_lines();
        let ghost a = self.consumed();
        loop
            invariant
                self.wf(),
                !self.failed,
                !old(self).has_failed(),
                self.content@ == old(self).content@,
                lines == lines_of(self.content@),
                lines == old(self).all_lines(),
                a == old(self).consumed(),
                a <= self.consumed() <= lines.len(),
                forall|j: int|
                    a <= j < self.consumed() ==> line_readable(lines[j]) && !line_selected(
                        lines[j],
                        pattern.spec_pattern(),
                        pattern.spec_fold_case(),
                        invert,
                    ),
            decreases self.content@.len() - self.pos as int,
        {
            let ghost pos0 = self.pos as int;
            let line = self.read_line();
            if line.len() == 0 {
                proof {
                    if pos0 < self.content@.len() {
                        lemma_first_line_len_bounds(self.content@.skip(pos0));
                        assert(false);
                    }
                    assert(self.content@.take(self.pos as int) =~= self.content@);
                }
                return OptionalResult::Exhausted;
            }
            let ghost raw = line@;
            let ghost pos1 = self.pos as int;
            proof {
                let data = self.content@;
                let rem = data.skip(pos0);
                lemma_first_line_len_bounds(rem);
                lemma_first_line_no_interior_feed(rem);
                assert(forall|i: int| 0 <= i < rem.len() ==> rem[i] == data[pos0 + i]);
                // The bytes just read form one whole physical line.
                assert(forall|i: int| 0 <= i < raw.len() - 1 ==> raw[i] != line_feed());
                lemma_lines_of_single(raw);
                // Counting: the consumed prefix gained exactly this line.
                lemma_lines_split_at_boundary(data.take(pos1), pos0);
                assert(data.take(pos1).take(pos0) =~= data.take(pos0));
                assert(data.take(pos1).skip(pos0) =~= raw);
                lemma_lines_count_le_len(data.take(pos1));
                // The line read is the one at index `consumed` of all lines.
                lemma_lines_split_at_boundary(data, pos1);
                assert(lines =~= lines_of(data.take(pos1)) + lines_of(data.skip(pos1)));
            }
            self.line_counter = self.line_counter + 1;
            let ghost k = self.consumed() - 1;
            proof {
                assert(lines[k] == raw);
            }
            let mut stripped = line;
            if stripped[stripped.len() - 1] == 10 {
                stripped.pop();
            }
            proof {
                assert(stripped@ == strip_line_feed(raw));
                assert(forall|i: int| 0 <= i < stripped@.len() ==> stripped@[i] != line_feed());
            }
            let ghost stripped_view = stripped@;
            match bytes_to_text(stripped) {
                None => {
                    self.failed = true;
                    return OptionalResult::Failed(
                        "Cannot read file: stream did not contain valid UTF-8".to_owned(),
                    );
                },
                Some(text) => {
                    proof {
                        lemma_decode_no_line_feed(stripped_view);
                        assert(!text@.contains('\n'));
                    }
                    if pattern.is_match(text.as_str()) != invert {
                        return OptionalResult::Matched(
                            ReadResult { line_content: text, line_number: self.line_counter },
                        );
                    }
                },
            }
        }
    }
}

} // verus!
