//! Reading a note: the split into preamble and body.
//!
//! A preamble is framed by two delimiter lines, each made of three dashes and nothing else.
//! The first of them is the first line of the note; the second is the next such line. What
//! stands between the two is the preamble, and what follows the second is the body. A line
//! ends with a line feed, with a carriage return and a line feed, or with the text.

use vstd::prelude::*;
use vstd::slice::{slice_subrange, slice_to_vec};
use vstd::utf8::{
    is_char_boundary, is_char_boundary_iff_not_is_continuation_byte,
    is_char_boundary_start_end_of_seq, length_of_first_scalar, pop_first_scalar, valid_utf8,
    valid_utf8_split,
};
use crate::bytes::is_utf8;

verus! {

/// The byte that ends a line.
pub const LINE_FEED: u8 = 0x0a;

/// The byte that may stand before the line feed at the end of a line.
pub const CARRIAGE_RETURN: u8 = 0x0d;

/// The byte of which a delimiter line holds three.
pub const DASH: u8 = 0x2d;

/// Why a note could not be read.
#[derive(Debug, Clone, Copy, PartialEq, Eq, Structural)]
pub enum NoteError {
    /// The bytes are not UTF-8, so the note cannot be read as text.
    NotText,
    /// The note opens a preamble and never closes it.
    UnclosedPreamble,
}

/// A note, split into its two parts.
#[derive(Debug, Clone, PartialEq, Eq)]
pub struct Note {
    /// The text between the two delimiter lines; empty where the note has no preamble.
    pub preamble: Vec<u8>,
    /// The text after the closing delimiter line; the whole note where it has no preamble.
    pub body: Vec<u8>,
}

/// The two parts of a note as byte sequences.
pub ghost struct NoteView {
    pub preamble: Seq<u8>,
    pub body: Seq<u8>,
}

impl View for Note {
    type V = NoteView;

    open spec fn view(&self) -> NoteView {
        NoteView { preamble: self.preamble@, body: self.body@ }
    }
}

/// Whether a line begins at `at`: at the first byte, or right after a line feed.
pub open spec fn line_starts_at(text: Seq<u8>, at: int) -> bool {
    at == 0 || (0 < at <= text.len() && text[at - 1] == LINE_FEED)
}

/// The length of the delimiter that begins at `at`, its line ending included, or 0 where the
/// bytes from `at` to the end of the line are anything but three dashes.
pub open spec fn delimiter_len(text: Seq<u8>, at: int) -> int {
    if !(0 <= at && at + 3 <= text.len() && text[at] == DASH && text[at + 1] == DASH && text[at
        + 2] == DASH) {
        0
    } else if at + 3 == text.len() {
        3
    } else if text[at + 3] == LINE_FEED {
        4
    } else if text[at + 3] == CARRIAGE_RETURN && at + 4 < text.len() && text[at + 4]
        == LINE_FEED {
        5
    } else {
        0
    }
}

/// Whether a delimiter line begins at `at`.
pub open spec fn delimiter_at(text: Seq<u8>, at: int) -> bool {
    line_starts_at(text, at) && delimiter_len(text, at) > 0
}

/// Whether the delimiter line that closes the preamble begins at `at`: it is the first
/// delimiter line after the one that opens the note.
pub open spec fn closes_at(text: Seq<u8>, at: int) -> bool {
    &&& delimiter_at(text, 0)
    &&& delimiter_len(text, 0) <= at
    &&& delimiter_at(text, at)
    &&& forall|earlier: int| delimiter_len(text, 0) <= earlier < at ==> !delimiter_at(text, earlier)
}

/// Whether the note opens a preamble and closes it.
pub open spec fn is_closed(text: Seq<u8>) -> bool {
    exists|at: int| closes_at(text, at)
}

/// Where the closing delimiter line of a note with a closed preamble begins.
pub open spec fn closing(text: Seq<u8>) -> int {
    choose|at: int| closes_at(text, at)
}

/// What reading a note gives. Bytes that are not UTF-8 are no text. A note that does not open
/// with a delimiter line has no preamble and is all body. One that does must have a second
/// delimiter line, and is split there.
pub open spec fn note_of(text: Seq<u8>) -> Result<NoteView, NoteError> {
    if !valid_utf8(text) {
        Err(NoteError::NotText)
    } else if !delimiter_at(text, 0) {
        Ok(NoteView { preamble: Seq::empty(), body: text })
    } else if !is_closed(text) {
        Err(NoteError::UnclosedPreamble)
    } else {
        Ok(
            NoteView {
                preamble: text.subrange(delimiter_len(text, 0), closing(text)),
                body: text.subrange(
                    closing(text) + delimiter_len(text, closing(text)),
                    text.len() as int,
                ),
            },
        )
    }
}

/// A preamble is closed by one line only.
pub proof fn lemma_closing_is_unique(text: Seq<u8>, a: int, b: int)
    requires
        closes_at(text, a),
        closes_at(text, b),
    ensures
        a == b,
{
    if a < b {
        assert(!delimiter_at(text, a));
    } else if b < a {
        assert(!delimiter_at(text, b));
    }
}

/// Whether `line` is a delimiter line: three dashes, alone or with the ending of their line.
pub open spec fn is_delimiter(line: Seq<u8>) -> bool {
    ||| line == seq![DASH, DASH, DASH]
    ||| line == seq![DASH, DASH, DASH, LINE_FEED]
    ||| line == seq![DASH, DASH, DASH, CARRIAGE_RETURN, LINE_FEED]
}

/// A note is its parts. One without a preamble is its body. One with a preamble is the
/// opening delimiter line, the preamble, the closing delimiter line and the body, in this
/// order: nothing but the two delimiter lines is lost in reading it.
pub proof fn lemma_note_is_its_parts(text: Seq<u8>)
    requires
        note_of(text) is Ok,
    ensures
        !delimiter_at(text, 0) ==> {
            &&& note_of(text)->Ok_0.preamble.len() == 0
            &&& note_of(text)->Ok_0.body == text
        },
        delimiter_at(text, 0) ==> exists|opening: Seq<u8>, closing: Seq<u8>|
            {
                &&& is_delimiter(opening)
                &&& is_delimiter(closing)
                &&& text == #[trigger] (opening + note_of(text)->Ok_0.preamble + closing)
                    + note_of(text)->Ok_0.body
            },
{
    if delimiter_at(text, 0) {
        let note = note_of(text)->Ok_0;
        let at = closing(text);
        let opening = text.subrange(0, delimiter_len(text, 0));
        let closing = text.subrange(at, at + delimiter_len(text, at));
        assert(opening =~= seq![DASH, DASH, DASH] || opening =~= seq![
            DASH,
            DASH,
            DASH,
            LINE_FEED,
        ] || opening =~= seq![DASH, DASH, DASH, CARRIAGE_RETURN, LINE_FEED]);
        assert(closing =~= seq![DASH, DASH, DASH] || closing =~= seq![
            DASH,
            DASH,
            DASH,
            LINE_FEED,
        ] || closing =~= seq![DASH, DASH, DASH, CARRIAGE_RETURN, LINE_FEED]);
        assert(text =~= (opening + note.preamble + closing) + note.body);
    }
}

/// In text, a character begins after each byte of ASCII.
proof fn lemma_character_begins_after_ascii(text: Seq<u8>, at: int)
    requires
        valid_utf8(text),
        0 <= at < text.len(),
        text[at] < 0x80,
    ensures
        is_char_boundary(text, at + 1),
    decreases text.len(),
{
    is_char_boundary_iff_not_is_continuation_byte(text, at);
    if at == 0 {
        assert(length_of_first_scalar(text) == 1);
        assert(is_char_boundary(pop_first_scalar(text), 0));
    } else {
        let rest = pop_first_scalar(text);
        let first = length_of_first_scalar(text);
        assert(is_char_boundary(rest, at - first));
        assert(0 <= at - first < rest.len());
        assert(rest[at - first] == text[at]);
        lemma_character_begins_after_ascii(rest, at - first);
    }
}

/// The parts of a note are text, as the note is.
pub proof fn lemma_parts_are_text(text: Seq<u8>)
    requires
        note_of(text) is Ok,
    ensures
        valid_utf8(note_of(text)->Ok_0.preamble),
        valid_utf8(note_of(text)->Ok_0.body),
{
    if delimiter_at(text, 0) {
        let open = delimiter_len(text, 0);
        let at = closing(text);
        let end = at + delimiter_len(text, at);
        if end == text.len() {
            is_char_boundary_start_end_of_seq(text);
        } else {
            lemma_character_begins_after_ascii(text, end - 1);
        }
        valid_utf8_split(text, end);
        is_char_boundary_iff_not_is_continuation_byte(text, at);
        valid_utf8_split(text, at);
        let head = text.subrange(0, at);
        if open == at {
            is_char_boundary_start_end_of_seq(head);
        } else {
            lemma_character_begins_after_ascii(text, open - 1);
            is_char_boundary_iff_not_is_continuation_byte(text, open);
            is_char_boundary_iff_not_is_continuation_byte(head, open);
        }
        valid_utf8_split(head, open);
        assert(head.subrange(open, head.len() as int) =~= text.subrange(open, at));
    }
}

/// The length of the delimiter that begins at `at`, or 0 where none does.
fn delimiter_length(text: &[u8], at: usize) -> (len: usize)
    requires
        at <= text.len(),
    ensures
        len == delimiter_len(text@, at as int),
        at + len <= text.len(),
{
    let n = text.len();
    if n - at < 3 || text[at] != DASH || text[at + 1] != DASH || text[at + 2] != DASH {
        0
    } else if n - at == 3 {
        3
    } else if text[at + 3] == LINE_FEED {
        4
    } else if text[at + 3] == CARRIAGE_RETURN && n - at > 4 && text[at + 4] == LINE_FEED {
        5
    } else {
        0
    }
}

/// Where the line after the one that holds `at` begins, or the length of the text where that
/// line is the last.
fn next_line(text: &[u8], at: usize) -> (next: usize)
    requires
        at < text.len(),
    ensures
        at < next <= text.len(),
        next == text.len() || line_starts_at(text@, next as int),
        forall|between: int| at < between < next ==> !line_starts_at(text@, between),
{
    let mut i: usize = at;
    while i < text.len() && text[i] != LINE_FEED
        invariant
            at <= i <= text.len(),
            forall|k: int| at <= k < i ==> text@[k] != LINE_FEED,
        decreases text.len() - i,
    {
        i += 1;
    }
    if i < text.len() {
        i + 1
    } else {
        i
    }
}

/// Splits a note into preamble and body.
///
/// Fails with [`NoteError::NotText`] where the bytes are not UTF-8, and with
/// [`NoteError::UnclosedPreamble`] where the first line is a delimiter line and no later line
/// is one.
pub fn read_note(text: &[u8]) -> (read: Result<Note, NoteError>)
    ensures
        match read {
            Ok(note) => note_of(text@) == Ok::<NoteView, NoteError>(note@),
            Err(error) => note_of(text@) == Err::<NoteView, NoteError>(error),
        },
{
    if !is_utf8(text) {
        return Err(NoteError::NotText);
    }
    let open = delimiter_length(text, 0);
    if open == 0 {
        return Ok(Note { preamble: Vec::new(), body: slice_to_vec(text) });
    }
    let mut at: usize = open;
    while at < text.len()
        invariant
            valid_utf8(text@),
            open == delimiter_len(text@, 0),
            open > 0,
            open <= at <= text.len(),
            at == text.len() || line_starts_at(text@, at as int),
            forall|earlier: int| open <= earlier < at ==> !delimiter_at(text@, earlier),
        decreases text.len() - at,
    {
        let close = delimiter_length(text, at);
        if close > 0 {
            proof {
                assert(closes_at(text@, at as int));
                assert(is_closed(text@));
                lemma_closing_is_unique(text@, at as int, closing(text@));
            }
            let preamble = slice_to_vec(slice_subrange(text, open, at));
            let body = slice_to_vec(slice_subrange(text, at + close, text.len()));
            return Ok(Note { preamble, body });
        }
        at = next_line(text, at);
    }
    proof {
        assert forall|end: int| !closes_at(text@, end) by {
            if closes_at(text@, end) {
                if end < at {
                    assert(!delimiter_at(text@, end));
                } else {
                    assert(delimiter_len(text@, end) == 0);
                }
            }
        }
    }
    Err(NoteError::UnclosedPreamble)
}

} // verus!
