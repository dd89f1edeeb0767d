//! The document reader: from the bytes of a file to its values.

use crate::config::{ConfigMap, Key};
use crate::line::{
    classify, lemma_comment_line_is_blank, lemma_whitespace_line_is_blank, parse_line, Line,
    LineView,
};
use crate::interner::Interner;
use crate::table::{no_entries, Entries};
use crate::text::{
    all_space, find, lemma_find_at, lemma_split_lines_concat, lemma_split_lines_first, split_lines,
    strip_cr, trim_start,
};
use vstd::prelude::*;
use vstd::slice::slice_subrange;
use vstd::utf8::{decode_utf8, valid_utf8};

verus! {

/// Where a reader stands between two lines: the section that assignments
/// are filed under, and the values read so far.
pub struct ReaderState {
    pub section: Seq<char>,
    pub entries: Entries,
}

/// The name of the section that holds what precedes the first header.
pub open spec fn root_section() -> Seq<char> {
    "root"@
}

/// The state before the first line.
pub open spec fn initial_state() -> ReaderState {
    ReaderState { section: root_section(), entries: no_entries() }
}

/// The state after a classified line.
///
/// A header changes the section. An assignment files its value under the
/// section and its key, in place of a value filed there before. Blank and
/// unrecognized lines change nothing.
pub open spec fn apply(state: ReaderState, line: LineView) -> ReaderState {
    match line {
        LineView::Blank => state,
        LineView::Unrecognized => state,
        LineView::Section(name) => ReaderState { section: name, entries: state.entries },
        LineView::Pair(key, value) => ReaderState {
            section: state.section,
            entries: state.entries.insert((state.section, key), value),
        },
    }
}

/// The state after a line given as bytes. A line that is not UTF-8 is
/// passed over.
pub open spec fn read_line(state: ReaderState, line: Seq<u8>) -> ReaderState {
    if valid_utf8(line) {
        apply(state, classify(decode_utf8(line)))
    } else {
        state
    }
}

/// The state after a sequence of lines, read in order.
pub open spec fn read_lines(state: ReaderState, lines: Seq<Seq<u8>>) -> ReaderState
    decreases lines.len(),
{
    if lines.len() == 0 {
        state
    } else {
        read_lines(read_line(state, lines.first()), lines.drop_first())
    }
}

/// The lines of a file.
pub open spec fn byte_lines(bytes: Seq<u8>) -> Seq<Seq<u8>> {
    split_lines(bytes, 0x0Au8, 0x0Du8)
}

/// The values of a file.
pub open spec fn document(bytes: Seq<u8>) -> Entries {
    read_lines(initial_state(), byte_lines(bytes)).entries
}

/// Reading two sequences of lines in a row is reading the first and then,
/// from where that ended, the second.
pub proof fn lemma_read_lines_concat(state: ReaderState, first: Seq<Seq<u8>>, second: Seq<Seq<u8>>)
    ensures
        read_lines(state, first + second) == read_lines(read_lines(state, first), second),
    decreases first.len(),
{
    if first.len() == 0 {
        assert(first + second =~= second);
    } else {
        let all = first + second;
        assert(all.first() == first.first());
        assert(all.drop_first() =~= first.drop_first() + second);
        lemma_read_lines_concat(read_line(state, first.first()), first.drop_first(), second);
    }
}

/// Whether a line, given as bytes, leaves every state as it is: it is not
/// UTF-8, or it is blank or unrecognized.
pub open spec fn is_inert(line: Seq<u8>) -> bool {
    valid_utf8(line) ==> classify(decode_utf8(line)) == LineView::Blank || classify(
        decode_utf8(line),
    ) == LineView::Unrecognized
}

/// A line that is blank, a comment, unrecognized or not UTF-8 adds nothing
/// to a file: the values of the file are the same with the line and without
/// it, wherever in the file it stands.
pub proof fn lemma_inert_line_adds_nothing(before: Seq<u8>, line: Seq<u8>, after: Seq<u8>)
    requires
        before.len() == 0 || before.last() == 0x0Au8,
        !line.contains(0x0Au8),
        is_inert(strip_cr(line, 0x0Du8)),
    ensures
        document(before + line + seq![0x0Au8] + after) == document(before + after),
{
    let lf = 0x0Au8;
    let cr = 0x0Du8;
    let rest = line + seq![lf] + after;
    let stripped = strip_cr(line, cr);
    assert(before + line + seq![lf] + after =~= before + rest);
    lemma_split_lines_concat(before, rest, lf, cr);
    lemma_split_lines_concat(before, after, lf, cr);
    lemma_split_lines_first(line, after, lf, cr);
    let head = byte_lines(before);
    let tail = byte_lines(after);
    let reached = read_lines(initial_state(), head);
    lemma_read_lines_concat(initial_state(), head, seq![stripped] + tail);
    lemma_read_lines_concat(initial_state(), head, tail);
    lemma_read_lines_first(reached, stripped, tail);
    assert(read_line(reached, stripped) == reached);
}

/// A line of whitespace alone, and a line whose first character after any
/// leading whitespace is `;`, adds nothing to a file: the values of the file
/// are the same with the line and without it, wherever in the file it
/// stands.
pub proof fn lemma_blank_or_comment_line_adds_nothing(
    before: Seq<u8>,
    line: Seq<u8>,
    after: Seq<u8>,
)
    requires
        before.len() == 0 || before.last() == 0x0Au8,
        !line.contains(0x0Au8),
        valid_utf8(strip_cr(line, 0x0Du8)),
        ({
            let text = decode_utf8(strip_cr(line, 0x0Du8));
            all_space(text) || (trim_start(text).len() > 0 && trim_start(text).first() == ';')
        }),
    ensures
        document(before + line + seq![0x0Au8] + after) == document(before + after),
{
    let text = decode_utf8(strip_cr(line, 0x0Du8));
    if all_space(text) {
        lemma_whitespace_line_is_blank(text);
    } else {
        lemma_comment_line_is_blank(text);
    }
    lemma_inert_line_adds_nothing(before, line, after);
}

/// The same holds of a last line that no line feed ends: if it is of
/// whitespace alone, or its first character after any leading whitespace is
/// `;`, the values of the file are the same with it and without it.
pub proof fn lemma_blank_or_comment_last_line_adds_nothing(before: Seq<u8>, line: Seq<u8>)
    requires
        before.len() == 0 || before.last() == 0x0Au8,
        !line.contains(0x0Au8),
        valid_utf8(line),
        ({
            let text = decode_utf8(line);
            all_space(text) || (trim_start(text).len() > 0 && trim_start(text).first() == ';')
        }),
    ensures
        document(before + line) == document(before),
{
    let lf = 0x0Au8;
    let cr = 0x0Du8;
    if line.len() == 0 {
        assert(before + line =~= before);
    } else {
        let text = decode_utf8(line);
        if all_space(text) {
            lemma_whitespace_line_is_blank(text);
        } else {
            lemma_comment_line_is_blank(text);
        }
        assert forall|j: int| 0 <= j < line.len() implies line[j] != lf by {
            assert(line.contains(line[j]));
        }
        lemma_find_at(line, lf, line.len() as int);
        assert(byte_lines(line) == seq![line]);
        lemma_split_lines_concat(before, line, lf, cr);
        let head = byte_lines(before);
        let reached = read_lines(initial_state(), head);
        lemma_read_lines_concat(initial_state(), head, seq![line]);
        lemma_read_lines_first(reached, line, Seq::<Seq<u8>>::empty());
        assert(seq![line] + Seq::<Seq<u8>>::empty() =~= seq![line]);
    }
}

/// Where one key is assigned twice in a row, the second assignment stands:
/// the state is as if the first had not been made.
pub proof fn lemma_last_assignment_stands(
    state: ReaderState,
    key: Seq<char>,
    first: Seq<char>,
    last: Seq<char>,
)
    ensures
        apply(apply(state, LineView::Pair(key, first)), LineView::Pair(key, last)) == apply(
            state,
            LineView::Pair(key, last),
        ),
        apply(state, LineView::Pair(key, last)).entries[(state.section, key)] == last,
{
    let once = state.entries.insert((state.section, key), last);
    let twice = state.entries.insert((state.section, key), first).insert(
        (state.section, key),
        last,
    );
    assert(once =~= twice);
}

/// Reading lines into finitely many values leaves finitely many values.
pub proof fn lemma_read_lines_finite(state: ReaderState, lines: Seq<Seq<u8>>)
    requires
        state.entries.dom().finite(),
    ensures
        read_lines(state, lines).entries.dom().finite(),
    decreases lines.len(),
{
    if lines.len() > 0 {
        lemma_read_lines_finite(read_line(state, lines.first()), lines.drop_first());
    }
}

/// A file has finitely many values.
pub proof fn lemma_document_finite(bytes: Seq<u8>)
    ensures
        document(bytes).dom().finite(),
{
    lemma_read_lines_finite(initial_state(), byte_lines(bytes));
}

/// `std::str::from_utf8`: the text that the bytes encode, or `None` where
/// they are not UTF-8.
#[verifier::external_body]
pub(crate) fn decode(bytes: &[u8]) -> (text: Option<&str>)
    ensures
        text is Some == valid_utf8(bytes@),
        text is Some ==> text->0@ == decode_utf8(bytes@),
{
    std::str::from_utf8(bytes).ok()
}

/// Position of the first `byte` in `bytes[lo..]`, or the length when there
/// is none.
fn find_byte(bytes: &[u8], lo: usize, byte: u8) -> (at: usize)
    requires
        lo <= bytes.len(),
    ensures
        lo <= at <= bytes.len(),
        at - lo == find(bytes@.skip(lo as int), byte),
{
    let mut at: usize = lo;
    while at < bytes.len() && bytes[at] != byte
        invariant
            lo <= at <= bytes.len(),
            forall|j: int| lo <= j < at ==> bytes@[j] != byte,
        decreases bytes.len() - at,
    {
        at += 1;
    }
    proof {
        lemma_find_at(bytes@.skip(lo as int), byte, at - lo);
    }
    at
}

/// Reading `line` and then `rest` is reading the two as one sequence.
proof fn lemma_read_lines_first(state: ReaderState, line: Seq<u8>, rest: Seq<Seq<u8>>)
    ensures
        read_lines(state, seq![line] + rest) == read_lines(read_line(state, line), rest),
{
    let all = seq![line] + rest;
    assert(all.first() == line);
    assert(all.drop_first() =~= rest);
}

/// Reads a configuration file.
///
/// Assignments that precede the first section header are filed under the
/// section `root`. Where a key is assigned more than once, the last
/// assignment stands. Lines that are not UTF-8, and lines that are neither
/// a header nor an assignment, are passed over. The section names are held
/// by `store`.
pub fn read_to_map<'a>(config: &[u8], store: &'a Interner) -> (map: ConfigMap<'a>)
    ensures
        map@ == document(config@),
{
    let mut section: &'a str = store.intern("root");
    let mut map = ConfigMap::new();
    let mut pos: usize = 0;
    proof {
        assert(config@.skip(0) =~= config@);
    }
    while pos < config.len()
        invariant
            pos <= config.len(),
            read_lines(
                ReaderState { section: section@, entries: map@ },
                byte_lines(config@.skip(pos as int)),
            ) == read_lines(initial_state(), byte_lines(config@)),
        decreases config.len() - pos,
    {
        let ghost state = ReaderState { section: section@, entries: map@ };
        let ghost rest = config@.skip(pos as int);
        let end: usize = find_byte(config, pos, 0x0Au8);
        let mut stop: usize = end;
        let mut next: usize = end;
        if end < config.len() {
            next = end + 1;
            if end > pos && config[end - 1] == 0x0Du8 {
                stop = end - 1;
            }
        }
        let bytes = slice_subrange(config, pos, stop);
        proof {
            let tail = byte_lines(config@.skip(next as int));
            if end < config.len() {
                assert(rest.take(end - pos) =~= config@.subrange(pos as int, end as int));
                assert(strip_cr(rest.take(end - pos), 0x0Du8) =~= bytes@);
                assert(rest.skip(end - pos + 1) =~= config@.skip(next as int));
                assert(byte_lines(rest) == seq![bytes@] + tail);
            } else {
                assert(rest =~= bytes@);
                assert(tail =~= Seq::<Seq<u8>>::empty());
                assert(byte_lines(rest) =~= seq![bytes@] + tail);
            }
            lemma_read_lines_first(state, bytes@, tail);
        }
        match decode(bytes) {
            Some(text) => {
                match parse_line(text) {
                    Line::Section(name) => {
                        section = store.intern(name.as_str());
                    },
                    Line::Pair(key, value) => {
                        map.insert(Key { section, property: key }, value);
                    },
                    Line::Blank => {},
                    Line::Unrecognized => {},
                }
            },
            None => {},
        }
        pos = next;
    }
    proof {
        assert(config@.skip(pos as int) =~= Seq::<u8>::empty());
    }
    map
}

} // verus!
