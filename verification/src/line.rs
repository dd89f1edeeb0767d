//! The line parser: what one line of a configuration file means.

use crate::text::{
    all_space, collect, find, find_in, is_space, is_whitespace, lemma_find_at, lemma_find_first,
    lemma_trim_all_space, lemma_trim_start_shape, to_chars, trim, trim_range, trim_start,
};
use vstd::prelude::*;

verus! {

/// One line of a configuration file, classified.
#[derive(Debug, Clone, PartialEq, Eq)]
pub enum Line {
    /// Nothing but whitespace and, possibly, a comment.
    Blank,
    /// `[name]`: the section that the following assignments belong to.
    Section(String),
    /// `key = value`.
    Pair(String, String),
    /// Anything else. Such a line is passed over.
    Unrecognized,
}

/// The mathematical value of a `Line`.
pub enum LineView {
    Blank,
    Section(Seq<char>),
    Pair(Seq<char>, Seq<char>),
    Unrecognized,
}

impl View for Line {
    type V = LineView;

    open spec fn view(&self) -> LineView {
        match self {
            Line::Blank => LineView::Blank,
            Line::Section(name) => LineView::Section(name@),
            Line::Pair(key, value) => LineView::Pair(key@, value@),
            Line::Unrecognized => LineView::Unrecognized,
        }
    }
}

/// What a line says once its comment is cut off: the text before the first
/// `;`, trimmed.
pub open spec fn content(line: Seq<char>) -> Seq<char> {
    trim(line.take(find(line, ';')))
}

/// The classification of a line.
///
/// A line without content is blank. Content that starts with `[` and ends
/// with `]` is a section header, whose name is what stands between the two,
/// untrimmed and possibly empty; this holds even where the content has a
/// `=` in it. Other content is split at its first `=` into a key and a
/// value, both trimmed, and is unrecognized if it has no `=`.
pub open spec fn classify(line: Seq<char>) -> LineView {
    let text = content(line);
    if text.len() == 0 {
        LineView::Blank
    } else if text.first() == '[' && text.last() == ']' {
        LineView::Section(text.subrange(1, text.len() - 1))
    } else {
        let eq = find(text, '=');
        if eq == text.len() {
            LineView::Unrecognized
        } else {
            LineView::Pair(trim(text.take(eq)), trim(text.skip(eq + 1)))
        }
    }
}

/// A line of whitespace alone is blank.
pub proof fn lemma_whitespace_line_is_blank(line: Seq<char>)
    requires
        all_space(line),
    ensures
        classify(line) == LineView::Blank,
{
    let cut = find(line, ';');
    lemma_find_first(line, ';');
    let kept = line.take(cut);
    assert forall|i: int| 0 <= i < kept.len() implies is_space(#[trigger] kept[i]) by {
        assert(kept[i] == line[i]);
    }
    lemma_trim_all_space(kept);
}

/// A line whose first character after any leading whitespace is `;` is
/// blank: all of it is comment.
pub proof fn lemma_comment_line_is_blank(line: Seq<char>)
    requires
        trim_start(line).len() > 0,
        trim_start(line).first() == ';',
    ensures
        classify(line) == LineView::Blank,
{
    lemma_trim_start_shape(line);
    let k = line.len() - trim_start(line).len();
    assert(line[k] == trim_start(line).first());
    assert forall|j: int| 0 <= j < k implies line[j] != ';' by {
        assert(is_space(line[j]));
    }
    lemma_find_at(line, ';', k);
    let kept = line.take(k);
    assert forall|i: int| 0 <= i < kept.len() implies is_space(#[trigger] kept[i]) by {
        assert(kept[i] == line[i]);
    }
    lemma_trim_all_space(kept);
}

/// Content in brackets is a section header whether or not it holds a `=`.
pub proof fn lemma_header_before_assignment(line: Seq<char>)
    requires
        content(line).len() > 0,
        content(line).first() == '[',
        content(line).last() == ']',
    ensures
        classify(line) == LineView::Section(
            content(line).subrange(1, content(line).len() - 1),
        ),
        content(line).len() >= 2,
{
}

/// Classifies one line of text.
pub fn parse_line(line: &str) -> (parsed: Line)
    ensures
        parsed@ == classify(line@),
{
    if is_whitespace(line) {
        proof {
            lemma_whitespace_line_is_blank(line@);
        }
        return Line::Blank;
    }
    let chars = to_chars(line);
    let cut = find_in(&chars, 0, chars.len(), ';');
    let (lo, hi) = trim_range(&chars, 0, cut);
    proof {
        assert(chars@.subrange(0, chars@.len() as int) =~= line@);
        assert(chars@.subrange(0, cut as int) =~= line@.take(cut as int));
        assert(content(line@) == chars@.subrange(lo as int, hi as int));
    }
    if lo == hi {
        return Line::Blank;
    }
    let ghost text = chars@.subrange(lo as int, hi as int);
    if chars[lo] == '[' && chars[hi - 1] == ']' {
        proof {
            assert(text.first() == chars@[lo as int]);
            assert(text.last() == chars@[hi - 1]);
            assert(text.subrange(1, text.len() - 1) =~= chars@.subrange(lo + 1, hi - 1));
        }
        return Line::Section(collect(&chars, lo + 1, hi - 1));
    }
    proof {
        assert(text.first() == chars@[lo as int]);
        assert(text.last() == chars@[hi - 1]);
    }
    let eq = find_in(&chars, lo, hi, '=');
    if eq == hi {
        return Line::Unrecognized;
    }
    let (key_lo, key_hi) = trim_range(&chars, lo, eq);
    let (value_lo, value_hi) = trim_range(&chars, eq + 1, hi);
    proof {
        assert(text.take(eq - lo) =~= chars@.subrange(lo as int, eq as int));
        assert(text.skip(eq - lo + 1) =~= chars@.subrange(eq + 1, hi as int));
    }
    Line::Pair(collect(&chars, key_lo, key_hi), collect(&chars, value_lo, value_hi))
}

} // verus!
