//! Source text with a map from line/column positions to character offsets.
use vstd::prelude::*;

use crate::text::{chars_of, is_blank, occurs_at, range_is_blank, string_from_range};

verus! {

/// A line/column position: `line` counts from 1, `column` from 0.
#[derive(Clone, Copy, Debug, PartialEq, Eq)]
pub struct Position {
    pub line: usize,
    pub column: usize,
}

/// Offsets at which the lines of `text` start: 0, then one past every newline.
pub open spec fn line_starts_of(text: Seq<char>) -> Seq<int>
    decreases text.len(),
{
    if text.len() == 0 {
        seq![0]
    } else if text.last() == '\n' {
        line_starts_of(text.drop_last()).push(text.len() as int)
    } else {
        line_starts_of(text.drop_last())
    }
}

/// The offset at which the line holding `offset` starts.
pub open spec fn line_start_before(text: Seq<char>, offset: int) -> int
    decreases offset,
{
    if offset <= 0 {
        0
    } else if text[offset - 1] == '\n' {
        offset
    } else {
        line_start_before(text, offset - 1)
    }
}

/// The number of lines that `str::lines` yields: a final empty line after the last
/// newline is not one of them.
pub open spec fn line_count(text: Seq<char>) -> int {
    let starts = line_starts_of(text);
    if starts.last() == text.len() {
        starts.len() - 1
    } else {
        starts.len() as int
    }
}

/// Line `k` (from 0) without its newline; a trailing `\r` stays, which is whitespace.
pub open spec fn line_text(text: Seq<char>, k: int) -> Seq<char> {
    let starts = line_starts_of(text);
    let end = if k + 1 < starts.len() {
        starts[k + 1] - 1
    } else {
        text.len() as int
    };
    text.subrange(starts[k], end)
}

/// `text.lines().nth(k)` exists and is blank once trimmed.
pub open spec fn line_is_blank(text: Seq<char>, k: int) -> bool {
    0 <= k < line_count(text) && is_blank(line_text(text, k))
}

/// How many bytes UTF-8 takes for a character.
pub open spec fn utf8_width(c: char) -> int {
    if (c as u32) < 0x80 {
        1
    } else if (c as u32) < 0x800 {
        2
    } else if (c as u32) < 0x10000 {
        3
    } else {
        4
    }
}

/// How many bytes UTF-8 takes for the characters.
pub open spec fn utf8_len(chars: Seq<char>) -> int
    decreases chars.len(),
{
    if chars.len() == 0 {
        0
    } else {
        utf8_len(chars.drop_last()) + utf8_width(chars.last())
    }
}

/// Whether `column` bytes of UTF-8 from the line start `start` end just before the
/// character at `offset`.
pub open spec fn ends_column(text: Seq<char>, start: int, column: int, offset: int) -> bool {
    start <= offset <= text.len() && utf8_len(text.subrange(start, offset)) == column
}

/// The offset of a position. The column is added, as a number of bytes, to where its
/// line starts, and the offset is the character at which that byte offset falls; there
/// is none where the line does not exist or no character starts at that byte within the
/// text.
pub open spec fn offset_of(text: Seq<char>, position: Position) -> Option<int> {
    let starts = line_starts_of(text);
    if position.line < 1 || position.line > starts.len() {
        None
    } else {
        let start = starts[position.line - 1];
        if exists|offset: int| ends_column(text, start, position.column as int, offset) {
            Some(choose|offset: int| ends_column(text, start, position.column as int, offset))
        } else {
            None
        }
    }
}

/// Each character takes at least one byte, so more characters from one start take
/// more bytes.
pub proof fn lemma_utf8_len_grows(text: Seq<char>, start: int, a: int, b: int)
    requires
        0 <= start <= a <= b <= text.len(),
    ensures
        utf8_len(text.subrange(start, a)) + (b - a) <= utf8_len(text.subrange(start, b)),
        a < b ==> utf8_len(text.subrange(start, a + 1)) == utf8_len(text.subrange(start, a)) + utf8_width(
            text[a],
        ),
    decreases b - a,
{
    if a < b {
        assert(text.subrange(start, a + 1).drop_last() =~= text.subrange(start, a));
        assert(text.subrange(start, b).drop_last() =~= text.subrange(start, b - 1));
        lemma_utf8_len_grows(text, start, a, b - 1);
    }
}

/// The width of a character in UTF-8.
fn utf8_width_of(c: char) -> (width: usize)
    ensures
        width == utf8_width(c),
{
    let code: u32 = c as u32;
    if code < 0x80 {
        1
    } else if code < 0x800 {
        2
    } else if code < 0x10000 {
        3
    } else {
        4
    }
}

/// The text uses `\r\n` line endings when it holds one anywhere.
pub open spec fn uses_crlf(text: Seq<char>) -> bool {
    exists|at: int| occurs_at(text, seq!['\r', '\n'], at)
}

/// The newline the text uses: `\r\n` where it holds one, else `\n`.
pub open spec fn newline_of(text: Seq<char>) -> Seq<char> {
    if uses_crlf(text) {
        seq!['\r', '\n']
    } else {
        seq!['\n']
    }
}

/// Facts about the line starts that follow from their definition.
pub proof fn lemma_line_starts(text: Seq<char>)
    ensures
        line_starts_of(text).len() >= 1,
        line_starts_of(text)[0] == 0,
        forall|i: int, j: int|
            0 <= i < j < line_starts_of(text).len() ==> line_starts_of(text)[i] < line_starts_of(
                text,
            )[j],
        forall|i: int|
            0 <= i < line_starts_of(text).len() ==> 0 <= #[trigger] line_starts_of(text)[i]
                <= text.len(),
        forall|i: int|
            0 < i < line_starts_of(text).len() ==> text[#[trigger] line_starts_of(text)[i] - 1]
                == '\n',
        forall|q: int|
            0 <= q < text.len() && text[q] == '\n' ==> line_starts_of(text).contains(q + 1),
    decreases text.len(),
{
    if text.len() > 0 {
        let prefix = text.drop_last();
        lemma_line_starts(prefix);
        let p = line_starts_of(prefix);
        assert forall|i: int| 0 < i < p.len() implies text[#[trigger] p[i] - 1] == '\n' by {
            assert(prefix[p[i] - 1] == '\n');
        }
        assert forall|q: int| 0 <= q < text.len() && text[q] == '\n' implies line_starts_of(
            text,
        ).contains(q + 1) by {
            if q < text.len() - 1 {
                assert(prefix[q] == '\n');
                let w = choose|w: int| 0 <= w < p.len() && p[w] == q + 1;
                if text.last() == '\n' {
                    assert(line_starts_of(text)[w] == q + 1);
                }
            } else {
                assert(line_starts_of(text).last() == q + 1);
            }
        }
    }
}

/// The greatest line start at or before `offset` is where its line starts.
pub proof fn lemma_line_start_before(text: Seq<char>, offset: int, start: int)
    requires
        0 <= start <= offset <= text.len(),
        start == 0 || text[start - 1] == '\n',
        forall|q: int| start <= q < offset ==> text[q] != '\n',
    ensures
        line_start_before(text, offset) == start,
    decreases offset - start,
{
    if offset > start {
        lemma_line_start_before(text, offset - 1, start);
    }
}

/// Character offsets at which lines start.
pub struct SourceMap {
    pub line_starts: Vec<usize>,
}

impl SourceMap {
    pub open spec fn describes(&self, text: Seq<char>) -> bool {
        &&& self.line_starts@.len() == line_starts_of(text).len()
        &&& forall|i: int|
            0 <= i < self.line_starts@.len() ==> self.line_starts@[i] as int == line_starts_of(
                text,
            )[i]
    }

    /// Records 0 and the offset after every newline.
    pub fn new(source: &Vec<char>) -> (map: Self)
        ensures
            map.describes(source@),
    {
        let mut line_starts: Vec<usize> = Vec::new();
        line_starts.push(0);
        let mut index: usize = 0;
        assert(source@.take(0) =~= Seq::<char>::empty());
        while index < source.len()
            invariant
                0 <= index <= source@.len(),
                line_starts@.len() == line_starts_of(source@.take(index as int)).len(),
                forall|i: int|
                    0 <= i < line_starts@.len() ==> line_starts@[i] as int == line_starts_of(
                        source@.take(index as int),
                    )[i],
            decreases source@.len() - index,
        {
            assert(source@.take(index + 1).drop_last() =~= source@.take(index as int));
            if source[index] == '\n' {
                line_starts.push(index + 1);
            }
            index = index + 1;
        }
        assert(source@.take(index as int) =~= source@);
        SourceMap { line_starts }
    }

    /// The character offset of a position: where `column` bytes of the line's text
    /// end, if its line exists and a character starts there.
    pub fn offset(&self, source: &Vec<char>, location: Position) -> (offset: Option<usize>)
        requires
            self.describes(source@),
        ensures
            match offset {
                Some(o) => offset_of(source@, location) == Some(o as int),
                None => offset_of(source@, location) is None,
            },
    {
        proof {
            lemma_line_starts(source@);
        }
        if location.line < 1 || location.line > self.line_starts.len() {
            return None;
        }
        let start = self.line_starts[location.line - 1];
        let ghost text = source@;
        assert(start as int == line_starts_of(text)[location.line - 1]);
        let ghost column = location.column as int;
        let mut end = start;
        let mut bytes: usize = 0;
        assert(text.subrange(start as int, start as int) =~= Seq::<char>::empty());
        while end < source.len() && bytes < location.column
            invariant
                start <= end <= text.len(),
                text == source@,
                column == location.column as int,
                start as int == line_starts_of(text)[location.line - 1],
                bytes <= location.column,
                bytes as int == utf8_len(text.subrange(start as int, end as int)),
            decreases text.len() - end,
        {
            proof {
                lemma_utf8_len_grows(text, start as int, end as int, end + 1);
            }
            let width = utf8_width_of(source[end]);
            if width > location.column - bytes {
                proof {
                    assert(width as int == utf8_width(text[end as int]));
                    assert(utf8_len(text.subrange(start as int, end + 1)) == bytes + width);
                    assert(bytes + width > column);
                    assert forall|o: int| !ends_column(text, start as int, column, o) by {
                        if start <= o <= text.len() {
                            if o <= end {
                                lemma_utf8_len_grows(text, start as int, o, end as int);
                            } else {
                                lemma_utf8_len_grows(text, start as int, end + 1, o);
                            }
                        }
                    }
                }
                return None;
            }
            bytes = bytes + width;
            end = end + 1;
        }
        proof {
            assert forall|o: int| ends_column(text, start as int, column, o) implies o == end by {
                if o < end {
                    lemma_utf8_len_grows(text, start as int, o + 1, end as int);
                    lemma_utf8_len_grows(text, start as int, o, o + 1);
                } else if o > end {
                    lemma_utf8_len_grows(text, start as int, end + 1, o);
                    lemma_utf8_len_grows(text, start as int, end as int, end + 1);
                }
            }
        }
        if bytes == location.column {
            assert(ends_column(text, start as int, column, end as int));
            Some(end)
        } else {
            proof {
                assert forall|o: int| !ends_column(text, start as int, column, o) by {
                    if start <= o <= end {
                        lemma_utf8_len_grows(text, start as int, o, end as int);
                    }
                }
            }
            None
        }
    }

    /// The text from the start of the line that holds `offset` up to `offset`.
    pub fn indentation(&self, source: &Vec<char>, offset: usize) -> (indentation: String)
        requires
            self.describes(source@),
            offset <= source@.len(),
        ensures
            indentation@ == source@.subrange(line_start_before(source@, offset as int), offset as int),
    {
        proof {
            lemma_line_starts(source@);
        }
        let ghost starts = line_starts_of(source@);
        let mut line_index: usize = 0;
        while line_index < self.line_starts.len() - 1 && self.line_starts[line_index + 1] <= offset
            invariant
                self.describes(source@),
                starts == line_starts_of(source@),
                0 <= line_index < self.line_starts@.len(),
                self.line_starts@[line_index as int] <= offset,
            decreases self.line_starts@.len() - line_index,
        {
            line_index = line_index + 1;
        }
        let start = self.line_starts[line_index];
        proof {
            assert(starts[line_index as int] == start as int);
            assert forall|q: int| start <= q < offset implies source@[q] != '\n' by {
                if source@[q] == '\n' {
                    let w = choose|w: int| 0 <= w < starts.len() && starts[w] == q + 1;
                    if w <= line_index {
                        assert(starts[w] <= starts[line_index as int]);
                    } else if w == line_index + 1 {
                    } else {
                        assert(starts[line_index + 1] < starts[w]);
                    }
                }
            }
            lemma_line_start_before(source@, offset as int, start as int);
        }
        string_from_range(source, start, offset)
    }
}

/// Source text with its line map and newline style.
pub struct Source {
    text: Vec<char>,
    map: SourceMap,
    crlf: bool,
}

/// Whether `text` holds `\r\n`.
fn contains_crlf(text: &Vec<char>) -> (result: bool)
    ensures
        result == uses_crlf(text@),
{
    let mut i: usize = 0;
    while i < text.len()
        invariant
            forall|at: int| 0 <= at < i ==> !occurs_at(text@, seq!['\r', '\n'], at),
        decreases text@.len() - i,
    {
        if i + 1 < text.len() && text[i] == '\r' && text[i + 1] == '\n' {
            assert(text@.subrange(i as int, i + 2) =~= seq!['\r', '\n']);
            assert(occurs_at(text@, seq!['\r', '\n'], i as int));
            return true;
        }
        proof {
            if occurs_at(text@, seq!['\r', '\n'], i as int) {
                assert(text@.subrange(i as int, i + 2)[0] == text@[i as int]);
                assert(text@.subrange(i as int, i + 2)[1] == text@[i + 1]);
            }
        }
        i = i + 1;
    }
    assert forall|at: int| !occurs_at(text@, seq!['\r', '\n'], at) by {}
    false
}

impl Source {
    pub closed spec fn wf(&self) -> bool {
        &&& self.map.describes(self.text@)
        &&& self.crlf == uses_crlf(self.text@)
    }

    /// The characters of the text.
    pub closed spec fn chars(&self) -> Seq<char> {
        self.text@
    }

    pub fn new(text: &str) -> (source: Self)
        ensures
            source.wf(),
            source.chars() == text@,
    {
        let chars = chars_of(text);
        let map = SourceMap::new(&chars);
        let crlf = contains_crlf(&chars);
        Source { text: chars, map, crlf }
    }

    pub fn text(&self) -> (text: &Vec<char>)
        ensures
            text@ == self.chars(),
    {
        &self.text
    }

    /// The character offset of a position.
    pub fn offset(&self, location: Position) -> (offset: Option<usize>)
        requires
            self.wf(),
        ensures
            match offset {
                Some(o) => offset_of(self.chars(), location) == Some(o as int),
                None => offset_of(self.chars(), location) is None,
            },
    {
        self.map.offset(&self.text, location)
    }

    /// The offsets of two positions, when both exist and are in order within the text.
    pub fn range_between(&self, start: Position, end: Position) -> (range: Option<(usize, usize)>)
        requires
            self.wf(),
        ensures
            match range {
                Some((s, e)) => {
                    &&& offset_of(self.chars(), start) == Some(s as int)
                    &&& offset_of(self.chars(), end) == Some(e as int)
                    &&& s <= e <= self.chars().len()
                },
                None => !(offset_of(self.chars(), start) is Some && offset_of(self.chars(), end) is Some
                    && offset_of(self.chars(), start).unwrap() <= offset_of(self.chars(), end).unwrap()
                    <= self.chars().len()),
            },
    {
        let s = match self.offset(start) {
            Some(s) => s,
            None => return None,
        };
        let e = match self.offset(end) {
            Some(e) => e,
            None => return None,
        };
        if s <= e && e <= self.text.len() {
            Some((s, e))
        } else {
            None
        }
    }

    /// The text between two positions.
    pub fn text_between(&self, start: Position, end: Position) -> (between: Option<String>)
        requires
            self.wf(),
        ensures
            match between {
                Some(t) => {
                    &&& offset_of(self.chars(), start) is Some
                    &&& offset_of(self.chars(), end) is Some
                    &&& t@ == self.chars().subrange(
                        offset_of(self.chars(), start).unwrap(),
                        offset_of(self.chars(), end).unwrap(),
                    )
                },
                None => !(offset_of(self.chars(), start) is Some && offset_of(self.chars(), end) is Some
                    && offset_of(self.chars(), start).unwrap() <= offset_of(self.chars(), end).unwrap()
                    <= self.chars().len()),
            },
    {
        match self.range_between(start, end) {
            Some((s, e)) => Some(string_from_range(&self.text, s, e)),
            None => None,
        }
    }

    /// The text from the start of the line holding `offset` up to `offset`.
    pub fn indentation_at(&self, offset: usize) -> (indentation: String)
        requires
            self.wf(),
            offset <= self.chars().len(),
        ensures
            indentation@ == self.chars().subrange(
                line_start_before(self.chars(), offset as int),
                offset as int,
            ),
    {
        self.map.indentation(&self.text, offset)
    }

    /// The newline style of the text: `\r\n` where it holds one, else `\n`.
    pub fn newline(&self) -> (newline: &'static str)
        requires
            self.wf(),
        ensures
            newline@ == newline_of(self.chars()),
    {
        if self.crlf {
            proof {
                reveal_strlit("\r\n");
            }
            "\r\n"
        } else {
            proof {
                reveal_strlit("\n");
            }
            "\n"
        }
    }

    /// `text.lines()` holds a blank line among lines `first_line .. before_line` (both
    /// counted from 0).
    pub fn has_blank_line_in(&self, first_line: usize, before_line: usize) -> (result: bool)
        requires
            self.wf(),
        ensures
            result == exists|k: int|
                first_line <= k < before_line && line_is_blank(self.chars(), k),
    {
        proof {
            lemma_line_starts(self.text@);
        }
        let mut k: usize = first_line;
        while k < before_line
            invariant
                self.wf(),
                first_line <= k,
                forall|j: int| first_line <= j < k ==> !line_is_blank(self.chars(), j),
            decreases before_line - k,
        {
            if self.line_is_blank(k) {
                return true;
            }
            k = k + 1;
        }
        false
    }

    /// Whether line `k` (from 0) is one that `lines()` yields and is blank.
    pub fn line_is_blank(&self, k: usize) -> (result: bool)
        requires
            self.wf(),
        ensures
            result == line_is_blank(self.chars(), k as int),
    {
        proof {
            lemma_line_starts(self.text@);
        }
        let n = self.map.line_starts.len();
        let last = self.map.line_starts[n - 1];
        let count = if last == self.text.len() {
            n - 1
        } else {
            n
        };
        if k >= count {
            return false;
        }
        let start = self.map.line_starts[k];
        proof {
            let starts = line_starts_of(self.text@);
            if k + 1 < n {
                assert(starts[k as int] < starts[k + 1]);
            }
        }
        let end = if k + 1 < n {
            self.map.line_starts[k + 1] - 1
        } else {
            self.text.len()
        };
        range_is_blank(&self.text, start, end)
    }
}

} // verus!
