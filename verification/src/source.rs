//! Source files of a feature compilation, and positions in them.
//!
//! A source keeps the offsets at which its lines start, so that a byte offset
//! can be turned into a line and a column. A source map leads from positions
//! in a text that was put together from several files back to the files.

use std::ops::Range;
use vstd::prelude::*;
use vstd::string::StringSliceAdditionalSpecFns;
use vstd::utf8::{
    encode_utf8, is_char_boundary, is_continuation_byte, length_of_first_scalar, valid_utf8,
};

verus! {

broadcast use {
    vstd::utf8::encode_utf8_valid_utf8,
    vstd::utf8::is_char_boundary_start_end_of_seq,
    vstd::utf8::is_char_boundary_iff_not_is_continuation_byte,
};

/// The byte that ends a line.
pub const NEWLINE: u8 = 10;

/// Uniquely identifies a source file.
#[derive(Clone, Copy, Debug, PartialEq, Eq, Hash, PartialOrd, Ord, Structural)]
pub struct FileId(u32);

/// The number of the first id that a new counter hands out. The numbers
/// below it are reserved.
pub const FIRST_FILE_NUMBER: u32 = 2;

/// Hands out file ids, each with the next number. After the largest number
/// the supply has ended.
pub struct FileIdCounter {
    next: u32,
}

impl FileIdCounter {
    #[verifier::type_invariant]
    spec fn never_reserved(self) -> bool {
        self.next == 0 || self.next >= FIRST_FILE_NUMBER
    }

    /// The number of the id that comes next; zero once the supply has ended.
    pub closed spec fn upcoming(&self) -> u32 {
        self.next
    }

    /// A counter that starts with the first number that is not reserved.
    pub fn new() -> (counter: FileIdCounter)
        ensures
            counter.upcoming() == FIRST_FILE_NUMBER,
    {
        FileIdCounter { next: FIRST_FILE_NUMBER }
    }

    /// A counter that starts with the given number.
    pub fn starting_at(number: u32) -> (counter: FileIdCounter)
        requires
            number >= FIRST_FILE_NUMBER,
        ensures
            counter.upcoming() == number,
    {
        FileIdCounter { next: number }
    }

    /// Whether the supply has ended.
    pub fn is_exhausted(&self) -> (exhausted: bool)
        ensures
            exhausted == (self.upcoming() == 0),
    {
        self.next == 0
    }
}

impl FileId {
    /// The number that stands behind this id.
    pub closed spec fn number(self) -> u32 {
        self.0
    }

    /// A reserved id for the file that is being parsed.
    pub fn current_file() -> (id: FileId)
        ensures
            id.number() == 1,
    {
        FileId(1)
    }

    /// The next id of `counter`. It is none of the reserved ids, and its
    /// number is above those of all ids that the counter handed out before.
    pub fn next(counter: &mut FileIdCounter) -> (id: FileId)
        requires
            old(counter).upcoming() != 0,
        ensures
            id.number() == old(counter).upcoming(),
            id.number() >= FIRST_FILE_NUMBER,
            final(counter).upcoming() == (if id.number() == u32::MAX {
                0
            } else {
                id.number() + 1
            }),
    {
        proof {
            use_type_invariant(&*counter);
        }
        let number: u32 = counter.next;
        counter.next = if number == u32::MAX {
            0
        } else {
            number + 1
        };
        FileId(number)
    }

    /// The number of this id.
    pub fn to_u32(self) -> (number: u32)
        ensures
            number == self.number(),
    {
        self.0
    }
}

/// Whether a line starts at `pos`: at the start of the text and behind each
/// newline, be it the last byte.
pub open spec fn is_line_start(text: Seq<u8>, pos: int) -> bool {
    pos == 0 || (0 < pos <= text.len() && text[pos - 1] == NEWLINE)
}

/// Whether `offsets` are the line starts of `text`, all of them, in rising order.
pub open spec fn are_line_starts(text: Seq<u8>, offsets: Seq<usize>) -> bool {
    &&& forall|i: int, j: int|
        0 <= i < j < offsets.len() ==> (#[trigger] offsets[i]) < (#[trigger] offsets[j])
    &&& forall|i: int|
        0 <= i < offsets.len() ==> is_line_start(text, (#[trigger] offsets[i]) as int)
    &&& forall|pos: int|
        is_line_start(text, pos) ==> exists|i: int|
            0 <= i < offsets.len() && #[trigger] offsets[i] == pos
}

/// Whether `offset` lies in the line with index `line`, counted from zero:
/// at or behind its start and before the start of the next line, if there is one.
pub open spec fn is_line_of(offsets: Seq<usize>, offset: int, line: int) -> bool {
    &&& 0 <= line < offsets.len()
    &&& offsets[line] <= offset
    &&& line + 1 < offsets.len() ==> offset < offsets[line + 1]
}

/// The offset of the start of each line of `text`.
pub fn line_offsets(text: &str) -> (offsets: Vec<usize>)
    ensures
        are_line_starts(text.spec_bytes(), offsets@),
{
    let bytes = text.as_bytes();
    let mut result: Vec<usize> = Vec::new();
    result.push(0);
    let mut i: usize = 0;
    proof {
        assert(result[0] == 0);
    }
    while i < bytes.len()
        invariant
            i <= bytes.len(),
            bytes@ == text.spec_bytes(),
            result.len() >= 1,
            forall|a: int, b: int|
                0 <= a < b < result.len() ==> (#[trigger] result[a]) < (#[trigger] result[b]),
            forall|a: int|
                0 <= a < result.len() ==> is_line_start(bytes@, (#[trigger] result[a]) as int)
                    && result[a] <= i,
            forall|pos: int|
                is_line_start(bytes@, pos) && pos <= i ==> exists|a: int|
                    0 <= a < result.len() && #[trigger] result[a] == pos,
        decreases bytes.len() - i,
    {
        let ghost before = result@;
        if bytes[i] == NEWLINE {
            result.push(i + 1);
            proof {
                assert(result[before.len() as int] == i + 1);
            }
        }
        proof {
            assert forall|pos: int| is_line_start(bytes@, pos) && pos <= i + 1 implies exists|
                a: int,
            |
                0 <= a < result.len() && #[trigger] result[a] == pos by {
                if pos <= i {
                    let a = choose|a: int| 0 <= a < before.len() && #[trigger] before[a] == pos;
                    assert(result[a] == before[a]);
                } else {
                    assert(result[before.len() as int] == pos);
                }
            }
        }
        i = i + 1;
    }
    result
}

/// The index of the line that `offset` lies in.
fn find_line(offsets: &Vec<usize>, offset: usize) -> (line: usize)
    requires
        offsets.len() >= 1,
        offsets[0] == 0,
        forall|i: int, j: int|
            0 <= i < j < offsets.len() ==> (#[trigger] offsets[i]) < (#[trigger] offsets[j]),
    ensures
        is_line_of(offsets@, offset as int, line as int),
{
    let mut lo: usize = 0;
    let mut hi: usize = offsets.len();
    while hi - lo > 1
        invariant
            lo < hi <= offsets.len(),
            offsets[lo as int] <= offset,
            hi < offsets.len() ==> offset < offsets[hi as int],
            forall|i: int, j: int|
                0 <= i < j < offsets.len() ==> (#[trigger] offsets[i]) < (#[trigger] offsets[j]),
        decreases hi - lo,
    {
        let mid: usize = lo + (hi - lo) / 2;
        if offsets[mid] <= offset {
            lo = mid;
        } else {
            hi = mid;
        }
    }
    lo
}

/// The part of `text` from `start` to `end`, where a line starts at `start`
/// and `end` is the end of the text or the place of a newline.
fn line_slice<'a>(text: &'a str, start: usize, end: usize) -> (line: &'a str)
    requires
        start <= end <= text.spec_bytes().len(),
        is_line_start(text.spec_bytes(), start as int),
        end == text.spec_bytes().len() || text.spec_bytes()[end as int] == NEWLINE,
    ensures
        line.spec_bytes() == text.spec_bytes().subrange(start as int, end as int),
{
    proof {
        lemma_newline_starts_a_char();
        let bytes = text.spec_bytes();
        assert(valid_utf8(bytes));
        if end < bytes.len() {
            assert(!is_continuation_byte(bytes[end as int]));
        }
        assert(is_char_boundary(bytes, end as int));
    }
    let (head, _) = text.split_at(end);
    if start == 0 {
        proof {
            assert(head.spec_bytes() == text.spec_bytes().subrange(0, end as int));
        }
        head
    } else {
        proof {
            let bytes = head.spec_bytes();
            assert(valid_utf8(bytes));
            assert(bytes[start - 1] == text.spec_bytes()[start - 1]);
            assert(!is_continuation_byte(bytes[start - 1]));
            assert(is_char_boundary(bytes, start - 1));
        }
        let (_, tail) = head.split_at(start - 1);
        proof {
            let bytes = tail.spec_bytes();
            assert(bytes[0] == NEWLINE);
            assert(valid_utf8(bytes));
            if bytes.len() > 1 {
                reveal_with_fuel(is_char_boundary, 2);
                reveal_with_fuel(valid_utf8, 2);
                assert(length_of_first_scalar(bytes) == 1);
                assert(is_char_boundary(bytes, 1));
            }
        }
        let (_, line) = tail.split_at(1);
        proof {
            assert(line.spec_bytes() =~= text.spec_bytes().subrange(start as int, end as int));
        }
        line
    }
}

/// A newline is never in the middle of a character.
proof fn lemma_newline_starts_a_char()
    ensures
        !is_continuation_byte(NEWLINE),
        vstd::utf8::is_leading_byte_width_1(NEWLINE),
{
    assert(10u8 & 0xC0 != 0x80) by (bit_vector);
    assert(10u8 & 0x80 == 0) by (bit_vector);
}

/// A single source file: its text, and where its lines start.
#[derive(Debug)]
pub struct Source {
    id: FileId,
    contents: String,
    line_offsets: Vec<usize>,
}

impl Source {
    #[verifier::type_invariant]
    spec fn line_offsets_fit(self) -> bool {
        are_line_starts(encode_utf8(self.contents@), self.line_offsets@)
    }

    /// The text of this source.
    pub closed spec fn contents(&self) -> Seq<char> {
        self.contents@
    }

    /// The text of this source, as the bytes that offsets count.
    pub open spec fn bytes(&self) -> Seq<u8> {
        encode_utf8(self.contents())
    }

    /// The offsets at which the lines of this source start.
    pub closed spec fn line_starts(&self) -> Seq<usize> {
        self.line_offsets@
    }

    /// The id that this source was made with.
    pub closed spec fn file_id(&self) -> FileId {
        self.id
    }

    /// A source with the given text and the next id of `counter`.
    pub fn new(contents: String, counter: &mut FileIdCounter) -> (source: Source)
        requires
            old(counter).upcoming() != 0,
        ensures
            source.file_id().number() == old(counter).upcoming(),
            source.file_id().number() >= FIRST_FILE_NUMBER,
            final(counter).upcoming() == (if old(counter).upcoming() == u32::MAX {
                0
            } else {
                old(counter).upcoming() + 1
            }),
            source.contents() == contents@,
            are_line_starts(source.bytes(), source.line_starts()),
    {
        let line_offsets = line_offsets(contents.as_str());
        Source { id: FileId::next(counter), contents, line_offsets }
    }

    /// The raw text for this source.
    pub fn text(&self) -> (text: &str)
        ensures
            text@ == self.contents(),
    {
        self.contents.as_str()
    }

    /// The [`FileId`] for this source.
    pub fn id(&self) -> (id: FileId)
        ensures
            id == self.file_id(),
    {
        self.id
    }

    /// The line and the column of a byte offset: the line counted from one,
    /// the column from zero, in bytes. An offset behind the text counts as
    /// part of the last line.
    pub fn line_col_for_offset(&self, offset: usize) -> (line_col: (usize, usize))
        ensures
            are_line_starts(self.bytes(), self.line_starts()),
            is_line_of(self.line_starts(), offset as int, line_col.0 - 1),
            line_col.1 == offset - self.line_starts()[line_col.0 - 1],
    {
        proof {
            use_type_invariant(self);
            lemma_first_line_starts_at_zero(self.bytes(), self.line_starts());
        }
        let num_lines: usize = self.line_offsets.len();
        let offset_idx = find_line(&self.line_offsets, offset);
        assert(offset_idx < num_lines);
        let offset_of_line: usize = self.line_offsets[offset_idx];
        let offset_in_line: usize = offset - offset_of_line;
        (offset_idx + 1, offset_in_line)
    }

    /// The number of the line that holds a byte offset, counted from one, and
    /// the text of that line without the newline that ends it.
    pub fn line_containing_offset(&self, offset: usize) -> (line: (usize, &str))
        ensures
            are_line_starts(self.bytes(), self.line_starts()),
            is_line_of(self.line_starts(), offset as int, line.0 - 1),
            is_line_text(self.bytes(), self.line_starts(), line.0 - 1, line.1.spec_bytes()),
    {
        proof {
            use_type_invariant(self);
            lemma_first_line_starts_at_zero(self.bytes(), self.line_starts());
        }
        let text = self.contents.as_str();
        let bytes = text.as_bytes();
        let num_lines: usize = self.line_offsets.len();
        let offset_idx = find_line(&self.line_offsets, offset);
        assert(offset_idx < num_lines);
        assert(bytes@ == self.bytes());
        proof {
            lemma_line_has_one_newline(self.bytes(), self.line_starts(), offset_idx as int);
        }
        let start_offset: usize = self.line_offsets[offset_idx];
        let end_offset: usize = if offset_idx + 1 < num_lines {
            self.line_offsets[offset_idx + 1]
        } else {
            bytes.len()
        };
        assert(end_offset == line_end(self.bytes(), self.line_starts(), offset_idx as int));
        let text_end: usize = if end_offset > start_offset && bytes[end_offset - 1] == NEWLINE {
            end_offset - 1
        } else {
            end_offset
        };
        (offset_idx + 1, line_slice(text, start_offset, text_end))
    }

    /// The offset of the start of a line, which is given by its number,
    /// counted from one.
    pub fn offset_for_line_number(&self, line_number: usize) -> (offset: usize)
        requires
            1 <= line_number <= self.line_starts().len(),
        ensures
            offset == self.line_starts()[line_number - 1],
    {
        self.line_offsets[line_number - 1]
    }
}

/// Where the line with index `line` ends: at the start of the next line, or
/// with the text.
pub open spec fn line_end(text: Seq<u8>, offsets: Seq<usize>, line: int) -> int {
    if line + 1 < offsets.len() {
        offsets[line + 1] as int
    } else {
        text.len() as int
    }
}

/// Whether `line_text` is the line with index `line` without its newline:
/// the bytes from the start of the line up to the first newline or the end
/// of the text.
pub open spec fn is_line_text(
    text: Seq<u8>,
    offsets: Seq<usize>,
    line: int,
    line_text: Seq<u8>,
) -> bool {
    let start = offsets[line] as int;
    let end = start + line_text.len();
    &&& end <= text.len()
    &&& line_text == text.subrange(start, end)
    &&& forall|i: int| 0 <= i < line_text.len() ==> #[trigger] line_text[i] != NEWLINE
    &&& end == text.len() || text[end] == NEWLINE
}

/// The first line starts at offset zero.
pub proof fn lemma_first_line_starts_at_zero(text: Seq<u8>, offsets: Seq<usize>)
    requires
        are_line_starts(text, offsets),
    ensures
        offsets.len() >= 1,
        offsets[0] == 0,
{
    assert(is_line_start(text, 0));
    let i = choose|i: int| 0 <= i < offsets.len() && #[trigger] offsets[i] == 0;
    if i > 0 {
        assert(offsets[0] < offsets[i]);
    }
}

/// A line holds no newline but, where another line follows, its last byte.
pub proof fn lemma_line_has_one_newline(text: Seq<u8>, offsets: Seq<usize>, line: int)
    requires
        are_line_starts(text, offsets),
        0 <= line < offsets.len(),
    ensures
        offsets[line] <= line_end(text, offsets, line) <= text.len(),
        forall|pos: int|
            offsets[line] <= pos < line_end(text, offsets, line) - 1 ==> #[trigger] text[pos]
                != NEWLINE,
        line + 1 < offsets.len() ==> offsets[line] < offsets[line + 1] && text[offsets[line + 1]
            - 1] == NEWLINE,
        line + 1 == offsets.len() && offsets[line] < text.len() ==> text[text.len() - 1]
            != NEWLINE,
{
    let start = offsets[line] as int;
    let end = line_end(text, offsets, line);
    assert(is_line_start(text, start));
    if line + 1 < offsets.len() {
        assert(is_line_start(text, offsets[line + 1] as int));
        assert(offsets[line] < offsets[line + 1]);
    }
    assert forall|pos: int| start <= pos < text.len() && pos + 1 != end implies !(pos < end
        && #[trigger] text[pos] == NEWLINE) by {
        if pos < end && text[pos] == NEWLINE {
            assert(is_line_start(text, pos + 1));
            let i = choose|i: int| 0 <= i < offsets.len() && #[trigger] offsets[i] == pos + 1;
            if i <= line {
                if i < line {
                    assert(offsets[i] < offsets[line]);
                }
            } else if i > line + 1 {
                assert(offsets[line + 1] < offsets[i]);
            }
        }
    }
    if line + 1 == offsets.len() && start < text.len() {
        if text[text.len() - 1] == NEWLINE {
            assert(is_line_start(text, text.len() as int));
            let i = choose|i: int|
                0 <= i < offsets.len() && #[trigger] offsets[i] == text.len();
            if i < line {
                assert(offsets[i] < offsets[line]);
            }
        }
    }
}

/// One stretch of a combined text, and where it came from.
#[derive(Debug)]
struct MapEntry {
    src: Range<usize>,
    file: FileId,
    offset: usize,
}

/// One stretch of a combined text, as plain mathematics: the positions
/// `start..end` of the combined text are the text of `file` from `offset` on.
pub struct Stretch {
    pub start: int,
    pub end: int,
    pub file: FileId,
    pub offset: int,
}

impl Stretch {
    /// Whether the stretch covers position `pos` of the combined text.
    pub open spec fn contains(self, pos: int) -> bool {
        self.start <= pos < self.end
    }
}

/// A map from positions in a text that was put together from several files to
/// positions in those files.
#[derive(Debug)]
pub struct SourceMap {
    offsets: Vec<MapEntry>,
}

impl Default for SourceMap {
    /// A map without entries.
    fn default() -> (map: SourceMap)
        ensures
            map@ == Seq::<Stretch>::empty(),
    {
        SourceMap::new()
    }
}

/// Whether entry `i` is the first of `stretches` that covers `pos`.
pub open spec fn is_first_covering(stretches: Seq<Stretch>, pos: int, i: int) -> bool {
    &&& 0 <= i < stretches.len()
    &&& stretches[i].contains(pos)
    &&& forall|j: int| 0 <= j < i ==> !(#[trigger] stretches[j]).contains(pos)
}

impl View for SourceMap {
    type V = Seq<Stretch>;

    closed spec fn view(&self) -> Seq<Stretch> {
        Seq::new(
            self.offsets@.len(),
            |i: int|
                Stretch {
                    start: self.offsets@[i].src.start as int,
                    end: self.offsets@[i].src.end as int,
                    file: self.offsets@[i].file,
                    offset: self.offsets@[i].offset as int,
                },
        )
    }
}

impl SourceMap {
    /// A map without entries.
    pub fn new() -> (map: SourceMap)
        ensures
            map@ == Seq::<Stretch>::empty(),
    {
        let map = SourceMap { offsets: Vec::new() };
        proof {
            assert(map@ =~= Seq::<Stretch>::empty());
        }
        map
    }

    /// Enters that the positions `src` of the combined text are the text of
    /// the file `dest.0` from the offset `dest.1` on. An empty `src` is not
    /// entered.
    pub fn add_entry(&mut self, src: Range<usize>, dest: (FileId, usize))
        ensures
            final(self)@ == (if src.start < src.end {
                old(self)@.push(
                    Stretch {
                        start: src.start as int,
                        end: src.end as int,
                        file: dest.0,
                        offset: dest.1 as int,
                    },
                )
            } else {
                old(self)@
            }),
    {
        if src.start < src.end {
            self.offsets.push(MapEntry { src, file: dest.0, offset: dest.1 });
            proof {
                assert(self@ =~= old(self)@.push(
                    Stretch {
                        start: src.start as int,
                        end: src.end as int,
                        file: dest.0,
                        offset: dest.1 as int,
                    },
                ));
            }
        }
    }

    /// The file and the range in it that a range of the combined text came
    /// from, by the first entry that covers the start of the range. The range
    /// must start in some entry, and the range in the file must fit the
    /// machine's numbers.
    pub fn resolve_range(&self, global_range: Range<usize>) -> (resolved: (FileId, Range<usize>))
        requires
            global_range.start <= global_range.end,
            exists|i: int| is_first_covering(self@, global_range.start as int, i),
            forall|i: int|
                is_first_covering(self@, global_range.start as int, i) ==> self@[i].offset + (
                global_range.end - self@[i].start) <= usize::MAX,
        ensures
            exists|i: int|
                is_first_covering(self@, global_range.start as int, i) && resolved.0
                    == self@[i].file && resolved.1.start == self@[i].offset + (global_range.start
                    - self@[i].start) && resolved.1.end == resolved.1.start + (global_range.end
                    - global_range.start),
    {
        let mut i: usize = 0;
        while i < self.offsets.len()
            invariant
                i <= self.offsets.len(),
                global_range.start <= global_range.end,
                forall|j: int| 0 <= j < i ==> !(#[trigger] self@[j]).contains(
                    global_range.start as int,
                ),
                exists|k: int| is_first_covering(self@, global_range.start as int, k),
                forall|k: int|
                    is_first_covering(self@, global_range.start as int, k) ==> self@[k].offset + (
                    global_range.end - self@[k].start) <= usize::MAX,
            decreases self.offsets.len() - i,
        {
            let entry = &self.offsets[i];
            if entry.src.start <= global_range.start && global_range.start < entry.src.end {
                proof {
                    assert(self@[i as int].contains(global_range.start as int));
                    assert(is_first_covering(self@, global_range.start as int, i as int));
                }
                let chunk_offset: usize = global_range.start - entry.src.start;
                let range_start: usize = entry.offset + chunk_offset;
                let len: usize = global_range.end - global_range.start;
                return (entry.file, range_start..range_start + len);
            }
            proof {
                assert(!self@[i as int].contains(global_range.start as int));
            }
            i = i + 1;
        }
        proof {
            let k = choose|k: int| is_first_covering(self@, global_range.start as int, k);
            assert(self@[k].contains(global_range.start as int));
            assert(false);
        }
        (FileId(1), 0..0)
    }
}

} // verus!
