//! Decoder for the archive container: the fixed header and the lazy,
//! restartable traversal of the recursive directory table. Every entry
//! is a view (a borrowed slice) into the caller's buffer; nothing is
//! copied and nothing is mutated.

use vstd::prelude::*;
use vstd::slice::slice_index_get;
use vstd::slice::slice_subrange;
use crate::bytes::le_u32_at;
use crate::bytes::read_u32_le;
use crate::error::DecodeError;

verus! {

/// The archive's fixed-offset preamble. `description` is the NUL-padded
/// 127-byte text field as stored; `dir_offset` and `dir_size` locate the
/// root directory table inside the whole buffer.
#[derive(Debug)]
pub struct Header<'a> {
    pub description: &'a [u8],
    pub version: u32,
    pub dir_offset: usize,
    pub dir_size: usize,
    pub datetime: u32,
    pub dir_name_max: usize,
    pub file_name_max: usize,
}

/// A lazy cursor over one sibling list of the directory table: the next
/// entry starts at `offset`, and names must terminate before `end`. It
/// is plain data, so a traversal can be restarted from any saved pair.
#[derive(Debug, Clone, Copy)]
pub struct DirectoryIterator<'a> {
    pub input: &'a [u8],
    pub offset: usize,
    pub end: usize,
}

/// What an entry holds: a subdirectory's child list, or a file's id,
/// stored (reversed) extension bytes, and content bytes.
pub enum EntryContentKind<'a> {
    Directory { children: DirectoryIterator<'a> },
    File { id: u32, extension: &'a [u8], content: &'a [u8] },
}

/// One directory-table record: its name bytes, timestamp, and payload.
pub struct Entry<'a> {
    pub name: &'a [u8],
    pub datetime: u32,
    pub kind: Option<EntryContentKind<'a>>,
}

/// A parsed archive: the header and the root sibling list.
pub struct Archive<'a> {
    pub header: Header<'a>,
    pub root: DirectoryIterator<'a>,
}

/// The position of the first NUL byte at or after `i`, if one exists
/// before `end` and inside the buffer; `None` otherwise.
pub open spec fn spec_find_nul(s: Seq<u8>, i: int, end: int) -> Option<int>
    decreases end - i,
{
    if i >= end || i >= s.len() {
        None
    } else if s[i] == 0 {
        Some(i)
    } else {
        spec_find_nul(s, i + 1, end)
    }
}

/// A record of the directory table, in decoded form. Offsets are
/// absolute positions in the archive buffer.
pub ghost enum SpecEntry {
    Directory {
        name: Seq<u8>,
        datetime: u32,
        children_offset: int,
        children_end: int,
    },
    File {
        name: Seq<u8>,
        datetime: u32,
        id: u32,
        extension: Seq<u8>,
        content_offset: int,
        content_end: int,
    },
}

/// One traversal step over a sibling list.
pub ghost enum SpecEntryStep {
    /// The cursor is past the buffer, or the record is the zero-body
    /// sentinel that ends a sibling list.
    End,
    /// A read would cross the buffer, a name has no terminator before
    /// `end`, or a computed position cannot fit a `usize`.
    Malformed,
    /// A decoded entry and the offset of its next sibling.
    Next(SpecEntry, int),
}

/// Decodes the directory-table record at `offset`, bounded by `end`.
///
/// The 16-byte common header holds the kind word (1 for a directory),
/// the body's absolute offset and size, and a timestamp; a zero body
/// size is the end-of-siblings sentinel. A directory record carries a
/// NUL-terminated name; its next sibling starts one byte past the NUL.
/// A file record carries its id, a NUL-terminated reversed extension,
/// four reserved bytes, and a NUL-terminated name; its next sibling
/// starts two bytes past the name's NUL.
pub open spec fn spec_next_entry(input: Seq<u8>, offset: int, end: int) -> SpecEntryStep {
    if offset >= input.len() {
        SpecEntryStep::End
    } else if offset + 16 > input.len() {
        SpecEntryStep::Malformed
    } else {
        let body_offset = le_u32_at(input, offset + 4);
        let body_size = le_u32_at(input, offset + 8);
        if body_size == 0 {
            SpecEntryStep::End
        } else {
            let datetime = le_u32_at(input, offset + 12) as u32;
            if le_u32_at(input, offset) == 1 {
                match spec_find_nul(input, offset + 16, end) {
                    None => SpecEntryStep::Malformed,
                    Some(name_end) => {
                        if body_offset + body_size > usize::MAX {
                            SpecEntryStep::Malformed
                        } else {
                            SpecEntryStep::Next(
                                SpecEntry::Directory {
                                    name: input.subrange(offset + 16, name_end),
                                    datetime,
                                    children_offset: body_offset,
                                    children_end: body_offset + body_size,
                                },
                                name_end + 1,
                            )
                        }
                    },
                }
            } else {
                if offset + 20 > input.len() {
                    SpecEntryStep::Malformed
                } else {
                    let id = le_u32_at(input, offset + 16) as u32;
                    match spec_find_nul(input, offset + 20, end) {
                        None => SpecEntryStep::Malformed,
                        Some(ext_end) => match spec_find_nul(input, ext_end + 5, end) {
                            None => SpecEntryStep::Malformed,
                            Some(name_end) => {
                                if body_offset + body_size > input.len() {
                                    SpecEntryStep::Malformed
                                } else if name_end + 2 > usize::MAX {
                                    SpecEntryStep::Malformed
                                } else {
                                    SpecEntryStep::Next(
                                        SpecEntry::File {
                                            name: input.subrange(ext_end + 5, name_end),
                                            datetime,
                                            id,
                                            extension: input.subrange(offset + 20, ext_end),
                                            content_offset: body_offset,
                                            content_end: body_offset + body_size,
                                        },
                                        name_end + 2,
                                    )
                                }
                            },
                        },
                    }
                }
            }
        }
    }
}

/// The position of the first NUL at or after `i` and before `end`,
/// still inside the buffer; `None` when no such byte exists.
fn find_nul(input: &[u8], i: usize, end: usize) -> (r: Option<usize>)
    ensures
        match spec_find_nul(input@, i as int, end as int) {
            Some(j) => r matches Some(rj) && rj as int == j,
            None => r is None,
        },
{
    let ilen: usize = input.len();
    let mut j: usize = i;
    while j < end && j < ilen
        invariant
            i <= j,
            ilen == input@.len(),
            spec_find_nul(input@, i as int, end as int) == spec_find_nul(
                input@,
                j as int,
                end as int,
            ),
        decreases end - j,
    {
        if *slice_index_get(input, j) == 0 {
            return Some(j);
        }
        j = j + 1;
    }
    None
}

impl<'a> DirectoryIterator<'a> {
    /// Decodes the entry at `offset` and advances to its next sibling,
    /// following `spec_next_entry`. `Ok(None)` ends the sibling list:
    /// either the zero-body sentinel was read, or the cursor stands
    /// past the buffer. A directory entry carries a fresh cursor over
    /// its child range; a file entry carries its content bytes. The
    /// bound `end` never changes, so the traversal is restartable.
    pub fn next(&mut self) -> (r: Result<Option<Entry<'a>>, DecodeError>)
        ensures
            final(self).input@ == old(self).input@,
            final(self).end == old(self).end,
            match spec_next_entry(old(self).input@, old(self).offset as int, old(self).end as int) {
                SpecEntryStep::End => r matches Ok(o) && o is None && final(self).offset == old(
                    self,
                ).offset,
                SpecEntryStep::Malformed => r == Err::<Option<Entry<'a>>, DecodeError>(
                    DecodeError::MalformedEntry,
                ) && final(self).offset == old(self).offset,
                SpecEntryStep::Next(se, next_off) => {
                    &&& final(self).offset == next_off
                    &&& r matches Ok(o) && o matches Some(entry) && match se {
                        SpecEntry::Directory { name, datetime, children_offset, children_end } => {
                            &&& entry.name@ == name
                            &&& entry.datetime == datetime
                            &&& entry.kind matches Some(EntryContentKind::Directory { children })
                                && children.input@ == old(self).input@ && children.offset
                                == children_offset && children.end == children_end
                        },
                        SpecEntry::File {
                            name,
                            datetime,
                            id,
                            extension,
                            content_offset,
                            content_end,
                        } => {
                            &&& entry.name@ == name
                            &&& entry.datetime == datetime
                            &&& entry.kind matches Some(
                                EntryContentKind::File { id: fid, extension: ext, content },
                            ) && fid == id && ext@ == extension && content@ == old(
                                self,
                            ).input@.subrange(content_offset, content_end)
                        },
                    }
                },
            },
    {
        let input: &'a [u8] = self.input;
        let ilen: usize = input.len();
        if self.offset >= ilen {
            return Ok(None);
        }
        if ilen - self.offset < 16 {
            return Err(DecodeError::MalformedEntry);
        }
        let is_directory = read_u32_le(input, self.offset) == 1;
        let entry_offset_32 = read_u32_le(input, self.offset + 4);
        let entry_size_32 = read_u32_le(input, self.offset + 8);
        if entry_size_32 == 0 {
            return Ok(None);
        }
        let datetime = read_u32_le(input, self.offset + 12);
        if is_directory {
            let name_end = match find_nul(input, self.offset + 16, self.end) {
                Some(j) => j,
                None => {
                    return Err(DecodeError::MalformedEntry);
                },
            };
            proof {
                lemma_find_nul_bounds(input@, self.offset + 16, self.end as int);
            }
            let body64: u64 = entry_offset_32 as u64 + entry_size_32 as u64;
            if body64 > usize::MAX as u64 {
                return Err(DecodeError::MalformedEntry);
            }
            let name = slice_subrange(input, self.offset + 16, name_end);
            self.offset = name_end + 1;
            Ok(
                Some(
                    Entry {
                        name,
                        datetime,
                        kind: Some(
                            EntryContentKind::Directory {
                                children: DirectoryIterator {
                                    input,
                                    offset: entry_offset_32 as usize,
                                    end: body64 as usize,
                                },
                            },
                        ),
                    },
                ),
            )
        } else {
            if ilen - self.offset < 20 {
                return Err(DecodeError::MalformedEntry);
            }
            let file_id = read_u32_le(input, self.offset + 16);
            let extension_end = match find_nul(input, self.offset + 20, self.end) {
                Some(j) => j,
                None => {
                    return Err(DecodeError::MalformedEntry);
                },
            };
            proof {
                lemma_find_nul_bounds(input@, self.offset + 20, self.end as int);
            }
            if extension_end > usize::MAX - 5 {
                return Err(DecodeError::MalformedEntry);
            }
            let name_end = match find_nul(input, extension_end + 5, self.end) {
                Some(j) => j,
                None => {
                    return Err(DecodeError::MalformedEntry);
                },
            };
            proof {
                lemma_find_nul_bounds(input@, extension_end as int + 5, self.end as int);
            }
            let content_end: u64 = entry_offset_32 as u64 + entry_size_32 as u64;
            if content_end > ilen as u64 {
                return Err(DecodeError::MalformedEntry);
            }
            if name_end > usize::MAX - 2 {
                return Err(DecodeError::MalformedEntry);
            }
            let content = slice_subrange(input, entry_offset_32 as usize, content_end as usize);
            let name = slice_subrange(input, extension_end + 5, name_end);
            let extension = slice_subrange(input, self.offset + 20, extension_end);
            self.offset = name_end + 2;
            Ok(
                Some(
                    Entry {
                        name,
                        datetime,
                        kind: Some(EntryContentKind::File { id: file_id, extension, content }),
                    },
                ),
            )
        }
    }
}

/// Every entry of one sibling list, in on-disk order: the traversal
/// steps with `spec_next_entry` until the sentinel or the buffer's end;
/// `None` when some step is malformed.
pub open spec fn spec_sibling_entries(input: Seq<u8>, offset: int, end: int) -> Option<
    Seq<SpecEntry>,
>
    decreases input.len() + 2 - offset,
{
    match spec_next_entry(input, offset, end) {
        SpecEntryStep::End => Some(Seq::<SpecEntry>::empty()),
        SpecEntryStep::Malformed => None,
        SpecEntryStep::Next(se, next_off) => {
            if offset < next_off <= input.len() + 1 {
                match spec_sibling_entries(input, next_off, end) {
                    Some(rest) => Some(seq![se] + rest),
                    None => None,
                }
            } else {
                // never reached: a decoded entry advances the cursor,
                // as lemma_next_entry_advances shows
                None
            }
        },
    }
}

/// A decoded entry always advances the cursor, and lands it inside or
/// just past the buffer.
pub proof fn lemma_next_entry_advances(input: Seq<u8>, offset: int, end: int)
    ensures
        spec_next_entry(input, offset, end) matches SpecEntryStep::Next(se, next_off) ==> offset
            < next_off <= input.len() + 1,
{
    lemma_find_nul_bounds(input, offset + 16, end);
    lemma_find_nul_bounds(input, offset + 20, end);
    match spec_find_nul(input, offset + 20, end) {
        Some(ext_end) => {
            lemma_find_nul_bounds(input, ext_end + 5, end);
        },
        None => {},
    }
}

/// The byte length of the body an entry points at: a directory's child
/// list or a file's content.
pub open spec fn spec_entry_body_len(e: SpecEntry) -> int {
    match e {
        SpecEntry::Directory { children_offset, children_end, .. } => children_end
            - children_offset,
        SpecEntry::File { content_offset, content_end, .. } => content_end - content_offset,
    }
}

/// A sibling list never yields the sentinel: a zero-body-size record
/// ends the walk instead, so every decoded entry has a body of at
/// least one byte.
pub proof fn lemma_no_zero_body_yielded(input: Seq<u8>, offset: int, end: int)
    ensures
        spec_sibling_entries(input, offset, end) matches Some(es) ==> forall|i: int|
            0 <= i < es.len() ==> spec_entry_body_len(#[trigger] es[i]) > 0,
    decreases input.len() + 2 - offset,
{
    match spec_next_entry(input, offset, end) {
        SpecEntryStep::Next(se, next_off) => {
            if offset < next_off <= input.len() + 1 {
                lemma_no_zero_body_yielded(input, next_off, end);
                match spec_sibling_entries(input, next_off, end) {
                    Some(rest) => {
                        let es = seq![se] + rest;
                        assert(es[0] == se);
                        assert(spec_entry_body_len(se) > 0);
                        assert forall|i: int| 0 <= i < es.len() implies spec_entry_body_len(
                            #[trigger] es[i],
                        ) > 0 by {
                            if i > 0 {
                                assert(es[i] == rest[i - 1]);
                            }
                        }
                    },
                    None => {},
                }
            }
        },
        _ => {},
    }
}

/// The conventional file name: the decoded name bytes, an ASCII dot,
/// then the stored extension bytes in reverse.
pub fn reconstruct_file_name(name: &[u8], extension: &[u8]) -> (r: Vec<u8>)
    ensures
        r@ == name@ + seq![46u8] + extension@.reverse(),
{
    let mut out: Vec<u8> = Vec::<u8>::new();
    let nlen: usize = name.len();
    let mut i: usize = 0;
    while i < nlen
        invariant
            i <= nlen,
            nlen == name@.len(),
            out@ == name@.subrange(0, i as int),
        decreases nlen - i,
    {
        out.push(*slice_index_get(name, i));
        proof {
            assert(out@ =~= name@.subrange(0, i + 1));
        }
        i = i + 1;
    }
    proof {
        assert(out@ =~= name@);
    }
    out.push(46);
    let elen: usize = extension.len();
    let mut j: usize = elen;
    while j > 0
        invariant
            j <= elen,
            elen == extension@.len(),
            out@ == name@ + seq![46u8] + extension@.reverse().subrange(0, elen - j),
        decreases j,
    {
        j = j - 1;
        out.push(*slice_index_get(extension, j));
        proof {
            assert(extension@.reverse()[elen - j - 1] == extension@[j as int]);
            assert(out@ =~= name@ + seq![46u8] + extension@.reverse().subrange(0, elen - j));
        }
    }
    proof {
        assert(extension@.reverse().subrange(0, elen as int) =~= extension@.reverse());
        assert(out@ =~= name@ + seq![46u8] + extension@.reverse());
    }
    out
}

/// The first NUL found by `spec_find_nul` lies at or after `i`, before
/// `end` and inside the buffer, is a NUL, and nothing before it is one.
pub proof fn lemma_find_nul_bounds(s: Seq<u8>, i: int, end: int)
    ensures
        spec_find_nul(s, i, end) matches Some(j) ==> {
            &&& i <= j < end
            &&& j < s.len()
            &&& s[j] == 0
            &&& forall|q: int| i <= q < j ==> s[q] != 0
        },
    decreases end - i,
{
    if i >= end || i >= s.len() {
    } else if s[i] == 0 {
    } else {
        lemma_find_nul_bounds(s, i + 1, end);
    }
}

impl<'a> Archive<'a> {
    /// Parses the fixed 163-byte header region and positions the root
    /// traversal on the directory table.
    ///
    /// Fails with `TruncatedHeader` when the buffer is shorter than the
    /// header region, and with `MalformedEntry` when the directory
    /// table's `dir_offset + dir_size` reaches past the buffer; a
    /// parsed archive never holds an out-of-bounds root table.
    pub fn parse(input: &'a [u8]) -> (r: Result<Archive<'a>, DecodeError>)
        ensures
            match r {
                Ok(a) => {
                    &&& input@.len() >= 163
                    &&& a.header.description@ == input@.subrange(0, 127)
                    &&& a.header.version as int == le_u32_at(input@, 127)
                    &&& a.header.dir_offset as int == le_u32_at(input@, 131)
                    &&& a.header.dir_size as int == le_u32_at(input@, 135)
                    &&& a.header.datetime as int == le_u32_at(input@, 147)
                    &&& a.header.dir_name_max as int == le_u32_at(input@, 155)
                    &&& a.header.file_name_max as int == le_u32_at(input@, 159)
                    &&& a.header.dir_offset + a.header.dir_size <= input@.len()
                    &&& a.root.input@ == input@
                    &&& a.root.offset == a.header.dir_offset
                    &&& a.root.end == a.header.dir_offset + a.header.dir_size
                },
                Err(e) => {
                    &&& (e == DecodeError::TruncatedHeader <==> input@.len() < 163)
                    &&& (e == DecodeError::MalformedEntry <==> input@.len() >= 163 && le_u32_at(
                        input@,
                        131,
                    ) + le_u32_at(input@, 135) > input@.len())
                    &&& (e == DecodeError::TruncatedHeader || e == DecodeError::MalformedEntry)
                },
            },
    {
        let ilen: usize = input.len();
        if ilen < 163 {
            return Err(DecodeError::TruncatedHeader);
        }
        let dir_offset_32 = read_u32_le(input, 131);
        let dir_size_32 = read_u32_le(input, 135);
        if (dir_offset_32 as u64) + (dir_size_32 as u64) > ilen as u64 {
            return Err(DecodeError::MalformedEntry);
        }
        let dir_offset: usize = dir_offset_32 as usize;
        let dir_size: usize = dir_size_32 as usize;
        let header = Header {
            description: slice_subrange(input, 0, 127),
            version: read_u32_le(input, 127),
            dir_offset,
            dir_size,
            datetime: read_u32_le(input, 147),
            dir_name_max: read_u32_le(input, 155) as usize,
            file_name_max: read_u32_le(input, 159) as usize,
        };
        let root = DirectoryIterator { input, offset: dir_offset, end: dir_offset + dir_size };
        Ok(Archive { header, root })
    }
}

} // verus!
