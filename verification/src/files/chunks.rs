//! The chunks of a file: reading a file, and reading and overwriting a part of it.
use vstd::prelude::*;
use crate::archive::changes::overwrite;
use crate::archive::fields::patch;
use crate::cryptree::properties::FileProperties;
use crate::error::{fails_protocol, protocol, Result};
use crate::hashtree::least;
use crate::text::{append_bytes, slice_bytes};

verus! {

/// The largest number of content bytes one chunk of a file holds (5 MiB).
pub const CHUNK_MAX_SIZE: u64 = 5_242_880;

/// How many chunks a file of this size has: at least one.
pub open spec fn chunks_of(size: nat) -> nat {
    if size == 0 {
        1
    } else {
        ((size - 1) / CHUNK_MAX_SIZE as int + 1) as nat
    }
}

/// Where chunk `i` of a file starts.
pub open spec fn chunk_start(i: int) -> int {
    i * CHUNK_MAX_SIZE
}

/// Where chunk `i` of a file of this size ends.
pub open spec fn chunk_end(size: nat, i: int) -> int {
    least((i + 1) * CHUNK_MAX_SIZE, size as int)
}

/// The content of chunk `i`.
pub open spec fn chunk_at(content: Seq<u8>, i: int) -> Seq<u8> {
    content.subrange(chunk_start(i), chunk_end(content.len(), i))
}

/// `ceil(size / CHUNK_MAX_SIZE)`, at least one.
pub fn chunk_count(size: u64) -> (n: u64)
    ensures
        n == chunks_of(size as nat),
        n >= 1,
        (n - 1) * CHUNK_MAX_SIZE <= size <= n * CHUNK_MAX_SIZE,
{
    if size == 0 {
        1
    } else {
        (size - 1) / CHUNK_MAX_SIZE + 1
    }
}

/// The length of chunk `i` of a file of this size.
pub fn chunk_len(size: u64, i: u64) -> (n: u64)
    requires
        i < chunks_of(size as nat),
    ensures
        n == chunk_end(size as nat, i as int) - chunk_start(i as int),
        n <= CHUNK_MAX_SIZE,
        i + 1 < chunks_of(size as nat) ==> n == CHUNK_MAX_SIZE,
{
    if i + 1 == chunk_count(size) {
        size - i * CHUNK_MAX_SIZE
    } else {
        CHUNK_MAX_SIZE
    }
}

/// The content of chunk `i`.
pub fn chunk_slice(content: &[u8], i: u64) -> (r: Vec<u8>)
    requires
        i < chunks_of(content@.len()),
    ensures
        r@ == chunk_at(content@, i as int),
{
    proof {
        assert(content@.len() == content.len());
    }
    let size: u64 = content.len() as u64;
    let n: u64 = chunk_len(size, i);
    let from: u64 = i * CHUNK_MAX_SIZE;
    slice_bytes(content, from as usize, (from + n) as usize)
}

/// The byte strings in a row.
pub open spec fn joined(v: Seq<Seq<u8>>) -> Seq<u8>
    decreases v.len(),
{
    if v.len() == 0 {
        Seq::empty()
    } else {
        joined(v.drop_last()) + v.last()
    }
}

/// The first `n` chunks of a file.
pub open spec fn first_chunks(content: Seq<u8>, n: nat) -> Seq<Seq<u8>> {
    Seq::new(n, |i: int| chunk_at(content, i))
}

/// The chunks of a file make up its content.
pub proof fn law_chunks_make_content(content: Seq<u8>)
    ensures
        joined(first_chunks(content, chunks_of(content.len()))) == content,
{
    let n = chunks_of(content.len());
    lemma_first_chunks(content, n);
    assert(chunk_end(content.len(), n - 1) == content.len());
    assert(content.take(content.len() as int) =~= content);
}

proof fn lemma_first_chunks(content: Seq<u8>, n: nat)
    requires
        1 <= n <= chunks_of(content.len()),
    ensures
        joined(first_chunks(content, n)) == content.take(chunk_end(content.len(), n - 1)),
    decreases n,
{
    let v = first_chunks(content, n);
    let init = first_chunks(content, (n - 1) as nat);
    assert(v.drop_last() =~= init);
    assert(v.last() == chunk_at(content, n - 1));
    let s = content.len();
    assert(0 <= chunk_start(n - 1) <= chunk_end(s, n - 1) <= s);
    if n > 1 {
        lemma_first_chunks(content, (n - 1) as nat);
        assert(chunk_end(s, n - 2) == chunk_start(n - 1));
        assert(content.take(chunk_start(n - 1)) + chunk_at(content, n - 1) =~= content.take(chunk_end(s, n - 1)));
    } else {
        assert(init =~= Seq::empty());
        assert(chunk_start(0) == 0);
        assert(joined(init) =~= Seq::empty());
        assert(joined(v) =~= content.take(chunk_end(s, 0)));
    }
}

/// Refuses a node that is no file.
pub fn check_is_file(is_directory: bool) -> (r: Result<()>)
    ensures
        is_directory ==> fails_protocol(r, "capability points to a directory, not a file"@),
        !is_directory ==> r is Ok,
{
    if is_directory {
        return Err(protocol("capability points to a directory, not a file"));
    }
    Ok(())
}

/// The stream secret that leads to the next chunk.
pub fn next_chunk_secret(props: &FileProperties) -> (r: Result<&Vec<u8>>)
    ensures
        props.stream_secret is None ==> fails_protocol(r, "multi-chunk file without a stream secret"@),
        props.stream_secret matches Some(s) ==> r is Ok && *r->Ok_0 == s,
{
    match &props.stream_secret {
        Some(s) => Ok(s),
        None => Err(protocol("multi-chunk file without a stream secret")),
    }
}

/// A file being read from its first chunk on, one chunk at a time.
#[derive(Debug, PartialEq, Eq)]
pub struct FileReader {
    pub size: u64,
    pub written: u64,
}

/// What is handed on of a chunk when `written` bytes of a file of `size` bytes were: the
/// last chunk may carry padding beyond the true end.
pub open spec fn handed_on(chunk: Seq<u8>, size: nat, written: nat) -> Seq<u8> {
    if written >= size {
        Seq::empty()
    } else {
        chunk.take(least(chunk.len() as int, size - written))
    }
}

/// What is handed on of these chunks.
pub open spec fn all_handed_on(chunks: Seq<Seq<u8>>, size: nat) -> Seq<u8>
    decreases chunks.len(),
{
    if chunks.len() == 0 {
        Seq::empty()
    } else {
        let before = all_handed_on(chunks.drop_last(), size);
        before + handed_on(chunks.last(), size, before.len())
    }
}

impl FileReader {
    /// A reader at the start of a file of this size.
    pub fn new(size: u64) -> (r: FileReader)
        ensures
            r.size == size,
            r.written == 0,
    {
        FileReader { size, written: 0 }
    }

    /// Takes in the next chunk and gives back the bytes to hand on.
    pub fn accept(&mut self, chunk: &[u8]) -> (r: Vec<u8>)
        requires
            old(self).written <= old(self).size,
        ensures
            r@ == handed_on(chunk@, old(self).size as nat, old(self).written as nat),
            final(self).size == old(self).size,
            final(self).written == old(self).written + r@.len(),
            final(self).written <= final(self).size,
    {
        let remaining: u64 = self.size - self.written;
        let take: usize = if (chunk.len() as u64) < remaining { chunk.len() } else { remaining as usize };
        let out = slice_bytes(chunk, 0, take);
        proof {
            assert(out@ =~= handed_on(chunk@, self.size as nat, self.written as nat));
        }
        self.written = self.written + take as u64;
        out
    }

    /// Whether all of the file was handed on. If not, the next chunk comes, unless none
    /// was written.
    pub fn is_done(&self) -> (r: bool)
        ensures
            r == (self.written >= self.size),
    {
        self.written >= self.size
    }
}

/// Never more than the size is handed on, and it is what the chunks hold up to there.
pub proof fn law_reader_hands_on_content(chunks: Seq<Seq<u8>>, size: nat)
    ensures
        all_handed_on(chunks, size) == joined(chunks).take(least(joined(chunks).len() as int, size as int)),
    decreases chunks.len(),
{
    let j = joined(chunks);
    if chunks.len() > 0 {
        let init = chunks.drop_last();
        law_reader_hands_on_content(init, size);
        assert(all_handed_on(chunks, size) =~= j.take(least(j.len() as int, size as int)));
    } else {
        assert(all_handed_on(chunks, size) =~= j.take(least(j.len() as int, size as int)));
    }
}

/// A file is read as it was written: its chunks, padded or not, give its content.
pub proof fn law_read_gives_content(content: Seq<u8>, padding: Seq<u8>)
    ensures
        ({
            let n = chunks_of(content.len());
            let chunks = first_chunks(content, n);
            all_handed_on(chunks.update(n - 1, chunks[n - 1] + padding), content.len()) == content
        }),
{
    let n = chunks_of(content.len());
    let chunks = first_chunks(content, n);
    let v = chunks.update(n - 1, chunks[n - 1] + padding);
    law_chunks_make_content(content);
    assert(v.drop_last() =~= chunks.drop_last());
    assert(joined(v) =~= content + padding);
    law_reader_hands_on_content(v, content.len());
    assert((content + padding).take(content.len() as int) =~= content);
}

/// A part of a file, and the chunks that it overlaps.
#[derive(Debug, PartialEq, Eq)]
pub struct Section {
    pub offset: u64,
    pub end: u64,
    pub start_chunk: u64,
    pub end_chunk: u64,
}

impl Section {
    /// The part is not empty, and the chunks are those that it overlaps.
    pub open spec fn wf(self) -> bool {
        &&& self.offset < self.end
        &&& self.start_chunk == self.offset / CHUNK_MAX_SIZE
        &&& self.end_chunk == ((self.end - 1) as u64) / CHUNK_MAX_SIZE
    }

    /// The part of a file of `size` bytes from `offset` on, clamped to its end: none if
    /// it is empty.
    pub fn to_read(offset: u64, length: u64, size: u64) -> (r: Option<Section>)
        requires
            offset + length <= u64::MAX,
        ensures
            r is None <==> length == 0 || offset >= size,
            r matches Some(s) ==> s.wf() && s.offset == offset && s.end == least(offset + length, size as int),
    {
        if length == 0 || offset >= size {
            return None;
        }
        let end: u64 = if offset + length < size { offset + length } else { size };
        Some(
            Section { offset, end, start_chunk: offset / CHUNK_MAX_SIZE, end_chunk: (end - 1) / CHUNK_MAX_SIZE },
        )
    }

    /// The part of a file of `size` bytes that `len` bytes overwrite from `offset` on: it
    /// has to lie within the file, and there is none without bytes. A directory has no bytes
    /// to overwrite.
    pub fn to_overwrite(is_directory: bool, offset: u64, len: u64, size: u64) -> (r: Result<Option<Section>>)
        requires
            offset + len <= u64::MAX,
        ensures
            len == 0 ==> r == Ok::<Option<Section>, crate::error::Error>(None),
            len > 0 && is_directory ==> fails_protocol(r, "cannot overwrite a directory"@),
            len > 0 && !is_directory && offset + len > size ==> fails_protocol(
                r,
                "overwrite_file_section cannot grow the file; the range must lie within the current size"@,
            ),
            len > 0 && !is_directory && offset + len <= size ==> (r matches Ok(Some(s)) && s.wf() && s.offset == offset && s.end
                == offset + len),
    {
        if len == 0 {
            return Ok(None);
        }
        if is_directory {
            return Err(protocol("cannot overwrite a directory"));
        }
        let end: u64 = offset + len;
        if end > size {
            return Err(
                protocol("overwrite_file_section cannot grow the file; the range must lie within the current size"),
            );
        }
        Ok(
            Some(
                Section {
                    offset,
                    end,
                    start_chunk: offset / CHUNK_MAX_SIZE,
                    end_chunk: (end - 1) / CHUNK_MAX_SIZE,
                },
            ),
        )
    }

    /// The part of the section in chunk `i`, whose data is `len` bytes, as a range of the
    /// chunk: empty if they do not meet.
    pub open spec fn overlap(self, i: int, len: nat) -> (int, int) {
        let from = if self.offset > chunk_start(i) { self.offset - chunk_start(i) } else { 0 };
        let to = least(self.end - chunk_start(i), len as int);
        if to > from {
            (from, to)
        } else {
            (0, 0)
        }
    }

    /// The part of the section in chunk `i`, as a range of the chunk.
    pub fn overlap_of(&self, i: u64, len: usize) -> (r: (usize, usize))
        requires
            self.wf(),
            self.start_chunk <= i <= self.end_chunk,
        ensures
            (r.0 as int, r.1 as int) == self.overlap(i as int, len as nat),
            r.0 <= r.1 <= len,
    {
        let start: u64 = i * CHUNK_MAX_SIZE;
        let from: u64 = if self.offset > start { self.offset - start } else { 0 };
        let rest: u64 = self.end - start;
        let to: u64 = if rest < len as u64 { rest } else { len as u64 };
        if to > from {
            (from as usize, to as usize)
        } else {
            (0, 0)
        }
    }

    /// Appends the part of the section that is in chunk `i`.
    pub fn read_chunk(&self, i: u64, chunk: &[u8], out: &mut Vec<u8>)
        requires
            self.wf(),
            self.start_chunk <= i <= self.end_chunk,
        ensures
            final(out)@ == old(out)@ + chunk@.subrange(
                self.overlap(i as int, chunk@.len()).0,
                self.overlap(i as int, chunk@.len()).1,
            ),
    {
        let (from, to) = self.overlap_of(i, chunk.len());
        let part = slice_bytes(chunk, from, to);
        append_bytes(out, &part);
    }

    /// Writes the part of `data` that belongs into chunk `i` over the chunk.
    pub fn write_chunk(&self, i: u64, chunk: &mut Vec<u8>, data: &[u8])
        requires
            self.wf(),
            self.start_chunk <= i <= self.end_chunk,
            data@.len() == self.end - self.offset,
        ensures
            final(chunk)@ == spliced(*self, i as int, old(chunk)@, data@),
    {
        let (from, to) = self.overlap_of(i, chunk.len());
        if to > from {
            proof {
                assert(data@.len() == data.len());
            }
            let start: u64 = i * CHUNK_MAX_SIZE;
            let src: usize = (start + from as u64 - self.offset) as usize;
            let part = slice_bytes(data, src, src + (to - from));
            overwrite(chunk, from, &part);
        }
        proof {
            assert(chunk@ =~= spliced(*self, i as int, old(chunk)@, data@));
        }
    }
}

/// Chunk `i` with the bytes of the section replaced by `data`.
pub open spec fn spliced(s: Section, i: int, chunk: Seq<u8>, data: Seq<u8>) -> Seq<u8> {
    Seq::new(
        chunk.len(),
        |k: int|
            {
                let at = chunk_start(i) + k;
                if s.offset <= at < s.end {
                    data[at - s.offset]
                } else {
                    chunk[k]
                }
            },
    )
}

/// What the chunks from the first one of the section up to `n` give of it.
pub open spec fn section_read(s: Section, content: Seq<u8>, n: int) -> Seq<u8>
    decreases n - s.start_chunk,
{
    if n <= s.start_chunk {
        Seq::empty()
    } else {
        let c = chunk_at(content, n - 1);
        section_read(s, content, n - 1) + c.subrange(s.overlap(n - 1, c.len()).0, s.overlap(n - 1, c.len()).1)
    }
}

proof fn lemma_section_read(s: Section, content: Seq<u8>, n: int)
    requires
        s.wf(),
        s.end <= content.len(),
        s.start_chunk < n <= s.end_chunk + 1,
    ensures
        section_read(s, content, n) == content.subrange(
            s.offset as int,
            least(n * CHUNK_MAX_SIZE, s.end as int),
        ),
    decreases n,
{
    let i = n - 1;
    let c = chunk_at(content, i);
    let size = content.len();
    assert(chunk_start(i) <= s.end - 1);
    assert(chunk_end(size, i) - chunk_start(i) == c.len());
    let (from, to) = s.overlap(i, c.len());
    if n > s.start_chunk + 1 {
        lemma_section_read(s, content, n - 1);
        assert(s.offset < i * CHUNK_MAX_SIZE);
        assert(from == 0);
        assert(content.subrange(s.offset as int, i * CHUNK_MAX_SIZE) + c.subrange(from, to) =~= content.subrange(
            s.offset as int,
            least(n * CHUNK_MAX_SIZE, s.end as int),
        ));
    } else {
        assert(section_read(s, content, n - 1) =~= Seq::empty());
        assert(from == s.offset - chunk_start(i));
        assert(section_read(s, content, n) =~= content.subrange(
            s.offset as int,
            least(n * CHUNK_MAX_SIZE, s.end as int),
        ));
    }
}

/// Reading a section gives that part of the content, from its overlapping chunks alone.
pub proof fn law_section_read(s: Section, content: Seq<u8>)
    requires
        s.wf(),
        s.end <= content.len(),
    ensures
        section_read(s, content, s.end_chunk + 1) == content.subrange(s.offset as int, s.end as int),
{
    lemma_section_read(s, content, s.end_chunk + 1);
}

/// Overwriting a section changes that part of the content and no other: its
/// overlapping chunks are spliced, and every other chunk stays as it is.
pub proof fn law_section_overwrite(s: Section, content: Seq<u8>, data: Seq<u8>, i: int)
    requires
        s.wf(),
        s.end <= content.len(),
        data.len() == s.end - s.offset,
        0 <= i < chunks_of(content.len()),
    ensures
        ({
            let new = patch(content, s.offset as int, data);
            &&& new.len() == content.len()
            &&& chunk_at(new, i) == spliced(s, i, chunk_at(content, i), data)
            &&& !(s.start_chunk <= i <= s.end_chunk) ==> chunk_at(new, i) == chunk_at(content, i)
        }),
{
    let new = patch(content, s.offset as int, data);
    let size = content.len();
    assert(0 <= chunk_start(i) <= chunk_end(size, i) <= size);
    assert(chunk_at(new, i) =~= spliced(s, i, chunk_at(content, i), data));
    if i < s.start_chunk {
        assert((i + 1) * CHUNK_MAX_SIZE <= s.offset);
        assert(chunk_at(new, i) =~= chunk_at(content, i));
    }
    if i > s.end_chunk {
        assert(i * CHUNK_MAX_SIZE >= s.end);
        assert(chunk_at(new, i) =~= chunk_at(content, i));
    }
}

/// A file is cut into chunks of 5 MiB, one right behind the other from its start to its end. Only
/// the last may be shorter, and an empty file has one chunk.
pub proof fn law_chunk_bounds(size: nat, i: int)
    requires
        0 <= i < chunks_of(size),
    ensures
        chunk_start(0) == 0,
        chunks_of(0) == 1,
        chunk_end(size, chunks_of(size) - 1) == size,
        i + 1 < chunks_of(size) ==> chunk_end(size, i) == chunk_start(i + 1),
        i + 1 < chunks_of(size) ==> chunk_end(size, i) - chunk_start(i) == 5 * 1024 * 1024,
        chunk_start(i) <= chunk_end(size, i) <= size,
        chunk_end(size, i) - chunk_start(i) <= 5 * 1024 * 1024,
        size > 0 ==> chunk_start(i) < chunk_end(size, i),
{
}

/// What a section takes of a chunk are the bytes that are both in the section and in the chunk.
pub proof fn law_overlap(s: Section, i: int, len: nat, k: int)
    requires
        s.wf(),
        0 <= i,
        0 <= k < len,
    ensures
        s.overlap(i, len).0 <= k < s.overlap(i, len).1 <==> s.offset <= i * (5 * 1024 * 1024) + k < s.end,
{
}

} // verus!
