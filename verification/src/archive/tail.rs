//! The rewrite of an archive from its central directory on.
use vstd::prelude::*;
use vstd::hash_map::StringHashMap;
use crate::archive::directory::{has_record, places, record_len, records, records_from, Directory};
use crate::archive::entry::{record_entry, record_fits, ZipEntry};
use crate::archive::writer::{
    central_bytes, central_record, end_bytes, end_records, local_extra, local_fields, local_header, recorded_name,
    Measured,
};
use crate::archive::layout::packed;
use crate::error::{fails_protocol, Error, Result};
use crate::paths::texts;
use crate::text::{append_bytes, join2, slice_bytes};

verus! {

/// A tail up to this size is written in one request, so the change is atomic.
pub const TAIL_BUFFER: usize = 33_554_432;

/// A record of the central directory: its offset, its length, and the path it is for.
#[derive(Debug, PartialEq, Eq)]
pub struct DirectoryRecord {
    pub offset: usize,
    pub len: usize,
    pub path: String,
}

/// The content of a [`DirectoryRecord`].
pub ghost struct RecordView {
    pub offset: int,
    pub len: int,
    pub path: Seq<char>,
}

impl View for DirectoryRecord {
    type V = RecordView;

    open spec fn view(&self) -> RecordView {
        RecordView { offset: self.offset as int, len: self.len as int, path: self.path@ }
    }
}

/// The contents of a list of records.
pub open spec fn record_views(v: Seq<DirectoryRecord>) -> Seq<RecordView> {
    Seq::new(v.len(), |i: int| v[i]@)
}

/// The central directory of an archive, record by record.
#[derive(Debug, PartialEq, Eq)]
pub struct CentralDirectory {
    pub bytes: Vec<u8>,
    pub records: Vec<DirectoryRecord>,
}

/// The record at `o` of `cd`, of length `len`, with the path of the entry that it describes: a
/// name that escapes the archive stands for no path.
pub open spec fn named_record(cd: Seq<u8>, o: int, len: int) -> core::result::Result<RecordView, Seq<char>> {
    match record_entry(cd, o, 0) {
        Err(m) => Err(m),
        Ok(None) => Ok(RecordView { offset: o, len, path: Seq::empty() }),
        Ok(Some(e)) => Ok(RecordView { offset: o, len, path: e.path }),
    }
}

/// The records of `cd` at these places, up to the first that cannot be read.
pub open spec fn named_records(cd: Seq<u8>, recs: Seq<(int, int)>) -> core::result::Result<Seq<RecordView>, Seq<char>>
    decreases recs.len(),
{
    if recs.len() == 0 {
        Ok(Seq::empty())
    } else {
        match named_records(cd, recs.drop_last()) {
            Err(m) => Err(m),
            Ok(v) => match named_record(cd, recs.last().0, recs.last().1) {
                Err(m) => Err(m),
                Ok(r) => Ok(v.push(r)),
            },
        }
    }
}

proof fn lemma_named_fails(cd: Seq<u8>, recs: Seq<(int, int)>, n: int)
    requires
        0 <= n <= recs.len(),
        named_records(cd, recs.take(n)) is Err,
    ensures
        named_records(cd, recs) == named_records(cd, recs.take(n)),
    decreases recs.len(),
{
    if n < recs.len() {
        assert(recs.drop_last().take(n) =~= recs.take(n));
        lemma_named_fails(cd, recs.drop_last(), n);
    } else {
        assert(recs.take(n) =~= recs);
    }
}

/// Every record lies within the bytes.
pub open spec fn records_fit(cd: CentralDirectory) -> bool {
    forall|i: int| 0 <= i < cd.records@.len() ==> (#[trigger] cd.records@[i]).offset + cd.records@[i].len
        <= cd.bytes@.len()
}

impl CentralDirectory {
    /// The records are those of the bytes.
    pub open spec fn reads(self) -> bool {
        named_records(self.bytes@, records_from(self.bytes@, 0)) == Ok::<Seq<RecordView>, Seq<char>>(
            record_views(self.records@),
        )
    }
}

/// Each of the records of a directory is that of its place.
pub proof fn lemma_named(cd: Seq<u8>, recs: Seq<(int, int)>)
    requires
        named_records(cd, recs) is Ok,
    ensures
        named_records(cd, recs)->Ok_0.len() == recs.len(),
        forall|i: int|
            0 <= i < recs.len() ==> named_record(cd, (#[trigger] recs[i]).0, recs[i].1) == Ok::<RecordView, Seq<char>>(
                named_records(cd, recs)->Ok_0[i],
            ),
    decreases recs.len(),
{
    if recs.len() > 0 {
        let init = recs.drop_last();
        lemma_named(cd, init);
        assert forall|i: int| 0 <= i < recs.len() implies named_record(cd, (#[trigger] recs[i]).0, recs[i].1) == Ok::<
            RecordView,
            Seq<char>,
        >(named_records(cd, recs)->Ok_0[i]) by {
            if i < init.len() {
                assert(init[i] == recs[i]);
            }
        }
    }
}

/// The records of a directory are determined by those of its places.
pub proof fn lemma_named_from(cd: Seq<u8>, recs: Seq<(int, int)>, v: Seq<RecordView>)
    requires
        v.len() == recs.len(),
        forall|i: int|
            0 <= i < recs.len() ==> named_record(cd, (#[trigger] recs[i]).0, recs[i].1) == Ok::<RecordView, Seq<char>>(v[i]),
    ensures
        named_records(cd, recs) == Ok::<Seq<RecordView>, Seq<char>>(v),
    decreases recs.len(),
{
    if recs.len() > 0 {
        let init = recs.drop_last();
        assert forall|i: int| 0 <= i < init.len() implies named_record(cd, (#[trigger] init[i]).0, init[i].1) == Ok::<
            RecordView,
            Seq<char>,
        >(v.drop_last()[i]) by {
            assert(init[i] == recs[i]);
        }
        lemma_named_from(cd, init, v.drop_last());
        assert(recs[recs.len() - 1] == recs.last());
        assert(v.drop_last().push(v.last()) =~= v);
    } else {
        assert(v =~= Seq::empty());
    }
}

/// The central directory that `bytes` hold.
pub fn read_directory(bytes: Vec<u8>) -> (r: Result<CentralDirectory>)
    ensures
        r is Ok <==> named_records(bytes@, records_from(bytes@, 0)) is Ok,
        r matches Ok(cd) ==> cd.bytes == bytes && record_views(cd.records@) == named_records(
            bytes@,
            records_from(bytes@, 0),
        )->Ok_0 && records_fit(cd) && cd.reads(),
        r is Err ==> fails_protocol(r, named_records(bytes@, records_from(bytes@, 0))->Err_0),
{
    let recs = records(&bytes);
    let ghost rs = places(recs@);
    let mut out: Vec<DirectoryRecord> = Vec::new();
    proof {
        assert(record_views(out@) =~= Seq::empty());
        assert(rs.take(0) =~= Seq::empty());
    }
    for i in 0..recs.len()
        invariant
            rs == places(recs@),
            rs == records_from(bytes@, 0),
            forall|k: int|
                0 <= k < recs.len() ==> has_record(bytes@, (#[trigger] recs[k]).0 as int) && recs[k].1 == record_len(
                    bytes@,
                    recs[k].0 as int,
                ),
            named_records(bytes@, rs.take(i as int)) == Ok::<Seq<RecordView>, Seq<char>>(record_views(out@)),
            forall|k: int| 0 <= k < out.len() ==> (#[trigger] out[k]).offset + out[k].len <= bytes.len(),
    {
        let ghost before = record_views(out@);
        let (offset, len) = recs[i];
        proof {
            assert(rs.take(i as int + 1).drop_last() =~= rs.take(i as int));
            assert(rs.take(i as int + 1).last() == rs[i as int]);
            assert(has_record(bytes@, offset as int));
            assert(bytes@.len() == bytes.len());
        }
        proof {
            assert(record_fits(bytes@, offset as int));
        }
        match ZipEntry::from_central_directory(&bytes, offset, 0) {
            Ok(entry) => {
                let path = match entry {
                    Some(e) => e.path,
                    None => String::new(),
                };
                let rec = DirectoryRecord { offset, len, path };
                let ghost rv = rec@;
                out.push(rec);
                proof {
                    assert(rv == named_record(bytes@, offset as int, len as int)->Ok_0);
                    assert(record_views(out@) =~= before.push(rv));
                }
            },
            Err(e) => {
                proof {
                    lemma_named_fails(bytes@, rs, i as int + 1);
                }
                return Err(e);
            },
        }
    }
    proof {
        assert(rs.take(rs.len() as int) =~= rs);
    }
    Ok(CentralDirectory { bytes, records: out })
}

/// The records of `v` whose path is not one of `gone`, in order.
pub open spec fn without(v: Seq<RecordView>, gone: Set<Seq<char>>) -> Seq<RecordView>
    decreases v.len(),
{
    if v.len() == 0 {
        Seq::empty()
    } else if gone.contains(v.last().path) {
        without(v.drop_last(), gone)
    } else {
        without(v.drop_last(), gone).push(v.last())
    }
}

/// The paths of a list as a set.
pub open spec fn path_set(paths: Seq<Seq<char>>) -> Set<Seq<char>> {
    Set::new(|p: Seq<char>| paths.contains(p))
}

/// The records that stay when the entries at `gone` are replaced or removed.
pub fn kept_records(recs: &Vec<DirectoryRecord>, gone: &Vec<String>) -> (r: Vec<DirectoryRecord>)
    ensures
        record_views(r@) == without(record_views(recs@), path_set(texts(gone@))),
{
    let ghost names = texts(gone@);
    let mut set: StringHashMap<bool> = StringHashMap::new();
    for i in 0..gone.len()
        invariant
            names == texts(gone@),
            forall|p: Seq<char>| #[trigger] set@.contains_key(p) <==> names.take(i as int).contains(p),
    {
        let ghost s0 = set@;
        set.insert(gone[i].clone(), true);
        proof {
            let t = names.take(i as int + 1);
            assert forall|p: Seq<char>| #[trigger] set@.contains_key(p) <==> t.contains(p) by {
                if set@.contains_key(p) {
                    if p == gone[i as int]@ {
                        assert(t[i as int] == p);
                    } else {
                        assert(s0.contains_key(p));
                        let k = choose|k: int| 0 <= k < i && names.take(i as int)[k] == p;
                        assert(t[k] == p);
                    }
                }
                if t.contains(p) {
                    let k = choose|k: int| 0 <= k < t.len() && t[k] == p;
                    if k < i {
                        assert(names.take(i as int)[k] == p);
                        assert(s0.contains_key(p));
                    }
                }
            }
        }
    }
    proof {
        assert(names.take(names.len() as int) =~= names);
    }
    let ghost all = record_views(recs@);
    let ghost gone_set = path_set(names);
    let mut out: Vec<DirectoryRecord> = Vec::new();
    proof {
        assert(record_views(out@) =~= without(all.take(0), gone_set));
    }
    for i in 0..recs.len()
        invariant
            all == record_views(recs@),
            gone_set == path_set(names),
            forall|p: Seq<char>| #[trigger] set@.contains_key(p) <==> names.contains(p),
            record_views(out@) == without(all.take(i as int), gone_set),
    {
        let ghost before = record_views(out@);
        proof {
            assert(all.take(i as int + 1).drop_last() =~= all.take(i as int));
            assert(all.take(i as int + 1).last() == recs[i as int]@);
        }
        if !set.contains_key(recs[i].path.as_str()) {
            out.push(DirectoryRecord { offset: recs[i].offset, len: recs[i].len, path: recs[i].path.clone() });
            proof {
                assert(record_views(out@) =~= before.push(recs[i as int]@));
            }
        }
    }
    proof {
        assert(all.take(all.len() as int) =~= all);
    }
    out
}

/// Every record that stays was there before, and its entry is not among those gone.
pub proof fn law_kept_records(v: Seq<RecordView>, gone: Set<Seq<char>>)
    ensures
        forall|i: int|
            0 <= i < without(v, gone).len() ==> v.contains(#[trigger] without(v, gone)[i]) && !gone.contains(
                without(v, gone)[i].path,
            ),
        forall|i: int|
            0 <= i < v.len() && !gone.contains((#[trigger] v[i]).path) ==> without(v, gone).contains(v[i]),
    decreases v.len(),
{
    if v.len() > 0 {
        let init = v.drop_last();
        let w = without(v, gone);
        law_kept_records(init, gone);
        assert forall|i: int| 0 <= i < w.len() implies v.contains(#[trigger] w[i]) && !gone.contains(w[i].path) by {
            if i < without(init, gone).len() {
                assert(w[i] == without(init, gone)[i]);
                let k = choose|k: int| 0 <= k < init.len() && init[k] == w[i];
                assert(v[k] == w[i]);
            } else {
                assert(v[v.len() - 1] == w[i]);
            }
        }
        assert forall|i: int| 0 <= i < v.len() && !gone.contains((#[trigger] v[i]).path) implies w.contains(v[i]) by {
            if i < init.len() {
                assert(init[i] == v[i]);
                let k = choose|k: int| 0 <= k < without(init, gone).len() && without(init, gone)[k] == v[i];
                assert(w[k] == v[i]);
            } else {
                assert(w[w.len() - 1] == v[i]);
            }
        }
    }
}

/// Collects a run of bytes that goes into a file from some position on, in as few
/// requests as memory allows: a tail that fits in one buffer lands in one write.
#[derive(Debug, PartialEq, Eq)]
pub struct TailWriter {
    pub pos: u64,
    pub buf: Vec<u8>,
}

impl TailWriter {
    /// Where the next byte goes.
    pub open spec fn end(self) -> int {
        self.pos + self.buf@.len()
    }

    /// A writer from `pos` on.
    pub fn new(pos: u64) -> (r: TailWriter)
        ensures
            r.pos == pos,
            r.buf@ == Seq::<u8>::empty(),
    {
        TailWriter { pos, buf: Vec::new() }
    }

    /// Takes in bytes.
    pub fn push(&mut self, bytes: &[u8])
        ensures
            final(self).pos == old(self).pos,
            final(self).buf@ == old(self).buf@ + bytes@,
    {
        append_bytes(&mut self.buf, bytes);
    }

    /// Takes in bytes, and says whether it is time to flush.
    pub fn accept(&mut self, bytes: &[u8]) -> (full: bool)
        ensures
            final(self).pos == old(self).pos,
            final(self).buf@ == old(self).buf@ + bytes@,
            full == (final(self).buf@.len() >= TAIL_BUFFER),
    {
        append_bytes(&mut self.buf, bytes);
        self.buf.len() >= TAIL_BUFFER
    }

    /// The write that is due: where it goes, and its bytes. There is none while
    /// nothing was taken in.
    pub fn flush(&mut self) -> (r: Option<(u64, Vec<u8>)>)
        requires
            old(self).end() <= u64::MAX,
        ensures
            old(self).buf@.len() == 0 ==> r is None && final(self).pos == old(self).pos,
            old(self).buf@.len() > 0 ==> r is Some && r->Some_0.0 == old(self).pos && r->Some_0.1@ == old(self).buf@,
            final(self).buf@.len() == 0,
            final(self).end() == old(self).end(),
    {
        if self.buf.len() == 0 {
            return None;
        }
        let at: u64 = self.pos;
        let n: u64 = self.buf.len() as u64;
        let mut out: Vec<u8> = Vec::new();
        append_bytes(&mut out, &self.buf);
        self.buf = Vec::new();
        self.pos = at + n;
        proof {
            assert(out@ =~= old(self).buf@);
        }
        Some((at, out))
    }

    /// Where the next byte goes.
    pub fn position(&self) -> (r: u64)
        requires
            self.end() <= u64::MAX,
        ensures
            r == self.end(),
    {
        self.pos + self.buf.len() as u64
    }
}

/// `at - delta` as an unsigned 64 bit number that wraps around.
pub open spec fn stored_offset(at: int, delta: int) -> nat {
    ((at - delta) % 0x1_0000_0000_0000_0000) as nat
}

/// `at - delta`, wrapping around.
fn store_offset(at: u64, delta: i64) -> (r: u64)
    ensures
        r == stored_offset(at as int, delta as int),
{
    let wide: i128 = at as i128 - delta as i128;
    let r: u64 = if wide < 0 {
        (wide + 0x1_0000_0000_0000_0000) as u64
    } else if wide > u64::MAX as i128 {
        (wide - 0x1_0000_0000_0000_0000) as u64
    } else {
        wide as u64
    };
    r
}

/// The bytes of a list of byte strings in a row.
pub open spec fn concat(v: Seq<Vec<u8>>) -> Seq<u8>
    decreases v.len(),
{
    if v.len() == 0 {
        Seq::empty()
    } else {
        concat(v.drop_last()) + v.last()@
    }
}

/// The bytes of the records `kept`, in a row.
pub open spec fn record_bytes(bytes: Seq<u8>, kept: Seq<RecordView>) -> Seq<u8>
    decreases kept.len(),
{
    if kept.len() == 0 {
        Seq::empty()
    } else {
        let r = kept.last();
        record_bytes(bytes, kept.drop_last()) + bytes.subrange(r.offset, r.offset + r.len)
    }
}

/// The local header of a measured entry.
pub open spec fn local_bytes(m: Measured) -> Seq<u8> {
    packed(local_fields(m)) + recorded_name(m.entry.path@, m.entry.is_directory) + packed(local_extra(m))
}

/// A rewrite of the tail under way: the new entries, then the directory keeping some
/// records and adding theirs, then the end records.
#[derive(Debug, PartialEq, Eq)]
pub struct TailRewrite {
    pub out: TailWriter,
    /// What every stored offset is shifted by.
    pub delta: i64,
    pub new_records: Vec<Vec<u8>>,
}

impl TailRewrite {
    /// A rewrite from the central directory `cd` on, of an archive that can be written.
    pub fn start(writable: bool, cd: &Directory) -> (r: Result<TailRewrite>)
        ensures
            !writable ==> fails_protocol(r, "Cannot change an archive you can only read"@),
            writable ==> r is Ok && r->Ok_0.out.pos == cd.start && r->Ok_0.out.buf@.len() == 0 && r->Ok_0.delta
                == cd.delta && r->Ok_0.new_records@.len() == 0,
    {
        if !writable {
            return Err(crate::error::protocol("Cannot change an archive you can only read"));
        }
        Ok(TailRewrite { out: TailWriter::new(cd.start), delta: cd.delta, new_records: Vec::new() })
    }

    /// Starts an entry: its directory record is made, and its local header taken in.
    /// Gives back where its data starts.
    pub fn begin_entry(&mut self, m: &Measured) -> (data_start: u64)
        requires
            old(self).out.end() + local_bytes(*m).len() <= u64::MAX,
        ensures
            final(self).delta == old(self).delta,
            final(self).out.pos == old(self).out.pos,
            final(self).out.buf@ == old(self).out.buf@ + local_bytes(*m),
            concat(final(self).new_records@) == concat(old(self).new_records@) + central_bytes(
                *m,
                stored_offset(old(self).out.end(), old(self).delta as int),
            ),
            final(self).new_records@.len() == old(self).new_records@.len() + 1,
            data_start == final(self).out.end(),
    {
        let at: u64 = self.out.position();
        let rec = central_record(m, store_offset(at, self.delta));
        let ghost before = self.new_records@;
        let ghost rb = rec@;
        self.new_records.push(rec);
        proof {
            assert(self.new_records@.drop_last() =~= before);
        }
        let header = local_header(m);
        self.out.push(&header);
        self.out.position()
    }

    /// Ends an entry whose data started at `data_start`.
    pub fn end_entry(&self, m: &Measured, data_start: u64) -> (r: Result<()>)
        requires
            data_start <= self.out.end() <= u64::MAX,
        ensures
            self.out.end() - data_start == m.compressed_size ==> r is Ok,
            self.out.end() - data_start != m.compressed_size ==> fails_protocol(
                r,
                m.entry.path@ + " changed while it was being added"@,
            ),
    {
        if self.out.position() - data_start != m.compressed_size {
            return Err(Error::Protocol(join2(m.entry.path.as_str(), " changed while it was being added")));
        }
        Ok(())
    }

    /// Ends the rewrite: takes in the directory and the end records, and gives back
    /// the length that the file has then.
    pub fn finish(&mut self, directory: &CentralDirectory, kept: &Vec<DirectoryRecord>) -> (end: u64)
        requires
            forall|i: int|
                0 <= i < kept@.len() ==> (#[trigger] kept@[i]).offset + kept@[i].len <= directory.bytes@.len(),
            kept@.len() + old(self).new_records@.len() <= u64::MAX,
            old(self).out.end() + record_bytes(directory.bytes@, record_views(kept@)).len() + concat(
                old(self).new_records@,
            ).len() + 98 <= u64::MAX,
        ensures
            final(self).out.pos == old(self).out.pos,
            ({
                let dir = record_bytes(directory.bytes@, record_views(kept@)) + concat(old(self).new_records@);
                let start = old(self).out.end();
                final(self).out.buf@ == old(self).out.buf@ + dir + end_bytes(
                    (kept@.len() + old(self).new_records@.len()) as nat,
                    dir.len(),
                    stored_offset(start, old(self).delta as int),
                    (start + dir.len()) as nat,
                )
            }),
            end == final(self).out.end(),
    {
        let ghost kv = record_views(kept@);
        let ghost nr = self.new_records@;
        let mut dir: Vec<u8> = Vec::new();
        proof {
            assert(kv.take(0) =~= Seq::empty());
        }
        for i in 0..kept.len()
            invariant
                kv == record_views(kept@),
                forall|k: int|
                    0 <= k < kept@.len() ==> (#[trigger] kept@[k]).offset + kept@[k].len <= directory.bytes@.len(),
                dir@ == record_bytes(directory.bytes@, kv.take(i as int)),
        {
            proof {
                assert(kv.take(i as int + 1).drop_last() =~= kv.take(i as int));
                assert(kv.take(i as int + 1).last() == kept@[i as int]@);
                assert(directory.bytes@.len() == directory.bytes.len());
            }
            let piece = slice_bytes(&directory.bytes, kept[i].offset, kept[i].offset + kept[i].len);
            append_bytes(&mut dir, &piece);
        }
        proof {
            assert(kv.take(kv.len() as int) =~= kv);
            assert(nr.take(0) =~= Seq::empty());
            assert(dir@ + concat(nr.take(0)) =~= dir@);
        }
        let ghost kept_part = dir@;
        for i in 0..self.new_records.len()
            invariant
                self.new_records@ == nr,
                self.out == old(self).out,
                self.delta == old(self).delta,
                dir@ == kept_part + concat(nr.take(i as int)),
        {
            proof {
                assert(nr.take(i as int + 1).drop_last() =~= nr.take(i as int));
                assert(kept_part + concat(nr.take(i as int + 1)) =~= kept_part + concat(nr.take(i as int)) + nr[i as int]@);
            }
            append_bytes(&mut dir, &self.new_records[i]);
        }
        proof {
            assert(nr.take(nr.len() as int) =~= nr);
        }
        let dir_start: u64 = self.out.position();
        let dir_len: u64 = dir.len() as u64;
        let count: u64 = kept.len() as u64 + self.new_records.len() as u64;
        let eocd = end_records(count, dir_len, store_offset(dir_start, self.delta), dir_start + dir_len);
        self.out.push(&dir);
        self.out.push(&eocd);
        proof {
            lemma_end_len(
                count as nat,
                dir_len as nat,
                stored_offset(dir_start as int, self.delta as int),
                (dir_start + dir_len) as nat,
            );
        }
        self.out.position()
    }
}

/// The end records take 22 bytes, and 76 more with the zip64 pair.
pub proof fn lemma_end_len(entries: nat, dir_size: nat, dir_offset: nat, end_position: nat)
    ensures
        end_bytes(entries, dir_size, dir_offset, end_position).len() == if crate::archive::writer::needs_zip64(
            entries,
            dir_size,
            dir_offset,
        ) {
            98nat
        } else {
            22nat
        },
{
    let z = crate::archive::writer::zip64_fields(entries, dir_size, dir_offset, end_position);
    let e = crate::archive::writer::end_fields(entries, dir_size, dir_offset);
    crate::archive::layout::lemma_packed_len(z);
    crate::archive::layout::lemma_packed_len(e);
    reveal_with_fuel(crate::archive::layout::width, 15);
}

} // verus!
