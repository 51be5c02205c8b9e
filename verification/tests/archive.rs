use peergos_fs::archive::changes::{
    erase_range, erase_step, expand, left_behind, plan_move, removal, rename_record, rename_target, rewrite_entry, MovePlan,
};
use peergos_fs::archive::deflater::Deflater;
use peergos_fs::archive::directory::{
    find_eocd, locate_central_directory, records, tail_range, Directory, Located, ZipReader,
};
use peergos_fs::archive::reader::{check_readable, EntryReader};
use peergos_fs::archive::tail::{kept_records, read_directory, TailRewrite};
use peergos_fs::archive::writer::{end_records, measure, Measured, NewEntry};
use peergos_fs::archive::{put_u16, put_u32, put_u64, u16_at, u32_at, u64_at, ZipEntry, DEFLATED, STORED};
use peergos_fs::Error;

const MILLIS: i64 = 1_700_000_000_000;

fn deflate(content: &[u8], piece: usize) -> (Vec<u8>, u32, u64) {
    let mut out = Vec::new();
    let mut d = Deflater::new();
    for part in content.chunks(piece) {
        d.accept(part, &mut out).unwrap();
    }
    let (crc, size) = d.finish(&mut out).unwrap();
    (out, crc, size)
}

fn measured(path: &str, content: &[u8]) -> (Measured, Vec<u8>) {
    let entry = NewEntry::file(path, content.len() as u64, MILLIS).unwrap();
    let (out, crc, size) = deflate(content, 1000);
    let m = measure(entry, crc, size, out.len() as u64).unwrap();
    let data = if m.method == STORED { content.to_vec() } else { out };
    (m, data)
}

fn locate(file: &[u8]) -> Directory {
    let (start, len) = tail_range(file.len() as u64).unwrap();
    let tail = &file[start as usize..start as usize + len];
    let at = find_eocd(tail).unwrap();
    match locate_central_directory(tail, start, at).unwrap() {
        Located::Found(d) => d,
        Located::AtRecord(_) => panic!("no zip64 records expected"),
    }
}

fn open(file: &[u8]) -> ZipReader {
    let cd = locate(file);
    let bytes = &file[cd.start as usize..(cd.start + cd.size) as usize];
    ZipReader::open(file.len() as u64, cd, bytes).unwrap()
}

fn append(file: &mut Vec<u8>, entries: &[(&str, &[u8])], dirs: &[&str]) {
    let cd = locate(file);
    let bytes = file[cd.start as usize..(cd.start + cd.size) as usize].to_vec();
    let directory = read_directory(bytes).unwrap();
    let gone: Vec<String> = entries.iter().map(|e| e.0.to_string()).collect();
    let kept = kept_records(&directory.records, &gone);
    let mut rewrite = TailRewrite::start(true, &cd).unwrap();
    for d in dirs {
        let m = measure(NewEntry::directory(d, MILLIS).unwrap(), 0, 0, 0).unwrap();
        let at = rewrite.begin_entry(&m);
        rewrite.end_entry(&m, at).unwrap();
    }
    for (path, content) in entries {
        let (m, data) = measured(path, content);
        let at = rewrite.begin_entry(&m);
        rewrite.out.push(&data);
        rewrite.end_entry(&m, at).unwrap();
    }
    let end = rewrite.finish(&directory, &kept);
    let (pos, tail) = rewrite.out.flush().unwrap();
    file.truncate(pos as usize);
    file.extend_from_slice(&tail);
    assert_eq!(file.len() as u64, end);
}

fn drop_records(file: &mut Vec<u8>, gone: &Vec<String>) {
    let cd = locate(file);
    let directory = read_directory(file[cd.start as usize..(cd.start + cd.size) as usize].to_vec()).unwrap();
    let kept = kept_records(&directory.records, gone);
    let mut rewrite = TailRewrite::start(true, &cd).unwrap();
    rewrite.finish(&directory, &kept);
    let (pos, tail) = rewrite.out.flush().unwrap();
    file.truncate(pos as usize);
    file.extend_from_slice(&tail);
}

fn empty() -> Vec<u8> {
    end_records(0, 0, 0, 0)
}

fn read(file: &[u8], e: &ZipEntry) -> Result<Vec<u8>, Error> {
    check_readable(e)?;
    let at = e.local_header_offset as usize;
    let mut r = EntryReader::start(e, &file[at..at + 30], file.len() as u64)?;
    let mut out = Vec::new();
    while let Some((at, n)) = r.next_read() {
        r.accept(&file[at as usize..at as usize + n], &mut out)?;
    }
    r.finish(&mut out)?;
    Ok(out)
}

#[test]
fn what_is_added_is_read_back() {
    let long: Vec<u8> = (0..3_000_000u32).map(|i| (i / 7 % 251) as u8).collect();
    let mut file = empty();
    append(&mut file, &[("a/b.txt", b"hello hello hello hello hello"), ("tiny", b"x"), ("long", &long)], &["dir"]);
    let zip = open(&file);
    let ix = zip.index();
    assert_eq!(ix.len(), 5); // with the directory that is only implied
    assert!(ix.is_directory("a"));
    assert!(ix.is_directory("dir"));
    let e = ix.get("a/b.txt").unwrap();
    assert_eq!(e.compression_method, DEFLATED);
    assert_eq!(e.modified_millis, MILLIS);
    assert_eq!(read(&file, e).unwrap(), b"hello hello hello hello hello");
    let tiny = ix.get("tiny").unwrap();
    assert_eq!(tiny.compression_method, STORED);
    assert_eq!(read(&file, tiny).unwrap(), b"x");
    assert_eq!(read(&file, ix.get("long").unwrap()).unwrap(), long);
    assert_eq!(ix.total_size(), 29 + 1 + 3_000_000);
    assert_eq!(ix.get("TINY"), None);
}

#[test]
fn replacing_keeps_the_others() {
    let mut file = empty();
    append(&mut file, &[("one", b"1"), ("two", b"2")], &[]);
    append(&mut file, &[("two", b"222")], &[]);
    let zip = open(&file);
    assert_eq!(read(&file, zip.index().get("one").unwrap()).unwrap(), b"1");
    assert_eq!(read(&file, zip.index().get("two").unwrap()).unwrap(), b"222");
    assert_eq!(zip.index().len(), 2);
}

#[test]
fn listings_are_sorted_and_checked() {
    let mut file = empty();
    append(&mut file, &[("d/b", b"1"), ("d/A", b"2"), ("d/s/x", b"3")], &[]);
    let zip = open(&file);
    let names: Vec<String> = zip.index().list_directory("d").unwrap().iter().map(|e| e.name()).collect();
    assert_eq!(names, vec!["s".to_string(), "A".to_string(), "b".to_string()]);
    assert_eq!(
        zip.index().list_directory("d/b"),
        Err(Error::Protocol("Not a directory in this archive: d/b".into()))
    );
    assert_eq!(zip.index().list_directory("../x"), Err(Error::Protocol("Invalid path: ../x".into())));
}

#[test]
fn listings_do_not_mind_case() {
    let mut file = empty();
    append(&mut file, &[("B", b"1"), ("a", b"2")], &[]);
    let zip = open(&file);
    let names: Vec<String> = zip.index().list_directory("").unwrap().iter().map(|e| e.name()).collect();
    assert_eq!(names, vec!["a".to_string(), "B".to_string()]);
}

#[test]
fn crc_of_known_bytes() {
    // The CRC-32 of "123456789" is the check value of the algorithm.
    assert_eq!(deflate(b"123456789", 4).1, 0xCBF4_3926);
    assert_eq!(deflate(b"", 4).1, 0);
    for len in [1, 7, 64, 1000] {
        let bytes: Vec<u8> = (0..len).map(|i: u32| (i * i * 31 + 7) as u8).collect();
        let mut c = 0xFFFF_FFFFu32;
        for b in &bytes {
            c ^= *b as u32;
            for _ in 0..8 {
                c = if c & 1 == 1 { (c >> 1) ^ 0xEDB8_8320 } else { c >> 1 };
            }
        }
        assert_eq!(deflate(&bytes, 16).1, !c);
    }
}

#[test]
fn damage_is_noticed() {
    let mut file = empty();
    append(&mut file, &[("f", b"abc")], &[]);
    let e = open(&file).index().get("f").unwrap().dup();
    let data = e.local_header_offset as usize + 30 + 1;
    let mut bad = file.clone();
    bad[data] ^= 1;
    assert_eq!(read(&bad, &e), Err(Error::Protocol("Zip entry f failed its CRC check".into())));
    let mut bad = file.clone();
    bad[e.local_header_offset as usize] = 0;
    assert_eq!(read(&bad, &e), Err(Error::Protocol("Invalid local header for zip entry f".into())));
    let mut short = e.dup();
    short.compressed_size = 2;
    assert_eq!(read(&file, &short), Err(Error::Protocol("Zip entry f is shorter than its recorded size".into())));
    let mut large = e.dup();
    large.size = 2;
    assert_eq!(read(&file, &large), Err(Error::Protocol("Zip entry f is larger than its recorded size".into())));
    let mut far = e.dup();
    far.compressed_size = 10_000;
    assert_eq!(read(&file, &far), Err(Error::Protocol("Truncated zip entry f".into())));
}

#[test]
fn corrupt_deflate_streams_are_refused() {
    let mut file = empty();
    append(&mut file, &[("f", &[7u8; 100])], &[]);
    let e = open(&file).index().get("f").unwrap().dup();
    let data = e.local_header_offset as usize + 30 + 1;
    file[data] = 0xff;
    let text = match read(&file, &e) {
        Err(Error::Protocol(m)) => m,
        other => panic!("{other:?}"),
    };
    assert!(text.starts_with("Corrupt zip entry f: "), "{text}");
}

#[test]
fn what_cannot_be_read_is_refused() {
    let mut e = ZipEntry::implicit_directory("d".into(), 0);
    assert_eq!(check_readable(&e), Err(Error::Protocol("Cannot read a directory in an archive: d".into())));
    e.is_directory = false;
    e.compression_method = 9;
    assert_eq!(check_readable(&e), Err(Error::Protocol("Unsupported zip compression method 9 in d".into())));
}

#[test]
fn files_that_are_no_archives_are_refused() {
    assert_eq!(tail_range(21), Err(Error::Protocol("File is too small to be a zip archive".into())));
    assert_eq!(find_eocd(&[0u8; 40]), None);
    assert_eq!(find_eocd(&empty()), Some(0));
}

#[test]
fn removal_takes_what_is_below_along() {
    let mut file = empty();
    append(&mut file, &[("d/a", b"1"), ("d/e/b", b"2"), ("x", b"3")], &[]);
    let zip = open(&file);
    let mut paths: Vec<String> =
        expand(zip.index(), &vec!["d".to_string()]).iter().map(|e| e.path.clone()).collect();
    paths.sort();
    assert_eq!(paths, vec!["d", "d/a", "d/e", "d/e/b"]);
    assert_eq!(removal(zip.index(), &vec!["x".to_string()]).unwrap().len(), 1);
    assert_eq!(
        removal(zip.index(), &vec!["no".to_string()]).map(|v| v.len()),
        Err(Error::Protocol("No such entry in the archive: [\"no\"]".into()))
    );
}

#[test]
fn renames_and_moves_are_planned() {
    let mut file = empty();
    append(&mut file, &[("d/a", b"1"), ("b", b"2")], &[]);
    let zip = open(&file);
    let ix = zip.index();
    assert_eq!(rename_target(ix, "d/a", "z").unwrap(), "d/z");
    assert_eq!(rename_target(ix, "d/a", "x/y"), Err(Error::Protocol("Invalid name: x/y".into())));
    assert_eq!(rename_target(ix, "no", "y"), Err(Error::Protocol("No such entry in the archive: no".into())));
    assert!(matches!(plan_move(ix, "b", "c").unwrap(), MovePlan::InPlace(..)));
    assert!(matches!(plan_move(ix, "b", "longer").unwrap(), MovePlan::Rewrite(..)));
    assert!(plan_move(ix, "d/a", "b").is_err());
}

#[test]
fn a_removed_directory_takes_recorded_directories_along() {
    let mut file = empty();
    append(&mut file, &[("d/a", b"1"), ("dx", b"2")], &["d/sub", "d/sub/deep"]);
    let gone: Vec<String> =
        removal(open(&file).index(), &vec!["d".to_string()]).unwrap().iter().map(|e| e.path.clone()).collect();
    assert_eq!(gone, vec!["d/a", "d/sub", "d/sub/deep", "d"]);
    drop_records(&mut file, &gone);
    let after = open(&file);
    let left: Vec<&str> = after.index().entries().iter().map(|e| e.path.as_str()).collect();
    assert_eq!(left, vec!["dx"]);
}

#[test]
fn a_moved_directory_takes_recorded_directories_along() {
    let mut file = empty();
    append(&mut file, &[("d/a", b"1")], &["d/sub", "e"]);
    let zip = open(&file);
    match plan_move(zip.index(), "d", "f").unwrap() {
        MovePlan::Rewrite(moved, old) => {
            let to: Vec<(&str, bool)> = moved.iter().map(|(_, n)| (n.path.as_str(), n.is_directory)).collect();
            assert_eq!(to, vec![("f/a", false), ("f/sub", true)]);
            assert_eq!(old, vec!["d/a", "d/sub", "d"]);
        }
        other => panic!("{other:?}"),
    }
    assert_eq!(plan_move(zip.index(), "e", "f"), Err(Error::Protocol("Nothing to rename in e".into())));
    assert_eq!(plan_move(zip.index(), "d", "e"), Err(Error::Protocol("Already in the archive: e".into())));
    let a = zip.index().get("d/a").unwrap();
    match rewrite_entry(a, "d/b").unwrap() {
        MovePlan::Rewrite(moved, old) => {
            assert_eq!((moved[0].1.path.as_str(), old), ("d/b", vec!["d/a".to_string()]));
        }
        other => panic!("{other:?}"),
    }
    assert!(rewrite_entry(a, "../b").is_err());
}

/// An archive with one stored file, whose record carries its name in Unicode too.
fn with_unicode_name() -> Vec<u8> {
    let mut file = empty();
    append(&mut file, &[("ab", b"1")], &[]);
    let cd = locate(&file);
    let mut record = file[cd.start as usize..(cd.start + cd.size) as usize].to_vec();
    put_u16(&mut record, 8, 0); // the name is in code page 437
    put_u16(&mut record, 30, 4 + 5 + 2);
    let mut extra = vec![0x75, 0x70, 7, 0, 1];
    extra.extend_from_slice(&crc32fast::hash(b"ab").to_le_bytes());
    extra.extend_from_slice("é".as_bytes());
    record.extend_from_slice(&extra);
    file.truncate(cd.start as usize);
    let at = file.len() as u64;
    file.extend_from_slice(&record);
    let end = file.len() as u64;
    file.extend_from_slice(&end_records(1, record.len() as u64, at, end));
    file
}

#[test]
fn a_unicode_name_is_what_an_entry_is_removed_by() {
    let mut file = with_unicode_name();
    let zip = open(&file);
    assert!(zip.index().get("é").is_some());
    let gone: Vec<String> =
        removal(zip.index(), &vec!["é".to_string()]).unwrap().iter().map(|e| e.path.clone()).collect();
    drop_records(&mut file, &gone);
    assert!(open(&file).index().is_empty());
}

#[test]
fn a_name_is_only_patched_where_it_reads_back() {
    let file = with_unicode_name();
    let cd = locate(&file);
    let mut directory = read_directory(file[cd.start as usize..(cd.start + cd.size) as usize].to_vec()).unwrap();
    assert_eq!(rename_record(&mut directory, "é", "ñ", &file[..30], 0), Ok(false));
    assert_eq!(rename_record(&mut directory, "é", "xy", &file[..30], 0), Ok(true));
    assert_eq!(read_directory(directory.bytes.clone()).unwrap().records[0].path, "xy");
}

#[test]
fn names_that_would_leave_their_place_are_refused() {
    let mut file = empty();
    append(&mut file, &[("d/a", b"1"), ("b", b"2")], &[]);
    let zip = open(&file);
    let ix = zip.index();
    assert_eq!(rename_target(ix, "d/a", "x\\y"), Err(Error::Protocol("Invalid name: x\\y".into())));
    assert_eq!(rename_target(ix, "b", "x\\y"), Err(Error::Protocol("Invalid name: x\\y".into())));
    assert_eq!(rename_target(ix, "b", "C:x").unwrap(), "C:x");
    assert_eq!(rename_target(ix, "b", "..\\x").unwrap(), "..\\x");
    assert_eq!(plan_move(ix, "b", "..\\x"), Err(Error::Protocol("Invalid path in an archive: ..\\x".into())));
    assert_eq!(rename_target(ix, "d/a", "C:x").unwrap(), "d/C:x");
}

#[test]
fn a_path_that_starts_like_a_drive_is_taken_without_it() {
    let mut file = empty();
    append(&mut file, &[("d/a", b"1"), ("b", b"2"), ("d/d/a", b"3"), ("e/f", b"4")], &[]);
    let zip = open(&file);
    let ix = zip.index();
    match plan_move(ix, "b", "/C:x").unwrap() {
        MovePlan::Rewrite(moved, old) => {
            assert_eq!(moved[0].1.path, "x");
            assert_eq!(old, vec!["b"]);
        }
        other => panic!("{other:?}"),
    }
    match plan_move(ix, "d/a", "/C:x").unwrap() {
        MovePlan::InPlace(e, name) => assert_eq!((e.path.as_str(), name.as_str()), ("d/a", "C:x")),
        other => panic!("{other:?}"),
    }
    match plan_move(ix, "e", "/C:g").unwrap() {
        MovePlan::Rewrite(moved, _) => assert_eq!(moved[0].1.path, "g/f"),
        other => panic!("{other:?}"),
    }
    assert_eq!(plan_move(ix, "d/a", "/C:b"), Err(Error::Protocol("Already in the archive: C:b".into())));
    assert_eq!(plan_move(ix, "b", "/C:"), Err(Error::Protocol("Invalid path in an archive: C:".into())));
    assert_eq!(plan_move(ix, "b", "/C:../x"), Err(Error::Protocol("Invalid path in an archive: C:../x".into())));
    assert_eq!(plan_move(ix, "d", "/C:"), Err(Error::Protocol("Already in the archive: d/a".into())));
    let cd = locate(&file);
    let mut directory = read_directory(file[cd.start as usize..(cd.start + cd.size) as usize].to_vec()).unwrap();
    let at = ix.get("d/a").unwrap().local_header_offset as usize;
    assert_eq!(rename_record(&mut directory, "d/a", "C:x", &file[at..at + 30], 0), Ok(true));
    assert_eq!(directory, read_directory(directory.bytes.clone()).unwrap());
    assert!(directory.records.iter().any(|r| r.path == "x"));
}

#[test]
fn a_directory_moves_below_itself() {
    let mut file = empty();
    append(&mut file, &[("d/a", b"1"), ("d/e/b", b"2"), ("x", b"3")], &[]);
    let zip = open(&file);
    let (moved, old) = match plan_move(zip.index(), "d", "d/new").unwrap() {
        MovePlan::Rewrite(moved, old) => (moved, old),
        other => panic!("{other:?}"),
    };
    let to: Vec<&str> = moved.iter().map(|(_, n)| n.path.as_str()).collect();
    assert_eq!(to, vec!["d/new/a", "d/new/e/b"]);
    assert_eq!(old, vec!["d/a", "d/e", "d/e/b", "d"]);
    append(&mut file, &[("d/new/a", b"1"), ("d/new/e/b", b"2")], &[]);
    let now = open(&file);
    let left: Vec<String> = left_behind(now.index(), &old).iter().map(|e| e.path.clone()).collect();
    assert_eq!(left, old);
    drop_records(&mut file, &old);
    let after = open(&file);
    assert_eq!(read(&file, after.index().get("d/new/a").unwrap()).unwrap(), b"1");
    assert_eq!(read(&file, after.index().get("d/new/e/b").unwrap()).unwrap(), b"2");
    assert!(after.index().get("d/a").is_none());
    assert_eq!(read(&file, after.index().get("x").unwrap()).unwrap(), b"3");
}

#[test]
fn a_record_is_renamed_in_place() {
    let mut file = empty();
    append(&mut file, &[("b", b"2")], &[]);
    let cd = locate(&file);
    let mut directory = read_directory(file[cd.start as usize..(cd.start + cd.size) as usize].to_vec()).unwrap();
    let local = file[..30].to_vec();
    assert_eq!(rename_record(&mut directory, "b", "c", &local, 0), Ok(true));
    let again = read_directory(directory.bytes.clone()).unwrap();
    assert_eq!(again.records[0].path, "c");
    assert_eq!(directory, again);
    assert!(rename_record(&mut directory, "zz", "c", &local, 0).is_err());
    assert_eq!(rename_record(&mut directory, "c", "longer", &local, 0), Ok(false));
    assert_eq!(rename_record(&mut directory, "c", "d", &[0u8; 30], 0), Ok(false));
    assert_eq!(directory, again);
}

#[test]
fn data_is_erased_in_steps() {
    let mut file = empty();
    append(&mut file, &[("b", b"2")], &[]);
    let e = open(&file).index().get("b").unwrap().dup();
    let at = e.local_header_offset as usize;
    let (from, to) = erase_range(&e, &file[at..at + 30]).unwrap();
    assert_eq!((from, to), (0, 32));
    assert_eq!(erase_step(from, to), 32);
    assert_eq!(erase_step(0, 100_000_000), 33_554_432);
}

#[test]
fn records_stand_in_a_row() {
    let mut file = empty();
    append(&mut file, &[("a", b"1"), ("bb", b"2")], &[]);
    let cd = locate(&file);
    let rs = records(&file[cd.start as usize..(cd.start + cd.size) as usize]);
    assert_eq!(rs, vec![(0, 47), (47, 48)]);
}

#[test]
fn zip64_end_records_are_written_where_needed() {
    assert_eq!(end_records(1, 47, 100, 147).len(), 22);
    assert_eq!(end_records(70_000, 47, 100, 147).len(), 98);
}

#[test]
fn numbers_are_little_endian() {
    let mut d = vec![0u8; 16];
    put_u16(&mut d, 0, 0x0102);
    put_u32(&mut d, 2, 0x0304_0506);
    put_u64(&mut d, 6, 7);
    assert_eq!(d[0..6], [2, 1, 6, 5, 4, 3]);
    assert_eq!((u16_at(&d, 0), u32_at(&d, 2), u64_at(&d, 6).unwrap()), (0x0102, 0x0304_0506, 7));
}

#[test]
fn new_entries_are_checked() {
    assert_eq!(
        NewEntry::file("a/../b", 1, 0),
        Err(Error::Protocol("Invalid path in an archive: a/../b".into()))
    );
    let e = NewEntry::file("f", 4, 0).unwrap();
    assert_eq!(measure(e, 0, 3, 3), Err(Error::Protocol("f is 3 bytes, not the 4 expected".into())));
    assert_eq!(
        TailRewrite::start(false, &Directory { start: 0, size: 0, entries: 0, delta: 0 }).map(|_| ()),
        Err(Error::Protocol("Cannot change an archive you can only read".into()))
    );
}

#[test]
fn prepended_data_shifts_every_offset() {
    let mut file = empty();
    append(&mut file, &[("f", b"abc")], &[]);
    let mut shifted = b"#!/bin/sh\n".to_vec();
    shifted.extend_from_slice(&file);
    let zip = open(&shifted);
    assert_eq!(zip.cd.delta, 10);
    assert_eq!(read(&shifted, zip.index().get("f").unwrap()).unwrap(), b"abc");
}
