use peergos_fs::capability::AbsoluteCapability;
use peergos_fs::cbor::CborObject;
use peergos_fs::cryptree::node::CryptreeNode;
use peergos_fs::cryptree::{ChildrenLinks, NamedRelativeCapability, PaddedCipherText, RelativeCapability};
use peergos_fs::files::blocks::{child_link, parent_link, FilePlan};
use peergos_fs::files::children::{check_name, delete_link, link_target, remove_child, rename_link, take_entry};
use peergos_fs::files::chunks::{chunk_count, chunk_len, chunk_slice, FileReader, Section};
use peergos_fs::files::directory::{add_links, list_links, writable_links, DirChunk, DirWalk};
use peergos_fs::files::moves::{
    check_copy, check_move_access, check_move_target, check_no_cycle, choose_signer, is_fast_move, own_writer_for_dir,
    own_writer_for_file, pick_unique_copy_name, OwnWriter,
};
use peergos_fs::files::retrieve::{group_by_writer, split_by_cache, RetrievedCapability};
use peergos_fs::files::search::{narrow, probes, SearchStep};
use peergos_fs::files::upload::{can_resume, folder_path, is_single_chunk, plan_folder, trim_slashes, UploadStep};
use peergos_fs::files::walk::{children_to_remove, chunks_to_remove, ChunkLoc, OwnWriterWalk, RemovalTask, RemovalWalk, SubtreeSearch};
use peergos_fs::files::writer_data::{linked, new_writer_data, node_bats, owned_key, writer_data_with_tree};
use peergos_fs::files::writing::{
    create_directory, create_link_node, create_writable_shared_dir, file_link, is_serial, move_fast_path, needs_tree,
    share_out, surplus_chunks, ChunkNode, ChunkUpload, NewKeys,
};
use peergos_fs::filewrapper::{join, migrate_cache, FileWrapper, Listed, Rewrite};
use peergos_fs::hashtree::RootHash;
use peergos_fs::login::{EntryPoint, LoggedInUser};
use peergos_fs::opaque::Opaque;
use peergos_fs::{CryptreeCache, DirEntry, Error, FileProperties, FileUpload, CHUNK_MAX_SIZE};
use std::collections::HashMap;

fn key(b: u8) -> Opaque {
    Opaque { cbor: CborObject::ByteString(vec![b]) }
}

fn cap_of(b: u8, writer: u8, writable: bool) -> AbsoluteCapability {
    let w = if writable { Some(key(4)) } else { None };
    AbsoluteCapability::new(key(1), key(writer), vec![b; 32], None, key(3), w).unwrap()
}

fn cap(b: u8) -> AbsoluteCapability {
    cap_of(b, 2, true)
}

fn link(name: &str, b: u8) -> NamedRelativeCapability {
    child_link(name, &cap(b), false, None, Some(false), &None, 0)
}

fn entry(name: &str, b: u8) -> DirEntry {
    DirEntry { name: name.into(), is_dir: Some(false), mime_type: None, cap: cap(b) }
}

fn chunk(names: &[&str], next: u8) -> DirChunk {
    DirChunk {
        map_key: vec![0; 32],
        bat: None,
        children: names.iter().map(|n| link(n, 1)).collect(),
        next_map_key: vec![next; 32],
        next_bat: None,
        is_new: false,
        modified: false,
    }
}

fn names(c: &DirChunk) -> Vec<String> {
    c.children.iter().map(|l| l.name.clone()).collect()
}

#[test]
fn chunks_of_a_file() {
    assert_eq!(chunk_count(0), 1);
    assert_eq!(chunk_count(CHUNK_MAX_SIZE), 1);
    assert_eq!(chunk_count(CHUNK_MAX_SIZE + 1), 2);
    assert_eq!(chunk_len(CHUNK_MAX_SIZE + 1, 1), 1);
    let content = vec![7u8; CHUNK_MAX_SIZE as usize + 3];
    assert_eq!(chunk_slice(&content, 1), vec![7u8; 3]);
    assert!(is_single_chunk(CHUNK_MAX_SIZE));
    assert!(!is_single_chunk(CHUNK_MAX_SIZE + 1));
}

#[test]
fn a_file_is_read_to_its_size() {
    let mut r = FileReader::new(5);
    assert_eq!(r.accept(&[1, 2, 3]), vec![1, 2, 3]);
    assert!(!r.is_done());
    assert_eq!(r.accept(&[4, 5, 6]), vec![4, 5]);
    assert!(r.is_done());
}

#[test]
fn a_section_spans_chunks() {
    let size = CHUNK_MAX_SIZE + 10;
    let s = Section::to_read(CHUNK_MAX_SIZE - 2, 5, size).unwrap();
    assert_eq!((s.start_chunk, s.end_chunk), (0, 1));
    let first = vec![1u8; CHUNK_MAX_SIZE as usize];
    let second = vec![2u8; 10];
    let mut out = Vec::new();
    s.read_chunk(0, &first, &mut out);
    s.read_chunk(1, &second, &mut out);
    assert_eq!(out, vec![1, 1, 2, 2, 2]);
    assert!(Section::to_read(size, 1, size).is_none());
    let w = Section::to_overwrite(false, CHUNK_MAX_SIZE - 1, 3, size).unwrap().unwrap();
    let mut a = first.clone();
    let mut b = second.clone();
    w.write_chunk(0, &mut a, &[9, 8, 7]);
    w.write_chunk(1, &mut b, &[9, 8, 7]);
    assert_eq!(a[a.len() - 2..], [1, 9]);
    assert_eq!(b[..3], [8, 7, 2]);
    assert!(Section::to_overwrite(false, size - 1, 2, size).is_err());
    assert!(Section::to_overwrite(true, 0, 0, size).unwrap().is_none());
    assert_eq!(
        Section::to_overwrite(true, 0, 1, size),
        Err(Error::Protocol("cannot overwrite a directory".into()))
    );
}

#[test]
fn the_first_absent_chunk_is_found() {
    for absent in [0u64, 1, 7, 8, 99, 100] {
        let (mut lo, mut hi) = (0u64, 100u64);
        let found = loop {
            if lo >= hi {
                break lo;
            }
            let flags: Vec<bool> = probes(lo, hi).iter().map(|p| *p < absent).collect();
            match narrow(lo, hi, &flags) {
                SearchStep::Found(n) => break n,
                SearchStep::Between(a, b, _) => {
                    lo = a;
                    hi = b;
                }
            }
        };
        assert_eq!(found, absent);
    }
}

#[test]
fn links_are_added_to_the_first_chunk_with_room() {
    let chunks = vec![chunk(&["a", "b"], 1), chunk(&["c"], 2)];
    let fresh = vec![(vec![8; 32], None), (vec![9; 32], None), (vec![10; 32], None)];
    let out = add_links(chunks, vec![link("b", 5), link("d", 6), link("e", 7)], 2, fresh);
    assert_eq!(out.len(), 3);
    assert_eq!(names(&out[0]), vec!["a", "b"]);
    assert_eq!(names(&out[1]), vec!["c", "d"]);
    assert_eq!(names(&out[2]), vec!["e"]);
    assert_eq!(out[0].children[1].cap.map_key, vec![5; 32]);
}

#[test]
fn full_directories_overflow() {
    let out = add_links(vec![chunk(&["a"], 1)], vec![link("b", 5)], 1, vec![(vec![8; 32], None)]);
    assert_eq!(out.len(), 2);
    assert!(out[1].is_new);
    assert_eq!(out[1].map_key, vec![1; 32]);
    assert_eq!(out[1].next_map_key, vec![8; 32]);
    assert!(!out[0].modified);
}

#[test]
fn children_are_removed_and_renamed() {
    let (out, gone) = remove_child(vec![chunk(&["a", "b"], 1)], "a");
    assert_eq!(gone.unwrap().name, "a");
    assert_eq!(names(&out[0]), vec!["b"]);
    assert_eq!(
        delete_link(vec![chunk(&["a"], 1)], "x").map(|_| ()),
        Err(Error::Protocol("no such child: x".into()))
    );
    let (out, at) = rename_link(vec![chunk(&["a"], 1), chunk(&["b"], 2)], "b", "c").unwrap();
    assert_eq!(at, 1);
    assert_eq!(names(&out[1]), vec!["c"]);
    assert_eq!(
        rename_link(vec![chunk(&["a", "b"], 1)], "a", "b").map(|_| ()),
        Err(Error::Protocol("cannot rename: 'b' already exists".into()))
    );
    assert_eq!(check_name("x/y"), Err(Error::Protocol("illegal file name: x/y".into())));
    assert!(check_name("ok").is_ok());
}

#[test]
fn directories_are_listed() {
    let links = ChildrenLinks::Named(vec![link("a", 5)]);
    let v = list_links(links, &cap(1), vec![None]).unwrap();
    assert_eq!(v[0].name, "a");
    assert_eq!(v[0].cap.map_key, vec![5; 32]);
    assert_eq!(take_entry(v, "a").unwrap().name, "a");
    assert_eq!(link_target(vec![]).map(|_| ()), Err(Error::Protocol("link node has no target".into())));
    assert!(writable_links(ChildrenLinks::Legacy(vec![]), " for writes").is_err());
    let mut w = DirWalk::start(true, &[1; 32]).unwrap();
    assert!(w.follow(&[2; 32]));
    assert!(!w.follow(&[1; 32]));
    assert!(DirWalk::start(false, &[1; 32]).is_err());
}

#[test]
fn moves_are_checked() {
    assert!(choose_signer(None, None, "none").is_err());
    assert_eq!(choose_signer(Some(key(1)), Some(key(2)), "").unwrap(), key(1));
    assert!(check_copy(false, true).is_err());
    assert!(check_copy(true, true).is_ok());
    assert!(check_move_access(&cap(1), &cap_of(2, 2, false)).is_err());
    assert!(check_move_target(true, &vec![entry("a", 1)], "a").is_err());
    assert!(check_move_target(true, &vec![entry("a", 1)], "b").is_ok());
    assert!(check_no_cycle(Some(true), true).is_err());
    assert!(is_fast_move(true, &cap(1), &cap(2)));
    assert!(!is_fast_move(true, &cap(1), &cap_of(2, 9, true)));
    let mut d = entry("d", 1);
    d.is_dir = Some(true);
    assert_eq!(own_writer_for_dir(&d, &cap(9), false).unwrap(), OwnWriter::Relocate);
    assert_eq!(own_writer_for_dir(&d, &cap(9), true).unwrap(), OwnWriter::FollowLink);
    assert!(own_writer_for_file(&d, &cap(9), false).is_err());
    assert_eq!(pick_unique_copy_name(&vec!["a.txt".into()], "b.txt"), "b.txt");
    let n = pick_unique_copy_name(&vec!["a.txt".into()], "a.txt");
    assert_ne!(n, "a.txt");
}

#[test]
fn folders_are_planned_by_size() {
    let f = |n: &str, s: u64| FileUpload::new(n.into(), s, 0);
    let h = RootHash { hash: vec![1; 32] };
    let files = vec![f("big", CHUNK_MAX_SIZE + 1), f("b", 2), f("a", 1), f("same", 3).with_hash(h.dup())];
    let steps = plan_folder(files, &vec![("same".to_string(), h)], "x/y");
    assert_eq!(steps.len(), 2);
    match &steps[0] {
        UploadStep::Batch(v) => assert_eq!(v.iter().map(|f| f.name.as_str()).collect::<Vec<_>>(), vec!["a", "b"]),
        _ => panic!("a batch comes first"),
    }
    match &steps[1] {
        UploadStep::Large(f, path) => assert_eq!((f.name.as_str(), path.as_str()), ("big", "x/y/big")),
        _ => panic!("then the large file"),
    }
    assert_eq!(folder_path("/x/", &vec!["y".into()]), "x/y");
    assert_eq!(trim_slashes("//a/b/"), "a/b");
    assert!(can_resume(5, &None, 5, &None));
    assert!(!can_resume(5, &None, 6, &None));
}

#[test]
fn descendants_are_deleted_first() {
    let mut w = OwnWriterWalk::start(&cap(1));
    let (c, first) = w.next().unwrap();
    assert!(first);
    assert_eq!(c, cap(1));
    w.on_link(first, cap_of(2, 7, true));
    let (c, owned) = w.next().unwrap();
    w.on_directory(owned, vec![cap_of(3, 7, true)]);
    assert_eq!(c, cap_of(2, 7, true));
    let (_, owned) = w.next().unwrap();
    w.on_link(owned, cap_of(4, 8, true));
    while w.next().is_some() {}
    let (order, first_level) = w.deletion_order();
    assert_eq!(order, vec![cap_of(4, 8, true), cap_of(2, 7, true)]);
    assert_eq!(first_level, vec![key(7)]);
}

#[test]
fn only_named_children_are_removed() {
    let named = ChildrenLinks::Named(vec![link("a", 4), link("b", 5)]);
    let found: Vec<Vec<u8>> = children_to_remove(&named).into_iter().map(|l| l.map_key).collect();
    assert_eq!(found, vec![link("a", 4).cap.map_key, link("b", 5).cap.map_key]);
    assert_eq!(children_to_remove(&ChildrenLinks::Legacy(vec![link("a", 4).cap])), vec![]);
}

#[test]
fn removals_and_searches_walk_subtrees() {
    let loc = |b: u8| ChunkLoc { map_key: vec![b; 32], bat: None, r_base_key: key(3) };
    let mut w = RemovalWalk::start(loc(1));
    assert!(matches!(w.next(), Some(RemovalTask::Visit(_))));
    w.on_file(vec![vec![1; 32], vec![2; 32]]);
    let mut keys = Vec::new();
    while let Some(RemovalTask::Remove(k)) = w.next() {
        keys.push(k[0]);
    }
    assert_eq!(keys, vec![1, 2]);
    assert_eq!(chunks_to_remove(CHUNK_MAX_SIZE + 1, true), 2);
    let mut s = SubtreeSearch::start(&cap(1));
    assert_eq!(s.next(&cap(3)), Some(cap(1)));
    s.on_directory(vec![cap(3)]);
    assert_eq!(s.next(&cap(3)), None);
    assert!(s.found);
}

#[test]
fn writer_data_is_changed() {
    let wd = new_writer_data(&key(1), &[1, 2], &[3, 4]);
    let changed = writer_data_with_tree(&wd, &[5]).unwrap();
    assert_eq!(linked(&changed, "tree", "none").unwrap(), vec![5]);
    assert_eq!(linked(&changed, "owned", "none").unwrap(), vec![1, 2]);
    assert_eq!(linked(&CborObject::Null, "tree", "none"), Err(Error::Protocol("none".into())));
    assert!(writer_data_with_tree(&CborObject::Null, &[5]).is_err());
    let mut k = key(1).cbor.to_bytes();
    k.reverse();
    assert_eq!(owned_key(&key(1)), k);
    assert_eq!(node_bats(Some(CborObject::Null), Some(&key(2))).len(), 2);
}

fn keys(b: u8) -> NewKeys {
    NewKeys {
        r_base_key: key(10),
        inner_key: key(11),
        w_base_key: key(12),
        map_key: vec![b; 32],
        bat: key(13),
        next_map_key: vec![b + 1; 32],
        next_bat: None,
    }
}

#[test]
fn new_nodes_lead_to_their_parents() {
    let d = create_directory(&cap(1), &key(20), "sub", true, 5, &keys(30), Some(CborObject::Null)).unwrap();
    assert_eq!(d.cap.map_key, vec![30; 32]);
    assert!(d.parent.properties.is_hidden);
    assert_eq!(d.parent.parent_link.unwrap(), parent_link(&cap(1), &key(20), false));
    assert_eq!(d.link.cap.map_key, vec![30; 32]);
    assert_eq!(d.base.next_chunk.map_key, vec![31; 32]);
    let o = create_writable_shared_dir(&cap(1), &key(20), &key(9), CborObject::Long(1), "s", 5, &keys(30)).unwrap();
    assert_eq!(o.cap.writer, key(9));
    assert_eq!(o.base.signer, Some(CborObject::Long(1)));
    assert_eq!(o.parent.parent_link.unwrap().writer, Some(key(2)));
    let l = create_link_node(&cap(1), &key(20), "s", &o.cap, true, &None, 5, &keys(40), CborObject::Null, None).unwrap();
    assert!(l.parent.properties.is_link);
    assert_eq!(l.target.cap.writer, Some(key(9)));
    assert_eq!(l.link.cap.writer, None);
    let read_only = o.cap.read_only();
    assert_eq!(
        create_link_node(&cap(1), &key(20), "s", &read_only, true, &None, 5, &keys(40), CborObject::Null, None).map(|_| ()),
        Err(Error::Protocol("target not writable".into()))
    );
    assert_eq!(file_link("f", &cap(5), None, "text/plain", 7).is_dir, Some(false));
    let m = move_fast_path(&entry("a", 5), FileProperties::new_directory("a".into(), 3), &cap_of(6, 9, true), &key(21), "a", None);
    assert_eq!(m.link.cap.writer, Some(key(2)));
    assert_eq!(m.parent.parent_link.unwrap().writer, Some(key(9)));
    assert_eq!(m.link.created_epoch, Some(3));
}

#[test]
fn uploaded_chunks_are_chained() {
    let plan = FilePlan {
        to_parent: parent_link(&cap(1), &key(20), false),
        name: "f".into(),
        mime_type: "m".into(),
        size: CHUNK_MAX_SIZE + 4,
        created_epoch: 9,
        is_hidden: false,
        stream_secret: vec![1; 32],
        thumbnail: Some(("image/webp".into(), vec![1])),
        writer_link: None,
    };
    let mut u = ChunkUpload::start(plan, key(3), key(4), vec![1; 32], None);
    assert_eq!(u.to_read(), Some((0, CHUNK_MAX_SIZE)));
    let a = u.write(vec![2; 32], None, None, &None);
    assert_eq!(u.to_read(), Some((CHUNK_MAX_SIZE, 4)));
    let b = u.write(vec![3; 32], None, None, &None);
    assert_eq!(u.to_read(), None);
    assert_eq!(a.base.next_chunk.map_key, b.map_key);
    assert!(a.parent.properties.thumbnail.is_some());
    assert!(b.parent.properties.thumbnail.is_none());
}

/// What an upload stores: at each map key its node, and the data of the chunk.
fn upload(content: &[u8]) -> HashMap<Vec<u8>, (ChunkNode, Vec<u8>)> {
    let plan = FilePlan {
        to_parent: parent_link(&cap(1), &key(20), false),
        name: "notes.txt".into(),
        mime_type: "text/plain".into(),
        size: content.len() as u64,
        created_epoch: 9,
        is_hidden: false,
        stream_secret: vec![1; 32],
        thumbnail: None,
        writer_link: None,
    };
    let mut u = ChunkUpload::start(plan, key(3), key(4), vec![0; 32], None);
    let mut stored = HashMap::new();
    while let Some((at, len)) = u.to_read() {
        let next = vec![u.done as u8 + 1; 32];
        let node = u.write(next, None, None, &None);
        let data = content[at as usize..(at + len) as usize].to_vec();
        stored.insert(node.map_key.clone(), (node, data));
    }
    stored
}

#[test]
fn an_uploaded_file_reads_back() {
    let long: Vec<u8> = (0..2 * CHUNK_MAX_SIZE + 5).map(|i| (i % 251) as u8).collect();
    for content in [&b""[..], &b"hello peergos"[..], &long[..], &long[..CHUNK_MAX_SIZE as usize]] {
        let stored = upload(content);
        let first = &stored[&vec![0u8; 32]].0.parent.properties;
        assert_eq!((first.name.as_str(), first.size), ("notes.txt", content.len() as u64));
        let mut reader = FileReader::new(first.size);
        let mut at = vec![0u8; 32];
        let mut read = Vec::new();
        loop {
            let (node, data) = &stored[&at];
            read.extend(reader.accept(data));
            if reader.is_done() {
                break;
            }
            at = node.base.next_chunk.map_key.clone();
        }
        assert_eq!(read, content);
    }
    let stored = upload(&long);
    let (offset, n) = (CHUNK_MAX_SIZE - 3, CHUNK_MAX_SIZE + 6);
    let s = Section::to_read(offset, n, long.len() as u64).unwrap();
    let mut out = Vec::new();
    for i in s.start_chunk..=s.end_chunk {
        s.read_chunk(i, &stored[&vec![i as u8; 32]].1, &mut out);
    }
    assert_eq!(out, long[offset as usize..(offset + n) as usize]);
}

#[test]
fn rewrites_drop_surplus_chunks() {
    assert_eq!(surplus_chunks(CHUNK_MAX_SIZE * 3, 1), Some((1, 3)));
    assert_eq!(surplus_chunks(1, 1), None);
    assert!(needs_tree(1025));
    assert!(!needs_tree(1024));
}

#[test]
fn chunks_are_shared_out_to_threads() {
    assert_eq!(share_out(10, 4), vec![(0, 3), (3, 6), (6, 9), (9, 10)]);
    assert_eq!(share_out(4, 3), vec![(0, 2), (2, 4)]);
    assert!(is_serial(4, 4));
    assert!(!is_serial(5, 4));
}

fn wrapper(props: FileProperties) -> FileWrapper {
    FileWrapper::from_cap(cap(1), props, "n", "dir", None, None)
}

fn file(size: u64) -> FileWrapper {
    wrapper(FileProperties::new_file("n".into(), "m".into(), size, 0, vec![1; 32], None))
}

#[test]
fn files_are_appended_to_and_truncated() {
    assert_eq!(file(3).append(b"abc", b"de").unwrap(), Rewrite::Content(b"abcde".to_vec()));
    assert_eq!(file(3).append(b"abc", b"").unwrap(), Rewrite::Nothing);
    assert_eq!(
        file(CHUNK_MAX_SIZE).append(b"", b"x"),
        Err(Error::Protocol("append that would cross a chunk boundary is not supported yet".into()))
    );
    assert_eq!(file(3).truncate(b"abc", 2).unwrap(), Rewrite::Content(b"ab".to_vec()));
    assert_eq!(file(3).truncate(b"abc", 3).unwrap(), Rewrite::Nothing);
    assert_eq!(
        file(CHUNK_MAX_SIZE + 1).truncate(b"", 3),
        Err(Error::Protocol("truncate of multi-chunk files is not supported yet".into()))
    );
    assert_eq!((file(3).check_append(0).unwrap(), file(3).check_append(2).unwrap()), (false, true));
    assert_eq!((file(3).check_truncate(3).unwrap(), file(3).check_truncate(2).unwrap()), (false, true));
    assert!(file(CHUNK_MAX_SIZE + 1).check_truncate(2).is_err());
    let d = wrapper(FileProperties::new_directory("d".into(), 0));
    assert_eq!(d.append(b"", b"x"), Err(Error::Protocol("cannot append to a directory".into())));
    assert_eq!(d.truncate(b"", 0), Err(Error::Protocol("cannot truncate a directory".into())));
    assert_eq!(d.check_read(), Err(Error::Protocol("cannot read a directory".into())));
    assert_eq!(d.check_overwrite(), Err(Error::Protocol("cannot overwrite a directory".into())));
    assert_eq!(d.check_hash(), Err(Error::Protocol("cannot hash a directory".into())));
    assert_eq!(d.direct_children_count(&vec![entry("a", 1)]), 1);
    assert_eq!(file(3).direct_children_count(&vec![]), 0);
}

fn retrieved(b: u8, is_link: bool) -> RetrievedCapability {
    let padded = || PaddedCipherText { cipher_text: key(1) };
    let mut properties = FileProperties::new_directory("x".into(), 0);
    properties.is_link = is_link;
    RetrievedCapability {
        cap: cap(b),
        node: CryptreeNode::new(true, vec![], padded(), padded(), CborObject::Null),
        properties,
    }
}

#[test]
fn children_follow_links() {
    let d = wrapper(FileProperties::new_directory("d".into(), 0));
    let entries = vec![entry("a", 1), entry("b", 2), entry("c", 3)];
    let v = d.children(entries, &vec![retrieved(1, false), retrieved(2, true)]).unwrap();
    match &v[0] {
        Listed::Child(w) => assert_eq!((w.name(), w.path()), ("a", "dir/a")),
        _ => panic!("a plain child"),
    }
    assert!(matches!(v[1], Listed::Follow(_)));
    assert!(matches!(v[2], Listed::Follow(_)));
    assert_eq!(file(1).children(vec![], &vec![]), Err(Error::Protocol("not a directory".into())));
    let target = (cap(9), FileProperties::new_directory("t".into(), 0));
    let mut link_props = FileProperties::new_directory("l".into(), 0);
    link_props.is_link = true;
    let w = d.wrap_child(entry("l", 4), link_props.dup(), Some(target)).unwrap();
    assert_eq!(w.capability(), &cap(9));
    assert_eq!(
        d.wrap_child(entry("l", 4), link_props, None),
        Err(Error::Protocol("link node has no target".into()))
    );
    assert_eq!(join("/a/", "b"), "a/b");
    assert_eq!(join("", "b"), "b");
}

#[test]
fn homes_and_links_are_wrapped() {
    let user = LoggedInUser {
        username: "bob".into(),
        identity: key(1),
        signer: key(2),
        root_key: key(3),
        boxer: None,
        entries: vec![EntryPoint { pointer: cap(5), owner_name: "bob".into() }],
        mirror_bat: None,
    };
    let props = FileProperties::new_directory("h".into(), 0);
    let h = FileWrapper::home(&user, props.dup(), None).unwrap();
    assert_eq!((h.name(), h.path()), ("bob", ""));
    assert_eq!(h.home_cap, Some(cap(5)));
    let l = FileWrapper::from_link_cap(cap(6), props, None);
    assert_eq!(l.name(), "h");
    assert_eq!(l.home_cap, None);
    let nobody = LoggedInUser { entries: vec![], ..user };
    assert_eq!(
        FileWrapper::home(&nobody, FileProperties::new_directory("h".into(), 0), None),
        Err(Error::Protocol("no home directory".into()))
    );
}

#[test]
fn capabilities_are_grouped_and_looked_up() {
    let g = group_by_writer(&[cap_of(1, 7, true), cap_of(2, 8, true), cap_of(3, 7, true)]);
    assert_eq!(g, vec![vec![cap_of(1, 7, true), cap_of(3, 7, true)], vec![cap_of(2, 8, true)]]);
    let mut cache = CryptreeCache::new();
    cache.put(&[1], &[1; 32], Some(retrieved(1, false).node));
    cache.put(&[1], &[2; 32], None);
    let s = split_by_cache(&mut cache, &[1], &[cap(1), cap(2), cap(3)]);
    assert_eq!(s.hits.len(), 1);
    assert_eq!(s.absent, vec![cap(2)]);
    assert_eq!(s.remaining, vec![cap(3)]);
}

#[test]
fn mutations_migrate_the_cache() {
    let mut cache = CryptreeCache::new();
    cache.put(&[1], &[1; 32], None);
    cache.put(&[1], &[2; 32], None);
    let d = wrapper(FileProperties::new_directory("d".into(), 0));
    let changed = d.changed_keys(None);
    assert_eq!(changed, vec![vec![1u8; 32]]);
    migrate_cache(&mut cache, &Some(vec![1]), &Some(vec![9]), &changed);
    assert!(cache.get(&[9], &[2; 32]).is_some());
    assert!(cache.get(&[9], &[1; 32]).is_none());
    migrate_cache(&mut cache, &None, &Some(vec![10]), &changed);
    assert!(cache.get(&[9], &[2; 32]).is_some());
    let r = RelativeCapability::subsequent_chunk(vec![1; 32], None, key(1));
    assert_eq!(r.writer, None);
}
