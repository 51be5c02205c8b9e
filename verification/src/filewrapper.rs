//! A handle to a file or directory: its capability, its properties and the signer for
//! writes into it, and what each operation on it decides.
//!
//! Link nodes are followed transparently, so children are the real targets.
use vstd::prelude::*;
use crate::cache::{has_key, is_cache, law_migrate, lookup, migrated, CryptreeCache, Groups};
use crate::capability::{AbsoluteCapability, CapView};
use crate::cryptree::properties::{FileProperties, PropsView};
use crate::error::{fails_protocol, opt, protocol, Result};
use crate::files::chunks::CHUNK_MAX_SIZE;
use crate::files::directory::{dir_entries, DirEntry, DirEntryView};
use crate::files::retrieve::{retrieved_views, RetrievedCapability, RetrievedView};
use crate::files::upload::{join_path, law_trimmed_path, path_in, trim_slashes, trimmed};
use crate::login::{entry_views, home_entry, LoggedInUser};
use crate::opaque::{dup_opt, SigningPrivateKeyAndPublicHash};
use crate::sorting::byte_strings;
use crate::text::{append_bytes, copy_bytes, same_bytes, slice_bytes};

verus! {

/// A handle to a file or directory.
#[derive(Debug, PartialEq, Eq)]
pub struct FileWrapper {
    pub name: String,
    pub cap: AbsoluteCapability,
    pub props: FileProperties,
    /// The signer for writes into this subtree, where it has no writer of its own.
    pub signer: Option<SigningPrivateKeyAndPublicHash>,
    /// Home-relative path.
    pub path: String,
    /// The user's home directory: the anchor for routing a multi-chunk upload through a
    /// crash-safe transaction. `None` for a link, where uploads are always atomic.
    pub home_cap: Option<AbsoluteCapability>,
}

/// The content of a [`FileWrapper`].
pub ghost struct WrapperView {
    pub name: Seq<char>,
    pub cap: CapView,
    pub props: PropsView,
    pub signer: Option<crate::cbor::CborValue>,
    pub path: Seq<char>,
    pub home_cap: Option<CapView>,
}

impl View for FileWrapper {
    type V = WrapperView;

    open spec fn view(&self) -> WrapperView {
        WrapperView {
            name: self.name@,
            cap: self.cap@,
            props: self.props@,
            signer: opt(self.signer),
            path: self.path@,
            home_cap: opt(self.home_cap),
        }
    }
}

/// The path of a child of the directory at `dir`.
pub open spec fn child_path(dir: Seq<char>, name: Seq<char>) -> Seq<char> {
    path_in(trimmed(dir), name)
}

/// The path of a child of the directory at `dir`.
pub fn join(dir: &str, name: &str) -> (r: String)
    ensures
        r@ == child_path(dir@, name@),
{
    let d = trim_slashes(dir);
    join_path(d.as_str(), name)
}

/// A copy of an optional capability.
pub fn dup_cap(c: &Option<AbsoluteCapability>) -> (r: Option<AbsoluteCapability>)
    ensures
        opt(r) == opt(*c),
{
    match c {
        Some(x) => Some(x.dup()),
        None => None,
    }
}

/// A child of a directory, as its handle.
pub open spec fn child_of(w: WrapperView, name: Seq<char>, cap: CapView, props: PropsView) -> WrapperView {
    WrapperView { name, cap, props, signer: w.signer, path: child_path(w.path, name), home_cap: w.home_cap }
}

/// What becomes of an entry of a directory that is listed.
#[derive(Debug, PartialEq, Eq)]
pub enum Listed {
    /// It is a plain child.
    Child(FileWrapper),
    /// It is a link node, or its metadata was not found: it is looked at by itself.
    Follow(DirEntry),
}

/// The content of a [`Listed`].
pub ghost enum ListedView {
    Child(WrapperView),
    Follow(DirEntryView),
}

impl View for Listed {
    type V = ListedView;

    open spec fn view(&self) -> ListedView {
        match self {
            Listed::Child(w) => ListedView::Child(w@),
            Listed::Follow(e) => ListedView::Follow(e@),
        }
    }
}

/// The contents of a list.
pub open spec fn listed_views(v: Seq<Listed>) -> Seq<ListedView> {
    Seq::new(v.len(), |i: int| v[i]@)
}

/// The last of what was retrieved that has this map key.
pub open spec fn last_with_key(v: Seq<RetrievedView>, key: Seq<u8>) -> Option<RetrievedView>
    decreases v.len(),
{
    if v.len() == 0 {
        None
    } else if v.last().cap.map_key == key {
        Some(v.last())
    } else {
        last_with_key(v.drop_last(), key)
    }
}

/// An entry before `i` has the same map key as entry `i`.
pub open spec fn key_was_before(entries: Seq<DirEntryView>, i: int) -> bool {
    exists|j: int| 0 <= j < i && (#[trigger] entries[j]).cap.map_key == entries[i].cap.map_key
}

/// What becomes of entry `i` of a directory: what was retrieved for it counts for the first
/// entry with its map key.
pub open spec fn listed_entry(w: WrapperView, entries: Seq<DirEntryView>, v: Seq<RetrievedView>, i: int) -> ListedView {
    let e = entries[i];
    match last_with_key(v, e.cap.map_key) {
        Some(rc) => if !rc.properties.is_link && !key_was_before(entries, i) {
            ListedView::Child(child_of(w, e.name, rc.cap, rc.properties))
        } else {
            ListedView::Follow(e)
        },
        None => ListedView::Follow(e),
    }
}

/// What becomes of the entries of a directory.
pub open spec fn listing(w: WrapperView, entries: Seq<DirEntryView>, v: Seq<RetrievedView>) -> Seq<ListedView> {
    Seq::new(entries.len(), |i: int| listed_entry(w, entries, v, i))
}

fn find_retrieved(v: &Vec<RetrievedCapability>, key: &[u8]) -> (r: Option<usize>)
    ensures
        match last_with_key(retrieved_views(v@), key@) {
            Some(x) => r is Some && r->Some_0 < v.len() && v[r->Some_0 as int]@ == x,
            None => r is None,
        },
{
    let ghost all = retrieved_views(v@);
    let mut i: usize = v.len();
    proof {
        assert(all.take(i as int) =~= all);
    }
    while i > 0
        invariant
            all == retrieved_views(v@),
            i <= v.len(),
            last_with_key(all, key@) == last_with_key(all.take(i as int), key@),
        decreases i,
    {
        proof {
            assert(all.take(i as int).drop_last() =~= all.take(i - 1));
            assert(all.take(i as int).last() == v[i - 1]@);
        }
        if same_bytes(&v[i - 1].cap.map_key, key) {
            return Some(i - 1);
        }
        i = i - 1;
    }
    None
}

fn seen_before(entries: &Vec<DirEntry>, i: usize) -> (r: bool)
    requires
        i < entries.len(),
    ensures
        r == key_was_before(dir_entries(entries@), i as int),
{
    let ghost ev = dir_entries(entries@);
    for j in 0..i
        invariant
            i < entries.len(),
            ev == dir_entries(entries@),
            forall|k: int| 0 <= k < j ==> (#[trigger] ev[k]).cap.map_key != ev[i as int].cap.map_key,
    {
        if same_bytes(&entries[j].cap.map_key, &entries[i].cap.map_key) {
            proof {
                assert(ev[j as int].cap.map_key == ev[i as int].cap.map_key);
            }
            return true;
        }
    }
    false
}

/// What a mutation of a file's content comes to.
#[derive(Debug, PartialEq, Eq)]
pub enum Rewrite {
    /// There is nothing to do.
    Nothing,
    /// The file is written anew with this content.
    Content(Vec<u8>),
}

impl FileWrapper {
    /// The user's home directory, with its properties.
    pub fn home(user: &LoggedInUser, props: FileProperties, signer: Option<SigningPrivateKeyAndPublicHash>) -> (r: Result<
        FileWrapper,
    >)
        ensures
            match home_entry(entry_views(user.entries@), user.username@) {
                None => fails_protocol(r, "no home directory"@),
                Some(c) => r is Ok && r->Ok_0@ == (WrapperView {
                    name: user.username@,
                    cap: c,
                    props: props@,
                    signer: opt(signer),
                    path: Seq::empty(),
                    home_cap: Some(c),
                }),
            },
    {
        match user.home() {
            None => Err(protocol("no home directory")),
            Some(c) => Ok(
                FileWrapper {
                    name: user.username.clone(),
                    cap: c.dup(),
                    props,
                    signer,
                    path: String::new(),
                    home_cap: Some(c.dup()),
                },
            ),
        }
    }

    /// Wraps a capability, with its properties.
    pub fn from_cap(
        cap: AbsoluteCapability,
        props: FileProperties,
        name: &str,
        path: &str,
        signer: Option<SigningPrivateKeyAndPublicHash>,
        home_cap: Option<AbsoluteCapability>,
    ) -> (r: FileWrapper)
        ensures
            r@ == (WrapperView {
                name: name@,
                cap: cap@,
                props: props@,
                signer: opt(signer),
                path: path@,
                home_cap: opt(home_cap),
            }),
    {
        FileWrapper { name: name.to_owned(), cap, props, signer, path: path.to_owned(), home_cap }
    }

    /// The root of a link: it bears the name in its properties, and uploads into it stay
    /// atomic.
    pub fn from_link_cap(
        cap: AbsoluteCapability,
        props: FileProperties,
        signer: Option<SigningPrivateKeyAndPublicHash>,
    ) -> (r: FileWrapper)
        ensures
            r@ == (WrapperView {
                name: props@.name,
                cap: cap@,
                props: props@,
                signer: opt(signer),
                path: Seq::empty(),
                home_cap: None,
            }),
    {
        let name = props.name.clone();
        FileWrapper { name, cap, props, signer, path: String::new(), home_cap: None }
    }

    pub fn name(&self) -> (r: &str)
        ensures
            r@ == self@.name,
    {
        self.name.as_str()
    }

    pub fn path(&self) -> (r: &str)
        ensures
            r@ == self@.path,
    {
        self.path.as_str()
    }

    pub fn capability(&self) -> (r: &AbsoluteCapability)
        ensures
            *r == self.cap,
    {
        &self.cap
    }

    pub fn properties(&self) -> (r: &FileProperties)
        ensures
            *r == self.props,
    {
        &self.props
    }

    pub fn is_directory(&self) -> (r: bool)
        ensures
            r == self@.props.is_directory,
    {
        self.props.is_directory
    }

    pub fn size(&self) -> (r: u64)
        ensures
            r == self@.props.size,
    {
        self.props.size
    }

    pub fn is_writable(&self) -> (r: bool)
        ensures
            r == self@.cap.is_writable(),
    {
        self.cap.is_writable()
    }

    /// The signer carried for writes into this subtree.
    pub fn signer(&self) -> (r: Option<&SigningPrivateKeyAndPublicHash>)
        ensures
            match self.signer {
                Some(s) => r == Some(&s),
                None => r is None,
            },
    {
        self.signer.as_ref()
    }

    /// The handle of a child that has this capability and these properties.
    pub fn child_with(&self, name: &str, cap: AbsoluteCapability, props: FileProperties) -> (r: FileWrapper)
        ensures
            r@ == child_of(self@, name@, cap@, props@),
    {
        FileWrapper {
            path: join(self.path.as_str(), name),
            name: name.to_owned(),
            cap,
            props,
            signer: dup_opt(&self.signer),
            home_cap: dup_cap(&self.home_cap),
        }
    }

    /// Wraps a directory entry with its properties. A link node stands for its target, which
    /// is given with its own properties.
    pub fn wrap_child(&self, e: DirEntry, props: FileProperties, target: Option<(AbsoluteCapability, FileProperties)>) -> (r:
        Result<FileWrapper>)
        ensures
            if !props@.is_link {
                r is Ok && r->Ok_0@ == child_of(self@, e@.name, e@.cap, props@)
            } else {
                match target {
                    None => fails_protocol(r, "link node has no target"@),
                    Some((c, p)) => r is Ok && r->Ok_0@ == child_of(self@, e@.name, c@, p@),
                }
            },
    {
        if !props.is_link {
            return Ok(self.child_with(e.name.as_str(), e.cap, props));
        }
        match target {
            None => Err(protocol("link node has no target")),
            Some((c, p)) => Ok(self.child_with(e.name.as_str(), c, p)),
        }
    }

    /// The children of this directory, out of its entries and the metadata that was
    /// retrieved for them.
    pub fn children(&self, entries: Vec<DirEntry>, retrieved: &Vec<RetrievedCapability>) -> (r: Result<Vec<Listed>>)
        ensures
            !self@.props.is_directory ==> fails_protocol(r, "not a directory"@),
            self@.props.is_directory ==> r is Ok && listed_views(r->Ok_0@) == listing(
                self@,
                dir_entries(entries@),
                retrieved_views(retrieved@),
            ),
    {
        if !self.is_directory() {
            return Err(protocol("not a directory"));
        }
        let mut out: Vec<Listed> = Vec::new();
        let ghost ev = dir_entries(entries@);
        let ghost rv = retrieved_views(retrieved@);
        for i in 0..entries.len()
            invariant
                ev == dir_entries(entries@),
                rv == retrieved_views(retrieved@),
                out.len() == i,
                forall|k: int| 0 <= k < i ==> (#[trigger] out[k])@ == listed_entry(self@, ev, rv, k),
        {
            let e = &entries[i];
            proof {
                assert(ev[i as int] == e@);
            }
            let item = match find_retrieved(retrieved, &e.cap.map_key) {
                Some(k) => {
                    if !retrieved[k].properties.is_link && !seen_before(&entries, i) {
                        Listed::Child(
                            self.child_with(e.name.as_str(), retrieved[k].cap.dup(), retrieved[k].properties.dup()),
                        )
                    } else {
                        Listed::Follow(e.dup())
                    }
                },
                None => Listed::Follow(e.dup()),
            };
            proof {
                assert(item@ == listed_entry(self@, ev, rv, i as int));
            }
            out.push(item);
        }
        proof {
            assert(listed_views(out@) =~= listing(self@, ev, rv));
        }
        Ok(out)
    }

    /// Checks that this can be read.
    pub fn check_read(&self) -> (r: Result<()>)
        ensures
            self@.props.is_directory ==> fails_protocol(r, "cannot read a directory"@),
            !self@.props.is_directory ==> r is Ok,
    {
        if self.is_directory() {
            Err(protocol("cannot read a directory"))
        } else {
            Ok(())
        }
    }

    /// Checks that a section of this can be overwritten.
    pub fn check_overwrite(&self) -> (r: Result<()>)
        ensures
            self@.props.is_directory ==> fails_protocol(r, "cannot overwrite a directory"@),
            !self@.props.is_directory ==> r is Ok,
    {
        if self.is_directory() {
            Err(protocol("cannot overwrite a directory"))
        } else {
            Ok(())
        }
    }

    /// Checks that this has content that can be hashed.
    pub fn check_hash(&self) -> (r: Result<()>)
        ensures
            self@.props.is_directory ==> fails_protocol(r, "cannot hash a directory"@),
            !self@.props.is_directory ==> r is Ok,
    {
        if self.is_directory() {
            Err(protocol("cannot hash a directory"))
        } else {
            Ok(())
        }
    }

    /// The number of direct children, out of the entries of this directory: a file has none.
    pub fn direct_children_count(&self, entries: &Vec<DirEntry>) -> (r: usize)
        ensures
            r == if self@.props.is_directory { entries@.len() } else { 0 },
    {
        if self.is_directory() {
            entries.len()
        } else {
            0
        }
    }

    /// Whether appending so many bytes to this file changes it. The result has to stay within
    /// a single chunk.
    pub fn check_append(&self, len: usize) -> (r: Result<bool>)
        ensures
            if self@.props.is_directory {
                fails_protocol(r, "cannot append to a directory"@)
            } else if len == 0 {
                r == Ok::<bool, crate::error::Error>(false)
            } else if self@.props.size + len > CHUNK_MAX_SIZE {
                fails_protocol(r, "append that would cross a chunk boundary is not supported yet"@)
            } else {
                r == Ok::<bool, crate::error::Error>(true)
            },
    {
        if self.is_directory() {
            return Err(protocol("cannot append to a directory"));
        }
        if len == 0 {
            return Ok(false);
        }
        if self.props.size > CHUNK_MAX_SIZE || len as u64 > CHUNK_MAX_SIZE - self.props.size {
            return Err(protocol("append that would cross a chunk boundary is not supported yet"));
        }
        Ok(true)
    }

    /// Decides what to do to append `data` to the end of this file. The result has to stay
    /// within a single chunk.
    pub fn append(&self, content: &[u8], data: &[u8]) -> (r: Result<Rewrite>)
        ensures
            if self@.props.is_directory {
                fails_protocol(r, "cannot append to a directory"@)
            } else if data@.len() == 0 {
                r == Ok::<Rewrite, crate::error::Error>(Rewrite::Nothing)
            } else if self@.props.size + data@.len() > CHUNK_MAX_SIZE {
                fails_protocol(r, "append that would cross a chunk boundary is not supported yet"@)
            } else {
                r is Ok && r->Ok_0 is Content && r->Ok_0->Content_0@ == content@ + data@
            },
    {
        match self.check_append(data.len()) {
            Err(e) => {
                return Err(e);
            },
            Ok(changes) => {
                if !changes {
                    return Ok(Rewrite::Nothing);
                }
            },
        }
        let mut all = copy_bytes(content);
        append_bytes(&mut all, data);
        Ok(Rewrite::Content(all))
    }

    /// Whether shrinking this file to `new_size` bytes changes it: not where it is that small
    /// already. It has to be a single chunk.
    pub fn check_truncate(&self, new_size: u64) -> (r: Result<bool>)
        ensures
            if self@.props.is_directory {
                fails_protocol(r, "cannot truncate a directory"@)
            } else if new_size >= self@.props.size {
                r == Ok::<bool, crate::error::Error>(false)
            } else if self@.props.size > CHUNK_MAX_SIZE {
                fails_protocol(r, "truncate of multi-chunk files is not supported yet"@)
            } else {
                r == Ok::<bool, crate::error::Error>(true)
            },
    {
        if self.is_directory() {
            return Err(protocol("cannot truncate a directory"));
        }
        if new_size >= self.props.size {
            return Ok(false);
        }
        if self.props.size > CHUNK_MAX_SIZE {
            return Err(protocol("truncate of multi-chunk files is not supported yet"));
        }
        Ok(true)
    }

    /// Decides what to do to shrink this file to `new_size` bytes. It has to be a single
    /// chunk, and `content` is what is in it: as much as stays, at least.
    pub fn truncate(&self, content: &[u8], new_size: u64) -> (r: Result<Rewrite>)
        requires
            new_size <= content@.len() || new_size >= self@.props.size || self@.props.is_directory || self@.props.size
                > CHUNK_MAX_SIZE,
        ensures
            if self@.props.is_directory {
                fails_protocol(r, "cannot truncate a directory"@)
            } else if new_size >= self@.props.size {
                r == Ok::<Rewrite, crate::error::Error>(Rewrite::Nothing)
            } else if self@.props.size > CHUNK_MAX_SIZE {
                fails_protocol(r, "truncate of multi-chunk files is not supported yet"@)
            } else {
                r is Ok && r->Ok_0 is Content && r->Ok_0->Content_0@ == content@.take(new_size as int)
            },
    {
        match self.check_truncate(new_size) {
            Err(e) => {
                return Err(e);
            },
            Ok(changes) => {
                if !changes {
                    return Ok(Rewrite::Nothing);
                }
            },
        }
        proof {
            assert(content@.len() == content.len());
        }
        let rest = slice_bytes(content, 0, new_size as usize);
        proof {
            assert(rest@ =~= content@.take(new_size as int));
        }
        Ok(Rewrite::Content(rest))
    }

    /// The map keys of what changes when a child is removed, renamed or moved away: this
    /// directory, and the child if it was found.
    pub fn changed_keys(&self, child: Option<&AbsoluteCapability>) -> (r: Vec<Vec<u8>>)
        ensures
            byte_strings(r@) == match child {
                Some(c) => seq![self@.cap.map_key, c@.map_key],
                None => seq![self@.cap.map_key],
            },
    {
        let mut keys: Vec<Vec<u8>> = Vec::new();
        keys.push(copy_bytes(&self.cap.map_key));
        match child {
            Some(c) => {
                keys.push(copy_bytes(&c.map_key));
            },
            None => {},
        }
        proof {
            assert(byte_strings(keys@) =~= match child {
                Some(c) => seq![self@.cap.map_key, c@.map_key],
                None => seq![self@.cap.map_key],
            });
        }
        keys
    }
}

/// A cache after a mutation that took a writer's tree from one root to another, as far as
/// both are known: unchanged siblings stay warm, and the changed keys are dropped.
pub open spec fn after_mutation(g: Groups, prior: Option<Seq<u8>>, new: Option<Seq<u8>>, keys: Seq<Seq<u8>>) -> Groups {
    match (prior, new) {
        (Some(p), Some(n)) => if p != n {
            migrated(g, p, n, keys)
        } else {
            g
        },
        _ => g,
    }
}

/// Migrates the cache forward after a mutation changed a writer's tree root.
pub fn migrate_cache(cache: &mut CryptreeCache, prior: &Option<Vec<u8>>, new: &Option<Vec<u8>>, changed_keys: &[Vec<u8>])
    requires
        old(cache).wf(),
    ensures
        final(cache).wf(),
        final(cache)@ == after_mutation(old(cache)@, opt(*prior), opt(*new), byte_strings(changed_keys@)),
{
    match (prior, new) {
        (Some(p), Some(n)) => {
            if !same_bytes(p, n) {
                cache.migrate(p, n, changed_keys);
            }
        },
        _ => {},
    }
}

/// The path of a child: its directory's, without slashes at its ends, a slash and its name. A child
/// of the home has its name alone.
pub proof fn law_child_path(dir: Seq<char>, name: Seq<char>)
    requires
        dir.len() > 0,
        dir[0] != '/',
        dir.last() != '/',
    ensures
        child_path(dir, name) == dir + "/"@ + name,
        child_path("/"@ + dir + "/"@, name) == dir + "/"@ + name,
        child_path(Seq::empty(), name) == name,
{
    reveal_strlit("/");
    let s = "/"@ + dir + "/"@;
    assert(s[1] == dir[0] && s[dir.len() as int] == dir.last());
    law_trimmed_path(dir, 0, dir.len() as int);
    assert(dir.subrange(0, dir.len() as int) =~= dir);
    law_trimmed_path(s, 1, (dir.len() + 1) as int);
    assert(s.subrange(1, (dir.len() + 1) as int) =~= dir);
    assert(trimmed(Seq::<char>::empty()) =~= Seq::<char>::empty());
}

/// A child has its own name, capability and properties, and the signer and the home of its directory.
pub proof fn law_child_of(w: WrapperView, name: Seq<char>, cap: CapView, props: PropsView)
    ensures
        child_of(w, name, cap, props).name == name,
        child_of(w, name, cap, props).cap == cap,
        child_of(w, name, cap, props).props == props,
        child_of(w, name, cap, props).signer == w.signer,
        child_of(w, name, cap, props).home_cap == w.home_cap,
        child_of(w, name, cap, props).path == child_path(w.path, name),
{
}

/// The listing of a directory has one item for each entry, in their order. One whose node was
/// retrieved is its child, with the capability and the properties that were retrieved; a link, and
/// one that was not retrieved, is followed.
pub proof fn law_listing(w: WrapperView, entries: Seq<DirEntryView>, v: Seq<RetrievedView>, i: int, k: int)
    requires
        0 <= i < entries.len(),
    ensures
        listing(w, entries, v).len() == entries.len(),
        0 <= k < v.len() && v[k].cap.map_key == entries[i].cap.map_key && (forall|j: int|
            k < j < v.len() ==> (#[trigger] v[j]).cap.map_key != entries[i].cap.map_key) && !v[k].properties.is_link && (forall|
            j: int,
        |
            0 <= j < i ==> (#[trigger] entries[j]).cap.map_key != entries[i].cap.map_key) ==> listing(w, entries, v)[i]
            == ListedView::Child(child_of(w, entries[i].name, v[k].cap, v[k].properties)),
        0 <= k < v.len() && v[k].cap.map_key == entries[i].cap.map_key && (forall|j: int|
            k < j < v.len() ==> (#[trigger] v[j]).cap.map_key != entries[i].cap.map_key) && v[k].properties.is_link
            ==> listing(w, entries, v)[i] == ListedView::Follow(entries[i]),
        0 <= k < i && entries[k].cap.map_key == entries[i].cap.map_key ==> listing(w, entries, v)[i] == ListedView::Follow(
            entries[i],
        ),
        (forall|j: int| 0 <= j < v.len() ==> (#[trigger] v[j]).cap.map_key != entries[i].cap.map_key) ==> listing(
            w,
            entries,
            v,
        )[i] == ListedView::Follow(entries[i]),
{
    let key = entries[i].cap.map_key;
    if 0 <= k < v.len() && v[k].cap.map_key == key && (forall|j: int|
        k < j < v.len() ==> (#[trigger] v[j]).cap.map_key != key) {
        lemma_last_with_key(v, key, k);
    }
    if forall|j: int| 0 <= j < v.len() ==> (#[trigger] v[j]).cap.map_key != key {
        lemma_no_key(v, key);
    }
}

proof fn lemma_last_with_key(v: Seq<RetrievedView>, key: Seq<u8>, k: int)
    requires
        0 <= k < v.len(),
        v[k].cap.map_key == key,
        forall|j: int| k < j < v.len() ==> (#[trigger] v[j]).cap.map_key != key,
    ensures
        last_with_key(v, key) == Some(v[k]),
    decreases v.len(),
{
    if k < v.len() - 1 {
        assert(v[v.len() - 1].cap.map_key != key);
        let init = v.drop_last();
        assert forall|j: int| k < j < init.len() implies (#[trigger] init[j]).cap.map_key != key by {
            assert(init[j] == v[j]);
        }
        lemma_last_with_key(init, key, k);
    }
}

proof fn lemma_no_key(v: Seq<RetrievedView>, key: Seq<u8>)
    requires
        forall|j: int| 0 <= j < v.len() ==> (#[trigger] v[j]).cap.map_key != key,
    ensures
        last_with_key(v, key) is None,
    decreases v.len(),
{
    if v.len() > 0 {
        assert(v[v.len() - 1].cap.map_key != key);
        let init = v.drop_last();
        assert forall|j: int| 0 <= j < init.len() implies (#[trigger] init[j]).cap.map_key != key by {
            assert(init[j] == v[j]);
        }
        lemma_no_key(init, key);
    }
}

/// After a change the cache answers for the new root what it answered for the old one, but for the
/// nodes that were changed, of which it answers nothing. Without a change of the root it stays.
pub proof fn law_cache_after_a_change(
    g: Groups,
    prior: Seq<u8>,
    new: Seq<u8>,
    keys: Seq<Seq<u8>>,
    cap: nat,
    key: Seq<u8>,
)
    requires
        is_cache(g, cap),
        has_key(g, prior),
    ensures
        prior != new && keys.contains(key) ==> lookup(after_mutation(g, Some(prior), Some(new), keys), new, key) is None,
        prior != new && !keys.contains(key) ==> lookup(after_mutation(g, Some(prior), Some(new), keys), new, key) == lookup(
            g,
            prior,
            key,
        ),
        after_mutation(g, Some(prior), Some(prior), keys) == g,
        after_mutation(g, None, Some(new), keys) == g,
        after_mutation(g, Some(prior), None, keys) == g,
{
    if prior != new {
        law_migrate(g, prior, new, keys, cap, key);
    }
}

} // verus!
