//! Moving and copying files and directories, and giving them a writer of their own.
use vstd::prelude::*;
use crate::capability::{AbsoluteCapability, CapView};
use crate::error::{fails_protocol, protocol, Error, Result};
use crate::files::children::{entry_position, find_entry};
use crate::files::directory::{dir_entries, DirEntry};
use crate::opaque::SigningPrivateKeyAndPublicHash;
use crate::paths::{find_last, is_listed, last_place, lemma_last_place, slice_chars, texts};
use crate::text::{chars_of, decimal, decimal_text, join3, lemma_decimal_value, same_bytes, text_of};

verus! {

/// The signer to write with: the one that the directory itself leads to, or else the
/// one that the caller has.
pub fn choose_signer(
    own: Option<SigningPrivateKeyAndPublicHash>,
    entry: Option<SigningPrivateKeyAndPublicHash>,
    missing: &str,
) -> (r: Result<SigningPrivateKeyAndPublicHash>)
    ensures
        own matches Some(s) ==> r == Ok::<SigningPrivateKeyAndPublicHash, Error>(s),
        own is None && entry is Some ==> r == Ok::<SigningPrivateKeyAndPublicHash, Error>(entry->Some_0),
        own is None && entry is None ==> fails_protocol(r, missing@),
{
    match own {
        Some(s) => Ok(s),
        None => match entry {
            Some(s) => Ok(s),
            None => Err(protocol(missing)),
        },
    }
}

/// Refuses a copy into something that cannot be written, or is no directory.
pub fn check_copy(target_writable: bool, target_is_directory: bool) -> (r: Result<()>)
    ensures
        !target_writable ==> fails_protocol(r, "copy requires write access to the target"@),
        target_writable && !target_is_directory ==> fails_protocol(r, "copy target must be a directory"@),
        target_writable && target_is_directory ==> r is Ok,
{
    if !target_writable {
        return Err(protocol("copy requires write access to the target"));
    }
    if !target_is_directory {
        return Err(protocol("copy target must be a directory"));
    }
    Ok(())
}

/// Refuses a move between directories that cannot both be written.
pub fn check_move_access(target: &AbsoluteCapability, source: &AbsoluteCapability) -> (r: Result<()>)
    ensures
        target@.is_writable() && source@.is_writable() ==> r is Ok,
        !(target@.is_writable() && source@.is_writable()) ==> fails_protocol(
            r,
            "move requires write access to both directories"@,
        ),
{
    if !target.is_writable() || !source.is_writable() {
        return Err(protocol("move requires write access to both directories"));
    }
    Ok(())
}

/// Refuses a move into something that is no directory, or has the name already.
pub fn check_move_target(target_is_directory: bool, target_entries: &Vec<DirEntry>, name: &str) -> (r: Result<()>)
    ensures
        !target_is_directory ==> fails_protocol(r, "move target must be a directory"@),
        target_is_directory && entry_position(dir_entries(target_entries@), name@) < target_entries@.len()
            ==> fails_protocol(r, "target already has a child named '"@ + name@ + "'"@),
        target_is_directory && entry_position(dir_entries(target_entries@), name@) == target_entries@.len()
            ==> r is Ok,
{
    if !target_is_directory {
        return Err(protocol("move target must be a directory"));
    }
    match find_entry(target_entries, name) {
        Some(_) => Err(Error::Protocol(join3("target already has a child named '", name, "'"))),
        None => Ok(()),
    }
}

/// Guards against moving a folder into itself or one of its descendants, which would
/// orphan the subtree.
pub fn check_no_cycle(child_is_dir: Option<bool>, target_is_within: bool) -> (r: Result<()>)
    ensures
        child_is_dir == Some(true) && target_is_within ==> fails_protocol(
            r,
            "cannot move a folder into itself or a descendant"@,
        ),
        !(child_is_dir == Some(true) && target_is_within) ==> r is Ok,
{
    match child_is_dir {
        Some(true) => {
            if target_is_within {
                return Err(protocol("cannot move a folder into itself or a descendant"));
            }
            Ok(())
        },
        _ => Ok(()),
    }
}

/// Whether a move only changes metadata: when access is kept and the target shares the
/// source's writer. The data then stays in place with the same keys, and shares of it
/// keep working.
pub fn is_fast_move(keep_access: bool, target: &AbsoluteCapability, source: &AbsoluteCapability) -> (r: bool)
    ensures
        r == (keep_access && target@.writer == source@.writer),
{
    keep_access && target.writer.same(&source.writer)
}

/// Whether two capabilities point to the same place: by writer and map key.
pub open spec fn same_place(a: CapView, b: CapView) -> bool {
    a.writer == b.writer && a.map_key == b.map_key
}

/// Whether two capabilities point to the same place.
pub fn is_same_place(a: &AbsoluteCapability, b: &AbsoluteCapability) -> (r: bool)
    ensures
        r == same_place(a@, b@),
{
    a.writer.same(&b.writer) && same_bytes(&a.map_key, &b.map_key)
}

/// What to do to give a child its own writer.
#[derive(Debug, Clone, Copy, PartialEq, Eq, Structural)]
pub enum OwnWriter {
    /// It is a link node: its target has its own writer already.
    FollowLink,
    /// It has its own writer already.
    Already,
    /// It has to be moved into a new one.
    Relocate,
}

/// How the directory `child` of `parent` gets its own writer. `is_link` is from its
/// properties.
pub fn own_writer_for_dir(child: &DirEntry, parent: &AbsoluteCapability, is_link: bool) -> (r: Result<OwnWriter>)
    ensures
        !child@.cap.is_writable() ==> fails_protocol(
            r,
            "cannot grant write access without a writable capability"@,
        ),
        child@.cap.is_writable() && child@.is_dir != Some(true) ==> fails_protocol(
            r,
            "write-sharing currently supports directories; wrap a file in a directory first"@,
        ),
        child@.cap.is_writable() && child@.is_dir == Some(true) ==> r == Ok::<OwnWriter, Error>(
            if is_link {
                OwnWriter::FollowLink
            } else if child@.cap.writer != parent@.writer {
                OwnWriter::Already
            } else {
                OwnWriter::Relocate
            },
        ),
{
    if !child.cap.is_writable() {
        return Err(protocol("cannot grant write access without a writable capability"));
    }
    match child.is_dir {
        Some(true) => {},
        _ => {
            return Err(
                protocol("write-sharing currently supports directories; wrap a file in a directory first"),
            );
        },
    }
    if is_link {
        return Ok(OwnWriter::FollowLink);
    }
    if !child.cap.writer.same(&parent.writer) {
        return Ok(OwnWriter::Already);
    }
    Ok(OwnWriter::Relocate)
}

/// How the file `child` of `parent` gets its own writer. `is_link` is from its
/// properties.
pub fn own_writer_for_file(child: &DirEntry, parent: &AbsoluteCapability, is_link: bool) -> (r: Result<OwnWriter>)
    ensures
        child@.is_dir == Some(true) ==> fails_protocol(
            r,
            "move_file_to_own_writer is for files; use move_dir_to_own_writer"@,
        ),
        child@.is_dir != Some(true) && !child@.cap.is_writable() ==> fails_protocol(
            r,
            "cannot grant write access without a writable capability"@,
        ),
        child@.is_dir != Some(true) && child@.cap.is_writable() ==> r == Ok::<OwnWriter, Error>(
            if child@.cap.writer != parent@.writer {
                OwnWriter::Already
            } else if is_link {
                OwnWriter::FollowLink
            } else {
                OwnWriter::Relocate
            },
        ),
{
    match child.is_dir {
        Some(true) => {
            return Err(protocol("move_file_to_own_writer is for files; use move_dir_to_own_writer"));
        },
        _ => {},
    }
    if !child.cap.is_writable() {
        return Err(protocol("cannot grant write access without a writable capability"));
    }
    if !child.cap.writer.same(&parent.writer) {
        return Ok(OwnWriter::Already);
    }
    if is_link {
        return Ok(OwnWriter::FollowLink);
    }
    Ok(OwnWriter::Relocate)
}

/// Refuses to rotate the writer of a child that is not write-shared.
pub fn check_write_shared(is_link: bool) -> (r: Result<()>)
    ensures
        is_link ==> r is Ok,
        !is_link ==> fails_protocol(r, "child is not write-shared (no link node / own writer)"@),
{
    if !is_link {
        return Err(protocol("child is not write-shared (no link node / own writer)"));
    }
    Ok(())
}

/// Refuses to rotate the read keys of a child that has its own writer.
pub fn check_shares_writer(child: &AbsoluteCapability, parent: &AbsoluteCapability) -> (r: Result<()>)
    ensures
        child@.writer == parent@.writer ==> r is Ok,
        child@.writer != parent@.writer ==> fails_protocol(
            r,
            "child has its own writer; use write-access rotation instead"@,
        ),
{
    if !child.writer.same(&parent.writer) {
        return Err(protocol("child has its own writer; use write-access rotation instead"));
    }
    Ok(())
}

/// Where the extension of a name starts, with its dot: its length if it has none. A dot
/// at the start or at the end makes no extension.
pub open spec fn extension_at(name: Seq<char>) -> int {
    let dot = last_place(name, '.');
    if dot > 0 && dot < name.len() - 1 {
        dot
    } else {
        name.len() as int
    }
}

/// What stands between the base and the extension of copy number `n`.
pub open spec fn copy_mark(n: nat) -> Seq<char> {
    if n == 0 {
        Seq::empty()
    } else if n == 1 {
        " (copy)"@
    } else {
        " (copy "@ + decimal(n) + ")"@
    }
}

/// The name of copy number `n`: `name`, then `base (copy).ext`, then
/// `base (copy 2).ext`, and so on.
pub open spec fn copy_name(name: Seq<char>, n: nat) -> Seq<char> {
    let dot = extension_at(name);
    name.take(dot) + copy_mark(n) + name.skip(dot)
}

proof fn lemma_marks_differ(a: nat, b: nat)
    requires
        a != b,
    ensures
        copy_mark(a) != copy_mark(b),
{
    reveal_strlit(" (copy)");
    reveal_strlit(" (copy ");
    reveal_strlit(")");
    lemma_decimal_value(a);
    lemma_decimal_value(b);
    if copy_mark(a) == copy_mark(b) {
        if a >= 2 && b >= 2 {
            let m = copy_mark(a);
            assert(m.subrange(7, m.len() - 1) =~= decimal(a));
            assert(m.subrange(7, m.len() - 1) =~= decimal(b));
        } else if a >= 2 {
            assert(copy_mark(a).len() >= 9);
        } else if b >= 2 {
            assert(copy_mark(b).len() >= 9);
        }
    }
}

/// Different copies have different names.
pub proof fn law_copy_names_differ(name: Seq<char>, a: nat, b: nat)
    requires
        a != b,
    ensures
        copy_name(name, a) != copy_name(name, b),
{
    lemma_marks_differ(a, b);
    lemma_last_place(name, '.');
    let dot = extension_at(name);
    let x = copy_name(name, a);
    let y = copy_name(name, b);
    if x == y {
        let ext = name.len() - dot;
        assert(x.subrange(dot, x.len() - ext) =~= copy_mark(a));
        assert(y.subrange(dot, y.len() - ext) =~= copy_mark(b));
    }
}

/// Distinct texts that are all listed are no more than the list has.
proof fn lemma_pigeonhole(name: Seq<char>, list: Seq<Seq<char>>, n: nat)
    requires
        forall|k: nat| k < n ==> list.contains(#[trigger] copy_name(name, k)),
    ensures
        n <= list.len(),
{
    let s = Seq::new(n, |k: int| copy_name(name, k as nat));
    assert(s.no_duplicates()) by {
        assert forall|i: int, j: int| 0 <= i < s.len() && 0 <= j < s.len() && i != j implies s[i] != s[j] by {
            law_copy_names_differ(name, i as nat, j as nat);
        }
    }
    s.unique_seq_to_set();
    list.lemma_cardinality_of_set();
    assert(s.to_set().subset_of(list.to_set())) by {
        assert forall|t: Seq<char>| s.to_set().contains(t) implies list.to_set().contains(t) by {
            let k = choose|k: int| 0 <= k < s.len() && s[k] == t;
            assert(list.contains(copy_name(name, k as nat)));
        }
    }
    vstd::set_lib::lemma_len_subset(s.to_set(), list.to_set());
}

/// The first copy name that is not one of `existing`.
pub open spec fn is_first_free(name: Seq<char>, existing: Seq<Seq<char>>, n: nat) -> bool {
    !existing.contains(copy_name(name, n)) && forall|k: nat| k < n ==> existing.contains(#[trigger] copy_name(name, k))
}

/// Pick a copy name that does not clash with `existing`: `name`, then
/// `base (copy).ext`, then `base (copy 2).ext`, …
pub fn pick_unique_copy_name(existing: &Vec<String>, original: &str) -> (r: String)
    ensures
        exists|n: nat| #[trigger] is_first_free(original@, texts(existing@), n) && r@ == copy_name(original@, n),
{
    let chars = chars_of(original);
    let ghost list = texts(existing@);
    proof {
        lemma_last_place(original@, '.');
    }
    let dot: usize = match find_last(&chars, '.') {
        Some(i) => if i > 0 && i < chars.len() - 1 { i } else { chars.len() },
        None => chars.len(),
    };
    let base = text_of(slice_chars(&chars, 0, dot));
    let ext = text_of(slice_chars(&chars, dot, chars.len()));
    proof {
        assert(base@ =~= original@.take(extension_at(original@)));
        assert(ext@ =~= original@.skip(extension_at(original@)));
    }
    let mut n: u64 = 0;
    loop
        invariant
            list == texts(existing@),
            base@ == original@.take(extension_at(original@)),
            ext@ == original@.skip(extension_at(original@)),
            forall|k: nat| k < n ==> list.contains(#[trigger] copy_name(original@, k)),
        decreases existing@.len() + 1 - n,
    {
        let mark: String = if n == 0 {
            String::new()
        } else if n == 1 {
            " (copy)".to_owned()
        } else {
            join3(" (copy ", decimal_text(n).as_str(), ")")
        };
        let candidate = join3(base.as_str(), mark.as_str(), ext.as_str());
        proof {
            assert(mark@ =~= copy_mark(n as nat));
            assert(candidate@ == copy_name(original@, n as nat));
        }
        if !is_listed(existing, candidate.as_str()) {
            proof {
                assert(is_first_free(original@, list, n as nat));
            }
            return candidate;
        }
        proof {
            assert(list.contains(copy_name(original@, n as nat)));
            lemma_pigeonhole(original@, list, (n + 1) as nat);
            assert(existing@.len() == existing.len());
        }
        n += 1;
    }
}

/// The name of a copy: the mark goes before the extension, and at the end where there is none. The
/// first copy has no number.
pub proof fn law_copy_names(stem: Seq<char>, ext: Seq<char>, n: nat)
    requires
        stem.len() > 0,
        ext.len() > 0,
        !ext.contains('.'),
    ensures
        copy_name(stem + "."@ + ext, 0) == stem + "."@ + ext,
        copy_name(stem + "."@ + ext, 1) == stem + " (copy)"@ + "."@ + ext,
        n >= 2 ==> copy_name(stem + "."@ + ext, n) == stem + " (copy "@ + decimal(n) + ")"@ + "."@ + ext,
        copy_name(ext, 0) == ext,
        copy_name(ext, 1) == ext + " (copy)"@,
        n >= 2 ==> copy_name(ext, n) == ext + " (copy "@ + decimal(n) + ")"@,
        copy_name("."@ + ext, 1) == "."@ + ext + " (copy)"@,
        copy_name(ext + "."@, 1) == ext + "."@ + " (copy)"@,
{
    reveal_strlit(".");
    let name = stem + "."@ + ext;
    lemma_last_place(name, '.');
    assert(name[stem.len() as int] == '.');
    assert forall|k: int| stem.len() < k < name.len() implies name[k] != '.' by {
        assert(name[k] == ext[k - stem.len() - 1]);
        assert(ext.contains(ext[k - stem.len() - 1]));
    }
    assert(last_place(name, '.') == stem.len());
    assert(name.take(stem.len() as int) =~= stem);
    assert(name.skip(stem.len() as int) =~= "."@ + ext);
    assert(copy_name(name, 0) =~= name);
    assert(copy_name(name, 1) =~= stem + " (copy)"@ + "."@ + ext);
    assert(copy_name(name, n) =~= stem + copy_mark(n) + "."@ + ext);
    assert(n >= 2 ==> stem + copy_mark(n) + "."@ + ext =~= stem + " (copy "@ + decimal(n) + ")"@ + "."@ + ext);
    lemma_last_place(ext, '.');
    assert(last_place(ext, '.') == -1) by {
        if last_place(ext, '.') >= 0 {
            assert(ext.contains(ext[last_place(ext, '.')]));
        }
    }
    assert(ext.take(ext.len() as int) =~= ext);
    assert(copy_name(ext, 0) =~= ext);
    assert(copy_name(ext, 1) =~= ext + " (copy)"@);
    assert(n >= 2 ==> copy_name(ext, n) =~= ext + " (copy "@ + decimal(n) + ")"@);
    let hidden = "."@ + ext;
    lemma_last_place(hidden, '.');
    assert(hidden[0] == '.');
    assert forall|k: int| 0 < k < hidden.len() implies hidden[k] != '.' by {
        assert(hidden[k] == ext[k - 1]);
        assert(ext.contains(ext[k - 1]));
    }
    assert(last_place(hidden, '.') == 0);
    assert(copy_name(hidden, 1) =~= hidden + " (copy)"@);
    let dotted = ext + "."@;
    lemma_last_place(dotted, '.');
    assert(dotted[ext.len() as int] == '.');
    assert(copy_name(dotted, 1) =~= dotted + " (copy)"@);
}

/// Two capabilities are for one place if and only if they have the same writer and the same map
/// key: the keys that they carry do not matter.
pub proof fn law_same_place(a: CapView, b: CapView)
    ensures
        same_place(a, CapView { writer: a.writer, map_key: a.map_key, ..b }),
        a.writer != b.writer ==> !same_place(a, b),
        a.map_key != b.map_key ==> !same_place(a, b),
{
}

/// The name that a copy gets is the one that it had if that is free, and else the first free one.
pub proof fn law_first_free_name(name: Seq<char>, existing: Seq<Seq<char>>, n: nat, k: nat)
    requires
        is_first_free(name, existing, n),
    ensures
        !existing.contains(copy_name(name, n)),
        !existing.contains(name) ==> n == 0,
        k < n ==> existing.contains(copy_name(name, k)),
{
    lemma_last_place(name, '.');
    assert(copy_name(name, 0) =~= name);
    if n > 0 {
        assert(existing.contains(copy_name(name, 0)));
    }
}

} // verus!
