//! The local mirror of the capabilities other users have shared with you.
//!
//! To avoid reparsing every friend's whole sharing file at each login, new caps are
//! retrieved and stored in a mirror directory tree rooted at `world/`. A file shared at
//! `/alice/docs/f.txt` is mirrored under `world/alice/docs/` whose `items.cbor`
//! ([`CapsInDirectory`]) lists `f.txt`, its cap and who shared it. How far each
//! friend's read/write cap streams have been read is kept in a [`ProcessedCaps`], so
//! updates only process newly-added caps.
pub mod processed;
pub mod update;

pub use processed::ProcessedCaps;

use vstd::prelude::*;
use crate::capability::{cap_cbor, cap_from, is_readable_cap, law_cap_round_trip, AbsoluteCapability, CapView};
use crate::cbor::{items, map_put, CborObject, CborValue};
use crate::error::{agrees, cbor_error, opt, Fault, Result};
use crate::paths::{is_listed, split, split_text, texts};
use crate::text::{chars_of, same_text};
use crate::opaque::Formats;

verus! {

broadcast use crate::cbor::group_cbor;

pub const CAP_CACHE_DIR: &'static str = ".capabilitycache";
pub const WORLD_ROOT_NAME: &'static str = "world";
pub const FRIEND_STATE_SUFFIX: &'static str = "$incoming.cbor";
pub const FRIEND_GROUPS_SUFFIX: &'static str = "$groups.cbor";
pub const DIR_STATE: &'static str = "items.cbor";

/// The pieces that are not empty, in order.
pub open spec fn not_empty(v: Seq<Seq<char>>) -> Seq<Seq<char>>
    decreases v.len(),
{
    if v.len() == 0 {
        Seq::empty()
    } else if v.last().len() == 0 {
        not_empty(v.drop_last())
    } else {
        not_empty(v.drop_last()).push(v.last())
    }
}

/// The components of a path.
pub open spec fn components(path: Seq<char>) -> Seq<Seq<char>> {
    not_empty(split(path, '/'))
}

/// The components of a path: slashes at its ends, and double ones, do not count.
pub fn split_path(path: &str) -> (r: Vec<String>)
    ensures
        texts(r@) == components(path@),
{
    let pieces = split_text(path, '/');
    let ghost all = texts(pieces@);
    let mut out: Vec<String> = Vec::new();
    proof {
        assert(texts(out@) =~= not_empty(all.take(0)));
    }
    for i in 0..pieces.len()
        invariant
            all == texts(pieces@),
            texts(out@) == not_empty(all.take(i as int)),
    {
        let ghost before = texts(out@);
        proof {
            assert(all.take(i as int + 1).drop_last() =~= all.take(i as int));
            assert(all.take(i as int + 1).last() == pieces[i as int]@);
        }
        if !pieces[i].as_str().is_empty() {
            out.push(pieces[i].clone());
            proof {
                assert(texts(out@) =~= before.push(pieces[i as int]@));
            }
        }
    }
    proof {
        assert(all.take(all.len() as int) =~= all);
    }
    out
}

/// The uid of a social group, if a path is that of its sharing directory:
/// `/owner/shared/<uid>`, the uid dot-prefixed.
pub open spec fn group_of_path(path: Seq<char>) -> Option<Seq<char>> {
    let c = components(path);
    if c.len() == 3 && c[1] == "shared"@ && c[2].len() > 0 && c[2][0] == '.' {
        Some(c[2])
    } else {
        None
    }
}

/// If `path` is a social-group sharing directory (`/owner/shared/<uid>`, uid
/// dot-prefixed), return its uid.
pub fn group_uid_from_path(path: &str) -> (r: Option<String>)
    ensures
        opt(r) == group_of_path(path@),
{
    let comps = split_path(path);
    let ghost c = texts(comps@);
    if comps.len() != 3 {
        return None;
    }
    proof {
        assert(c[1] == comps@[1]@ && c[2] == comps@[2]@);
    }
    if !same_text(comps[1].as_str(), "shared") {
        return None;
    }
    let uid = chars_of(comps[2].as_str());
    if uid.len() > 0 && uid[0] == '.' {
        Some(comps[2].clone())
    } else {
        None
    }
}

/// The CBOR of a list of texts.
pub open spec fn texts_cbor(v: Seq<Seq<char>>) -> CborValue {
    CborValue::List(Seq::new(v.len(), |i: int| CborValue::Str(v[i])))
}

/// The texts of a list, without what is no text.
pub open spec fn texts_from(v: Seq<CborValue>) -> Seq<Seq<char>>
    decreases v.len(),
{
    if v.len() == 0 {
        Seq::empty()
    } else {
        match v.last() {
            CborValue::Str(s) => texts_from(v.drop_last()).push(s),
            _ => texts_from(v.drop_last()),
        }
    }
}

/// The CBOR of a list of texts.
pub fn texts_to_cbor(v: &Vec<String>) -> (r: CborObject)
    ensures
        r@ == texts_cbor(texts(v@)),
{
    let mut out: Vec<CborObject> = Vec::new();
    for i in 0..v.len()
        invariant
            out.len() == i,
            forall|k: int| 0 <= k < i ==> (#[trigger] out[k])@ == CborValue::Str(v[k]@),
    {
        out.push(CborObject::Str(v[i].clone()));
    }
    proof {
        assert(items(out@) =~= Seq::new(v@.len(), |i: int| CborValue::Str(texts(v@)[i])));
    }
    CborObject::List(out)
}

/// The texts of a list, without what is no text.
pub fn texts_of_cbor(v: &Vec<CborObject>) -> (r: Vec<String>)
    ensures
        texts(r@) == texts_from(items(v@)),
{
    let ghost all = items(v@);
    let mut out: Vec<String> = Vec::new();
    proof {
        assert(texts(out@) =~= texts_from(all.take(0)));
    }
    for i in 0..v.len()
        invariant
            all == items(v@),
            texts(out@) == texts_from(all.take(i as int)),
    {
        let ghost before = texts(out@);
        proof {
            assert(all.take(i as int + 1).drop_last() =~= all.take(i as int));
            assert(all.take(i as int + 1).last() == v[i as int]@);
        }
        match &v[i] {
            CborObject::Str(s) => {
                out.push(s.clone());
                proof {
                    assert(texts(out@) =~= before.push(s@));
                }
            },
            _ => {},
        }
    }
    proof {
        assert(all.take(all.len() as int) =~= all);
    }
    out
}

/// Texts are read back from their list.
pub proof fn lemma_texts_round_trip(v: Seq<Seq<char>>)
    ensures
        texts_from(texts_cbor(v)->List_0) == v,
    decreases v.len(),
{
    let c = texts_cbor(v)->List_0;
    if v.len() > 0 {
        let init = v.drop_last();
        lemma_texts_round_trip(init);
        assert(c.drop_last() =~= texts_cbor(init)->List_0);
        assert(init.push(v.last()) =~= v);
    } else {
        assert(texts_from(c) =~= v);
    }
}

/// A mirrored child: its name, the (highest-privilege) capability, and the friends who
/// shared it.
#[derive(Debug, PartialEq, Eq)]
pub struct ChildElement {
    pub name: String,
    pub cap: AbsoluteCapability,
    pub sharers: Vec<String>,
}

/// The content of a [`ChildElement`].
pub ghost struct ElementView {
    pub name: Seq<char>,
    pub cap: CapView,
    pub sharers: Seq<Seq<char>>,
}

impl View for ChildElement {
    type V = ElementView;

    open spec fn view(&self) -> ElementView {
        ElementView { name: self.name@, cap: self.cap@, sharers: texts(self.sharers@) }
    }
}

/// The CBOR of a mirrored child.
pub open spec fn element_cbor(e: ElementView) -> CborValue {
    let m = map_put(Seq::empty(), "n"@, CborValue::Str(e.name));
    let m = map_put(m, "c"@, cap_cbor(e.cap));
    CborValue::Mapping(map_put(m, "s"@, texts_cbor(e.sharers)))
}

/// The mirrored child that a value describes.
pub open spec fn element_from(v: CborValue, formats: &Formats) -> core::result::Result<ElementView, Fault> {
    match (v.text_at("n"@), v.get("c"@)) {
        (None, _) => Err(Fault::Cbor("ChildElement missing 'n'"@)),
        (_, None) => Err(Fault::Cbor("ChildElement missing 'c'"@)),
        (Some(name), Some(c)) => match cap_from(c, formats) {
            Err(f) => Err(f),
            Ok(cap) => Ok(
                ElementView {
                    name,
                    cap,
                    sharers: match v.list_at("s"@) {
                        Some(l) => texts_from(l),
                        None => Seq::empty(),
                    },
                },
            ),
        },
    }
}

impl ChildElement {
    pub fn to_cbor(&self) -> (r: CborObject)
        ensures
            r@ == element_cbor(self@),
    {
        CborObject::map().put("n", CborObject::Str(self.name.clone())).put("c", self.cap.to_cbor()).put(
            "s",
            texts_to_cbor(&self.sharers),
        ).build()
    }

    pub fn from_cbor(cbor: &CborObject, formats: &Formats) -> (r: Result<ChildElement>)
        ensures
            agrees(r, element_from(cbor@, formats)),
    {
        let name = match cbor.text_at("n") {
            Some(n) => n,
            None => {
                return Err(cbor_error("ChildElement missing 'n'"));
            },
        };
        let cap = match cbor.get("c") {
            None => {
                return Err(cbor_error("ChildElement missing 'c'"));
            },
            Some(c) => match AbsoluteCapability::from_cbor(c, formats) {
                Ok(cap) => cap,
                Err(e) => {
                    return Err(e);
                },
            },
        };
        let sharers = match cbor.get("s") {
            Some(CborObject::List(l)) => texts_of_cbor(l),
            _ => {
                let none: Vec<String> = Vec::new();
                proof {
                    assert(texts(none@) =~= Seq::empty());
                }
                none
            },
        };
        Ok(ChildElement { name, cap, sharers })
    }

    /// A copy of this child.
    pub fn dup(&self) -> (r: ChildElement)
        ensures
            r@ == self@,
    {
        ChildElement { name: self.name.clone(), cap: self.cap.dup(), sharers: dup_texts(&self.sharers) }
    }
}

/// A copy of a list of texts.
pub fn dup_texts(v: &Vec<String>) -> (r: Vec<String>)
    ensures
        texts(r@) == texts(v@),
{
    let mut out: Vec<String> = Vec::new();
    for i in 0..v.len()
        invariant
            out.len() == i,
            forall|k: int| 0 <= k < i ==> (#[trigger] out[k])@ == v[k]@,
    {
        out.push(v[i].clone());
    }
    proof {
        assert(texts(out@) =~= texts(v@));
    }
    out
}

/// A mirrored child is read back from its CBOR as it was.
pub proof fn law_element_round_trip(e: ElementView, formats: &Formats)
    requires
        is_readable_cap(e.cap, formats),
    ensures
        element_from(element_cbor(e), formats) == Ok::<ElementView, Fault>(e),
{
    reveal_strlit("n");
    reveal_strlit("c");
    reveal_strlit("s");
    assert("n"@[0] == 'n' && "c"@[0] == 'c' && "s"@[0] == 's');
    law_cap_round_trip(e.cap, formats);
    lemma_texts_round_trip(e.sharers);
}

/// The caps mirrored inside one directory, serialized to `items.cbor`.
#[derive(Debug, PartialEq, Eq)]
pub struct CapsInDirectory {
    pub children: Vec<ChildElement>,
}

/// The contents of a list of children.
pub open spec fn elements(v: Seq<ChildElement>) -> Seq<ElementView> {
    Seq::new(v.len(), |i: int| v[i]@)
}

impl View for CapsInDirectory {
    type V = Seq<ElementView>;

    open spec fn view(&self) -> Seq<ElementView> {
        elements(self.children@)
    }
}

/// The CBOR of the caps of a directory.
pub open spec fn caps_cbor(v: Seq<ElementView>) -> CborValue {
    CborValue::Mapping(
        map_put(Seq::empty(), "c"@, CborValue::List(Seq::new(v.len(), |i: int| element_cbor(v[i])))),
    )
}

/// The children of a list, up to the first that is none.
pub open spec fn elements_from(v: Seq<CborValue>, formats: &Formats) -> core::result::Result<Seq<ElementView>, Fault>
    decreases v.len(),
{
    if v.len() == 0 {
        Ok(Seq::empty())
    } else {
        match (elements_from(v.drop_last(), formats), element_from(v.last(), formats)) {
            (Err(f), _) => Err(f),
            (_, Err(f)) => Err(f),
            (Ok(s), Ok(e)) => Ok(s.push(e)),
        }
    }
}

/// The caps of a directory that a value describes.
pub open spec fn caps_from(v: CborValue, formats: &Formats) -> core::result::Result<Seq<ElementView>, Fault> {
    match v.list_at("c"@) {
        None => Err(Fault::Cbor("CapsInDirectory missing 'c'"@)),
        Some(l) => elements_from(l, formats),
    }
}

proof fn lemma_elements_fail(v: Seq<CborValue>, n: int, formats: &Formats)
    requires
        0 <= n <= v.len(),
        elements_from(v.take(n), formats) is Err,
    ensures
        elements_from(v, formats) == elements_from(v.take(n), formats),
    decreases v.len(),
{
    if n < v.len() {
        assert(v.drop_last().take(n) =~= v.take(n));
        lemma_elements_fail(v.drop_last(), n, formats);
    } else {
        assert(v.take(n) =~= v);
    }
}

/// The first child with this name: the number of children if none has it.
pub open spec fn element_position(v: Seq<ElementView>, name: Seq<char>) -> nat
    decreases v.len(),
{
    if v.len() == 0 {
        0
    } else if v[0].name == name {
        0
    } else {
        1 + element_position(v.skip(1), name)
    }
}

/// The capability mirrored under this name.
pub open spec fn mirrored(v: Seq<ElementView>, name: Seq<char>) -> Option<CapView> {
    let p = element_position(v, name);
    if p < v.len() {
        Some(v[p as int].cap)
    } else {
        None
    }
}

/// A child that one friend shared.
pub open spec fn new_element(name: Seq<char>, cap: CapView, sharer: Seq<char>) -> ElementView {
    ElementView { name, cap, sharers: seq![sharer] }
}

/// A child after `cap` was seen for it: the same cap adds the sharer, a write cap wins
/// over a read cap, and otherwise the newest cap replaces.
pub open spec fn merged(e: ElementView, cap: CapView, sharer: Seq<char>) -> ElementView {
    if e.cap == cap {
        if e.sharers.contains(sharer) {
            e
        } else {
            ElementView { sharers: e.sharers.push(sharer), ..e }
        }
    } else if e.cap.is_writable() && !cap.is_writable() {
        e
    } else {
        new_element(e.name, cap, sharer)
    }
}

/// The children after `cap` was seen for `name`.
pub open spec fn with_child(v: Seq<ElementView>, name: Seq<char>, cap: CapView, sharer: Seq<char>) -> Seq<ElementView> {
    let p = element_position(v, name) as int;
    if p < v.len() {
        v.update(p, merged(v[p], cap, sharer))
    } else {
        v.push(new_element(name, cap, sharer))
    }
}

/// Whether two capabilities are the same.
pub fn same_cap(a: &AbsoluteCapability, b: &AbsoluteCapability) -> (r: bool)
    ensures
        r == (a@ == b@),
{
    a.owner.same(&b.owner) && a.writer.same(&b.writer) && crate::text::same_bytes(&a.map_key, &b.map_key)
        && same_opt(&a.bat, &b.bat) && a.r_base_key.same(&b.r_base_key) && same_opt(&a.w_base_key, &b.w_base_key)
}

fn same_opt(a: &Option<crate::opaque::Opaque>, b: &Option<crate::opaque::Opaque>) -> (r: bool)
    ensures
        r == (opt(*a) == opt(*b)),
{
    match (a, b) {
        (None, None) => true,
        (Some(x), Some(y)) => x.same(y),
        _ => false,
    }
}

impl CapsInDirectory {
    /// No caps.
    pub fn new() -> (r: CapsInDirectory)
        ensures
            r@ == Seq::<ElementView>::empty(),
    {
        let r = CapsInDirectory { children: Vec::new() };
        proof {
            assert(r@ =~= Seq::<ElementView>::empty());
        }
        r
    }

    pub fn to_cbor(&self) -> (r: CborObject)
        ensures
            r@ == caps_cbor(self@),
    {
        let mut out: Vec<CborObject> = Vec::new();
        for i in 0..self.children.len()
            invariant
                out.len() == i,
                forall|k: int| 0 <= k < i ==> (#[trigger] out[k])@ == element_cbor(self.children[k]@),
        {
            out.push(self.children[i].to_cbor());
        }
        proof {
            assert(items(out@) =~= Seq::new(self@.len(), |i: int| element_cbor(self@[i])));
        }
        CborObject::map().put("c", CborObject::List(out)).build()
    }

    pub fn from_cbor(cbor: &CborObject, formats: &Formats) -> (r: Result<CapsInDirectory>)
        ensures
            agrees(r, caps_from(cbor@, formats)),
    {
        let list = match cbor.get("c") {
            Some(CborObject::List(l)) => l,
            _ => {
                return Err(cbor_error("CapsInDirectory missing 'c'"));
            },
        };
        let ghost all = items(list@);
        let mut out: Vec<ChildElement> = Vec::new();
        proof {
            assert(all.take(0) =~= Seq::empty());
            assert(elements(out@) =~= Seq::empty());
        }
        for i in 0..list.len()
            invariant
                all == items(list@),
                cbor@.list_at("c"@) == Some(all),
                elements_from(all.take(i as int), formats) == Ok::<Seq<ElementView>, Fault>(elements(out@)),
        {
            let ghost before = elements(out@);
            proof {
                assert(all.take(i as int + 1).drop_last() =~= all.take(i as int));
                assert(all.take(i as int + 1).last() == list[i as int]@);
            }
            match ChildElement::from_cbor(&list[i], formats) {
                Ok(e) => {
                    let ghost ev = e@;
                    out.push(e);
                    proof {
                        assert(elements(out@) =~= before.push(ev));
                    }
                },
                Err(e) => {
                    proof {
                        lemma_elements_fail(all, i as int + 1, formats);
                    }
                    return Err(e);
                },
            }
        }
        proof {
            assert(all.take(all.len() as int) =~= all);
        }
        Ok(CapsInDirectory { children: out })
    }

    /// The place of the child with this name.
    fn find(&self, name: &str) -> (r: usize)
        ensures
            r == element_position(self@, name@),
            r <= self.children@.len(),
            r < self.children@.len() ==> self.children@[r as int]@.name == name@,
    {
        let ghost v = self@;
        proof {
            assert(v.skip(0) =~= v);
        }
        let mut i: usize = 0;
        while i < self.children.len()
            invariant
                v == self@,
                i <= self.children.len(),
                element_position(v, name@) == i + element_position(v.skip(i as int), name@),
            decreases self.children.len() - i,
        {
            proof {
                assert(v.skip(i as int)[0] == self.children[i as int]@);
                assert(v.skip(i as int).skip(1) =~= v.skip(i as int + 1));
            }
            if same_text(self.children[i].name.as_str(), name) {
                return i;
            }
            i += 1;
        }
        proof {
            assert(v.skip(i as int) =~= Seq::empty());
        }
        i
    }

    /// The capability mirrored under this name.
    pub fn get_child(&self, name: &str) -> (r: Option<AbsoluteCapability>)
        ensures
            opt(r) == mirrored(self@, name@),
    {
        let at: usize = self.find(name);
        if at < self.children.len() {
            Some(self.children[at].cap.dup())
        } else {
            None
        }
    }

    /// The children by name, each with its capability.
    pub fn named_caps(&self) -> (r: Vec<(String, AbsoluteCapability)>)
        ensures
            crate::incoming::update::dirs(r@) == Seq::new(self@.len(), |i: int| (self@[i].name, self@[i].cap)),
    {
        let mut out: Vec<(String, AbsoluteCapability)> = Vec::new();
        for i in 0..self.children.len()
            invariant
                out.len() == i,
                forall|k: int|
                    0 <= k < i ==> (#[trigger] out[k]).0@ == self.children[k].name@ && out[k].1@ == self.children[k].cap@,
        {
            out.push((self.children[i].name.clone(), self.children[i].cap.dup()));
        }
        proof {
            assert(crate::incoming::update::dirs(out@) =~= Seq::new(self@.len(), |i: int| (self@[i].name, self@[i].cap)));
        }
        out
    }

    /// Merge a newly-seen cap for `filename` shared by `sharer`: the same cap adds the
    /// sharer, a write cap wins over a read cap, and otherwise the newest cap replaces.
    pub fn add_child(&mut self, filename: &str, cap: AbsoluteCapability, sharer: &str)
        ensures
            final(self)@ == with_child(old(self)@, filename@, cap@, sharer@),
    {
        let ghost v = self@;
        let at: usize = self.find(filename);
        let ghost cv = cap@;
        if at < self.children.len() {
            let current = self.children.remove(at);
            let ghost e = current@;
            proof {
                assert(v[at as int] == e);
            }
            let next = if same_cap(&current.cap, &cap) {
                if is_listed(&current.sharers, sharer) {
                    current
                } else {
                    let ChildElement { name, cap: same, sharers } = current;
                    let ghost before = texts(sharers@);
                    let mut more = sharers;
                    more.push(sharer.to_owned());
                    proof {
                        assert(texts(more@) =~= before.push(sharer@));
                    }
                    ChildElement { name, cap: same, sharers: more }
                }
            } else if current.cap.is_writable() && !cap.is_writable() {
                // the more privileged cap stays
                current
            } else {
                element_for(filename, cap, sharer)
            };
            let ghost nv = next@;
            self.children.insert(at, next);
            proof {
                assert(nv == merged(e, cv, sharer@));
                assert(self@ =~= v.update(at as int, nv));
            }
        } else {
            let next = element_for(filename, cap, sharer);
            let ghost nv = next@;
            self.children.push(next);
            proof {
                assert(self@ =~= v.push(nv));
            }
        }
    }
}

/// A child that one friend shared.
fn element_for(filename: &str, cap: AbsoluteCapability, sharer: &str) -> (r: ChildElement)
    ensures
        r@ == new_element(filename@, cap@, sharer@),
{
    let mut sharers: Vec<String> = Vec::new();
    sharers.push(sharer.to_owned());
    proof {
        assert(texts(sharers@) =~= seq![sharer@]);
    }
    ChildElement { name: filename.to_owned(), cap, sharers }
}

proof fn lemma_elements_round_trip(v: Seq<ElementView>, formats: &Formats)
    requires
        forall|i: int| 0 <= i < v.len() ==> is_readable_cap((#[trigger] v[i]).cap, formats),
    ensures
        elements_from(Seq::new(v.len(), |i: int| element_cbor(v[i])), formats) == Ok::<Seq<ElementView>, Fault>(v),
    decreases v.len(),
{
    let c = Seq::new(v.len(), |i: int| element_cbor(v[i]));
    if v.len() > 0 {
        let init = v.drop_last();
        assert forall|i: int| 0 <= i < init.len() implies is_readable_cap((#[trigger] init[i]).cap, formats) by {
            assert(init[i] == v[i]);
        }
        lemma_elements_round_trip(init, formats);
        assert(c.drop_last() =~= Seq::new(init.len(), |i: int| element_cbor(init[i])));
        assert(is_readable_cap(v.last().cap, formats));
        law_element_round_trip(v.last(), formats);
        assert(init.push(v.last()) =~= v);
    } else {
        assert(elements_from(c, formats) == Ok::<Seq<ElementView>, Fault>(Seq::empty()));
        assert(v =~= Seq::empty());
    }
}

/// The caps of a directory are read back from their CBOR as they were.
pub proof fn law_caps_round_trip(v: Seq<ElementView>, formats: &Formats)
    requires
        forall|i: int| 0 <= i < v.len() ==> is_readable_cap((#[trigger] v[i]).cap, formats),
    ensures
        caps_from(caps_cbor(v), formats) == Ok::<Seq<ElementView>, Fault>(v),
{
    lemma_elements_round_trip(v, formats);
}

proof fn lemma_element_position(v: Seq<ElementView>, name: Seq<char>)
    ensures
        element_position(v, name) <= v.len(),
        element_position(v, name) < v.len() ==> v[element_position(v, name) as int].name == name,
        forall|i: int| 0 <= i < element_position(v, name) ==> (#[trigger] v[i]).name != name,
    decreases v.len(),
{
    if v.len() > 0 && v[0].name != name {
        lemma_element_position(v.skip(1), name);
        assert forall|i: int| 0 <= i < element_position(v, name) implies (#[trigger] v[i]).name != name by {
            if i > 0 {
                assert(v.skip(1)[i - 1] == v[i]);
            }
        }
    }
}

proof fn lemma_position_is(v: Seq<ElementView>, name: Seq<char>, p: int)
    requires
        0 <= p <= v.len(),
        forall|i: int| 0 <= i < p ==> (#[trigger] v[i]).name != name,
        p < v.len() ==> v[p].name == name,
    ensures
        element_position(v, name) == p,
{
    lemma_element_position(v, name);
    let q = element_position(v, name) as int;
    if q < p {
        assert(v[q].name != name);
    } else if p < q {
        assert(v[p].name != name);
    }
}

/// A cap that was shared is mirrored, unless one with write access is there and it has
/// none. What is mirrored under other names stays.
pub proof fn law_write_access_is_kept(v: Seq<ElementView>, name: Seq<char>, cap: CapView, sharer: Seq<char>, other: Seq<char>)
    ensures
        mirrored(with_child(v, name, cap, sharer), name) == match mirrored(v, name) {
            Some(c) => if c.is_writable() && !cap.is_writable() { Some(c) } else { Some(cap) },
            None => Some(cap),
        },
        other != name ==> mirrored(with_child(v, name, cap, sharer), other) == mirrored(v, other),
{
    lemma_element_position(v, name);
    lemma_element_position(v, other);
    let w = with_child(v, name, cap, sharer);
    let p = element_position(v, name) as int;
    let q = element_position(v, other) as int;
    assert forall|i: int| 0 <= i < p implies (#[trigger] w[i]).name != name by {
        assert(w[i] == v[i]);
    }
    lemma_position_is(w, name, p);
    if other != name {
        assert forall|i: int| 0 <= i < q implies (#[trigger] w[i]).name != other by {
            if i != p {
                assert(w[i] == v[i]);
            }
        }
        if q < v.len() {
            assert(w[q] == v[q]);
            lemma_position_is(w, other, q);
        } else {
            assert forall|i: int| 0 <= i < w.len() implies (#[trigger] w[i]).name != other by {
                if i < v.len() && i != p {
                    assert(w[i] == v[i]);
                }
            }
            lemma_position_is(w, other, w.len() as int);
        }
    }
}

/// Who shared a file is remembered: the same capability from another friend adds them once, and
/// one that replaces another is of its sharer alone.
pub proof fn law_sharers(e: ElementView, cap: CapView, sharer: Seq<char>)
    ensures
        merged(e, cap, sharer).name == e.name,
        e.cap == cap ==> merged(e, cap, sharer).sharers.contains(sharer) && merged(e, cap, sharer).cap == e.cap,
        e.cap == cap && e.sharers.contains(sharer) ==> merged(e, cap, sharer).sharers == e.sharers,
        e.cap == cap && !e.sharers.contains(sharer) ==> merged(e, cap, sharer).sharers == e.sharers.push(sharer),
        e.cap != cap && e.cap.is_writable() && !cap.is_writable() ==> merged(e, cap, sharer) == e,
        e.cap != cap && !(e.cap.is_writable() && !cap.is_writable()) ==> merged(e, cap, sharer).cap == cap && merged(
            e,
            cap,
            sharer,
        ).sharers == seq![sharer],
{
    if e.cap == cap && !e.sharers.contains(sharer) {
        let s = e.sharers.push(sharer);
        assert(s[s.len() - 1] == sharer);
    }
}

/// A path is that of a group's sharing directory if it has three components, the second of which
/// is `shared` and the third starts with a dot: that one is the group.
pub proof fn law_group_paths(path: Seq<char>, owner: Seq<char>, uid: Seq<char>)
    ensures
        components(path) == seq![owner, "shared"@, uid] && uid.len() > 0 && uid[0] == '.' ==> group_of_path(path) == Some(uid),
        group_of_path(path) matches Some(u) ==> components(path).len() == 3 && components(path)[1] == "shared"@
            && components(path)[2] == u && u[0] == '.',
{
}

/// The components of a path are what stands between its slashes, in order, without what is empty.
pub proof fn law_components(path: Seq<char>)
    ensures
        components(path) == split(path, '/').filter(|c: Seq<char>| c.len() > 0),
{
    lemma_not_empty(split(path, '/'));
}

proof fn lemma_not_empty(v: Seq<Seq<char>>)
    ensures
        not_empty(v) == v.filter(|c: Seq<char>| c.len() > 0),
    decreases v.len(),
{
    reveal(Seq::filter);
    if v.len() > 0 {
        lemma_not_empty(v.drop_last());
    } else {
        assert(not_empty(v) =~= v.filter(|c: Seq<char>| c.len() > 0));
    }
}

/// Where a mirrored child keeps its parts.
pub proof fn law_element_fields(e: ElementView)
    ensures
        element_cbor(e).get("n"@) == Some(CborValue::Str(e.name)),
        element_cbor(e).get("c"@) == Some(cap_cbor(e.cap)),
        element_cbor(e).get("s"@) == Some(texts_cbor(e.sharers)),
{
    reveal_strlit("n");
    reveal_strlit("c");
    reveal_strlit("s");
    assert("n"@[0] == 'n' && "c"@[0] == 'c' && "s"@[0] == 's');
}

/// Elements are read one by one, in their order, and none is passed over.
pub proof fn law_elements_are_read(v: Seq<CborValue>, formats: &Formats, i: int)
    requires
        0 <= i < v.len(),
    ensures
        elements_from(v, formats) matches Ok(l) ==> l.len() == v.len() && element_from(v[i], formats) == Ok::<
            ElementView,
            Fault,
        >(l[i]),
        element_from(v[i], formats) is Err ==> elements_from(v, formats) is Err,
    decreases v.len(),
{
    let init = v.drop_last();
    lemma_elements_len(init, formats);
    if i < init.len() {
        law_elements_are_read(init, formats, i);
        assert(init[i] == v[i]);
    }
}

proof fn lemma_elements_len(v: Seq<CborValue>, formats: &Formats)
    ensures
        elements_from(v, formats) matches Ok(l) ==> l.len() == v.len(),
    decreases v.len(),
{
    if v.len() > 0 {
        lemma_elements_len(v.drop_last(), formats);
    }
}

/// What is mirrored under a name is the first element of that name. A child that is new comes last,
/// with the one who shared it; no other element changes.
pub proof fn law_mirrored_children(v: Seq<ElementView>, name: Seq<char>, cap: CapView, sharer: Seq<char>, i: int)
    ensures
        0 <= i < v.len() && v[i].name == name && (forall|k: int| 0 <= k < i ==> (#[trigger] v[k]).name != name)
            ==> mirrored(v, name) == Some(v[i].cap) && with_child(v, name, cap, sharer) == v.update(
            i,
            merged(v[i], cap, sharer),
        ),
        (forall|k: int| 0 <= k < v.len() ==> (#[trigger] v[k]).name != name) ==> mirrored(v, name) is None && with_child(
            v,
            name,
            cap,
            sharer,
        ) == v.push(ElementView { name, cap, sharers: seq![sharer] }),
{
    if 0 <= i < v.len() && v[i].name == name && (forall|k: int| 0 <= k < i ==> (#[trigger] v[k]).name != name) {
        lemma_element_at(v, name, i);
    }
    if forall|k: int| 0 <= k < v.len() ==> (#[trigger] v[k]).name != name {
        lemma_element_at(v, name, v.len() as int);
    }
}

proof fn lemma_element_at(v: Seq<ElementView>, name: Seq<char>, i: int)
    requires
        0 <= i <= v.len(),
        i < v.len() ==> v[i].name == name,
        forall|k: int| 0 <= k < i ==> (#[trigger] v[k]).name != name,
    ensures
        element_position(v, name) == i,
    decreases v.len(),
{
    if i > 0 {
        let rest = v.skip(1);
        assert(v[0].name != name);
        assert forall|k: int| 0 <= k < i - 1 implies (#[trigger] rest[k]).name != name by {
            assert(rest[k] == v[k + 1]);
        }
        assert(i < v.len() ==> rest[i - 1] == v[i]);
        lemma_element_at(rest, name, i - 1);
    }
}

/// The texts of a list are read in their order, and what is no text is passed over.
pub proof fn law_texts_are_read(a: Seq<CborValue>, s: Seq<char>, n: int)
    ensures
        texts_from(a.push(CborValue::Str(s))) == texts_from(a).push(s),
        texts_from(a.push(CborValue::Long(n))) == texts_from(a),
        texts_from(a.push(CborValue::Null)) == texts_from(a),
        texts_from(Seq::empty()).len() == 0,
{
    assert(a.push(CborValue::Str(s)).drop_last() =~= a);
    assert(a.push(CborValue::Long(n)).drop_last() =~= a);
    assert(a.push(CborValue::Null).drop_last() =~= a);
}

/// Where the mirror of what was shared is kept, and under which names.
pub proof fn law_names_in_the_mirror()
    ensures
        CAP_CACHE_DIR@ == ".capabilitycache"@,
        WORLD_ROOT_NAME@ == "world"@,
        FRIEND_STATE_SUFFIX@ == "$incoming.cbor"@,
        FRIEND_GROUPS_SUFFIX@ == "$groups.cbor"@,
        DIR_STATE@ == "items.cbor"@,
{
}

} // verus!
