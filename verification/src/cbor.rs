//! CBOR values: what every record of the filesystem is stored as.
//!
//! The model of a value is [`CborValue`]. A map is the sequence of its entries in
//! canonical key order: shorter keys first, keys of one length byte by byte.
use vstd::prelude::*;
use vstd::utf8::*;
use crate::text::{bytes_before, copy_bytes, is_before, law_order_of_bytes, same_bytes, same_text};

verus! {

/// A CBOR value.
#[derive(Debug, PartialEq, Eq)]
pub enum CborObject {
    Null,
    Boolean(bool),
    Long(i64),
    Str(String),
    ByteString(Vec<u8>),
    /// A link to another block, by the bytes of its cid.
    MerkleLink(Vec<u8>),
    List(Vec<CborObject>),
    /// A map, by its entries. [`CborMapBuilder`] keeps them in canonical order.
    Mapping(Vec<(String, CborObject)>),
}

/// The mathematical content of a [`CborObject`].
pub ghost enum CborValue {
    Null,
    Boolean(bool),
    Long(int),
    Str(Seq<char>),
    ByteString(Seq<u8>),
    MerkleLink(Seq<u8>),
    List(Seq<CborValue>),
    Mapping(Seq<(Seq<char>, CborValue)>),
}

impl View for CborObject {
    type V = CborValue;

    open spec fn view(&self) -> CborValue {
        self.value()
    }
}

impl CborObject {
    /// What this object says.
    pub open spec fn value(self) -> CborValue
        decreases self,
    {
        match self {
            CborObject::Null => CborValue::Null,
            CborObject::Boolean(b) => CborValue::Boolean(b),
            CborObject::Long(n) => CborValue::Long(n as int),
            CborObject::Str(s) => CborValue::Str(s@),
            CborObject::ByteString(b) => CborValue::ByteString(b@),
            CborObject::MerkleLink(b) => CborValue::MerkleLink(b@),
            CborObject::List(v) => CborValue::List(
                Seq::new(v.len() as nat, |i: int| if 0 <= i < v.len() { v[i].value() } else { arbitrary() }),
            ),
            CborObject::Mapping(v) => CborValue::Mapping(
                Seq::new(
                    v.len() as nat,
                    |i: int| if 0 <= i < v.len() { (v[i].0@, v[i].1.value()) } else { arbitrary() },
                ),
            ),
        }
    }
}

/// The contents of a list of values.
pub open spec fn items(v: Seq<CborObject>) -> Seq<CborValue> {
    Seq::new(v.len(), |i: int| v[i]@)
}

/// The contents of the entries of a map.
pub open spec fn pairs(v: Seq<(String, CborObject)>) -> Seq<(Seq<char>, CborValue)> {
    Seq::new(v.len(), |i: int| (v[i].0@, v[i].1@))
}

/// The view of a list is the list of the views.
pub broadcast proof fn lemma_list_view(v: Vec<CborObject>)
    ensures
        #[trigger] CborObject::List(v)@ == CborValue::List(items(v@)),
{
    assert(CborObject::List(v)@->List_0 =~= items(v@));
}

/// The view of a map is the map of the views.
pub broadcast proof fn lemma_mapping_view(v: Vec<(String, CborObject)>)
    ensures
        #[trigger] CborObject::Mapping(v)@ == CborValue::Mapping(pairs(v@)),
{
    assert(CborObject::Mapping(v)@->Mapping_0 =~= pairs(v@));
}

/// Key `a` stands before key `b` in a map.
pub open spec fn key_before(a: Seq<char>, b: Seq<char>) -> bool {
    let x = encode_utf8(a);
    let y = encode_utf8(b);
    x.len() < y.len() || (x.len() == y.len() && bytes_before(x, y))
}

/// The value that the entries `e` hold under `key`.
pub open spec fn map_get(e: Seq<(Seq<char>, CborValue)>, key: Seq<char>) -> Option<CborValue>
    decreases e.len(),
{
    if e.len() == 0 {
        None
    } else if e[0].0 == key {
        Some(e[0].1)
    } else {
        map_get(e.skip(1), key)
    }
}

/// The entries `e` with `v` under `key`, in place of what stood there.
pub open spec fn map_put(e: Seq<(Seq<char>, CborValue)>, key: Seq<char>, v: CborValue) -> Seq<
    (Seq<char>, CborValue),
>
    decreases e.len(),
{
    if e.len() == 0 {
        seq![(key, v)]
    } else if e[0].0 == key {
        seq![(key, v)] + e.skip(1)
    } else if key_before(key, e[0].0) {
        seq![(key, v)] + e
    } else {
        seq![e[0]] + map_put(e.skip(1), key, v)
    }
}

/// [`map_put`] where there is a value, nothing where there is none.
pub open spec fn map_put_opt(
    e: Seq<(Seq<char>, CborValue)>,
    key: Seq<char>,
    v: Option<CborValue>,
) -> Seq<(Seq<char>, CborValue)> {
    match v {
        Some(x) => map_put(e, key, x),
        None => e,
    }
}

/// A map read after a write gives back what was written, and every other key reads
/// as before.
pub broadcast proof fn lemma_get_put(e: Seq<(Seq<char>, CborValue)>, k: Seq<char>, v: CborValue, key: Seq<char>)
    ensures
        #[trigger] map_get(map_put(e, k, v), key) == if k == key {
            Some(v)
        } else {
            map_get(e, key)
        },
    decreases e.len(),
{
    let m = map_put(e, k, v);
    if e.len() == 0 {
        assert(m.skip(1) =~= e);
    } else if e[0].0 == k {
        assert(m.skip(1) =~= e.skip(1));
    } else if key_before(k, e[0].0) {
        assert(m.skip(1) =~= e);
    } else {
        assert(m.skip(1) =~= map_put(e.skip(1), k, v));
        lemma_get_put(e.skip(1), k, v, key);
    }
}

/// [`lemma_get_put`] for an optional value.
pub broadcast proof fn lemma_get_put_opt(
    e: Seq<(Seq<char>, CborValue)>,
    k: Seq<char>,
    v: Option<CborValue>,
    key: Seq<char>,
)
    ensures
        #[trigger] map_get(map_put_opt(e, k, v), key) == if k == key && v is Some {
            v
        } else {
            map_get(e, key)
        },
{
    if v is Some {
        lemma_get_put(e, k, v->Some_0, key);
    }
}

/// Nothing is in the empty map.
pub broadcast proof fn lemma_get_empty(key: Seq<char>)
    ensures
        #[trigger] map_get(Seq::empty(), key) == None::<CborValue>,
{
}

pub broadcast group group_cbor {
    lemma_list_view,
    lemma_mapping_view,
    lemma_get_put,
    lemma_get_put_opt,
    lemma_get_empty,
}

impl CborValue {
    /// The value under `key`, if this is a map that holds one.
    pub open spec fn get(self, key: Seq<char>) -> Option<CborValue> {
        match self {
            CborValue::Mapping(e) => map_get(e, key),
            _ => None,
        }
    }

    /// The integer under `key`.
    pub open spec fn long_at(self, key: Seq<char>) -> Option<int> {
        match self.get(key) {
            Some(CborValue::Long(n)) => Some(n),
            _ => None,
        }
    }

    /// The boolean under `key`.
    pub open spec fn bool_at(self, key: Seq<char>) -> Option<bool> {
        match self.get(key) {
            Some(CborValue::Boolean(b)) => Some(b),
            _ => None,
        }
    }

    /// The text under `key`.
    pub open spec fn text_at(self, key: Seq<char>) -> Option<Seq<char>> {
        match self.get(key) {
            Some(CborValue::Str(s)) => Some(s),
            _ => None,
        }
    }

    /// The bytes under `key`.
    pub open spec fn bytes_at(self, key: Seq<char>) -> Option<Seq<u8>> {
        match self.get(key) {
            Some(CborValue::ByteString(b)) => Some(b),
            _ => None,
        }
    }

    /// The cid of the link under `key`.
    pub open spec fn link_at(self, key: Seq<char>) -> Option<Seq<u8>> {
        match self.get(key) {
            Some(CborValue::MerkleLink(b)) => Some(b),
            _ => None,
        }
    }

    /// The list under `key`.
    pub open spec fn list_at(self, key: Seq<char>) -> Option<Seq<CborValue>> {
        match self.get(key) {
            Some(CborValue::List(v)) => Some(v),
            _ => None,
        }
    }
}

/// The text under `key`, empty if there is none.
pub open spec fn text_or_empty(v: CborValue, key: Seq<char>) -> Seq<char> {
    match v.text_at(key) {
        Some(s) => s,
        None => Seq::empty(),
    }
}

/// The list under `key`, empty if there is none.
pub open spec fn list_or_empty(v: CborValue, key: Seq<char>) -> Seq<CborValue> {
    match v.list_at(key) {
        Some(l) => l,
        None => Seq::empty(),
    }
}

/// The text under `key`, empty if there is none.
pub fn text_or(cbor: &CborObject, key: &str) -> (r: String)
    ensures
        r@ == text_or_empty(cbor@, key@),
{
    match cbor.text_at(key) {
        Some(s) => s,
        None => String::new(),
    }
}

/// An empty list to read from.
pub fn no_items() -> (r: Vec<CborObject>)
    ensures
        items(r@) == Seq::<CborValue>::empty(),
{
    let v: Vec<CborObject> = Vec::new();
    proof {
        assert(items(v@) =~= Seq::empty());
    }
    v
}

/// The integer under `key`, 0 if there is none.
pub open spec fn long_or_zero(v: CborValue, key: Seq<char>) -> int {
    match v.long_at(key) {
        Some(n) => n,
        None => 0,
    }
}

/// The integer under `key`, 0 if there is none.
pub fn long_or(cbor: &CborObject, key: &str) -> (r: i64)
    ensures
        r == long_or_zero(cbor@, key@),
{
    match cbor.long_at(key) {
        Some(n) => n,
        None => 0,
    }
}

/// The boolean under `key`, `default` if there is none.
pub open spec fn bool_or_else(v: CborValue, key: Seq<char>, default: bool) -> bool {
    match v.bool_at(key) {
        Some(b) => b,
        None => default,
    }
}

/// The boolean under `key`, `default` if there is none.
pub fn bool_or(cbor: &CborObject, key: &str, default: bool) -> (r: bool)
    ensures
        r == bool_or_else(cbor@, key@, default),
{
    match cbor.bool_at(key) {
        Some(b) => b,
        None => default,
    }
}

/// The CBOR of an optional text.
pub open spec fn opt_text_cbor(s: Option<Seq<char>>) -> Option<CborValue> {
    match s {
        Some(x) => Some(CborValue::Str(x)),
        None => None,
    }
}

/// Whether key `a` stands before key `b` in a map.
pub fn is_key_before(a: &str, b: &str) -> (r: bool)
    ensures
        r == key_before(a@, b@),
{
    let x = a.as_bytes();
    let y = b.as_bytes();
    x.len() < y.len() || (x.len() == y.len() && is_before(x, y))
}

/// Puts `v` under `key` into the entries of a map.
pub fn put_entry(entries: &mut Vec<(String, CborObject)>, key: &str, v: CborObject)
    ensures
        pairs(final(entries)@) == map_put(pairs(old(entries)@), key@, v@),
{
    let ghost start = pairs(entries@);
    let ghost e0 = entries@;
    let mut i: usize = 0;
    proof {
        assert(start.skip(0) =~= start);
        assert(start.take(0) + map_put(start.skip(0), key@, v@) =~= map_put(start, key@, v@));
    }
    while i < entries.len()
        invariant
            i <= entries.len(),
            entries@ == e0,
            e0 == old(entries)@,
            start == pairs(e0),
            map_put(start, key@, v@) == start.take(i as int) + map_put(start.skip(i as int), key@, v@),
        decreases entries.len() - i,
    {
        proof {
            assert(start.skip(i as int)[0] == start[i as int]);
            assert(start.skip(i as int).skip(1) =~= start.skip(i as int + 1));
        }
        if same_text(entries[i].0.as_str(), key) {
            let ghost vv = v@;
            entries[i].1 = v;
            proof {
                assert(pairs(entries@) =~= start.take(i as int) + (seq![(key@, vv)] + start.skip(i as int + 1)));
            }
            return;
        }
        if is_key_before(key, entries[i].0.as_str()) {
            let ghost vv = v@;
            entries.insert(i, (key.to_owned(), v));
            proof {
                assert(pairs(entries@) =~= start.take(i as int) + (seq![(key@, vv)] + start.skip(i as int)));
            }
            return;
        }
        proof {
            assert(start.take(i as int) + (seq![start[i as int]] + map_put(start.skip(i as int + 1), key@, v@))
                =~= start.take(i as int + 1) + map_put(start.skip(i as int + 1), key@, v@));
        }
        i += 1;
    }
    let ghost vv = v@;
    entries.push((key.to_owned(), v));
    proof {
        assert(start.skip(i as int) =~= Seq::empty());
        assert(pairs(entries@) =~= start.take(i as int) + seq![(key@, vv)]);
    }
}

/// A map under construction.
#[derive(Debug, PartialEq, Eq)]
pub struct CborMapBuilder {
    pub entries: Vec<(String, CborObject)>,
}

impl View for CborMapBuilder {
    type V = Seq<(Seq<char>, CborValue)>;

    open spec fn view(&self) -> Seq<(Seq<char>, CborValue)> {
        pairs(self.entries@)
    }
}

impl CborMapBuilder {
    /// Adds an entry, in place of one with the same key.
    pub fn put(self, key: &str, v: CborObject) -> (r: CborMapBuilder)
        ensures
            r@ == map_put(self@, key@, v@),
    {
        let mut entries = self.entries;
        put_entry(&mut entries, key, v);
        CborMapBuilder { entries }
    }

    /// Adds an entry if there is a value.
    pub fn put_opt(self, key: &str, v: Option<CborObject>) -> (r: CborMapBuilder)
        ensures
            r@ == map_put_opt(self@, key@, match v { Some(x) => Some(x@), None => None }),
    {
        match v {
            Some(x) => self.put(key, x),
            None => self,
        }
    }

    /// The map that was built.
    pub fn build(self) -> (r: CborObject)
        ensures
            r@ == CborValue::Mapping(self@),
    {
        broadcast use lemma_mapping_view;

        CborObject::Mapping(self.entries)
    }
}

impl CborObject {
    /// An empty map, to be filled.
    pub fn map() -> (r: CborMapBuilder)
        ensures
            r@ == Seq::<(Seq<char>, CborValue)>::empty(),
    {
        let b = CborMapBuilder { entries: Vec::new() };
        proof {
            assert(b@ =~= Seq::empty());
        }
        b
    }

    /// The value under `key`, if this is a map that holds one.
    pub fn get(&self, key: &str) -> (r: Option<&CborObject>)
        ensures
            r is Some <==> self@.get(key@) is Some,
            r is Some ==> r->Some_0@ == self@.get(key@)->Some_0,
            r is Some ==> decreases_to!(*self => *r->Some_0),
    {
        broadcast use lemma_mapping_view;

        match self {
            CborObject::Mapping(v) => {
                let ghost e = pairs(v@);
                proof {
                    assert(e.skip(0) =~= e);
                }
                for i in 0..v.len()
                    invariant
                        e == pairs(v@),
                        *self == CborObject::Mapping(*v),
                        self@ == CborValue::Mapping(e),
                        map_get(e, key@) == map_get(e.skip(i as int), key@),
                {
                    proof {
                        assert(e.skip(i as int)[0] == e[i as int]);
                        assert(e.skip(i as int).skip(1) =~= e.skip(i as int + 1));
                    }
                    if same_text(v[i].0.as_str(), key) {
                        proof {
                            assert(*v == self->Mapping_0);
                            assert(decreases_to!(*v => v[i as int]));
                        }
                        return Some(&v[i].1);
                    }
                }
                None
            },
            _ => None,
        }
    }

    /// The integer, if this is one.
    pub fn as_long(&self) -> (r: Option<i64>)
        ensures
            r is Some <==> self@ is Long,
            r is Some ==> self@ == CborValue::Long(r->Some_0 as int),
    {
        match self {
            CborObject::Long(n) => Some(*n),
            _ => None,
        }
    }

    /// The boolean, if this is one.
    pub fn as_bool(&self) -> (r: Option<bool>)
        ensures
            r is Some <==> self@ is Boolean,
            r is Some ==> self@ == CborValue::Boolean(r->Some_0),
    {
        match self {
            CborObject::Boolean(b) => Some(*b),
            _ => None,
        }
    }

    /// The text, if this is one.
    pub fn as_string(&self) -> (r: Option<&String>)
        ensures
            r is Some <==> self@ is Str,
            r is Some ==> self@ == CborValue::Str(r->Some_0@),
    {
        match self {
            CborObject::Str(s) => Some(s),
            _ => None,
        }
    }

    /// The byte string, if this is one.
    pub fn as_bytes(&self) -> (r: Option<&Vec<u8>>)
        ensures
            r is Some <==> self@ is ByteString,
            r is Some ==> self@ == CborValue::ByteString(r->Some_0@),
    {
        match self {
            CborObject::ByteString(b) => Some(b),
            _ => None,
        }
    }

    /// The cid bytes, if this is a link.
    pub fn as_link(&self) -> (r: Option<&Vec<u8>>)
        ensures
            r is Some <==> self@ is MerkleLink,
            r is Some ==> self@ == CborValue::MerkleLink(r->Some_0@),
    {
        match self {
            CborObject::MerkleLink(b) => Some(b),
            _ => None,
        }
    }

    /// The items, if this is a list.
    pub fn as_list(&self) -> (r: Option<&Vec<CborObject>>)
        ensures
            r is Some <==> self@ is List,
            r is Some ==> self@ == CborValue::List(items(r->Some_0@)),
    {
        broadcast use lemma_list_view;

        match self {
            CborObject::List(v) => Some(v),
            _ => None,
        }
    }

    /// The entries, if this is a map.
    pub fn as_map(&self) -> (r: Option<&Vec<(String, CborObject)>>)
        ensures
            r is Some <==> self@ is Mapping,
            r is Some ==> self@ == CborValue::Mapping(pairs(r->Some_0@)),
    {
        broadcast use lemma_mapping_view;

        match self {
            CborObject::Mapping(v) => Some(v),
            _ => None,
        }
    }

    /// The integer under `key`.
    pub fn long_at(&self, key: &str) -> (r: Option<i64>)
        ensures
            r is Some <==> self@.long_at(key@) is Some,
            r is Some ==> r->Some_0 == self@.long_at(key@)->Some_0,
    {
        match self.get(key) {
            Some(c) => c.as_long(),
            None => None,
        }
    }

    /// The boolean under `key`.
    pub fn bool_at(&self, key: &str) -> (r: Option<bool>)
        ensures
            r == self@.bool_at(key@),
    {
        match self.get(key) {
            Some(c) => c.as_bool(),
            None => None,
        }
    }

    /// The text under `key`.
    pub fn text_at(&self, key: &str) -> (r: Option<String>)
        ensures
            r is Some <==> self@.text_at(key@) is Some,
            r is Some ==> r->Some_0@ == self@.text_at(key@)->Some_0,
    {
        match self.get(key) {
            Some(CborObject::Str(s)) => Some(s.clone()),
            _ => None,
        }
    }

    /// The bytes under `key`.
    pub fn bytes_at(&self, key: &str) -> (r: Option<Vec<u8>>)
        ensures
            r is Some <==> self@.bytes_at(key@) is Some,
            r is Some ==> r->Some_0@ == self@.bytes_at(key@)->Some_0,
    {
        match self.get(key) {
            Some(CborObject::ByteString(b)) => Some(copy_bytes(b)),
            _ => None,
        }
    }

    /// The cid of the link under `key`.
    pub fn link_at(&self, key: &str) -> (r: Option<Vec<u8>>)
        ensures
            r is Some <==> self@.link_at(key@) is Some,
            r is Some ==> r->Some_0@ == self@.link_at(key@)->Some_0,
    {
        match self.get(key) {
            Some(CborObject::MerkleLink(b)) => Some(copy_bytes(b)),
            _ => None,
        }
    }

    /// A copy of this value.
    pub fn dup(&self) -> (r: CborObject)
        ensures
            r@ == self@,
        decreases self,
    {
        match self {
            CborObject::Null => CborObject::Null,
            CborObject::Boolean(b) => CborObject::Boolean(*b),
            CborObject::Long(n) => CborObject::Long(*n),
            CborObject::Str(s) => CborObject::Str(s.clone()),
            CborObject::ByteString(b) => CborObject::ByteString(copy_bytes(b)),
            CborObject::MerkleLink(b) => CborObject::MerkleLink(copy_bytes(b)),
            CborObject::List(v) => {
                let mut out: Vec<CborObject> = Vec::new();
                for i in 0..v.len()
                    invariant
                        *self == CborObject::List(*v),
                        out.len() == i,
                        forall|j: int| 0 <= j < i ==> (#[trigger] out[j])@ == v[j]@,
                {
                    proof {
                        assert(decreases_to!(*v => v[i as int]));
                        assert(*v == self->List_0);
                    }
                    out.push(v[i].dup());
                }
                let r = CborObject::List(out);
                proof {
                    assert(r@->List_0 =~= self@->List_0);
                }
                r
            },
            CborObject::Mapping(v) => {
                let mut out: Vec<(String, CborObject)> = Vec::new();
                for i in 0..v.len()
                    invariant
                        *self == CborObject::Mapping(*v),
                        out.len() == i,
                        forall|j: int| 0 <= j < i ==> (#[trigger] out[j]).1@ == v[j].1@ && out[j].0@ == v[j].0@,
                {
                    proof {
                        assert(decreases_to!(*v => v[i as int]));
                        assert(*v == self->Mapping_0);
                    }
                    out.push((v[i].0.clone(), v[i].1.dup()));
                }
                let r = CborObject::Mapping(out);
                proof {
                    assert(r@->Mapping_0 =~= self@->Mapping_0);
                }
                r
            },
        }
    }

    /// Whether two values are the same.
    pub fn same(&self, other: &CborObject) -> (r: bool)
        ensures
            r == (self@ == other@),
        decreases self,
    {
        match (self, other) {
            (CborObject::Null, CborObject::Null) => true,
            (CborObject::Boolean(a), CborObject::Boolean(b)) => *a == *b,
            (CborObject::Long(a), CborObject::Long(b)) => *a == *b,
            (CborObject::Str(a), CborObject::Str(b)) => *a == *b,
            (CborObject::ByteString(a), CborObject::ByteString(b)) => same_bytes(a, b),
            (CborObject::MerkleLink(a), CborObject::MerkleLink(b)) => same_bytes(a, b),
            (CborObject::List(a), CborObject::List(b)) => {
                if a.len() != b.len() {
                    proof {
                        assert(self@->List_0.len() != other@->List_0.len());
                    }
                    return false;
                }
                for i in 0..a.len()
                    invariant
                        a.len() == b.len(),
                        *self == CborObject::List(*a),
                        *other == CborObject::List(*b),
                        forall|j: int| 0 <= j < i ==> (#[trigger] a[j])@ == b[j]@,
                {
                    if !a[i].same(&b[i]) {
                        proof {
                            assert(self@->List_0[i as int] != other@->List_0[i as int]);
                        }
                        return false;
                    }
                }
                proof {
                    assert(self@->List_0 =~= other@->List_0);
                }
                true
            },
            (CborObject::Mapping(a), CborObject::Mapping(b)) => {
                if a.len() != b.len() {
                    proof {
                        assert(self@->Mapping_0.len() != other@->Mapping_0.len());
                    }
                    return false;
                }
                for i in 0..a.len()
                    invariant
                        a.len() == b.len(),
                        *self == CborObject::Mapping(*a),
                        *other == CborObject::Mapping(*b),
                        forall|j: int| 0 <= j < i ==> (#[trigger] a[j]).0@ == b[j].0@ && a[j].1@ == b[j].1@,
                {
                    if a[i].0 != b[i].0 || !a[i].1.same(&b[i].1) {
                        proof {
                            assert(self@->Mapping_0[i as int] != other@->Mapping_0[i as int]);
                        }
                        return false;
                    }
                }
                proof {
                    assert(self@->Mapping_0 =~= other@->Mapping_0);
                }
                true
            },
            _ => false,
        }
    }
}

/// A field of another type counts as none.
pub proof fn law_typed_fields(v: CborValue, key: Seq<char>, n: int, b: bool, s: Seq<char>, x: Seq<u8>, l: Seq<CborValue>)
    ensures
        v.long_at(key) == Some(n) <==> v.get(key) == Some(CborValue::Long(n)),
        v.bool_at(key) == Some(b) <==> v.get(key) == Some(CborValue::Boolean(b)),
        v.text_at(key) == Some(s) <==> v.get(key) == Some(CborValue::Str(s)),
        v.bytes_at(key) == Some(x) <==> v.get(key) == Some(CborValue::ByteString(x)),
        v.link_at(key) == Some(x) <==> v.get(key) == Some(CborValue::MerkleLink(x)),
        v.list_at(key) == Some(l) <==> v.get(key) == Some(CborValue::List(l)),
        v.get(key) == Some(CborValue::Str(s)) ==> text_or_empty(v, key) == s,
        v.text_at(key) is None ==> text_or_empty(v, key).len() == 0,
        v.get(key) == Some(CborValue::List(l)) ==> list_or_empty(v, key) == l,
        v.list_at(key) is None ==> list_or_empty(v, key).len() == 0,
        v.get(key) == Some(CborValue::Long(n)) ==> long_or_zero(v, key) == n,
        v.long_at(key) is None ==> long_or_zero(v, key) == 0,
        v.get(key) == Some(CborValue::Boolean(b)) ==> bool_or_else(v, key, !b) == b,
        v.bool_at(key) is None ==> bool_or_else(v, key, b) == b,
        opt_text_cbor(Some(s)) == Some(CborValue::Str(s)),
        opt_text_cbor(None) is None,
        !(v is Mapping) ==> v.get(key) is None,
{
}

/// The order of keys: the shorter in bytes first, and of two as long the one with the lesser byte
/// where they differ.
pub proof fn law_key_order(a: Seq<char>, b: Seq<char>, n: int)
    ensures
        encode_utf8(a).len() < encode_utf8(b).len() ==> key_before(a, b) && !key_before(b, a),
        encode_utf8(a).len() == encode_utf8(b).len() && 0 <= n < encode_utf8(a).len() && encode_utf8(a).take(n)
            == encode_utf8(b).take(n) && encode_utf8(a)[n] < encode_utf8(b)[n] ==> key_before(a, b) && !key_before(b, a),
{
    if encode_utf8(a).len() == encode_utf8(b).len() && 0 <= n < encode_utf8(a).len() && encode_utf8(a).take(n)
        == encode_utf8(b).take(n) {
        law_order_of_bytes(encode_utf8(a), encode_utf8(b), n);
    }
}

/// A key that is put into a map whose other keys are all before it comes last, and one whose other
/// keys are all behind it comes first; one that is there already keeps its place.
pub proof fn law_place_of_a_key(e: Seq<(Seq<char>, CborValue)>, key: Seq<char>, v: CborValue, i: int)
    ensures
        (forall|k: int| 0 <= k < e.len() ==> (#[trigger] e[k]).0 != key && !key_before(key, e[k].0)) ==> map_put(e, key, v)
            == e.push((key, v)),
        e.len() > 0 && e[0].0 != key && key_before(key, e[0].0) ==> map_put(e, key, v) == seq![(key, v)] + e,
        0 <= i < e.len() && e[i].0 == key && (forall|k: int|
            0 <= k < i ==> (#[trigger] e[k]).0 != key && !key_before(key, e[k].0)) ==> map_put(e, key, v) == e.update(
            i,
            (key, v),
        ),
    decreases e.len(),
{
    if e.len() == 0 {
        assert(map_put(e, key, v) =~= e.push((key, v)));
    } else if e[0].0 == key {
        if i == 0 {
            assert(map_put(e, key, v) =~= e.update(0, (key, v)));
        }
    } else if !key_before(key, e[0].0) {
        let rest = e.skip(1);
        law_place_of_a_key(rest, key, v, i - 1);
        if forall|k: int| 0 <= k < e.len() ==> (#[trigger] e[k]).0 != key && !key_before(key, e[k].0) {
            assert forall|k: int| 0 <= k < rest.len() implies (#[trigger] rest[k]).0 != key && !key_before(key, rest[k].0) by {
                assert(rest[k] == e[k + 1]);
            }
            assert(map_put(e, key, v) =~= e.push((key, v)));
        }
        if 0 <= i < e.len() && e[i].0 == key && (forall|k: int|
            0 <= k < i ==> (#[trigger] e[k]).0 != key && !key_before(key, e[k].0)) {
            assert(rest[i - 1] == e[i]);
            assert forall|k: int| 0 <= k < i - 1 implies (#[trigger] rest[k]).0 != key && !key_before(key, rest[k].0) by {
                assert(rest[k] == e[k + 1]);
            }
            assert(map_put(e, key, v) =~= e.update(i, (key, v)));
        }
    }
}

} // verus!
