use vstd::prelude::*;

verus! {

/// An indirect-object identifier: an object number together with a
/// generation number.  An identifier names an object within one
/// document's mapping; identifiers of different documents may clash.
#[derive(Clone, Copy, PartialEq, Eq, Structural, Debug)]
pub struct ObjectId {
    pub num: u32,
    pub gen: u16,
}

/// The two spellings a PDF string value may use when written out.
#[derive(Clone, Copy, PartialEq, Eq, Structural, Debug)]
pub enum StrFormat {
    Literal,
    Hexadecimal,
}

/// A PDF object: the tagged values that populate a document's object
/// mapping.  A real number is carried as the raw bit pattern of its
/// 32-bit encoding; the merge logic never interprets it, it is payload
/// only, exactly like the bytes of a string or of a stream.
#[derive(Debug)]
pub enum PdfObject {
    Null,
    Boolean(bool),
    Integer(i64),
    Real(u32),
    Name(Vec<u8>),
    Str(Vec<u8>, StrFormat),
    Array(Vec<PdfObject>),
    Dictionary(Dict),
    Stream(Dict, Vec<u8>),
    Reference(ObjectId),
}

/// A PDF dictionary: named entries in their written order.
/// Well-formed dictionaries have pairwise distinct keys.
#[derive(Debug)]
pub struct Dict {
    pub entries: Vec<(Vec<u8>, PdfObject)>,
}

/// The mathematical value of a `PdfObject`.
pub enum ObjV {
    Null,
    Boolean(bool),
    Integer(i64),
    Real(u32),
    Name(Seq<u8>),
    Str(Seq<u8>, StrFormat),
    Array(Seq<ObjV>),
    Dictionary(DictV),
    Stream(DictV, Seq<u8>),
    Reference(ObjectId),
}

/// The mathematical value of a `Dict`.
#[verifier::ext_equal]
pub struct DictV {
    pub entries: Seq<(Seq<u8>, ObjV)>,
}

pub open spec fn view_obj(o: PdfObject) -> ObjV
    decreases o,
{
    match o {
        PdfObject::Null => ObjV::Null,
        PdfObject::Boolean(b) => ObjV::Boolean(b),
        PdfObject::Integer(i) => ObjV::Integer(i),
        PdfObject::Real(r) => ObjV::Real(r),
        PdfObject::Name(n) => ObjV::Name(n@),
        PdfObject::Str(s, f) => ObjV::Str(s@, f),
        PdfObject::Array(items) => ObjV::Array(view_objs(items@)),
        PdfObject::Dictionary(d) => ObjV::Dictionary(view_dict(d)),
        PdfObject::Stream(d, c) => ObjV::Stream(view_dict(d), c@),
        PdfObject::Reference(id) => ObjV::Reference(id),
    }
}

pub open spec fn view_objs(items: Seq<PdfObject>) -> Seq<ObjV>
    decreases items,
{
    if items.len() == 0 {
        Seq::empty()
    } else {
        seq![view_obj(items[0])].add(view_objs(items.drop_first()))
    }
}

pub open spec fn view_dict(d: Dict) -> DictV
    decreases d,
{
    DictV { entries: view_entries(d.entries@) }
}

pub open spec fn view_entries(ents: Seq<(Vec<u8>, PdfObject)>) -> Seq<(Seq<u8>, ObjV)>
    decreases ents,
{
    if ents.len() == 0 {
        Seq::empty()
    } else {
        seq![(ents[0].0@, view_obj(ents[0].1))].add(view_entries(ents.drop_first()))
    }
}

/// `view_objs` maps `view_obj` over the elements, index by index.
pub broadcast proof fn lemma_view_objs(items: Seq<PdfObject>)
    ensures
        (#[trigger] view_objs(items)).len() == items.len(),
        forall|i: int| 0 <= i < items.len() ==> view_objs(items)[i] == view_obj(items[i]),
    decreases items,
{
    if items.len() == 0 {
    } else {
        lemma_view_objs(items.drop_first());
    }
}

/// `view_entries` maps the entry view over the entries, index by index.
pub broadcast proof fn lemma_view_entries(ents: Seq<(Vec<u8>, PdfObject)>)
    ensures
        (#[trigger] view_entries(ents)).len() == ents.len(),
        forall|i: int| 0 <= i < ents.len() ==> view_entries(ents)[i] == (
            ents[i].0@,
            view_obj(ents[i].1),
        ),
    decreases ents,
{
    if ents.len() == 0 {
    } else {
        lemma_view_entries(ents.drop_first());
    }
}

impl View for PdfObject {
    type V = ObjV;

    open spec fn view(&self) -> ObjV {
        view_obj(*self)
    }
}

impl View for Dict {
    type V = DictV;

    open spec fn view(&self) -> DictV {
        view_dict(*self)
    }
}

/// The value stored under `key`, looking entries up front to back.
pub open spec fn dict_get(d: DictV, key: Seq<u8>) -> Option<ObjV>
    decreases d.entries.len(),
{
    if d.entries.len() == 0 {
        None
    } else if d.entries[0].0 == key {
        Some(d.entries[0].1)
    } else {
        dict_get(DictV { entries: d.entries.drop_first() }, key)
    }
}

/// `d` with `key` bound to `val`: the first entry under `key` is
/// replaced in place; a missing key is appended at the end.
pub open spec fn dict_set(d: DictV, key: Seq<u8>, val: ObjV) -> DictV
    decreases d.entries.len(),
{
    if d.entries.len() == 0 {
        DictV { entries: seq![(key, val)] }
    } else if d.entries[0].0 == key {
        DictV { entries: seq![(key, val)].add(d.entries.drop_first()) }
    } else {
        DictV {
            entries: seq![d.entries[0]].add(
                dict_set(DictV { entries: d.entries.drop_first() }, key, val).entries,
            ),
        }
    }
}

/// When the first `i` entries miss `key` and entry `i` carries it,
/// `dict_get` returns entry `i`'s value.
pub proof fn lemma_dict_get_found(d: DictV, key: Seq<u8>, i: int)
    requires
        0 <= i < d.entries.len(),
        forall|j: int| 0 <= j < i ==> d.entries[j].0 != key,
        d.entries[i].0 == key,
    ensures
        dict_get(d, key) == Some(d.entries[i].1),
    decreases i,
{
    if i > 0 {
        lemma_dict_get_found(DictV { entries: d.entries.drop_first() }, key, i - 1);
    }
}

/// When no entry carries `key`, `dict_get` misses.
pub proof fn lemma_dict_get_missing(d: DictV, key: Seq<u8>)
    requires
        forall|j: int| 0 <= j < d.entries.len() ==> d.entries[j].0 != key,
    ensures
        dict_get(d, key) is None,
    decreases d.entries.len(),
{
    if d.entries.len() > 0 {
        lemma_dict_get_missing(DictV { entries: d.entries.drop_first() }, key);
    }
}

/// When the first `i` entries miss `key` and entry `i` carries it,
/// `dict_set` is the point update of entry `i`.
pub proof fn lemma_dict_set_found(d: DictV, key: Seq<u8>, val: ObjV, i: int)
    requires
        0 <= i < d.entries.len(),
        forall|j: int| 0 <= j < i ==> d.entries[j].0 != key,
        d.entries[i].0 == key,
    ensures
        dict_set(d, key, val).entries =~= d.entries.update(i, (key, val)),
    decreases i,
{
    if i > 0 {
        let tail = DictV { entries: d.entries.drop_first() };
        lemma_dict_set_found(tail, key, val, i - 1);
        assert(dict_set(d, key, val).entries =~= d.entries.update(i, (key, val)));
    }
}

/// When no entry carries `key`, `dict_set` appends a new entry.
pub proof fn lemma_dict_set_missing(d: DictV, key: Seq<u8>, val: ObjV)
    requires
        forall|j: int| 0 <= j < d.entries.len() ==> d.entries[j].0 != key,
    ensures
        dict_set(d, key, val).entries =~= d.entries.push((key, val)),
    decreases d.entries.len(),
{
    if d.entries.len() > 0 {
        let tail = DictV { entries: d.entries.drop_first() };
        lemma_dict_set_missing(tail, key, val);
        assert(dict_set(d, key, val).entries =~= d.entries.push((key, val)));
    }
}

/// Byte-for-byte equality of a stored name and a queried one.
pub fn bytes_eq(a: &Vec<u8>, b: &[u8]) -> (r: bool)
    ensures
        r == (a@ == b@),
{
    if a.len() != b.len() {
        assert(a@ != b@) by {
            assert(a@.len() != b@.len());
        }
        return false;
    }
    let n = a.len();
    let mut i: usize = 0;
    while i < n
        invariant
            n == a@.len() == b@.len(),
            0 <= i <= n,
            forall|j: int| 0 <= j < i ==> a@[j] == b@[j],
        decreases n - i,
    {
        if a[i] != b[i] {
            return false;
        }
        i = i + 1;
    }
    assert(a@ =~= b@);
    true
}

/// A copy of a byte slice as an owned vector.
pub fn bytes_owned(b: &[u8]) -> (r: Vec<u8>)
    ensures
        r@ == b@,
{
    let mut out: Vec<u8> = Vec::new();
    let n = b.len();
    let mut i: usize = 0;
    while i < n
        invariant
            n == b@.len(),
            0 <= i <= n,
            out@ =~= b@.take(i as int),
        decreases n - i,
    {
        out.push(b[i]);
        i = i + 1;
    }
    assert(out@ =~= b@);
    out
}

impl Dict {
    /// An empty dictionary.
    pub fn new() -> (d: Dict)
        ensures
            d@.entries.len() == 0,
    {
        Dict { entries: Vec::new() }
    }

    /// The value stored under `key`, if any.
    pub fn get(&self, key: &[u8]) -> (r: Option<&PdfObject>)
        ensures
            match r {
                Some(o) => dict_get(self@, key@) == Some(o@),
                None => dict_get(self@, key@) is None,
            },
    {
        proof {
            lemma_view_entries(self.entries@);
        }
        let n = self.entries.len();
        let mut i: usize = 0;
        while i < n
            invariant
                n == self.entries@.len(),
                0 <= i <= n,
                forall|j: int| 0 <= j < i ==> self@.entries[j].0 != key@,
            decreases n - i,
        {
            proof {
                lemma_view_entries(self.entries@);
            }
            if bytes_eq(&self.entries[i].0, key) {
                proof {
                    lemma_dict_get_found(self@, key@, i as int);
                }
                return Some(&self.entries[i].1);
            }
            i = i + 1;
        }
        proof {
            lemma_dict_get_missing(self@, key@);
        }
        None
    }

    /// Bind `key` to `val`, replacing the first entry under `key` in
    /// place, or appending a new entry when the key is absent.
    pub fn set(&mut self, key: &[u8], val: PdfObject)
        ensures
            final(self)@ == dict_set(old(self)@, key@, val@),
    {
        proof {
            lemma_view_entries(self.entries@);
        }
        let n = self.entries.len();
        let mut i: usize = 0;
        while i < n
            invariant
                n == self.entries@.len(),
                *self == *old(self),
                0 <= i <= n,
                forall|j: int| 0 <= j < i ==> self@.entries[j].0 != key@,
            decreases n - i,
        {
            proof {
                lemma_view_entries(self.entries@);
            }
            if bytes_eq(&self.entries[i].0, key) {
                let owned_key = bytes_owned(key);
                self.entries.set(i, (owned_key, val));
                proof {
                    lemma_view_entries(old(self).entries@);
                    lemma_view_entries(self.entries@);
                    lemma_dict_set_found(old(self)@, key@, val@, i as int);
                    assert(self@.entries =~= old(self)@.entries.update(
                        i as int,
                        (key@, val@),
                    ));
                }
                return;
            }
            i = i + 1;
        }
        let owned_key = bytes_owned(key);
        self.entries.push((owned_key, val));
        proof {
            lemma_view_entries(old(self).entries@);
            lemma_view_entries(self.entries@);
            lemma_dict_set_missing(old(self)@, key@, val@);
            assert(self@.entries =~= old(self)@.entries.push((key@, val@)));
        }
    }
}

/// A copy of stored bytes as an owned vector.
pub fn copy_bytes(v: &Vec<u8>) -> (r: Vec<u8>)
    ensures
        r@ == v@,
{
    bytes_owned(v.as_slice())
}

/// A hit of `dict_get` comes from some entry.
pub proof fn lemma_dict_get_some_index(d: DictV, key: Seq<u8>) -> (i: int)
    requires
        dict_get(d, key) is Some,
    ensures
        0 <= i < d.entries.len(),
        d.entries[i].0 == key,
        dict_get(d, key) == Some(d.entries[i].1),
    decreases d.entries.len(),
{
    if d.entries[0].0 == key {
        0
    } else {
        let j = lemma_dict_get_some_index(DictV { entries: d.entries.drop_first() }, key);
        j + 1
    }
}

} // verus!
