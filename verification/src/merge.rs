use vstd::prelude::*;

use crate::document::{
    doc_wf, ents_refs_bounded, has_key, lemma_ents_refs_bounded, lemma_objs_refs_bounded,
    lemma_view_objects, lookup, obj_refs_bounded, unique_ids, view_objects, DocV, Document,
};
use crate::object::{
    copy_bytes, dict_set, lemma_view_entries, lemma_view_objs, view_dict, view_entries,
    view_obj, view_objs, Dict, DictV, ObjV, ObjectId, PdfObject,
};
use crate::pages::{
    key_catalog, key_count, key_kids, key_pages, key_root, key_type, locate_pages, nm_catalog,
    nm_count, nm_kids, nm_pages, nm_root, nm_type, spec_locate_pages, spec_page_list,
};

verus! {

/// How a merge step ended.  `PagesRebuilt`: the incoming objects were
/// folded in and the page tree's `Kids` and `Count` were rebuilt.
/// `PageTreeSkipped`: the incoming objects were folded in, but the
/// accumulating document's trailer did not lead to a pages dictionary,
/// so the rebuild was skipped; the result may pair a stale page tree
/// with the merged objects.  `IdSpaceExhausted`: the renumbered
/// identifiers or the page count would not fit in 32 bits; the
/// document is left unchanged.
#[derive(Clone, Copy, PartialEq, Eq, Structural, Debug)]
pub enum MergeStatus {
    PagesRebuilt,
    PageTreeSkipped,
    IdSpaceExhausted,
}

/// `id` relabelled by adding `base` to its object number.
pub open spec fn shift_id(id: ObjectId, base: int) -> ObjectId {
    ObjectId { num: (id.num + base) as u32, gen: id.gen }
}

/// `o` with every reference relabelled by `base`.
pub open spec fn shift_obj(o: ObjV, base: int) -> ObjV
    decreases o,
{
    match o {
        ObjV::Reference(id) => ObjV::Reference(shift_id(id, base)),
        ObjV::Array(items) => ObjV::Array(shift_objs(items, base)),
        ObjV::Dictionary(d) => ObjV::Dictionary(DictV { entries: shift_ents(d.entries, base) }),
        ObjV::Stream(d, c) => ObjV::Stream(DictV { entries: shift_ents(d.entries, base) }, c),
        _ => o,
    }
}

pub open spec fn shift_objs(items: Seq<ObjV>, base: int) -> Seq<ObjV>
    decreases items,
{
    if items.len() == 0 {
        Seq::empty()
    } else {
        seq![shift_obj(items[0], base)].add(shift_objs(items.drop_first(), base))
    }
}

pub open spec fn shift_ents(ents: Seq<(Seq<u8>, ObjV)>, base: int) -> Seq<(Seq<u8>, ObjV)>
    decreases ents,
{
    if ents.len() == 0 {
        Seq::empty()
    } else {
        seq![(ents[0].0, shift_obj(ents[0].1, base))].add(shift_ents(ents.drop_first(), base))
    }
}

/// Element-wise reading of `shift_objs`.
pub broadcast proof fn lemma_shift_objs(items: Seq<ObjV>, base: int)
    ensures
        (#[trigger] shift_objs(items, base)).len() == items.len(),
        forall|i: int|
            0 <= i < items.len() ==> shift_objs(items, base)[i] == shift_obj(items[i], base),
    decreases items,
{
    if items.len() > 0 {
        lemma_shift_objs(items.drop_first(), base);
    }
}

/// Element-wise reading of `shift_ents`.
pub broadcast proof fn lemma_shift_ents(ents: Seq<(Seq<u8>, ObjV)>, base: int)
    ensures
        (#[trigger] shift_ents(ents, base)).len() == ents.len(),
        forall|i: int|
            0 <= i < ents.len() ==> shift_ents(ents, base)[i] == (
                ents[i].0,
                shift_obj(ents[i].1, base),
            ),
    decreases ents,
{
    if ents.len() > 0 {
        lemma_shift_ents(ents.drop_first(), base);
    }
}

/// The mapping entries of a document, every identifier relabelled.
pub open spec fn shifted_entries(objs: Seq<(ObjectId, ObjV)>, base: int) -> Seq<(ObjectId, ObjV)> {
    Seq::new(objs.len(), |i: int| (shift_id(objs[i].0, base), shift_obj(objs[i].1, base)))
}

/// The identifier of the `i`th freshly allocated page proxy.
pub open spec fn proxy_id(start: int, i: int) -> ObjectId {
    ObjectId { num: (start + i) as u32, gen: 0 }
}

/// The proxy objects: one fresh reference per incoming page, pointing
/// at the (relabelled) page dictionary.
pub open spec fn proxy_entries(pairs: Seq<(ObjectId, ObjectId)>, base: int, start: int) -> Seq<
    (ObjectId, ObjV),
> {
    Seq::new(pairs.len(), |i: int| (proxy_id(start, i), ObjV::Reference(shift_id(pairs[i].1, base))))
}

/// References to the kid identifiers of an existing page list.
pub open spec fn prev_kid_refs(prev: Seq<(ObjectId, ObjectId)>) -> Seq<ObjV> {
    Seq::new(prev.len(), |i: int| ObjV::Reference(prev[i].0))
}

/// References to `n` freshly allocated proxies starting at `start`.
pub open spec fn proxy_kid_refs(n: nat, start: int) -> Seq<ObjV> {
    Seq::new(n, |i: int| ObjV::Reference(proxy_id(start, i)))
}

/// The entries with the value under `id` replaced by `v`.
pub open spec fn replace_value(objs: Seq<(ObjectId, ObjV)>, id: ObjectId, v: ObjV) -> Seq<
    (ObjectId, ObjV),
> {
    Seq::new(objs.len(), |i: int| if objs[i].0 == id { (id, v) } else { objs[i] })
}

/// The pages dictionary after the rebuild: `Count` set to the page
/// total, `Kids` set to the rebuilt references.
pub open spec fn rebuilt_pages_dict(pg: DictV, total: int, kids: Seq<ObjV>) -> DictV {
    dict_set(dict_set(pg, nm_count(), ObjV::Integer(total as i64)), nm_kids(), ObjV::Array(kids))
}

/// One merge step over document values.  The incoming mapping is
/// relabelled by `out.max_id + 1` and appended; one proxy reference
/// per incoming page is allocated after it; and, when the trailer
/// leads to a pages dictionary, that dictionary's `Kids` is rebuilt
/// as the previous page list followed by the new proxies, with
/// `Count` their total.  When the trailer leads nowhere the rebuild
/// is skipped.  The new highest-identifier counter moves past every
/// relabelled identifier, references included, so a later step cannot
/// collide with anything this one brought in.  When the relabelled
/// identifiers or the page total would not fit in 32 bits nothing
/// happens at all.
pub open spec fn spec_merge(out: DocV, inc: DocV) -> (DocV, MergeStatus) {
    let base = out.max_id + 1;
    let pairs = spec_page_list(inc);
    let prev = spec_page_list(out);
    let m1 = out.max_id + 1 + inc.max_id;
    if m1 + pairs.len() > u32::MAX || prev.len() + pairs.len() > u32::MAX {
        (out, MergeStatus::IdSpaceExhausted)
    } else {
        let shifted = shifted_entries(inc.objects, base as int);
        let proxies = proxy_entries(pairs, base as int, m1 + 1);
        let new_max = (m1 + pairs.len()) as u32;
        match spec_locate_pages(out) {
            Some(pgid) => match lookup(out.objects, pgid) {
                Some(ObjV::Dictionary(pg)) => {
                    let total = prev.len() + pairs.len();
                    let kids = prev_kid_refs(prev).add(proxy_kid_refs(pairs.len(), m1 + 1));
                    let newpg = ObjV::Dictionary(rebuilt_pages_dict(pg, total as int, kids));
                    (
                        DocV {
                            objects: replace_value(out.objects, pgid, newpg).add(shifted).add(
                                proxies,
                            ),
                            trailer: out.trailer,
                            version: out.version,
                            max_id: new_max,
                        },
                        MergeStatus::PagesRebuilt,
                    )
                },
                _ => (
                    DocV {
                        objects: out.objects.add(shifted).add(proxies),
                        trailer: out.trailer,
                        version: out.version,
                        max_id: new_max,
                    },
                    MergeStatus::PageTreeSkipped,
                ),
            },
            None => (
                DocV {
                    objects: out.objects.add(shifted).add(proxies),
                    trailer: out.trailer,
                    version: out.version,
                    max_id: new_max,
                },
                MergeStatus::PageTreeSkipped,
            ),
        }
    }
}

/// `o` rebuilt with every reference relabelled by `base`.
#[verifier::loop_isolation(false)]
pub fn renumber_obj(o: &PdfObject, base: u32) -> (r: PdfObject)
    requires
        obj_refs_bounded(o@, u32::MAX - base),
    ensures
        r@ == shift_obj(o@, base as int),
    decreases *o,
{
    match o {
        PdfObject::Null => PdfObject::Null,
        PdfObject::Boolean(b) => PdfObject::Boolean(*b),
        PdfObject::Integer(i) => PdfObject::Integer(*i),
        PdfObject::Real(r) => PdfObject::Real(*r),
        PdfObject::Name(n) => PdfObject::Name(copy_bytes(n)),
        PdfObject::Str(s, f) => PdfObject::Str(copy_bytes(s), *f),
        PdfObject::Array(items) => {
            proof {
                lemma_view_objs(items@);
                lemma_objs_refs_bounded(view_objs(items@), u32::MAX - base);
                assert forall|j: int| 0 <= j < items@.len() implies obj_refs_bounded(
                    view_obj(#[trigger] items@[j]),
                    u32::MAX - base,
                ) by {
                    assert(view_objs(items@)[j] == view_obj(items@[j]));
                }
            }
            let n = items.len();
            let mut out: Vec<PdfObject> = Vec::new();
            let mut i: usize = 0;
            while i < n
                invariant
                    n == items@.len(),
                    0 <= i <= n,
                    out@.len() == i,
                    view_objs(items@).len() == items@.len(),
                    forall|j: int|
                        0 <= j < items@.len() ==> view_objs(items@)[j] == view_obj(items@[j]),
                    forall|j: int|
                        0 <= j < items@.len() ==> obj_refs_bounded(
                            view_obj(#[trigger] items@[j]),
                            u32::MAX - base,
                        ),
                    forall|j: int|
                        0 <= j < i ==> view_obj(#[trigger] out@[j]) == shift_obj(
                            view_obj(items@[j]),
                            base as int,
                        ),
                decreases n - i,
            {
                proof {
                    assert(*o == PdfObject::Array(*items));
                    assert(decreases_to!(*o => o->Array_0));
                    assert(o->Array_0 == *items);
                    assert(decreases_to!(*items => items@));
                    assert(decreases_to!(items@ => items@[i as int]));
                    assert(decreases_to!(*o => items@[i as int]));
                }
                let r = renumber_obj(&items[i], base);
                out.push(r);
                i = i + 1;
            }
            proof {
                lemma_view_objs(out@);
                lemma_shift_objs(view_objs(items@), base as int);
                assert(view_objs(out@) =~= shift_objs(view_objs(items@), base as int));
            }
            PdfObject::Array(out)
        },
        PdfObject::Dictionary(d) => PdfObject::Dictionary(renumber_dict(d, base)),
        PdfObject::Stream(d, c) => PdfObject::Stream(renumber_dict(d, base), copy_bytes(c)),
        PdfObject::Reference(id) => PdfObject::Reference(
            ObjectId { num: id.num + base, gen: id.gen },
        ),
    }
}

/// `d` rebuilt with every reference relabelled by `base`.
#[verifier::loop_isolation(false)]
pub fn renumber_dict(d: &Dict, base: u32) -> (r: Dict)
    requires
        ents_refs_bounded(view_dict(*d).entries, u32::MAX - base),
    ensures
        view_dict(r).entries == shift_ents(view_dict(*d).entries, base as int),
    decreases *d,
{
    proof {
        lemma_view_entries(d.entries@);
        lemma_ents_refs_bounded(view_entries(d.entries@), u32::MAX - base);
        assert forall|j: int| 0 <= j < d.entries@.len() implies obj_refs_bounded(
            view_obj((#[trigger] d.entries@[j]).1),
            u32::MAX - base,
        ) by {
            assert(view_entries(d.entries@)[j] == (d.entries@[j].0@, view_obj(d.entries@[j].1)));
        }
    }
    let n = d.entries.len();
    let mut out: Vec<(Vec<u8>, PdfObject)> = Vec::new();
    let mut i: usize = 0;
    while i < n
        invariant
            n == d.entries@.len(),
            0 <= i <= n,
            out@.len() == i,
            view_entries(d.entries@).len() == d.entries@.len(),
            forall|j: int|
                0 <= j < d.entries@.len() ==> view_entries(d.entries@)[j] == (
                    d.entries@[j].0@,
                    view_obj(d.entries@[j].1),
                ),
            forall|j: int|
                0 <= j < d.entries@.len() ==> obj_refs_bounded(
                    view_obj((#[trigger] d.entries@[j]).1),
                    u32::MAX - base,
                ),
            forall|j: int|
                0 <= j < i ==> (#[trigger] out@[j]).0@ == d.entries@[j].0@ && view_obj(
                    out@[j].1,
                ) == shift_obj(view_obj(d.entries@[j].1), base as int),
        decreases n - i,
    {
        proof {
            assert(decreases_to!(*d => d.entries));
            assert(decreases_to!(d.entries => d.entries@));
            assert(decreases_to!(d.entries@ => d.entries@[i as int]));
            assert(decreases_to!(d.entries@[i as int] => d.entries@[i as int].1));
            assert(decreases_to!(*d => d.entries@[i as int].1));
        }
        let k = copy_bytes(&d.entries[i].0);
        let v = renumber_obj(&d.entries[i].1, base);
        out.push((k, v));
        i = i + 1;
    }
    proof {
        lemma_view_entries(out@);
        lemma_shift_ents(view_entries(d.entries@), base as int);
        assert(view_entries(out@) =~= shift_ents(view_entries(d.entries@), base as int));
    }
    Dict { entries: out }
}

/// The value of a freshly created output document: a catalog at
/// identifier 1 pointing at an empty pages dictionary at identifier
/// 2, a trailer whose `Root` references the catalog, and the version
/// marker "1.5".
pub open spec fn spec_new_doc() -> DocV {
    DocV {
        objects: seq![
            (
                ObjectId { num: 1u32, gen: 0u16 },
                ObjV::Dictionary(
                    DictV {
                        entries: seq![
                            (nm_type(), ObjV::Name(nm_catalog())),
                            (nm_pages(), ObjV::Reference(ObjectId { num: 2u32, gen: 0u16 })),
                        ],
                    },
                ),
            ),
            (
                ObjectId { num: 2u32, gen: 0u16 },
                ObjV::Dictionary(
                    DictV {
                        entries: seq![
                            (nm_type(), ObjV::Name(nm_pages())),
                            (nm_kids(), ObjV::Array(Seq::empty())),
                            (nm_count(), ObjV::Integer(0)),
                        ],
                    },
                ),
            ),
        ],
        trailer: DictV {
            entries: seq![(nm_root(), ObjV::Reference(ObjectId { num: 1u32, gen: 0u16 }))],
        },
        version: seq![0x31u8, 0x2eu8, 0x35u8],
        max_id: 2u32,
    }
}

impl Document {
    /// A freshly created output document: an empty page tree under a
    /// fresh catalog and trailer, marked as version "1.5".
    pub fn new() -> (d: Document)
        ensures
            d@ == spec_new_doc(),
            d.wf(),
    {
        let mut cat = Dict::new();
        let tk = key_type();
        let ck = key_catalog();
        cat.set(tk.as_slice(), PdfObject::Name(crate::object::bytes_owned(ck.as_slice())));
        let pk = key_pages();
        cat.set(pk.as_slice(), PdfObject::Reference(ObjectId { num: 2, gen: 0 }));
        let mut pg = Dict::new();
        pg.set(tk.as_slice(), PdfObject::Name(crate::object::bytes_owned(pk.as_slice())));
        let kk = key_kids();
        pg.set(kk.as_slice(), PdfObject::Array(Vec::new()));
        let cnk = key_count();
        pg.set(cnk.as_slice(), PdfObject::Integer(0));
        let mut trailer = Dict::new();
        let rk = key_root();
        trailer.set(rk.as_slice(), PdfObject::Reference(ObjectId { num: 1, gen: 0 }));
        let version: Vec<u8> = crate::object::bytes_owned([0x31u8, 0x2eu8, 0x35u8].as_slice());
        let ghost catv = cat@;
        let ghost pgv = pg@;
        proof {
            reveal_with_fuel(crate::object::dict_set, 5);
            assert(catv.entries =~= seq![
                (nm_type(), ObjV::Name(nm_catalog())),
                (nm_pages(), ObjV::Reference(ObjectId { num: 2u32, gen: 0u16 })),
            ]);
            assert(pgv.entries =~= seq![
                (nm_type(), ObjV::Name(nm_pages())),
                (nm_kids(), ObjV::Array(Seq::empty())),
                (nm_count(), ObjV::Integer(0)),
            ]);
        }
        let mut objects: Vec<(ObjectId, PdfObject)> = Vec::new();
        objects.push((ObjectId { num: 1, gen: 0 }, PdfObject::Dictionary(cat)));
        objects.push((ObjectId { num: 2, gen: 0 }, PdfObject::Dictionary(pg)));
        let d = Document { objects, trailer, version, max_id: 2 };
        proof {
            lemma_view_objects(d.objects@);
            lemma_view_entries(d.trailer.entries@);
            assert(d@.objects[0] == (ObjectId { num: 1u32, gen: 0u16 }, ObjV::Dictionary(catv)));
            assert(d@.objects[1] == (ObjectId { num: 2u32, gen: 0u16 }, ObjV::Dictionary(pgv)));
            assert(d@.objects =~~= spec_new_doc().objects);
            assert(d@.trailer.entries =~~= spec_new_doc().trailer.entries);
            assert(d@.version =~= spec_new_doc().version);
            assert(d@ =~~= spec_new_doc());
            reveal_with_fuel(crate::document::ents_refs_bounded, 5);
            assert(crate::document::ents_refs_bounded(catv.entries, 2));
            assert(crate::document::ents_refs_bounded(pgv.entries, 2));
            assert(crate::document::ents_refs_bounded(d@.trailer.entries, 2));
            assert(d.wf());
        }
        d
    }
}

/// A located pages identifier maps to a dictionary.
pub proof fn lemma_locate_dict(d: DocV)
    ensures
        match spec_locate_pages(d) {
            Some(pgid) => lookup(d.objects, pgid) matches Some(v) && v is Dictionary,
            None => true,
        },
{
}

/// Every pair of a well-formed document's page list carries
/// identifiers of mapping entries, bounded by `max_id`.
pub proof fn lemma_page_list_keys(d: DocV)
    requires
        doc_wf(d),
    ensures
        forall|i: int|
            0 <= i < spec_page_list(d).len() ==> has_key(
                d.objects,
                (#[trigger] spec_page_list(d)[i]).0,
            ) && has_key(d.objects, spec_page_list(d)[i].1) && spec_page_list(d)[i].0.num
                <= d.max_id && spec_page_list(d)[i].1.num <= d.max_id,
{
    crate::pages::lemma_page_list_leaf(d);
    assert forall|i: int| 0 <= i < spec_page_list(d).len() implies has_key(
        d.objects,
        (#[trigger] spec_page_list(d)[i]).0,
    ) && has_key(d.objects, spec_page_list(d)[i].1) && spec_page_list(d)[i].0.num <= d.max_id
        && spec_page_list(d)[i].1.num <= d.max_id by {
        let p = spec_page_list(d)[i];
        crate::pages::lemma_leaf_pair_keys(d.objects, p.0, p.1);
        let j0 = choose|j: int| 0 <= j < d.objects.len() && d.objects[j].0 == p.0;
        assert(d.objects[j0].0.num <= d.max_id);
        let j1 = choose|j: int| 0 <= j < d.objects.len() && d.objects[j].0 == p.1;
        assert(d.objects[j1].0.num <= d.max_id);
    }
}

/// The position of the entry carrying `id`.
#[verifier::loop_isolation(false)]
fn find_index(objects: &Vec<(ObjectId, PdfObject)>, id: ObjectId) -> (idx: usize)
    requires
        has_key(view_objects(objects@), id),
    ensures
        idx < objects@.len(),
        view_objects(objects@)[idx as int].0 == id,
        objects@[idx as int].0 == id,
{
    proof {
        lemma_view_objects(objects@);
    }
    let n = objects.len();
    let mut i: usize = 0;
    while i < n
        invariant
            n == objects@.len(),
            0 <= i <= n,
            forall|j: int| 0 <= j < i ==> view_objects(objects@)[j].0 != id,
        decreases n - i,
    {
        proof {
            assert(view_objects(objects@)[i as int].0 == objects@[i as int].0);
        }
        if objects[i].0 == id {
            return i;
        }
        i = i + 1;
    }
    proof {
        let j = choose|j: int|
            0 <= j < view_objects(objects@).len() && view_objects(objects@)[j].0 == id;
        assert(false);
    }
    0
}

impl Document {
    /// Fold `incoming` into `self`: relabel its objects past
    /// `self.max_id`, append them, allocate one proxy reference per
    /// incoming page, and rebuild the page tree's `Kids` and `Count`
    /// when the trailer leads to a pages dictionary.  The result and
    /// the status are exactly `spec_merge` of the two documents.
    #[verifier::loop_isolation(false)]
    pub fn merge(&mut self, incoming: Document) -> (st: MergeStatus)
        requires
            old(self).wf(),
            incoming.wf(),
        ensures
            final(self)@ == spec_merge(old(self)@, incoming@).0,
            st == spec_merge(old(self)@, incoming@).1,
            final(self).wf(),
            unique_ids(final(self)@.objects),
    {
        let ghost out0 = self@;
        let ghost inc0 = incoming@;
        let pairs = incoming.page_list();
        let prev = self.page_list();
        proof {
            lemma_page_list_keys(out0);
            lemma_page_list_keys(inc0);
            lemma_locate_dict(out0);
        }
        if self.max_id as u128 + 1 + incoming.max_id as u128 + pairs.len() as u128
            > u32::MAX as u128 || prev.len() as u128 + pairs.len() as u128 > u32::MAX as u128 {
            return MergeStatus::IdSpaceExhausted;
        }
        let base: u32 = self.max_id + 1;
        let m1: u32 = base + incoming.max_id;
        let npages: u32 = pairs.len() as u32;
        let total: u32 = prev.len() as u32 + npages;
        let ghost shifted = shifted_entries(inc0.objects, base as int);
        let ghost proxies = proxy_entries(pairs@, base as int, m1 + 1);
        let loc = locate_pages(self);
        let ghost mid: Seq<(ObjectId, ObjV)>;
        match loc {
            Some(pgid) => {
                let mut kids: Vec<PdfObject> = Vec::new();
                let mut i: usize = 0;
                while i < prev.len()
                    invariant
                        0 <= i <= prev.len(),
                        kids@.len() == i,
                        forall|j: int|
                            0 <= j < i ==> kids@[j] == PdfObject::Reference(prev@[j].0),
                    decreases prev.len() - i,
                {
                    kids.push(PdfObject::Reference(prev[i].0));
                    i = i + 1;
                }
                let mut p: usize = 0;
                while p < pairs.len()
                    invariant
                        0 <= p <= pairs.len(),
                        kids@.len() == prev@.len() + p,
                        forall|j: int|
                            0 <= j < prev@.len() ==> kids@[j] == PdfObject::Reference(prev@[j].0),
                        forall|j: int|
                            0 <= j < p ==> kids@[prev@.len() + j] == PdfObject::Reference(
                                #[trigger] proxy_id(m1 + 1, j),
                            ),
                    decreases pairs.len() - p,
                {
                    kids.push(
                        PdfObject::Reference(ObjectId { num: m1 + 1 + (p as u32), gen: 0 }),
                    );
                    proof {
                        assert(ObjectId { num: (m1 + 1 + (p as u32)) as u32, gen: 0u16 }
                            == proxy_id(m1 + 1, p as int));
                    }
                    p = p + 1;
                }
                let ghost kids_v = prev_kid_refs(prev@).add(
                    proxy_kid_refs(npages as nat, m1 + 1),
                );
                proof {
                    lemma_view_objs(kids@);
                    assert(view_objs(kids@) =~= kids_v);
                }
                proof {
                    crate::document::lemma_lookup_none_iff(out0.objects, pgid);
                    lemma_view_objects(self.objects@);
                }
                let idx = find_index(&self.objects, pgid);
                proof {
                    crate::document::lemma_lookup_unique(out0.objects, idx as int);
                }
                let entry = self.objects.remove(idx);
                match entry.1 {
                    PdfObject::Dictionary(mut pg) => {
                        let ghost pg0 = pg@;
                        let ck = key_count();
                        pg.set(ck.as_slice(), PdfObject::Integer(total as i64));
                        let kk = key_kids();
                        pg.set(kk.as_slice(), PdfObject::Array(kids));
                        proof {
                            assert(pg@ == rebuilt_pages_dict(
                                pg0,
                                prev@.len() + pairs@.len() as int,
                                kids_v,
                            ));
                        }
                        proof {
                            assert(view_obj(entry.1) == out0.objects[idx as int].1);
                            assert(lookup(out0.objects, pgid) == Some(ObjV::Dictionary(pg0)));
                        }
                        let eid = entry.0;
                        self.objects.insert(idx, (eid, PdfObject::Dictionary(pg)));
                        proof {
                            let newpg = ObjV::Dictionary(
                                rebuilt_pages_dict(pg0, prev@.len() + pairs@.len() as int, kids_v),
                            );
                            lemma_view_objects(self.objects@);
                            lemma_view_objects(old(self).objects@);
                            assert(self.objects@ =~= old(self).objects@.update(
                                idx as int,
                                (eid, PdfObject::Dictionary(pg)),
                            ));
                            assert forall|j: int|
                                0 <= j < out0.objects.len() implies view_objects(self.objects@)[j]
                                == replace_value(out0.objects, pgid, newpg)[j] by {
                                if j != idx {
                                    assert(out0.objects[j].0 != pgid);
                                }
                            }
                            assert(view_objects(self.objects@) =~= replace_value(
                                out0.objects,
                                pgid,
                                newpg,
                            ));
                            mid = replace_value(out0.objects, pgid, newpg);
                        }
                    },
                    _ => {
                        // a located pages identifier always maps to a
                        // dictionary, so this arm cannot run
                        proof {
                            assert(false);
                            mid = out0.objects;
                        }
                    },
                }
            },
            None => {
                proof {
                    mid = out0.objects;
                }
            },
        }
        proof {
            assert(view_objects(self.objects@) == mid);
        }
        proof {
            lemma_view_objects(incoming.objects@);
        }
        let n2 = incoming.objects.len();
        let mut k: usize = 0;
        while k < n2
            invariant
                0 <= k <= n2,
                n2 == incoming.objects@.len(),
                inc0.objects.len() == n2,
                forall|j: int|
                    0 <= j < n2 ==> inc0.objects[j] == (
                        incoming.objects@[j].0,
                        view_obj(incoming.objects@[j].1),
                    ),
                view_objects(self.objects@) =~= mid.add(shifted.take(k as int)),
                self.trailer == old(self).trailer,
                self.version == old(self).version,
                self.max_id == old(self).max_id,
            decreases n2 - k,
        {
            proof {
                lemma_view_objects(incoming.objects@);
                crate::document::lemma_obj_refs_bounded_mono(
                    inc0.objects[k as int].1,
                    inc0.max_id as int,
                    u32::MAX - base,
                );
            }
            let id0 = incoming.objects[k].0;
            let r = renumber_obj(&incoming.objects[k].1, base);
            let ghost pre_objs = self.objects@;
            self.objects.push((ObjectId { num: id0.num + base, gen: id0.gen }, r));
            proof {
                lemma_view_objects(pre_objs);
                lemma_view_objects(self.objects@);
                assert(shifted[k as int] == (
                    shift_id(inc0.objects[k as int].0, base as int),
                    shift_obj(inc0.objects[k as int].1, base as int),
                ));
                let whole = mid.add(shifted.take(k + 1));
                assert(view_objects(self.objects@).len() == whole.len());
                assert forall|j: int|
                    0 <= j < whole.len() implies view_objects(self.objects@)[j] == whole[j] by {
                    if j < pre_objs.len() {
                        assert(view_objects(self.objects@)[j] == view_objects(pre_objs)[j]);
                        assert(whole[j] == mid.add(shifted.take(k as int))[j]);
                    } else {
                        assert(view_objects(self.objects@)[j] == (
                            self.objects@[j].0,
                            view_obj(self.objects@[j].1),
                        ));
                        assert(whole[j] == shifted[k as int]);
                    }
                }
                assert(view_objects(self.objects@) =~= whole);
            }
            k = k + 1;
        }
        let mut p2: usize = 0;
        while p2 < pairs.len()
            invariant
                0 <= p2 <= pairs.len(),
                view_objects(self.objects@) =~= mid.add(shifted).add(proxies.take(p2 as int)),
                self.trailer == old(self).trailer,
                self.version == old(self).version,
                self.max_id == old(self).max_id,
            decreases pairs.len() - p2,
        {
            let t = pairs[p2].1;
            proof {
                assert(pairs@[p2 as int] == spec_page_list(inc0)[p2 as int]);
                assert(spec_page_list(inc0)[p2 as int].1.num <= inc0.max_id);
            }
            let ghost pre_objs = self.objects@;
            self.objects.push(
                (
                    ObjectId { num: m1 + 1 + (p2 as u32), gen: 0 },
                    PdfObject::Reference(ObjectId { num: t.num + base, gen: t.gen }),
                ),
            );
            proof {
                lemma_view_objects(pre_objs);
                lemma_view_objects(self.objects@);
                assert(proxies[p2 as int] == (
                    proxy_id(m1 + 1, p2 as int),
                    ObjV::Reference(shift_id(pairs@[p2 as int].1, base as int)),
                ));
                let whole = mid.add(shifted).add(proxies.take(p2 + 1));
                assert(view_objects(self.objects@).len() == whole.len());
                assert forall|j: int|
                    0 <= j < whole.len() implies view_objects(self.objects@)[j] == whole[j] by {
                    if j < pre_objs.len() {
                        assert(view_objects(self.objects@)[j] == view_objects(pre_objs)[j]);
                        assert(whole[j] == mid.add(shifted).add(proxies.take(p2 as int))[j]);
                    } else {
                        assert(self.objects@[j] == (
                            ObjectId { num: (m1 + 1 + (p2 as u32)) as u32, gen: 0u16 },
                            PdfObject::Reference(
                                ObjectId { num: (t.num + base) as u32, gen: t.gen },
                            ),
                        ));
                        assert(whole[j] == proxies[p2 as int]);
                    }
                }
                assert(view_objects(self.objects@) =~= whole);
            }
            p2 = p2 + 1;
        }
        self.max_id = m1 + npages;
        proof {
            assert(shifted.take(n2 as int) =~= shifted);
            assert(proxies.take(pairs@.len() as int) =~= proxies);
            assert(view_objects(self.objects@) =~= mid.add(shifted).add(proxies));
            match loc {
                Some(pgid) => {
                    assert(spec_merge(out0, inc0).1 == MergeStatus::PagesRebuilt);
                    assert(spec_merge(out0, inc0).0.objects == mid.add(shifted).add(proxies));
                },
                None => {
                    assert(spec_merge(out0, inc0).1 == MergeStatus::PageTreeSkipped);
                    assert(spec_merge(out0, inc0).0.objects == mid.add(shifted).add(proxies));
                },
            }
            assert(self@.objects == spec_merge(out0, inc0).0.objects);
            assert(self.trailer == old(self).trailer);
            assert(self.version == old(self).version);
            assert(self@.trailer == out0.trailer);
            assert(spec_merge(out0, inc0).0.trailer == out0.trailer);
            assert(self@.version == out0.version);
            assert(spec_merge(out0, inc0).0.version == out0.version);
            assert(self@.max_id == spec_merge(out0, inc0).0.max_id);
            assert(self@ =~~= spec_merge(out0, inc0).0);
            crate::laws::lemma_merge_well_formed(out0, inc0);
        }
        match loc {
            Some(_) => MergeStatus::PagesRebuilt,
            None => MergeStatus::PageTreeSkipped,
        }
    }
}

} // verus!
