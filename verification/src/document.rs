use vstd::prelude::*;

use crate::object::{
    lemma_view_entries, lemma_view_objs, view_dict, view_obj, view_objs, Dict, DictV, ObjV,
    ObjectId, PdfObject,
};

verus! {

/// A PDF document: the indirect objects in insertion order, the
/// trailer record, the version marker, and the highest object number
/// assigned so far.
#[derive(Debug)]
pub struct Document {
    pub objects: Vec<(ObjectId, PdfObject)>,
    pub trailer: Dict,
    pub version: Vec<u8>,
    pub max_id: u32,
}

/// The mathematical value of a `Document`.
#[verifier::ext_equal]
pub struct DocV {
    pub objects: Seq<(ObjectId, ObjV)>,
    pub trailer: DictV,
    pub version: Seq<u8>,
    pub max_id: u32,
}

pub open spec fn view_objects(ents: Seq<(ObjectId, PdfObject)>) -> Seq<(ObjectId, ObjV)>
    decreases ents,
{
    if ents.len() == 0 {
        Seq::empty()
    } else {
        seq![(ents[0].0, view_obj(ents[0].1))].add(view_objects(ents.drop_first()))
    }
}

/// `view_objects` maps the object view over the entries, index by index.
pub broadcast proof fn lemma_view_objects(ents: Seq<(ObjectId, PdfObject)>)
    ensures
        (#[trigger] view_objects(ents)).len() == ents.len(),
        forall|i: int| 0 <= i < ents.len() ==> view_objects(ents)[i] == (
            ents[i].0,
            view_obj(ents[i].1),
        ),
    decreases ents,
{
    if ents.len() > 0 {
        lemma_view_objects(ents.drop_first());
    }
}

impl View for Document {
    type V = DocV;

    open spec fn view(&self) -> DocV {
        DocV {
            objects: view_objects(self.objects@),
            trailer: view_dict(self.trailer),
            version: self.version@,
            max_id: self.max_id,
        }
    }
}

/// The value mapped to `id`, looking entries up front to back.
pub open spec fn lookup(objs: Seq<(ObjectId, ObjV)>, id: ObjectId) -> Option<ObjV>
    decreases objs.len(),
{
    if objs.len() == 0 {
        None
    } else if objs[0].0 == id {
        Some(objs[0].1)
    } else {
        lookup(objs.drop_first(), id)
    }
}

/// Whether some entry carries the identifier `id`.
pub open spec fn has_key(objs: Seq<(ObjectId, ObjV)>, id: ObjectId) -> bool {
    exists|j: int| 0 <= j < objs.len() && objs[j].0 == id
}

/// The set of identifiers carried by the entries.
pub open spec fn key_set(objs: Seq<(ObjectId, ObjV)>) -> Set<ObjectId> {
    Set::new(|id: ObjectId| has_key(objs, id))
}

/// `lookup` misses exactly on the identifiers no entry carries.
pub proof fn lemma_lookup_none_iff(objs: Seq<(ObjectId, ObjV)>, id: ObjectId)
    ensures
        (lookup(objs, id) is None) <==> !has_key(objs, id),
    decreases objs.len(),
{
    if objs.len() > 0 {
        lemma_lookup_none_iff(objs.drop_first(), id);
        if objs[0].0 != id && has_key(objs, id) {
            let j = choose|j: int| 0 <= j < objs.len() && objs[j].0 == id;
            assert(objs.drop_first()[j - 1].0 == id);
        }
        if has_key(objs.drop_first(), id) {
            let j = choose|j: int|
                0 <= j < objs.drop_first().len() && objs.drop_first()[j].0 == id;
            assert(objs[j + 1].0 == id);
        }
    }
}

/// When the first `i` entries miss `id` and entry `i` carries it,
/// `lookup` returns entry `i`'s value.
pub proof fn lemma_lookup_found(objs: Seq<(ObjectId, ObjV)>, id: ObjectId, i: int)
    requires
        0 <= i < objs.len(),
        forall|j: int| 0 <= j < i ==> objs[j].0 != id,
        objs[i].0 == id,
    ensures
        lookup(objs, id) == Some(objs[i].1),
    decreases i,
{
    if i > 0 {
        lemma_lookup_found(objs.drop_first(), id, i - 1);
    }
}

/// Under unique identifiers, `lookup` returns the value of whichever
/// entry carries `id`.
pub proof fn lemma_lookup_unique(objs: Seq<(ObjectId, ObjV)>, i: int)
    requires
        unique_ids(objs),
        0 <= i < objs.len(),
    ensures
        lookup(objs, objs[i].0) == Some(objs[i].1),
{
    lemma_lookup_found(objs, objs[i].0, i);
}

/// Looking up in a concatenation reads the front part first.
pub proof fn lemma_lookup_append(s1: Seq<(ObjectId, ObjV)>, s2: Seq<(ObjectId, ObjV)>, id: ObjectId)
    ensures
        lookup(s1.add(s2), id) == if has_key(s1, id) {
            lookup(s1, id)
        } else {
            lookup(s2, id)
        },
    decreases s1.len(),
{
    lemma_lookup_none_iff(s1, id);
    if s1.len() == 0 {
        assert(s1.add(s2) =~= s2);
    } else {
        assert(s1.add(s2).drop_first() =~= s1.drop_first().add(s2));
        lemma_lookup_append(s1.drop_first(), s2, id);
        lemma_lookup_none_iff(s1.drop_first(), id);
        if s1[0].0 != id {
            if has_key(s1, id) {
                let j = choose|j: int| 0 <= j < s1.len() && s1[j].0 == id;
                assert(s1.drop_first()[j - 1].0 == id);
            }
            if has_key(s1.drop_first(), id) {
                let j = choose|j: int|
                    0 <= j < s1.drop_first().len() && s1.drop_first()[j].0 == id;
                assert(s1[j + 1].0 == id);
            }
        }
    }
}

/// Pairwise distinct identifiers.
pub open spec fn unique_ids(objs: Seq<(ObjectId, ObjV)>) -> bool {
    forall|i: int, j: int|
        0 <= i < j < objs.len() ==> (#[trigger] objs[i]).0 != (#[trigger] objs[j]).0
}

/// Every reference held inside `o` names an object number at most
/// `bound`.
pub open spec fn obj_refs_bounded(o: ObjV, bound: int) -> bool
    decreases o,
{
    match o {
        ObjV::Reference(id) => id.num <= bound,
        ObjV::Array(items) => objs_refs_bounded(items, bound),
        ObjV::Dictionary(d) => ents_refs_bounded(d.entries, bound),
        ObjV::Stream(d, _) => ents_refs_bounded(d.entries, bound),
        _ => true,
    }
}

pub open spec fn objs_refs_bounded(items: Seq<ObjV>, bound: int) -> bool
    decreases items,
{
    items.len() == 0 || (obj_refs_bounded(items[0], bound) && objs_refs_bounded(
        items.drop_first(),
        bound,
    ))
}

pub open spec fn ents_refs_bounded(ents: Seq<(Seq<u8>, ObjV)>, bound: int) -> bool
    decreases ents,
{
    ents.len() == 0 || (obj_refs_bounded(ents[0].1, bound) && ents_refs_bounded(
        ents.drop_first(),
        bound,
    ))
}

/// Element-wise reading of `objs_refs_bounded`.
pub broadcast proof fn lemma_objs_refs_bounded(items: Seq<ObjV>, bound: int)
    ensures
        #[trigger] objs_refs_bounded(items, bound) <==> forall|i: int|
            0 <= i < items.len() ==> obj_refs_bounded(#[trigger] items[i], bound),
    decreases items,
{
    if items.len() > 0 {
        lemma_objs_refs_bounded(items.drop_first(), bound);
        if obj_refs_bounded(items[0], bound) && objs_refs_bounded(items.drop_first(), bound) {
            assert forall|i: int| 0 <= i < items.len() implies obj_refs_bounded(
                #[trigger] items[i],
                bound,
            ) by {
                if i > 0 {
                    assert(obj_refs_bounded(items.drop_first()[i - 1], bound));
                }
            }
        }
        if forall|i: int| 0 <= i < items.len() ==> obj_refs_bounded(#[trigger] items[i], bound) {
            assert forall|i: int| 0 <= i < items.drop_first().len() implies obj_refs_bounded(
                #[trigger] items.drop_first()[i],
                bound,
            ) by {
                assert(items.drop_first()[i] == items[i + 1]);
            }
        }
    }
}

/// Element-wise reading of `ents_refs_bounded`.
pub broadcast proof fn lemma_ents_refs_bounded(ents: Seq<(Seq<u8>, ObjV)>, bound: int)
    ensures
        #[trigger] ents_refs_bounded(ents, bound) <==> forall|i: int|
            0 <= i < ents.len() ==> obj_refs_bounded((#[trigger] ents[i]).1, bound),
    decreases ents,
{
    if ents.len() > 0 {
        lemma_ents_refs_bounded(ents.drop_first(), bound);
        if obj_refs_bounded(ents[0].1, bound) && ents_refs_bounded(ents.drop_first(), bound) {
            assert forall|i: int| 0 <= i < ents.len() implies obj_refs_bounded(
                (#[trigger] ents[i]).1,
                bound,
            ) by {
                if i > 0 {
                    assert(obj_refs_bounded(ents.drop_first()[i - 1].1, bound));
                }
            }
        }
        if forall|i: int| 0 <= i < ents.len() ==> obj_refs_bounded((#[trigger] ents[i]).1, bound) {
            assert forall|i: int| 0 <= i < ents.drop_first().len() implies obj_refs_bounded(
                (#[trigger] ents.drop_first()[i]).1,
                bound,
            ) by {
                assert(ents.drop_first()[i] == ents[i + 1]);
            }
        }
    }
}

/// Every reference held inside `o` names a member of `ks`.
pub open spec fn obj_refs_in(o: ObjV, ks: Set<ObjectId>) -> bool
    decreases o,
{
    match o {
        ObjV::Reference(id) => ks.contains(id),
        ObjV::Array(items) => objs_refs_in(items, ks),
        ObjV::Dictionary(d) => ents_refs_in(d.entries, ks),
        ObjV::Stream(d, _) => ents_refs_in(d.entries, ks),
        _ => true,
    }
}

pub open spec fn objs_refs_in(items: Seq<ObjV>, ks: Set<ObjectId>) -> bool
    decreases items,
{
    items.len() == 0 || (obj_refs_in(items[0], ks) && objs_refs_in(items.drop_first(), ks))
}

pub open spec fn ents_refs_in(ents: Seq<(Seq<u8>, ObjV)>, ks: Set<ObjectId>) -> bool
    decreases ents,
{
    ents.len() == 0 || (obj_refs_in(ents[0].1, ks) && ents_refs_in(ents.drop_first(), ks))
}

/// Element-wise reading of `objs_refs_in`.
pub broadcast proof fn lemma_objs_refs_in(items: Seq<ObjV>, ks: Set<ObjectId>)
    ensures
        #[trigger] objs_refs_in(items, ks) <==> forall|i: int|
            0 <= i < items.len() ==> obj_refs_in(#[trigger] items[i], ks),
    decreases items,
{
    if items.len() > 0 {
        lemma_objs_refs_in(items.drop_first(), ks);
        if obj_refs_in(items[0], ks) && objs_refs_in(items.drop_first(), ks) {
            assert forall|i: int| 0 <= i < items.len() implies obj_refs_in(
                #[trigger] items[i],
                ks,
            ) by {
                if i > 0 {
                    assert(obj_refs_in(items.drop_first()[i - 1], ks));
                }
            }
        }
        if forall|i: int| 0 <= i < items.len() ==> obj_refs_in(#[trigger] items[i], ks) {
            assert forall|i: int| 0 <= i < items.drop_first().len() implies obj_refs_in(
                #[trigger] items.drop_first()[i],
                ks,
            ) by {
                assert(items.drop_first()[i] == items[i + 1]);
            }
        }
    }
}

/// Element-wise reading of `ents_refs_in`.
pub broadcast proof fn lemma_ents_refs_in(ents: Seq<(Seq<u8>, ObjV)>, ks: Set<ObjectId>)
    ensures
        #[trigger] ents_refs_in(ents, ks) <==> forall|i: int|
            0 <= i < ents.len() ==> obj_refs_in((#[trigger] ents[i]).1, ks),
    decreases ents,
{
    if ents.len() > 0 {
        lemma_ents_refs_in(ents.drop_first(), ks);
        if obj_refs_in(ents[0].1, ks) && ents_refs_in(ents.drop_first(), ks) {
            assert forall|i: int| 0 <= i < ents.len() implies obj_refs_in(
                (#[trigger] ents[i]).1,
                ks,
            ) by {
                if i > 0 {
                    assert(obj_refs_in(ents.drop_first()[i - 1].1, ks));
                }
            }
        }
        if forall|i: int| 0 <= i < ents.len() ==> obj_refs_in((#[trigger] ents[i]).1, ks) {
            assert forall|i: int| 0 <= i < ents.drop_first().len() implies obj_refs_in(
                (#[trigger] ents.drop_first()[i]).1,
                ks,
            ) by {
                assert(ents.drop_first()[i] == ents[i + 1]);
            }
        }
    }
}

/// References stay resolved when the identifier set grows.
pub proof fn lemma_obj_refs_in_mono(o: ObjV, ks1: Set<ObjectId>, ks2: Set<ObjectId>)
    requires
        obj_refs_in(o, ks1),
        ks1.subset_of(ks2),
    ensures
        obj_refs_in(o, ks2),
    decreases o,
{
    match o {
        ObjV::Array(items) => {
            lemma_objs_refs_in(items, ks1);
            lemma_objs_refs_in(items, ks2);
            assert forall|i: int| 0 <= i < items.len() implies obj_refs_in(
                #[trigger] items[i],
                ks2,
            ) by {
                lemma_obj_refs_in_mono(items[i], ks1, ks2);
            }
        },
        ObjV::Dictionary(d) => {
            lemma_ents_refs_in_mono(d.entries, ks1, ks2);
        },
        ObjV::Stream(d, _) => {
            lemma_ents_refs_in_mono(d.entries, ks1, ks2);
        },
        _ => {},
    }
}

pub proof fn lemma_ents_refs_in_mono(
    ents: Seq<(Seq<u8>, ObjV)>,
    ks1: Set<ObjectId>,
    ks2: Set<ObjectId>,
)
    requires
        ents_refs_in(ents, ks1),
        ks1.subset_of(ks2),
    ensures
        ents_refs_in(ents, ks2),
    decreases ents,
{
    lemma_ents_refs_in(ents, ks1);
    lemma_ents_refs_in(ents, ks2);
    assert forall|i: int| 0 <= i < ents.len() implies obj_refs_in((#[trigger] ents[i]).1, ks2) by {
        lemma_obj_refs_in_mono(ents[i].1, ks1, ks2);
    }
}

/// Well-formedness of a document value: identifiers are pairwise
/// distinct, and every identifier in use — as a mapping key, inside a
/// stored object, or in the trailer — stays at or below `max_id`.
pub open spec fn doc_wf(d: DocV) -> bool {
    &&& unique_ids(d.objects)
    &&& forall|i: int|
        0 <= i < d.objects.len() ==> (#[trigger] d.objects[i]).0.num <= d.max_id
            && obj_refs_bounded(d.objects[i].1, d.max_id as int)
    &&& ents_refs_bounded(d.trailer.entries, d.max_id as int)
}

/// Closedness: every reference in a stored object or in the trailer
/// resolves to an identifier present in the mapping.
pub open spec fn doc_closed(d: DocV) -> bool {
    &&& forall|i: int|
        0 <= i < d.objects.len() ==> obj_refs_in((#[trigger] d.objects[i]).1, key_set(d.objects))
    &&& ents_refs_in(d.trailer.entries, key_set(d.objects))
}

impl Document {
    /// Well-formedness of the document.
    pub open spec fn wf(&self) -> bool {
        doc_wf(self@)
    }
}

/// A hit of `lookup` comes from some entry.
pub proof fn lemma_lookup_some_index(objs: Seq<(ObjectId, ObjV)>, id: ObjectId) -> (i: int)
    requires
        lookup(objs, id) is Some,
    ensures
        0 <= i < objs.len(),
        objs[i].0 == id,
        lookup(objs, id) == Some(objs[i].1),
    decreases objs.len(),
{
    if objs[0].0 == id {
        0
    } else {
        let j = lemma_lookup_some_index(objs.drop_first(), id);
        j + 1
    }
}

/// Reference bounds relax to any larger bound.
pub proof fn lemma_obj_refs_bounded_mono(o: ObjV, b1: int, b2: int)
    requires
        obj_refs_bounded(o, b1),
        b1 <= b2,
    ensures
        obj_refs_bounded(o, b2),
    decreases o,
{
    match o {
        ObjV::Array(items) => {
            lemma_objs_refs_bounded(items, b1);
            lemma_objs_refs_bounded(items, b2);
            assert forall|i: int| 0 <= i < items.len() implies obj_refs_bounded(
                #[trigger] items[i],
                b2,
            ) by {
                lemma_obj_refs_bounded_mono(items[i], b1, b2);
            }
        },
        ObjV::Dictionary(d) => {
            lemma_ents_refs_bounded_mono(d.entries, b1, b2);
        },
        ObjV::Stream(d, _) => {
            lemma_ents_refs_bounded_mono(d.entries, b1, b2);
        },
        _ => {},
    }
}

pub proof fn lemma_ents_refs_bounded_mono(ents: Seq<(Seq<u8>, ObjV)>, b1: int, b2: int)
    requires
        ents_refs_bounded(ents, b1),
        b1 <= b2,
    ensures
        ents_refs_bounded(ents, b2),
    decreases ents,
{
    lemma_ents_refs_bounded(ents, b1);
    lemma_ents_refs_bounded(ents, b2);
    assert forall|i: int| 0 <= i < ents.len() implies obj_refs_bounded(
        (#[trigger] ents[i]).1,
        b2,
    ) by {
        lemma_obj_refs_bounded_mono(ents[i].1, b1, b2);
    }
}

/// Whether every reference inside `o` names an object number at most
/// `bound`.
#[verifier::loop_isolation(false)]
fn check_obj_refs(o: &PdfObject, bound: u32) -> (r: bool)
    ensures
        r == obj_refs_bounded(view_obj(*o), bound as int),
    decreases *o,
{
    match o {
        PdfObject::Reference(id) => id.num <= bound,
        PdfObject::Array(items) => {
            proof {
                lemma_view_objs(items@);
                lemma_objs_refs_bounded(view_objs(items@), bound as int);
            }
            let n = items.len();
            let mut i: usize = 0;
            while i < n
                invariant
                    0 <= i <= n,
                    n == items@.len(),
                    forall|j: int|
                        0 <= j < i ==> obj_refs_bounded(
                            view_obj(#[trigger] items@[j]),
                            bound as int,
                        ),
                decreases n - i,
            {
                proof {
                    assert(decreases_to!(*o => *items));
                    assert(decreases_to!(*items => items@));
                    assert(decreases_to!(items@ => items@[i as int]));
                    assert(decreases_to!(*o => items@[i as int]));
                }
                if !check_obj_refs(&items[i], bound) {
                    proof {
                        assert(view_objs(items@)[i as int] == view_obj(items@[i as int]));
                    }
                    return false;
                }
                i = i + 1;
            }
            proof {
                assert forall|j: int| 0 <= j < items@.len() implies obj_refs_bounded(
                    #[trigger] view_objs(items@)[j],
                    bound as int,
                ) by {
                    assert(view_objs(items@)[j] == view_obj(items@[j]));
                }
            }
            true
        },
        PdfObject::Dictionary(d) => check_dict_refs(d, bound),
        PdfObject::Stream(d, _) => check_dict_refs(d, bound),
        _ => true,
    }
}

/// Whether every reference inside `d`'s values names an object number
/// at most `bound`.
#[verifier::loop_isolation(false)]
fn check_dict_refs(d: &Dict, bound: u32) -> (r: bool)
    ensures
        r == ents_refs_bounded(view_dict(*d).entries, bound as int),
    decreases *d,
{
    proof {
        lemma_view_entries(d.entries@);
        lemma_ents_refs_bounded(view_dict(*d).entries, bound as int);
    }
    let n = d.entries.len();
    let mut i: usize = 0;
    while i < n
        invariant
            0 <= i <= n,
            n == d.entries@.len(),
            forall|j: int|
                0 <= j < i ==> obj_refs_bounded(
                    view_obj((#[trigger] d.entries@[j]).1),
                    bound as int,
                ),
        decreases n - i,
    {
        proof {
            assert(decreases_to!(*d => d.entries));
            assert(decreases_to!(d.entries => d.entries@));
            assert(decreases_to!(d.entries@ => d.entries@[i as int]));
            assert(decreases_to!(d.entries@[i as int] => d.entries@[i as int].1));
            assert(decreases_to!(*d => d.entries@[i as int].1));
        }
        if !check_obj_refs(&d.entries[i].1, bound) {
            proof {
                assert(view_dict(*d).entries[i as int].1 == view_obj(d.entries@[i as int].1));
            }
            return false;
        }
        i = i + 1;
    }
    proof {
        assert forall|j: int| 0 <= j < d.entries@.len() implies obj_refs_bounded(
            (#[trigger] view_dict(*d).entries[j]).1,
            bound as int,
        ) by {
            assert(view_dict(*d).entries[j].1 == view_obj(d.entries@[j].1));
        }
    }
    true
}

impl Document {
    /// Whether the document is well formed: identifiers pairwise
    /// distinct, and every identifier in use — mapping key, stored
    /// reference, or trailer reference — at or below `max_id`.
    #[verifier::loop_isolation(false)]
    pub fn is_well_formed(&self) -> (r: bool)
        ensures
            r == self.wf(),
    {
        proof {
            lemma_view_objects(self.objects@);
        }
        let n = self.objects.len();
        let mut i: usize = 0;
        while i < n
            invariant
                0 <= i <= n,
                n == self.objects@.len(),
                forall|a: int, b: int|
                    0 <= a < b < i ==> (#[trigger] self@.objects[a]).0 != (
                    #[trigger] self@.objects[b]).0,
                forall|a: int, b: int|
                    0 <= a < i <= b < n ==> (#[trigger] self@.objects[a]).0 != (
                    #[trigger] self@.objects[b]).0,
                forall|a: int|
                    0 <= a < i ==> (#[trigger] self@.objects[a]).0.num <= self.max_id
                        && obj_refs_bounded(self@.objects[a].1, self.max_id as int),
            decreases n - i,
        {
            if self.objects[i].0.num > self.max_id {
                proof {
                    assert(self@.objects[i as int].0.num > self.max_id);
                }
                return false;
            }
            if !check_obj_refs(&self.objects[i].1, self.max_id) {
                proof {
                    assert(self@.objects[i as int].1 == view_obj(self.objects@[i as int].1));
                    assert(!obj_refs_bounded(self@.objects[i as int].1, self.max_id as int));
                }
                return false;
            }
            let mut j: usize = i + 1;
            while j < n
                invariant
                    i < j <= n,
                    forall|b: int|
                        i < b < j ==> (#[trigger] self@.objects[b]).0 != self@.objects[
                            i as int
                        ].0,
                decreases n - j,
            {
                if self.objects[j].0 == self.objects[i].0 {
                    proof {
                        assert(self@.objects[j as int].0 == self@.objects[i as int].0);
                        assert(!unique_ids(self@.objects));
                    }
                    return false;
                }
                j = j + 1;
            }
            i = i + 1;
        }
        if !check_dict_refs(&self.trailer, self.max_id) {
            return false;
        }
        proof {
            assert(unique_ids(self@.objects));
        }
        true
    }
}

} // verus!
