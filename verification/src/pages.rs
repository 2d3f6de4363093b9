use vstd::prelude::*;

use crate::document::{lookup, view_objects, DocV, Document};
use crate::object::{bytes_eq, dict_get, lemma_view_objs, view_objs, DictV, ObjV, ObjectId, PdfObject};

verus! {

// The dictionary keys and type names the page tree is built from, as
// their ASCII bytes.

/// "Root"
pub open spec fn nm_root() -> Seq<u8> {
    seq![0x52u8, 0x6fu8, 0x6fu8, 0x74u8]
}

/// "Pages" — both the catalog key and the interior-node type name.
pub open spec fn nm_pages() -> Seq<u8> {
    seq![0x50u8, 0x61u8, 0x67u8, 0x65u8, 0x73u8]
}

/// "Kids"
pub open spec fn nm_kids() -> Seq<u8> {
    seq![0x4bu8, 0x69u8, 0x64u8, 0x73u8]
}

/// "Count"
pub open spec fn nm_count() -> Seq<u8> {
    seq![0x43u8, 0x6fu8, 0x75u8, 0x6eu8, 0x74u8]
}

/// "Type"
pub open spec fn nm_type() -> Seq<u8> {
    seq![0x54u8, 0x79u8, 0x70u8, 0x65u8]
}

/// "Page"
pub open spec fn nm_page() -> Seq<u8> {
    seq![0x50u8, 0x61u8, 0x67u8, 0x65u8]
}

/// "Catalog"
pub open spec fn nm_catalog() -> Seq<u8> {
    seq![0x43u8, 0x61u8, 0x74u8, 0x61u8, 0x6cu8, 0x6fu8, 0x67u8]
}

pub fn key_root() -> (r: [u8; 4])
    ensures
        r@ == nm_root(),
{
    let k: [u8; 4] = [0x52u8, 0x6fu8, 0x6fu8, 0x74u8];
    proof {
        assert(k@ =~= nm_root());
    }
    k
}

pub fn key_pages() -> (r: [u8; 5])
    ensures
        r@ == nm_pages(),
{
    let k: [u8; 5] = [0x50u8, 0x61u8, 0x67u8, 0x65u8, 0x73u8];
    proof {
        assert(k@ =~= nm_pages());
    }
    k
}

pub fn key_kids() -> (r: [u8; 4])
    ensures
        r@ == nm_kids(),
{
    let k: [u8; 4] = [0x4bu8, 0x69u8, 0x64u8, 0x73u8];
    proof {
        assert(k@ =~= nm_kids());
    }
    k
}

pub fn key_count() -> (r: [u8; 5])
    ensures
        r@ == nm_count(),
{
    let k: [u8; 5] = [0x43u8, 0x6fu8, 0x75u8, 0x6eu8, 0x74u8];
    proof {
        assert(k@ =~= nm_count());
    }
    k
}

pub fn key_type() -> (r: [u8; 4])
    ensures
        r@ == nm_type(),
{
    let k: [u8; 4] = [0x54u8, 0x79u8, 0x70u8, 0x65u8];
    proof {
        assert(k@ =~= nm_type());
    }
    k
}

pub fn key_page() -> (r: [u8; 4])
    ensures
        r@ == nm_page(),
{
    let k: [u8; 4] = [0x50u8, 0x61u8, 0x67u8, 0x65u8];
    proof {
        assert(k@ =~= nm_page());
    }
    k
}

pub fn key_catalog() -> (r: [u8; 7])
    ensures
        r@ == nm_catalog(),
{
    let k: [u8; 7] = [0x43u8, 0x61u8, 0x74u8, 0x61u8, 0x6cu8, 0x6fu8, 0x67u8];
    proof {
        assert(k@ =~= nm_catalog());
    }
    k
}

/// The `Type` entry of a dictionary, when it holds a name.
pub open spec fn dict_type(d: DictV) -> Option<Seq<u8>> {
    match dict_get(d, nm_type()) {
        Some(ObjV::Name(n)) => Some(n),
        _ => None,
    }
}

/// Resolve `id` through at most one reference indirection: the result
/// is the identifier of the object reached together with its value,
/// which is never itself a reference.  A chain of two or more
/// indirections is treated as unresolvable.
pub open spec fn deref1(objs: Seq<(ObjectId, ObjV)>, id: ObjectId) -> Option<(ObjectId, ObjV)> {
    match lookup(objs, id) {
        Some(ObjV::Reference(r)) => match lookup(objs, r) {
            Some(ObjV::Reference(_)) => None,
            Some(o) => Some((r, o)),
            None => None,
        },
        Some(o) => Some((id, o)),
        None => None,
    }
}

/// The pages contributed by one entry of a `Kids` array.  A kid that
/// resolves to a dictionary of type `Page` contributes itself: the
/// pair of the identifier the kid references and the identifier of
/// the page dictionary reached.  A kid of type `Pages` is an interior
/// node and contributes its own kids' pages, down to `fuel` further
/// levels.  Anything else contributes nothing.
pub open spec fn kid_pages(objs: Seq<(ObjectId, ObjV)>, kid: ObjV, fuel: nat) -> Seq<
    (ObjectId, ObjectId),
>
    decreases fuel, 0nat,
{
    match kid {
        ObjV::Reference(kref) => match deref1(objs, kref) {
            Some((t, ObjV::Dictionary(node))) => {
                if dict_type(node) == Some(nm_page()) {
                    seq![(kref, t)]
                } else if dict_type(node) == Some(nm_pages()) {
                    if fuel == 0 {
                        Seq::empty()
                    } else {
                        match dict_get(node, nm_kids()) {
                            Some(ObjV::Array(inner)) => kids_pages(objs, inner, (fuel - 1) as nat),
                            _ => Seq::empty(),
                        }
                    }
                } else {
                    Seq::empty()
                }
            },
            _ => Seq::empty(),
        },
        _ => Seq::empty(),
    }
}

/// The pages contributed by a `Kids` array, in order.
pub open spec fn kids_pages(objs: Seq<(ObjectId, ObjV)>, kids: Seq<ObjV>, fuel: nat) -> Seq<
    (ObjectId, ObjectId),
>
    decreases fuel, kids.len(),
{
    if kids.len() == 0 {
        Seq::empty()
    } else {
        kid_pages(objs, kids[0], fuel).add(kids_pages(objs, kids.drop_first(), fuel))
    }
}

/// The identifier of the document's page-tree root dictionary, when
/// the trailer's `Root` reference resolves to a catalog dictionary
/// whose `Pages` reference resolves to a dictionary.
pub open spec fn spec_locate_pages(d: DocV) -> Option<ObjectId> {
    match dict_get(d.trailer, nm_root()) {
        Some(ObjV::Reference(rid)) => match deref1(d.objects, rid) {
            Some((_, ObjV::Dictionary(cat))) => match dict_get(cat, nm_pages()) {
                Some(ObjV::Reference(pid)) => match deref1(d.objects, pid) {
                    Some((pgid, ObjV::Dictionary(_))) => Some(pgid),
                    _ => None,
                },
                _ => None,
            },
            _ => None,
        },
        _ => None,
    }
}

/// The document's page list: the pages reachable from the page-tree
/// root, in tree order, each as the pair of the identifier its kid
/// entry references and the identifier of the page dictionary itself.
pub open spec fn spec_page_list(d: DocV) -> Seq<(ObjectId, ObjectId)> {
    match spec_locate_pages(d) {
        Some(pgid) => match lookup(d.objects, pgid) {
            Some(ObjV::Dictionary(pg)) => match dict_get(pg, nm_kids()) {
                Some(ObjV::Array(kids)) => kids_pages(d.objects, kids, d.objects.len() as nat),
                _ => Seq::empty(),
            },
            _ => Seq::empty(),
        },
        None => Seq::empty(),
    }
}

/// Taking one more kid appends that kid's pages.
pub proof fn lemma_kids_pages_snoc(objs: Seq<(ObjectId, ObjV)>, kids: Seq<ObjV>, fuel: nat, i: int)
    requires
        0 <= i < kids.len(),
    ensures
        kids_pages(objs, kids.take(i + 1), fuel) == kids_pages(objs, kids.take(i), fuel).add(
            kid_pages(objs, kids[i], fuel),
        ),
    decreases i,
{
    if i == 0 {
        assert(kids.take(0) =~= Seq::<ObjV>::empty());
        assert(kids.take(1).drop_first() =~= Seq::<ObjV>::empty());
        assert(kids.take(1)[0] == kids[0]);
        assert(kids_pages(objs, kids.take(1), fuel) =~= kids_pages(objs, kids.take(0), fuel).add(
            kid_pages(objs, kids[0], fuel),
        ));
    } else {
        lemma_kids_pages_snoc(objs, kids.drop_first(), fuel, i - 1);
        assert(kids.take(i + 1).drop_first() =~= kids.drop_first().take(i));
        assert(kids.take(i).drop_first() =~= kids.drop_first().take(i - 1));
        assert(kids.take(i + 1)[0] == kids[0]);
        assert(kids.take(i)[0] == kids[0]);
        assert(kids.drop_first()[i - 1] == kids[i]);
        assert(kids_pages(objs, kids.take(i + 1), fuel) =~= kids_pages(objs, kids.take(i), fuel)
            .add(kid_pages(objs, kids[i], fuel)));
    }
}

/// The object mapped to `id`, by a front-to-back scan.
pub fn lookup_object<'a>(objects: &'a Vec<(ObjectId, PdfObject)>, id: ObjectId) -> (r: Option<
    &'a PdfObject,
>)
    ensures
        match r {
            Some(o) => lookup(view_objects(objects@), id) == Some(o@),
            None => lookup(view_objects(objects@), id) is None,
        },
{
    proof {
        crate::document::lemma_view_objects(objects@);
    }
    let n = objects.len();
    let mut i: usize = 0;
    while i < n
        invariant
            n == objects@.len(),
            0 <= i <= n,
            view_objects(objects@).len() == objects@.len(),
            forall|j: int|
                0 <= j < objects@.len() ==> view_objects(objects@)[j] == (
                    objects@[j].0,
                    crate::object::view_obj(objects@[j].1),
                ),
            forall|j: int| 0 <= j < i ==> view_objects(objects@)[j].0 != id,
        decreases n - i,
    {
        if objects[i].0 == id {
            proof {
                crate::document::lemma_lookup_found(view_objects(objects@), id, i as int);
            }
            return Some(&objects[i].1);
        }
        i = i + 1;
    }
    proof {
        crate::document::lemma_lookup_none_iff(view_objects(objects@), id);
    }
    None
}

/// Resolve `id` through at most one reference indirection.
pub fn deref_once<'a>(objects: &'a Vec<(ObjectId, PdfObject)>, id: ObjectId) -> (r: Option<
    (ObjectId, &'a PdfObject),
>)
    ensures
        match r {
            Some(p) => deref1(view_objects(objects@), id) == Some((p.0, p.1@)),
            None => deref1(view_objects(objects@), id) is None,
        },
{
    match lookup_object(objects, id) {
        Some(o) => match o {
            PdfObject::Reference(rid) => match lookup_object(objects, *rid) {
                Some(o2) => match o2 {
                    PdfObject::Reference(_) => None,
                    _ => Some((*rid, o2)),
                },
                None => None,
            },
            _ => Some((id, o)),
        },
        None => None,
    }
}

/// The identifier of the page-tree root dictionary, if the trailer
/// leads to one.
pub fn locate_pages(doc: &Document) -> (r: Option<ObjectId>)
    ensures
        r == spec_locate_pages(doc@),
{
    let rk = key_root();
    match doc.trailer.get(rk.as_slice()) {
        Some(PdfObject::Reference(rid)) => match deref_once(&doc.objects, *rid) {
            Some((_, PdfObject::Dictionary(cat))) => {
                let pk = key_pages();
                match cat.get(pk.as_slice()) {
                    Some(PdfObject::Reference(pid)) => match deref_once(&doc.objects, *pid) {
                        Some((pgid, PdfObject::Dictionary(_))) => Some(pgid),
                        _ => None,
                    },
                    _ => None,
                }
            },
            _ => None,
        },
        _ => None,
    }
}

fn walk_kid(
    objects: &Vec<(ObjectId, PdfObject)>,
    kid: &PdfObject,
    fuel: usize,
    acc: &mut Vec<(ObjectId, ObjectId)>,
)
    ensures
        final(acc)@ == old(acc)@ + kid_pages(view_objects(objects@), kid@, fuel as nat),
    decreases fuel, 0nat,
{
    match kid {
        PdfObject::Reference(kref) => match deref_once(objects, *kref) {
            Some((t, node)) => match node {
                PdfObject::Dictionary(nd) => {
                    let tk = key_type();
                    match nd.get(tk.as_slice()) {
                        Some(PdfObject::Name(tn)) => {
                            let pg = key_page();
                            let pgs = key_pages();
                            if bytes_eq(tn, pg.as_slice()) {
                                acc.push((*kref, t));
                                assert(acc@ =~= old(acc)@ + kid_pages(
                                    view_objects(objects@),
                                    kid@,
                                    fuel as nat,
                                ));
                            } else if bytes_eq(tn, pgs.as_slice()) {
                                if fuel > 0 {
                                    let kk = key_kids();
                                    match nd.get(kk.as_slice()) {
                                        Some(PdfObject::Array(inner)) => {
                                            walk_kids(objects, inner, fuel - 1, acc);
                                        },
                                        _ => {
                                            assert(acc@ =~= old(acc)@ + kid_pages(
                                                view_objects(objects@),
                                                kid@,
                                                fuel as nat,
                                            ));
                                        },
                                    }
                                } else {
                                    assert(acc@ =~= old(acc)@ + kid_pages(
                                        view_objects(objects@),
                                        kid@,
                                        fuel as nat,
                                    ));
                                }
                            } else {
                                assert(acc@ =~= old(acc)@ + kid_pages(
                                    view_objects(objects@),
                                    kid@,
                                    fuel as nat,
                                ));
                            }
                        },
                        _ => {
                            assert(acc@ =~= old(acc)@ + kid_pages(
                                view_objects(objects@),
                                kid@,
                                fuel as nat,
                            ));
                        },
                    }
                },
                _ => {
                    assert(acc@ =~= old(acc)@ + kid_pages(
                        view_objects(objects@),
                        kid@,
                        fuel as nat,
                    ));
                },
            },
            None => {
                assert(acc@ =~= old(acc)@ + kid_pages(view_objects(objects@), kid@, fuel as nat));
            },
        },
        _ => {
            assert(acc@ =~= old(acc)@ + kid_pages(view_objects(objects@), kid@, fuel as nat));
        },
    }
}

fn walk_kids(
    objects: &Vec<(ObjectId, PdfObject)>,
    kids: &Vec<PdfObject>,
    fuel: usize,
    acc: &mut Vec<(ObjectId, ObjectId)>,
)
    ensures
        final(acc)@ == old(acc)@ + kids_pages(view_objects(objects@), view_objs(kids@), fuel as nat),
    decreases fuel, kids@.len(),
{
    proof {
        lemma_view_objs(kids@);
    }
    let n = kids.len();
    let mut i: usize = 0;
    assert(view_objs(kids@).take(0) =~= Seq::<ObjV>::empty());
    while i < n
        invariant
            n == kids@.len(),
            0 <= i <= n,
            view_objs(kids@).len() == kids@.len(),
            forall|j: int|
                0 <= j < kids@.len() ==> view_objs(kids@)[j] == crate::object::view_obj(kids@[j]),
            acc@ == old(acc)@ + kids_pages(
                view_objects(objects@),
                view_objs(kids@).take(i as int),
                fuel as nat,
            ),
        decreases n - i,
    {
        walk_kid(objects, &kids[i], fuel, acc);
        proof {
            lemma_kids_pages_snoc(view_objects(objects@), view_objs(kids@), fuel as nat, i as int);
        }
        i = i + 1;
    }
    proof {
        assert(view_objs(kids@).take(n as int) =~= view_objs(kids@));
    }
}

impl Document {
    /// The document's page list, in page-tree order: for each page,
    /// the identifier its kid entry references paired with the
    /// identifier of the page dictionary reached through it.
    pub fn page_list(&self) -> (r: Vec<(ObjectId, ObjectId)>)
        ensures
            r@ == spec_page_list(self@),
    {
        proof {
            crate::document::lemma_view_objects(self.objects@);
        }
        let mut acc: Vec<(ObjectId, ObjectId)> = Vec::new();
        match locate_pages(self) {
            Some(pgid) => match lookup_object(&self.objects, pgid) {
                Some(PdfObject::Dictionary(pg)) => {
                    let kk = key_kids();
                    match pg.get(kk.as_slice()) {
                        Some(PdfObject::Array(kids)) => {
                            let fuel = self.objects.len();
                            walk_kids(&self.objects, kids, fuel, &mut acc);
                            assert(acc@ =~= spec_page_list(self@));
                            acc
                        },
                        _ => {
                            assert(acc@ =~= spec_page_list(self@));
                            acc
                        },
                    }
                },
                _ => {
                    assert(acc@ =~= spec_page_list(self@));
                    acc
                },
            },
            None => {
                assert(acc@ =~= spec_page_list(self@));
                acc
            },
        }
    }
}

/// `k` resolves (through at most one indirection) to the dictionary
/// of a page, whose identifier is `t`.
pub open spec fn is_leaf_pair(objs: Seq<(ObjectId, ObjV)>, k: ObjectId, t: ObjectId) -> bool {
    match deref1(objs, k) {
        Some((t2, ObjV::Dictionary(node))) => t2 == t && dict_type(node) == Some(nm_page()),
        _ => false,
    }
}

/// Every pair a kid contributes is a resolved page.
pub proof fn lemma_kid_pages_leaf(objs: Seq<(ObjectId, ObjV)>, kid: ObjV, fuel: nat)
    ensures
        forall|i: int|
            0 <= i < kid_pages(objs, kid, fuel).len() ==> is_leaf_pair(
                objs,
                (#[trigger] kid_pages(objs, kid, fuel)[i]).0,
                kid_pages(objs, kid, fuel)[i].1,
            ),
    decreases fuel, 0nat,
{
    match kid {
        ObjV::Reference(kref) => match deref1(objs, kref) {
            Some((t, ObjV::Dictionary(node))) => {
                if dict_type(node) == Some(nm_page()) {
                    assert(kid_pages(objs, kid, fuel) =~= seq![(kref, t)]);
                    assert(is_leaf_pair(objs, kref, t));
                } else if dict_type(node) == Some(nm_pages()) && fuel > 0 {
                    match dict_get(node, nm_kids()) {
                        Some(ObjV::Array(inner)) => {
                            lemma_kids_pages_leaf(objs, inner, (fuel - 1) as nat);
                            assert(kid_pages(objs, kid, fuel) == kids_pages(
                                objs,
                                inner,
                                (fuel - 1) as nat,
                            ));
                        },
                        _ => {
                            assert(kid_pages(objs, kid, fuel) =~= Seq::<(
                                ObjectId,
                                ObjectId,
                            )>::empty());
                        },
                    }
                } else {
                    assert(kid_pages(objs, kid, fuel) =~= Seq::<(ObjectId, ObjectId)>::empty());
                }
            },
            _ => {
                assert(kid_pages(objs, kid, fuel) =~= Seq::<(ObjectId, ObjectId)>::empty());
            },
        },
        _ => {
            assert(kid_pages(objs, kid, fuel) =~= Seq::<(ObjectId, ObjectId)>::empty());
        },
    }
}

/// Every pair a kids array contributes is a resolved page.
pub proof fn lemma_kids_pages_leaf(objs: Seq<(ObjectId, ObjV)>, kids: Seq<ObjV>, fuel: nat)
    ensures
        forall|i: int|
            0 <= i < kids_pages(objs, kids, fuel).len() ==> is_leaf_pair(
                objs,
                (#[trigger] kids_pages(objs, kids, fuel)[i]).0,
                kids_pages(objs, kids, fuel)[i].1,
            ),
    decreases fuel, kids.len(),
{
    if kids.len() > 0 {
        lemma_kid_pages_leaf(objs, kids[0], fuel);
        lemma_kids_pages_leaf(objs, kids.drop_first(), fuel);
        let head = kid_pages(objs, kids[0], fuel);
        let tail = kids_pages(objs, kids.drop_first(), fuel);
        assert forall|i: int|
            0 <= i < kids_pages(objs, kids, fuel).len() implies is_leaf_pair(
            objs,
            (#[trigger] kids_pages(objs, kids, fuel)[i]).0,
            kids_pages(objs, kids, fuel)[i].1,
        ) by {
            if i < head.len() {
                assert(kids_pages(objs, kids, fuel)[i] == head[i]);
            } else {
                assert(kids_pages(objs, kids, fuel)[i] == tail[i - head.len()]);
            }
        }
    }
}

/// Every pair of the page list is a resolved page: its kid identifier
/// and its page identifier both name mapping entries.
pub proof fn lemma_page_list_leaf(d: DocV)
    ensures
        forall|i: int|
            0 <= i < spec_page_list(d).len() ==> is_leaf_pair(
                d.objects,
                (#[trigger] spec_page_list(d)[i]).0,
                spec_page_list(d)[i].1,
            ),
{
    match spec_locate_pages(d) {
        Some(pgid) => match lookup(d.objects, pgid) {
            Some(ObjV::Dictionary(pg)) => match dict_get(pg, nm_kids()) {
                Some(ObjV::Array(kids)) => {
                    lemma_kids_pages_leaf(d.objects, kids, d.objects.len() as nat);
                },
                _ => {},
            },
            _ => {},
        },
        None => {},
    }
}

/// A resolved page's identifiers both name entries of the mapping.
pub proof fn lemma_leaf_pair_keys(objs: Seq<(ObjectId, ObjV)>, k: ObjectId, t: ObjectId)
    requires
        is_leaf_pair(objs, k, t),
    ensures
        crate::document::has_key(objs, k),
        crate::document::has_key(objs, t),
        lookup(objs, t) matches Some(v) && v is Dictionary,
{
    crate::document::lemma_lookup_none_iff(objs, k);
    crate::document::lemma_lookup_none_iff(objs, t);
}

} // verus!
