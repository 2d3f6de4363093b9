use vstd::prelude::*;

use crate::document::{
    doc_closed, doc_wf, ents_refs_bounded, ents_refs_in, has_key, key_set,
    lemma_ents_refs_bounded, lemma_ents_refs_bounded_mono, lemma_ents_refs_in,
    lemma_ents_refs_in_mono, lemma_lookup_found, lemma_lookup_none_iff, lemma_lookup_some_index,
    lemma_obj_refs_bounded_mono, lemma_obj_refs_in_mono,
    lemma_objs_refs_bounded, lemma_objs_refs_in, lookup, obj_refs_bounded, obj_refs_in,
    unique_ids, DocV,
};
use crate::merge::{
    lemma_shift_ents, lemma_shift_objs, prev_kid_refs, proxy_entries, proxy_id, proxy_kid_refs,
    rebuilt_pages_dict, replace_value, shift_ents, shift_id, shift_obj, shift_objs,
    shifted_entries, spec_merge, spec_new_doc, MergeStatus,
};
use crate::object::{dict_get, dict_set, DictV, ObjV, ObjectId};
use crate::pages::{
    deref1, dict_type, is_leaf_pair, lemma_leaf_pair_keys, lemma_page_list_leaf, nm_count,
    nm_kids, nm_page, nm_pages, nm_root, nm_type, spec_locate_pages, spec_page_list,
};

verus! {

/// `dict_set` answers `dict_get` with the new value under the set key
/// and with the old value under every other key.
pub proof fn lemma_dict_set_get(d: DictV, key: Seq<u8>, val: ObjV, q: Seq<u8>)
    ensures
        dict_get(dict_set(d, key, val), q) == if q == key {
            Some(val)
        } else {
            dict_get(d, q)
        },
    decreases d.entries.len(),
{
    let r = dict_set(d, key, val);
    if d.entries.len() == 0 {
        assert(r.entries[0] == (key, val));
        if q != key {
            assert(r.entries.drop_first() =~= Seq::<(Seq<u8>, ObjV)>::empty());
            assert(dict_get(DictV { entries: r.entries.drop_first() }, q) is None);
        }
    } else if d.entries[0].0 == key {
        assert(r.entries[0] == (key, val));
        if q != key {
            assert(r.entries.drop_first() =~= d.entries.drop_first());
            assert(dict_get(r, q) == dict_get(DictV { entries: d.entries.drop_first() }, q));
            assert(dict_get(d, q) == dict_get(DictV { entries: d.entries.drop_first() }, q));
        }
    } else {
        let tail = DictV { entries: d.entries.drop_first() };
        lemma_dict_set_get(tail, key, val, q);
        assert(r.entries[0] == d.entries[0]);
        assert(r.entries.drop_first() =~= dict_set(tail, key, val).entries);
        if d.entries[0].0 == q {
            assert(dict_get(r, q) == Some(r.entries[0].1));
        } else {
            assert(dict_get(r, q) == dict_get(dict_set(tail, key, val), q));
            assert(dict_get(d, q) == dict_get(tail, q));
        }
    }
}

/// Setting one bounded value in a dictionary of bounded values keeps
/// every value bounded.
pub proof fn lemma_dict_set_refs_bounded(d: DictV, key: Seq<u8>, val: ObjV, b: int)
    requires
        ents_refs_bounded(d.entries, b),
        obj_refs_bounded(val, b),
    ensures
        ents_refs_bounded(dict_set(d, key, val).entries, b),
    decreases d.entries.len(),
{
    let r = dict_set(d, key, val);
    lemma_ents_refs_bounded(d.entries, b);
    lemma_ents_refs_bounded(r.entries, b);
    if d.entries.len() == 0 {
    } else if d.entries[0].0 == key {
        assert forall|i: int| 0 <= i < r.entries.len() implies obj_refs_bounded(
            (#[trigger] r.entries[i]).1,
            b,
        ) by {
            if i > 0 {
                assert(r.entries[i] == d.entries[i]);
            }
        }
    } else {
        let tail = DictV { entries: d.entries.drop_first() };
        lemma_ents_refs_bounded(tail.entries, b);
        assert forall|i: int| 0 <= i < tail.entries.len() implies obj_refs_bounded(
            (#[trigger] tail.entries[i]).1,
            b,
        ) by {
            assert(tail.entries[i] == d.entries[i + 1]);
        }
        lemma_dict_set_refs_bounded(tail, key, val, b);
        lemma_ents_refs_bounded(dict_set(tail, key, val).entries, b);
        assert forall|i: int| 0 <= i < r.entries.len() implies obj_refs_bounded(
            (#[trigger] r.entries[i]).1,
            b,
        ) by {
            if i > 0 {
                assert(r.entries[i] == dict_set(tail, key, val).entries[i - 1]);
            }
        }
    }
}

/// Relabelling by `base` keeps references bounded, at a bound moved
/// up by `base`.
pub proof fn lemma_shift_obj_refs_bounded(o: ObjV, b: int, base: int)
    requires
        obj_refs_bounded(o, b),
        0 <= base,
        0 <= b,
        b + base <= u32::MAX,
    ensures
        obj_refs_bounded(shift_obj(o, base), b + base),
    decreases o,
{
    match o {
        ObjV::Array(items) => {
            lemma_objs_refs_bounded(items, b);
            lemma_shift_objs(items, base);
            lemma_objs_refs_bounded(shift_objs(items, base), b + base);
            assert forall|i: int| 0 <= i < items.len() implies obj_refs_bounded(
                #[trigger] shift_objs(items, base)[i],
                b + base,
            ) by {
                lemma_shift_obj_refs_bounded(items[i], b, base);
            }
        },
        ObjV::Dictionary(d) => {
            lemma_shift_ents_refs_bounded(d.entries, b, base);
        },
        ObjV::Stream(d, _) => {
            lemma_shift_ents_refs_bounded(d.entries, b, base);
        },
        _ => {},
    }
}

pub proof fn lemma_shift_ents_refs_bounded(ents: Seq<(Seq<u8>, ObjV)>, b: int, base: int)
    requires
        ents_refs_bounded(ents, b),
        0 <= base,
        0 <= b,
        b + base <= u32::MAX,
    ensures
        ents_refs_bounded(shift_ents(ents, base), b + base),
    decreases ents,
{
    lemma_ents_refs_bounded(ents, b);
    lemma_shift_ents(ents, base);
    lemma_ents_refs_bounded(shift_ents(ents, base), b + base);
    assert forall|i: int| 0 <= i < ents.len() implies obj_refs_bounded(
        (#[trigger] shift_ents(ents, base)[i]).1,
        b + base,
    ) by {
        lemma_shift_obj_refs_bounded(ents[i].1, b, base);
    }
}

/// Identifier uniqueness: merging never makes two mapping entries
/// share an identifier, and the merged document is well formed as a
/// whole — every identifier in use stays at or below the new
/// `max_id`.
pub proof fn lemma_merge_well_formed(out: DocV, inc: DocV)
    requires
        doc_wf(out),
        doc_wf(inc),
    ensures
        doc_wf(spec_merge(out, inc).0),
        unique_ids(spec_merge(out, inc).0.objects),
{
    let base = out.max_id + 1;
    let pairs = spec_page_list(inc);
    let prev = spec_page_list(out);
    let m1 = out.max_id + 1 + inc.max_id;
    if m1 + pairs.len() > u32::MAX || prev.len() + pairs.len() > u32::MAX {
    } else {
        let merged = spec_merge(out, inc).0;
        let new_max = m1 + pairs.len();
        let shifted = shifted_entries(inc.objects, base as int);
        let proxies = proxy_entries(pairs, base as int, m1 + 1);
        crate::merge::lemma_page_list_keys(out);
        crate::merge::lemma_page_list_keys(inc);

        // the front part: the old entries, with at most the pages
        // dictionary's value replaced
        assert(merged.objects.len() == out.objects.len() + shifted.len() + proxies.len());
        assert forall|i: int| 0 <= i < out.objects.len() implies (
        #[trigger] merged.objects[i]).0 == out.objects[i].0 && obj_refs_bounded(
            merged.objects[i].1,
            new_max,
        ) by {
            match spec_locate_pages(out) {
                Some(pgid) => match lookup(out.objects, pgid) {
                    Some(ObjV::Dictionary(pg)) => {
                        assert(merged.objects[i] == replace_value(
                            out.objects,
                            pgid,
                            ObjV::Dictionary(
                                rebuilt_pages_dict(
                                    pg,
                                    (prev.len() + pairs.len()) as int,
                                    prev_kid_refs(prev).add(
                                        proxy_kid_refs(pairs.len(), m1 + 1),
                                    ),
                                ),
                            ),
                        )[i]);
                        if out.objects[i].0 == pgid {
                            let kids = prev_kid_refs(prev).add(proxy_kid_refs(pairs.len(), m1 + 1));
                            let j = lemma_lookup_some_index(out.objects, pgid);
                            assert(unique_ids(out.objects));
                            assert(out.objects[j].1 == ObjV::Dictionary(pg));
                            assert(obj_refs_bounded(out.objects[j].1, out.max_id as int));
                            lemma_ents_refs_bounded_mono(pg.entries, out.max_id as int, new_max);
                            lemma_objs_refs_bounded(kids, new_max);
                            assert forall|q: int| 0 <= q < kids.len() implies obj_refs_bounded(
                                #[trigger] kids[q],
                                new_max,
                            ) by {
                                if q < prev.len() {
                                    assert(kids[q] == ObjV::Reference(prev[q].0));
                                } else {
                                    assert(kids[q] == ObjV::Reference(
                                        proxy_id(m1 + 1, q - prev.len()),
                                    ));
                                }
                            }
                            lemma_dict_set_refs_bounded(
                                pg,
                                nm_count(),
                                ObjV::Integer(((prev.len() + pairs.len()) as int) as i64),
                                new_max,
                            );
                            lemma_dict_set_refs_bounded(
                                dict_set(
                                    pg,
                                    nm_count(),
                                    ObjV::Integer(((prev.len() + pairs.len()) as int) as i64),
                                ),
                                nm_kids(),
                                ObjV::Array(kids),
                                new_max,
                            );
                        } else {
                            lemma_obj_refs_bounded_mono(
                                out.objects[i].1,
                                out.max_id as int,
                                new_max,
                            );
                        }
                    },
                    _ => {
                        lemma_obj_refs_bounded_mono(out.objects[i].1, out.max_id as int, new_max);
                    },
                },
                None => {
                    lemma_obj_refs_bounded_mono(out.objects[i].1, out.max_id as int, new_max);
                },
            }
        }

        // the middle part: the relabelled incoming entries
        assert forall|i: int| 0 <= i < shifted.len() implies (#[trigger] merged.objects[out
            .objects.len() + i]) == shifted[i] by {
            assert(merged.objects[out.objects.len() + i] == merged.objects.add(Seq::empty())[out
                .objects.len() + i]);
        }
        assert forall|i: int| 0 <= i < shifted.len() implies base <= (
        #[trigger] shifted[i]).0.num <= m1 && obj_refs_bounded(shifted[i].1, new_max) by {
            assert(shifted[i].0 == shift_id(inc.objects[i].0, base as int));
            assert(inc.objects[i].0.num <= inc.max_id);
            lemma_shift_obj_refs_bounded(inc.objects[i].1, inc.max_id as int, base as int);
            lemma_obj_refs_bounded_mono(
                shift_obj(inc.objects[i].1, base as int),
                inc.max_id + base,
                new_max,
            );
        }

        // the back part: the proxy references
        assert forall|i: int| 0 <= i < proxies.len() implies (#[trigger] proxies[i]).0.num == m1
            + 1 + i && obj_refs_bounded(proxies[i].1, new_max) by {
            assert(proxies[i].1 == ObjV::Reference(shift_id(pairs[i].1, base as int)));
            assert(pairs[i].1.num <= inc.max_id);
        }

        assert forall|i: int, j: int|
            0 <= i < j < merged.objects.len() implies (#[trigger] merged.objects[i]).0 != (
        #[trigger] merged.objects[j]).0 by {
            let n0 = out.objects.len() as int;
            let n1 = n0 + shifted.len();
            if i < n0 && j < n0 {
                assert(out.objects[i].0 != out.objects[j].0);
            } else if i < n0 && j < n1 {
                assert(merged.objects[j] == shifted[j - n0]);
                assert(merged.objects[i].0.num <= out.max_id);
            } else if i < n0 {
                assert(merged.objects[j] == proxies[j - n1]);
                assert(merged.objects[i].0.num <= out.max_id);
            } else if i < n1 && j < n1 {
                assert(merged.objects[i] == shifted[i - n0]);
                assert(merged.objects[j] == shifted[j - n0]);
                assert(inc.objects[i - n0].0 != inc.objects[j - n0].0);
                assert(inc.objects[i - n0].0.num <= inc.max_id);
                assert(inc.objects[j - n0].0.num <= inc.max_id);
            } else if i < n1 {
                assert(merged.objects[i] == shifted[i - n0]);
                assert(merged.objects[j] == proxies[j - n1]);
            } else {
                assert(merged.objects[i] == proxies[i - n1]);
                assert(merged.objects[j] == proxies[j - n1]);
            }
        }

        assert forall|i: int| 0 <= i < merged.objects.len() implies (
        #[trigger] merged.objects[i]).0.num <= merged.max_id && obj_refs_bounded(
            merged.objects[i].1,
            merged.max_id as int,
        ) by {
            let n0 = out.objects.len() as int;
            let n1 = n0 + shifted.len();
            if i < n0 {
            } else if i < n1 {
                assert(merged.objects[i] == shifted[i - n0]);
            } else {
                assert(merged.objects[i] == proxies[i - n1]);
            }
        }
        lemma_ents_refs_bounded_mono(out.trailer.entries, out.max_id as int, new_max);
    }
}

/// Degradation on a malformed root: when the accumulating document's
/// trailer does not lead to a pages dictionary, merging still
/// completes — no fatal outcome — and the result holds every old
/// entry unchanged and every incoming object, relabelled, at its
/// relabelled identifier.
pub proof fn lemma_merge_degrades(out: DocV, inc: DocV)
    requires
        spec_locate_pages(out) is None,
        out.max_id + 1 + inc.max_id + spec_page_list(inc).len() <= u32::MAX,
        spec_page_list(out).len() + spec_page_list(inc).len() <= u32::MAX,
    ensures
        spec_merge(out, inc).1 == MergeStatus::PageTreeSkipped,
        spec_merge(out, inc).0.objects.len() == out.objects.len() + inc.objects.len()
            + spec_page_list(inc).len(),
        forall|i: int|
            0 <= i < out.objects.len() ==> #[trigger] spec_merge(out, inc).0.objects[i]
                == out.objects[i],
        forall|i: int|
            0 <= i < inc.objects.len() ==> #[trigger] spec_merge(out, inc).0.objects[out
                .objects.len() + i] == (
                shift_id(inc.objects[i].0, out.max_id + 1),
                shift_obj(inc.objects[i].1, out.max_id + 1),
            ),
{
    let base = out.max_id + 1;
    let shifted = shifted_entries(inc.objects, base as int);
    let proxies = proxy_entries(spec_page_list(inc), base as int, out.max_id + 1 + inc.max_id + 1);
    let merged = spec_merge(out, inc).0;
    assert(merged.objects == out.objects.add(shifted).add(proxies));
    assert forall|i: int| 0 <= i < out.objects.len() implies #[trigger] merged.objects[i]
        == out.objects[i] by {
        assert(merged.objects[i] == out.objects.add(shifted)[i]);
    }
    assert forall|i: int| 0 <= i < inc.objects.len() implies #[trigger] merged.objects[out
        .objects.len() + i] == (
        shift_id(inc.objects[i].0, out.max_id + 1),
        shift_obj(inc.objects[i].1, out.max_id + 1),
    ) by {
        assert(merged.objects[out.objects.len() + i] == out.objects.add(shifted)[out.objects.len()
            + i]);
        assert(out.objects.add(shifted)[out.objects.len() + i] == shifted[i]);
    }
}

/// A key is in a concatenation exactly when it is in one part.
pub proof fn lemma_has_key_append(a: Seq<(ObjectId, ObjV)>, b: Seq<(ObjectId, ObjV)>, q: ObjectId)
    ensures
        has_key(a.add(b), q) <==> (has_key(a, q) || has_key(b, q)),
{
    if has_key(a, q) {
        let j = choose|j: int| 0 <= j < a.len() && a[j].0 == q;
        assert(a.add(b)[j].0 == q);
    }
    if has_key(b, q) {
        let j = choose|j: int| 0 <= j < b.len() && b[j].0 == q;
        assert(a.add(b)[a.len() + j].0 == q);
    }
    if has_key(a.add(b), q) {
        let j = choose|j: int| 0 <= j < a.add(b).len() && a.add(b)[j].0 == q;
        if j < a.len() {
            assert(a[j].0 == q);
        } else {
            assert(b[j - a.len()].0 == q);
        }
    }
}

/// Replacing the value under `id0` changes `lookup` only at `id0`.
pub proof fn lemma_lookup_replace(objs: Seq<(ObjectId, ObjV)>, id0: ObjectId, v: ObjV, q: ObjectId)
    ensures
        q != id0 ==> lookup(replace_value(objs, id0, v), q) == lookup(objs, q),
        q == id0 && has_key(objs, q) ==> lookup(replace_value(objs, id0, v), q) == Some(v),
        !has_key(objs, q) ==> lookup(replace_value(objs, id0, v), q) == lookup(objs, q),
    decreases objs.len(),
{
    lemma_lookup_none_iff(objs, q);
    lemma_lookup_none_iff(replace_value(objs, id0, v), q);
    if objs.len() > 0 {
        let r = replace_value(objs, id0, v);
        assert(r.drop_first() =~= replace_value(objs.drop_first(), id0, v));
        assert(r[0].0 == objs[0].0);
        lemma_lookup_replace(objs.drop_first(), id0, v, q);
        lemma_lookup_none_iff(objs.drop_first(), q);
        if objs[0].0 != q && has_key(objs, q) {
            let j = choose|j: int| 0 <= j < objs.len() && objs[j].0 == q;
            assert(objs.drop_first()[j - 1].0 == q);
        }
    }
}

/// Relabelling commutes with `lookup`: the relabelled mapping, read
/// at a relabelled identifier, answers with the relabelled value.
pub proof fn lemma_lookup_shifted(objs: Seq<(ObjectId, ObjV)>, q: ObjectId, base: int, b: int)
    requires
        0 <= base,
        0 <= b,
        b + base <= u32::MAX,
        q.num <= b,
        forall|i: int| 0 <= i < objs.len() ==> (#[trigger] objs[i]).0.num <= b,
    ensures
        lookup(shifted_entries(objs, base), shift_id(q, base)) == match lookup(objs, q) {
            Some(v) => Some(shift_obj(v, base)),
            None => None,
        },
    decreases objs.len(),
{
    if objs.len() == 0 {
        assert(shifted_entries(objs, base) =~= Seq::<(ObjectId, ObjV)>::empty());
    } else {
        let sh = shifted_entries(objs, base);
        assert(sh[0] == (shift_id(objs[0].0, base), shift_obj(objs[0].1, base)));
        assert(sh.drop_first() =~= shifted_entries(objs.drop_first(), base));
        assert(objs[0].0.num <= b);
        if objs[0].0 == q {
        } else {
            assert(shift_id(objs[0].0, base) != shift_id(q, base)) by {
                if objs[0].0.num == q.num {
                } else {
                    assert(objs[0].0.num + base != q.num + base);
                }
            }
            assert forall|i: int| 0 <= i < objs.drop_first().len() implies (
            #[trigger] objs.drop_first()[i]).0.num <= b by {
                assert(objs.drop_first()[i] == objs[i + 1]);
            }
            lemma_lookup_shifted(objs.drop_first(), q, base, b);
        }
    }
}

/// Relabelling commutes with `dict_get`, and so keeps every name
/// entry — the `Type` of a node in particular — unchanged.
pub proof fn lemma_shift_dict_get(ents: Seq<(Seq<u8>, ObjV)>, q: Seq<u8>, base: int)
    ensures
        dict_get(DictV { entries: shift_ents(ents, base) }, q) == match dict_get(
            DictV { entries: ents },
            q,
        ) {
            Some(v) => Some(shift_obj(v, base)),
            None => None,
        },
    decreases ents,
{
    if ents.len() > 0 {
        let sh = shift_ents(ents, base);
        assert(sh[0] == (ents[0].0, shift_obj(ents[0].1, base)));
        assert(sh.drop_first() =~= shift_ents(ents.drop_first(), base));
        if ents[0].0 != q {
            lemma_shift_dict_get(ents.drop_first(), q, base);
        }
    }
}

/// A kids array whose entries all reference resolved pages walks to
/// exactly those pages, in order.
pub proof fn lemma_kids_pages_all_leaves(
    objs: Seq<(ObjectId, ObjV)>,
    kids: Seq<ObjV>,
    fuel: nat,
    pairs: Seq<(ObjectId, ObjectId)>,
)
    requires
        kids.len() == pairs.len(),
        forall|i: int|
            0 <= i < kids.len() ==> #[trigger] kids[i] == ObjV::Reference(pairs[i].0)
                && is_leaf_pair(objs, pairs[i].0, pairs[i].1),
    ensures
        crate::pages::kids_pages(objs, kids, fuel) == pairs,
    decreases kids.len(),
{
    if kids.len() == 0 {
        assert(crate::pages::kids_pages(objs, kids, fuel) =~= pairs);
    } else {
        assert(crate::pages::kid_pages(objs, kids[0], fuel) =~= seq![pairs[0]]);
        assert forall|i: int| 0 <= i < kids.drop_first().len() implies #[trigger] kids
            .drop_first()[i] == ObjV::Reference(pairs.drop_first()[i].0) && is_leaf_pair(
            objs,
            pairs.drop_first()[i].0,
            pairs.drop_first()[i].1,
        ) by {
            assert(kids.drop_first()[i] == kids[i + 1]);
            assert(pairs.drop_first()[i] == pairs[i + 1]);
        }
        lemma_kids_pages_all_leaves(objs, kids.drop_first(), fuel, pairs.drop_first());
        assert(crate::pages::kids_pages(objs, kids, fuel) =~= pairs);
    }
}

/// Page count and page order: a merge that rebuilds the page tree
/// yields a page list that is exactly the accumulating document's
/// previous page list followed by one proxy per incoming page, in the
/// incoming document's own page order; `Count` and the length of
/// `Kids` both equal the sum of the two page counts.
#[verifier::rlimit(50)]
pub proof fn lemma_merge_page_tree(out: DocV, inc: DocV)
    requires
        doc_wf(out),
        doc_wf(inc),
        spec_merge(out, inc).1 == MergeStatus::PagesRebuilt,
    ensures
        ({
            let merged = spec_merge(out, inc).0;
            let prev = spec_page_list(out);
            let pairs = spec_page_list(inc);
            let base = out.max_id + 1;
            let m1 = out.max_id + 1 + inc.max_id;
            &&& spec_page_list(merged).len() == prev.len() + pairs.len()
            &&& forall|i: int|
                0 <= i < prev.len() ==> #[trigger] spec_page_list(merged)[i] == prev[i]
            &&& forall|i: int|
                0 <= i < pairs.len() ==> #[trigger] spec_page_list(merged)[prev.len() + i] == (
                    proxy_id(m1 + 1, i),
                    shift_id(pairs[i].1, base),
                )
            &&& match spec_locate_pages(merged) {
                Some(pgid) => match lookup(merged.objects, pgid) {
                    Some(ObjV::Dictionary(pg)) => dict_get(pg, nm_count()) == Some(
                        ObjV::Integer(((prev.len() + pairs.len()) as int) as i64),
                    ) && dict_get(pg, nm_kids()) == Some(
                        ObjV::Array(prev_kid_refs(prev).add(proxy_kid_refs(pairs.len(), m1 + 1))),
                    ),
                    _ => false,
                },
                None => false,
            }
        }),
{
    let merged = spec_merge(out, inc).0;
    let prev = spec_page_list(out);
    let pairs = spec_page_list(inc);
    let base = out.max_id + 1;
    let m1 = out.max_id + 1 + inc.max_id;
    let shifted = shifted_entries(inc.objects, base as int);
    let proxies = proxy_entries(pairs, base as int, m1 + 1);
    crate::merge::lemma_page_list_keys(out);
    crate::merge::lemma_page_list_keys(inc);
    lemma_page_list_leaf(out);
    lemma_page_list_leaf(inc);
    match spec_locate_pages(out) {
        Some(pgid) => match lookup(out.objects, pgid) {
            Some(ObjV::Dictionary(pg)) => {
                let total = (prev.len() + pairs.len()) as int;
                let newkids = prev_kid_refs(prev).add(proxy_kid_refs(pairs.len(), m1 + 1));
                let newpg = rebuilt_pages_dict(pg, total, newkids);
                let part1 = replace_value(out.objects, pgid, ObjV::Dictionary(newpg));
                assert(merged.objects == part1.add(shifted).add(proxies));
                assert(part1.len() == out.objects.len());
                assert forall|q: int| 0 <= q < part1.len() implies (#[trigger] part1[q]).0
                    == out.objects[q].0 by {}

                // every identifier at or below the old maximum reads
                // from the (updated) old entries
                assert forall|q: ObjectId| q.num <= out.max_id implies #[trigger] lookup(
                    merged.objects,
                    q,
                ) == if q == pgid {
                    Some(ObjV::Dictionary(newpg))
                } else {
                    lookup(out.objects, q)
                } by {
                    crate::document::lemma_lookup_append(part1.add(shifted), proxies, q);
                    crate::document::lemma_lookup_append(part1, shifted, q);
                    lemma_has_key_append(part1, shifted, q);
                    lemma_lookup_replace(out.objects, pgid, ObjV::Dictionary(newpg), q);
                    lemma_lookup_none_iff(out.objects, q);
                    lemma_lookup_none_iff(part1, q);
                    if has_key(part1, q) {
                        let j = choose|j: int| 0 <= j < part1.len() && part1[j].0 == q;
                        assert(out.objects[j].0 == q);
                    }
                    if has_key(out.objects, q) {
                        let j = choose|j: int|
                            0 <= j < out.objects.len() && out.objects[j].0 == q;
                        assert(part1[j].0 == q);
                    }
                    if has_key(shifted, q) {
                        let j = choose|j: int| 0 <= j < shifted.len() && shifted[j].0 == q;
                        assert(shifted[j].0 == shift_id(inc.objects[j].0, base as int));
                        assert(inc.objects[j].0.num + base <= u32::MAX);
                        assert(false);
                    }
                    if has_key(proxies, q) {
                        let j = choose|j: int| 0 <= j < proxies.len() && proxies[j].0 == q;
                        assert(proxies[j].0 == proxy_id(m1 + 1, j));
                        assert(false);
                    }
                    lemma_lookup_none_iff(shifted, q);
                    lemma_lookup_none_iff(proxies, q);
                }

                // the updated pages dictionary answers for `Type`,
                // `Pages`, `Count` and `Kids`
                lemma_dict_set_get(pg, nm_count(), ObjV::Integer(total as i64), nm_kids());
                lemma_dict_set_get(pg, nm_count(), ObjV::Integer(total as i64), nm_count());
                lemma_dict_set_get(pg, nm_count(), ObjV::Integer(total as i64), nm_type());
                lemma_dict_set_get(pg, nm_count(), ObjV::Integer(total as i64), nm_pages());
                let pg1 = dict_set(pg, nm_count(), ObjV::Integer(total as i64));
                lemma_dict_set_get(pg1, nm_kids(), ObjV::Array(newkids), nm_kids());
                lemma_dict_set_get(pg1, nm_kids(), ObjV::Array(newkids), nm_count());
                lemma_dict_set_get(pg1, nm_kids(), ObjV::Array(newkids), nm_type());
                lemma_dict_set_get(pg1, nm_kids(), ObjV::Array(newkids), nm_pages());
                assert(dict_get(newpg, nm_kids()) == Some(ObjV::Array(newkids)));
                assert(dict_get(newpg, nm_count()) == Some(ObjV::Integer(total as i64)));
                assert(dict_type(newpg) == dict_type(pg));
                assert(dict_get(newpg, nm_pages()) == dict_get(pg, nm_pages()));

                // the trailer still leads to the same pages dictionary
                match dict_get(out.trailer, nm_root()) {
                    Some(ObjV::Reference(rid)) => {
                        let ri = crate::object::lemma_dict_get_some_index(
                            out.trailer,
                            nm_root(),
                        );
                        lemma_ents_refs_bounded(out.trailer.entries, out.max_id as int);
                        assert(obj_refs_bounded(ObjV::Reference(rid), out.max_id as int));
                        match deref1(out.objects, rid) {
                            Some((cid, ObjV::Dictionary(cat))) => {
                                if lookup(out.objects, rid) == Some(ObjV::Reference(cid)) {
                                    let xi = lemma_lookup_some_index(out.objects, rid);
                                    assert(obj_refs_bounded(
                                        out.objects[xi].1,
                                        out.max_id as int,
                                    ));
                                }
                                assert(cid.num <= out.max_id);
                                assert(lookup(out.objects, cid) == Some(ObjV::Dictionary(cat)));
                                let catm = if cid == pgid {
                                    newpg
                                } else {
                                    cat
                                };
                                if cid == pgid {
                                    assert(cat == pg);
                                }
                                assert(deref1(merged.objects, rid) == Some(
                                    (cid, ObjV::Dictionary(catm)),
                                ));
                                assert(dict_get(catm, nm_pages()) == dict_get(cat, nm_pages()));
                                match dict_get(cat, nm_pages()) {
                                    Some(ObjV::Reference(pid)) => {
                                        let ci = lemma_lookup_some_index(out.objects, cid);
                                        assert(obj_refs_bounded(
                                            out.objects[ci].1,
                                            out.max_id as int,
                                        ));
                                        let pi = crate::object::lemma_dict_get_some_index(
                                            cat,
                                            nm_pages(),
                                        );
                                        crate::document::lemma_ents_refs_bounded(
                                            cat.entries,
                                            out.max_id as int,
                                        );
                                        assert(pid.num <= out.max_id);
                                        match deref1(out.objects, pid) {
                                            Some((t2, ObjV::Dictionary(_))) => {
                                                assert(t2 == pgid);
                                                if lookup(out.objects, pid) == Some(
                                                    ObjV::Reference(pgid),
                                                ) {
                                                    let yi = lemma_lookup_some_index(
                                                        out.objects,
                                                        pid,
                                                    );
                                                    assert(obj_refs_bounded(
                                                        out.objects[yi].1,
                                                        out.max_id as int,
                                                    ));
                                                    assert(pid != pgid);
                                                }
                                                assert(deref1(merged.objects, pid) == Some(
                                                    (pgid, ObjV::Dictionary(newpg)),
                                                ));
                                            },
                                            _ => {
                                                assert(false);
                                            },
                                        }
                                    },
                                    _ => {
                                        assert(false);
                                    },
                                }
                            },
                            _ => {
                                assert(false);
                            },
                        }
                    },
                    _ => {
                        assert(false);
                    },
                }
                assert(spec_locate_pages(merged) == Some(pgid));
                assert(lookup(merged.objects, pgid) == Some(ObjV::Dictionary(newpg)));

                // every rebuilt kid resolves to a page
                let pairs_all = prev.add(
                    Seq::new(
                        pairs.len(),
                        |i: int| (proxy_id(m1 + 1, i), shift_id(pairs[i].1, base as int)),
                    ),
                );
                assert forall|i: int| 0 <= i < newkids.len() implies #[trigger] newkids[i]
                    == ObjV::Reference(pairs_all[i].0) && is_leaf_pair(
                    merged.objects,
                    pairs_all[i].0,
                    pairs_all[i].1,
                ) by {
                    if i < prev.len() {
                        assert(newkids[i] == prev_kid_refs(prev)[i]);
                        assert(pairs_all[i] == prev[i]);
                        let k = prev[i].0;
                        let t = prev[i].1;
                        assert(is_leaf_pair(out.objects, k, t));
                        lemma_leaf_pair_keys(out.objects, k, t);
                        let kj = choose|j: int|
                            0 <= j < out.objects.len() && out.objects[j].0 == k;
                        assert(k.num <= out.max_id);
                        match lookup(out.objects, k) {
                            Some(ObjV::Reference(r)) => {
                                assert(r == t);
                                let zi = lemma_lookup_some_index(out.objects, k);
                                assert(obj_refs_bounded(out.objects[zi].1, out.max_id as int));
                                assert(t.num <= out.max_id);
                                assert(k != pgid);
                                if t == pgid {
                                    assert(lookup(out.objects, t) == Some(
                                        ObjV::Dictionary(pg),
                                    ));
                                    assert(dict_type(newpg) == Some(nm_page()));
                                } else {
                                }
                                assert(is_leaf_pair(merged.objects, k, t));
                            },
                            Some(_) => {
                                assert(t == k);
                                if k == pgid {
                                    assert(dict_type(newpg) == Some(nm_page()));
                                }
                                assert(is_leaf_pair(merged.objects, k, t));
                            },
                            None => {
                                assert(false);
                            },
                        }
                    } else {
                        let j = i - prev.len();
                        assert(newkids[i] == proxy_kid_refs(pairs.len(), m1 + 1)[j]);
                        assert(pairs_all[i] == (
                            proxy_id(m1 + 1, j),
                            shift_id(pairs[j].1, base as int),
                        ));
                        let pid2 = proxy_id(m1 + 1, j);
                        // the proxy itself
                        crate::document::lemma_lookup_append(
                            part1.add(shifted),
                            proxies,
                            pid2,
                        );
                        lemma_has_key_append(part1, shifted, pid2);
                        if has_key(part1, pid2) {
                            let x = choose|x: int| 0 <= x < part1.len() && part1[x].0 == pid2;
                            assert(out.objects[x].0 == pid2);
                            assert(false);
                        }
                        if has_key(shifted, pid2) {
                            let x = choose|x: int|
                                0 <= x < shifted.len() && shifted[x].0 == pid2;
                            assert(shifted[x].0 == shift_id(inc.objects[x].0, base as int));
                            assert(inc.objects[x].0.num + base <= u32::MAX);
                            assert(false);
                        }
                        crate::document::lemma_lookup_none_iff(part1.add(shifted), pid2);
                        lemma_has_key_append(part1, shifted, pid2);
                        assert forall|x: int| 0 <= x < j implies (#[trigger] proxies[x]).0
                            != pid2 by {
                            assert(proxies[x].0 == proxy_id(m1 + 1, x));
                        }
                        assert(proxies[j].0 == pid2);
                        lemma_lookup_found(proxies, pid2, j);
                        assert(lookup(merged.objects, pid2) == Some(
                            ObjV::Reference(shift_id(pairs[j].1, base as int)),
                        ));
                        // the page dictionary behind it
                        let t = pairs[j].1;
                        assert(is_leaf_pair(inc.objects, pairs[j].0, t));
                        lemma_leaf_pair_keys(inc.objects, pairs[j].0, t);
                        assert(t.num <= inc.max_id);
                        match lookup(inc.objects, t) {
                            Some(ObjV::Dictionary(node)) => {
                                let sq = shift_id(t, base as int);
                                crate::document::lemma_lookup_append(
                                    part1.add(shifted),
                                    proxies,
                                    sq,
                                );
                                crate::document::lemma_lookup_append(part1, shifted, sq);
                                lemma_has_key_append(part1, shifted, sq);
                                if has_key(part1, sq) {
                                    let x = choose|x: int|
                                        0 <= x < part1.len() && part1[x].0 == sq;
                                    assert(out.objects[x].0 == sq);
                                    assert(out.objects[x].0.num <= out.max_id);
                                    assert(false);
                                }
                                assert forall|x: int| 0 <= x < inc.objects.len() implies (
                                #[trigger] inc.objects[x]).0.num <= inc.max_id by {}
                                lemma_lookup_shifted(
                                    inc.objects,
                                    t,
                                    base as int,
                                    inc.max_id as int,
                                );
                                lemma_lookup_none_iff(shifted, sq);
                                assert(lookup(
                                    merged.objects,
                                    shift_id(t, base as int),
                                ) == Some(shift_obj(ObjV::Dictionary(node), base as int)));
                                lemma_shift_dict_get(node.entries, nm_type(), base as int);
                                assert(dict_type(node) == Some(nm_page()));
                                assert(is_leaf_pair(merged.objects, pid2, shift_id(
                                    t,
                                    base as int,
                                )));
                            },
                            _ => {
                                assert(false);
                            },
                        }
                    }
                }
                lemma_kids_pages_all_leaves(
                    merged.objects,
                    newkids,
                    merged.objects.len() as nat,
                    pairs_all,
                );
                assert(spec_page_list(merged) == pairs_all);
                assert forall|i: int| 0 <= i < prev.len() implies #[trigger] spec_page_list(
                    merged,
                )[i] == prev[i] by {
                    assert(pairs_all[i] == prev[i]);
                }
                assert forall|i: int| 0 <= i < pairs.len() implies #[trigger] spec_page_list(
                    merged,
                )[prev.len() + i] == (proxy_id(m1 + 1, i), shift_id(pairs[i].1, base)) by {
                    assert(pairs_all[prev.len() + i] == (
                        proxy_id(m1 + 1, i),
                        shift_id(pairs[i].1, base as int),
                    ));
                }
            },
            _ => {
                assert(false);
            },
        },
        None => {
            assert(false);
        },
    }
}

/// A freshly created output document is well formed and closed, its
/// trailer leads to the empty pages dictionary, and it has no pages.
pub proof fn lemma_new_doc_shape()
    ensures
        doc_wf(spec_new_doc()),
        doc_closed(spec_new_doc()),
        spec_locate_pages(spec_new_doc()) == Some(ObjectId { num: 2u32, gen: 0u16 }),
        spec_page_list(spec_new_doc()) == Seq::<(ObjectId, ObjectId)>::empty(),
{
    let d = spec_new_doc();
    let id1 = ObjectId { num: 1u32, gen: 0u16 };
    let id2 = ObjectId { num: 2u32, gen: 0u16 };
    reveal_with_fuel(lookup, 4);
    reveal_with_fuel(dict_get, 5);
    reveal_with_fuel(ents_refs_bounded, 5);
    assert(dict_get(d.trailer, nm_root()) == Some(ObjV::Reference(id1))) by {
        assert(d.trailer.entries[0] == (nm_root(), ObjV::Reference(id1)));
    }
    let cat = d.objects[0].1->Dictionary_0;
    let pg = d.objects[1].1->Dictionary_0;
    assert(lookup(d.objects, id1) == Some(ObjV::Dictionary(cat)));
    assert(lookup(d.objects, id2) == Some(ObjV::Dictionary(pg))) by {
        assert(d.objects.drop_first()[0] == d.objects[1]);
    }
    assert(deref1(d.objects, id1) == Some((id1, ObjV::Dictionary(cat))));
    assert(dict_get(cat, nm_pages()) == Some(ObjV::Reference(id2))) by {
        assert(cat.entries[0].0 == nm_type());
        assert(nm_type() != nm_pages());
        assert(cat.entries.drop_first()[0] == (nm_pages(), ObjV::Reference(id2)));
    }
    assert(deref1(d.objects, id2) == Some((id2, ObjV::Dictionary(pg))));
    assert(spec_locate_pages(d) == Some(id2));
    assert(dict_get(pg, nm_kids()) == Some(ObjV::Array(Seq::<ObjV>::empty()))) by {
        assert(pg.entries[0].0 == nm_type());
        assert(nm_type() != nm_kids());
        assert(pg.entries.drop_first()[0] == (nm_kids(), ObjV::Array(Seq::<ObjV>::empty())));
    }
    assert(spec_page_list(d) =~= Seq::<(ObjectId, ObjectId)>::empty());
    assert(unique_ids(d.objects));
    assert(ents_refs_bounded(cat.entries, 2));
    assert(ents_refs_bounded(pg.entries, 2));
    assert(ents_refs_bounded(d.trailer.entries, 2));
    assert forall|i: int| 0 <= i < d.objects.len() implies (#[trigger] d.objects[i]).0.num <= 2
        && obj_refs_bounded(d.objects[i].1, 2) by {
        if i == 0 {
        } else {
            assert(i == 1);
        }
    }
    reveal_with_fuel(crate::document::ents_refs_in, 5);
    let ks = key_set(d.objects);
    assert(ks.contains(id1));
    assert(ks.contains(id2)) by {
        assert(d.objects[1].0 == id2);
    }
    assert(ents_refs_in(cat.entries, ks));
    assert(ents_refs_in(pg.entries, ks));
    assert(ents_refs_in(d.trailer.entries, ks));
    assert forall|i: int| 0 <= i < d.objects.len() implies obj_refs_in(
        (#[trigger] d.objects[i]).1,
        ks,
    ) by {
        if i == 0 {
        } else {
            assert(i == 1);
        }
    }
}

/// Merging a single document into a freshly created output carries
/// over exactly that document's pages: the page tree is rebuilt, the
/// page count equals the input's own page count, and page `i` of the
/// result is the input's page `i`, relabelled, behind the `i`th
/// proxy.
pub proof fn lemma_merge_into_fresh(inc: DocV)
    requires
        doc_wf(inc),
        3 + inc.max_id + spec_page_list(inc).len() <= u32::MAX,
    ensures
        ({
            let merged = spec_merge(spec_new_doc(), inc).0;
            let pairs = spec_page_list(inc);
            &&& spec_merge(spec_new_doc(), inc).1 == MergeStatus::PagesRebuilt
            &&& spec_page_list(merged).len() == pairs.len()
            &&& forall|i: int|
                0 <= i < pairs.len() ==> #[trigger] spec_page_list(merged)[i] == (
                    proxy_id(4 + inc.max_id, i),
                    shift_id(pairs[i].1, 3),
                )
        }),
{
    lemma_new_doc_shape();
    let out = spec_new_doc();
    let pairs = spec_page_list(inc);
    assert(lookup(out.objects, ObjectId { num: 2u32, gen: 0u16 }) == Some(
        out.objects[1].1,
    )) by {
        reveal_with_fuel(lookup, 3);
        assert(out.objects.drop_first()[0] == out.objects[1]);
    }
    assert(spec_merge(out, inc).1 == MergeStatus::PagesRebuilt);
    lemma_merge_page_tree(out, inc);
    assert forall|i: int| 0 <= i < pairs.len() implies #[trigger] spec_page_list(
        spec_merge(out, inc).0,
    )[i] == (proxy_id(4 + inc.max_id, i), shift_id(pairs[i].1, 3)) by {
        assert(spec_page_list(spec_merge(out, inc).0)[spec_page_list(out).len() + i] == (
            proxy_id(out.max_id + 1 + inc.max_id + 1, i),
            shift_id(pairs[i].1, out.max_id + 1),
        ));
    }
}

/// Relabelling keeps references resolved, in the relabelled key set.
pub proof fn lemma_shift_obj_refs_in(o: ObjV, ks1: Set<ObjectId>, ks2: Set<ObjectId>, base: int)
    requires
        obj_refs_in(o, ks1),
        forall|id: ObjectId| ks1.contains(id) ==> ks2.contains(#[trigger] shift_id(id, base)),
    ensures
        obj_refs_in(shift_obj(o, base), ks2),
    decreases o,
{
    match o {
        ObjV::Array(items) => {
            lemma_objs_refs_in(items, ks1);
            lemma_shift_objs(items, base);
            lemma_objs_refs_in(shift_objs(items, base), ks2);
            assert forall|i: int| 0 <= i < items.len() implies obj_refs_in(
                #[trigger] shift_objs(items, base)[i],
                ks2,
            ) by {
                lemma_shift_obj_refs_in(items[i], ks1, ks2, base);
            }
        },
        ObjV::Dictionary(d) => {
            lemma_shift_ents_refs_in(d.entries, ks1, ks2, base);
        },
        ObjV::Stream(d, _) => {
            lemma_shift_ents_refs_in(d.entries, ks1, ks2, base);
        },
        _ => {},
    }
}

pub proof fn lemma_shift_ents_refs_in(
    ents: Seq<(Seq<u8>, ObjV)>,
    ks1: Set<ObjectId>,
    ks2: Set<ObjectId>,
    base: int,
)
    requires
        ents_refs_in(ents, ks1),
        forall|id: ObjectId| ks1.contains(id) ==> ks2.contains(#[trigger] shift_id(id, base)),
    ensures
        ents_refs_in(shift_ents(ents, base), ks2),
    decreases ents,
{
    lemma_ents_refs_in(ents, ks1);
    lemma_shift_ents(ents, base);
    lemma_ents_refs_in(shift_ents(ents, base), ks2);
    assert forall|i: int| 0 <= i < ents.len() implies obj_refs_in(
        (#[trigger] shift_ents(ents, base)[i]).1,
        ks2,
    ) by {
        lemma_shift_obj_refs_in(ents[i].1, ks1, ks2, base);
    }
}

/// Setting one resolved value in a dictionary of resolved values
/// keeps every value resolved.
pub proof fn lemma_dict_set_refs_in(d: DictV, key: Seq<u8>, val: ObjV, ks: Set<ObjectId>)
    requires
        ents_refs_in(d.entries, ks),
        obj_refs_in(val, ks),
    ensures
        ents_refs_in(dict_set(d, key, val).entries, ks),
    decreases d.entries.len(),
{
    let r = dict_set(d, key, val);
    lemma_ents_refs_in(d.entries, ks);
    lemma_ents_refs_in(r.entries, ks);
    if d.entries.len() == 0 {
    } else if d.entries[0].0 == key {
        assert forall|i: int| 0 <= i < r.entries.len() implies obj_refs_in(
            (#[trigger] r.entries[i]).1,
            ks,
        ) by {
            if i > 0 {
                assert(r.entries[i] == d.entries[i]);
            }
        }
    } else {
        let tail = DictV { entries: d.entries.drop_first() };
        lemma_ents_refs_in(tail.entries, ks);
        assert forall|i: int| 0 <= i < tail.entries.len() implies obj_refs_in(
            (#[trigger] tail.entries[i]).1,
            ks,
        ) by {
            assert(tail.entries[i] == d.entries[i + 1]);
        }
        lemma_dict_set_refs_in(tail, key, val, ks);
        lemma_ents_refs_in(dict_set(tail, key, val).entries, ks);
        assert forall|i: int| 0 <= i < r.entries.len() implies obj_refs_in(
            (#[trigger] r.entries[i]).1,
            ks,
        ) by {
            if i > 0 {
                assert(r.entries[i] == dict_set(tail, key, val).entries[i - 1]);
            }
        }
    }
}

/// Reference integrity: when both documents are closed — every
/// reference they hold resolves within their own mapping — the merged
/// document is closed too: renumbering introduces no dangling
/// reference, and neither do the proxies nor the rebuilt `Kids`.
#[verifier::rlimit(30)]
pub proof fn lemma_merge_closed(out: DocV, inc: DocV)
    requires
        doc_wf(out),
        doc_wf(inc),
        doc_closed(out),
        doc_closed(inc),
    ensures
        doc_closed(spec_merge(out, inc).0),
{
    let base = out.max_id + 1;
    let pairs = spec_page_list(inc);
    let prev = spec_page_list(out);
    let m1 = out.max_id + 1 + inc.max_id;
    if m1 + pairs.len() > u32::MAX || prev.len() + pairs.len() > u32::MAX {
    } else {
        let merged = spec_merge(out, inc).0;
        let shifted = shifted_entries(inc.objects, base as int);
        let proxies = proxy_entries(pairs, base as int, m1 + 1);
        let ks_out = key_set(out.objects);
        let ks_inc = key_set(inc.objects);
        let ks_new = key_set(merged.objects);
        let n0 = out.objects.len() as int;
        let n1 = n0 + shifted.len();
        crate::merge::lemma_page_list_keys(out);
        crate::merge::lemma_page_list_keys(inc);
        lemma_page_list_leaf(out);
        lemma_page_list_leaf(inc);

        assert(merged.objects.len() == n0 + shifted.len() + proxies.len());
        assert forall|i: int| 0 <= i < n0 implies (#[trigger] merged.objects[i]).0
            == out.objects[i].0 by {}
        assert forall|i: int| 0 <= i < shifted.len() implies #[trigger] merged.objects[n0 + i]
            == shifted[i] by {}
        assert forall|i: int| 0 <= i < proxies.len() implies #[trigger] merged.objects[n1 + i]
            == proxies[i] by {}

        assert forall|id: ObjectId| ks_out.contains(id) implies ks_new.contains(id) by {
            let j = choose|j: int| 0 <= j < out.objects.len() && out.objects[j].0 == id;
            assert(merged.objects[j].0 == id);
        }
        assert(ks_out.subset_of(ks_new));
        assert forall|id: ObjectId| ks_inc.contains(id) implies ks_new.contains(
            #[trigger] shift_id(id, base as int),
        ) by {
            let j = choose|j: int| 0 <= j < inc.objects.len() && inc.objects[j].0 == id;
            assert(shifted[j].0 == shift_id(inc.objects[j].0, base as int));
            assert(merged.objects[n0 + j].0 == shift_id(id, base as int));
        }
        assert forall|j: int| 0 <= j < proxies.len() implies ks_new.contains(
            #[trigger] proxy_id(m1 + 1, j),
        ) by {
            assert(merged.objects[n1 + j].0 == proxy_id(m1 + 1, j));
        }

        assert forall|i: int| 0 <= i < merged.objects.len() implies obj_refs_in(
            (#[trigger] merged.objects[i]).1,
            ks_new,
        ) by {
            if i < n0 {
                match spec_locate_pages(out) {
                    Some(pgid) => match lookup(out.objects, pgid) {
                        Some(ObjV::Dictionary(pg)) => {
                            assert(merged.objects[i] == replace_value(
                                out.objects,
                                pgid,
                                ObjV::Dictionary(
                                    rebuilt_pages_dict(
                                        pg,
                                        (prev.len() + pairs.len()) as int,
                                        prev_kid_refs(prev).add(
                                            proxy_kid_refs(pairs.len(), m1 + 1),
                                        ),
                                    ),
                                ),
                            )[i]);
                            if out.objects[i].0 == pgid {
                                let kids = prev_kid_refs(prev).add(
                                    proxy_kid_refs(pairs.len(), m1 + 1),
                                );
                                let j = lemma_lookup_some_index(out.objects, pgid);
                                assert(out.objects[j].1 == ObjV::Dictionary(pg));
                                assert(obj_refs_in(out.objects[j].1, ks_out));
                                lemma_ents_refs_in_mono(pg.entries, ks_out, ks_new);
                                lemma_objs_refs_in(kids, ks_new);
                                assert forall|q: int| 0 <= q < kids.len() implies obj_refs_in(
                                    #[trigger] kids[q],
                                    ks_new,
                                ) by {
                                    if q < prev.len() {
                                        assert(kids[q] == ObjV::Reference(prev[q].0));
                                        lemma_leaf_pair_keys(
                                            out.objects,
                                            prev[q].0,
                                            prev[q].1,
                                        );
                                        assert(ks_out.contains(prev[q].0));
                                    } else {
                                        assert(kids[q] == ObjV::Reference(
                                            proxy_id(m1 + 1, q - prev.len()),
                                        ));
                                    }
                                }
                                lemma_dict_set_refs_in(
                                    pg,
                                    nm_count(),
                                    ObjV::Integer(((prev.len() + pairs.len()) as int) as i64),
                                    ks_new,
                                );
                                lemma_dict_set_refs_in(
                                    dict_set(
                                        pg,
                                        nm_count(),
                                        ObjV::Integer(
                                            ((prev.len() + pairs.len()) as int) as i64,
                                        ),
                                    ),
                                    nm_kids(),
                                    ObjV::Array(kids),
                                    ks_new,
                                );
                            } else {
                                lemma_obj_refs_in_mono(out.objects[i].1, ks_out, ks_new);
                            }
                        },
                        _ => {
                            lemma_obj_refs_in_mono(out.objects[i].1, ks_out, ks_new);
                        },
                    },
                    None => {
                        lemma_obj_refs_in_mono(out.objects[i].1, ks_out, ks_new);
                    },
                }
            } else if i < n1 {
                assert(merged.objects[i] == shifted[i - n0]);
                assert(shifted[i - n0].1 == shift_obj(inc.objects[i - n0].1, base as int));
                assert(obj_refs_in(inc.objects[i - n0].1, ks_inc));
                lemma_shift_obj_refs_in(inc.objects[i - n0].1, ks_inc, ks_new, base as int);
            } else {
                assert(merged.objects[i] == proxies[i - n1]);
                assert(proxies[i - n1].1 == ObjV::Reference(
                    shift_id(pairs[i - n1].1, base as int),
                ));
                lemma_leaf_pair_keys(inc.objects, pairs[i - n1].0, pairs[i - n1].1);
                assert(ks_inc.contains(pairs[i - n1].1));
            }
        }
        lemma_ents_refs_in_mono(out.trailer.entries, ks_out, ks_new);
    }
}

/// The accumulating document built by folding a run of input
/// documents into a freshly created output, one merge step at a time.
pub open spec fn spec_merge_fold(docs: Seq<DocV>) -> DocV
    decreases docs.len(),
{
    if docs.len() == 0 {
        spec_new_doc()
    } else {
        spec_merge(spec_merge_fold(docs.drop_last()), docs.last()).0
    }
}

/// Whether every step of the fold rebuilt the page tree.
pub open spec fn fold_rebuilds(docs: Seq<DocV>) -> bool
    decreases docs.len(),
{
    docs.len() == 0 || (fold_rebuilds(docs.drop_last()) && spec_merge(
        spec_merge_fold(docs.drop_last()),
        docs.last(),
    ).1 == MergeStatus::PagesRebuilt)
}

/// The summed page count of a run of documents.
pub open spec fn total_pages(docs: Seq<DocV>) -> int
    decreases docs.len(),
{
    if docs.len() == 0 {
        0
    } else {
        total_pages(docs.drop_last()) + spec_page_list(docs.last()).len()
    }
}

/// Page count correctness over a whole run: folding documents with
/// page counts p1, p2, ... into a fresh output yields a document
/// with p1 + p2 + ... pages, whenever each step rebuilt the page
/// tree.
pub proof fn lemma_fold_page_count(docs: Seq<DocV>)
    requires
        forall|i: int| 0 <= i < docs.len() ==> doc_wf(#[trigger] docs[i]),
        fold_rebuilds(docs),
    ensures
        doc_wf(spec_merge_fold(docs)),
        spec_page_list(spec_merge_fold(docs)).len() == total_pages(docs),
    decreases docs.len(),
{
    if docs.len() == 0 {
        lemma_new_doc_shape();
    } else {
        assert forall|i: int| 0 <= i < docs.drop_last().len() implies doc_wf(
            #[trigger] docs.drop_last()[i],
        ) by {
            assert(docs.drop_last()[i] == docs[i]);
        }
        lemma_fold_page_count(docs.drop_last());
        lemma_merge_well_formed(spec_merge_fold(docs.drop_last()), docs.last());
        lemma_merge_page_tree(spec_merge_fold(docs.drop_last()), docs.last());
    }
}

/// Reference integrity over a whole run: folding closed, well-formed
/// documents into a fresh output keeps the accumulating document
/// closed at every step — no merge ever introduces a dangling
/// reference.
pub proof fn lemma_fold_closed(docs: Seq<DocV>)
    requires
        forall|i: int|
            0 <= i < docs.len() ==> doc_wf(#[trigger] docs[i]) && doc_closed(docs[i]),
    ensures
        doc_wf(spec_merge_fold(docs)),
        doc_closed(spec_merge_fold(docs)),
    decreases docs.len(),
{
    if docs.len() == 0 {
        lemma_new_doc_shape();
    } else {
        assert forall|i: int| 0 <= i < docs.drop_last().len() implies doc_wf(
            #[trigger] docs.drop_last()[i],
        ) && doc_closed(docs.drop_last()[i]) by {
            assert(docs.drop_last()[i] == docs[i]);
        }
        lemma_fold_closed(docs.drop_last());
        lemma_merge_well_formed(spec_merge_fold(docs.drop_last()), docs.last());
        lemma_merge_closed(spec_merge_fold(docs.drop_last()), docs.last());
    }
}

} // verus!
