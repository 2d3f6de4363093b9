use reupdf::document::Document;
use reupdf::merge::MergeStatus;
use reupdf::object::{Dict, ObjectId, PdfObject};

fn oid(num: u32) -> ObjectId {
    ObjectId { num, gen: 0 }
}

fn name(s: &str) -> PdfObject {
    PdfObject::Name(s.as_bytes().to_vec())
}

fn entry(k: &str, v: PdfObject) -> (Vec<u8>, PdfObject) {
    (k.as_bytes().to_vec(), v)
}

/// A document shaped like a freshly parsed PDF with `n` pages, whose
/// page dictionaries carry `Label` entries `first_label`,
/// `first_label + 1`, ...
fn doc_with_pages(n: u32, first_label: i64) -> Document {
    let mut objects: Vec<(ObjectId, PdfObject)> = Vec::new();
    let mut kids: Vec<PdfObject> = Vec::new();
    for i in 0..n {
        kids.push(PdfObject::Reference(oid(3 + i)));
    }
    objects.push((
        oid(1),
        PdfObject::Dictionary(Dict {
            entries: vec![
                entry("Type", name("Catalog")),
                entry("Pages", PdfObject::Reference(oid(2))),
            ],
        }),
    ));
    objects.push((
        oid(2),
        PdfObject::Dictionary(Dict {
            entries: vec![
                entry("Type", name("Pages")),
                entry("Kids", PdfObject::Array(kids)),
                entry("Count", PdfObject::Integer(n as i64)),
            ],
        }),
    ));
    for i in 0..n {
        objects.push((
            oid(3 + i),
            PdfObject::Dictionary(Dict {
                entries: vec![
                    entry("Type", name("Page")),
                    entry("Label", PdfObject::Integer(first_label + i as i64)),
                ],
            }),
        ));
    }
    let trailer = Dict { entries: vec![entry("Root", PdfObject::Reference(oid(1)))] };
    Document { objects, trailer, version: b"1.5".to_vec(), max_id: 2 + n }
}

fn get<'a>(doc: &'a Document, id: ObjectId) -> &'a PdfObject {
    for (k, v) in doc.objects.iter() {
        if *k == id {
            return v;
        }
    }
    panic!("object not found");
}

/// Follow reference objects until a non-reference object is reached.
fn resolve<'a>(doc: &'a Document, id: ObjectId) -> &'a PdfObject {
    let mut cur = get(doc, id);
    loop {
        match cur {
            PdfObject::Reference(r) => cur = get(doc, *r),
            _ => return cur,
        }
    }
}

fn dict_entry<'a>(d: &'a Dict, key: &str) -> Option<&'a PdfObject> {
    for (k, v) in d.entries.iter() {
        if k.as_slice() == key.as_bytes() {
            return Some(v);
        }
    }
    None
}

fn page_label(doc: &Document, id: ObjectId) -> i64 {
    match resolve(doc, id) {
        PdfObject::Dictionary(d) => match dict_entry(d, "Label") {
            Some(PdfObject::Integer(l)) => *l,
            _ => panic!("page without label"),
        },
        _ => panic!("not a dictionary"),
    }
}

fn pages_dict(doc: &Document) -> &Dict {
    let root = match dict_entry(&doc.trailer, "Root") {
        Some(PdfObject::Reference(r)) => *r,
        _ => panic!("no root"),
    };
    let pages_ref = match resolve(doc, root) {
        PdfObject::Dictionary(cat) => match dict_entry(cat, "Pages") {
            Some(PdfObject::Reference(p)) => *p,
            _ => panic!("no pages entry"),
        },
        _ => panic!("root is not a dictionary"),
    };
    match resolve(doc, pages_ref) {
        PdfObject::Dictionary(pg) => pg,
        _ => panic!("pages is not a dictionary"),
    }
}

#[test]
fn fresh_document_is_well_formed_and_empty() {
    let d = Document::new();
    assert!(d.is_well_formed());
    assert_eq!(d.max_id, 2);
    assert_eq!(d.version, b"1.5".to_vec());
    assert!(d.page_list().is_empty());
}

#[test]
fn single_input_preserves_count_and_order() {
    let mut out = Document::new();
    let inc = doc_with_pages(3, 10);
    assert!(inc.is_well_formed());
    let st = out.merge(inc);
    assert!(matches!(st, MergeStatus::PagesRebuilt));
    assert!(out.is_well_formed());
    let pages = out.page_list();
    assert_eq!(pages.len(), 3);
    for (i, (kid, _target)) in pages.iter().enumerate() {
        assert_eq!(page_label(&out, *kid), 10 + i as i64);
    }
    let pg = pages_dict(&out);
    match dict_entry(pg, "Count") {
        Some(PdfObject::Integer(c)) => assert_eq!(*c, 3),
        _ => panic!("no count"),
    }
    match dict_entry(pg, "Kids") {
        Some(PdfObject::Array(kids)) => assert_eq!(kids.len(), 3),
        _ => panic!("no kids"),
    }
}

#[test]
fn two_single_page_documents_keep_their_order() {
    let mut out = Document::new();
    let st1 = out.merge(doc_with_pages(1, 1));
    let st2 = out.merge(doc_with_pages(1, 2));
    assert!(matches!(st1, MergeStatus::PagesRebuilt));
    assert!(matches!(st2, MergeStatus::PagesRebuilt));
    let pg = pages_dict(&out);
    let kids = match dict_entry(pg, "Kids") {
        Some(PdfObject::Array(kids)) => kids,
        _ => panic!("no kids"),
    };
    assert_eq!(kids.len(), 2);
    // each kid references a proxy: a bare reference object standing
    // between the kids array and the real page dictionary
    let mut labels = Vec::new();
    for kid in kids.iter() {
        let kid_id = match kid {
            PdfObject::Reference(r) => *r,
            _ => panic!("kid is not a reference"),
        };
        assert!(matches!(get(&out, kid_id), PdfObject::Reference(_)));
        labels.push(page_label(&out, kid_id));
    }
    assert_eq!(labels, vec![1, 2]);
}

#[test]
fn merged_identifiers_stay_unique() {
    let mut out = Document::new();
    out.merge(doc_with_pages(2, 1));
    out.merge(doc_with_pages(3, 3));
    for i in 0..out.objects.len() {
        for j in (i + 1)..out.objects.len() {
            assert_ne!(out.objects[i].0, out.objects[j].0);
        }
    }
    assert!(out.is_well_formed());
}

#[test]
fn page_counts_add_up() {
    let mut out = Document::new();
    out.merge(doc_with_pages(2, 1));
    out.merge(doc_with_pages(3, 3));
    let pages = out.page_list();
    assert_eq!(pages.len(), 5);
    let pg = pages_dict(&out);
    match dict_entry(pg, "Count") {
        Some(PdfObject::Integer(c)) => assert_eq!(*c, 5),
        _ => panic!("no count"),
    }
    match dict_entry(pg, "Kids") {
        Some(PdfObject::Array(kids)) => assert_eq!(kids.len(), 5),
        _ => panic!("no kids"),
    }
    let labels: Vec<i64> = pages.iter().map(|(kid, _)| page_label(&out, *kid)).collect();
    assert_eq!(labels, vec![1, 2, 3, 4, 5]);
}

fn collect_refs(o: &PdfObject, acc: &mut Vec<ObjectId>) {
    match o {
        PdfObject::Reference(r) => acc.push(*r),
        PdfObject::Array(items) => {
            for it in items.iter() {
                collect_refs(it, acc);
            }
        }
        PdfObject::Dictionary(d) => {
            for (_, v) in d.entries.iter() {
                collect_refs(v, acc);
            }
        }
        PdfObject::Stream(d, _) => {
            for (_, v) in d.entries.iter() {
                collect_refs(v, acc);
            }
        }
        _ => {}
    }
}

#[test]
fn no_dangling_references_after_merging() {
    let mut out = Document::new();
    out.merge(doc_with_pages(2, 1));
    out.merge(doc_with_pages(1, 3));
    let mut refs = Vec::new();
    for (_, v) in out.objects.iter() {
        collect_refs(v, &mut refs);
    }
    for (_, v) in out.trailer.entries.iter() {
        collect_refs(v, &mut refs);
    }
    for r in refs {
        assert!(out.objects.iter().any(|(k, _)| *k == r));
    }
}

#[test]
fn malformed_root_degrades_without_failing() {
    // a catalog without a Pages entry: the page-tree rebuild is
    // skipped, but the incoming objects still arrive, renumbered
    let mut out = Document {
        objects: vec![(
            oid(1),
            PdfObject::Dictionary(Dict { entries: vec![entry("Type", name("Catalog"))] }),
        )],
        trailer: Dict { entries: vec![entry("Root", PdfObject::Reference(oid(1)))] },
        version: b"1.5".to_vec(),
        max_id: 1,
    };
    assert!(out.is_well_formed());
    let inc = doc_with_pages(1, 7);
    let inc_len = inc.objects.len();
    let st = out.merge(inc);
    assert!(matches!(st, MergeStatus::PageTreeSkipped));
    // every incoming object is present, shifted by max_id + 1 == 2,
    // plus one proxy per incoming page
    assert_eq!(out.objects.len(), 1 + inc_len + 1);
    assert!(matches!(get(&out, oid(3)), PdfObject::Dictionary(_)));
    assert_eq!(page_label(&out, oid(5)), 7);
    assert!(out.is_well_formed());
}

#[test]
fn exhausted_identifier_space_leaves_the_document_unchanged() {
    let mut out = Document {
        objects: Vec::new(),
        trailer: Dict::new(),
        version: b"1.5".to_vec(),
        max_id: u32::MAX,
    };
    assert!(out.is_well_formed());
    let st = out.merge(doc_with_pages(1, 1));
    assert!(matches!(st, MergeStatus::IdSpaceExhausted));
    assert_eq!(out.objects.len(), 0);
    assert_eq!(out.max_id, u32::MAX);
}

#[test]
fn dictionary_set_replaces_in_place_or_appends() {
    let mut d = Dict::new();
    d.set(b"Count", PdfObject::Integer(1));
    d.set(b"Kids", PdfObject::Array(Vec::new()));
    assert_eq!(d.entries.len(), 2);
    d.set(b"Count", PdfObject::Integer(7));
    assert_eq!(d.entries.len(), 2);
    assert_eq!(d.entries[0].0, b"Count".to_vec());
    match &d.entries[0].1 {
        PdfObject::Integer(v) => assert_eq!(*v, 7),
        _ => panic!("count was not replaced"),
    }
    match d.get(b"Kids") {
        Some(PdfObject::Array(items)) => assert!(items.is_empty()),
        _ => panic!("kids entry lost"),
    }
    assert!(d.get(b"Missing").is_none());
}

#[test]
fn renumbering_rejects_inconsistent_documents() {
    // an object number above the recorded maximum breaks the
    // well-formedness the merge relies on
    let d = Document {
        objects: vec![(oid(9), PdfObject::Null)],
        trailer: Dict::new(),
        version: b"1.5".to_vec(),
        max_id: 1,
    };
    assert!(!d.is_well_formed());
    let d2 = Document {
        objects: vec![(oid(1), PdfObject::Reference(oid(400)))],
        trailer: Dict::new(),
        version: b"1.5".to_vec(),
        max_id: 1,
    };
    assert!(!d2.is_well_formed());
    let d3 = Document {
        objects: vec![(oid(1), PdfObject::Null), (oid(1), PdfObject::Boolean(true))],
        trailer: Dict::new(),
        version: b"1.5".to_vec(),
        max_id: 1,
    };
    assert!(!d3.is_well_formed());
}

#[test]
fn nested_page_trees_flatten_in_order() {
    // an interior Pages node between the root and two of three pages
    let mut objects: Vec<(ObjectId, PdfObject)> = Vec::new();
    objects.push((
        oid(1),
        PdfObject::Dictionary(Dict {
            entries: vec![
                entry("Type", name("Catalog")),
                entry("Pages", PdfObject::Reference(oid(2))),
            ],
        }),
    ));
    objects.push((
        oid(2),
        PdfObject::Dictionary(Dict {
            entries: vec![
                entry("Type", name("Pages")),
                entry(
                    "Kids",
                    PdfObject::Array(vec![
                        PdfObject::Reference(oid(3)),
                        PdfObject::Reference(oid(4)),
                    ]),
                ),
                entry("Count", PdfObject::Integer(3)),
            ],
        }),
    ));
    objects.push((
        oid(3),
        PdfObject::Dictionary(Dict {
            entries: vec![
                entry("Type", name("Page")),
                entry("Label", PdfObject::Integer(1)),
            ],
        }),
    ));
    objects.push((
        oid(4),
        PdfObject::Dictionary(Dict {
            entries: vec![
                entry("Type", name("Pages")),
                entry(
                    "Kids",
                    PdfObject::Array(vec![
                        PdfObject::Reference(oid(5)),
                        PdfObject::Reference(oid(6)),
                    ]),
                ),
                entry("Count", PdfObject::Integer(2)),
            ],
        }),
    ));
    for i in 0..2u32 {
        objects.push((
            oid(5 + i),
            PdfObject::Dictionary(Dict {
                entries: vec![
                    entry("Type", name("Page")),
                    entry("Label", PdfObject::Integer(2 + i as i64)),
                ],
            }),
        ));
    }
    let inc = Document {
        objects,
        trailer: Dict { entries: vec![entry("Root", PdfObject::Reference(oid(1)))] },
        version: b"1.5".to_vec(),
        max_id: 6,
    };
    assert!(inc.is_well_formed());
    assert_eq!(inc.page_list().len(), 3);
    let mut out = Document::new();
    let st = out.merge(inc);
    assert!(matches!(st, MergeStatus::PagesRebuilt));
    let pages = out.page_list();
    assert_eq!(pages.len(), 3);
    let labels: Vec<i64> = pages.iter().map(|(kid, _)| page_label(&out, *kid)).collect();
    assert_eq!(labels, vec![1, 2, 3]);
}

#[test]
fn nested_references_are_relabelled_consistently() {
    // a page carrying an annotation array and a content stream, with
    // references in both directions
    let page = PdfObject::Dictionary(Dict {
        entries: vec![
            entry("Type", name("Page")),
            entry("Label", PdfObject::Integer(42)),
            entry("Annots", PdfObject::Array(vec![PdfObject::Reference(oid(4))])),
            entry("Contents", PdfObject::Reference(oid(5))),
        ],
    });
    let annot = PdfObject::Dictionary(Dict {
        entries: vec![
            entry("Parent", PdfObject::Reference(oid(3))),
            entry("Open", PdfObject::Boolean(true)),
            entry("W", PdfObject::Real(1.5f32.to_bits())),
            entry("T", PdfObject::Str(b"note".to_vec(), reupdf::object::StrFormat::Literal)),
        ],
    });
    let stream = PdfObject::Stream(
        Dict { entries: vec![entry("Length", PdfObject::Integer(4))] },
        b"BT ET".to_vec(),
    );
    let inc = Document {
        objects: vec![
            (
                oid(1),
                PdfObject::Dictionary(Dict {
                    entries: vec![
                        entry("Type", name("Catalog")),
                        entry("Pages", PdfObject::Reference(oid(2))),
                    ],
                }),
            ),
            (
                oid(2),
                PdfObject::Dictionary(Dict {
                    entries: vec![
                        entry("Type", name("Pages")),
                        entry("Kids", PdfObject::Array(vec![PdfObject::Reference(oid(3))])),
                        entry("Count", PdfObject::Integer(1)),
                    ],
                }),
            ),
            (oid(3), page),
            (oid(4), annot),
            (oid(5), stream),
        ],
        trailer: Dict { entries: vec![entry("Root", PdfObject::Reference(oid(1)))] },
        version: b"1.5".to_vec(),
        max_id: 5,
    };
    assert!(inc.is_well_formed());
    let mut out = Document::new();
    let st = out.merge(inc);
    assert!(matches!(st, MergeStatus::PagesRebuilt));
    // fresh output has max_id 2, so the incoming graph shifts by 3
    let merged_page = match get(&out, oid(6)) {
        PdfObject::Dictionary(d) => d,
        _ => panic!("page not found at its shifted identifier"),
    };
    match dict_entry(merged_page, "Annots") {
        Some(PdfObject::Array(items)) => {
            assert!(matches!(items[0], PdfObject::Reference(ObjectId { num: 7, gen: 0 })));
        }
        _ => panic!("annotations lost"),
    }
    match dict_entry(merged_page, "Contents") {
        Some(PdfObject::Reference(r)) => assert_eq!(*r, oid(8)),
        _ => panic!("contents lost"),
    }
    let merged_annot = match get(&out, oid(7)) {
        PdfObject::Dictionary(d) => d,
        _ => panic!("annotation not found"),
    };
    match dict_entry(merged_annot, "Parent") {
        Some(PdfObject::Reference(r)) => assert_eq!(*r, oid(6)),
        _ => panic!("parent reference lost"),
    }
    match dict_entry(merged_annot, "W") {
        Some(PdfObject::Real(bits)) => assert_eq!(f32::from_bits(*bits), 1.5f32),
        _ => panic!("real payload lost"),
    }
    match get(&out, oid(8)) {
        PdfObject::Stream(d, content) => {
            assert_eq!(content, &b"BT ET".to_vec());
            assert!(matches!(dict_entry(d, "Length"), Some(PdfObject::Integer(4))));
        }
        _ => panic!("stream lost"),
    }
}
