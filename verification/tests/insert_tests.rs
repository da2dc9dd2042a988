use pdf_outline::outline_inserter::{build_outline_nodes, insert_outline};
use pdf_outline::pdf_outline::{render_outline, PdfOutlineEntry};

fn entry(page: u32, title: &str) -> PdfOutlineEntry {
    PdfOutlineEntry::new(page, String::from(title))
}

fn parent_with_three_children() -> Vec<PdfOutlineEntry> {
    let mut parent = entry(1, "Parent");
    parent.children.push(entry(2, "Child one"));
    parent.children.push(entry(3, "Child two"));
    parent.children.push(entry(4, "Child three"));
    vec![parent]
}

#[test]
fn records_hold_negated_child_count_and_links() {
    let tree = parent_with_three_children();
    let (nodes, links) = build_outline_nodes(&tree);
    assert_eq!(nodes.len(), 4);
    assert_eq!(links, Some((0, 0)));

    let parent = &nodes[0];
    assert_eq!(parent.title, "Parent");
    assert_eq!(parent.parent, None);
    assert_eq!(parent.page_number, 1);
    assert_eq!(parent.first, Some(1));
    assert_eq!(parent.last, Some(3));
    assert_eq!(parent.count, Some(-3));
    assert_eq!(parent.prev, None);
    assert_eq!(parent.next, None);

    // the three children chain up pairwise, first without Prev, last
    // without Next
    assert_eq!(nodes[1].prev, None);
    assert_eq!(nodes[1].next, Some(2));
    assert_eq!(nodes[2].prev, Some(1));
    assert_eq!(nodes[2].next, Some(3));
    assert_eq!(nodes[3].prev, Some(2));
    assert_eq!(nodes[3].next, None);
    for i in 1..4 {
        assert_eq!(nodes[i].parent, Some(0));
        assert_eq!(nodes[i].first, None);
        assert_eq!(nodes[i].last, None);
        assert_eq!(nodes[i].count, None);
    }
    assert_eq!(nodes[1].title, "Child one");
    assert_eq!(nodes[2].title, "Child two");
    assert_eq!(nodes[3].title, "Child three");
}

#[test]
fn subtrees_are_recorded_between_siblings() {
    let mut first = entry(1, "First");
    let mut mid = entry(2, "Middle");
    mid.children.push(entry(3, "Leaf"));
    first.children.push(mid);
    let second = entry(5, "Second");
    let tree = vec![first, second];

    let (nodes, links) = build_outline_nodes(&tree);
    assert_eq!(nodes.len(), 4);
    // allocation order: First, Middle, Leaf, Second
    assert_eq!(nodes[0].title, "First");
    assert_eq!(nodes[1].title, "Middle");
    assert_eq!(nodes[2].title, "Leaf");
    assert_eq!(nodes[3].title, "Second");
    assert_eq!(links, Some((0, 3)));

    assert_eq!(nodes[0].first, Some(1));
    assert_eq!(nodes[0].last, Some(1));
    assert_eq!(nodes[0].count, Some(-1));
    assert_eq!(nodes[0].next, Some(3));
    assert_eq!(nodes[3].prev, Some(0));
    assert_eq!(nodes[1].parent, Some(0));
    assert_eq!(nodes[1].first, Some(2));
    assert_eq!(nodes[1].count, Some(-1));
    assert_eq!(nodes[2].parent, Some(1));
}

#[test]
fn empty_outline_yields_no_records() {
    let (nodes, links) = build_outline_nodes(&vec![]);
    assert!(nodes.is_empty());
    assert_eq!(links, None);
}

fn fresh_document() -> (lopdf::Document, (u32, u16)) {
    let mut doc = lopdf::Document::with_version("1.5");
    let mut catalog = lopdf::Dictionary::new();
    catalog.set("Type", lopdf::Object::Name(b"Catalog".to_vec()));
    let catalog_id = doc.add_object(catalog);
    doc.trailer.set("Root", lopdf::Object::Reference(catalog_id));
    (doc, catalog_id)
}

fn outlines_root_of(doc: &lopdf::Document, catalog_id: (u32, u16)) -> (u32, u16) {
    doc.get_dictionary(catalog_id)
        .unwrap()
        .get(b"Outlines")
        .unwrap()
        .as_reference()
        .unwrap()
}

#[test]
fn inserted_outline_reads_back_with_consistent_links() {
    let tree = parent_with_three_children();
    let (mut doc, catalog_id) = fresh_document();
    assert_eq!(insert_outline(&mut doc, &tree), Ok(()));

    let root_id = outlines_root_of(&doc, catalog_id);
    let root = doc.get_dictionary(root_id).unwrap();
    assert_eq!(root.get(b"Type").unwrap().as_name().unwrap(), b"Outlines");

    let parent_id = root.get(b"First").unwrap().as_reference().unwrap();
    assert_eq!(root.get(b"Last").unwrap().as_reference().unwrap(), parent_id);

    let parent = doc.get_dictionary(parent_id).unwrap();
    assert_eq!(parent.get(b"Title").unwrap().as_str().unwrap(), b"Parent");
    assert_eq!(parent.get(b"Count").unwrap().as_i64().unwrap(), -3);
    assert_eq!(parent.get(b"Parent").unwrap().as_reference().unwrap(), root_id);

    let c1 = parent.get(b"First").unwrap().as_reference().unwrap();
    let c3 = parent.get(b"Last").unwrap().as_reference().unwrap();

    let d1 = doc.get_dictionary(c1).unwrap();
    assert_eq!(d1.get(b"Title").unwrap().as_str().unwrap(), b"Child one");
    assert!(d1.get(b"Prev").is_err());
    let c2 = d1.get(b"Next").unwrap().as_reference().unwrap();

    let d2 = doc.get_dictionary(c2).unwrap();
    assert_eq!(d2.get(b"Title").unwrap().as_str().unwrap(), b"Child two");
    assert_eq!(d2.get(b"Prev").unwrap().as_reference().unwrap(), c1);
    assert_eq!(d2.get(b"Next").unwrap().as_reference().unwrap(), c3);

    let d3 = doc.get_dictionary(c3).unwrap();
    assert_eq!(d3.get(b"Title").unwrap().as_str().unwrap(), b"Child three");
    assert_eq!(d3.get(b"Prev").unwrap().as_reference().unwrap(), c2);
    assert!(d3.get(b"Next").is_err());
    for id in [c1, c2, c3] {
        let d = doc.get_dictionary(id).unwrap();
        assert_eq!(d.get(b"Parent").unwrap().as_reference().unwrap(), parent_id);
        assert!(d.get(b"First").is_err());
        assert!(d.get(b"Count").is_err());
    }
}

#[test]
fn destination_addresses_the_page_index() {
    let tree = vec![entry(7, "Late")];
    let (mut doc, catalog_id) = fresh_document();
    assert_eq!(insert_outline(&mut doc, &tree), Ok(()));

    let root_id = outlines_root_of(&doc, catalog_id);
    let node_id = doc
        .get_dictionary(root_id)
        .unwrap()
        .get(b"First")
        .unwrap()
        .as_reference()
        .unwrap();
    let dest = doc
        .get_dictionary(node_id)
        .unwrap()
        .get(b"Dest")
        .unwrap()
        .as_array()
        .unwrap();
    assert_eq!(dest.len(), 5);
    assert_eq!(dest[0].as_i64().unwrap(), 6);
    assert_eq!(dest[1].as_name().unwrap(), b"XYZ");
    assert!(dest[2].is_null());
    assert!(dest[3].is_null());
    assert!(dest[4].is_null());
}

#[test]
fn empty_outline_attaches_bare_root() {
    let (mut doc, catalog_id) = fresh_document();
    assert_eq!(insert_outline(&mut doc, &vec![]), Ok(()));
    let root_id = outlines_root_of(&doc, catalog_id);
    let root = doc.get_dictionary(root_id).unwrap();
    assert_eq!(root.get(b"Type").unwrap().as_name().unwrap(), b"Outlines");
    assert!(root.get(b"First").is_err());
    assert!(root.get(b"Last").is_err());
}

#[test]
fn insert_without_root_catalog_fails() {
    let mut doc = lopdf::Document::with_version("1.5");
    let r = insert_outline(&mut doc, &vec![entry(1, "A")]);
    assert!(r.is_err());
}

#[test]
fn nested_rendering_indents_children_and_prints_multidigit_pages() {
    let mut top = entry(10, "Top");
    top.children.push(entry(205, "Deep"));
    let text = render_outline(&vec![top]);
    assert_eq!(text, "Top  10\n Deep  205\n");
}
