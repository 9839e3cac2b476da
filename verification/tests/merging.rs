use lopdf::{Dictionary, Document, Object, ObjectId, Stream};
use pdfmerge::engine::{merge, merge_by_name, Merger};
use pdfmerge::rules::MergeError;

fn name(text: &str) -> Object {
    Object::Name(text.as_bytes().to_vec())
}

/// A document with a catalog, one page tree node and `pages` pages, each
/// tagged with `tag` and its number.
fn sample(tag: &str, pages: usize) -> Document {
    let mut doc = Document::with_version("1.4");
    let tree = doc.new_object_id();
    let mut kids = Vec::new();
    for number in 0..pages {
        let content = doc.add_object(Stream::new(Dictionary::new(), format!("{tag}{number}").into_bytes()));
        let mut page = Dictionary::new();
        page.set("Type", name("Page"));
        page.set("Parent", tree);
        page.set("Contents", content);
        page.set("Tag", Object::string_literal(format!("{tag}{number}")));
        kids.push(Object::Reference(doc.add_object(page)));
    }
    let mut node = Dictionary::new();
    node.set("Type", name("Pages"));
    node.set("Count", pages as i64);
    node.set("Kids", kids);
    node.set(format!("From{tag}"), Object::Boolean(true));
    doc.objects.insert(tree, Object::Dictionary(node));
    let mut catalog = Dictionary::new();
    catalog.set("Type", name("Catalog"));
    catalog.set("Pages", tree);
    catalog.set(format!("Root{tag}"), Object::Boolean(true));
    let root = doc.add_object(catalog);
    doc.trailer.set("Root", root);
    doc
}

fn tags(doc: &Document) -> Vec<String> {
    doc.get_pages()
        .into_values()
        .map(|id| {
            let page = doc.get_dictionary(id).unwrap();
            String::from_utf8(page.get(b"Tag").unwrap().as_str().unwrap().to_vec()).unwrap()
        })
        .collect()
}

fn typed(doc: &Document, kind: &[u8]) -> Vec<ObjectId> {
    doc.objects
        .iter()
        .filter(|(_, object)| object.as_dict().map(|d| d.has_type(kind)).unwrap_or(false))
        .map(|(id, _)| *id)
        .collect()
}

fn references(object: &Object, found: &mut Vec<ObjectId>) {
    match object {
        Object::Reference(id) => found.push(*id),
        Object::Array(items) => items.iter().for_each(|item| references(item, found)),
        Object::Dictionary(entries) => entries.iter().for_each(|(_, item)| references(item, found)),
        Object::Stream(stream) => stream.dict.iter().for_each(|(_, item)| references(item, found)),
        _ => {}
    }
}

fn tree_of(doc: &Document) -> &Dictionary {
    let tree = doc.catalog().unwrap().get(b"Pages").unwrap().as_reference().unwrap();
    doc.get_dictionary(tree).unwrap()
}

#[test]
fn two_documents_keep_their_page_order() {
    let merged = merge(vec![sample("A", 2), sample("B", 1)]).unwrap();
    assert_eq!(tags(&merged), vec!["A0", "A1", "B0"]);
}

#[test]
fn two_documents_give_two_bookmarks() {
    let merged = merge(vec![sample("A", 2), sample("B", 1)]).unwrap();
    let pages: Vec<ObjectId> = merged.get_pages().into_values().collect();
    assert_eq!(merged.bookmarks, vec![1, 2]);
    let first = &merged.bookmark_table[&1];
    let second = &merged.bookmark_table[&2];
    assert_eq!(first.title, "Page_1");
    assert_eq!(first.page, pages[0]);
    assert_eq!(second.title, "Page_2");
    assert_eq!(second.page, pages[2]);
    assert_eq!(first.color, [0.0, 0.0, 1.0]);
    assert_eq!(first.format, 0);
    assert!(first.children.is_empty());
}

#[test]
fn count_is_the_number_of_kids_and_of_pages() {
    let merged = merge(vec![sample("A", 2), sample("B", 1), sample("C", 4)]).unwrap();
    let tree = tree_of(&merged);
    assert_eq!(tree.get(b"Count").unwrap().as_i64().unwrap(), 7);
    assert_eq!(tree.get(b"Kids").unwrap().as_array().unwrap().len(), 7);
    assert_eq!(merged.get_pages().len(), 7);
}

#[test]
fn one_catalog_and_one_page_tree_node_survive() {
    let merged = merge(vec![sample("A", 2), sample("B", 1), sample("C", 3)]).unwrap();
    assert_eq!(typed(&merged, b"Catalog").len(), 1);
    assert_eq!(typed(&merged, b"Pages").len(), 1);
    assert_eq!(typed(&merged, b"Page").len(), 6);
}

#[test]
fn first_catalog_survives_as_it_is() {
    let merged = merge(vec![sample("A", 1), sample("B", 1)]).unwrap();
    let catalog = merged.catalog().unwrap();
    assert!(catalog.has(b"RootA"));
    assert!(!catalog.has(b"RootB"));
}

#[test]
fn later_page_tree_nodes_add_the_keys_that_the_first_lacks() {
    let merged = merge(vec![sample("A", 1), sample("B", 1)]).unwrap();
    let tree = tree_of(&merged);
    assert!(tree.has(b"FromA"));
    assert!(tree.has(b"FromB"));
    assert_eq!(tree.get(b"Type").unwrap().as_name().unwrap(), b"Pages");
}

#[test]
fn every_page_names_the_surviving_node_as_parent() {
    let merged = merge(vec![sample("A", 2), sample("B", 2)]).unwrap();
    let tree = merged.catalog().unwrap().get(b"Pages").unwrap().as_reference().unwrap();
    for id in merged.get_pages().into_values() {
        let page = merged.get_dictionary(id).unwrap();
        assert_eq!(page.get(b"Parent").unwrap().as_reference().unwrap(), tree);
    }
}

#[test]
fn every_reference_resolves() {
    let merged = merge(vec![sample("A", 2), sample("B", 1)]).unwrap();
    let mut found = Vec::new();
    merged.objects.values().for_each(|object| references(object, &mut found));
    merged.trailer.iter().for_each(|(_, object)| references(object, &mut found));
    assert!(!found.is_empty());
    for id in found {
        assert!(merged.objects.contains_key(&id), "{id:?} is not in the document");
    }
}

#[test]
fn objects_are_numbered_from_one_without_gaps() {
    let merged = merge(vec![sample("A", 2), sample("B", 1)]).unwrap();
    let numbers: Vec<u32> = merged.objects.keys().map(|id| id.0).collect();
    let expected: Vec<u32> = (1..=numbers.len() as u32).collect();
    assert_eq!(numbers, expected);
    assert_eq!(merged.max_id as usize, numbers.len());
}

#[test]
fn catalog_names_the_outline() {
    let merged = merge(vec![sample("A", 1)]).unwrap();
    let outline = merged.catalog().unwrap().get(b"Outlines").unwrap().as_reference().unwrap();
    let root = merged.get_dictionary(outline).unwrap();
    assert_eq!(root.get(b"Count").unwrap().as_i64().unwrap(), 1);
    let first = root.get(b"First").unwrap().as_reference().unwrap();
    let item = merged.get_dictionary(first).unwrap();
    assert_eq!(item.get(b"Title").unwrap().as_str().unwrap(), b"Page_1");
    assert_eq!(item.get(b"Parent").unwrap().as_reference().unwrap(), outline);
}

#[test]
fn outlines_of_the_inputs_are_dropped() {
    let mut input = sample("A", 1);
    let mut old = Dictionary::new();
    old.set("Type", name("Outlines"));
    old.set("Old", Object::Boolean(true));
    let old_id = input.add_object(old);
    let mut item = Dictionary::new();
    item.set("Type", name("Outline"));
    item.set("Old", Object::Boolean(true));
    input.add_object(item);
    let root = input.trailer.get(b"Root").unwrap().as_reference().unwrap();
    input.get_dictionary_mut(root).unwrap().set("Outlines", old_id);
    let merged = merge(vec![input]).unwrap();
    for object in merged.objects.values() {
        if let Ok(entries) = object.as_dict() {
            assert!(!entries.has(b"Old"));
        }
    }
}

#[test]
fn a_document_without_pages_gets_no_bookmark_and_no_number() {
    let merged = merge(vec![sample("A", 1), sample("B", 0), sample("C", 1)]).unwrap();
    assert_eq!(tags(&merged), vec!["A0", "C0"]);
    assert_eq!(merged.bookmarks.len(), 2);
    assert_eq!(merged.bookmark_table[&2].title, "Page_2");
    assert_eq!(merged.bookmark_table[&2].page, merged.get_pages()[&2]);
}

#[test]
fn without_a_page_there_is_no_outline() {
    let merged = merge(vec![sample("A", 0)]).unwrap();
    assert!(merged.bookmarks.is_empty());
    assert!(!merged.catalog().unwrap().has(b"Outlines"));
    assert_eq!(tree_of(&merged).get(b"Count").unwrap().as_i64().unwrap(), 0);
}

#[test]
fn merging_nothing_finds_no_page_tree_node() {
    assert_eq!(merge(Vec::new()).err(), Some(MergeError::MissingPages));
}

#[test]
fn without_a_catalog_the_merge_fails() {
    let mut input = sample("A", 1);
    let root = input.trailer.get(b"Root").unwrap().as_reference().unwrap();
    input.objects.remove(&root);
    assert_eq!(merge(vec![input, Document::with_version("1.4")]).err(), Some(MergeError::MissingCatalog));
}

#[test]
fn without_a_page_tree_node_the_merge_fails() {
    let mut input = Document::with_version("1.4");
    let mut catalog = Dictionary::new();
    catalog.set("Type", name("Catalog"));
    let root = input.add_object(catalog);
    input.trailer.set("Root", root);
    assert_eq!(merge(vec![input]).err(), Some(MergeError::MissingPages));
}

#[test]
fn without_either_the_page_tree_node_is_missed_first() {
    let mut input = Document::with_version("1.4");
    input.add_object(Object::Integer(7));
    assert_eq!(merge(vec![input]).err(), Some(MergeError::MissingPages));
}

#[test]
fn merging_the_merged_document_again_keeps_the_pages() {
    let once = merge(vec![sample("A", 2), sample("B", 1)]).unwrap();
    let before = tags(&once);
    let twice = merge(vec![once]).unwrap();
    assert_eq!(tags(&twice), before);
    assert_eq!(tree_of(&twice).get(b"Count").unwrap().as_i64().unwrap(), 3);
    assert_eq!(typed(&twice, b"Catalog").len(), 1);
    assert_eq!(typed(&twice, b"Pages").len(), 1);
}

#[test]
fn names_decide_the_order_whatever_the_arrival() {
    let one = merge_by_name(vec![
        (sample("B", 1), b"b.pdf".to_vec()),
        (sample("A", 2), b"a.pdf".to_vec()),
        (sample("C", 1), b"c.pdf".to_vec()),
    ]);
    let other = merge_by_name(vec![
        (sample("C", 1), b"c.pdf".to_vec()),
        (sample("A", 2), b"a.pdf".to_vec()),
        (sample("B", 1), b"b.pdf".to_vec()),
    ]);
    let one = one.unwrap().unwrap();
    let other = other.unwrap().unwrap();
    assert_eq!(tags(&one), vec!["A0", "A1", "B0", "C0"]);
    assert_eq!(tags(&other), tags(&one));
}

#[test]
fn nothing_to_merge_is_no_outcome() {
    assert!(merge_by_name(Vec::new()).is_none());
}

#[test]
fn merger_absorbs_step_by_step() {
    let mut merger = Merger::new();
    assert_eq!(merger.absorb(sample("A", 2)), Ok(()));
    assert_eq!(merger.absorb(sample("B", 1)), Ok(()));
    let merged = merger.finish().unwrap();
    assert_eq!(tags(&merged), vec!["A0", "A1", "B0"]);
}

#[test]
fn streams_are_copied() {
    let merged = merge(vec![sample("A", 2)]).unwrap();
    let contents: Vec<Vec<u8>> = merged
        .get_pages()
        .into_values()
        .map(|id| merged.get_page_content(id))
        .collect();
    assert_eq!(contents, vec![b"A0\n".to_vec(), b"A1\n".to_vec()]);
}

#[test]
fn bookmarks_of_the_inputs_are_dropped() {
    let mut input = sample("A", 2);
    let second = input.get_pages()[&2];
    let parent = input.add_bookmark(lopdf::Bookmark::new(String::from("Old"), [1.0, 0.0, 0.0], 0, second), None);
    input.add_bookmark(lopdf::Bookmark::new(String::from("Older"), [1.0, 0.0, 0.0], 0, second), Some(parent));
    let merged = merge(vec![input]).unwrap();
    assert_eq!(merged.bookmarks, vec![1]);
    assert_eq!(merged.bookmark_table.len(), 1);
    assert_eq!(merged.bookmark_table[&1].title, "Page_1");
    assert_eq!(merged.bookmark_table[&1].page, merged.get_pages()[&1]);
}

#[test]
fn the_earlier_name_comes_first_with_its_pages_and_its_bookmark() {
    let merged = merge_by_name(vec![(sample("B", 1), b"b.pdf".to_vec()), (sample("A", 2), b"a.pdf".to_vec())])
        .unwrap()
        .unwrap();
    assert_eq!(tags(&merged), vec!["A0", "A1", "B0"]);
    let pages: Vec<ObjectId> = merged.get_pages().into_values().collect();
    let kids: Vec<ObjectId> = tree_of(&merged)
        .get(b"Kids")
        .unwrap()
        .as_array()
        .unwrap()
        .iter()
        .map(|kid| kid.as_reference().unwrap())
        .collect();
    assert_eq!(kids, pages);
    assert_eq!(merged.bookmarks.len(), 2);
    assert_eq!(merged.bookmark_table[&1].title, "Page_1");
    assert_eq!(merged.bookmark_table[&1].page, pages[0]);
    assert_eq!(merged.bookmark_table[&2].title, "Page_2");
    assert_eq!(merged.bookmark_table[&2].page, pages[2]);
}

#[test]
fn a_page_that_is_listed_twice_is_counted_twice() {
    let mut input = sample("A", 2);
    let tree = input.catalog().unwrap().get(b"Pages").unwrap().as_reference().unwrap();
    let mut kids = input.get_dictionary(tree).unwrap().get(b"Kids").unwrap().as_array().unwrap().clone();
    kids.push(kids[0].clone());
    input.get_dictionary_mut(tree).unwrap().set("Kids", kids);
    let merged = merge(vec![input, sample("B", 1)]).unwrap();
    let node = tree_of(&merged);
    assert_eq!(node.get(b"Count").unwrap().as_i64().unwrap(), 4);
    assert_eq!(node.get(b"Kids").unwrap().as_array().unwrap().len(), 4);
    assert_eq!(tags(&merged).len(), 4);
    assert_eq!(tags(&merged)[3], "B0");
    assert_eq!(typed(&merged, b"Catalog").len(), 1);
    assert_eq!(typed(&merged, b"Pages").len(), 1);
}

#[test]
fn pages_in_a_nested_tree_come_in_tree_order() {
    let mut input = sample("A", 3);
    let tree = input.catalog().unwrap().get(b"Pages").unwrap().as_reference().unwrap();
    let kids = input.get_dictionary(tree).unwrap().get(b"Kids").unwrap().as_array().unwrap().clone();
    let mut inner = Dictionary::new();
    inner.set("Type", name("Pages"));
    inner.set("Parent", tree);
    inner.set("Kids", vec![kids[2].clone(), kids[1].clone()]);
    inner.set("Count", 2);
    inner.set("Inner", Object::Boolean(true));
    let inner = input.add_object(inner);
    input.get_dictionary_mut(tree).unwrap().set("Kids", vec![Object::Reference(inner), kids[0].clone()]);
    let merged = merge(vec![input]).unwrap();
    assert_eq!(tags(&merged), vec!["A2", "A1", "A0"]);
    let node = tree_of(&merged);
    assert_eq!(node.get(b"Count").unwrap().as_i64().unwrap(), 3);
    assert_eq!(node.get(b"Kids").unwrap().as_array().unwrap().len(), 3);
    assert_eq!(typed(&merged, b"Pages").len(), 1);
    assert!(node.has(b"Inner"));
    assert!(node.has(b"FromA"));
}
