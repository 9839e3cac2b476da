use lopdf::{Dictionary, Document, Object, Stream};
use pdfmerge::codec::Bookmark;
use pdfmerge::engine::{merge, Merger};
use pdfmerge::passes::{add_bookmarks, adopt_pages, attach, collect_pages, fold_into, PageRecord};
use pdfmerge::rules::MergeError;

fn name(text: &str) -> Object {
    Object::Name(text.as_bytes().to_vec())
}

fn typed(kind: &str) -> Dictionary {
    let mut entries = Dictionary::new();
    entries.set("Type", name(kind));
    entries
}

/// A document with a catalog, one page tree node and `pages` pages.
fn sample(pages: usize) -> Document {
    let mut doc = Document::with_version("1.4");
    let tree = doc.new_object_id();
    let mut kids = Vec::new();
    for number in 0..pages {
        let mut page = typed("Page");
        page.set("Parent", tree);
        page.set("Number", number as i64);
        kids.push(Object::Reference(doc.add_object(page)));
    }
    let mut node = typed("Pages");
    node.set("Count", pages as i64);
    node.set("Kids", kids);
    doc.objects.insert(tree, Object::Dictionary(node));
    let mut catalog = typed("Catalog");
    catalog.set("Pages", tree);
    let root = doc.add_object(catalog);
    doc.trailer.set("Root", root);
    doc
}

#[test]
fn folding_adds_what_the_survivor_lacks() {
    let mut survivor = Dictionary::new();
    survivor.set("A", Object::Integer(1));
    survivor.set("B", Object::Integer(2));
    let mut later = Dictionary::new();
    later.set("B", Object::Integer(20));
    later.set("C", Object::Integer(30));
    fold_into(&mut survivor, &later);
    assert_eq!(survivor.len(), 3);
    assert_eq!(survivor.get(b"A").unwrap().as_i64().unwrap(), 1);
    assert_eq!(survivor.get(b"B").unwrap().as_i64().unwrap(), 2);
    assert_eq!(survivor.get(b"C").unwrap().as_i64().unwrap(), 30);
}

#[test]
fn folding_keeps_the_first_value_whatever_its_kind() {
    let mut survivor = Dictionary::new();
    survivor.set("Box", vec![Object::Integer(0), Object::Integer(1)]);
    survivor.set("Resources", typed("First"));
    let mut later = Dictionary::new();
    later.set("Box", vec![Object::Integer(2), Object::Integer(3)]);
    later.set("Resources", typed("Second"));
    fold_into(&mut survivor, &later);
    assert_eq!(survivor.get(b"Box").unwrap().as_array().unwrap().len(), 2);
    assert!(survivor.get(b"Resources").unwrap().as_dict().unwrap().has_type(b"First"));
}

#[test]
fn folding_an_empty_node_changes_nothing() {
    let mut survivor = typed("Pages");
    let before = survivor.clone();
    fold_into(&mut survivor, &Dictionary::new());
    assert_eq!(survivor, before);
}

#[test]
fn pages_are_collected_in_tree_order() {
    let mut doc = sample(3);
    let ids: Vec<_> = doc.get_pages().into_values().collect();
    let tree = doc.catalog().unwrap().get(b"Pages").unwrap().as_reference().unwrap();
    let reversed: Vec<Object> = ids.iter().rev().map(|id| Object::Reference(*id)).collect();
    doc.get_dictionary_mut(tree).unwrap().set("Kids", reversed);
    let records = collect_pages(&doc, 4);
    let found: Vec<_> = records.iter().map(|r| r.id).collect();
    let expected: Vec<_> = ids.iter().rev().copied().collect();
    assert_eq!(found, expected);
    for (place, record) in records.iter().enumerate() {
        assert_eq!(record.rank, 4);
        assert_eq!(record.position, place);
        assert!(record.dictionary.has_type(b"Page"));
        assert_eq!(&record.dictionary, doc.get_dictionary(record.id).unwrap());
    }
}

#[test]
fn what_is_no_page_dictionary_is_no_page() {
    let mut doc = sample(2);
    let tree = doc.catalog().unwrap().get(b"Pages").unwrap().as_reference().unwrap();
    let stray = doc.add_object(Object::Integer(5));
    let mut kids = doc.get_dictionary(tree).unwrap().get(b"Kids").unwrap().as_array().unwrap().clone();
    kids.insert(1, Object::Reference(stray));
    kids.push(Object::Reference((9000, 0)));
    doc.get_dictionary_mut(tree).unwrap().set("Kids", kids);
    let records = collect_pages(&doc, 0);
    assert_eq!(records.len(), 2);
    assert_eq!(records[1].position, 1);
}

#[test]
fn a_document_without_a_page_tree_has_no_pages() {
    let mut doc = Document::with_version("1.4");
    doc.add_object(typed("Page"));
    assert!(collect_pages(&doc, 0).is_empty());
}

#[test]
fn adopted_pages_name_their_parent() {
    let mut doc = Document::with_version("1.5");
    doc.objects.insert((9, 0), Object::Integer(1));
    let mut first = typed("Page");
    first.set("Parent", (77, 0));
    let records = vec![
        PageRecord { id: (3, 0), dictionary: first, rank: 0, position: 0 },
        PageRecord { id: (5, 1), dictionary: typed("Page"), rank: 1, position: 0 },
    ];
    let refs = adopt_pages(&mut doc, records, (12, 0));
    assert_eq!(refs, vec![Object::Reference((3, 0)), Object::Reference((5, 1))]);
    assert_eq!(doc.objects.len(), 3);
    for id in [(3, 0), (5, 1)] {
        let page = doc.get_dictionary(id).unwrap();
        assert_eq!(page.get(b"Parent").unwrap().as_reference().unwrap(), (12, 0));
        assert!(page.has_type(b"Page"));
    }
    assert_eq!(doc.objects[&(9, 0)], Object::Integer(1));
}

#[test]
fn bookmarks_are_added_in_order() {
    let mut doc = Document::with_version("1.5");
    let bookmarks = vec![
        Bookmark { label: String::from("Page_1"), color: (0, 0, 1), level: 0, target: (4, 0) },
        Bookmark { label: String::from("Page_2"), color: (1, 0, 0), level: 2, target: (8, 0) },
    ];
    add_bookmarks(&mut doc, &bookmarks);
    assert_eq!(doc.bookmarks, vec![1, 2]);
    assert_eq!(doc.max_bookmark_id, 2);
    assert_eq!(doc.bookmark_table[&1].title, "Page_1");
    assert_eq!(doc.bookmark_table[&1].page, (4, 0));
    assert_eq!(doc.bookmark_table[&1].color, [0.0, 0.0, 1.0]);
    assert_eq!(doc.bookmark_table[&1].id, 1);
    assert_eq!(doc.bookmark_table[&2].title, "Page_2");
    assert_eq!(doc.bookmark_table[&2].page, (8, 0));
    assert_eq!(doc.bookmark_table[&2].color, [1.0, 0.0, 0.0]);
    assert_eq!(doc.bookmark_table[&2].format, 2);
    assert_eq!(doc.bookmark_table[&2].id, 2);
}

#[test]
fn an_outline_is_attached_to_the_catalog_that_the_trailer_names() {
    let mut doc = sample(1);
    let root = doc.trailer.get(b"Root").unwrap().as_reference().unwrap();
    attach(&mut doc, (40, 0));
    let catalog = doc.get_dictionary(root).unwrap();
    assert_eq!(catalog.get(b"Outlines").unwrap().as_reference().unwrap(), (40, 0));
    assert!(catalog.has_type(b"Catalog"));
}

#[test]
fn without_a_catalog_nothing_is_attached() {
    let mut doc = Document::with_version("1.5");
    doc.add_object(typed("Catalog"));
    let before = doc.objects.clone();
    attach(&mut doc, (40, 0));
    assert_eq!(doc.objects, before);
    doc.trailer.set("Root", Object::Integer(1));
    attach(&mut doc, (40, 0));
    assert_eq!(doc.objects, before);
    doc.trailer.set("Root", (99, 0));
    attach(&mut doc, (40, 0));
    assert_eq!(doc.objects, before);
}

#[test]
fn inputs_are_numbered_one_after_the_other() {
    let mut merger = Merger::new();
    assert_eq!(merger.offset(), 1);
    assert_eq!(merger.absorbed_count(), 0);
    assert_eq!(merger.absorb(sample(2)), Ok(()));
    assert_eq!(merger.offset(), 5);
    assert_eq!(merger.absorb(Document::with_version("1.4")), Ok(()));
    assert_eq!(merger.offset(), 5);
    assert_eq!(merger.absorb(sample(1)), Ok(()));
    assert_eq!(merger.offset(), 8);
    assert_eq!(merger.absorbed_count(), 3);
    let ranks: Vec<usize> = merger.records().iter().map(|r| r.rank).collect();
    let places: Vec<usize> = merger.records().iter().map(|r| r.position).collect();
    assert_eq!(ranks, vec![0, 0, 2]);
    assert_eq!(places, vec![0, 1, 0]);
    for record in merger.records() {
        assert!(record.id.0 < merger.offset());
    }
    let numbers: Vec<u32> = merger.records().iter().map(|r| r.id.0).collect();
    assert!(numbers[0] < 5 && numbers[1] < 5 && numbers[2] >= 5);
}

#[test]
fn the_first_catalog_and_the_first_node_survive() {
    let mut merger = Merger::new();
    assert_eq!(merger.catalog_id(), None);
    assert_eq!(merger.pages_id(), None);
    merger.absorb(sample(1)).unwrap();
    let catalog = merger.catalog_id();
    let pages = merger.pages_id();
    assert!(catalog.is_some() && pages.is_some());
    assert!(catalog != pages);
    merger.absorb(sample(1)).unwrap();
    assert_eq!(merger.catalog_id(), catalog);
    assert_eq!(merger.pages_id(), pages);
}

#[test]
fn each_document_with_a_page_gets_a_bookmark_to_its_first_page() {
    let mut merger = Merger::new();
    merger.absorb(sample(2)).unwrap();
    merger.absorb(sample(0)).unwrap();
    merger.absorb(sample(1)).unwrap();
    let labels: Vec<&str> = merger.bookmarks().iter().map(|b| b.label.as_str()).collect();
    assert_eq!(labels, vec!["Page_1", "Page_2"]);
    assert_eq!(merger.bookmarks()[0].target, merger.records()[0].id);
    assert_eq!(merger.bookmarks()[1].target, merger.records()[2].id);
    for bookmark in merger.bookmarks() {
        assert_eq!(bookmark.color, (0, 0, 1));
        assert_eq!(bookmark.level, 0);
    }
}

#[test]
fn the_assembled_document_counts_and_lists_its_pages() {
    let mut merger = Merger::new();
    merger.absorb(sample(2)).unwrap();
    merger.absorb(sample(3)).unwrap();
    let pages = merger.pages_id().unwrap();
    let catalog = merger.catalog_id().unwrap();
    let ids: Vec<_> = merger.records().iter().map(|r| r.id).collect();
    let doc = merger.assemble().unwrap();
    let node = doc.get_dictionary(pages).unwrap();
    assert_eq!(node.get(b"Count").unwrap().as_i64().unwrap(), 5);
    let kids: Vec<_> = node
        .get(b"Kids")
        .unwrap()
        .as_array()
        .unwrap()
        .iter()
        .map(|kid| kid.as_reference().unwrap())
        .collect();
    assert_eq!(kids, ids);
    assert_eq!(doc.trailer.get(b"Root").unwrap().as_reference().unwrap(), catalog);
    assert_eq!(doc.get_dictionary(catalog).unwrap().get(b"Pages").unwrap().as_reference().unwrap(), pages);
    assert_eq!(doc.max_id as usize, doc.objects.len());
    assert_eq!(doc.version, "1.5");
    assert_eq!(doc.bookmarks, vec![1, 2]);
    let catalogs = doc.objects.values().filter(|o| o.as_dict().map(|d| d.has_type(b"Catalog")).unwrap_or(false));
    let nodes = doc.objects.values().filter(|o| o.as_dict().map(|d| d.has_type(b"Pages")).unwrap_or(false));
    assert_eq!(catalogs.count(), 1);
    assert_eq!(nodes.count(), 1);
}

#[test]
fn the_catalog_loses_the_outline_of_its_input() {
    let mut input = sample(0);
    let root = input.trailer.get(b"Root").unwrap().as_reference().unwrap();
    input.get_dictionary_mut(root).unwrap().set("Outlines", (50, 0));
    let mut merger = Merger::new();
    merger.absorb(input).unwrap();
    let catalog = merger.catalog_id().unwrap();
    let doc = merger.assemble().unwrap();
    assert!(!doc.get_dictionary(catalog).unwrap().has(b"Outlines"));
}

#[test]
fn streams_of_a_structural_type_are_passed_over() {
    let mut input = sample(1);
    input.add_object(Stream::new(typed("Catalog"), b"c".to_vec()));
    input.add_object(Stream::new(typed("Pages"), b"p".to_vec()));
    input.add_object(Stream::new(typed("Outlines"), b"o".to_vec()));
    input.add_object(Stream::new(typed("XObject"), b"x".to_vec()));
    let merged = merge(vec![input]).unwrap();
    let streams: Vec<&Stream> = merged.objects.values().filter_map(|o| o.as_stream().ok()).collect();
    assert_eq!(streams.len(), 1);
    assert!(streams[0].dict.has_type(b"XObject"));
}

#[test]
fn objects_without_a_role_are_copied() {
    let mut input = sample(1);
    input.add_object(Object::Integer(41));
    input.add_object(Object::string_literal("text"));
    input.add_object(typed("Font"));
    let mut odd = Dictionary::new();
    odd.set("Type", Object::Integer(3));
    odd.set("Linearized", Object::Integer(1));
    input.add_object(odd);
    let merged = merge(vec![input]).unwrap();
    assert!(merged.objects.values().any(|o| *o == Object::Integer(41)));
    assert!(merged.objects.values().any(|o| *o == Object::string_literal("text")));
    assert!(merged.objects.values().any(|o| o.as_dict().map(|d| d.has_type(b"Font")).unwrap_or(false)));
    assert!(merged.objects.values().any(|o| o.as_dict().map(|d| d.has(b"Linearized")).unwrap_or(false)));
}

#[test]
fn references_follow_the_renumbering() {
    let mut input = sample(1);
    let font = input.add_object(typed("Font"));
    let page = input.get_pages()[&1];
    input.get_dictionary_mut(page).unwrap().set("Font", font);
    let merged = merge(vec![sample(3), input]).unwrap();
    let last = merged.get_pages()[&4];
    let target = merged.get_dictionary(last).unwrap().get(b"Font").unwrap().as_reference().unwrap();
    assert!(merged.get_dictionary(target).unwrap().has_type(b"Font"));
}

#[test]
fn long_streams_are_compressed() {
    let mut input = sample(1);
    let plain = vec![b'a'; 4000];
    let id = input.add_object(Stream::new(typed("XObject"), plain.clone()));
    let page = input.get_pages()[&1];
    input.get_dictionary_mut(page).unwrap().set("Image", id);
    let merged = merge(vec![input]).unwrap();
    let page = merged.get_pages()[&1];
    let id = merged.get_dictionary(page).unwrap().get(b"Image").unwrap().as_reference().unwrap();
    let stream = merged.get_object(id).unwrap().as_stream().unwrap();
    assert_eq!(stream.dict.get(b"Filter").unwrap().as_name().unwrap(), b"FlateDecode");
    assert!(stream.content.len() < plain.len());
    assert_eq!(stream.decompressed_content().unwrap(), plain);
}

#[test]
fn the_merged_document_has_its_version() {
    let merged = merge(vec![sample(1)]).unwrap();
    assert_eq!(merged.version, "1.5");
}

#[test]
fn there_is_no_merge_from_number_zero() {
    assert!(Merger::starting_at(0).is_none());
    assert_eq!(Merger::starting_at(1).unwrap().offset(), 1);
    assert_eq!(Merger::starting_at(70).unwrap().offset(), 70);
}

#[test]
fn a_merge_can_start_at_a_later_number() {
    let mut merger = Merger::starting_at(100).unwrap();
    merger.absorb(sample(1)).unwrap();
    assert_eq!(merger.offset(), 103);
    for record in merger.records() {
        assert!(record.id.0 >= 100 && record.id.0 < 103);
    }
    let merged = merger.finish().unwrap();
    assert_eq!(merged.get_pages().len(), 1);
    // A page, the node and the catalog, then the outline root, one item and its action.
    assert_eq!(merged.max_id, 6);
    assert_eq!(merged.objects.len(), 6);
}

#[test]
fn an_input_that_needs_too_many_numbers_is_not_absorbed() {
    let mut merger = Merger::starting_at(u32::MAX - 2).unwrap();
    assert_eq!(merger.absorb(sample(1)), Err(MergeError::IdSpaceExhausted));
    assert_eq!(merger.offset(), u32::MAX - 2);
    assert_eq!(merger.absorbed_count(), 0);
    assert!(merger.records().is_empty());
    assert!(merger.bookmarks().is_empty());
    assert_eq!(merger.catalog_id(), None);
    assert_eq!(merger.finish().err(), Some(MergeError::MissingPages));
}

#[test]
fn an_input_that_just_fits_is_absorbed() {
    let mut merger = Merger::starting_at(u32::MAX - 3).unwrap();
    assert_eq!(merger.absorb(sample(1)), Ok(()));
    assert_eq!(merger.offset(), u32::MAX);
    assert_eq!(merger.absorb(Document::with_version("1.4")), Ok(()));
    assert_eq!(merger.absorb(sample(0)), Err(MergeError::IdSpaceExhausted));
    let merged = merger.finish().unwrap();
    assert_eq!(merged.get_pages().len(), 1);
}
