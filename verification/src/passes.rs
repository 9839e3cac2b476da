//! The passes of the merge over one thing at a time: a page tree node, the
//! pages of a document, the bookmarks, the catalog.
use vstd::prelude::*;
use crate::codec::Bookmark;
use crate::codec::add_bookmark;
use crate::codec::as_dictionary;
use crate::codec::as_reference;
use crate::codec::dictionary_get;
use crate::codec::dictionary_keys;
use crate::codec::dictionary_object;
use crate::codec::dictionary_set;
use crate::codec::dictionary_type;
use crate::codec::entries_of;
use crate::codec::graph_of;
use crate::codec::insert_object;
use crate::codec::object_at;
use crate::codec::page_ids;
use crate::codec::page_list;
use crate::codec::reference_to;
use crate::codec::trailer_of;
use crate::codec::values_of;
use crate::keys::outlines_name;
use crate::keys::parent_key;
use crate::keys::role_for;
use crate::keys::root_key;
use crate::model::Entries;
use crate::model::Graph;
use crate::model::Mark;
use crate::model::ObjectId;
use crate::model::Role;
use crate::model::key_parent;
use crate::rules::BookmarkView;
use crate::rules::PageView;
use crate::rules::adopted;
use crate::rules::attached;
use crate::rules::folded;
use crate::rules::is_page;
use crate::rules::kids;
use crate::rules::mark_of;
use crate::rules::marks_upto;
use crate::rules::numbers_upto;
use crate::rules::page_records;
use crate::rules::page_records_upto;
use crate::rules::records_for;

verus! {

/// A page on its way into the merged page tree: its identity and its dictionary,
/// with the rank of its document among the inputs and its place among the pages
/// of that document.
pub struct PageRecord {
    pub id: ObjectId,
    pub dictionary: lopdf::Dictionary,
    pub rank: usize,
    pub position: usize,
}

impl View for PageRecord {
    type V = PageView;

    open spec fn view(&self) -> PageView {
        PageView {
            id: self.id,
            entries: entries_of(self.dictionary),
            rank: self.rank as nat,
            position: self.position as nat,
        }
    }
}

impl View for Bookmark {
    type V = BookmarkView;

    open spec fn view(&self) -> BookmarkView {
        BookmarkView { label: self.label@, color: self.color, level: self.level, target: self.target }
    }
}

/// The views of the records in `records`, in order.
pub open spec fn record_views(records: Seq<PageRecord>) -> Seq<PageView> {
    Seq::new(records.len(), |i: int| records[i]@)
}

/// The views of the bookmarks in `bookmarks`, in order.
pub open spec fn bookmark_views(bookmarks: Seq<Bookmark>) -> Seq<BookmarkView> {
    Seq::new(bookmarks.len(), |i: int| bookmarks[i]@)
}

/// The view of an identity with a dictionary.
pub open spec fn entry_view(entry: Option<(ObjectId, lopdf::Dictionary)>) -> Option<(ObjectId, Entries)> {
    match entry {
        Some((id, dictionary)) => Some((id, entries_of(dictionary))),
        None => None,
    }
}

/// Folds a later page tree node into the surviving one: every key that the
/// survivor lacks comes over with its value, and what the survivor has stays.
pub fn fold_into(survivor: &mut lopdf::Dictionary, later: &lopdf::Dictionary)
    ensures
        entries_of(*final(survivor)) == folded(entries_of(*old(survivor)), entries_of(*later)),
{
    let keys = dictionary_keys(later);
    let ghost kept = entries_of(*survivor);
    let ghost added = entries_of(*later);
    let mut i: usize = 0;
    while i < keys.len()
        invariant
            i <= keys.len(),
            kept == entries_of(*old(survivor)),
            added == entries_of(*later),
            forall|a: int| 0 <= a < keys@.len() ==> added.dom().contains((#[trigger] keys@[a])@),
            forall|key: Seq<u8>| #[trigger]
                added.dom().contains(key) ==> exists|a: int| 0 <= a < keys@.len() && (#[trigger] keys@[a])@ == key,
            forall|key: Seq<u8>| #[trigger]
                kept.dom().contains(key) ==> entries_of(*survivor).dom().contains(key),
            forall|a: int| 0 <= a < i ==> entries_of(*survivor).dom().contains((#[trigger] keys@[a])@),
            forall|key: Seq<u8>| #[trigger]
                entries_of(*survivor).dom().contains(key) ==> added.dom().contains(key) || kept.dom().contains(key),
            forall|key: Seq<u8>| #[trigger]
                entries_of(*survivor).dom().contains(key) ==> entries_of(*survivor)[key] == (if kept.dom().contains(
                    key,
                ) {
                    kept[key]
                } else {
                    added[key]
                }),
        decreases keys.len() - i,
    {
        let key = &keys[i];
        if dictionary_get(survivor, key).is_none() {
            let value = dictionary_get(later, key);
            assert(added.dom().contains(keys@[i as int]@));
            dictionary_set(survivor, key, value.unwrap());
        }
        i += 1;
    }
    proof {
        let result = entries_of(*survivor);
        let expected = folded(kept, added);
        assert forall|k: Seq<u8>| result.dom().contains(k) <==> expected.dom().contains(k) by {
            if added.dom().contains(k) {
                let a = choose|a: int| 0 <= a < keys@.len() && (#[trigger] keys@[a])@ == k;
                assert(result.dom().contains(keys@[a]@));
            }
        }
        assert(result =~= expected);
    }
}

/// The pages of a document, in the order of its page tree: the identities that
/// the page tree lists and that are dictionaries of type `Page`, each with its
/// dictionary, the given rank and its place.
pub fn collect_pages(doc: &lopdf::Document, rank: usize) -> (records: Vec<PageRecord>)
    ensures
        record_views(records@) == records_for(graph_of(*doc), rank as nat, page_records(graph_of(*doc))),
        records@.len() == page_records(graph_of(*doc)).len(),
        records@.len() <= graph_of(*doc).objects.len(),
{
    let ghost g = graph_of(*doc);
    let ids = page_list(doc);
    let mut records: Vec<PageRecord> = Vec::new();
    let mut i: usize = 0;
    assert(record_views(records@) =~= records_for(g, rank as nat, page_records_upto(g, 0)));
    while i < ids.len()
        invariant
            g == graph_of(*doc),
            ids@ == page_ids(g),
            i <= ids.len(),
            records@.len() <= i,
            records@.len() == page_records_upto(g, i as nat).len(),
            record_views(records@) == records_for(g, rank as nat, page_records_upto(g, i as nat)),
        decreases ids.len() - i,
    {
        let id = ids[i];
        let ghost before = records@;
        let ghost listed = page_records_upto(g, i as nat);
        let mut is_a_page = false;
        match object_at(doc, id) {
            Some(object) => {
                match as_dictionary(&object) {
                    Some(dictionary) => {
                        let name = dictionary_type(&dictionary);
                        if role_for(&name) == Role::Page {
                            let position = records.len();
                            records.push(PageRecord { id, dictionary, rank, position });
                            is_a_page = true;
                        }
                    },
                    None => {},
                }
            },
            None => {},
        }
        proof {
            assert(is_a_page == is_page(g, id));
            if is_a_page {
                assert(page_records_upto(g, (i + 1) as nat) == listed.push(id));
                let expected = records_for(g, rank as nat, listed.push(id));
                assert(records@ == before.push(records@[before.len() as int]));
                assert forall|j: int| 0 <= j < expected.len() implies record_views(records@)[j] == expected[j] by {
                    if j < before.len() {
                        assert(record_views(before)[j] == before[j]@);
                        assert(records_for(g, rank as nat, listed)[j] == expected[j]);
                    }
                }
                assert(record_views(records@) =~= expected);
            } else {
                assert(page_records_upto(g, (i + 1) as nat) == listed);
            }
        }
        i += 1;
    }
    records
}

/// Puts the pages into the merged document, each under its identity and with
/// `parent` as its parent, and returns references to them in order.
pub fn adopt_pages(doc: &mut lopdf::Document, records: Vec<PageRecord>, parent: ObjectId) -> (refs: Vec<
    lopdf::Object,
>)
    ensures
        graph_of(*final(doc)) == (Graph {
            objects: adopted(graph_of(*old(doc)).objects, record_views(records@), parent),
            ..graph_of(*old(doc))
        }),
        values_of(refs@) == kids(record_views(records@)),
{
    let ghost base = graph_of(*doc);
    let ghost views = record_views(records@);
    let mut refs: Vec<lopdf::Object> = Vec::new();
    let key = parent_key();
    assert(values_of(refs@) =~= kids(views.take(0)));
    for record in it: records
        invariant
            base == graph_of(*old(doc)),
            views == record_views(records@),
            key@ == key_parent(),
            graph_of(*doc) == (Graph { objects: adopted(base.objects, views.take(it.index() as int), parent), ..base }),
            values_of(refs@) == kids(views.take(it.index() as int)),
            refs@.len() == it.index(),
            it.index() <= views.len(),
    {
        let ghost n = it.index() as int;
        let ghost seen = views.take(n);
        let ghost view = record@;
        let PageRecord { id, dictionary, rank, position } = record;
        let mut dictionary = dictionary;
        dictionary_set(&mut dictionary, &key, reference_to(parent));
        insert_object(doc, id, dictionary_object(dictionary));
        let ghost earlier = refs@;
        refs.push(reference_to(id));
        proof {
            let next = views.take(n + 1);
            assert(0 <= n < views.len());
            assert(seen.len() == n && earlier.len() == n);
            assert(view == views[n]);
            assert(next.drop_last() =~= seen);
            assert(next.last() == view);
            assert forall|j: int| 0 <= j < next.len() implies values_of(refs@)[j] == kids(next)[j] by {
                if j < n {
                    assert(values_of(earlier)[j] == kids(seen)[j]);
                    assert(refs@[j] == earlier[j]);
                }
            }
            assert(values_of(refs@) =~= kids(next));
        }
    }
    proof {
        assert(views.take(views.len() as int) =~= views);
    }
    refs
}

/// Adds the bookmarks to the merged document, in order.
pub fn add_bookmarks(doc: &mut lopdf::Document, bookmarks: &Vec<Bookmark>)
    requires
        graph_of(*old(doc)).max_bookmark_id == 0,
        graph_of(*old(doc)).bookmarks == Seq::<u32>::empty(),
        graph_of(*old(doc)).bookmark_table == Map::<u32, Mark>::empty(),
        bookmarks@.len() < u32::MAX,
    ensures
        graph_of(*final(doc)) == (Graph {
            max_bookmark_id: bookmarks@.len() as u32,
            bookmarks: numbers_upto(bookmarks@.len()),
            bookmark_table: marks_upto(bookmark_views(bookmarks@), bookmarks@.len()),
            ..graph_of(*old(doc))
        }),
{
    let ghost base = graph_of(*doc);
    let ghost views = bookmark_views(bookmarks@);
    let mut i: usize = 0;
    proof {
        assert(numbers_upto(0) =~= Seq::<u32>::empty());
        assert(marks_upto(views, 0) =~= Map::<u32, Mark>::empty());
    }
    while i < bookmarks.len()
        invariant
            i <= bookmarks.len(),
            bookmarks@.len() < u32::MAX,
            base == graph_of(*old(doc)),
            views == bookmark_views(bookmarks@),
            graph_of(*doc) == (Graph {
                max_bookmark_id: i as u32,
                bookmarks: numbers_upto(i as nat),
                bookmark_table: marks_upto(views, i as nat),
                ..base
            }),
        decreases bookmarks.len() - i,
    {
        let id = add_bookmark(doc, &bookmarks[i]);
        proof {
            assert(views[i as int] == bookmarks@[i as int]@);
            assert(numbers_upto(i as nat).push(id) =~= numbers_upto((i + 1) as nat));
            assert(marks_upto(views, i as nat).insert(id, mark_of(views[i as int], id)) =~= marks_upto(
                views,
                (i + 1) as nat,
            ));
        }
        i += 1;
    }
}

/// Attaches an outline to the catalog that the trailer names, where it names a
/// dictionary of the document.
pub fn attach(doc: &mut lopdf::Document, outline: ObjectId)
    ensures
        graph_of(*final(doc)) == attached(graph_of(*old(doc)), outline),
{
    let trailer = trailer_of(doc);
    if let Some(root) = dictionary_get(&trailer, &root_key()) {
        if let Some(catalog) = as_reference(&root) {
            if let Some(object) = object_at(doc, catalog) {
                if let Some(dictionary) = as_dictionary(&object) {
                    let mut dictionary = dictionary;
                    dictionary_set(&mut dictionary, &outlines_name(), reference_to(outline));
                    insert_object(doc, catalog, dictionary_object(dictionary));
                }
            }
        }
    }
}

} // verus!
