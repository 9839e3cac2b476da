//! The merge engine: it absorbs the inputs one by one and makes one document of them.
use vstd::prelude::*;
use crate::codec::Bookmark;
use crate::codec::adjust_zero_pages;
use crate::codec::array;
use crate::codec::as_dictionary;
use crate::codec::build_outline;
use crate::codec::compress;
use crate::codec::dictionary_object;
use crate::codec::dictionary_remove;
use crate::codec::dictionary_set;
use crate::codec::dictionary_type;
use crate::codec::documents_of;
use crate::codec::empty_graph;
use crate::codec::entries_of;
use crate::codec::flat_bookmarks;
use crate::codec::forget_bookmarks;
use crate::codec::graph_of;
use crate::codec::graphs_of;
use crate::codec::insert_object;
use crate::codec::integer;
use crate::codec::max_id;
use crate::codec::moved;
use crate::codec::new_document;
use crate::codec::object_at;
use crate::codec::object_ids;
use crate::codec::page_ids;
use crate::codec::reference_to;
use crate::codec::renumber_from;
use crate::codec::replace_trailer;
use crate::codec::set_max_id;
use crate::codec::stream_dictionary;
use crate::codec::trailer_of;
use crate::codec::value_of;
use crate::keys::count_key;
use crate::keys::kids_key;
use crate::keys::outlines_name;
use crate::keys::pages_name;
use crate::keys::role_for;
use crate::keys::root_key;
use crate::label::page_label;
use crate::laws::copies_survive;
use crate::laws::counts_and_lists;
use crate::laws::lemma_assembled;
use crate::laws::lemma_assembled_tidy;
use crate::laws::lemma_attached_tidy;
use crate::laws::lemma_compressed_tidy;
use crate::laws::lemma_extended_tidy;
use crate::laws::lemma_missing;
use crate::laws::lemma_moved_tidy;
use crate::laws::lemma_moved_whole;
use crate::laws::lemma_pages_in_input_order;
use crate::laws::numbered_apart;
use crate::laws::one_catalog_one_tree;
use crate::laws::page_total;
use crate::laws::some_input_holds;
use crate::laws::staged;
use crate::laws::tidy;
use crate::laws::whole;
use crate::laws::written_references_resolve;
use crate::model::Graph;
use crate::model::ObjectId;
use crate::model::Role;
use crate::model::Value;
use crate::model::ascending_keys;
use crate::model::lemma_ascending_keys;
use crate::model::lemma_keys_count;
use crate::model::lists_keys;
use crate::model::role;
use crate::names::lemma_ordered;
use crate::names::ordered;
use crate::names::sort_by_name;
use crate::passes::PageRecord;
use crate::passes::add_bookmarks;
use crate::passes::adopt_pages;
use crate::passes::attach;
use crate::passes::bookmark_views;
use crate::passes::collect_pages;
use crate::passes::entry_view;
use crate::passes::fold_into;
use crate::passes::record_views;
use crate::rules::MergeError;
use crate::rules::Progress;
use crate::rules::absorbed;
use crate::rules::absorbed_upto;
use crate::rules::assembled;
use crate::rules::assembled_objects;
use crate::rules::assembly;
use crate::rules::bookmark_for;
use crate::rules::bookmarks_after;
use crate::rules::coherent;
use crate::rules::final_catalog;
use crate::rules::finished;
use crate::rules::fits;
use crate::rules::is_page;
use crate::rules::lemma_exhausted_stays;
use crate::rules::lemma_folded_role;
use crate::rules::lemma_page_records_are_pages;
use crate::rules::lemma_sorting_keeps;
use crate::rules::merged;
use crate::rules::merged_version;
use crate::rules::normalized;
use crate::rules::nothing_lost;
use crate::rules::outline_fits;
use crate::rules::page_records;
use crate::rules::page_tree;
use crate::rules::recorded;
use crate::rules::records_for;
use crate::rules::sort_object;
use crate::rules::sort_objects;
use crate::rules::start;
use crate::rules::start_at;
use crate::rules::taken_in;
use crate::rules::with_outline;

verus! {

/// The graph of the pool: a fresh document of the merged version that holds `objects`.
pub open spec fn pool_graph(objects: Map<ObjectId, Value>) -> Graph {
    Graph { objects, ..empty_graph(merged_version()) }
}

/// A merge in progress: what the engine has made of the inputs that it absorbed.
pub struct Merger {
    offset: u32,
    rank: usize,
    bookmarks: Vec<Bookmark>,
    records: Vec<PageRecord>,
    catalog: Option<(ObjectId, lopdf::Dictionary)>,
    pages: Option<(ObjectId, lopdf::Dictionary)>,
    pool: lopdf::Document,
    seen: Ghost<Map<ObjectId, Value>>,
}

impl View for Merger {
    type V = Progress;

    closed spec fn view(&self) -> Progress {
        Progress {
            offset: self.offset,
            rank: self.rank as nat,
            bookmarks: bookmark_views(self.bookmarks@),
            records: record_views(self.records@),
            catalog: entry_view(self.catalog),
            pages: entry_view(self.pages),
            pool: graph_of(self.pool).objects,
        }
    }
}

impl Merger {
    /// The objects of the inputs that were absorbed, as the codec renumbered
    /// them: no two of them under one identity.
    pub closed spec fn seen(&self) -> Map<ObjectId, Value> {
        self.seen@
    }

    /// Every identity that was seen lies below the offset, and what the merge
    /// keeps is what was seen under the same identity: the copied objects, the
    /// pages and the catalog as they were, and the page tree node as such.
    closed spec fn known(&self) -> bool {
        &&& forall|id: ObjectId| #[trigger] self.seen@.dom().contains(id) ==> id.0 < self.offset
        &&& forall|id: ObjectId| #[trigger]
            graph_of(self.pool).objects.dom().contains(id) ==> {
                &&& self.seen@.dom().contains(id)
                &&& self.seen@[id] == graph_of(self.pool).objects[id]
                &&& role(self.seen@[id]) == Role::Other
            }
        &&& self.catalog matches Some(kept) ==> {
            &&& self.seen@.dom().contains(kept.0)
            &&& self.seen@[kept.0] == Value::Dictionary(entries_of(kept.1))
            &&& role(self.seen@[kept.0]) == Role::Catalog
        }
        &&& self.pages matches Some(kept) ==> {
            &&& self.seen@.dom().contains(kept.0)
            &&& role(self.seen@[kept.0]) == Role::Pages
            &&& role(Value::Dictionary(entries_of(kept.1))) == Role::Pages
        }
        &&& forall|i: int|
            0 <= i < self.records@.len() ==> {
                &&& self.seen@.dom().contains((#[trigger] self.records@[i]).id)
                &&& self.seen@[self.records@[i].id] == Value::Dictionary(entries_of(self.records@[i].dictionary))
                &&& role(self.seen@[self.records@[i].id]) == Role::Page
            }
    }

    /// What holds of a merge in progress: the offset is a number that the codec
    /// can give, there are fewer pages and fewer bookmarks than the offset, the
    /// pool is a fresh document but for its objects, and what the merge keeps
    /// is what it has seen.
    pub closed spec fn wf(&self) -> bool {
        &&& self.offset >= 1
        &&& self.records@.len() < self.offset
        &&& self.bookmarks@.len() < self.offset
        &&& graph_of(self.pool) == pool_graph(graph_of(self.pool).objects)
        &&& self.known()
    }

    /// The state of a merge in progress is coherent.
    pub proof fn lemma_coherent(&self)
        requires
            self.wf(),
        ensures
            coherent(self@),
    {
        let p = self@;
        assert forall|i: int| 0 <= i < p.records.len() implies {
            &&& role(Value::Dictionary((#[trigger] p.records[i]).entries)) == Role::Page
            &&& !p.pool.dom().contains(p.records[i].id)
        } by {
            assert(p.records[i] == self.records@[i]@);
        }
        if let Some(kept) = p.catalog {
            assert forall|i: int| 0 <= i < p.records.len() implies (#[trigger] p.records[i]).id != kept.0 by {
                assert(p.records[i] == self.records@[i]@);
            }
        }
        if let Some(kept) = p.pages {
            assert forall|i: int| 0 <= i < p.records.len() implies (#[trigger] p.records[i]).id != kept.0 by {
                assert(p.records[i] == self.records@[i]@);
            }
        }
    }

    /// A merge that has absorbed nothing.
    pub fn new() -> (merger: Merger)
        ensures
            merger.wf(),
            merger@ == start(),
            merger.seen() == Map::<ObjectId, Value>::empty(),
    {
        Merger::fresh(1)
    }

    /// A merge that has absorbed nothing and gives the objects of its first
    /// input the numbers from `offset` on. There is none for 0, which is no
    /// object number.
    pub fn starting_at(offset: u32) -> (made: Option<Merger>)
        ensures
            made is None <==> offset == 0,
            made matches Some(merger) ==> {
                &&& merger.wf()
                &&& merger@ == start_at(offset)
                &&& merger.seen() == Map::<ObjectId, Value>::empty()
            },
    {
        if offset == 0 {
            None
        } else {
            Some(Merger::fresh(offset))
        }
    }

    fn fresh(offset: u32) -> (merger: Merger)
        requires
            offset >= 1,
        ensures
            merger.wf(),
            merger@ == start_at(offset),
            merger.seen() == Map::<ObjectId, Value>::empty(),
    {
        let merger = Merger {
            offset,
            rank: 0,
            bookmarks: Vec::new(),
            records: Vec::new(),
            catalog: None,
            pages: None,
            pool: new_document("1.5"),
            seen: Ghost(Map::empty()),
        };
        proof {
            assert(bookmark_views(merger.bookmarks@) =~= Seq::empty());
            assert(record_views(merger.records@) =~= Seq::empty());
            assert(graph_of(merger.pool).objects =~= Map::empty());
        }
        merger
    }

    /// The number that the objects of the next input start at.
    pub fn offset(&self) -> (n: u32)
        ensures
            n == self@.offset,
    {
        self.offset
    }

    /// How many inputs were absorbed.
    pub fn absorbed_count(&self) -> (n: usize)
        ensures
            n == self@.rank,
    {
        self.rank
    }

    /// The pages that were recorded, in merge order.
    pub fn records(&self) -> (records: &Vec<PageRecord>)
        ensures
            record_views(records@) == self@.records,
    {
        &self.records
    }

    /// The bookmarks that were emitted, in order.
    pub fn bookmarks(&self) -> (bookmarks: &Vec<Bookmark>)
        ensures
            bookmark_views(bookmarks@) == self@.bookmarks,
    {
        &self.bookmarks
    }

    /// The identity of the surviving catalog, if one was met.
    pub fn catalog_id(&self) -> (id: Option<ObjectId>)
        ensures
            id is Some <==> self@.catalog is Some,
            id is Some ==> id->Some_0 == self@.catalog->Some_0.0,
    {
        match &self.catalog {
            Some(kept) => Some(kept.0),
            None => None,
        }
    }

    /// The identity of the surviving page tree node, if one was met.
    pub fn pages_id(&self) -> (id: Option<ObjectId>)
        ensures
            id is Some <==> self@.pages is Some,
            id is Some ==> id->Some_0 == self@.pages->Some_0.0,
    {
        match &self.pages {
            Some(kept) => Some(kept.0),
            None => None,
        }
    }

    /// Sorts one object of an input by its role.
    fn sort_one(&mut self, id: ObjectId, object: lopdf::Object)
        requires
            old(self).wf(),
            old(self).seen@.dom().contains(id),
            old(self).seen@[id] == value_of(object),
        ensures
            final(self).wf(),
            final(self).seen@ == old(self).seen@,
            final(self)@ == sort_object(old(self)@, id, value_of(object)),
    {
        let found = as_dictionary(&object);
        match found {
            Some(dictionary) => {
                let name = dictionary_type(&dictionary);
                match role_for(&name) {
                    Role::Other => {
                        insert_object(&mut self.pool, id, object);
                    },
                    Role::Page | Role::Outline => {},
                    Role::Catalog => {
                        if self.catalog.is_none() {
                            self.catalog = Some((id, dictionary));
                        }
                    },
                    Role::Pages => {
                        let current = self.pages.take();
                        match current {
                            None => {
                                self.pages = Some((id, dictionary));
                            },
                            Some((survivor, kept)) => {
                                let mut kept = kept;
                                proof {
                                    lemma_folded_role(entries_of(kept), entries_of(dictionary));
                                }
                                fold_into(&mut kept, &dictionary);
                                self.pages = Some((survivor, kept));
                            },
                        }
                    },
                }
            },
            None => {
                let inner = stream_dictionary(&object);
                let r = match inner {
                    Some(dictionary) => {
                        let name = dictionary_type(&dictionary);
                        role_for(&name)
                    },
                    None => Role::Other,
                };
                assert(r == role(value_of(object)));
                if r == Role::Other {
                    insert_object(&mut self.pool, id, object);
                }
            },
        }
    }

    /// Sorts the objects of an input, in ascending order of identity.
    fn sort(&mut self, doc: &lopdf::Document)
        requires
            old(self).wf(),
            forall|id: ObjectId| #[trigger]
                graph_of(*doc).objects.dom().contains(id) ==> old(self).seen@.dom().contains(id) && old(
                    self,
                ).seen@[id] == graph_of(*doc).objects[id],
        ensures
            final(self).wf(),
            final(self).seen@ == old(self).seen@,
            final(self)@ == sort_objects(
                old(self)@,
                graph_of(*doc).objects,
                ascending_keys(graph_of(*doc).objects),
            ),
    {
        let ghost objects = graph_of(*doc).objects;
        let ids = object_ids(doc);
        let mut i: usize = 0;
        while i < ids.len()
            invariant
                i <= ids.len(),
                objects == graph_of(*doc).objects,
                lists_keys(ids@, objects),
                self.wf(),
                self.seen@ == old(self).seen@,
                forall|id: ObjectId| #[trigger]
                    objects.dom().contains(id) ==> self.seen@.dom().contains(id) && self.seen@[id] == objects[id],
                self@ == sort_objects(old(self)@, objects, ids@.take(i as int)),
            decreases ids.len() - i,
        {
            let id = ids[i];
            assert(ids@.contains(id));
            assert(objects.dom().contains(id));
            let found = object_at(doc, id);
            assert(found is Some);
            proof {
                let next = ids@.take(i + 1);
                assert(next.drop_last() =~= ids@.take(i as int));
                assert(next.last() == id);
            }
            self.sort_one(id, found.unwrap());
            i += 1;
        }
        proof {
            assert(ids@.take(ids@.len() as int) =~= ids@);
            lemma_ascending_keys(ids@, objects);
        }
    }

    /// Absorbs the next input: drops its bookmarks, renumbers it from the
    /// offset on, records its pages, gives its first page a bookmark and sorts
    /// its objects. The
    /// objects of the input come under identities that none of the earlier
    /// inputs has. Where the codec cannot number the objects of the input,
    /// nothing is absorbed.
    pub fn absorb(&mut self, doc: lopdf::Document) -> (done: Result<(), MergeError>)
        requires
            old(self).wf(),
            old(self)@.rank < usize::MAX,
        ensures
            final(self).wf(),
            fits(old(self)@, graph_of(doc)) ==> {
                &&& done is Ok
                &&& final(self)@ == absorbed(old(self)@, graph_of(doc))
                &&& taken_in(graph_of(doc), old(self)@.offset).objects.dom().finite()
                &&& old(self).seen().dom().disjoint(taken_in(graph_of(doc), old(self)@.offset).objects.dom())
                &&& final(self).seen() == old(self).seen().union_prefer_right(
                    taken_in(graph_of(doc), old(self)@.offset).objects,
                )
            },
            !fits(old(self)@, graph_of(doc)) ==> {
                &&& done == Err::<(), MergeError>(MergeError::IdSpaceExhausted)
                &&& final(self)@ == old(self)@
                &&& final(self).seen() == old(self).seen()
            },
    {
        let ghost input = graph_of(doc);
        let ghost p = self@;
        let ids = object_ids(&doc);
        proof {
            lemma_keys_count(ids@, input.objects);
        }
        let count = ids.len();
        if count > 0x7fff_ffff || self.offset as u64 + count as u64 > u32::MAX as u64 {
            return Err(MergeError::IdSpaceExhausted);
        }
        let mut staged = doc;
        forget_bookmarks(&mut staged);
        renumber_from(&mut staged, self.offset);
        let ghost g = graph_of(staged);
        let ghost earlier = self.seen@;
        let mut pages = collect_pages(&staged, self.rank);
        let ghost fresh = pages@;
        if pages.len() > 0 {
            let number = self.bookmarks.len() as u32 + 1;
            let bookmark = Bookmark { label: page_label(number), color: (0, 0, 1), level: 0, target: pages[0].id };
            assert(bookmark@ == bookmark_for((p.bookmarks.len() + 1) as nat, page_records(g)[0])) by {
                assert(record_views(pages@)[0] == pages@[0]@);
            }
            self.bookmarks.push(bookmark);
        }
        assert(bookmark_views(self.bookmarks@) =~= bookmarks_after(p.bookmarks, page_records(g)));
        let ghost before = self.records@;
        self.records.append(&mut pages);
        assert(record_views(self.records@) =~= p.records + records_for(g, p.rank, page_records(g)));
        self.offset = max_id(&staged) + 1;
        self.rank = self.rank + 1;
        self.seen = Ghost(earlier.union_prefer_right(g.objects));
        proof {
            assert(earlier.dom().disjoint(g.objects.dom())) by {
                assert forall|id: ObjectId| !(earlier.dom().contains(id) && g.objects.dom().contains(id)) by {}
            }
            lemma_page_records_are_pages(g, page_ids(g).len());
            assert forall|i: int| 0 <= i < self.records@.len() implies {
                &&& self.seen@.dom().contains((#[trigger] self.records@[i]).id)
                &&& self.seen@[self.records@[i].id] == Value::Dictionary(entries_of(self.records@[i].dictionary))
                &&& role(self.seen@[self.records@[i].id]) == Role::Page
            } by {
                if i < before.len() {
                    assert(self.records@[i] == before[i]);
                    assert(earlier.dom().contains(before[i].id));
                } else {
                    let j = i - before.len();
                    assert(self.records@[i] == fresh[j]);
                    assert(record_views(fresh)[j] == fresh[j]@);
                    assert(is_page(g, page_records(g)[j]));
                }
            }
            assert(self.known());
        }
        self.sort(&staged);
        Ok(())
    }

    /// Makes the merged document of what was absorbed, before the codec's last
    /// passes: the pages go into the pool under the surviving page tree node,
    /// which counts and lists them, the surviving catalog names that node and
    /// no outline, the trailer names the catalog, and the bookmarks are added.
    /// Without a page tree node or without a catalog there is no document.
    pub fn assemble(self) -> (made: Result<lopdf::Document, MergeError>)
        requires
            self.wf(),
        ensures
            match made {
                Ok(doc) => {
                    &&& assembly(self@) == Ok::<Graph, MergeError>(graph_of(doc))
                    &&& graph_of(doc).objects.dom().finite()
                    &&& one_catalog_one_tree(
                        graph_of(doc).objects,
                        self@.catalog->Some_0.0,
                        self@.pages->Some_0.0,
                    )
                    &&& counts_and_lists(graph_of(doc).objects[self@.pages->Some_0.0], self@.records)
                    &&& written_references_resolve(
                        graph_of(doc),
                        self@.records,
                        self@.catalog->Some_0.0,
                        self@.pages->Some_0.0,
                    )
                    &&& copies_survive(graph_of(doc).objects, self@.pool)
                },
                Err(e) => assembly(self@) == Err::<Graph, MergeError>(e),
            },
    {
        let ghost p = self@;
        proof {
            self.lemma_coherent();
            if assembly(p) is Ok {
                lemma_assembled(p);
            }
        }
        let Merger { offset, rank, bookmarks, records, catalog, pages, pool, seen } = self;
        let (pages_id, pages_dictionary) = match pages {
            Some(entry) => entry,
            None => {
                return Err(MergeError::MissingPages);
            },
        };
        let (catalog_id, catalog_dictionary) = match catalog {
            Some(entry) => entry,
            None => {
                return Err(MergeError::MissingCatalog);
            },
        };
        let ghost pages_view = (pages_id, entries_of(pages_dictionary));
        let ghost catalog_view = (catalog_id, entries_of(catalog_dictionary));
        let mut doc = pool;
        let count = records.len();
        let refs = adopt_pages(&mut doc, records, pages_id);
        let mut node = pages_dictionary;
        dictionary_set(&mut node, &count_key(), integer(count as i64));
        dictionary_set(&mut node, &kids_key(), array(refs));
        assert(entries_of(node) == page_tree(pages_view.1, p.records));
        insert_object(&mut doc, pages_id, dictionary_object(node));
        let mut root = catalog_dictionary;
        dictionary_set(&mut root, &pages_name(), reference_to(pages_id));
        dictionary_remove(&mut root, &outlines_name());
        assert(entries_of(root) == final_catalog(catalog_view.1, pages_id));
        insert_object(&mut doc, catalog_id, dictionary_object(root));
        assert(graph_of(doc).objects == assembled_objects(p, pages_view, catalog_view));
        let mut trailer = trailer_of(&doc);
        dictionary_set(&mut trailer, &root_key(), reference_to(catalog_id));
        replace_trailer(&mut doc, trailer);
        add_bookmarks(&mut doc, &bookmarks);
        let ids = object_ids(&doc);
        proof {
            lemma_keys_count(ids@, graph_of(doc).objects);
        }
        if ids.len() > 0x7fff_ffff {
            return Err(MergeError::IdSpaceExhausted);
        }
        set_max_id(&mut doc, ids.len() as u32);
        assert(graph_of(doc) == assembled(p, pages_view, catalog_view));
        Ok(doc)
    }

    /// Makes the merged document of what was absorbed: the document is
    /// assembled, and the codec numbers its objects from 1 without gaps, builds
    /// the outline of the bookmarks, which the catalog then names, and
    /// compresses the streams. The document that is made is tidy: it holds no
    /// more than one catalog and one page tree node, which counts the pages
    /// that were recorded and lists as many kids, and no outline of an input.
    /// Where the codec's renumbering loses no object, it holds a catalog and a
    /// page tree node.
    pub fn finish(self) -> (made: Result<lopdf::Document, MergeError>)
        requires
            self.wf(),
        ensures
            match made {
                Ok(doc) => {
                    &&& finished(self@) == Ok::<Graph, MergeError>(graph_of(doc))
                    &&& tidy(graph_of(doc).objects, self@.records.len())
                    &&& nothing_lost(assembly(self@)->Ok_0) ==> whole(graph_of(doc).objects)
                },
                Err(e) => finished(self@) == Err::<Graph, MergeError>(e),
            },
    {
        let marks = self.bookmarks.len();
        let ghost p = self@;
        proof {
            self.lemma_coherent();
            if assembly(p) is Ok {
                lemma_assembled_tidy(p);
            }
        }
        match self.assemble() {
            Ok(doc) => {
                assert(graph_of(doc) == assembled(p, p.pages->Some_0, p.catalog->Some_0));
                assert(flat_bookmarks(graph_of(doc)));
                normalize(doc, marks, Ghost(p.records.len()))
            },
            Err(e) => Err(e),
        }
    }
}

/// The codec's last passes on an assembled document with `marks` bookmarks
/// and `pages` pages. What was tidy stays tidy.
fn normalize(doc: lopdf::Document, marks: usize, Ghost(pages): Ghost<nat>) -> (made: Result<
    lopdf::Document,
    MergeError,
>)
    requires
        flat_bookmarks(graph_of(doc)),
        graph_of(doc).bookmarks.len() == marks,
        marks < u32::MAX,
        graph_of(doc).objects.dom().finite(),
        graph_of(doc).objects.len() <= 0x7fff_ffff,
        tidy(graph_of(doc).objects, pages),
        whole(graph_of(doc).objects),
    ensures
        match made {
            Ok(out) => {
                &&& normalized(graph_of(doc)) == Ok::<Graph, MergeError>(graph_of(out))
                &&& tidy(graph_of(out).objects, pages)
                &&& nothing_lost(graph_of(doc)) ==> whole(graph_of(out).objects)
            },
            Err(e) => normalized(graph_of(doc)) == Err::<Graph, MergeError>(e),
        },
{
    let ghost g = graph_of(doc);
    let mut doc = doc;
    renumber_from(&mut doc, 1);
    let ghost dense = graph_of(doc);
    proof {
        let origin = choose|origin: Map<ObjectId, ObjectId>| moved(g.objects, dense.objects, origin);
        lemma_moved_tidy(g.objects, dense.objects, origin, pages);
        if nothing_lost(g) {
            lemma_moved_whole(g.objects, dense.objects, origin, Role::Catalog);
            lemma_moved_whole(g.objects, dense.objects, origin, Role::Pages);
        }
    }
    assert(flat_bookmarks(dense));
    let last = max_id(&doc);
    if last as u64 + 1 + 2 * (marks as u64) > u32::MAX as u64 {
        assert(!outline_fits(dense));
        return Err(MergeError::IdSpaceExhausted);
    }
    assert(outline_fits(dense));
    adjust_zero_pages(&mut doc);
    let root = build_outline(&mut doc);
    proof {
        lemma_extended_tidy(dense.objects, graph_of(doc).objects, dense.max_id, pages);
    }
    if let Some(outline) = root {
        proof {
            lemma_attached_tidy(graph_of(doc), outline, pages);
        }
        attach(&mut doc, outline);
    }
    assert(graph_of(doc) == with_outline(dense));
    let ghost plain = graph_of(doc);
    compress(&mut doc);
    proof {
        lemma_compressed_tidy(plain.objects, graph_of(doc).objects, pages);
    }
    Ok(doc)
}

/// Merges the documents, in their order, into one: a single catalog, a single
/// page tree node whose kids are the pages of all the documents in order, one
/// bookmark for each document that has a page, and every other object but the
/// outlines of the inputs, under numbers from 1 without gaps. The merge fails
/// for want of a page tree node just where no input holds one, and for want of
/// a catalog just where an input holds a page tree node and none a catalog.
/// The document that is made is tidy, and its page tree node counts the pages
/// of all the inputs. Where the codec's last renumbering loses no object, it
/// holds a catalog and a page tree node.
pub fn merge(docs: Vec<lopdf::Document>) -> (made: Result<lopdf::Document, MergeError>)
    ensures
        match made {
            Ok(doc) => {
                &&& merged(graphs_of(docs@)) == Ok::<Graph, MergeError>(graph_of(doc))
                &&& tidy(graph_of(doc).objects, page_total(graphs_of(docs@), docs@.len()))
                &&& nothing_lost(assembly(absorbed_upto(graphs_of(docs@), docs@.len())->Some_0)->Ok_0) ==> whole(
                    graph_of(doc).objects,
                )
            },
            Err(e) => merged(graphs_of(docs@)) == Err::<Graph, MergeError>(e),
        },
        absorbed_upto(graphs_of(docs@), docs@.len()) is Some ==> {
            &&& numbered_apart(graphs_of(docs@), docs@.len())
            &&& coherent(absorbed_upto(graphs_of(docs@), docs@.len())->Some_0)
        },
        made == Err::<lopdf::Document, MergeError>(MergeError::MissingPages) <==> {
            &&& absorbed_upto(graphs_of(docs@), docs@.len()) is Some
            &&& !some_input_holds(graphs_of(docs@), docs@.len(), Role::Pages)
        },
        made == Err::<lopdf::Document, MergeError>(MergeError::MissingCatalog) <==> {
            &&& absorbed_upto(graphs_of(docs@), docs@.len()) is Some
            &&& some_input_holds(graphs_of(docs@), docs@.len(), Role::Pages)
            &&& !some_input_holds(graphs_of(docs@), docs@.len(), Role::Catalog)
        },
{
    let ghost inputs = graphs_of(docs@);
    let mut merger = Merger::new();
    for doc in it: docs
        invariant
            inputs == graphs_of(docs@),
            merger.wf(),
            merger@.rank == it.index(),
            it.index() <= docs@.len(),
            absorbed_upto(inputs, it.index() as nat) == Some(merger@),
            numbered_apart(inputs, it.index() as nat),
            forall|k: nat|
                k < it.index() ==> (#[trigger] staged(inputs, k)).objects.dom().subset_of(merger.seen().dom()),
    {
        let ghost k = it.index() as nat;
        let ghost before = merger@;
        assert(inputs[k as int] == graph_of(doc));
        assert(k < docs.len());
        proof {
            let g = taken_in(graph_of(doc), before.offset);
            let noted = recorded(before, g);
            lemma_sorting_keeps(noted, g.objects, ascending_keys(g.objects));
        }
        match merger.absorb(doc) {
            Ok(()) => {},
            Err(e) => {
                proof {
                    assert(absorbed_upto(inputs, k + 1) is None);
                    lemma_exhausted_stays(inputs, k + 1, inputs.len());
                }
                return Err(e);
            },
        }
    }
    proof {
        lemma_missing(inputs);
        merger.lemma_coherent();
        lemma_pages_in_input_order(inputs, inputs.len());
    }
    merger.finish()
}

/// Merges named documents in the order of their names, whatever order they come
/// in. Without a document nothing is merged and there is no outcome.
pub fn merge_by_name(named: Vec<(lopdf::Document, Vec<u8>)>) -> (made: Option<Result<lopdf::Document, MergeError>>)
    ensures
        made is None <==> named@.len() == 0,
        match made {
            Some(Ok(doc)) => {
                &&& merged(graphs_of(documents_of(ordered(named@)))) == Ok::<Graph, MergeError>(graph_of(doc))
                &&& tidy(
                    graph_of(doc).objects,
                    page_total(graphs_of(documents_of(ordered(named@))), named@.len()),
                )
            },
            Some(Err(e)) => merged(graphs_of(documents_of(ordered(named@)))) == Err::<Graph, MergeError>(e),
            None => true,
        },
{
    if named.len() == 0 {
        return None;
    }
    let sorted = sort_by_name(named);
    let mut docs: Vec<lopdf::Document> = Vec::new();
    for item in it: sorted
        invariant
            docs@ == documents_of(sorted@.take(it.index() as int)),
            it.index() <= sorted@.len(),
    {
        let ghost n = it.index() as int;
        docs.push(item.0);
        assert(docs@ =~= documents_of(sorted@.take(n + 1)));
    }
    assert(sorted@.take(sorted@.len() as int) =~= sorted@);
    proof {
        lemma_ordered(named@);
    }
    Some(merge(docs))
}

} // verus!
