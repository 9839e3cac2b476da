//! What a merge is, as mathematics: the state that the engine threads through the
//! inputs, what one input does to it, and the document that is made of it at the end.
use vstd::prelude::*;
use crate::codec::channel_bits;
use crate::codec::compressed;
use crate::codec::outlined;
use crate::codec::page_ids;
use crate::codec::renumbered;
use crate::label::label_text;
use crate::model::Entries;
use crate::model::Graph;
use crate::model::Mark;
use crate::model::ObjectId;
use crate::model::Role;
use crate::model::Value;
use crate::model::ascending_keys;
use crate::model::key_count;
use crate::model::key_kids;
use crate::model::key_linearized;
use crate::model::key_outlines;
use crate::model::key_pages;
use crate::model::key_parent;
use crate::model::key_root;
use crate::model::key_type;
use crate::model::name_catalog;
use crate::model::name_outline;
use crate::model::name_outlines;
use crate::model::name_page;
use crate::model::name_pages;
use crate::model::role;

verus! {

/// Why a merge fails.
#[derive(Clone, Copy, Debug, PartialEq, Eq, Structural)]
pub enum MergeError {
    /// No input holds a catalog.
    MissingCatalog,
    /// No input holds a page tree node.
    MissingPages,
    /// The objects need more numbers than the codec can give.
    IdSpaceExhausted,
}

impl MergeError {
    /// What to tell the user.
    pub open spec fn text(self) -> Seq<char> {
        match self {
            MergeError::MissingCatalog => "Catalog root not found."@,
            MergeError::MissingPages => "Pages root not found"@,
            MergeError::IdSpaceExhausted => "Too many objects"@,
        }
    }

    /// What to tell the user.
    pub fn message(&self) -> (text: &'static str)
        ensures
            text@ == self.text(),
    {
        match self {
            MergeError::MissingCatalog => "Catalog root not found.",
            MergeError::MissingPages => "Pages root not found",
            MergeError::IdSpaceExhausted => "Too many objects",
        }
    }
}

/// A page on its way into the merged page tree.
pub struct PageView {
    pub id: ObjectId,
    pub entries: Entries,
    /// The place of its document among the inputs, from 0.
    pub rank: nat,
    /// Its place among the pages of its document, from 0.
    pub position: nat,
}

/// A bookmark that the merge emits.
pub struct BookmarkView {
    pub label: Seq<char>,
    pub color: (u8, u8, u8),
    pub level: u32,
    pub target: ObjectId,
}

/// The state of a merge between two inputs.
pub struct Progress {
    /// The number that the next input's objects start at.
    pub offset: u32,
    /// How many inputs were absorbed.
    pub rank: nat,
    pub bookmarks: Seq<BookmarkView>,
    pub records: Seq<PageView>,
    /// The surviving catalog: the first that was met.
    pub catalog: Option<(ObjectId, Entries)>,
    /// The surviving page tree node: the identity of the first that was met, with
    /// the later ones folded in.
    pub pages: Option<(ObjectId, Entries)>,
    /// The objects that were copied as they are.
    pub pool: Map<ObjectId, Value>,
}

/// The version of a merged document.
pub open spec fn merged_version() -> Seq<char> {
    "1.5"@
}

/// The colour of the bookmarks that a merge emits: blue.
pub open spec fn bookmark_color() -> (u8, u8, u8) {
    (0, 0, 1)
}

/// The state before the first input.
pub open spec fn start() -> Progress {
    start_at(1)
}

/// The state before the first input, where the objects are to get the numbers
/// from `offset` on.
pub open spec fn start_at(offset: u32) -> Progress {
    Progress {
        offset,
        rank: 0,
        bookmarks: Seq::empty(),
        records: Seq::empty(),
        catalog: None,
        pages: None,
        pool: Map::empty(),
    }
}

/// Whether `id` is a page of `g`: a dictionary of type `Page`.
pub open spec fn is_page(g: Graph, id: ObjectId) -> bool {
    &&& g.objects.dom().contains(id)
    &&& g.objects[id] is Dictionary
    &&& role(g.objects[id]) == Role::Page
}

/// The pages among the first `k` identities that the page tree of `g` lists.
pub open spec fn page_records_upto(g: Graph, k: nat) -> Seq<ObjectId>
    decreases k,
{
    if k == 0 {
        Seq::empty()
    } else {
        let before = page_records_upto(g, (k - 1) as nat);
        let id = page_ids(g)[k - 1];
        if is_page(g, id) {
            before.push(id)
        } else {
            before
        }
    }
}

/// The pages of `g`, in the order of its page tree.
pub open spec fn page_records(g: Graph) -> Seq<ObjectId> {
    page_records_upto(g, page_ids(g).len())
}

/// The records of the pages `ids` of `g`, the document of the given rank.
pub open spec fn records_for(g: Graph, rank: nat, ids: Seq<ObjectId>) -> Seq<PageView> {
    Seq::new(
        ids.len(),
        |j: int|
            PageView { id: ids[j], entries: g.objects[ids[j]]->Dictionary_0, rank, position: j as nat },
    )
}

/// The bookmark with the given number, which leads to `target`.
pub open spec fn bookmark_for(n: nat, target: ObjectId) -> BookmarkView {
    BookmarkView { label: label_text(n), color: bookmark_color(), level: 0, target }
}

/// A page tree node with a later one folded in: the later one adds the keys that
/// the survivor lacks.
pub open spec fn folded(survivor: Entries, later: Entries) -> Entries {
    later.union_prefer_right(survivor)
}

/// `object` copied into the pool under `id`.
pub open spec fn pooled(p: Progress, id: ObjectId, object: Value) -> Progress {
    Progress { pool: p.pool.insert(id, object), ..p }
}

/// What one object does to the state: the first catalog and the first page tree
/// node survive, later page tree nodes are folded into the first, pages and
/// outlines are passed over, and every other object is copied. Only a dictionary
/// is a catalog or a page tree node: a stream of such a type is passed over.
pub open spec fn sort_object(p: Progress, id: ObjectId, object: Value) -> Progress {
    match role(object) {
        Role::Other => pooled(p, id, object),
        Role::Page | Role::Outline => p,
        Role::Catalog => match object {
            Value::Dictionary(entries) => if p.catalog is None {
                Progress { catalog: Some((id, entries)), ..p }
            } else {
                p
            },
            _ => p,
        },
        Role::Pages => match object {
            Value::Dictionary(entries) => match p.pages {
                None => Progress { pages: Some((id, entries)), ..p },
                Some((survivor, kept)) => Progress { pages: Some((survivor, folded(kept, entries))), ..p },
            },
            _ => p,
        },
    }
}

/// What the objects under `ids` do to the state, one after the other.
pub open spec fn sort_objects(p: Progress, objects: Map<ObjectId, Value>, ids: Seq<ObjectId>) -> Progress
    decreases ids.len(),
{
    if ids.len() == 0 {
        p
    } else {
        sort_object(sort_objects(p, objects, ids.drop_last()), ids.last(), objects[ids.last()])
    }
}

/// Sorting objects changes neither the offset nor the rank, the bookmarks or the
/// records.
pub proof fn lemma_sorting_keeps(p: Progress, objects: Map<ObjectId, Value>, ids: Seq<ObjectId>)
    ensures
        sort_objects(p, objects, ids).offset == p.offset,
        sort_objects(p, objects, ids).rank == p.rank,
        sort_objects(p, objects, ids).bookmarks == p.bookmarks,
        sort_objects(p, objects, ids).records == p.records,
    decreases ids.len(),
{
    if ids.len() > 0 {
        lemma_sorting_keeps(p, objects, ids.drop_last());
    }
}

/// Whether the codec can number the objects of `input` from the offset on: it
/// counts pages, of which there are no more than objects, in 31 bits, and
/// numbers in 32.
pub open spec fn fits(p: Progress, input: Graph) -> bool {
    &&& input.objects.len() <= 0x7fff_ffff
    &&& p.offset + input.objects.len() <= u32::MAX
}

/// The bookmarks after a document whose pages are `pages`: one more where the
/// document has a page, which leads to its first page.
pub open spec fn bookmarks_after(bookmarks: Seq<BookmarkView>, pages: Seq<ObjectId>) -> Seq<BookmarkView> {
    if pages.len() > 0 {
        bookmarks.push(bookmark_for(bookmarks.len() + 1, pages[0]))
    } else {
        bookmarks
    }
}

/// `g` without its bookmarks.
pub open spec fn unmarked(g: Graph) -> Graph {
    Graph { max_bookmark_id: 0, bookmarks: Seq::empty(), bookmark_table: Map::empty(), ..g }
}

/// An input as the merge takes it in: without its bookmarks, and renumbered
/// from `offset` on.
pub open spec fn taken_in(input: Graph, offset: u32) -> Graph {
    renumbered(unmarked(input), offset)
}

/// The state with the pages of `g` recorded, the next input as it was taken in:
/// the offset is the number after the last of `g`, the records of its pages
/// follow the others, and its first page has a bookmark.
pub open spec fn recorded(p: Progress, g: Graph) -> Progress {
    Progress {
        offset: (g.max_id + 1) as u32,
        rank: p.rank + 1,
        bookmarks: bookmarks_after(p.bookmarks, page_records(g)),
        records: p.records + records_for(g, p.rank, page_records(g)),
        ..p
    }
}

/// The state after `input`, which fits: the input is taken in at the offset,
/// its pages are recorded, its first page gets a bookmark, and its objects are
/// sorted in ascending order of identity.
pub open spec fn absorbed(p: Progress, input: Graph) -> Progress {
    let g = taken_in(input, p.offset);
    sort_objects(recorded(p, g), g.objects, ascending_keys(g.objects))
}

/// The state after the first `k` of `inputs`, if each of them fits.
pub open spec fn absorbed_upto(inputs: Seq<Graph>, k: nat) -> Option<Progress>
    decreases k,
{
    if k == 0 {
        Some(start())
    } else {
        match absorbed_upto(inputs, (k - 1) as nat) {
            Some(p) => if fits(p, inputs[k - 1]) {
                Some(absorbed(p, inputs[k - 1]))
            } else {
                None
            },
            None => None,
        }
    }
}

/// Once an input does not fit, no longer run of the inputs can be absorbed.
pub proof fn lemma_exhausted_stays(inputs: Seq<Graph>, k: nat, n: nat)
    requires
        absorbed_upto(inputs, k) is None,
        k <= n,
    ensures
        absorbed_upto(inputs, n) is None,
    decreases n,
{
    if k < n {
        lemma_exhausted_stays(inputs, k, (n - 1) as nat);
    }
}

/// A page as it stands in the merged document: its parent is the surviving page
/// tree node.
pub open spec fn adopted_page(page: PageView, parent: ObjectId) -> Value {
    Value::Dictionary(page.entries.insert(key_parent(), Value::Reference(parent)))
}

/// The pool with the pages in it, each under its identity.
pub open spec fn adopted(pool: Map<ObjectId, Value>, records: Seq<PageView>, parent: ObjectId) -> Map<
    ObjectId,
    Value,
>
    decreases records.len(),
{
    if records.len() == 0 {
        pool
    } else {
        adopted(pool, records.drop_last(), parent).insert(
            records.last().id,
            adopted_page(records.last(), parent),
        )
    }
}

/// References to the pages, in order.
pub open spec fn kids(records: Seq<PageView>) -> Seq<Value> {
    Seq::new(records.len(), |i: int| Value::Reference(records[i].id))
}

/// The surviving page tree node with its pages: `Count` is their number and `Kids`
/// refers to them in order.
pub open spec fn page_tree(entries: Entries, records: Seq<PageView>) -> Entries {
    entries.insert(key_count(), Value::Integer(records.len() as i64)).insert(
        key_kids(),
        Value::Array(kids(records)),
    )
}

/// The surviving catalog as it stands in the merged document: it names the
/// surviving page tree node and no outline.
pub open spec fn final_catalog(entries: Entries, pages: ObjectId) -> Entries {
    entries.insert(key_pages(), Value::Reference(pages)).remove(key_outlines())
}

/// The objects of the merged document before the codec's last passes: the pool,
/// then the pages, then the page tree node, then the catalog.
pub open spec fn assembled_objects(
    p: Progress,
    pages: (ObjectId, Entries),
    catalog: (ObjectId, Entries),
) -> Map<ObjectId, Value> {
    adopted(p.pool, p.records, pages.0).insert(
        pages.0,
        Value::Dictionary(page_tree(pages.1, p.records)),
    ).insert(catalog.0, Value::Dictionary(final_catalog(catalog.1, pages.0)))
}

/// A bookmark as the document stores it under the number `id`.
pub open spec fn mark_of(bookmark: BookmarkView, id: u32) -> Mark {
    Mark {
        children: Seq::empty(),
        title: bookmark.label,
        format: bookmark.level,
        color: (
            channel_bits(bookmark.color.0),
            channel_bits(bookmark.color.1),
            channel_bits(bookmark.color.2),
        ),
        page: bookmark.target,
        id,
    }
}

/// The table of the first `k` bookmarks, numbered from 1.
pub open spec fn marks_upto(bookmarks: Seq<BookmarkView>, k: nat) -> Map<u32, Mark> {
    Map::new(|id: u32| 1 <= id <= k, |id: u32| mark_of(bookmarks[id - 1], id))
}

/// The numbers from 1 to `k`.
pub open spec fn numbers_upto(k: nat) -> Seq<u32> {
    Seq::new(k, |i: int| (i + 1) as u32)
}

/// The merged document before the codec's last passes.
pub open spec fn assembled(p: Progress, pages: (ObjectId, Entries), catalog: (ObjectId, Entries)) -> Graph {
    let objects = assembled_objects(p, pages, catalog);
    Graph {
        version: merged_version(),
        trailer: Map::empty().insert(key_root(), Value::Reference(catalog.0)),
        objects,
        max_id: objects.len() as u32,
        max_bookmark_id: p.bookmarks.len() as u32,
        bookmarks: numbers_upto(p.bookmarks.len()),
        bookmark_table: marks_upto(p.bookmarks, p.bookmarks.len()),
    }
}

/// The catalog that the trailer of `g` names, if it names one.
pub open spec fn root_of(g: Graph) -> Option<ObjectId> {
    if g.trailer.dom().contains(key_root()) && g.trailer[key_root()] is Reference {
        Some(g.trailer[key_root()]->Reference_0)
    } else {
        None
    }
}

/// `g` with the outline `outline` attached to its catalog, where the trailer
/// names a catalog that is a dictionary of `g`.
pub open spec fn attached(g: Graph, outline: ObjectId) -> Graph {
    match root_of(g) {
        Some(catalog) => if g.objects.dom().contains(catalog) && g.objects[catalog] is Dictionary {
            Graph {
                objects: g.objects.insert(
                    catalog,
                    Value::Dictionary(
                        g.objects[catalog]->Dictionary_0.insert(key_outlines(), Value::Reference(outline)),
                    ),
                ),
                ..g
            }
        } else {
            g
        },
        None => g,
    }
}

/// `g`, whose objects are numbered from 1 without gaps, with the outline of its
/// bookmarks: none where it has no bookmark.
pub open spec fn with_outline(g: Graph) -> Graph {
    if g.bookmarks.len() == 0 {
        g
    } else {
        attached(outlined(g), ((g.max_id + 1) as u32, 0u16))
    }
}

/// Whether the codec can number the objects of the outline of `g`: one for the
/// root and two for each bookmark.
pub open spec fn outline_fits(g: Graph) -> bool {
    g.max_id + 1 + 2 * g.bookmarks.len() <= u32::MAX
}

/// The merged document before the codec's last passes, or why there is none:
/// a page tree node and a catalog must have been met, and the codec must be
/// able to count the objects.
pub open spec fn assembly(p: Progress) -> Result<Graph, MergeError> {
    match p.pages {
        None => Err(MergeError::MissingPages),
        Some(pages) => match p.catalog {
            None => Err(MergeError::MissingCatalog),
            Some(catalog) => if assembled_objects(p, pages, catalog).len() > 0x7fff_ffff {
                Err(MergeError::IdSpaceExhausted)
            } else {
                Ok(assembled(p, pages, catalog))
            },
        },
    }
}

/// The codec's last passes on `g`: the objects are numbered from 1 without
/// gaps, the outline is built and attached, and the streams are compressed.
pub open spec fn normalized(g: Graph) -> Result<Graph, MergeError> {
    let dense = renumbered(g, 1);
    if outline_fits(dense) {
        Ok(compressed(with_outline(dense)))
    } else {
        Err(MergeError::IdSpaceExhausted)
    }
}

/// Whether the codec's renumbering of `g` from 1 on loses no object.
pub open spec fn nothing_lost(g: Graph) -> bool {
    renumbered(g, 1).objects.len() == g.objects.len()
}

/// The document that is made of the state after the last input, or why none is.
pub open spec fn finished(p: Progress) -> Result<Graph, MergeError> {
    match assembly(p) {
        Ok(g) => normalized(g),
        Err(e) => Err(e),
    }
}

/// The keys that the engine writes are not the key `Type`.
pub proof fn lemma_written_keys()
    ensures
        key_parent() != key_type(),
        key_count() != key_type(),
        key_kids() != key_type(),
        key_pages() != key_type(),
        key_outlines() != key_type(),
{
    assert(key_parent().len() != key_type().len());
    assert(key_count().len() != key_type().len());
    assert(key_kids()[0] != key_type()[0]);
    assert(key_pages().len() != key_type().len());
    assert(key_outlines().len() != key_type().len());
}

/// A dictionary with a structural role keeps it when a key other than `Type` is
/// set or removed.
pub proof fn lemma_role_stays(entries: Entries, key: Seq<u8>, value: Value)
    requires
        role(Value::Dictionary(entries)) != Role::Other,
        key != key_type(),
    ensures
        role(Value::Dictionary(entries.insert(key, value))) == role(Value::Dictionary(entries)),
        role(Value::Dictionary(entries.remove(key))) == role(Value::Dictionary(entries)),
{
    lemma_role_names();
    assert(entries.dom().contains(key_type()) && entries[key_type()] is Name);
}

/// The names of the structural roles differ from each other and from `Linearized`.
pub proof fn lemma_role_names()
    ensures
        name_catalog() != name_pages(),
        name_catalog() != name_page(),
        name_catalog() != name_outlines(),
        name_catalog() != name_outline(),
        name_pages() != name_page(),
        name_pages() != name_outlines(),
        name_pages() != name_outline(),
        name_page() != name_outlines(),
        name_page() != name_outline(),
        key_linearized() != name_catalog(),
        key_linearized() != name_pages(),
        key_linearized() != name_page(),
        key_linearized() != name_outlines(),
        key_linearized() != name_outline(),
{
    assert(name_catalog().len() == 7);
    assert(name_pages().len() == 5);
    assert(name_page().len() == 4);
    assert(name_outlines().len() == 8);
    assert(name_outline().len() == 7);
    assert(key_linearized().len() == 10);
    assert(name_catalog()[0] != name_outline()[0]);
}

/// A page tree node with a later one folded in is still a page tree node.
pub proof fn lemma_folded_role(survivor: Entries, later: Entries)
    requires
        role(Value::Dictionary(survivor)) == Role::Pages,
    ensures
        role(Value::Dictionary(folded(survivor, later))) == Role::Pages,
{
    lemma_role_names();
    assert(survivor.dom().contains(key_type()) && survivor[key_type()] is Name);
    assert(folded(survivor, later)[key_type()] == survivor[key_type()]);
}

/// Every page record of a graph is a page of it.
pub proof fn lemma_page_records_are_pages(g: Graph, k: nat)
    ensures
        forall|j: int| 0 <= j < page_records_upto(g, k).len() ==> is_page(g, #[trigger] page_records_upto(g, k)[j]),
    decreases k,
{
    if k > 0 {
        lemma_page_records_are_pages(g, (k - 1) as nat);
        let before = page_records_upto(g, (k - 1) as nat);
        let now = page_records_upto(g, k);
        assert forall|j: int| 0 <= j < now.len() implies is_page(g, #[trigger] now[j]) by {
            if j < before.len() {
                assert(now[j] == before[j]);
            }
        }
    }
}

/// What holds of the state of every merge: there are fewer pages and fewer
/// bookmarks than the offset, the copied objects have no structural role, the
/// records are pages, the survivors are a catalog and a page tree node, and no
/// identity stands for two of them.
pub open spec fn coherent(p: Progress) -> bool {
    &&& p.records.len() < p.offset
    &&& p.bookmarks.len() < p.offset
    &&& forall|id: ObjectId| p.pool.dom().contains(id) ==> role(#[trigger] p.pool[id]) == Role::Other
    &&& forall|i: int|
        0 <= i < p.records.len() ==> {
            &&& role(Value::Dictionary((#[trigger] p.records[i]).entries)) == Role::Page
            &&& !p.pool.dom().contains(p.records[i].id)
        }
    &&& p.catalog matches Some(catalog) ==> {
        &&& role(Value::Dictionary(catalog.1)) == Role::Catalog
        &&& !p.pool.dom().contains(catalog.0)
        &&& forall|i: int| 0 <= i < p.records.len() ==> (#[trigger] p.records[i]).id != catalog.0
    }
    &&& p.pages matches Some(pages) ==> {
        &&& role(Value::Dictionary(pages.1)) == Role::Pages
        &&& !p.pool.dom().contains(pages.0)
        &&& forall|i: int| 0 <= i < p.records.len() ==> (#[trigger] p.records[i]).id != pages.0
        &&& p.catalog matches Some(catalog) ==> catalog.0 != pages.0
    }
}

/// The merge of `inputs`, in their order.
pub open spec fn merged(inputs: Seq<Graph>) -> Result<Graph, MergeError> {
    match absorbed_upto(inputs, inputs.len()) {
        Some(p) => finished(p),
        None => Err(MergeError::IdSpaceExhausted),
    }
}

} // verus!
