//! The boundary to the document codec, `lopdf`.
//!
//! The codec's documents, objects and dictionaries are carried through this crate
//! as they are. What they hold is named here by `graph_of`, `value_of` and
//! `entries_of`, and each codec function that the merge uses is reached through
//! one function of this module. None of the contracts in this module is proved:
//! each states what the codec's source shows of the function it calls.
use vstd::prelude::*;
use crate::model::Entries;
use crate::model::Graph;
use crate::model::Mark;
use crate::model::ObjectId;
use crate::model::Value;
use crate::model::declared_type;
use crate::model::lists_keys;

verus! {

#[verifier::external_type_specification]
#[verifier::external_body]
pub struct ExDocument(lopdf::Document);

#[verifier::external_type_specification]
#[verifier::external_body]
pub struct ExObject(lopdf::Object);

#[verifier::external_type_specification]
#[verifier::external_body]
pub struct ExDictionary(lopdf::Dictionary);

/// What a document holds.
pub uninterp spec fn graph_of(d: lopdf::Document) -> Graph;

/// What an object holds.
pub uninterp spec fn value_of(o: lopdf::Object) -> Value;

/// What a dictionary holds.
pub uninterp spec fn entries_of(d: lopdf::Dictionary) -> Entries;

/// The graph that `Document::renumber_objects_with` leaves, given the graph it
/// found and the starting number.
pub uninterp spec fn renumbered(g: Graph, start: u32) -> Graph;

/// The identities that `Document::get_pages` lists, in page order.
pub uninterp spec fn page_ids(g: Graph) -> Seq<ObjectId>;

/// The graph that `Document::build_outline` leaves.
pub uninterp spec fn outlined(g: Graph) -> Graph;

/// The graph that `Document::compress` leaves.
pub uninterp spec fn compressed(g: Graph) -> Graph;

/// The bit pattern of the single-precision number that an 8-bit intensity converts to.
pub uninterp spec fn channel_bits(level: u8) -> u32;

/// A bookmark to be added to a document: a label, a colour, a level and the
/// page that it leads to.
pub struct Bookmark {
    pub label: String,
    /// Red, green and blue intensities.
    pub color: (u8, u8, u8),
    pub level: u32,
    pub target: ObjectId,
}

/// The values of the objects in `items`, in order.
pub open spec fn values_of(items: Seq<lopdf::Object>) -> Seq<Value> {
    Seq::new(items.len(), |i: int| value_of(items[i]))
}

/// The graphs of the documents in `docs`, in order.
pub open spec fn graphs_of(docs: Seq<lopdf::Document>) -> Seq<Graph> {
    Seq::new(docs.len(), |i: int| graph_of(docs[i]))
}

/// The documents of named documents, in order.
pub open spec fn documents_of(named: Seq<(lopdf::Document, Vec<u8>)>) -> Seq<lopdf::Document> {
    Seq::new(named.len(), |i: int| named[i].0)
}

/// Every top-level bookmark is in the table, and no bookmark has children.
pub open spec fn flat_bookmarks(g: Graph) -> bool {
    &&& forall|i: int| 0 <= i < g.bookmarks.len() ==> g.bookmark_table.dom().contains(#[trigger] g.bookmarks[i])
    &&& forall|id: u32| g.bookmark_table.dom().contains(id) ==> (#[trigger] g.bookmark_table[id]).children.len() == 0
}

/// `after` has the bookmarks of `before`, but for the pages that they lead to.
pub open spec fn same_bookmarks_elsewhere(before: Graph, after: Graph) -> bool {
    &&& after.max_bookmark_id == before.max_bookmark_id
    &&& after.bookmarks == before.bookmarks
    &&& after.bookmark_table.dom() == before.bookmark_table.dom()
    &&& forall|id: u32| before.bookmark_table.dom().contains(id) ==> #[trigger] after.bookmark_table[id] == (Mark {
        page: after.bookmark_table[id].page,
        ..before.bookmark_table[id]
    })
}

/// Whether `after` is `before` but for what references name, as far as the
/// value itself shows: an array is an array of the same length, a dictionary a
/// dictionary, a stream a stream and a reference a reference, and every other
/// value is the same.
pub open spec fn same_leaf(before: Value, after: Value) -> bool {
    match before {
        Value::Array(items) => after is Array && after->Array_0.len() == items.len(),
        Value::Dictionary(_) => after is Dictionary,
        Value::Stream(_) => after is Stream,
        Value::Reference(_) => after is Reference,
        _ => after == before,
    }
}

/// Whether `after` has the keys of `before`, each with the same value but for
/// what references name.
pub open spec fn same_entries(before: Entries, after: Entries) -> bool {
    &&& after.dom() == before.dom()
    &&& forall|key: Seq<u8>| #[trigger] before.dom().contains(key) ==> same_leaf(before[key], after[key])
}

/// Whether `after` is the object `before` but for what references name: a
/// dictionary or a stream has the same entries, and any other object is the
/// same value.
pub open spec fn same_frame(before: Value, after: Value) -> bool {
    match before {
        Value::Dictionary(entries) => after is Dictionary && same_entries(entries, after->Dictionary_0),
        Value::Stream(stream) => after is Stream && same_entries(stream.dict, after->Stream_0.dict),
        _ => same_leaf(before, after),
    }
}

/// Whether the objects `after` are objects of `before` that were moved: each
/// stands under a new identity, `origin` gives the one that it had, no two come
/// from the same object, and each is what it was but for what references name.
pub open spec fn moved(
    before: Map<ObjectId, Value>,
    after: Map<ObjectId, Value>,
    origin: Map<ObjectId, ObjectId>,
) -> bool {
    &&& origin.dom() == after.dom()
    &&& origin.is_injective()
    &&& forall|id: ObjectId| #[trigger]
        after.dom().contains(id) ==> before.dom().contains(origin[id]) && same_frame(before[origin[id]], after[id])
}

/// Whether `after` holds the objects of `before` up to the number `last` as
/// they were, and beside the objects of `before` only dictionaries that
/// declare no type.
pub open spec fn extended(before: Map<ObjectId, Value>, after: Map<ObjectId, Value>, last: u32) -> bool {
    &&& forall|id: ObjectId| #[trigger]
        before.dom().contains(id) && id.0 <= last ==> after.dom().contains(id) && after[id] == before[id]
    &&& forall|id: ObjectId| #[trigger]
        after.dom().contains(id) && !before.dom().contains(id) ==> after[id] is Dictionary && declared_type(
            after[id]->Dictionary_0,
        ) is None
}

/// Whether `after` holds under the identities of `before` the same objects but
/// for the streams, which are streams that declare the same type.
pub open spec fn same_but_streams(before: Map<ObjectId, Value>, after: Map<ObjectId, Value>) -> bool {
    &&& after.dom() == before.dom()
    &&& forall|id: ObjectId| #[trigger]
        before.dom().contains(id) ==> if before[id] is Stream {
            after[id] is Stream && declared_type(after[id]->Stream_0.dict) == declared_type(before[id]->Stream_0.dict)
        } else {
            after[id] == before[id]
        }
}

/// The graph of a document that was just created.
pub open spec fn empty_graph(version: Seq<char>) -> Graph {
    Graph {
        version,
        trailer: Map::empty(),
        objects: Map::empty(),
        max_id: 0,
        max_bookmark_id: 0,
        bookmarks: Seq::empty(),
        bookmark_table: Map::empty(),
    }
}

/// `Document::with_version`: a document of the given version with an empty
/// trailer, no objects, no bookmarks and both counters at zero.
#[verifier::external_body]
pub(crate) fn new_document(version: &str) -> (doc: lopdf::Document)
    ensures
        graph_of(doc) == empty_graph(version@),
{
    lopdf::Document::with_version(version)
}

/// Writes the fields `bookmarks`, `bookmark_table` and `max_bookmark_id` of a
/// document: no bookmark is left.
#[verifier::external_body]
pub(crate) fn forget_bookmarks(doc: &mut lopdf::Document)
    ensures
        graph_of(*final(doc)) == (Graph {
            max_bookmark_id: 0,
            bookmarks: Seq::empty(),
            bookmark_table: Map::empty(),
            ..graph_of(*old(doc))
        }),
{
    doc.bookmarks = Vec::new();
    doc.bookmark_table = Default::default();
    doc.max_bookmark_id = 0;
}

/// `Document::renumber_objects_with`: gives the objects the numbers from `start`
/// on, one number each, and sets `max_id` to the last number given. The codec
/// moves objects and makes none, and changes in an object only what its
/// references name. The call removes no bookmark and changes of a bookmark only
/// its page. Its whole effect is `renumbered`. The codec counts the pages in 32 signed bits and the numbers
/// in 32 unsigned bits: the bounds keep both counts in range. It follows the
/// children of the bookmarks without end where they lead back to a bookmark:
/// flat bookmarks have no children.
#[verifier::external_body]
pub(crate) fn renumber_from(doc: &mut lopdf::Document, start: u32)
    requires
        start >= 1,
        flat_bookmarks(graph_of(*old(doc))),
        graph_of(*old(doc)).objects.dom().finite(),
        graph_of(*old(doc)).objects.len() <= 0x7fff_ffff,
        start + graph_of(*old(doc)).objects.len() <= u32::MAX,
    ensures
        graph_of(*final(doc)) == renumbered(graph_of(*old(doc)), start),
        graph_of(*final(doc)).objects.dom().finite(),
        graph_of(*final(doc)).objects.len() <= graph_of(*old(doc)).objects.len(),
        graph_of(*final(doc)).max_id + 1 == start + graph_of(*final(doc)).objects.len(),
        forall|id: ObjectId| #[trigger]
            graph_of(*final(doc)).objects.dom().contains(id) ==> start <= id.0 <= graph_of(*final(doc)).max_id,
        same_bookmarks_elsewhere(graph_of(*old(doc)), graph_of(*final(doc))),
        exists|origin: Map<ObjectId, ObjectId>|
            moved(graph_of(*old(doc)).objects, graph_of(*final(doc)).objects, origin),
{
    doc.renumber_objects_with(start)
}

/// Reads the field `max_id` of a document.
#[verifier::external_body]
pub(crate) fn max_id(doc: &lopdf::Document) -> (n: u32)
    ensures
        n == graph_of(*doc).max_id,
{
    doc.max_id
}

/// Writes the field `max_id` of a document.
#[verifier::external_body]
pub(crate) fn set_max_id(doc: &mut lopdf::Document, n: u32)
    ensures
        graph_of(*final(doc)) == (Graph { max_id: n, ..graph_of(*old(doc)) }),
{
    doc.max_id = n;
}

/// `BTreeMap::keys` on the objects of a document: every key once, in ascending
/// order of number and then generation.
#[verifier::external_body]
pub(crate) fn object_ids(doc: &lopdf::Document) -> (ids: Vec<ObjectId>)
    ensures
        lists_keys(ids@, graph_of(*doc).objects),
{
    doc.objects.keys().copied().collect()
}

/// `BTreeMap::get` on the objects of a document: a copy of the object under `id`,
/// if there is one.
#[verifier::external_body]
pub(crate) fn object_at(doc: &lopdf::Document, id: ObjectId) -> (found: Option<lopdf::Object>)
    ensures
        found is Some <==> graph_of(*doc).objects.dom().contains(id),
        found is Some ==> value_of(found->Some_0) == graph_of(*doc).objects[id],
{
    doc.objects.get(&id).cloned()
}

/// `BTreeMap::insert` on the objects of a document: `object` stands under `id`,
/// in place of what stood there.
#[verifier::external_body]
pub(crate) fn insert_object(doc: &mut lopdf::Document, id: ObjectId, object: lopdf::Object)
    ensures
        graph_of(*final(doc)) == (Graph {
            objects: graph_of(*old(doc)).objects.insert(id, value_of(object)),
            ..graph_of(*old(doc))
        }),
{
    doc.objects.insert(id, object);
}

/// `Document::get_pages`: the identities of the pages in page order. The codec
/// looks at no more kids than the document has objects.
#[verifier::external_body]
pub(crate) fn page_list(doc: &lopdf::Document) -> (pages: Vec<ObjectId>)
    ensures
        pages@ == page_ids(graph_of(*doc)),
        pages@.len() <= graph_of(*doc).objects.len(),
{
    doc.get_pages().into_values().collect()
}

/// Reads the field `trailer` of a document: a copy of it.
#[verifier::external_body]
pub(crate) fn trailer_of(doc: &lopdf::Document) -> (trailer: lopdf::Dictionary)
    ensures
        entries_of(trailer) == graph_of(*doc).trailer,
{
    doc.trailer.clone()
}

/// Writes the field `trailer` of a document.
#[verifier::external_body]
pub(crate) fn replace_trailer(doc: &mut lopdf::Document, trailer: lopdf::Dictionary)
    ensures
        graph_of(*final(doc)) == (Graph { trailer: entries_of(trailer), ..graph_of(*old(doc)) }),
{
    doc.trailer = trailer;
}

/// `Document::add_bookmark` without a parent, on a bookmark made by
/// `Bookmark::new`: the bookmark gets the next bookmark number, stands in the
/// table under it and is the last of the top-level bookmarks. The codec's third
/// argument, the format, is the level.
#[verifier::external_body]
pub(crate) fn add_bookmark(doc: &mut lopdf::Document, bookmark: &Bookmark) -> (id: u32)
    requires
        graph_of(*old(doc)).max_bookmark_id < u32::MAX,
    ensures
        id == graph_of(*old(doc)).max_bookmark_id + 1,
        graph_of(*final(doc)) == (Graph {
            max_bookmark_id: id,
            bookmarks: graph_of(*old(doc)).bookmarks.push(id),
            bookmark_table: graph_of(*old(doc)).bookmark_table.insert(
                id,
                Mark {
                    children: Seq::empty(),
                    title: bookmark.label@,
                    format: bookmark.level,
                    color: (
                        channel_bits(bookmark.color.0),
                        channel_bits(bookmark.color.1),
                        channel_bits(bookmark.color.2),
                    ),
                    page: bookmark.target,
                    id,
                },
            ),
            ..graph_of(*old(doc))
        }),
{
    let (r, g, b) = bookmark.color;
    let color = [r.into(), g.into(), b.into()];
    doc.add_bookmark(lopdf::Bookmark::new(bookmark.label.clone(), color, bookmark.level, bookmark.target), None)
}

/// `Document::adjust_zero_pages`: the codec changes the page of a bookmark only
/// where the bookmark has children, so with flat bookmarks it changes nothing.
#[verifier::external_body]
pub(crate) fn adjust_zero_pages(doc: &mut lopdf::Document)
    requires
        flat_bookmarks(graph_of(*old(doc))),
    ensures
        graph_of(*final(doc)) == graph_of(*old(doc)),
{
    doc.adjust_zero_pages()
}

/// `Document::build_outline`: without top-level bookmarks the codec does nothing
/// and returns nothing. With some, it returns the identity of the outline root,
/// which has the number after `max_id` and generation 0, and its whole effect is
/// `outlined`: it puts dictionaries without a type under numbers after `max_id`
/// and leaves the objects up to `max_id` as they are. The codec takes one
/// number for the root and two for each bookmark, and panics where they pass 32
/// bits: the bound keeps them in range.
#[verifier::external_body]
pub(crate) fn build_outline(doc: &mut lopdf::Document) -> (root: Option<ObjectId>)
    requires
        flat_bookmarks(graph_of(*old(doc))),
        graph_of(*old(doc)).max_id + 1 + 2 * graph_of(*old(doc)).bookmarks.len() <= u32::MAX,
    ensures
        graph_of(*old(doc)).bookmarks.len() == 0 ==> root is None && graph_of(*final(doc)) == graph_of(*old(doc)),
        graph_of(*old(doc)).bookmarks.len() > 0 ==> root == Some(
            ((graph_of(*old(doc)).max_id + 1) as u32, 0u16),
        ) && graph_of(*final(doc)) == outlined(graph_of(*old(doc))),
        extended(graph_of(*old(doc)).objects, graph_of(*final(doc)).objects, graph_of(*old(doc)).max_id),
{
    doc.build_outline()
}

/// `Document::compress`: its whole effect is `compressed`. The codec changes
/// streams only, and of a stream its content and the entries of its dictionary
/// that say how the content is encoded.
#[verifier::external_body]
pub(crate) fn compress(doc: &mut lopdf::Document)
    ensures
        graph_of(*final(doc)) == compressed(graph_of(*old(doc))),
        same_but_streams(graph_of(*old(doc)).objects, graph_of(*final(doc)).objects),
{
    doc.compress()
}

/// `Object::as_dict`: a copy of the dictionary that the object is, if it is one.
#[verifier::external_body]
pub(crate) fn as_dictionary(object: &lopdf::Object) -> (found: Option<lopdf::Dictionary>)
    ensures
        found is Some <==> value_of(*object) is Dictionary,
        found is Some ==> entries_of(found->Some_0) == value_of(*object)->Dictionary_0,
{
    object.as_dict().ok().cloned()
}

/// `Object::as_stream`: a copy of the dictionary of the stream that the object
/// is, if it is one.
#[verifier::external_body]
pub(crate) fn stream_dictionary(object: &lopdf::Object) -> (found: Option<lopdf::Dictionary>)
    ensures
        found is Some <==> value_of(*object) is Stream,
        found is Some ==> entries_of(found->Some_0) == value_of(*object)->Stream_0.dict,
{
    object.as_stream().ok().map(|stream| stream.dict.clone())
}

/// `Object::as_reference`: the identity that the object refers to, if it is a
/// reference.
#[verifier::external_body]
pub(crate) fn as_reference(object: &lopdf::Object) -> (found: Option<ObjectId>)
    ensures
        found is Some <==> value_of(*object) is Reference,
        found is Some ==> found->Some_0 == value_of(*object)->Reference_0,
{
    object.as_reference().ok()
}

/// `Dictionary::get_type`: the name under `Type`, or else `Linearized` where the
/// dictionary has that key.
#[verifier::external_body]
pub(crate) fn dictionary_type(dictionary: &lopdf::Dictionary) -> (found: Option<Vec<u8>>)
    ensures
        found is Some <==> declared_type(entries_of(*dictionary)) is Some,
        found is Some ==> found->Some_0@ == declared_type(entries_of(*dictionary))->Some_0,
{
    dictionary.get_type().ok().map(|name| name.to_vec())
}

/// `Dictionary::iter`: the keys of the dictionary.
#[verifier::external_body]
pub(crate) fn dictionary_keys(dictionary: &lopdf::Dictionary) -> (keys: Vec<Vec<u8>>)
    ensures
        forall|i: int| 0 <= i < keys@.len() ==> entries_of(*dictionary).dom().contains((#[trigger] keys@[i])@),
        forall|key: Seq<u8>| #[trigger]
            entries_of(*dictionary).dom().contains(key) ==> exists|i: int|
                0 <= i < keys@.len() && (#[trigger] keys@[i])@ == key,
{
    dictionary.iter().map(|(key, _)| key.clone()).collect()
}

/// `Dictionary::get`: a copy of the object under `key`, if there is one.
#[verifier::external_body]
pub(crate) fn dictionary_get(dictionary: &lopdf::Dictionary, key: &Vec<u8>) -> (found: Option<lopdf::Object>)
    ensures
        found is Some <==> entries_of(*dictionary).dom().contains(key@),
        found is Some ==> value_of(found->Some_0) == entries_of(*dictionary)[key@],
{
    dictionary.get(key).ok().cloned()
}

/// `Dictionary::set`: `value` stands under `key`, in place of what stood there.
#[verifier::external_body]
pub(crate) fn dictionary_set(dictionary: &mut lopdf::Dictionary, key: &Vec<u8>, value: lopdf::Object)
    ensures
        entries_of(*final(dictionary)) == entries_of(*old(dictionary)).insert(key@, value_of(value)),
{
    dictionary.set(key.clone(), value)
}

/// `Dictionary::remove`: nothing stands under `key`.
#[verifier::external_body]
pub(crate) fn dictionary_remove(dictionary: &mut lopdf::Dictionary, key: &Vec<u8>)
    ensures
        entries_of(*final(dictionary)) == entries_of(*old(dictionary)).remove(key@),
{
    dictionary.remove(key);
}

/// The variant `Object::Reference`.
#[verifier::external_body]
pub(crate) fn reference_to(id: ObjectId) -> (object: lopdf::Object)
    ensures
        value_of(object) == Value::Reference(id),
{
    lopdf::Object::Reference(id)
}

/// The variant `Object::Integer`.
#[verifier::external_body]
pub(crate) fn integer(n: i64) -> (object: lopdf::Object)
    ensures
        value_of(object) == Value::Integer(n),
{
    lopdf::Object::Integer(n)
}

/// The variant `Object::Array`.
#[verifier::external_body]
pub(crate) fn array(items: Vec<lopdf::Object>) -> (object: lopdf::Object)
    ensures
        value_of(object) == Value::Array(values_of(items@)),
{
    lopdf::Object::Array(items)
}

/// The variant `Object::Dictionary`.
#[verifier::external_body]
pub(crate) fn dictionary_object(dictionary: lopdf::Dictionary) -> (object: lopdf::Object)
    ensures
        value_of(object) == Value::Dictionary(entries_of(dictionary)),
{
    lopdf::Object::Dictionary(dictionary)
}

} // verus!
