//! What holds of every merge: of the order of the pages and of the bookmarks,
//! and of the document that the engine assembles.
use vstd::prelude::*;
use crate::codec::documents_of;
use crate::codec::extended;
use crate::codec::graphs_of;
use crate::codec::moved;
use crate::codec::same_but_streams;
use crate::codec::same_entries;
use crate::codec::same_frame;
use crate::codec::same_leaf;
use crate::model::Entries;
use crate::model::Graph;
use crate::model::ObjectId;
use crate::model::Role;
use crate::model::Value;
use crate::model::ascending_keys;
use crate::model::declared_type;
use crate::model::key_count;
use crate::model::key_kids;
use crate::model::key_linearized;
use crate::model::key_outlines;
use crate::model::key_pages;
use crate::model::key_parent;
use crate::model::key_root;
use crate::model::key_type;
use crate::model::lemma_ascending_keys_list;
use crate::model::role;
use crate::names::distinct_names;
use crate::names::lemma_order_ignores_arrival;
use crate::names::ordered;
use crate::rules::BookmarkView;
use crate::rules::MergeError;
use crate::rules::PageView;
use crate::rules::Progress;
use crate::rules::absorbed_upto;
use crate::rules::adopted;
use crate::rules::adopted_page;
use crate::rules::assembly;
use crate::rules::attached;
use crate::rules::bookmark_for;
use crate::rules::bookmarks_after;
use crate::rules::coherent;
use crate::rules::final_catalog;
use crate::rules::lemma_role_stays;
use crate::rules::lemma_sorting_keeps;
use crate::rules::lemma_written_keys;
use crate::rules::merged;
use crate::rules::page_records;
use crate::rules::page_tree;
use crate::rules::recorded;
use crate::rules::records_for;
use crate::rules::sort_objects;
use crate::rules::taken_in;
use vstd::relations::injective_on;
use vstd::set_lib::lemma_map_size;
use vstd::set_lib::lemma_subset_equality;

verus! {

/// The graph of the input of rank `k` as the merge takes it in.
pub open spec fn staged(inputs: Seq<Graph>, k: nat) -> Graph {
    taken_in(inputs[k as int], absorbed_upto(inputs, k)->Some_0.offset)
}

/// What the codec's renumbering gives of the first `n` inputs: each of them has
/// finitely many objects, and no two of them have an identity in common.
pub open spec fn numbered_apart(inputs: Seq<Graph>, n: nat) -> bool {
    &&& forall|k: nat| k < n ==> (#[trigger] staged(inputs, k)).objects.dom().finite()
    &&& forall|j: nat, k: nat|
        j < k < n ==> (#[trigger] staged(inputs, j)).objects.dom().disjoint(
            (#[trigger] staged(inputs, k)).objects.dom(),
        )
}

/// How many pages the first `n` inputs have together.
pub open spec fn page_total(inputs: Seq<Graph>, n: nat) -> nat
    decreases n,
{
    if n == 0 {
        0
    } else {
        page_total(inputs, (n - 1) as nat) + page_records(staged(inputs, (n - 1) as nat)).len()
    }
}

/// The pages of the first `n` inputs: those of the first input in the order of
/// its page tree, then those of the second, and so on.
pub open spec fn pages_upto(inputs: Seq<Graph>, n: nat) -> Seq<PageView>
    decreases n,
{
    if n == 0 {
        Seq::empty()
    } else {
        let g = staged(inputs, (n - 1) as nat);
        pages_upto(inputs, (n - 1) as nat) + records_for(g, (n - 1) as nat, page_records(g))
    }
}

/// The state after `n` inputs holds the pages of those inputs, input by input
/// and each input's pages in the order of its page tree, and their number is
/// the sum of the page counts of the inputs.
pub proof fn lemma_pages_in_input_order(inputs: Seq<Graph>, n: nat)
    requires
        absorbed_upto(inputs, n) is Some,
    ensures
        absorbed_upto(inputs, n)->Some_0.rank == n,
        absorbed_upto(inputs, n)->Some_0.records == pages_upto(inputs, n),
        absorbed_upto(inputs, n)->Some_0.records.len() == page_total(inputs, n),
    decreases n,
{
    if n > 0 {
        let k = (n - 1) as nat;
        let p = absorbed_upto(inputs, k)->Some_0;
        lemma_pages_in_input_order(inputs, k);
        let g = staged(inputs, k);
        let noted = recorded(p, g);
        lemma_sorting_keeps(noted, g.objects, ascending_keys(g.objects));
    }
}

/// The records stand in merge order: by the rank of their document, and within
/// a document by their place in its page tree.
pub open spec fn in_merge_order(records: Seq<PageView>) -> bool {
    forall|i: int, j: int|
        0 <= i < j < records.len() ==> (#[trigger] records[i]).rank < (#[trigger] records[j]).rank || (records[i].rank
            == records[j].rank && records[i].position < records[j].position)
}

/// The pages of the first `n` inputs stand in merge order, and each belongs to
/// one of those inputs.
pub proof fn lemma_merge_order(inputs: Seq<Graph>, n: nat)
    ensures
        in_merge_order(pages_upto(inputs, n)),
        forall|i: int| 0 <= i < pages_upto(inputs, n).len() ==> (#[trigger] pages_upto(inputs, n)[i]).rank < n,
    decreases n,
{
    if n > 0 {
        lemma_merge_order(inputs, (n - 1) as nat);
    }
}

/// The bookmarks are numbered from 1 in their order: the label of each is
/// `Page_` and its number, its level is 0 and its colour is the fixed one.
pub open spec fn numbered(bookmarks: Seq<BookmarkView>) -> bool {
    forall|j: int|
        0 <= j < bookmarks.len() ==> #[trigger] bookmarks[j] == bookmark_for((j + 1) as nat, bookmarks[j].target)
}

/// Whether `target` is the first page of a document.
pub open spec fn is_first_page(target: ObjectId, records: Seq<PageView>) -> bool {
    exists|i: int| 0 <= i < records.len() && (#[trigger] records[i]).position == 0 && records[i].id == target
}

/// Whether a bookmark leads to `target`.
pub open spec fn is_marked(target: ObjectId, bookmarks: Seq<BookmarkView>) -> bool {
    exists|j: int| 0 <= j < bookmarks.len() && (#[trigger] bookmarks[j]).target == target
}

/// Every bookmark leads to the first page of a document, and the first page of
/// every document has a bookmark.
pub open spec fn lead_to_first_pages(bookmarks: Seq<BookmarkView>, records: Seq<PageView>) -> bool {
    &&& forall|j: int| 0 <= j < bookmarks.len() ==> is_first_page((#[trigger] bookmarks[j]).target, records)
    &&& forall|i: int|
        0 <= i < records.len() && (#[trigger] records[i]).position == 0 ==> is_marked(records[i].id, bookmarks)
}

/// One more document keeps the bookmarks numbered and leading to first pages.
proof fn lemma_bookmarks_step(bookmarks: Seq<BookmarkView>, records: Seq<PageView>, g: Graph, rank: nat)
    requires
        numbered(bookmarks),
        lead_to_first_pages(bookmarks, records),
    ensures
        numbered(bookmarks_after(bookmarks, page_records(g))),
        lead_to_first_pages(
            bookmarks_after(bookmarks, page_records(g)),
            records + records_for(g, rank, page_records(g)),
        ),
{
    let pages = page_records(g);
    let fresh = records_for(g, rank, pages);
    let marks = bookmarks_after(bookmarks, pages);
    let all = records + fresh;
    assert forall|j: int| 0 <= j < marks.len() implies #[trigger] marks[j] == bookmark_for(
        (j + 1) as nat,
        marks[j].target,
    ) by {
        if j < bookmarks.len() {
            assert(marks[j] == bookmarks[j]);
        }
    }
    assert forall|j: int| 0 <= j < marks.len() implies is_first_page((#[trigger] marks[j]).target, all) by {
        if j < bookmarks.len() {
            assert(marks[j] == bookmarks[j]);
            assert(is_first_page(bookmarks[j].target, records));
            let i = choose|i: int|
                0 <= i < records.len() && (#[trigger] records[i]).position == 0 && records[i].id
                    == bookmarks[j].target;
            assert(all[i] == records[i]);
        } else {
            let i = records.len() as int;
            assert(all[i] == fresh[0]);
            assert(all[i].position == 0 && all[i].id == marks[j].target);
        }
    }
    assert forall|i: int| 0 <= i < all.len() && (#[trigger] all[i]).position == 0 implies is_marked(
        all[i].id,
        marks,
    ) by {
        if i < records.len() {
            assert(all[i] == records[i]);
            assert(is_marked(records[i].id, bookmarks));
            let j = choose|j: int| 0 <= j < bookmarks.len() && (#[trigger] bookmarks[j]).target == records[i].id;
            assert(marks[j] == bookmarks[j]);
        } else {
            assert(all[i] == fresh[i - records.len()]);
            let j = bookmarks.len() as int;
            assert(marks[j].target == pages[0]);
        }
    }
}

/// After any number of inputs the bookmarks are numbered from 1, one for each
/// input that has a page, and lead to the first pages of those inputs.
pub proof fn lemma_bookmarks(inputs: Seq<Graph>, n: nat)
    requires
        absorbed_upto(inputs, n) is Some,
    ensures
        numbered(absorbed_upto(inputs, n)->Some_0.bookmarks),
        lead_to_first_pages(absorbed_upto(inputs, n)->Some_0.bookmarks, absorbed_upto(inputs, n)->Some_0.records),
    decreases n,
{
    if n > 0 {
        let k = (n - 1) as nat;
        let p = absorbed_upto(inputs, k)->Some_0;
        lemma_bookmarks(inputs, k);
        let g = staged(inputs, k);
        let noted = recorded(p, g);
        lemma_sorting_keeps(noted, g.objects, ascending_keys(g.objects));
        lemma_bookmarks_step(p.bookmarks, p.records, g, p.rank);
    }
}

/// What stands in the pool with the pages in it: under the identity of a page
/// that page with its parent, and under every other identity what the pool held.
pub proof fn lemma_adopted(pool: Map<ObjectId, Value>, records: Seq<PageView>, parent: ObjectId)
    ensures
        forall|id: ObjectId| #[trigger]
            pool.dom().contains(id) ==> adopted(pool, records, parent).dom().contains(id),
        forall|i: int|
            0 <= i < records.len() ==> adopted(pool, records, parent).dom().contains((#[trigger] records[i]).id),
        forall|id: ObjectId| #[trigger]
            adopted(pool, records, parent).dom().contains(id) ==> {
                ||| pool.dom().contains(id) && adopted(pool, records, parent)[id] == pool[id] && (forall|i: int|
                    0 <= i < records.len() ==> (#[trigger] records[i]).id != id)
                ||| exists|i: int|
                    0 <= i < records.len() && (#[trigger] records[i]).id == id && adopted(pool, records, parent)[id]
                        == adopted_page(records[i], parent)
            },
    decreases records.len(),
{
    if records.len() > 0 {
        let rest = records.drop_last();
        let last = records.last();
        lemma_adopted(pool, rest, parent);
        let before = adopted(pool, rest, parent);
        let now = adopted(pool, records, parent);
        assert forall|i: int| 0 <= i < records.len() implies now.dom().contains((#[trigger] records[i]).id) by {
            if i < rest.len() {
                assert(rest[i] == records[i]);
            }
        }
        assert forall|id: ObjectId| #[trigger] now.dom().contains(id) implies {
            ||| pool.dom().contains(id) && now[id] == pool[id] && (forall|i: int|
                0 <= i < records.len() ==> (#[trigger] records[i]).id != id)
            ||| exists|i: int|
                0 <= i < records.len() && (#[trigger] records[i]).id == id && now[id] == adopted_page(
                    records[i],
                    parent,
                )
        } by {
            if id == last.id {
                assert(records[records.len() - 1].id == id);
            } else {
                assert(before.dom().contains(id));
                if pool.dom().contains(id) && before[id] == pool[id] && (forall|i: int|
                    0 <= i < rest.len() ==> (#[trigger] rest[i]).id != id) {
                    assert forall|i: int| 0 <= i < records.len() implies (#[trigger] records[i]).id != id by {
                        if i < rest.len() {
                            assert(rest[i] == records[i]);
                        }
                    }
                } else {
                    let i = choose|i: int|
                        0 <= i < rest.len() && (#[trigger] rest[i]).id == id && before[id] == adopted_page(
                            rest[i],
                            parent,
                        );
                    assert(records[i] == rest[i]);
                }
            }
        }
    }
}

/// The assembled document holds exactly one catalog and exactly one page tree
/// node, the survivors, and no outline of an input.
pub open spec fn one_catalog_one_tree(objects: Map<ObjectId, Value>, catalog: ObjectId, pages: ObjectId) -> bool {
    &&& objects.dom().contains(catalog)
    &&& objects.dom().contains(pages)
    &&& forall|id: ObjectId| #[trigger]
        objects.dom().contains(id) ==> {
            &&& role(objects[id]) == Role::Catalog <==> id == catalog
            &&& role(objects[id]) == Role::Pages <==> id == pages
            &&& role(objects[id]) != Role::Outline
        }
}

/// The page tree node counts and lists the pages: `Count` is their number and
/// `Kids` refers to them in order.
pub open spec fn counts_and_lists(node: Value, records: Seq<PageView>) -> bool {
    &&& node is Dictionary
    &&& node->Dictionary_0.dom().contains(key_count())
    &&& node->Dictionary_0[key_count()] == Value::Integer(records.len() as i64)
    &&& node->Dictionary_0.dom().contains(key_kids())
    &&& node->Dictionary_0[key_kids()] is Array
    &&& node->Dictionary_0[key_kids()]->Array_0.len() == records.len()
    &&& forall|i: int|
        0 <= i < records.len() ==> (#[trigger] node->Dictionary_0[key_kids()]->Array_0[i]) == Value::Reference(
            records[i].id,
        )
}

/// Whether `object` is a dictionary that refers to `target` under `key`.
pub open spec fn refers(object: Value, key: Seq<u8>, target: ObjectId) -> bool {
    &&& object is Dictionary
    &&& object->Dictionary_0.dom().contains(key)
    &&& object->Dictionary_0[key] == Value::Reference(target)
}

/// Every reference that the engine writes leads to an object of the document:
/// the trailer names the catalog, the catalog names the page tree node and no
/// outline, and every page is in the document and names the page tree node as
/// its parent.
pub open spec fn written_references_resolve(
    g: Graph,
    records: Seq<PageView>,
    catalog: ObjectId,
    pages: ObjectId,
) -> bool {
    &&& g.trailer.dom().contains(key_root())
    &&& g.trailer[key_root()] == Value::Reference(catalog)
    &&& g.objects.dom().contains(catalog)
    &&& refers(g.objects[catalog], key_pages(), pages)
    &&& !g.objects[catalog]->Dictionary_0.dom().contains(key_outlines())
    &&& g.objects.dom().contains(pages)
    &&& forall|i: int|
        0 <= i < records.len() ==> {
            &&& g.objects.dom().contains((#[trigger] records[i]).id)
            &&& refers(g.objects[records[i].id], key_parent(), pages)
        }
}

/// Every object that was copied stands in the assembled document as it was.
pub open spec fn copies_survive(objects: Map<ObjectId, Value>, pool: Map<ObjectId, Value>) -> bool {
    forall|id: ObjectId| #[trigger] pool.dom().contains(id) ==> objects.dom().contains(id) && objects[id] == pool[id]
}

/// Of the document that the engine assembles of a coherent state: it holds one
/// catalog and one page tree node, the node counts and lists the pages, what
/// the engine wrote refers to objects of the document, and what was copied is
/// there as it was.
pub proof fn lemma_assembled(p: Progress)
    requires
        coherent(p),
        assembly(p) is Ok,
    ensures
        one_catalog_one_tree(assembly(p)->Ok_0.objects, p.catalog->Some_0.0, p.pages->Some_0.0),
        counts_and_lists(assembly(p)->Ok_0.objects[p.pages->Some_0.0], p.records),
        p.records.len() as i64 == p.records.len(),
        written_references_resolve(assembly(p)->Ok_0, p.records, p.catalog->Some_0.0, p.pages->Some_0.0),
        copies_survive(assembly(p)->Ok_0.objects, p.pool),
{
    let pages = p.pages->Some_0;
    let catalog = p.catalog->Some_0;
    let g = assembly(p)->Ok_0;
    let with_pages = adopted(p.pool, p.records, pages.0);
    let node = Value::Dictionary(page_tree(pages.1, p.records));
    let root = Value::Dictionary(final_catalog(catalog.1, pages.0));
    assert(g.objects == with_pages.insert(pages.0, node).insert(catalog.0, root));
    lemma_adopted(p.pool, p.records, pages.0);
    lemma_written_keys();
    lemma_role_stays(pages.1, key_count(), Value::Integer(p.records.len() as i64));
    lemma_role_stays(
        pages.1.insert(key_count(), Value::Integer(p.records.len() as i64)),
        key_kids(),
        page_tree(pages.1, p.records)[key_kids()],
    );
    assert(role(node) == Role::Pages);
    lemma_role_stays(catalog.1, key_pages(), Value::Reference(pages.0));
    lemma_role_stays(catalog.1.insert(key_pages(), Value::Reference(pages.0)), key_outlines(), Value::Null);
    assert(role(root) == Role::Catalog);
    assert(key_count() != key_kids()) by {
        assert(key_count().len() != key_kids().len());
    }
    assert(key_pages() != key_outlines()) by {
        assert(key_pages().len() != key_outlines().len());
    }
    assert forall|id: ObjectId| #[trigger] with_pages.dom().contains(id) implies role(with_pages[id]) == Role::Other
        || role(with_pages[id]) == Role::Page by {
        if !(p.pool.dom().contains(id) && with_pages[id] == p.pool[id]) {
            let i = choose|i: int|
                0 <= i < p.records.len() && (#[trigger] p.records[i]).id == id && with_pages[id] == adopted_page(
                    p.records[i],
                    pages.0,
                );
            lemma_role_stays(p.records[i].entries, key_parent(), Value::Reference(pages.0));
        }
    }
    assert forall|i: int| 0 <= i < p.records.len() implies {
        &&& g.objects.dom().contains((#[trigger] p.records[i]).id)
        &&& refers(g.objects[p.records[i].id], key_parent(), pages.0)
    } by {
        let id = p.records[i].id;
        assert(with_pages.dom().contains(id));
        let j = choose|j: int|
            0 <= j < p.records.len() && (#[trigger] p.records[j]).id == id && with_pages[id] == adopted_page(
                p.records[j],
                pages.0,
            );
        assert(g.objects[id] == with_pages[id]);
    }
    assert forall|id: ObjectId| #[trigger] p.pool.dom().contains(id) implies g.objects.dom().contains(id)
        && g.objects[id] == p.pool[id] by {
        assert(with_pages.dom().contains(id));
    }
}

/// The page tree node of the document that is assembled of `inputs` counts the
/// pages of all of them: `Count` is the sum of their page counts, and `Kids`
/// has as many items.
pub proof fn lemma_count_is_page_total(inputs: Seq<Graph>)
    requires
        absorbed_upto(inputs, inputs.len()) is Some,
        coherent(absorbed_upto(inputs, inputs.len())->Some_0),
        assembly(absorbed_upto(inputs, inputs.len())->Some_0) is Ok,
    ensures
        ({
            let p = absorbed_upto(inputs, inputs.len())->Some_0;
            let node = assembly(p)->Ok_0.objects[p.pages->Some_0.0]->Dictionary_0;
            &&& node[key_count()] == Value::Integer(page_total(inputs, inputs.len()) as i64)
            &&& page_total(inputs, inputs.len()) as i64 == page_total(inputs, inputs.len())
            &&& node[key_kids()]->Array_0.len() == page_total(inputs, inputs.len())
        }),
{
    let p = absorbed_upto(inputs, inputs.len())->Some_0;
    lemma_pages_in_input_order(inputs, inputs.len());
    lemma_assembled(p);
}

/// Whether `object` was copied from one of the first `n` inputs: it stands
/// under `id` in one of them, as the merge takes it in, and has no structural
/// role.
pub open spec fn copied_from(inputs: Seq<Graph>, n: nat, id: ObjectId, object: Value) -> bool {
    exists|k: nat|
        k < n && (#[trigger] staged(inputs, k)).objects.dom().contains(id) && staged(inputs, k).objects[id] == object
            && role(object) == Role::Other
}

/// Whether the pool holds every object of `g` that has no structural role, as
/// it is.
pub open spec fn holds_copies(pool: Map<ObjectId, Value>, g: Graph) -> bool {
    forall|id: ObjectId| #[trigger]
        g.objects.dom().contains(id) && role(g.objects[id]) == Role::Other ==> pool.dom().contains(id) && pool[id]
            == g.objects[id]
}

/// Sorting copies the objects without a structural role and no others.
proof fn lemma_sorted_pool(p: Progress, objects: Map<ObjectId, Value>, ids: Seq<ObjectId>)
    ensures
        forall|i: int|
            0 <= i < ids.len() && role(objects[#[trigger] ids[i]]) == Role::Other ==> sort_objects(
                p,
                objects,
                ids,
            ).pool.dom().contains(ids[i]),
        forall|id: ObjectId| #[trigger]
            p.pool.dom().contains(id) ==> sort_objects(p, objects, ids).pool.dom().contains(id),
        forall|id: ObjectId| #[trigger]
            sort_objects(p, objects, ids).pool.dom().contains(id) ==> {
                ||| p.pool.dom().contains(id) && sort_objects(p, objects, ids).pool[id] == p.pool[id]
                ||| ids.contains(id) && sort_objects(p, objects, ids).pool[id] == objects[id] && role(objects[id])
                    == Role::Other
            },
    decreases ids.len(),
{
    if ids.len() > 0 {
        let rest = ids.drop_last();
        let last = ids.last();
        lemma_sorted_pool(p, objects, rest);
        let before = sort_objects(p, objects, rest);
        let now = sort_objects(p, objects, ids);
        assert forall|i: int|
            0 <= i < ids.len() && role(objects[#[trigger] ids[i]]) == Role::Other implies now.pool.dom().contains(
            ids[i],
        ) by {
            if i < rest.len() {
                assert(rest[i] == ids[i]);
            }
        }
        assert forall|id: ObjectId| #[trigger] now.pool.dom().contains(id) implies {
            ||| p.pool.dom().contains(id) && now.pool[id] == p.pool[id]
            ||| ids.contains(id) && now.pool[id] == objects[id] && role(objects[id]) == Role::Other
        } by {
            if id == last && role(objects[last]) == Role::Other {
                assert(ids[ids.len() - 1] == last);
            } else {
                assert(before.pool.dom().contains(id));
                if !(p.pool.dom().contains(id) && before.pool[id] == p.pool[id]) {
                    let i = choose|i: int| 0 <= i < rest.len() && rest[i] == id;
                    assert(ids[i] == id);
                }
            }
        }
    }
}

/// After `n` inputs that are numbered apart, the pool holds the objects without
/// a structural role of all the inputs, each as it is, and nothing else.
pub proof fn lemma_pool(inputs: Seq<Graph>, n: nat)
    requires
        absorbed_upto(inputs, n) is Some,
        numbered_apart(inputs, n),
    ensures
        forall|id: ObjectId| #[trigger]
            absorbed_upto(inputs, n)->Some_0.pool.dom().contains(id) ==> copied_from(
                inputs,
                n,
                id,
                absorbed_upto(inputs, n)->Some_0.pool[id],
            ),
        forall|k: nat| k < n ==> holds_copies(absorbed_upto(inputs, n)->Some_0.pool, #[trigger] staged(inputs, k)),
    decreases n,
{
    if n > 0 {
        let m = (n - 1) as nat;
        let p = absorbed_upto(inputs, m)->Some_0;
        lemma_pool(inputs, m);
        let g = staged(inputs, m);
        let noted = recorded(p, g);
        let ids = ascending_keys(g.objects);
        lemma_ascending_keys_list(g.objects);
        lemma_sorted_pool(noted, g.objects, ids);
        let q = absorbed_upto(inputs, n)->Some_0;
        assert(q == sort_objects(noted, g.objects, ids));
        assert forall|id: ObjectId| #[trigger] q.pool.dom().contains(id) implies copied_from(
            inputs,
            n,
            id,
            q.pool[id],
        ) by {
            if p.pool.dom().contains(id) && q.pool[id] == p.pool[id] {
                assert(copied_from(inputs, m, id, p.pool[id]));
                let k = choose|k: nat|
                    k < m && (#[trigger] staged(inputs, k)).objects.dom().contains(id) && staged(
                        inputs,
                        k,
                    ).objects[id] == p.pool[id] && role(p.pool[id]) == Role::Other;
                assert(k < n && staged(inputs, k).objects.dom().contains(id));
            } else {
                assert(ids.contains(id));
                assert(m < n && staged(inputs, m).objects.dom().contains(id));
            }
        }
        assert forall|k: nat| k < n implies holds_copies(q.pool, #[trigger] staged(inputs, k)) by {
            let h = staged(inputs, k);
            assert forall|id: ObjectId| #[trigger] h.objects.dom().contains(id) && role(h.objects[id])
                == Role::Other implies q.pool.dom().contains(id) && q.pool[id] == h.objects[id] by {
                if k < m {
                    assert(holds_copies(p.pool, staged(inputs, k)));
                    assert(p.pool.dom().contains(id) && p.pool[id] == h.objects[id]);
                    assert(staged(inputs, k).objects.dom().disjoint(staged(inputs, m).objects.dom()));
                    assert(!g.objects.dom().contains(id));
                    assert(noted.pool.dom().contains(id));
                    assert(q.pool.dom().contains(id));
                    if !(p.pool.dom().contains(id) && q.pool[id] == p.pool[id]) {
                        assert(ids.contains(id));
                        assert(g.objects.dom().contains(id));
                    }
                } else {
                    assert(ids.contains(id));
                    let i = choose|i: int| 0 <= i < ids.len() && ids[i] == id;
                    assert(role(g.objects[ids[i]]) == Role::Other);
                    assert(q.pool.dom().contains(ids[i]));
                    if p.pool.dom().contains(id) && q.pool[id] == p.pool[id] {
                        assert(copied_from(inputs, m, id, p.pool[id]));
                        let j = choose|j: nat|
                            j < m && (#[trigger] staged(inputs, j)).objects.dom().contains(id) && staged(
                                inputs,
                                j,
                            ).objects[id] == p.pool[id] && role(p.pool[id]) == Role::Other;
                        assert(staged(inputs, j).objects.dom().disjoint(staged(inputs, m).objects.dom()));
                        assert(false);
                    }
                }
            }
        }
    }
}

/// Whether at most one of `objects` has the given role.
pub open spec fn at_most_one(objects: Map<ObjectId, Value>, r: Role) -> bool {
    forall|a: ObjectId, b: ObjectId|
        #![trigger objects.dom().contains(a), objects.dom().contains(b)]
        objects.dom().contains(a) && objects.dom().contains(b) && role(objects[a]) == r && role(objects[b]) == r
            ==> a == b
}

/// Whether one of `objects` has the given role.
pub open spec fn some_of(objects: Map<ObjectId, Value>, r: Role) -> bool {
    exists|id: ObjectId| #[trigger] objects.dom().contains(id) && role(objects[id]) == r
}

/// Whether `node` is a dictionary that counts `n` pages and lists `n` kids.
pub open spec fn counts(node: Value, n: nat) -> bool {
    &&& node is Dictionary
    &&& node->Dictionary_0.dom().contains(key_count())
    &&& node->Dictionary_0[key_count()] == Value::Integer(n as i64)
    &&& node->Dictionary_0.dom().contains(key_kids())
    &&& node->Dictionary_0[key_kids()] is Array
    &&& node->Dictionary_0[key_kids()]->Array_0.len() == n
}

/// Whether `objects` are those of a tidy document with `n` pages: at most one
/// of them is a catalog and at most one a page tree node, which counts `n`
/// pages and lists `n` kids, and none is an outline of an input.
pub open spec fn tidy(objects: Map<ObjectId, Value>, n: nat) -> bool {
    &&& at_most_one(objects, Role::Catalog)
    &&& at_most_one(objects, Role::Pages)
    &&& forall|id: ObjectId| #[trigger] objects.dom().contains(id) ==> role(objects[id]) != Role::Outline
    &&& forall|id: ObjectId| #[trigger]
        objects.dom().contains(id) && role(objects[id]) == Role::Pages ==> counts(objects[id], n)
}

/// Whether `objects` hold a catalog and a page tree node.
pub open spec fn whole(objects: Map<ObjectId, Value>) -> bool {
    some_of(objects, Role::Catalog) && some_of(objects, Role::Pages)
}

/// The document that the engine assembles of a coherent state is tidy and
/// holds a catalog and a page tree node.
pub proof fn lemma_assembled_tidy(p: Progress)
    requires
        coherent(p),
        assembly(p) is Ok,
    ensures
        tidy(assembly(p)->Ok_0.objects, p.records.len()),
        whole(assembly(p)->Ok_0.objects),
{
    lemma_assembled(p);
    let objects = assembly(p)->Ok_0.objects;
    assert(objects.dom().contains(p.catalog->Some_0.0));
    assert(objects.dom().contains(p.pages->Some_0.0));
}

/// An object that is what it was but for what references name has the role
/// that it had, and counts and lists as many pages.
pub proof fn lemma_frame(before: Value, after: Value, n: nat)
    requires
        same_frame(before, after),
    ensures
        role(after) == role(before),
        counts(before, n) ==> counts(after, n),
{
    match before {
        Value::Dictionary(entries) => {
            lemma_same_entries(entries, after->Dictionary_0);
            if counts(before, n) {
                assert(entries.dom().contains(key_count()));
                assert(entries.dom().contains(key_kids()));
            }
        },
        Value::Stream(stream) => {
            lemma_same_entries(stream.dict, after->Stream_0.dict);
        },
        _ => {},
    }
}

/// Entries that are what they were but for what references name declare the
/// type that they declared.
proof fn lemma_same_entries(before: Entries, after: Entries)
    requires
        same_entries(before, after),
    ensures
        declared_type(after) == declared_type(before),
{
    if before.dom().contains(key_type()) {
        assert(same_leaf(before[key_type()], after[key_type()]));
    }
    assert(before.dom().contains(key_linearized()) == after.dom().contains(key_linearized()));
}

/// Objects that were moved are tidy where they were.
pub proof fn lemma_moved_tidy(
    before: Map<ObjectId, Value>,
    after: Map<ObjectId, Value>,
    origin: Map<ObjectId, ObjectId>,
    n: nat,
)
    requires
        moved(before, after, origin),
        tidy(before, n),
    ensures
        tidy(after, n),
{
    assert forall|id: ObjectId| #[trigger] after.dom().contains(id) implies role(after[id]) == role(
        before[origin[id]],
    ) && (counts(before[origin[id]], n) ==> counts(after[id], n)) by {
        lemma_frame(before[origin[id]], after[id], n);
    }
    assert forall|a: ObjectId, b: ObjectId|
        #![trigger after.dom().contains(a), after.dom().contains(b)]
        after.dom().contains(a) && after.dom().contains(b) && role(after[a]) == Role::Catalog && role(after[b])
            == Role::Catalog implies a == b by {
        assert(before.dom().contains(origin[a]) && before.dom().contains(origin[b]));
        assert(origin[a] == origin[b]);
    }
    assert forall|a: ObjectId, b: ObjectId|
        #![trigger after.dom().contains(a), after.dom().contains(b)]
        after.dom().contains(a) && after.dom().contains(b) && role(after[a]) == Role::Pages && role(after[b])
            == Role::Pages implies a == b by {
        assert(before.dom().contains(origin[a]) && before.dom().contains(origin[b]));
        assert(origin[a] == origin[b]);
    }
    assert forall|id: ObjectId| #[trigger] after.dom().contains(id) && role(after[id]) == Role::Pages implies counts(
        after[id],
        n,
    ) by {
        assert(before.dom().contains(origin[id]));
    }
    assert forall|id: ObjectId| #[trigger] after.dom().contains(id) implies role(after[id]) != Role::Outline by {
        assert(before.dom().contains(origin[id]));
    }
}

/// Where as many objects were moved as there were, each of them was moved: what
/// had a role before has it after.
pub proof fn lemma_moved_whole(
    before: Map<ObjectId, Value>,
    after: Map<ObjectId, Value>,
    origin: Map<ObjectId, ObjectId>,
    r: Role,
)
    requires
        moved(before, after, origin),
        before.dom().finite(),
        after.dom().finite(),
        after.len() == before.len(),
        some_of(before, r),
    ensures
        some_of(after, r),
{
    let from = |id: ObjectId| origin[id];
    let image = after.dom().map(from);
    assert(injective_on(from, after.dom()));
    lemma_map_size(after.dom(), image, from);
    assert(image.subset_of(before.dom())) by {
        assert forall|x: ObjectId| image.contains(x) implies before.dom().contains(x) by {
            let id = choose|id: ObjectId| after.dom().contains(id) && x == from(id);
            assert(before.dom().contains(origin[id]));
        }
    }
    lemma_subset_equality(image, before.dom());
    let old = choose|id: ObjectId| #[trigger] before.dom().contains(id) && role(before[id]) == r;
    assert(image.contains(old));
    let id = choose|id: ObjectId| after.dom().contains(id) && old == from(id);
    lemma_frame(before[origin[id]], after[id], 0);
    assert(after.dom().contains(id) && role(after[id]) == r);
}

/// Tidy objects are tidy with dictionaries without a type beside them.
pub proof fn lemma_extended_tidy(before: Map<ObjectId, Value>, after: Map<ObjectId, Value>, last: u32, n: nat)
    requires
        extended(before, after, last),
        forall|id: ObjectId| #[trigger] before.dom().contains(id) ==> id.0 <= last,
        tidy(before, n),
    ensures
        tidy(after, n),
        whole(before) ==> whole(after),
{
    assert forall|id: ObjectId| #[trigger] after.dom().contains(id) implies (before.dom().contains(id) && after[id]
        == before[id]) || role(after[id]) == Role::Other by {}
    assert forall|a: ObjectId, b: ObjectId|
        #![trigger after.dom().contains(a), after.dom().contains(b)]
        after.dom().contains(a) && after.dom().contains(b) && role(after[a]) == Role::Catalog && role(after[b])
            == Role::Catalog implies a == b by {
        assert(before.dom().contains(a) && before.dom().contains(b));
    }
    assert forall|a: ObjectId, b: ObjectId|
        #![trigger after.dom().contains(a), after.dom().contains(b)]
        after.dom().contains(a) && after.dom().contains(b) && role(after[a]) == Role::Pages && role(after[b])
            == Role::Pages implies a == b by {
        assert(before.dom().contains(a) && before.dom().contains(b));
    }
    if whole(before) {
        let c = choose|id: ObjectId| #[trigger] before.dom().contains(id) && role(before[id]) == Role::Catalog;
        let t = choose|id: ObjectId| #[trigger] before.dom().contains(id) && role(before[id]) == Role::Pages;
        assert(after.dom().contains(c) && role(after[c]) == Role::Catalog);
        assert(after.dom().contains(t) && role(after[t]) == Role::Pages);
    }
}

/// A tidy document is tidy with an outline attached to its catalog.
pub proof fn lemma_attached_tidy(g: Graph, outline: ObjectId, n: nat)
    requires
        tidy(g.objects, n),
    ensures
        tidy(attached(g, outline).objects, n),
        whole(g.objects) ==> whole(attached(g, outline).objects),
{
    let after = attached(g, outline).objects;
    assert(key_outlines() != key_type() && key_outlines() != key_linearized() && key_outlines() != key_count()
        && key_outlines() != key_kids()) by {
        assert(key_outlines().len() == 8);
        assert(key_type().len() == 4);
        assert(key_linearized().len() == 10);
        assert(key_count().len() == 5);
        assert(key_kids().len() == 4);
    }
    assert forall|id: ObjectId| #[trigger] after.dom().contains(id) implies g.objects.dom().contains(id) && role(
        after[id],
    ) == role(g.objects[id]) && (counts(g.objects[id], n) ==> counts(after[id], n)) by {}
    assert forall|id: ObjectId| #[trigger] g.objects.dom().contains(id) implies after.dom().contains(id) by {}
    assert forall|a: ObjectId, b: ObjectId|
        #![trigger after.dom().contains(a), after.dom().contains(b)]
        after.dom().contains(a) && after.dom().contains(b) && role(after[a]) == Role::Catalog && role(after[b])
            == Role::Catalog implies a == b by {
        assert(g.objects.dom().contains(a) && g.objects.dom().contains(b));
    }
    assert forall|a: ObjectId, b: ObjectId|
        #![trigger after.dom().contains(a), after.dom().contains(b)]
        after.dom().contains(a) && after.dom().contains(b) && role(after[a]) == Role::Pages && role(after[b])
            == Role::Pages implies a == b by {
        assert(g.objects.dom().contains(a) && g.objects.dom().contains(b));
    }
    if whole(g.objects) {
        let c = choose|id: ObjectId| #[trigger] g.objects.dom().contains(id) && role(g.objects[id]) == Role::Catalog;
        let t = choose|id: ObjectId| #[trigger] g.objects.dom().contains(id) && role(g.objects[id]) == Role::Pages;
        assert(after.dom().contains(c) && role(after[c]) == Role::Catalog);
        assert(after.dom().contains(t) && role(after[t]) == Role::Pages);
    }
}

/// Tidy objects are tidy with their streams compressed.
pub proof fn lemma_compressed_tidy(before: Map<ObjectId, Value>, after: Map<ObjectId, Value>, n: nat)
    requires
        same_but_streams(before, after),
        tidy(before, n),
    ensures
        tidy(after, n),
        whole(before) ==> whole(after),
{
    assert forall|id: ObjectId| #[trigger] after.dom().contains(id) implies before.dom().contains(id) && role(
        after[id],
    ) == role(before[id]) && (counts(before[id], n) ==> counts(after[id], n)) by {}
    assert forall|a: ObjectId, b: ObjectId|
        #![trigger after.dom().contains(a), after.dom().contains(b)]
        after.dom().contains(a) && after.dom().contains(b) && role(after[a]) == Role::Catalog && role(after[b])
            == Role::Catalog implies a == b by {
        assert(before.dom().contains(a) && before.dom().contains(b));
    }
    assert forall|a: ObjectId, b: ObjectId|
        #![trigger after.dom().contains(a), after.dom().contains(b)]
        after.dom().contains(a) && after.dom().contains(b) && role(after[a]) == Role::Pages && role(after[b])
            == Role::Pages implies a == b by {
        assert(before.dom().contains(a) && before.dom().contains(b));
    }
    if whole(before) {
        let c = choose|id: ObjectId| #[trigger] before.dom().contains(id) && role(before[id]) == Role::Catalog;
        let t = choose|id: ObjectId| #[trigger] before.dom().contains(id) && role(before[id]) == Role::Pages;
        assert(after.dom().contains(c) && role(after[c]) == Role::Catalog);
        assert(after.dom().contains(t) && role(after[t]) == Role::Pages);
    }
}

/// Whether one of `objects` is a dictionary of the given role.
pub open spec fn holds_role(objects: Map<ObjectId, Value>, r: Role) -> bool {
    exists|id: ObjectId| #[trigger] objects.dom().contains(id) && objects[id] is Dictionary && role(objects[id]) == r
}

/// Whether one of the objects under `ids` is a dictionary of the given role.
pub open spec fn lists_role(objects: Map<ObjectId, Value>, ids: Seq<ObjectId>, r: Role) -> bool {
    exists|i: int| 0 <= i < ids.len() && objects[#[trigger] ids[i]] is Dictionary && role(objects[ids[i]]) == r
}

/// Whether one of the first `n` inputs, as the merge takes it in, holds a
/// dictionary of the given role.
pub open spec fn some_input_holds(inputs: Seq<Graph>, n: nat, r: Role) -> bool {
    exists|k: nat| k < n && holds_role(#[trigger] staged(inputs, k).objects, r)
}

/// After sorting, a catalog survives where one survived before or one was
/// sorted, and so does a page tree node.
proof fn lemma_sorted_survivors(p: Progress, objects: Map<ObjectId, Value>, ids: Seq<ObjectId>)
    ensures
        sort_objects(p, objects, ids).catalog is Some <==> p.catalog is Some || lists_role(
            objects,
            ids,
            Role::Catalog,
        ),
        sort_objects(p, objects, ids).pages is Some <==> p.pages is Some || lists_role(objects, ids, Role::Pages),
    decreases ids.len(),
{
    if ids.len() > 0 {
        let rest = ids.drop_last();
        lemma_sorted_survivors(p, objects, rest);
        let last = ids.last();
        if lists_role(objects, rest, Role::Catalog) {
            let i = choose|i: int|
                0 <= i < rest.len() && objects[#[trigger] rest[i]] is Dictionary && role(objects[rest[i]])
                    == Role::Catalog;
            assert(ids[i] == rest[i]);
        }
        if lists_role(objects, rest, Role::Pages) {
            let i = choose|i: int|
                0 <= i < rest.len() && objects[#[trigger] rest[i]] is Dictionary && role(objects[rest[i]])
                    == Role::Pages;
            assert(ids[i] == rest[i]);
        }
        if lists_role(objects, ids, Role::Catalog) {
            let i = choose|i: int|
                0 <= i < ids.len() && objects[#[trigger] ids[i]] is Dictionary && role(objects[ids[i]])
                    == Role::Catalog;
            if i < rest.len() {
                assert(rest[i] == ids[i]);
            }
        }
        if lists_role(objects, ids, Role::Pages) {
            let i = choose|i: int|
                0 <= i < ids.len() && objects[#[trigger] ids[i]] is Dictionary && role(objects[ids[i]]) == Role::Pages;
            if i < rest.len() {
                assert(rest[i] == ids[i]);
            }
        }
        if objects[last] is Dictionary && role(objects[last]) == Role::Catalog {
            assert(ids[ids.len() - 1] == last);
        }
        if objects[last] is Dictionary && role(objects[last]) == Role::Pages {
            assert(ids[ids.len() - 1] == last);
        }
    }
}

/// After `n` inputs that are numbered apart, a catalog survives just where one
/// of the inputs, as the merge takes it in, holds one, and so does a page
/// tree node.
pub proof fn lemma_survivors(inputs: Seq<Graph>, n: nat)
    requires
        absorbed_upto(inputs, n) is Some,
        numbered_apart(inputs, n),
    ensures
        absorbed_upto(inputs, n)->Some_0.catalog is Some <==> some_input_holds(inputs, n, Role::Catalog),
        absorbed_upto(inputs, n)->Some_0.pages is Some <==> some_input_holds(inputs, n, Role::Pages),
    decreases n,
{
    if n > 0 {
        let k = (n - 1) as nat;
        let p = absorbed_upto(inputs, k)->Some_0;
        lemma_survivors(inputs, k);
        let g = staged(inputs, k);
        let noted = recorded(p, g);
        let ids = ascending_keys(g.objects);
        lemma_sorted_survivors(noted, g.objects, ids);
        assert(g.objects.dom().finite());
        lemma_ascending_keys_list(g.objects);
        let q = absorbed_upto(inputs, n)->Some_0;
        assert(q == sort_objects(noted, g.objects, ids));
        assert forall|r: Role| lists_role(g.objects, ids, r) <==> holds_role(g.objects, r) by {
            if lists_role(g.objects, ids, r) {
                let i = choose|i: int|
                    0 <= i < ids.len() && g.objects[#[trigger] ids[i]] is Dictionary && role(g.objects[ids[i]]) == r;
                assert(ids.contains(ids[i]));
                assert(g.objects.dom().contains(ids[i]));
            }
            if holds_role(g.objects, r) {
                let id = choose|id: ObjectId| #[trigger]
                    g.objects.dom().contains(id) && g.objects[id] is Dictionary && role(g.objects[id]) == r;
                assert(ids.contains(id));
                let i = choose|i: int| 0 <= i < ids.len() && ids[i] == id;
                assert(g.objects[ids[i]] is Dictionary);
            }
        }
        assert forall|r: Role| some_input_holds(inputs, n, r) <==> some_input_holds(inputs, k, r) || holds_role(
            g.objects,
            r,
        ) by {
            if some_input_holds(inputs, n, r) {
                let j = choose|j: nat| j < n && holds_role(#[trigger] staged(inputs, j).objects, r);
                if j < k {
                    assert(some_input_holds(inputs, k, r));
                }
            }
            if some_input_holds(inputs, k, r) {
                let j = choose|j: nat| j < k && holds_role(#[trigger] staged(inputs, j).objects, r);
                assert(j < n && holds_role(staged(inputs, j).objects, r));
            }
            if holds_role(g.objects, r) {
                assert(k < n && holds_role(staged(inputs, k).objects, r));
            }
        }
    } else {
        assert(!some_input_holds(inputs, 0, Role::Catalog));
        assert(!some_input_holds(inputs, 0, Role::Pages));
    }
}

/// Of inputs that fit and are numbered apart: the merge fails for want of a
/// page tree node just where no input holds one, and for want of a catalog
/// just where an input holds a page tree node and none holds a catalog.
pub proof fn lemma_missing(inputs: Seq<Graph>)
    requires
        absorbed_upto(inputs, inputs.len()) is Some,
        numbered_apart(inputs, inputs.len()),
    ensures
        merged(inputs) == Err::<Graph, MergeError>(MergeError::MissingPages) <==> !some_input_holds(
            inputs,
            inputs.len(),
            Role::Pages,
        ),
        merged(inputs) == Err::<Graph, MergeError>(MergeError::MissingCatalog) <==> some_input_holds(
            inputs,
            inputs.len(),
            Role::Pages,
        ) && !some_input_holds(inputs, inputs.len(), Role::Catalog),
{
    lemma_survivors(inputs, inputs.len());
}

/// The order of the names decides what is merged, not the order of arrival:
/// the same named documents with distinct names, in whatever order they come,
/// are merged in the same order.
pub proof fn lemma_merge_ignores_arrival(
    a: Seq<(lopdf::Document, Vec<u8>)>,
    b: Seq<(lopdf::Document, Vec<u8>)>,
)
    requires
        a.to_multiset() == b.to_multiset(),
        distinct_names(a),
    ensures
        merged(graphs_of(documents_of(ordered(a)))) == merged(graphs_of(documents_of(ordered(b)))),
{
    lemma_order_ignores_arrival(a, b);
}

} // verus!
