//! The mathematical model of a document: what the contracts of this crate speak of.
//!
//! A document is an arena: a map from object identity to object value, a trailer
//! that names the root, a running maximum of the object numbers in use, and the
//! bookmarks from which an outline is built. Every relation between objects is a
//! `Reference` that is looked up in the arena.
use vstd::prelude::*;

verus! {

/// Identity of an object within a graph: object number, then generation.
pub type ObjectId = (u32, u16);

/// The entries of a dictionary, by key. The order in which a dictionary lists its
/// entries is no part of its meaning and is left out.
pub type Entries = Map<Seq<u8>, Value>;

/// A PDF object as a mathematical value.
pub enum Value {
    Null,
    Boolean(bool),
    Integer(i64),
    /// A real number, by the bit pattern of its single-precision encoding.
    Real(u32),
    Name(Seq<u8>),
    /// A string and whether it is written in hexadecimal.
    Text(Seq<u8>, bool),
    Array(Seq<Value>),
    Dictionary(Entries),
    Stream(StreamValue),
    Reference(ObjectId),
}

/// A stream: its dictionary, its bytes, and what the codec keeps beside them.
pub struct StreamValue {
    pub dict: Entries,
    pub content: Seq<u8>,
    pub allows_compression: bool,
    pub start_position: Option<usize>,
}

/// A bookmark as a document stores it.
pub struct Mark {
    pub children: Seq<u32>,
    pub title: Seq<char>,
    pub format: u32,
    /// Red, green and blue, each by the bit pattern of its single-precision encoding.
    pub color: (u32, u32, u32),
    pub page: ObjectId,
    pub id: u32,
}

/// A document graph.
pub struct Graph {
    pub version: Seq<char>,
    pub trailer: Entries,
    pub objects: Map<ObjectId, Value>,
    pub max_id: u32,
    pub max_bookmark_id: u32,
    /// The top-level bookmarks, in the order in which they were added.
    pub bookmarks: Seq<u32>,
    pub bookmark_table: Map<u32, Mark>,
}

/// The structural role that an object's `/Type` gives it.
#[derive(Clone, Copy, Debug, PartialEq, Eq, Structural)]
pub enum Role {
    Catalog,
    Pages,
    Page,
    /// An `Outlines` root or an `Outline` item.
    Outline,
    Other,
}

/// `Type`
pub open spec fn key_type() -> Seq<u8> {
    seq![0x54u8, 0x79u8, 0x70u8, 0x65u8]
}

/// `Linearized`
pub open spec fn key_linearized() -> Seq<u8> {
    seq![0x4cu8, 0x69u8, 0x6eu8, 0x65u8, 0x61u8, 0x72u8, 0x69u8, 0x7au8, 0x65u8, 0x64u8]
}

/// `Catalog`
pub open spec fn name_catalog() -> Seq<u8> {
    seq![0x43u8, 0x61u8, 0x74u8, 0x61u8, 0x6cu8, 0x6fu8, 0x67u8]
}

/// `Pages`
pub open spec fn name_pages() -> Seq<u8> {
    seq![0x50u8, 0x61u8, 0x67u8, 0x65u8, 0x73u8]
}

/// `Page`
pub open spec fn name_page() -> Seq<u8> {
    seq![0x50u8, 0x61u8, 0x67u8, 0x65u8]
}

/// `Outlines`
pub open spec fn name_outlines() -> Seq<u8> {
    seq![0x4fu8, 0x75u8, 0x74u8, 0x6cu8, 0x69u8, 0x6eu8, 0x65u8, 0x73u8]
}

/// `Outline`
pub open spec fn name_outline() -> Seq<u8> {
    seq![0x4fu8, 0x75u8, 0x74u8, 0x6cu8, 0x69u8, 0x6eu8, 0x65u8]
}

/// `Parent`
pub open spec fn key_parent() -> Seq<u8> {
    seq![0x50u8, 0x61u8, 0x72u8, 0x65u8, 0x6eu8, 0x74u8]
}

/// `Count`
pub open spec fn key_count() -> Seq<u8> {
    seq![0x43u8, 0x6fu8, 0x75u8, 0x6eu8, 0x74u8]
}

/// `Kids`
pub open spec fn key_kids() -> Seq<u8> {
    seq![0x4bu8, 0x69u8, 0x64u8, 0x73u8]
}

/// `Pages`, as the key under which a catalog names its page tree.
pub open spec fn key_pages() -> Seq<u8> {
    name_pages()
}

/// `Outlines`, as the key under which a catalog names its outline.
pub open spec fn key_outlines() -> Seq<u8> {
    name_outlines()
}

/// `Root`
pub open spec fn key_root() -> Seq<u8> {
    seq![0x52u8, 0x6fu8, 0x6fu8, 0x74u8]
}

/// The type that a dictionary declares: the name under `Type`, or else
/// `Linearized` where the dictionary has that key.
pub open spec fn declared_type(entries: Entries) -> Option<Seq<u8>> {
    if entries.dom().contains(key_type()) && entries[key_type()] is Name {
        Some(entries[key_type()]->Name_0)
    } else if entries.dom().contains(key_linearized()) {
        Some(key_linearized())
    } else {
        None
    }
}

/// The type name of an object: that of its dictionary, or of its stream dictionary.
pub open spec fn type_label(v: Value) -> Option<Seq<u8>> {
    match v {
        Value::Dictionary(entries) => declared_type(entries),
        Value::Stream(stream) => declared_type(stream.dict),
        _ => None,
    }
}

/// The role that a type name stands for.
pub open spec fn role_of_name(name: Option<Seq<u8>>) -> Role {
    match name {
        Some(n) => if n == name_catalog() {
            Role::Catalog
        } else if n == name_pages() {
            Role::Pages
        } else if n == name_page() {
            Role::Page
        } else if n == name_outlines() || n == name_outline() {
            Role::Outline
        } else {
            Role::Other
        },
        None => Role::Other,
    }
}

/// The structural role of an object.
pub open spec fn role(v: Value) -> Role {
    role_of_name(type_label(v))
}

/// Order of object identities: by number, then by generation.
pub open spec fn id_lt(a: ObjectId, b: ObjectId) -> bool {
    a.0 < b.0 || (a.0 == b.0 && a.1 < b.1)
}

/// A sequence of identities in strictly ascending order.
pub open spec fn ascending(ids: Seq<ObjectId>) -> bool {
    forall|i: int, j: int| 0 <= i < j < ids.len() ==> id_lt(#[trigger] ids[i], #[trigger] ids[j])
}

/// `ids` lists the keys of `objects`, each once and in ascending order.
pub open spec fn lists_keys(ids: Seq<ObjectId>, objects: Map<ObjectId, Value>) -> bool {
    &&& ascending(ids)
    &&& forall|id: ObjectId| ids.contains(id) <==> objects.dom().contains(id)
}

/// The keys of `objects` in ascending order.
pub open spec fn ascending_keys(objects: Map<ObjectId, Value>) -> Seq<ObjectId> {
    choose|ids: Seq<ObjectId>| lists_keys(ids, objects)
}

/// No two strictly ascending sequences hold the same identities.
pub proof fn lemma_ascending_unique(a: Seq<ObjectId>, b: Seq<ObjectId>)
    requires
        ascending(a),
        ascending(b),
        forall|id: ObjectId| a.contains(id) <==> b.contains(id),
    ensures
        a == b,
    decreases a.len(),
{
    if a.len() == 0 {
        if b.len() > 0 {
            assert(b.contains(b[0]));
            assert(a.contains(b[0]));
        }
        assert(a =~= b);
    } else {
        let x = a[a.len() - 1];
        assert(a.contains(x));
        assert(b.contains(x));
        let k = choose|k: int| 0 <= k < b.len() && b[k] == x;
        if k < b.len() - 1 {
            let y = b[b.len() - 1];
            assert(b.contains(y));
            assert(a.contains(y));
            let m = choose|m: int| 0 <= m < a.len() && a[m] == y;
            assert(id_lt(x, y));
            if m < a.len() - 1 {
                assert(id_lt(a[m], a[a.len() - 1]));
            }
            assert(false);
        }
        let a0 = a.drop_last();
        let b0 = b.drop_last();
        assert forall|id: ObjectId| a0.contains(id) <==> b0.contains(id) by {
            if a0.contains(id) {
                let i = choose|i: int| 0 <= i < a0.len() && a0[i] == id;
                assert(a[i] == id);
                assert(id_lt(a[i], a[a.len() - 1]));
                assert(a.contains(id));
                let j = choose|j: int| 0 <= j < b.len() && b[j] == id;
                assert(j < b.len() - 1);
                assert(b0[j] == id);
            }
            if b0.contains(id) {
                let i = choose|i: int| 0 <= i < b0.len() && b0[i] == id;
                assert(b[i] == id);
                assert(id_lt(b[i], b[b.len() - 1]));
                assert(b.contains(id));
                let j = choose|j: int| 0 <= j < a.len() && a[j] == id;
                assert(j < a.len() - 1);
                assert(a0[j] == id);
            }
        }
        lemma_ascending_unique(a0, b0);
        assert(a =~= a0.push(x));
        assert(b =~= b0.push(x));
    }
}

/// A listing of the keys of `objects` in ascending order is the listing.
pub proof fn lemma_ascending_keys(ids: Seq<ObjectId>, objects: Map<ObjectId, Value>)
    requires
        lists_keys(ids, objects),
    ensures
        ascending_keys(objects) == ids,
{
    let chosen = ascending_keys(objects);
    assert(lists_keys(chosen, objects));
    lemma_ascending_unique(chosen, ids);
}

/// A finite set of identities that is not empty has a greatest one.
proof fn lemma_greatest(s: Set<ObjectId>) -> (m: ObjectId)
    requires
        s.finite(),
        s.len() > 0,
    ensures
        s.contains(m),
        forall|id: ObjectId| s.contains(id) && id != m ==> id_lt(id, m),
    decreases s.len(),
{
    let x = s.choose();
    let rest = s.remove(x);
    if rest.len() == 0 {
        assert forall|id: ObjectId| s.contains(id) && id != x implies id_lt(id, x) by {
            assert(rest.contains(id));
        }
        x
    } else {
        let m0 = lemma_greatest(rest);
        let m = if id_lt(m0, x) {
            x
        } else {
            m0
        };
        assert forall|id: ObjectId| s.contains(id) && id != m implies id_lt(id, m) by {
            if id != x {
                assert(rest.contains(id));
            }
        }
        m
    }
}

/// A finite set of identities can be listed in ascending order.
proof fn lemma_listing(s: Set<ObjectId>) -> (ids: Seq<ObjectId>)
    requires
        s.finite(),
    ensures
        ascending(ids),
        forall|id: ObjectId| ids.contains(id) <==> s.contains(id),
    decreases s.len(),
{
    if s.len() == 0 {
        let ids = Seq::<ObjectId>::empty();
        assert forall|id: ObjectId| ids.contains(id) <==> s.contains(id) by {
            if s.contains(id) {
                assert(s.remove(id).len() + 1 == s.len());
            }
        }
        ids
    } else {
        let m = lemma_greatest(s);
        let before = lemma_listing(s.remove(m));
        let ids = before.push(m);
        assert forall|i: int, j: int| 0 <= i < j < ids.len() implies id_lt(#[trigger] ids[i], #[trigger] ids[j]) by {
            if j < before.len() {
                assert(ids[i] == before[i] && ids[j] == before[j]);
            } else {
                assert(before.contains(before[i]));
                assert(s.remove(m).contains(before[i]));
            }
        }
        assert forall|id: ObjectId| ids.contains(id) <==> s.contains(id) by {
            if ids.contains(id) {
                let i = choose|i: int| 0 <= i < ids.len() && ids[i] == id;
                if i < before.len() {
                    assert(before.contains(before[i]));
                }
            }
            if s.contains(id) {
                if id == m {
                    assert(ids[before.len() as int] == m);
                } else {
                    assert(s.remove(m).contains(id));
                    assert(before.contains(id));
                    let i = choose|i: int| 0 <= i < before.len() && before[i] == id;
                    assert(ids[i] == id);
                }
            }
        }
        ids
    }
}

/// The keys of a finite map, in ascending order, are its keys.
pub proof fn lemma_ascending_keys_list(objects: Map<ObjectId, Value>)
    requires
        objects.dom().finite(),
    ensures
        lists_keys(ascending_keys(objects), objects),
{
    let ids = lemma_listing(objects.dom());
    assert(lists_keys(ids, objects));
}

/// A map whose keys a sequence lists is finite and has as many keys as the
/// sequence has items.
pub proof fn lemma_keys_count(ids: Seq<ObjectId>, objects: Map<ObjectId, Value>)
    requires
        lists_keys(ids, objects),
    ensures
        objects.dom().finite(),
        objects.len() == ids.len(),
{
    assert(ids.no_duplicates()) by {
        assert forall|i: int, j: int| 0 <= i < ids.len() && 0 <= j < ids.len() && i != j implies ids[i] != ids[j] by {
            if i < j {
                assert(id_lt(ids[i], ids[j]));
            } else {
                assert(id_lt(ids[j], ids[i]));
            }
        }
    }
    ids.unique_seq_to_set();
    assert(ids.to_set() =~= objects.dom());
}

} // verus!
