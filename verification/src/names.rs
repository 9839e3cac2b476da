//! File names: which of them name an input, and the order in which the inputs
//! are merged. Names are byte strings and are ordered byte by byte.
use vstd::prelude::*;

verus! {

/// `.pdf`, the ending of the name of an input.
pub open spec fn extension() -> Seq<u8> {
    seq![0x2eu8, 0x70u8, 0x64u8, 0x66u8]
}

/// `merged.pdf`, the name that is kept for the output.
pub open spec fn reserved_name() -> Seq<u8> {
    seq![0x6du8, 0x65u8, 0x72u8, 0x67u8, 0x65u8, 0x64u8, 0x2eu8, 0x70u8, 0x64u8, 0x66u8]
}

/// Whether a file name names an input: it ends in `.pdf` and is not the reserved name.
pub open spec fn names_input(name: Seq<u8>) -> bool {
    &&& name.len() >= extension().len()
    &&& name.subrange(name.len() - extension().len(), name.len() as int) == extension()
    &&& name != reserved_name()
}

/// `a` comes before `b` because of what stands at `k`: up to there the two agree,
/// and there `a` ends and `b` goes on, or `a` has the smaller byte.
pub open spec fn precedes_at(a: Seq<u8>, b: Seq<u8>, k: int) -> bool {
    &&& 0 <= k <= a.len()
    &&& k < b.len()
    &&& forall|i: int| 0 <= i < k ==> a[i] == b[i]
    &&& (k < a.len() ==> a[k] < b[k])
}

/// The order of names: byte by byte, a prefix before what continues it.
pub open spec fn bytes_lt(a: Seq<u8>, b: Seq<u8>) -> bool {
    exists|k: int| precedes_at(a, b, k)
}

/// No name comes before itself, and of two names not both come before the other.
pub proof fn lemma_order_asymmetric(a: Seq<u8>, b: Seq<u8>)
    ensures
        !(bytes_lt(a, b) && bytes_lt(b, a)),
        !bytes_lt(a, a),
{
    if bytes_lt(a, b) && bytes_lt(b, a) {
        let k = choose|k: int| precedes_at(a, b, k);
        let m = choose|m: int| precedes_at(b, a, m);
        if k < m {
            assert(b[k] == a[k]);
        } else if m < k {
            assert(a[m] == b[m]);
        }
        assert(false);
    }
    if bytes_lt(a, a) {
        let k = choose|k: int| precedes_at(a, a, k);
        assert(false);
    }
}

/// The order of names is transitive.
pub proof fn lemma_order_transitive(a: Seq<u8>, b: Seq<u8>, c: Seq<u8>)
    requires
        bytes_lt(a, b),
        bytes_lt(b, c),
    ensures
        bytes_lt(a, c),
{
    let k = choose|k: int| precedes_at(a, b, k);
    let m = choose|m: int| precedes_at(b, c, m);
    let n = if k <= m {
        k
    } else {
        m
    };
    assert forall|i: int| 0 <= i < n implies a[i] == c[i] by {
        assert(a[i] == b[i]);
        assert(b[i] == c[i]);
    }
    if k < m {
        assert(b[k] == c[k]);
    }
    assert(precedes_at(a, c, n));
}

/// The length of the longest common beginning of `a` and `b`, from `i` on.
pub open spec fn agreement(a: Seq<u8>, b: Seq<u8>, i: int) -> int
    decreases a.len() - i,
{
    if 0 <= i < a.len() && i < b.len() && a[i] == b[i] {
        agreement(a, b, i + 1)
    } else {
        i
    }
}

proof fn lemma_agreement(a: Seq<u8>, b: Seq<u8>, i: int)
    requires
        0 <= i <= a.len(),
        i <= b.len(),
    ensures
        i <= agreement(a, b, i) <= a.len(),
        agreement(a, b, i) <= b.len(),
        forall|j: int| i <= j < agreement(a, b, i) ==> a[j] == b[j],
        agreement(a, b, i) < a.len() && agreement(a, b, i) < b.len() ==> a[agreement(a, b, i)] != b[agreement(
            a,
            b,
            i,
        )],
    decreases a.len() - i,
{
    if i < a.len() && i < b.len() && a[i] == b[i] {
        lemma_agreement(a, b, i + 1);
    }
}

/// Of two different names one comes before the other.
pub proof fn lemma_order_total(a: Seq<u8>, b: Seq<u8>)
    requires
        a != b,
    ensures
        bytes_lt(a, b) || bytes_lt(b, a),
{
    let k = agreement(a, b, 0);
    lemma_agreement(a, b, 0);
    if k == a.len() && k == b.len() {
        assert(a =~= b);
    } else if k == a.len() {
        assert(precedes_at(a, b, k));
    } else if k == b.len() {
        assert(precedes_at(b, a, k));
    } else if a[k] < b[k] {
        assert(precedes_at(a, b, k));
    } else {
        assert(precedes_at(b, a, k));
    }
}

/// Whether the name `a` comes before the name `b`, byte by byte.
pub fn name_lt(a: &Vec<u8>, b: &Vec<u8>) -> (before: bool)
    ensures
        before == bytes_lt(a@, b@),
{
    let mut i: usize = 0;
    while i < a.len() && i < b.len()
        invariant
            i <= a.len(),
            i <= b.len(),
            forall|j: int| 0 <= j < i ==> a@[j] == b@[j],
        decreases a.len() - i,
    {
        if a[i] != b[i] {
            let before = a[i] < b[i];
            proof {
                if before {
                    assert(precedes_at(a@, b@, i as int));
                } else {
                    assert(precedes_at(b@, a@, i as int));
                    lemma_order_asymmetric(a@, b@);
                }
            }
            return before;
        }
        i += 1;
    }
    let before = a.len() < b.len();
    proof {
        if before {
            assert(precedes_at(a@, b@, i as int));
        } else if b.len() < a.len() {
            assert(precedes_at(b@, a@, i as int));
            lemma_order_asymmetric(a@, b@);
        } else {
            assert(a@ =~= b@);
            lemma_order_asymmetric(a@, b@);
        }
    }
    before
}

/// Whether a file name names an input: it ends in `.pdf` and is not `merged.pdf`.
pub fn is_input_name(name: &Vec<u8>) -> (accepted: bool)
    ensures
        accepted == names_input(name@),
{
    let n = name.len();
    if n < 4 {
        return false;
    }
    if name[n - 4] != 0x2eu8 || name[n - 3] != 0x70u8 || name[n - 2] != 0x64u8 || name[n - 1] != 0x66u8 {
        proof {
            let tail = name@.subrange(n - 4, n as int);
            assert(tail[0] == name@[n - 4] && tail[1] == name@[n - 3] && tail[2] == name@[n - 2] && tail[3]
                == name@[n - 1]);
        }
        return false;
    }
    assert(name@.subrange(n - 4, n as int) =~= extension());
    let reserved = vec![0x6du8, 0x65u8, 0x72u8, 0x67u8, 0x65u8, 0x64u8, 0x2eu8, 0x70u8, 0x64u8, 0x66u8];
    assert(reserved@ =~= reserved_name());
    !crate::keys::same_bytes(name, &reserved)
}

/// `sorted` with `x` put in behind every item whose name does not come after
/// the name of `x`.
pub open spec fn put_in<T>(sorted: Seq<(T, Vec<u8>)>, x: (T, Vec<u8>)) -> Seq<(T, Vec<u8>)>
    decreases sorted.len(),
{
    if sorted.len() == 0 || !bytes_lt(x.1@, sorted.last().1@) {
        sorted.push(x)
    } else {
        put_in(sorted.drop_last(), x).push(sorted.last())
    }
}

/// The items in the order of their names. Items of one name keep their order.
pub open spec fn ordered<T>(items: Seq<(T, Vec<u8>)>) -> Seq<(T, Vec<u8>)>
    decreases items.len(),
{
    if items.len() == 0 {
        Seq::empty()
    } else {
        put_in(ordered(items.drop_last()), items.last())
    }
}

/// No item stands before an item whose name comes before its own.
pub open spec fn in_name_order<T>(items: Seq<(T, Vec<u8>)>) -> bool {
    forall|i: int, j: int| 0 <= i < j < items.len() ==> !bytes_lt(#[trigger] items[j].1@, #[trigger] items[i].1@)
}

/// Where `x` goes in `sorted`: everything from `at` on has a name that comes
/// after the name of `x`, and what stands before `at` has not.
proof fn lemma_put_in_at<T>(sorted: Seq<(T, Vec<u8>)>, x: (T, Vec<u8>), at: int)
    requires
        0 <= at <= sorted.len(),
        forall|j: int| at <= j < sorted.len() ==> bytes_lt(x.1@, #[trigger] sorted[j].1@),
        at > 0 ==> !bytes_lt(x.1@, sorted[at - 1].1@),
    ensures
        put_in(sorted, x) == sorted.insert(at, x),
    decreases sorted.len(),
{
    if at == sorted.len() {
        assert(sorted.insert(at, x) =~= sorted.push(x));
    } else {
        let rest = sorted.drop_last();
        assert(bytes_lt(x.1@, sorted[sorted.len() - 1].1@));
        assert forall|j: int| at <= j < rest.len() implies bytes_lt(x.1@, #[trigger] rest[j].1@) by {
            assert(rest[j] == sorted[j]);
        }
        if at > 0 {
            assert(rest[at - 1] == sorted[at - 1]);
        }
        lemma_put_in_at(rest, x, at);
        assert(rest.insert(at, x).push(sorted.last()) =~= sorted.insert(at, x));
    }
}

/// Where `x` goes into a sequence that is in name order: behind the items whose
/// names do not come after its own, and before the others.
proof fn lemma_put_in_place<T>(sorted: Seq<(T, Vec<u8>)>, x: (T, Vec<u8>)) -> (at: int)
    requires
        in_name_order(sorted),
    ensures
        0 <= at <= sorted.len(),
        put_in(sorted, x) == sorted.insert(at, x),
        forall|j: int| at <= j < sorted.len() ==> bytes_lt(x.1@, #[trigger] sorted[j].1@),
        forall|j: int| 0 <= j < at ==> !bytes_lt(x.1@, #[trigger] sorted[j].1@),
    decreases sorted.len(),
{
    if sorted.len() == 0 || !bytes_lt(x.1@, sorted.last().1@) {
        let at = sorted.len() as int;
        assert(sorted.insert(at, x) =~= sorted.push(x));
        assert forall|j: int| 0 <= j < at implies !bytes_lt(x.1@, #[trigger] sorted[j].1@) by {
            if j < at - 1 && bytes_lt(x.1@, sorted[j].1@) {
                assert(!bytes_lt(sorted[at - 1].1@, sorted[j].1@));
                if sorted[j].1@ != sorted[at - 1].1@ {
                    lemma_order_total(sorted[j].1@, sorted[at - 1].1@);
                    lemma_order_transitive(x.1@, sorted[j].1@, sorted[at - 1].1@);
                }
            }
        }
        at
    } else {
        let rest = sorted.drop_last();
        assert forall|i: int, j: int| 0 <= i < j < rest.len() implies !bytes_lt(
            #[trigger] rest[j].1@,
            #[trigger] rest[i].1@,
        ) by {
            assert(rest[i] == sorted[i] && rest[j] == sorted[j]);
        }
        let at = lemma_put_in_place(rest, x);
        assert(rest.insert(at, x).push(sorted.last()) =~= sorted.insert(at, x));
        assert forall|j: int| at <= j < sorted.len() implies bytes_lt(x.1@, #[trigger] sorted[j].1@) by {
            if j < rest.len() {
                assert(rest[j] == sorted[j]);
            }
        }
        assert forall|j: int| 0 <= j < at implies !bytes_lt(x.1@, #[trigger] sorted[j].1@) by {
            assert(rest[j] == sorted[j]);
        }
        at
    }
}

/// The items in the order of their names are the same items, and none of them
/// stands before an item whose name comes before its own.
pub proof fn lemma_ordered<T>(items: Seq<(T, Vec<u8>)>)
    ensures
        in_name_order(ordered(items)),
        ordered(items).to_multiset() == items.to_multiset(),
        ordered(items).len() == items.len(),
    decreases items.len(),
{
    broadcast use vstd::seq_lib::group_to_multiset_ensures;

    if items.len() == 0 {
        assert(items =~= Seq::empty());
    } else {
        let rest = items.drop_last();
        let x = items.last();
        lemma_ordered(rest);
        let sorted = ordered(rest);
        let at = lemma_put_in_place(sorted, x);
        let now = sorted.insert(at, x);
        assert forall|i: int, j: int| 0 <= i < j < now.len() implies !bytes_lt(
            #[trigger] now[j].1@,
            #[trigger] now[i].1@,
        ) by {
            if j == at {
                assert(now[i] == sorted[i]);
            } else if i == at {
                assert(now[j] == sorted[j - 1]);
                lemma_order_asymmetric(x.1@, sorted[j - 1].1@);
            } else {
                let a = if i < at {
                    i
                } else {
                    i - 1
                };
                let b = if j < at {
                    j
                } else {
                    j - 1
                };
                assert(now[i] == sorted[a] && now[j] == sorted[b]);
            }
        }
        assert(items =~= rest.push(x));
        assert(now.to_multiset() =~= sorted.to_multiset().insert(x));
        assert(items.to_multiset() =~= rest.to_multiset().insert(x));
    }
}

/// No two items have the same name.
pub open spec fn distinct_names<T>(items: Seq<(T, Vec<u8>)>) -> bool {
    forall|i: int, j: int| 0 <= i < j < items.len() ==> (#[trigger] items[i]).1@ != (#[trigger] items[j]).1@
}

/// Every item stands before the items whose names come after its own.
pub open spec fn in_strict_name_order<T>(items: Seq<(T, Vec<u8>)>) -> bool {
    forall|i: int, j: int| 0 <= i < j < items.len() ==> bytes_lt(#[trigger] items[i].1@, #[trigger] items[j].1@)
}

/// Two sequences in strict name order that hold the same items are the same.
proof fn lemma_strict_order_unique<T>(a: Seq<(T, Vec<u8>)>, b: Seq<(T, Vec<u8>)>)
    requires
        in_strict_name_order(a),
        in_strict_name_order(b),
        forall|x: (T, Vec<u8>)| a.contains(x) <==> b.contains(x),
    ensures
        a == b,
    decreases a.len(),
{
    if a.len() == 0 {
        if b.len() > 0 {
            assert(b.contains(b[0]));
            assert(a.contains(b[0]));
        }
        assert(a =~= b);
    } else {
        let x = a[a.len() - 1];
        assert(a.contains(x));
        assert(b.contains(x));
        let k = choose|k: int| 0 <= k < b.len() && b[k] == x;
        if k < b.len() - 1 {
            let y = b[b.len() - 1];
            assert(b.contains(y));
            assert(a.contains(y));
            let m = choose|m: int| 0 <= m < a.len() && a[m] == y;
            assert(bytes_lt(b[k].1@, b[b.len() - 1].1@));
            if m < a.len() - 1 {
                assert(bytes_lt(a[m].1@, a[a.len() - 1].1@));
            }
            lemma_order_asymmetric(x.1@, y.1@);
            assert(false);
        }
        let a0 = a.drop_last();
        let b0 = b.drop_last();
        assert forall|e: (T, Vec<u8>)| a0.contains(e) <==> b0.contains(e) by {
            if a0.contains(e) {
                let i = choose|i: int| 0 <= i < a0.len() && a0[i] == e;
                assert(a[i] == e);
                assert(bytes_lt(a[i].1@, a[a.len() - 1].1@));
                assert(a.contains(e));
                let j = choose|j: int| 0 <= j < b.len() && b[j] == e;
                lemma_order_asymmetric(e.1@, e.1@);
                assert(j < b.len() - 1);
                assert(b0[j] == e);
            }
            if b0.contains(e) {
                let i = choose|i: int| 0 <= i < b0.len() && b0[i] == e;
                assert(b[i] == e);
                assert(bytes_lt(b[i].1@, b[b.len() - 1].1@));
                assert(b.contains(e));
                let j = choose|j: int| 0 <= j < a.len() && a[j] == e;
                lemma_order_asymmetric(e.1@, e.1@);
                assert(j < a.len() - 1);
                assert(a0[j] == e);
            }
        }
        assert forall|i: int, j: int| 0 <= i < j < a0.len() implies bytes_lt(
            #[trigger] a0[i].1@,
            #[trigger] a0[j].1@,
        ) by {
            assert(a0[i] == a[i] && a0[j] == a[j]);
        }
        assert forall|i: int, j: int| 0 <= i < j < b0.len() implies bytes_lt(
            #[trigger] b0[i].1@,
            #[trigger] b0[j].1@,
        ) by {
            assert(b0[i] == b[i] && b0[j] == b[j]);
        }
        lemma_strict_order_unique(a0, b0);
        assert(a =~= a0.push(x));
        assert(b =~= b0.push(x));
    }
}

/// Items with distinct names, put in the order of their names, stand in strict
/// name order.
proof fn lemma_ordered_strictly<T>(items: Seq<(T, Vec<u8>)>, sorted: Seq<(T, Vec<u8>)>)
    requires
        distinct_names(items),
        in_name_order(sorted),
        sorted.to_multiset() == items.to_multiset(),
    ensures
        in_strict_name_order(sorted),
{
    broadcast use vstd::seq_lib::group_to_multiset_ensures;

    assert(items.no_duplicates()) by {
        assert forall|i: int, j: int| 0 <= i < items.len() && 0 <= j < items.len() && i != j implies items[i]
            != items[j] by {
            if i < j {
                assert(items[i].1@ != items[j].1@);
            } else {
                assert(items[j].1@ != items[i].1@);
            }
        }
    }
    items.lemma_multiset_has_no_duplicates();
    sorted.lemma_multiset_has_no_duplicates_conv();
    assert forall|i: int, j: int| 0 <= i < j < sorted.len() implies bytes_lt(
        #[trigger] sorted[i].1@,
        #[trigger] sorted[j].1@,
    ) by {
        assert(sorted.contains(sorted[i]));
        assert(sorted.contains(sorted[j]));
        assert(items.to_multiset().count(sorted[i]) > 0);
        assert(items.to_multiset().count(sorted[j]) > 0);
        assert(items.contains(sorted[i]));
        assert(items.contains(sorted[j]));
        let p = choose|p: int| 0 <= p < items.len() && items[p] == sorted[i];
        let q = choose|q: int| 0 <= q < items.len() && items[q] == sorted[j];
        assert(sorted[i] != sorted[j]);
        assert(p != q);
        if p < q {
            assert(items[p].1@ != items[q].1@);
        } else {
            assert(items[q].1@ != items[p].1@);
        }
        lemma_order_total(sorted[i].1@, sorted[j].1@);
    }
}

/// The order of the names decides, not the order of arrival: the same items
/// with distinct names, in whatever order they come, are put in the same order.
pub proof fn lemma_order_ignores_arrival<T>(a: Seq<(T, Vec<u8>)>, b: Seq<(T, Vec<u8>)>)
    requires
        a.to_multiset() == b.to_multiset(),
        distinct_names(a),
    ensures
        ordered(a) == ordered(b),
{
    broadcast use vstd::seq_lib::group_to_multiset_ensures;

    lemma_ordered(a);
    lemma_ordered(b);
    lemma_ordered_strictly(a, ordered(a));
    lemma_ordered_strictly(a, ordered(b));
    assert forall|x: (T, Vec<u8>)| ordered(a).contains(x) <==> ordered(b).contains(x) by {
        assert(ordered(a).contains(x) <==> ordered(a).to_multiset().count(x) > 0);
        assert(ordered(b).contains(x) <==> ordered(b).to_multiset().count(x) > 0);
    }
    lemma_strict_order_unique(ordered(a), ordered(b));
}

/// Puts the items in the order of their names, byte by byte. Items of one name
/// keep their order.
pub fn sort_by_name<T>(items: Vec<(T, Vec<u8>)>) -> (sorted: Vec<(T, Vec<u8>)>)
    ensures
        sorted@ == ordered(items@),
        in_name_order(sorted@),
        sorted@.to_multiset() == items@.to_multiset(),
{
    let mut sorted: Vec<(T, Vec<u8>)> = Vec::new();
    assert(items@.take(0) =~= Seq::empty());
    for item in it: items
        invariant
            sorted@ == ordered(items@.take(it.index() as int)),
            it.index() <= items@.len(),
    {
        let ghost n = it.index() as int;
        let ghost before = sorted@;
        let mut at: usize = sorted.len();
        while at > 0 && name_lt(&item.1, &sorted[at - 1].1)
            invariant
                at <= sorted.len(),
                sorted@ == before,
                forall|j: int| at <= j < sorted@.len() ==> bytes_lt(item.1@, #[trigger] sorted@[j].1@),
            decreases at,
        {
            at -= 1;
        }
        proof {
            lemma_put_in_at(before, item, at as int);
            let next = items@.take(n + 1);
            assert(next.drop_last() =~= items@.take(n));
            assert(next.last() == item);
        }
        sorted.insert(at, item);
    }
    proof {
        assert(items@.take(items@.len() as int) =~= items@);
        lemma_ordered(items@);
    }
    sorted
}

} // verus!
