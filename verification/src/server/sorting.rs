//! The order of a directory's entries: ascending by the entries' digests,
//! entries with equal digests in the order in which they stood.

use crate::server::fs::{known_children, nodes, FileOrDir, Node};
use crate::utils::text::{bytes_le, str_le, str_le_exec};
use vstd::prelude::*;

verus! {

/// The digest by which entry `child` is ordered.
pub open spec fn key_of(items: Seq<Node>, child: usize) -> Seq<char> {
    items[child as int].md5
}

/// `sorted` with `child` put behind the last entry whose digest is not
/// greater than its own.
pub open spec fn placed(sorted: Seq<usize>, child: usize, items: Seq<Node>) -> Seq<usize>
    decreases sorted.len(),
{
    if sorted.len() == 0 {
        seq![child]
    } else if str_le(key_of(items, sorted.last()), key_of(items, child)) {
        sorted.push(child)
    } else {
        placed(sorted.drop_last(), child, items).push(sorted.last())
    }
}

/// The entries in ascending order of their digests; entries with equal
/// digests keep their order.
pub open spec fn ordered(children: Seq<usize>, items: Seq<Node>) -> Seq<usize>
    decreases children.len(),
{
    if children.len() == 0 {
        Seq::empty()
    } else {
        placed(ordered(children.drop_last(), items), children.last(), items)
    }
}

/// The digests of the entries never go down.
pub open spec fn ascending(children: Seq<usize>, items: Seq<Node>) -> bool {
    forall|i: int, j: int|
        0 <= i < j < children.len() ==> str_le(
            key_of(items, #[trigger] children[i]),
            key_of(items, #[trigger] children[j]),
        )
}

/// Of two byte strings one comes before the other, or they are equal.
pub proof fn lemma_bytes_le_total(a: Seq<u8>, b: Seq<u8>)
    ensures
        bytes_le(a, b) || bytes_le(b, a),
    decreases a.len(),
{
    if a.len() > 0 && b.len() > 0 && a[0] == b[0] {
        lemma_bytes_le_total(a.drop_first(), b.drop_first());
    }
}

/// The byte-wise order is transitive.
pub proof fn lemma_bytes_le_transitive(a: Seq<u8>, b: Seq<u8>, c: Seq<u8>)
    requires
        bytes_le(a, b),
        bytes_le(b, c),
    ensures
        bytes_le(a, c),
    decreases a.len(),
{
    if a.len() > 0 && b.len() > 0 && c.len() > 0 && a[0] == b[0] && b[0] == c[0] {
        lemma_bytes_le_transitive(a.drop_first(), b.drop_first(), c.drop_first());
    }
}

/// Where `child` goes: behind everything that is not greater, before
/// everything that is.
pub proof fn lemma_placed_at(sorted: Seq<usize>, child: usize, items: Seq<Node>, at: int)
    requires
        0 <= at <= sorted.len(),
        forall|j: int|
            at <= j < sorted.len() ==> !str_le(
                key_of(items, #[trigger] sorted[j]),
                key_of(items, child),
            ),
        at > 0 ==> str_le(key_of(items, sorted[at - 1]), key_of(items, child)),
    ensures
        placed(sorted, child, items) == sorted.insert(at, child),
    decreases sorted.len(),
{
    if sorted.len() == 0 {
        assert(sorted.insert(at, child) =~= seq![child]);
    } else if at == sorted.len() {
        assert(sorted.insert(at, child) =~= sorted.push(child));
    } else {
        assert(!str_le(key_of(items, sorted[sorted.len() - 1]), key_of(items, child)));
        lemma_placed_at(sorted.drop_last(), child, items, at);
        assert(sorted.drop_last().insert(at, child).push(sorted.last()) =~= sorted.insert(
            at,
            child,
        ));
    }
}

/// Placing an entry keeps the order, adds exactly that entry, and keeps the
/// entries among the known nodes.
pub proof fn lemma_placed(sorted: Seq<usize>, child: usize, items: Seq<Node>)
    requires
        ascending(sorted, items),
    ensures
        ascending(placed(sorted, child, items), items),
        placed(sorted, child, items).len() == sorted.len() + 1,
        placed(sorted, child, items).to_multiset() == sorted.to_multiset().insert(child),
        forall|count: nat|
            known_children(sorted, count) && child < count ==> #[trigger] known_children(
                placed(sorted, child, items),
                count,
            ),
    decreases sorted.len(),
{
    broadcast use vstd::seq_lib::to_multiset_build;

    let out = placed(sorted, child, items);
    if sorted.len() == 0 {
        assert(seq![child] =~= sorted.push(child));
    } else if str_le(key_of(items, sorted.last()), key_of(items, child)) {
        assert forall|i: int, j: int| 0 <= i < j < out.len() implies str_le(
            key_of(items, #[trigger] out[i]),
            key_of(items, #[trigger] out[j]),
        ) by {
            if j == sorted.len() && i < sorted.len() - 1 {
                assert(str_le(key_of(items, sorted[i]), key_of(items, sorted[sorted.len() - 1])));
                lemma_bytes_le_transitive(
                    vstd::utf8::encode_utf8(key_of(items, sorted[i])),
                    vstd::utf8::encode_utf8(key_of(items, sorted.last())),
                    vstd::utf8::encode_utf8(key_of(items, child)),
                );
            } else if j < sorted.len() {
                assert(out[i] == sorted[i] && out[j] == sorted[j]);
            }
        }
    } else {
        let head = sorted.drop_last();
        let last = sorted.last();
        assert(ascending(head, items)) by {
            assert forall|i: int, j: int| 0 <= i < j < head.len() implies str_le(
                key_of(items, #[trigger] head[i]),
                key_of(items, #[trigger] head[j]),
            ) by {
                assert(head[i] == sorted[i] && head[j] == sorted[j]);
            }
        }
        lemma_placed(head, child, items);
        let inner = placed(head, child, items);
        assert(out == inner.push(last));
        lemma_bytes_le_total(
            vstd::utf8::encode_utf8(key_of(items, last)),
            vstd::utf8::encode_utf8(key_of(items, child)),
        );
        assert(str_le(key_of(items, child), key_of(items, last)));
        // every entry of `inner` is `child` or an entry of `head`
        assert forall|i: int| 0 <= i < inner.len() implies str_le(
            key_of(items, #[trigger] inner[i]),
            key_of(items, last),
        ) by {
            assert(inner.to_multiset().count(inner[i]) > 0) by {
                inner.to_multiset_ensures();
                assert(inner.contains(inner[i]));
            }
            if inner[i] != child {
                assert(head.to_multiset().count(inner[i]) > 0);
                head.to_multiset_ensures();
                assert(head.contains(inner[i]));
                let k = choose|k: int| 0 <= k < head.len() && head[k] == inner[i];
                assert(sorted[k] == head[k]);
                assert(str_le(key_of(items, sorted[k]), key_of(items, sorted[sorted.len() - 1])));
            }
        }
        assert forall|i: int, j: int| 0 <= i < j < out.len() implies str_le(
            key_of(items, #[trigger] out[i]),
            key_of(items, #[trigger] out[j]),
        ) by {
            if j < inner.len() {
                assert(out[i] == inner[i] && out[j] == inner[j]);
            } else {
                assert(out[i] == inner[i]);
            }
        }
        assert(sorted =~= head.push(last));
        assert(out.to_multiset() =~= sorted.to_multiset().insert(child));
        assert forall|count: nat| known_children(sorted, count) && child < count implies #[trigger]
            known_children(out, count) by {
            assert(known_children(head, count)) by {
                assert forall|k: int| 0 <= k < head.len() implies (#[trigger] head[k]) < count by {
                    assert(head[k] == sorted[k]);
                }
            }
            assert(known_children(inner, count));
            assert forall|k: int| 0 <= k < out.len() implies (#[trigger] out[k]) < count by {
                if k < inner.len() {
                    assert(out[k] == inner[k]);
                } else {
                    assert(out[k] == sorted[sorted.len() - 1]);
                }
            }
        }
    }
}

/// Ordering the entries gives the same entries, ascending by digest.
pub proof fn lemma_ordered(children: Seq<usize>, items: Seq<Node>)
    ensures
        ascending(ordered(children, items), items),
        ordered(children, items).len() == children.len(),
        ordered(children, items).to_multiset() == children.to_multiset(),
        forall|count: nat|
            known_children(children, count) ==> #[trigger] known_children(
                ordered(children, items),
                count,
            ),
    decreases children.len(),
{
    broadcast use vstd::seq_lib::to_multiset_build;

    if children.len() == 0 {
        assert(children =~= Seq::<usize>::empty());
    } else {
        let head = children.drop_last();
        lemma_ordered(head, items);
        lemma_placed(ordered(head, items), children.last(), items);
        assert(children =~= head.push(children.last()));
        assert forall|count: nat| known_children(children, count) implies #[trigger] known_children(
            ordered(children, items),
            count,
        ) by {
            assert(known_children(head, count)) by {
                assert forall|k: int| 0 <= k < head.len() implies (#[trigger] head[k]) < count by {
                    assert(head[k] == children[k]);
                }
            }
            assert(children[children.len() - 1] < count);
            assert(known_children(ordered(head, items), count));
        }
    }
}

/// The order depends only on the digests of the entries themselves.
pub proof fn lemma_ordered_agree(children: Seq<usize>, a: Seq<Node>, b: Seq<Node>)
    requires
        forall|k: int| 0 <= k < children.len() ==> key_of(a, #[trigger] children[k]) == key_of(
            b,
            children[k],
        ),
    ensures
        ordered(children, a) == ordered(children, b),
    decreases children.len(),
{
    if children.len() > 0 {
        let head = children.drop_last();
        assert forall|k: int| 0 <= k < head.len() implies key_of(a, #[trigger] head[k]) == key_of(
            b,
            head[k],
        ) by {
            assert(head[k] == children[k]);
        }
        lemma_ordered_agree(head, a, b);
        assert(key_of(a, children[children.len() - 1]) == key_of(b, children[children.len() - 1]));
        lemma_ordered(head, a);
        let sorted = ordered(head, a);
        assert forall|k: int| 0 <= k < sorted.len() implies key_of(a, #[trigger] sorted[k])
            == key_of(b, sorted[k]) by {
            sorted.to_multiset_ensures();
            head.to_multiset_ensures();
            assert(sorted.contains(sorted[k]));
            assert(sorted.to_multiset().count(sorted[k]) > 0);
            assert(head.to_multiset().count(sorted[k]) > 0);
            assert(head.contains(sorted[k]));
            let j = choose|j: int| 0 <= j < head.len() && head[j] == sorted[k];
            assert(children[j] == head[j]);
        }
        lemma_placed_agree(sorted, children.last(), a, b);
    }
}

/// Placing depends only on the digests of the entries themselves.
pub proof fn lemma_placed_agree(sorted: Seq<usize>, child: usize, a: Seq<Node>, b: Seq<Node>)
    requires
        key_of(a, child) == key_of(b, child),
        forall|k: int| 0 <= k < sorted.len() ==> key_of(a, #[trigger] sorted[k]) == key_of(
            b,
            sorted[k],
        ),
    ensures
        placed(sorted, child, a) == placed(sorted, child, b),
    decreases sorted.len(),
{
    if sorted.len() > 0 {
        assert(key_of(a, sorted[sorted.len() - 1]) == key_of(b, sorted[sorted.len() - 1]));
        let head = sorted.drop_last();
        assert forall|k: int| 0 <= k < head.len() implies key_of(a, #[trigger] head[k]) == key_of(
            b,
            head[k],
        ) by {
            assert(head[k] == sorted[k]);
        }
        lemma_placed_agree(head, child, a, b);
    }
}

/// Every byte string comes before itself or equals it.
pub proof fn lemma_bytes_le_reflexive(a: Seq<u8>)
    ensures
        bytes_le(a, a),
    decreases a.len(),
{
    if a.len() > 0 {
        lemma_bytes_le_reflexive(a.drop_first());
    }
}

/// The entries among `children` whose digest is `key`, in their order.
pub open spec fn with_key(children: Seq<usize>, items: Seq<Node>, key: Seq<char>) -> Seq<usize> {
    children.filter(|child: usize| key_of(items, child) == key)
}

proof fn lemma_placed_is_stable(sorted: Seq<usize>, child: usize, items: Seq<Node>, key: Seq<char>)
    ensures
        with_key(placed(sorted, child, items), items, key) == if key_of(items, child) == key {
            with_key(sorted, items, key).push(child)
        } else {
            with_key(sorted, items, key)
        },
    decreases sorted.len(),
{
    let has_key = |c: usize| key_of(items, c) == key;
    if sorted.len() == 0 {
        assert(seq![child] =~= sorted.push(child));
        sorted.lemma_filter_push(child, has_key);
    } else if str_le(key_of(items, sorted.last()), key_of(items, child)) {
        sorted.lemma_filter_push(child, has_key);
    } else {
        let head = sorted.drop_last();
        let last = sorted.last();
        lemma_placed_is_stable(head, child, items, key);
        placed(head, child, items).lemma_filter_push(last, has_key);
        assert(sorted =~= head.push(last));
        head.lemma_filter_push(last, has_key);
        lemma_bytes_le_reflexive(vstd::utf8::encode_utf8(key_of(items, child)));
        assert(key_of(items, last) != key_of(items, child));
    }
}

/// The order is stable: for every digest, the entries that carry it stand in
/// the ordered list as they stood before, so among equal digests nothing
/// moves. With [`lemma_ordered`] this tells the ordered list exactly.
pub proof fn law_order_is_stable(children: Seq<usize>, items: Seq<Node>, key: Seq<char>)
    ensures
        with_key(ordered(children, items), items, key) == with_key(children, items, key),
    decreases children.len(),
{
    let has_key = |c: usize| key_of(items, c) == key;
    if children.len() == 0 {
        assert(children =~= Seq::<usize>::empty());
    } else {
        let head = children.drop_last();
        law_order_is_stable(head, items, key);
        lemma_placed_is_stable(ordered(head, items), children.last(), items, key);
        assert(children =~= head.push(children.last()));
        head.lemma_filter_push(children.last(), has_key);
    }
}

/// Puts `child` into the ordered list `sorted`.
fn place(sorted: &mut Vec<usize>, child: usize, items: &Vec<FileOrDir>)
    requires
        known_children(old(sorted)@, items@.len()),
        child < items@.len(),
    ensures
        final(sorted)@ == placed(old(sorted)@, child, nodes(items@)),
{
    let ghost before = sorted@;
    let mut at: usize = sorted.len();
    while at > 0 && !str_le_exec(items[sorted[at - 1]].md5.as_str(), items[child].md5.as_str())
        invariant
            at <= sorted@.len(),
            sorted@ == before,
            known_children(before, items@.len()),
            child < items@.len(),
            forall|j: int|
                at <= j < before.len() ==> !str_le(
                    key_of(nodes(items@), #[trigger] before[j]),
                    key_of(nodes(items@), child),
                ),
        decreases at,
    {
        at = at - 1;
    }
    proof {
        lemma_placed_at(before, child, nodes(items@), at as int);
    }
    sorted.insert(at, child);
}

/// The entries of a directory in ascending order of their digests.
pub fn sort_children(children: &Vec<usize>, items: &Vec<FileOrDir>) -> (sorted: Vec<usize>)
    requires
        known_children(children@, items@.len()),
    ensures
        sorted@ == ordered(children@, nodes(items@)),
        known_children(sorted@, items@.len()),
{
    let mut sorted: Vec<usize> = Vec::new();
    let mut i: usize = 0;
    assert(children@.take(0) =~= Seq::<usize>::empty());
    while i < children.len()
        invariant
            i <= children.len(),
            known_children(children@, items@.len()),
            sorted@ == ordered(children@.take(i as int), nodes(items@)),
            known_children(sorted@, items@.len()),
        decreases children.len() - i,
    {
        assert(children@.take(i + 1).drop_last() =~= children@.take(i as int));
        assert(children@.take(i + 1).last() == children@[i as int]);
        proof {
            lemma_ordered(children@.take(i as int), nodes(items@));
            lemma_placed(sorted@, children@[i as int], nodes(items@));
        }
        place(&mut sorted, children[i], items);
        i = i + 1;
    }
    assert(children@.take(i as int) =~= children@);
    sorted
}

} // verus!
