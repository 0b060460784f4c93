//! The order of the files in an archive.

use vstd::prelude::*;
use vstd::utf8::encode_utf8;

use crate::dir_encode::{PDeflateArchiveEntryKind, PDeflateArchiveEntrySource};
use crate::le::copy_range;

verus! {

/// The first byte string comes before the second, as in a dictionary.
pub open spec fn bytes_before(a: Seq<u8>, b: Seq<u8>) -> bool
    decreases a.len(),
{
    if b.len() == 0 {
        false
    } else if a.len() == 0 {
        true
    } else if a[0] == b[0] {
        bytes_before(a.drop_first(), b.drop_first())
    } else {
        a[0] < b[0]
    }
}

/// The first list of byte strings comes before the second, as in a dictionary
/// whose letters are byte strings.
pub open spec fn key_before(a: Seq<Seq<u8>>, b: Seq<Seq<u8>>) -> bool
    decreases a.len(),
{
    if b.len() == 0 {
        false
    } else if a.len() == 0 {
        true
    } else if a[0] == b[0] {
        key_before(a.drop_first(), b.drop_first())
    } else {
        bytes_before(a[0], b[0])
    }
}

proof fn lemma_bytes_total(a: Seq<u8>, b: Seq<u8>)
    ensures
        a == b || bytes_before(a, b) || bytes_before(b, a),
        !(bytes_before(a, b) && bytes_before(b, a)),
        a == b ==> !bytes_before(a, b),
    decreases a.len(),
{
    if a.len() > 0 && b.len() > 0 && a[0] == b[0] {
        lemma_bytes_total(a.drop_first(), b.drop_first());
        if a.drop_first() == b.drop_first() {
            assert(a =~= seq![a[0]] + a.drop_first());
            assert(b =~= seq![b[0]] + b.drop_first());
        }
    } else if a.len() == 0 && b.len() == 0 {
        assert(a =~= b);
    }
}

proof fn lemma_bytes_chain(a: Seq<u8>, b: Seq<u8>, c: Seq<u8>)
    requires
        bytes_before(a, b),
        bytes_before(b, c),
    ensures
        bytes_before(a, c),
    decreases a.len(),
{
    if a.len() > 0 && a[0] == b[0] && b[0] == c[0] {
        lemma_bytes_chain(a.drop_first(), b.drop_first(), c.drop_first());
    }
}

proof fn lemma_key_total(a: Seq<Seq<u8>>, b: Seq<Seq<u8>>)
    ensures
        a == b || key_before(a, b) || key_before(b, a),
        !(key_before(a, b) && key_before(b, a)),
        a == b ==> !key_before(a, b),
    decreases a.len(),
{
    if a.len() > 0 && b.len() > 0 {
        lemma_bytes_total(a[0], b[0]);
        if a[0] == b[0] {
            lemma_key_total(a.drop_first(), b.drop_first());
            if a.drop_first() == b.drop_first() {
                assert(a =~= seq![a[0]] + a.drop_first());
                assert(b =~= seq![b[0]] + b.drop_first());
            }
        }
    } else if a.len() == 0 && b.len() == 0 {
        assert(a =~= b);
    }
}

proof fn lemma_key_chain(a: Seq<Seq<u8>>, b: Seq<Seq<u8>>, c: Seq<Seq<u8>>)
    requires
        key_before(a, b),
        key_before(b, c),
    ensures
        key_before(a, c),
    decreases a.len(),
{
    if a.len() > 0 {
        if a[0] == b[0] && b[0] == c[0] {
            lemma_key_chain(a.drop_first(), b.drop_first(), c.drop_first());
        } else if a[0] != b[0] && b[0] != c[0] {
            lemma_bytes_chain(a[0], b[0], c[0]);
            lemma_bytes_total(a[0], c[0]);
        }
    }
}

/// The byte strings of a key.
pub open spec fn key_text(key: Seq<Vec<u8>>) -> Seq<Seq<u8>> {
    Seq::new(key.len(), |i: int| key[i]@)
}

/// Item `i` comes before item `j`: by their keys, and where these are equal by
/// their places.
pub open spec fn item_before(keys: Seq<Vec<Vec<u8>>>, i: int, j: int) -> bool {
    let a = key_text(keys[i]@);
    let b = key_text(keys[j]@);
    key_before(a, b) || a == b && i < j
}

/// Two byte strings, compared.
#[derive(Debug, Clone, Copy, PartialEq, Eq, Structural)]
enum Standing {
    Before,
    Same,
    After,
}

fn compare_bytes(a: &[u8], b: &[u8]) -> (standing: Standing)
    ensures
        match standing {
            Standing::Before => bytes_before(a@, b@),
            Standing::Same => a@ == b@,
            Standing::After => bytes_before(b@, a@),
        },
{
    let mut i: usize = 0;
    proof {
        assert(a@.skip(0) =~= a@);
        assert(b@.skip(0) =~= b@);
    }
    while i < a.len() && i < b.len()
        invariant
            i <= a@.len(),
            i <= b@.len(),
            a@.take(i as int) == b@.take(i as int),
            bytes_before(a@, b@) == bytes_before(a@.skip(i as int), b@.skip(i as int)),
            bytes_before(b@, a@) == bytes_before(b@.skip(i as int), a@.skip(i as int)),
        decreases a@.len() - i,
    {
        if a[i] < b[i] {
            return Standing::Before;
        }
        if a[i] > b[i] {
            return Standing::After;
        }
        proof {
            assert(a@.take(i + 1) =~= a@.take(i as int).push(a@[i as int]));
            assert(b@.take(i + 1) =~= b@.take(i as int).push(b@[i as int]));
            assert(a@.skip(i as int).drop_first() =~= a@.skip(i + 1));
            assert(b@.skip(i as int).drop_first() =~= b@.skip(i + 1));
        }
        i = i + 1;
    }
    if i < b.len() {
        return Standing::Before;
    }
    if i < a.len() {
        return Standing::After;
    }
    proof {
        assert(a@.take(i as int) =~= a@);
        assert(b@.take(i as int) =~= b@);
    }
    Standing::Same
}

fn compare_keys(a: &[Vec<u8>], b: &[Vec<u8>]) -> (standing: Standing)
    ensures
        match standing {
            Standing::Before => key_before(key_text(a@), key_text(b@)),
            Standing::Same => key_text(a@) == key_text(b@),
            Standing::After => key_before(key_text(b@), key_text(a@)),
        },
{
    let ghost ka = key_text(a@);
    let ghost kb = key_text(b@);
    let mut i: usize = 0;
    proof {
        assert(ka.skip(0) =~= ka);
        assert(kb.skip(0) =~= kb);
    }
    while i < a.len() && i < b.len()
        invariant
            i <= a@.len(),
            i <= b@.len(),
            ka == key_text(a@),
            kb == key_text(b@),
            ka.take(i as int) == kb.take(i as int),
            key_before(ka, kb) == key_before(ka.skip(i as int), kb.skip(i as int)),
            key_before(kb, ka) == key_before(kb.skip(i as int), ka.skip(i as int)),
        decreases a@.len() - i,
    {
        proof {
            lemma_bytes_total(ka[i as int], kb[i as int]);
        }
        match compare_bytes(a[i].as_slice(), b[i].as_slice()) {
            Standing::Before => {
                return Standing::Before;
            },
            Standing::After => {
                return Standing::After;
            },
            Standing::Same => {},
        }
        proof {
            assert(ka.take(i + 1) =~= ka.take(i as int).push(ka[i as int]));
            assert(kb.take(i + 1) =~= kb.take(i as int).push(kb[i as int]));
            assert(ka.skip(i as int).drop_first() =~= ka.skip(i + 1));
            assert(kb.skip(i as int).drop_first() =~= kb.skip(i + 1));
        }
        i = i + 1;
    }
    if i < b.len() {
        return Standing::Before;
    }
    if i < a.len() {
        return Standing::After;
    }
    proof {
        assert(ka.take(i as int) =~= ka);
        assert(kb.take(i as int) =~= kb);
    }
    Standing::Same
}

/// The places are in order.
pub open spec fn in_order(keys: Seq<Vec<Vec<u8>>>, order: Seq<usize>) -> bool {
    forall|x: int, y: int|
        0 <= x < y < order.len() ==> item_before(
            keys,
            #[trigger] order[x] as int,
            #[trigger] order[y] as int,
        )
}

/// The places are those from `from` to `to`, each once.
pub open spec fn holds_range(order: Seq<usize>, from: int, to: int) -> bool {
    &&& order.len() == to - from
    &&& order.no_duplicates()
    &&& forall|x: int| 0 <= x < order.len() ==> from <= #[trigger] order[x] < to
}

proof fn lemma_item_total(keys: Seq<Vec<Vec<u8>>>, i: int, j: int)
    requires
        i != j,
    ensures
        item_before(keys, i, j) || item_before(keys, j, i),
        !(item_before(keys, i, j) && item_before(keys, j, i)),
{
    lemma_key_total(key_text(keys[i]@), key_text(keys[j]@));
}

proof fn lemma_item_chain(keys: Seq<Vec<Vec<u8>>>, i: int, j: int, k: int)
    requires
        item_before(keys, i, j),
        item_before(keys, j, k),
    ensures
        item_before(keys, i, k),
{
    let a = key_text(keys[i]@);
    let b = key_text(keys[j]@);
    let c = key_text(keys[k]@);
    if key_before(a, b) && key_before(b, c) {
        lemma_key_chain(a, b, c);
    }
}

/// Merges two runs of places.
fn merge(
    keys: &[Vec<Vec<u8>>],
    left: &[usize],
    right: &[usize],
    from: usize,
    mid: usize,
    to: usize,
) -> (merged: Vec<usize>)
    requires
        from <= mid <= to <= keys@.len(),
        holds_range(left@, from as int, mid as int),
        holds_range(right@, mid as int, to as int),
        in_order(keys@, left@),
        in_order(keys@, right@),
    ensures
        holds_range(merged@, from as int, to as int),
        in_order(keys@, merged@),
{
    let mut merged: Vec<usize> = Vec::new();
    let mut i: usize = 0;
    let mut j: usize = 0;
    while i < left.len() || j < right.len()
        invariant
            from <= mid <= to <= keys@.len(),
            i <= left@.len(),
            j <= right@.len(),
            holds_range(left@, from as int, mid as int),
            holds_range(right@, mid as int, to as int),
            in_order(keys@, left@),
            in_order(keys@, right@),
            in_order(keys@, merged@),
            merged@.len() == i + j,
            merged@.no_duplicates(),
            forall|x: int| 0 <= x < merged@.len() ==> from <= #[trigger] merged@[x] < to,
            forall|x: int, y: int|
                0 <= x < merged@.len() && i <= y < left@.len() ==> item_before(
                    keys@,
                    #[trigger] merged@[x] as int,
                    #[trigger] left@[y] as int,
                ) && merged@[x] != left@[y],
            forall|x: int, y: int|
                0 <= x < merged@.len() && j <= y < right@.len() ==> item_before(
                    keys@,
                    #[trigger] merged@[x] as int,
                    #[trigger] right@[y] as int,
                ) && merged@[x] != right@[y],
        decreases left@.len() - i + (right@.len() - j),
    {
        let take_left: bool = if i >= left.len() {
            false
        } else if j >= right.len() {
            true
        } else {
            match compare_keys(keys[left[i]].as_slice(), keys[right[j]].as_slice()) {
                Standing::Before => true,
                Standing::Same => true,
                Standing::After => false,
            }
        };
        let ghost before = merged@;
        if take_left {
            proof {
                if j < right@.len() {
                    assert(item_before(keys@, left@[i as int] as int, right@[j as int] as int));
                }
                assert forall|y: int| j <= y < right@.len() implies item_before(
                    keys@,
                    left@[i as int] as int,
                    #[trigger] right@[y] as int,
                ) by {
                    if y > j {
                        lemma_item_chain(
                            keys@,
                            left@[i as int] as int,
                            right@[j as int] as int,
                            right@[y] as int,
                        );
                    }
                }
            }
            merged.push(left[i]);
            i = i + 1;
        } else {
            proof {
                if i < left@.len() {
                    assert(item_before(keys@, right@[j as int] as int, left@[i as int] as int)) by {
                        lemma_key_total(
                            key_text(keys@[left@[i as int] as int]@),
                            key_text(keys@[right@[j as int] as int]@),
                        );
                    }
                }
                assert forall|y: int| i <= y < left@.len() implies item_before(
                    keys@,
                    right@[j as int] as int,
                    #[trigger] left@[y] as int,
                ) by {
                    if y > i {
                        lemma_item_chain(
                            keys@,
                            right@[j as int] as int,
                            left@[i as int] as int,
                            left@[y] as int,
                        );
                    }
                }
            }
            merged.push(right[j]);
            j = j + 1;
        }
        proof {
            assert forall|x: int| 0 <= x < before.len() implies #[trigger] merged@[x] == before[x] by {}
        }
    }
    merged
}

/// Orders the places from `from` to `to`.
fn order_range(keys: &[Vec<Vec<u8>>], from: usize, to: usize) -> (order: Vec<usize>)
    requires
        from <= to <= keys@.len(),
    ensures
        holds_range(order@, from as int, to as int),
        in_order(keys@, order@),
    decreases to - from,
{
    if to - from == 0 {
        return Vec::new();
    }
    if to - from == 1 {
        let mut order: Vec<usize> = Vec::new();
        order.push(from);
        return order;
    }
    let mid: usize = from + (to - from) / 2;
    let left = order_range(keys, from, mid);
    let right = order_range(keys, mid, to);
    merge(keys, left.as_slice(), right.as_slice(), from, mid, to)
}

/// Orders items by their keys: says which item comes first, which comes second,
/// and so on. Each item comes once, and equal keys stay as they were.
pub fn order_by_keys(keys: &[Vec<Vec<u8>>]) -> (order: Vec<usize>)
    ensures
        holds_range(order@, 0, keys@.len() as int),
        in_order(keys@, order@),
{
    order_range(keys, 0, keys.len())
}

/// The key by which an entry of a directory is ordered: by its name, and a
/// directory before a file.
pub open spec fn entry_key(name: Seq<char>, kind: PDeflateArchiveEntryKind) -> Seq<Seq<u8>> {
    seq![
        encode_utf8(name),
        seq![
            match kind {
                PDeflateArchiveEntryKind::Directory => 0u8,
                PDeflateArchiveEntryKind::File => 1u8,
            },
        ],
    ]
}

/// Makes the key by which an entry of a directory is ordered.
pub fn archive_entry_key(entry: &PDeflateArchiveEntrySource) -> (key: Vec<Vec<u8>>)
    ensures
        key_text(key@) == entry_key(entry.relative_name@, entry.kind),
{
    let name = entry.relative_name.as_str().as_bytes();
    let mut rank: Vec<u8> = Vec::new();
    match entry.kind {
        PDeflateArchiveEntryKind::Directory => rank.push(0),
        PDeflateArchiveEntryKind::File => rank.push(1),
    }
    let mut key: Vec<Vec<u8>> = Vec::new();
    key.push(copy_range(name, 0, name.len()));
    key.push(rank);
    proof {
        let text = key_text(key@);
        let stated = entry_key(entry.relative_name@, entry.kind);
        assert(text[0] =~= stated[0]);
        assert(text[1] =~= stated[1]);
        assert(text =~= stated);
    }
    key
}

/// The order is settled by the keys: there is only one that fits.
pub proof fn law_order_is_unique(keys: Seq<Vec<Vec<u8>>>, a: Seq<usize>, b: Seq<usize>, x: int)
    requires
        holds_range(a, 0, keys.len() as int),
        holds_range(b, 0, keys.len() as int),
        in_order(keys, a),
        in_order(keys, b),
        0 <= x < keys.len(),
    ensures
        a[x] == b[x],
    decreases x,
{
    assert forall|y: int| 0 <= y < x implies a[y] == b[y] by {
        law_order_is_unique(keys, a, b, y);
    }
    if a[x] != b[x] {
        let at_b = lemma_place_of(b, keys.len() as int, a[x]);
        let at_a = lemma_place_of(a, keys.len() as int, b[x]);
        assert(at_b > x) by {
            if at_b < x {
                assert(a[at_b] == b[at_b]);
            }
        }
        assert(at_a > x) by {
            if at_a < x {
                assert(b[at_a] == a[at_a]);
            }
        }
        assert(item_before(keys, b[x] as int, b[at_b] as int));
        assert(item_before(keys, a[x] as int, a[at_a] as int));
        lemma_item_total(keys, a[x] as int, b[x] as int);
    }
}

/// A list of `n` different places below `n` holds each of them.
proof fn lemma_place_of(order: Seq<usize>, n: int, place: usize) -> (at: int)
    requires
        holds_range(order, 0, n),
        place < n,
    ensures
        0 <= at < n,
        order[at] == place,
{
    let places = order.map_values(|place: usize| place as int);
    let all = vstd::set_lib::set_int_range(0, n);
    assert(places.no_duplicates()) by {
        assert forall|x: int, y: int|
            0 <= x < places.len() && 0 <= y < places.len() && x != y implies places[x]
            != places[y] by {
            assert(order[x] != order[y]);
        }
    }
    places.unique_seq_to_set();
    vstd::set_lib::lemma_int_range(0, n);
    assert(places.to_set().subset_of(all)) by {
        assert forall|p: int| #[trigger] places.to_set().contains(p) implies all.contains(p) by {
            let x = choose|x: int| 0 <= x < places.len() && places[x] == p;
            assert(0 <= order[x] < n);
        }
    }
    vstd::seq_lib::seq_to_set_is_finite(places);
    vstd::set_lib::lemma_subset_equality(places.to_set(), all);
    assert(places.to_set().contains(place as int));
    let x = choose|x: int| 0 <= x < places.len() && places[x] == place as int;
    assert(order[x] == place);
    let at = choose|at: int| 0 <= at < order.len() && order[at] == place;
    at
}

proof fn lemma_bytes_before_alike(a: Seq<u8>, b: Seq<u8>, n: int)
    requires
        0 <= n <= a.len(),
        n <= b.len(),
        a.take(n) == b.take(n),
    ensures
        bytes_before(a, b) == bytes_before(a.skip(n), b.skip(n)),
    decreases n,
{
    if n == 0 {
        assert(a.skip(0) =~= a);
        assert(b.skip(0) =~= b);
    } else {
        assert(a.take(n)[0] == a[0] && b.take(n)[0] == b[0]);
        assert(a.drop_first().take(n - 1) =~= a.take(n).drop_first());
        assert(b.drop_first().take(n - 1) =~= b.take(n).drop_first());
        lemma_bytes_before_alike(a.drop_first(), b.drop_first(), n - 1);
        assert(a.drop_first().skip(n - 1) =~= a.skip(n));
        assert(b.drop_first().skip(n - 1) =~= b.skip(n));
    }
}

/// An entry comes before another where its name, as far as they are alike, is shorter
/// or has the smaller byte behind it. `n` is how far they are alike.
pub proof fn law_entries_are_ordered_by_name(
    entries: Seq<PDeflateArchiveEntrySource>,
    keys: &[Vec<Vec<u8>>],
    order: Vec<usize>,
    x: int,
    y: int,
    n: int,
)
    requires
        keys@.len() == entries.len(),
        forall|i: int|
            0 <= i < entries.len() ==> call_ensures(
                archive_entry_key,
                (&entries[i],),
                #[trigger] keys@[i],
            ),
        call_ensures(order_by_keys, (keys,), order),
        0 <= x < order@.len(),
        0 <= y < order@.len(),
        ({
            let a = encode_utf8(entries[order@[x] as int].relative_name@);
            let b = encode_utf8(entries[order@[y] as int].relative_name@);
            &&& 0 <= n <= a.len()
            &&& n < b.len()
            &&& a.take(n) == b.take(n)
            &&& n < a.len() ==> a[n] < b[n]
        }),
    ensures
        x < y,
{
    let first = order@[x] as int;
    let second = order@[y] as int;
    let a = encode_utf8(entries[first].relative_name@);
    let b = encode_utf8(entries[second].relative_name@);
    lemma_bytes_before_alike(a, b, n);
    assert(bytes_before(a, b));
    lemma_bytes_total(a, b);
    let ka = key_text(keys@[first]@);
    let kb = key_text(keys@[second]@);
    assert(call_ensures(archive_entry_key, (&entries[first],), keys@[first]));
    assert(call_ensures(archive_entry_key, (&entries[second],), keys@[second]));
    assert(ka[0] == a && kb[0] == b);
    assert(key_before(ka, kb));
    assert(!key_before(kb, ka));
    if y < x {
        assert(item_before(keys@, order@[y] as int, order@[x] as int));
    }
}

/// Of entries with one name the directory comes first, and of two of one kind the one
/// that was listed first.
pub proof fn law_directories_come_before_files(
    entries: Seq<PDeflateArchiveEntrySource>,
    keys: &[Vec<Vec<u8>>],
    order: Vec<usize>,
    x: int,
    y: int,
)
    requires
        keys@.len() == entries.len(),
        forall|i: int|
            0 <= i < entries.len() ==> call_ensures(
                archive_entry_key,
                (&entries[i],),
                #[trigger] keys@[i],
            ),
        call_ensures(order_by_keys, (keys,), order),
        0 <= x < order@.len(),
        0 <= y < order@.len(),
        ({
            let a = entries[order@[x] as int];
            let b = entries[order@[y] as int];
            &&& a.relative_name@ == b.relative_name@
            &&& a.kind is Directory && b.kind is File || a.kind == b.kind && order@[x] < order@[y]
        }),
    ensures
        x < y,
{
    let first = order@[x] as int;
    let second = order@[y] as int;
    let ka = key_text(keys@[first]@);
    let kb = key_text(keys@[second]@);
    assert(call_ensures(archive_entry_key, (&entries[first],), keys@[first]));
    assert(call_ensures(archive_entry_key, (&entries[second],), keys@[second]));
    reveal_with_fuel(key_before, 3);
    if entries[first].kind == entries[second].kind {
        assert(ka =~= kb);
        lemma_key_total(ka, kb);
    } else {
        assert(ka.drop_first()[0] == seq![0u8] && kb.drop_first()[0] == seq![1u8]);
        assert(ka.drop_first()[0][0] == 0 && kb.drop_first()[0][0] == 1);
        assert(key_before(ka, kb));
        lemma_key_total(ka, kb);
    }
    if y < x {
        assert(item_before(keys@, order@[y] as int, order@[x] as int));
    }
}

/// Every entry is kept, and none comes twice.
pub proof fn law_ordering_keeps_every_entry(keys: &[Vec<Vec<u8>>], order: Vec<usize>, i: usize)
    requires
        call_ensures(order_by_keys, (keys,), order),
        i < keys@.len(),
    ensures
        order@.len() == keys@.len(),
        order@.contains(i),
        order@.no_duplicates(),
{
    let at = lemma_place_of(order@, keys@.len() as int, i);
    assert(order@[at] == i);
}

} // verus!
