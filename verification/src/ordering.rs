//! The alphabetical order of texts, lists sorted by it, and lists without repetition.

use vstd::prelude::*;

use crate::text::texts;

verus! {

/// `a` comes before `b`: at the first place where they differ `a` ends, or has the smaller byte
/// there.
pub open spec fn bytes_precede(a: Seq<u8>, b: Seq<u8>) -> bool
    decreases a.len(),
{
    if b.len() == 0 {
        false
    } else if a.len() == 0 {
        true
    } else if a[0] == b[0] {
        bytes_precede(a.drop_first(), b.drop_first())
    } else {
        a[0] < b[0]
    }
}

/// The order of texts: that of their UTF-8 encodings, byte by byte.
pub open spec fn precedes(a: Seq<char>, b: Seq<char>) -> bool {
    bytes_precede(vstd::utf8::encode_utf8(a), vstd::utf8::encode_utf8(b))
}

proof fn lemma_bytes_irreflexive(a: Seq<u8>)
    ensures
        !bytes_precede(a, a),
    decreases a.len(),
{
    if a.len() > 0 {
        lemma_bytes_irreflexive(a.drop_first());
    }
}

proof fn lemma_bytes_transitive(a: Seq<u8>, b: Seq<u8>, c: Seq<u8>)
    requires
        bytes_precede(a, b),
        bytes_precede(b, c),
    ensures
        bytes_precede(a, c),
    decreases a.len(),
{
    if a.len() > 0 && a[0] == b[0] && b[0] == c[0] {
        lemma_bytes_transitive(a.drop_first(), b.drop_first(), c.drop_first());
    }
}

proof fn lemma_bytes_total(a: Seq<u8>, b: Seq<u8>)
    requires
        a != b,
    ensures
        bytes_precede(a, b) || bytes_precede(b, a),
    decreases a.len(),
{
    if a.len() > 0 && b.len() > 0 && a[0] == b[0] {
        if a.drop_first() == b.drop_first() {
            assert(a == seq![a[0]] + a.drop_first());
            assert(b == seq![b[0]] + b.drop_first());
        }
        lemma_bytes_total(a.drop_first(), b.drop_first());
    } else {
        assert(a.len() == 0 && b.len() == 0 ==> a == b);
    }
}

/// No text comes before itself.
pub proof fn lemma_precedes_irreflexive(a: Seq<char>)
    ensures
        !precedes(a, a),
{
    lemma_bytes_irreflexive(vstd::utf8::encode_utf8(a));
}

/// The order is transitive.
pub proof fn lemma_precedes_transitive(a: Seq<char>, b: Seq<char>, c: Seq<char>)
    requires
        precedes(a, b),
        precedes(b, c),
    ensures
        precedes(a, c),
{
    lemma_bytes_transitive(
        vstd::utf8::encode_utf8(a),
        vstd::utf8::encode_utf8(b),
        vstd::utf8::encode_utf8(c),
    );
}

/// Of two different texts one comes before the other.
pub proof fn lemma_precedes_total(a: Seq<char>, b: Seq<char>)
    requires
        a != b,
    ensures
        precedes(a, b) || precedes(b, a),
{
    vstd::utf8::encode_utf8_decode_utf8(a);
    vstd::utf8::encode_utf8_decode_utf8(b);
    lemma_bytes_total(vstd::utf8::encode_utf8(a), vstd::utf8::encode_utf8(b));
}

/// Whether `a` comes before `b`.
pub fn comes_before(a: &str, b: &str) -> (res: bool)
    ensures
        res == precedes(a@, b@),
{
    let left = a.as_bytes();
    let right = b.as_bytes();
    let mut i: usize = 0;
    assert(left@.skip(0) == left@);
    assert(right@.skip(0) == right@);
    while i < left.len() && i < right.len()
        invariant
            i <= left@.len(),
            i <= right@.len(),
            precedes(a@, b@) == bytes_precede(left@.skip(i as int), right@.skip(i as int)),
        decreases left.len() - i,
    {
        let x: u8 = left[i];
        let y: u8 = right[i];
        if x != y {
            return x < y;
        }
        assert(left@.skip(i as int).drop_first() == left@.skip(i + 1));
        assert(right@.skip(i as int).drop_first() == right@.skip(i + 1));
        i = i + 1;
    }
    i < right.len()
}

/// Each text of the list comes before those behind it; none occurs twice.
pub open spec fn ascending(list: Seq<Seq<char>>) -> bool {
    forall|i: int, j: int|
        0 <= i < j < list.len() ==> precedes(#[trigger] list[i], #[trigger] list[j])
}

/// An ascending list is determined by which texts it holds.
pub proof fn lemma_ascending_unique(a: Seq<Seq<char>>, b: Seq<Seq<char>>)
    requires
        ascending(a),
        ascending(b),
        forall|t: Seq<char>| a.contains(t) <==> b.contains(t),
    ensures
        a == b,
    decreases a.len(),
{
    if a.len() == 0 {
        if b.len() > 0 {
            assert(b.contains(b[0]));
            assert(a.contains(b[0]));
        }
        assert(a == b);
    } else if b.len() == 0 {
        assert(a.contains(a[0]));
        assert(b.contains(a[0]));
    } else {
        let x = a.last();
        let y = b.last();
        assert(a.contains(x));
        assert(b.contains(y));
        if x != y {
            let i = choose|i: int| 0 <= i < b.len() && b[i] == x;
            let j = choose|j: int| 0 <= j < a.len() && a[j] == y;
            assert(precedes(x, y));
            assert(precedes(y, x));
            lemma_precedes_transitive(x, y, x);
            lemma_precedes_irreflexive(x);
        }
        assert forall|t: Seq<char>| a.drop_last().contains(t) implies b.drop_last().contains(t) by {
            let k = choose|k: int| 0 <= k < a.drop_last().len() && a.drop_last()[k] == t;
            assert(a[k] == t && precedes(t, x));
            assert(a.contains(t));
            let m = choose|m: int| 0 <= m < b.len() && b[m] == t;
            lemma_precedes_irreflexive(x);
            assert(b.drop_last()[m] == t);
        }
        assert forall|t: Seq<char>| b.drop_last().contains(t) implies a.drop_last().contains(t) by {
            let k = choose|k: int| 0 <= k < b.drop_last().len() && b.drop_last()[k] == t;
            assert(b[k] == t && precedes(t, y));
            assert(b.contains(t));
            let m = choose|m: int| 0 <= m < a.len() && a[m] == t;
            lemma_precedes_irreflexive(y);
            assert(a.drop_last()[m] == t);
        }
        lemma_ascending_unique(a.drop_last(), b.drop_last());
        assert(a == a.drop_last().push(x));
        assert(b == b.drop_last().push(y));
    }
}

/// Puts `item` into an ascending list, unless it is there already.
pub fn insert_ascending(list: &mut Vec<String>, item: &str)
    requires
        ascending(texts(old(list)@)),
    ensures
        ascending(texts(final(list)@)),
        forall|t: Seq<char>|
            texts(final(list)@).contains(t) <==> (texts(old(list)@).contains(t) || t == item@),
{
    let ghost before = texts(list@);
    let mut low: usize = 0;
    let mut high: usize = list.len();
    while low < high
        invariant
            low <= high <= list@.len(),
            before == texts(list@),
            ascending(before),
            forall|k: int| 0 <= k < low ==> precedes(#[trigger] before[k], item@),
            forall|k: int| high <= k < before.len() ==> !precedes(#[trigger] before[k], item@),
        decreases high - low,
    {
        let mid: usize = low + (high - low) / 2;
        assert(before[mid as int] == list@[mid as int]@);
        if comes_before(list[mid].as_str(), item) {
            assert forall|k: int| 0 <= k < mid + 1 implies precedes(#[trigger] before[k], item@) by {
                if k < mid {
                    lemma_precedes_transitive(before[k], before[mid as int], item@);
                }
            }
            low = mid + 1;
        } else {
            assert forall|k: int| mid <= k < before.len() implies !precedes(
                #[trigger] before[k],
                item@,
            ) by {
                if k > mid && precedes(before[k], item@) {
                    lemma_precedes_transitive(before[mid as int], before[k], item@);
                }
            }
            high = mid;
        }
    }
    if low < list.len() && crate::text::same_text(list[low].as_str(), item) {
        assert(before[low as int] == item@);
        return ;
    }
    list.insert(low, item.to_owned());
    let ghost after = texts(list@);
    proof {
        assert(after == before.insert(low as int, item@));
        assert forall|k: int| low <= k < before.len() implies precedes(item@, #[trigger] before[k]) by {
            if k == low {
                assert(before[k] != item@);
            } else {
                assert(precedes(before[low as int], before[k]));
                lemma_precedes_irreflexive(before[k]);
                if before[k] == item@ {
                    assert(precedes(before[low as int], item@));
                }
            }
            lemma_precedes_total(before[k], item@);
        }
        assert forall|i: int, j: int| 0 <= i < j < after.len() implies precedes(
            #[trigger] after[i],
            #[trigger] after[j],
        ) by {
            if i < low && j > low {
                assert(precedes(before[i], before[j - 1]));
            } else if i > low {
                assert(precedes(before[i - 1], before[j - 1]));
            } else if i == low {
                assert(precedes(item@, before[j - 1]));
            }
        }
        assert forall|t: Seq<char>| before.contains(t) || t == item@ implies after.contains(t) by {
            if t == item@ {
                assert(after[low as int] == t);
            } else {
                let k = choose|k: int| 0 <= k < before.len() && before[k] == t;
                if k < low {
                    assert(after[k] == t);
                } else {
                    assert(after[k + 1] == t);
                }
            }
        }
        assert forall|t: Seq<char>| after.contains(t) implies before.contains(t) || t == item@ by {
            let k = choose|k: int| 0 <= k < after.len() && after[k] == t;
            if k < low {
                assert(before[k] == t);
            } else if k > low {
                assert(before[k - 1] == t);
            }
        }
    }
}

proof fn lemma_bytes_order(a: Seq<u8>, b: Seq<u8>, k: int)
    requires
        0 <= k <= a.len(),
        k < b.len(),
        forall|i: int| 0 <= i < k ==> a[i] == b[i],
        k == a.len() || a[k] < b[k],
    ensures
        bytes_precede(a, b),
    decreases k,
{
    if k > 0 {
        assert(a[0] == b[0]);
        assert forall|i: int| 0 <= i < k - 1 implies a.drop_first()[i] == b.drop_first()[i] by {
            assert(a[i + 1] == b[i + 1]);
        }
        lemma_bytes_order(a.drop_first(), b.drop_first(), k - 1);
    }
}

/// A text whose UTF-8 encoding, where it first differs from that of another, ends or has the
/// smaller byte, comes before it, and the other does not come before it.
pub proof fn law_first_difference_decides(a: Seq<char>, b: Seq<char>, k: int)
    requires
        ({
            let left = vstd::utf8::encode_utf8(a);
            let right = vstd::utf8::encode_utf8(b);
            &&& 0 <= k <= left.len()
            &&& k < right.len()
            &&& left.take(k) == right.take(k)
            &&& k == left.len() || left[k] < right[k]
        }),
    ensures
        precedes(a, b),
        !precedes(b, a),
{
    let left = vstd::utf8::encode_utf8(a);
    let right = vstd::utf8::encode_utf8(b);
    assert forall|i: int| 0 <= i < k implies left[i] == right[i] by {
        assert(left.take(k)[i] == right.take(k)[i]);
    }
    lemma_bytes_order(left, right, k);
    if precedes(b, a) {
        lemma_precedes_transitive(a, b, a);
        lemma_precedes_irreflexive(a);
    }
}

/// In an ascending list the earlier of two texts is the one that comes before the other, and no
/// text stands at two places.
pub proof fn law_ascending_list_follows_the_order(list: Seq<Seq<char>>, i: int, j: int)
    requires
        ascending(list),
        0 <= i < list.len(),
        0 <= j < list.len(),
    ensures
        i < j <==> precedes(list[i], list[j]),
        list[i] == list[j] ==> i == j,
{
    lemma_precedes_irreflexive(list[i]);
    if precedes(list[i], list[j]) && j < i {
        lemma_precedes_transitive(list[i], list[j], list[i]);
    }
}

} // verus!
