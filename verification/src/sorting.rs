use vstd::prelude::*;
use vstd::string::*;
use vstd::utf8::*;

use crate::lists::lemma_push_to_set;
use crate::parse_code::texts;
use crate::text::{lemma_encoding_injective, same_text};

verus! {

/// Whether a list of bytes comes before another in the order of dictionaries, from place `k` on.
pub open spec fn bytes_before(a: Seq<u8>, b: Seq<u8>, k: int) -> bool
    decreases a.len() - k,
{
    if k >= b.len() {
        false
    } else if k >= a.len() {
        true
    } else if a[k] != b[k] {
        a[k] < b[k]
    } else {
        bytes_before(a, b, k + 1)
    }
}

/// Whether a text comes before another, by the bytes of their encodings.
pub open spec fn text_before(a: Seq<char>, b: Seq<char>) -> bool {
    bytes_before(encode_utf8(a), encode_utf8(b), 0)
}

/// Whether each text of a list comes before those behind it.
pub open spec fn ascending(list: Seq<Seq<char>>) -> bool {
    forall|i: int, j: int|
        0 <= i < j < list.len() ==> text_before(#[trigger] list[i], #[trigger] list[j])
}

/// An ascending list with another text put in its place.
pub open spec fn inserted(list: Seq<Seq<char>>, text: Seq<char>) -> Seq<Seq<char>>
    decreases list.len(),
{
    if list.len() == 0 {
        seq![text]
    } else if list.last() == text {
        list
    } else if text_before(list.last(), text) {
        list.push(text)
    } else {
        inserted(list.drop_last(), text).push(list.last())
    }
}

/// The texts of a list in ascending order, each once.
pub open spec fn sorted_texts(list: Seq<Seq<char>>) -> Seq<Seq<char>>
    decreases list.len(),
{
    if list.len() == 0 {
        Seq::empty()
    } else {
        inserted(sorted_texts(list.drop_last()), list.last())
    }
}

/// Of two lists of bytes that differ behind place `k` and agree before, one comes before the
/// other and not the other way.
proof fn lemma_bytes_total(a: Seq<u8>, b: Seq<u8>, k: int)
    requires
        0 <= k <= a.len(),
        k <= b.len(),
        forall|j: int| 0 <= j < k ==> a[j] == b[j],
    ensures
        a != b ==> (bytes_before(a, b, k) != bytes_before(b, a, k)),
        a == b ==> !bytes_before(a, b, k),
    decreases a.len() - k,
{
    if k < a.len() && k < b.len() {
        if a[k] == b[k] {
            lemma_bytes_total(a, b, k + 1);
        }
    } else if a.len() == b.len() {
        assert(a =~= b);
    }
}

/// The order of lists of bytes can be chained.
proof fn lemma_bytes_chain(a: Seq<u8>, b: Seq<u8>, c: Seq<u8>, k: int)
    requires
        0 <= k,
        bytes_before(a, b, k),
        bytes_before(b, c, k),
    ensures
        bytes_before(a, c, k),
    decreases a.len() - k,
{
    if k < a.len() && a[k] == b[k] && b[k] == c[k] {
        lemma_bytes_chain(a, b, c, k + 1);
    }
}

/// Of two different texts exactly one comes before the other.
pub proof fn lemma_text_total(a: Seq<char>, b: Seq<char>)
    ensures
        a != b ==> (text_before(a, b) != text_before(b, a)),
        !text_before(a, a),
{
    lemma_bytes_total(encode_utf8(a), encode_utf8(b), 0);
    lemma_bytes_total(encode_utf8(a), encode_utf8(a), 0);
    if encode_utf8(a) == encode_utf8(b) {
        lemma_encoding_injective(a, b);
    }
}

/// The order of texts can be chained.
pub proof fn lemma_text_chain(a: Seq<char>, b: Seq<char>, c: Seq<char>)
    requires
        text_before(a, b),
        text_before(b, c),
    ensures
        text_before(a, c),
{
    lemma_bytes_chain(encode_utf8(a), encode_utf8(b), encode_utf8(c), 0);
}

/// Putting a text in its place keeps a list ascending and adds nothing else.
proof fn lemma_inserted(list: Seq<Seq<char>>, text: Seq<char>)
    requires
        ascending(list),
    ensures
        ascending(inserted(list, text)),
        inserted(list, text).to_set() == list.to_set().insert(text),
    decreases list.len(),
{
    let now = inserted(list, text);
    if list.len() == 0 {
        assert(now =~= list.push(text));
        lemma_push_to_set(list, text);
    } else if list.last() == text {
        assert(list[list.len() - 1] == text);
        assert(list.to_set().insert(text) =~= list.to_set());
    } else if text_before(list.last(), text) {
        lemma_push_to_set(list, text);
        assert forall|i: int, j: int| 0 <= i < j < now.len() implies text_before(
            #[trigger] now[i],
            #[trigger] now[j],
        ) by {
            if j == list.len() {
                if i < list.len() - 1 {
                    assert(text_before(list[i], list[list.len() - 1]));
                    lemma_text_chain(list[i], list.last(), text);
                }
            }
        }
    } else {
        let rest = list.drop_last();
        let last = list.last();
        let earlier = inserted(rest, text);
        lemma_inserted(rest, text);
        lemma_text_total(last, text);
        lemma_push_to_set(earlier, last);
        lemma_push_to_set(rest, last);
        assert(rest.push(last) =~= list);
        assert(rest.to_set().insert(text).insert(last) =~= rest.to_set().insert(last).insert(text));
        assert forall|i: int, j: int| 0 <= i < j < now.len() implies text_before(
            #[trigger] now[i],
            #[trigger] now[j],
        ) by {
            if j < earlier.len() {
                assert(text_before(earlier[i], earlier[j]));
            } else {
                assert(earlier.to_set().contains(earlier[i]));
                if earlier[i] != text {
                    assert(rest.to_set().contains(earlier[i]));
                    let k = choose|k: int| 0 <= k < rest.len() && rest[k] == earlier[i];
                    assert(text_before(list[k], list[list.len() - 1]));
                }
            }
        }
    }
}

/// Sorting texts gives them in ascending order, and none but them.
pub proof fn law_sorting(list: Seq<Seq<char>>)
    ensures
        ascending(sorted_texts(list)),
        sorted_texts(list).to_set() == list.to_set(),
        sorted_texts(list).no_duplicates(),
    decreases list.len(),
{
    if list.len() == 0 {
        assert(sorted_texts(list).to_set() =~= list.to_set());
    } else {
        let rest = list.drop_last();
        law_sorting(rest);
        lemma_inserted(sorted_texts(rest), list.last());
        assert(rest.push(list.last()) =~= list);
        lemma_push_to_set(rest, list.last());
    }
    let all = sorted_texts(list);
    assert forall|i: int, j: int| 0 <= i < all.len() && 0 <= j < all.len() && i != j implies all[i]
        != all[j] by {
        lemma_text_total(all[i], all[j]);
        if i < j {
            assert(text_before(all[i], all[j]));
        } else {
            assert(text_before(all[j], all[i]));
        }
    }
}

/// Two ascending lists of the same texts are the same: the order in which texts come into a list
/// does not matter.
pub proof fn law_ascending_is_unique(a: Seq<Seq<char>>, b: Seq<Seq<char>>)
    requires
        ascending(a),
        ascending(b),
        a.to_set() == b.to_set(),
    ensures
        a == b,
    decreases a.len(),
{
    if a.len() == 0 {
        if b.len() > 0 {
            assert(b.to_set().contains(b[0]));
        }
        assert(a =~= b);
    } else {
        assert(a.to_set().contains(a[0]));
        if b.len() == 0 {
            assert(!b.to_set().contains(a[0]));
        }
        let x = a.last();
        let y = b.last();
        assert(a.to_set().contains(a[a.len() - 1]));
        assert(b.to_set().contains(b[b.len() - 1]));
        if x != y {
            let i = choose|i: int| 0 <= i < b.len() && b[i] == x;
            let j = choose|j: int| 0 <= j < a.len() && a[j] == y;
            assert(text_before(b[i], b[b.len() - 1]));
            assert(text_before(a[j], a[a.len() - 1]));
            lemma_text_total(x, y);
        }
        let p = a.drop_last();
        let q = b.drop_last();
        assert forall|t: Seq<char>| p.to_set().contains(t) == q.to_set().contains(t) by {
            if p.contains(t) {
                let k = choose|k: int| 0 <= k < p.len() && p[k] == t;
                assert(text_before(a[k], a[a.len() - 1]));
                lemma_text_total(t, x);
                assert(a[k] == t);
                assert(b.to_set().contains(t));
                let m = choose|m: int| 0 <= m < b.len() && b[m] == t;
                assert(q[m] == t);
            }
            if q.contains(t) {
                let k = choose|k: int| 0 <= k < q.len() && q[k] == t;
                assert(text_before(b[k], b[b.len() - 1]));
                lemma_text_total(t, y);
                assert(b[k] == t);
                assert(a.to_set().contains(t));
                let m = choose|m: int| 0 <= m < a.len() && a[m] == t;
                assert(p[m] == t);
            }
        }
        assert(p.to_set() =~= q.to_set());
        law_ascending_is_unique(p, q);
        assert(a =~= p.push(x));
        assert(b =~= q.push(y));
    }
}

/// Whether a text comes before another.
pub fn is_before(a: &str, b: &str) -> (r: bool)
    ensures
        r == text_before(a@, b@),
{
    let x: &[u8] = a.as_bytes();
    let y: &[u8] = b.as_bytes();
    let mut k: usize = 0;
    while k < x.len() && k < y.len() && x[k] == y[k]
        invariant
            k <= x.len(),
            k <= y.len(),
            x@ == encode_utf8(a@),
            y@ == encode_utf8(b@),
            text_before(a@, b@) == bytes_before(x@, y@, k as int),
        decreases x.len() - k,
    {
        k += 1;
    }
    if k >= y.len() {
        false
    } else if k >= x.len() {
        true
    } else {
        x[k] < y[k]
    }
}

/// Puts a text in its place in an ascending list.
fn insert_text(list: &mut Vec<String>, text: String)
    ensures
        texts(final(list)@) == inserted(texts(old(list)@), text@),
{
    let ghost all = texts(list@);
    let mut i: usize = list.len();
    assert(all.take(all.len() as int) =~= all);
    assert(inserted(all, text@) + all.skip(all.len() as int) =~= inserted(all, text@));
    while i > 0 && !is_before(list[i - 1].as_str(), text.as_str())
        invariant
            i <= list@.len(),
            *list == *old(list),
            all == texts(list@),
            inserted(all, text@) == inserted(all.take(i as int), text@) + all.skip(i as int),
        decreases i,
    {
        assert(all.take(i as int).last() == list@[i - 1]@);
        if same_text(list[i - 1].as_str(), text.as_str()) {
            assert(all.take(i as int) + all.skip(i as int) =~= all);
            return;
        }
        i -= 1;
        proof {
            let shorter = all.take(i as int);
            assert(all.take(i + 1).drop_last() =~= shorter);
            assert(inserted(shorter, text@).push(all[i as int]) + all.skip(i + 1) =~= inserted(
                shorter,
                text@,
            ) + all.skip(i as int));
        }
    }
    proof {
        if i > 0 {
            let shorter = all.take(i as int);
            assert(shorter.last() == list@[i - 1]@);
            lemma_text_total(shorter.last(), text@);
            assert(inserted(shorter, text@) == shorter.push(text@));
        } else {
            assert(all.take(0) =~= Seq::empty());
            assert(inserted(all.take(0), text@) =~= all.take(0).push(text@));
        }
    }
    let ghost view = text@;
    list.insert(i, text);
    assert(texts(list@) =~= all.take(i as int).push(view) + all.skip(i as int));
}

/// The texts of a list in ascending order, each once.
pub fn sort_texts(list: Vec<String>) -> (sorted: Vec<String>)
    ensures
        texts(sorted@) == sorted_texts(texts(list@)),
{
    let ghost all = texts(list@);
    let mut sorted: Vec<String> = Vec::new();
    assert(all.take(0) =~= Seq::empty());
    assert(texts(sorted@) =~= sorted_texts(all.take(0)));
    let mut i: usize = 0;
    while i < list.len()
        invariant
            i <= list@.len(),
            all == texts(list@),
            texts(sorted@) == sorted_texts(all.take(i as int)),
        decreases list@.len() - i,
    {
        proof {
            assert(all.take(i + 1).drop_last() =~= all.take(i as int));
            assert(all.take(i + 1).last() == list@[i as int]@);
        }
        insert_text(&mut sorted, list[i].clone());
        i += 1;
    }
    assert(all.take(list@.len() as int) =~= all);
    sorted
}

} // verus!
