//! The canonical text of a JSON document: compact, with the entries of every object in the
//! order of their names. Its digest does not depend on the order in which they were written.
use vstd::prelude::*;

use crate::profile_text::{digest_of, json_string, quoted, text_digest};

verus! {

/// A JSON document. A number is kept as its text.
#[derive(Debug)]
pub enum Document {
    Null,
    Flag(bool),
    Number(String),
    Text(String),
    List(Vec<Document>),
    Object(Vec<(String, Document)>),
}

/// A name comes before another: at the first code point that differs, or where it ends first.
pub open spec fn before(a: Seq<char>, b: Seq<char>) -> bool
    decreases a.len(),
{
    if b.len() == 0 {
        false
    } else if a.len() == 0 {
        true
    } else if a[0] != b[0] {
        (a[0] as int) < (b[0] as int)
    } else {
        before(a.drop_first(), b.drop_first())
    }
}

proof fn lemma_one_way(a: Seq<char>, b: Seq<char>)
    ensures
        a != b ==> before(a, b) || before(b, a),
        !(before(a, b) && before(b, a)),
        a == b ==> !before(a, b),
    decreases a.len(),
{
    if a.len() == 0 || b.len() == 0 {
        assert(a.len() == 0 && b.len() == 0 ==> a =~= b);
    } else if a[0] == b[0] {
        lemma_one_way(a.drop_first(), b.drop_first());
        if a.drop_first() == b.drop_first() {
            assert(a =~= seq![a[0]] + a.drop_first());
            assert(b =~= seq![b[0]] + b.drop_first());
        }
    }
}

proof fn lemma_through(a: Seq<char>, b: Seq<char>, c: Seq<char>)
    requires
        before(a, b),
        before(b, c),
    ensures
        before(a, c),
    decreases a.len(),
{
    if a.len() > 0 && b.len() > 0 && c.len() > 0 && a[0] == b[0] && b[0] == c[0] {
        lemma_through(a.drop_first(), b.drop_first(), c.drop_first());
    }
}

/// Whether a name comes before another.
pub fn comes_before(a: &str, b: &str) -> (r: bool)
    ensures
        r == before(a@, b@),
{
    let n: usize = a.unicode_len();
    let m: usize = b.unicode_len();
    let mut i: usize = 0;
    assert(a@.skip(0) =~= a@ && b@.skip(0) =~= b@);
    while i < n && i < m
        invariant
            n == a@.len(),
            m == b@.len(),
            i <= n,
            i <= m,
            before(a@, b@) == before(a@.skip(i as int), b@.skip(i as int)),
        decreases n - i,
    {
        let x: char = a.get_char(i);
        let y: char = b.get_char(i);
        assert(a@.skip(i as int)[0] == x && b@.skip(i as int)[0] == y);
        if x != y {
            return (x as u32) < (y as u32);
        }
        assert(a@.skip(i as int).drop_first() =~= a@.skip(i + 1));
        assert(b@.skip(i as int).drop_first() =~= b@.skip(i + 1));
        i += 1;
    }
    i < m
}

/// The entries have names of their own.
pub open spec fn named(entries: Seq<(String, Document)>) -> bool {
    forall|i: int, j: int|
        0 <= i < entries.len() && 0 <= j < entries.len() && (#[trigger] entries[i]).0@ == (
        #[trigger] entries[j]).0@ ==> i == j
}

/// The places of some entries, in the order of their names.
pub open spec fn in_order(entries: Seq<(String, Document)>, order: Seq<int>) -> bool {
    &&& order.len() == entries.len()
    &&& forall|k: int| 0 <= k < order.len() ==> 0 <= #[trigger] order[k] < entries.len()
    &&& forall|e: int| 0 <= e < entries.len() ==> #[trigger] order.contains(e)
    &&& forall|j: int, k: int|
        0 <= j < k < order.len() ==> before(
            entries[#[trigger] order[j]].0@,
            entries[#[trigger] order[k]].0@,
        )
}

pub open spec fn order_of(entries: Seq<(String, Document)>) -> Seq<int> {
    choose|order: Seq<int>| in_order(entries, order)
}

/// The text of the first `k` items of a list.
pub open spec fn items_text(items: Seq<Document>, k: nat) -> Seq<char>
    decreases items, k,
{
    if k == 0 || k > items.len() {
        Seq::empty()
    } else {
        items_text(items, (k - 1) as nat) + (if k == 1 {
            Seq::empty()
        } else {
            ","@
        }) + canonical(items[k - 1])
    }
}

/// The text of the first `k` entries of an object, in an order.
pub open spec fn entries_text(entries: Seq<(String, Document)>, order: Seq<int>, k: nat) -> Seq<char>
    decreases entries, k,
{
    if k == 0 || k > order.len() || !(0 <= order[k - 1] < entries.len()) {
        Seq::empty()
    } else {
        let e = entries[order[k - 1]];
        entries_text(entries, order, (k - 1) as nat) + (if k == 1 {
            Seq::empty()
        } else {
            ","@
        }) + quoted(e.0@) + ":"@ + canonical(e.1)
    }
}

/// The canonical text of a document.
pub open spec fn canonical(value: Document) -> Seq<char>
    decreases value, 0nat,
{
    match value {
        Document::Null => "null"@,
        Document::Flag(flag) => if flag {
            "true"@
        } else {
            "false"@
        },
        Document::Number(text) => text@,
        Document::Text(text) => quoted(text@),
        Document::List(items) => "["@ + items_text(items@, items@.len()) + "]"@,
        Document::Object(entries) => "{"@ + entries_text(
            entries@,
            order_of(entries@),
            entries@.len(),
        ) + "}"@,
    }
}

/// Every object of a document has names of its own.
pub open spec fn distinct_names(value: Document) -> bool
    decreases value,
{
    match value {
        Document::List(items) => forall|i: int|
            0 <= i < items@.len() ==> distinct_names(#[trigger] items@[i]),
        Document::Object(entries) => named(entries@) && forall|i: int|
            0 <= i < entries@.len() ==> distinct_names((#[trigger] entries@[i]).1),
        _ => true,
    }
}

/// There is one order of the names.
proof fn lemma_one_order(entries: Seq<(String, Document)>, a: Seq<int>, b: Seq<int>)
    requires
        in_order(entries, a),
        in_order(entries, b),
    ensures
        a == b,
{
    assert forall|i: int| 0 <= i < entries.len() implies among(entries, #[trigger] entries[i]) by {
        assert(same_entry(entries[i], entries[i]));
    }
    assert forall|k: int| 0 <= k < a.len() implies a[k] == b[k] by {
        lemma_same_place(entries, a, entries, b, k);
        lemma_places(entries, a, b, k);
    }
    assert(a =~= b);
}

/// Entries of one object with the same name are one entry.
proof fn lemma_places(entries: Seq<(String, Document)>, a: Seq<int>, b: Seq<int>, k: int)
    requires
        in_order(entries, a),
        in_order(entries, b),
        0 <= k < a.len(),
        entries[a[k]].0@ == entries[b[k]].0@,
    ensures
        a[k] == b[k],
{
    assert(a.contains(b[k]));
    let j = choose|j: int| 0 <= j < a.len() && a[j] == b[k];
    lemma_one_way(entries[a[j]].0@, entries[a[k]].0@);
    if j < k {
        assert(before(entries[a[j]].0@, entries[a[k]].0@));
    } else if k < j {
        assert(before(entries[a[k]].0@, entries[a[j]].0@));
    }
}

/// Entries with the same name and the same value.
pub open spec fn same_entry(a: (String, Document), b: (String, Document)) -> bool {
    a.0@ == b.0@ && a.1 == b.1
}

/// An entry is among some.
pub open spec fn among(entries: Seq<(String, Document)>, e: (String, Document)) -> bool {
    exists|j: int| 0 <= j < entries.len() && same_entry(#[trigger] entries[j], e)
}

/// What the one object holds, the other holds too.
pub open spec fn within(a: Seq<(String, Document)>, b: Seq<(String, Document)>) -> bool {
    forall|i: int| 0 <= i < a.len() ==> among(b, #[trigger] a[i])
}

/// The names of the same entries stand in the same order.
proof fn lemma_same_place(
    a: Seq<(String, Document)>,
    oa: Seq<int>,
    b: Seq<(String, Document)>,
    ob: Seq<int>,
    k: int,
)
    requires
        in_order(a, oa),
        in_order(b, ob),
        within(a, b),
        within(b, a),
        a.len() == b.len(),
        0 <= k < a.len(),
    ensures
        a[oa[k]].0@ == b[ob[k]].0@,
    decreases k,
{
    if k > 0 {
        assert forall|j: int| 0 <= j < k implies a[oa[j]].0@ == b[ob[j]].0@ by {
            lemma_same_place(a, oa, b, ob, j);
        }
    }
    lemma_not_later(a, oa, b, ob, k);
    lemma_not_later(b, ob, a, oa, k);
    lemma_one_way(a[oa[k]].0@, b[ob[k]].0@);
}

/// Where the names agree so far, the next one does not come later.
proof fn lemma_not_later(
    a: Seq<(String, Document)>,
    oa: Seq<int>,
    b: Seq<(String, Document)>,
    ob: Seq<int>,
    k: int,
)
    requires
        in_order(a, oa),
        in_order(b, ob),
        within(a, b),
        a.len() == b.len(),
        0 <= k < a.len(),
        forall|j: int| 0 <= j < k ==> a[#[trigger] oa[j]].0@ == b[ob[j]].0@,
    ensures
        !before(a[oa[k]].0@, b[ob[k]].0@),
{
    let name = a[oa[k]].0@;
    assert(among(b, a[oa[k]]));
    let e = choose|e: int| 0 <= e < b.len() && same_entry(#[trigger] b[e], a[oa[k]]);
    assert(ob.contains(e));
    let j = choose|j: int| 0 <= j < ob.len() && ob[j] == e;
    if j < k {
        assert(a[oa[j]].0@ == name);
        assert(before(a[oa[j]].0@, a[oa[k]].0@));
        lemma_one_way(name, name);
    } else {
        lemma_one_way(name, b[ob[k]].0@);
        if j > k {
            assert(before(b[ob[k]].0@, b[ob[j]].0@));
        }
    }
}

/// An object's text does not depend on the order in which its entries stand.
pub proof fn the_order_of_entries_does_not_matter(
    a: Vec<(String, Document)>,
    b: Vec<(String, Document)>,
)
    requires
        named(a@),
        named(b@),
        a@.len() == b@.len(),
        within(a@, b@),
        within(b@, a@),
    ensures
        canonical(Document::Object(a)) == canonical(Document::Object(b)),
{
    lemma_ordered(a@);
    lemma_ordered(b@);
    lemma_same_text(a@, order_of(a@), b@, order_of(b@), a@.len());
}

proof fn lemma_same_text(
    a: Seq<(String, Document)>,
    oa: Seq<int>,
    b: Seq<(String, Document)>,
    ob: Seq<int>,
    k: nat,
)
    requires
        named(b),
        in_order(a, oa),
        in_order(b, ob),
        within(a, b),
        within(b, a),
        a.len() == b.len(),
        k <= a.len(),
    ensures
        entries_text(a, oa, k) == entries_text(b, ob, k),
    decreases k,
{
    if k > 0 {
        lemma_same_text(a, oa, b, ob, (k - 1) as nat);
        lemma_same_place(a, oa, b, ob, k - 1);
        let p = oa[k - 1];
        let q = ob[k - 1];
        assert(among(b, a[p]));
        let j = choose|j: int| 0 <= j < b.len() && same_entry(#[trigger] b[j], a[p]);
        assert(b[j].0@ == b[q].0@);
        assert(j == q);
    }
}

/// Names of their own have an order.
proof fn lemma_ordered(entries: Seq<(String, Document)>)
    requires
        named(entries),
    ensures
        in_order(entries, order_of(entries)),
{
    let order = lemma_sort(entries, entries.len());
    assert(in_order(entries, order));
}

/// The places of the first `k` entries, in the order of their names.
spec fn sorted(entries: Seq<(String, Document)>, k: int, order: Seq<int>) -> bool {
    &&& order.len() == k
    &&& forall|i: int| 0 <= i < k ==> 0 <= #[trigger] order[i] < k
    &&& forall|e: int| 0 <= e < k ==> #[trigger] order.contains(e)
    &&& forall|i: int, j: int|
        0 <= i < j < k ==> before(
            entries[#[trigger] order[i]].0@,
            entries[#[trigger] order[j]].0@,
        )
}

/// One more entry stands behind the names before it and before the names behind it.
proof fn lemma_insert(entries: Seq<(String, Document)>, k: int, order: Seq<int>, at: int)
    requires
        sorted(entries, k, order),
        0 <= k < entries.len(),
        0 <= at <= k,
        forall|i: int| 0 <= i < at ==> before(entries[#[trigger] order[i]].0@, entries[k].0@),
        forall|i: int| at <= i < k ==> before(entries[k].0@, entries[#[trigger] order[i]].0@),
    ensures
        sorted(entries, k + 1, order.insert(at, k)),
{
    let next = order.insert(at, k);
    assert forall|e: int| 0 <= e < k + 1 implies #[trigger] next.contains(e) by {
        if e == k {
            assert(next[at] == k);
        } else {
            assert(order.contains(e));
            let i = choose|i: int| 0 <= i < order.len() && order[i] == e;
            if i < at {
                assert(next[i] == e);
            } else {
                assert(next[i + 1] == e);
            }
        }
    }
    assert forall|i: int, j: int| 0 <= i < j < k + 1 implies before(
        entries[#[trigger] next[i]].0@,
        entries[#[trigger] next[j]].0@,
    ) by {
        let x = if i < at {
            i
        } else {
            i - 1
        };
        let y = if j < at {
            j
        } else {
            j - 1
        };
        if i == at {
            assert(next[j] == order[y]);
        } else if j == at {
            assert(next[i] == order[x]);
        } else {
            assert(next[i] == order[x] && next[j] == order[y]);
        }
    }
}

proof fn lemma_sort(entries: Seq<(String, Document)>, k: nat) -> (order: Seq<int>)
    requires
        named(entries),
        k <= entries.len(),
    ensures
        sorted(entries, k as int, order),
    decreases k,
{
    if k == 0 {
        Seq::empty()
    } else {
        let shorter = lemma_sort(entries, (k - 1) as nat);
        let at = lemma_slot(entries, (k - 1) as int, shorter, k - 1);
        lemma_insert(entries, k - 1, shorter, at);
        shorter.insert(at, k - 1)
    }
}

/// The slot of an entry among the first `n` of an order.
proof fn lemma_slot(entries: Seq<(String, Document)>, k: int, order: Seq<int>, n: int) -> (at: int)
    requires
        named(entries),
        sorted(entries, k, order),
        0 <= n <= k < entries.len(),
        forall|i: int| n <= i < k ==> before(entries[k].0@, entries[#[trigger] order[i]].0@),
    ensures
        0 <= at <= k,
        forall|i: int| 0 <= i < at ==> before(entries[#[trigger] order[i]].0@, entries[k].0@),
        forall|i: int| at <= i < k ==> before(entries[k].0@, entries[#[trigger] order[i]].0@),
    decreases n,
{
    if n == 0 {
        0
    } else {
        lemma_one_way(entries[order[n - 1]].0@, entries[k].0@);
        if before(entries[order[n - 1]].0@, entries[k].0@) {
            assert forall|i: int| 0 <= i < n implies before(
                entries[#[trigger] order[i]].0@,
                entries[k].0@,
            ) by {
                if i < n - 1 {
                    lemma_through(
                        entries[order[i]].0@,
                        entries[order[n - 1]].0@,
                        entries[k].0@,
                    );
                }
            }
            n
        } else {
            assert(entries[order[n - 1]].0@ != entries[k].0@);
            lemma_slot(entries, k, order, n - 1)
        }
    }
}

spec fn places(order: Seq<usize>) -> Seq<int> {
    order.map_values(|p: usize| p as int)
}

/// The places of the entries, in the order of their names.
fn sort_names(entries: &Vec<(String, Document)>) -> (r: Vec<usize>)
    requires
        named(entries@),
    ensures
        in_order(entries@, places(r@)),
{
    let n: usize = entries.len();
    let mut order: Vec<usize> = Vec::new();
    let mut k: usize = 0;
    while k < n
        invariant
            k <= n,
            n == entries@.len(),
            named(entries@),
            order@.len() == k,
            sorted(entries@, k as int, places(order@)),
        decreases n - k,
    {
        let mut at: usize = k;
        let ghost held = places(order@);
        proof {
            assert forall|i: int| 0 <= i < k implies 0 <= #[trigger] order@[i] < k by {
                assert(held[i] == order@[i]);
            }
        }
        while at > 0 && comes_before(entries[k].0.as_str(), entries[order[at - 1]].0.as_str())
            invariant
                at <= k,
                k < n,
                n == entries@.len(),
                order@.len() == k,
                held == places(order@),
                sorted(entries@, k as int, held),
                forall|i: int|
                    at <= i < k ==> before(entries@[k as int].0@, entries@[#[trigger] held[i]].0@),
                forall|i: int| 0 <= i < k ==> #[trigger] held[i] == order@[i],
                forall|i: int| 0 <= i < k ==> 0 <= #[trigger] order@[i] < k,
            decreases at,
        {
            assert(held[at - 1] == order@[at - 1]);
            at -= 1;
        }
        proof {
            if at > 0 {
                let last = held[at - 1];
                assert(held[at - 1] == order@[at - 1]);
                assert(0 <= last < k);
                lemma_one_way(entries@[last].0@, entries@[k as int].0@);
                assert(entries@[last].0@ != entries@[k as int].0@);
                assert forall|i: int| 0 <= i < at implies before(
                    entries@[#[trigger] held[i]].0@,
                    entries@[k as int].0@,
                ) by {
                    if i < at - 1 {
                        lemma_through(
                            entries@[held[i]].0@,
                            entries@[last].0@,
                            entries@[k as int].0@,
                        );
                    }
                }
            }
            lemma_insert(entries@, k as int, held, at as int);
        }
        order.insert(at, k);
        assert(places(order@) =~= held.insert(at as int, k as int));
        k += 1;
    }
    order
}

proof fn lemma_item(value: Document, i: int)
    requires
        value is List,
        distinct_names(value),
        0 <= i < value->List_0@.len(),
    ensures
        distinct_names(value->List_0@[i]),
        decreases_to!(value => value->List_0@[i]),
{
    assert(decreases_to!(value => value->List_0));
    assert(decreases_to!(value->List_0 => value->List_0@));
    assert(decreases_to!(value->List_0@ => value->List_0@[i]));
}

/// Write the canonical text of a document behind a text.
fn write_document(text: &mut String, value: &Document)
    requires
        distinct_names(*value),
    ensures
        final(text)@ == old(text)@ + canonical(*value),
    decreases value,
{
    let ghost start = text@;
    match value {
        Document::Null => text.append("null"),
        Document::Flag(flag) => if *flag {
            text.append("true");
        } else {
            text.append("false");
        },
        Document::Number(number) => text.append(number.as_str()),
        Document::Text(inner) => text.append(json_string(inner.as_str()).as_str()),
        Document::List(items) => {
            text.append("[");
            let n: usize = items.len();
            let mut i: usize = 0;
            assert(text@ =~= start + "["@ + items_text(items@, 0));
            while i < n
                invariant
                    i <= n,
                    n == items@.len(),
                    distinct_names(*value),
                    *value == Document::List(*items),
                    text@ == start + "["@ + items_text(items@, i as nat),
                decreases n - i,
            {
                if i > 0 {
                    text.append(",");
                }
                let item: &Document = &items[i];
                proof {
                    lemma_item(*value, i as int);
                }
                write_document(text, item);
                assert(text@ =~= start + "["@ + items_text(items@, (i + 1) as nat));
                i += 1;
            }
            text.append("]");
            assert(text@ =~= start + canonical(*value));
        },
        Document::Object(entries) => {
            text.append("{");
            let order = sort_names(entries);
            let ghost places = places(order@);
            proof {
                lemma_ordered(entries@);
                lemma_one_order(entries@, places, order_of(entries@));
            }
            let n: usize = order.len();
            let mut i: usize = 0;
            assert(text@ =~= start + "{"@ + entries_text(entries@, places, 0));
            while i < n
                invariant
                    i <= n,
                    n == order@.len(),
                    distinct_names(*value),
                    *value == Document::Object(*entries),
                    in_order(entries@, places),
                    places.len() == n,
                    forall|k: int| 0 <= k < n ==> #[trigger] places[k] == order@[k],
                    text@ == start + "{"@ + entries_text(entries@, places, i as nat),
                decreases n - i,
            {
                if i > 0 {
                    text.append(",");
                }
                let place: usize = order[i];
                assert(places[i as int] == place);
                text.append(json_string(entries[place].0.as_str()).as_str());
                text.append(":");
                assert(distinct_names(entries@[place as int].1));
                proof {
                    assert(decreases_to!(value => entries@[place as int].1));
                }
                write_document(text, &entries[place].1);
                assert(text@ =~= start + "{"@ + entries_text(entries@, places, (i + 1) as nat));
                i += 1;
            }
            text.append("}");
            assert(text@ =~= start + canonical(*value));
        },
    }
}

/// The digest of the canonical text of a document.
pub fn canonical_sha256(value: &Document) -> (r: String)
    requires
        distinct_names(*value),
    ensures
        r@ == text_digest(canonical(*value)),
        r@.len() == 64,
{
    let mut text: String = String::new();
    write_document(&mut text, value);
    assert(text@ =~= canonical(*value));
    digest_of(text.as_str())
}

} // verus!
