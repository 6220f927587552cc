//! Label assignment and serialization of a canonical edge sequence into the
//! two-section graph document.

use vstd::prelude::*;

use crate::order::{
    compare_text, lemma_text_le_total_ordering, lemma_text_lt_asymmetric,
    lemma_text_lt_irreflexive, lemma_text_lt_total, lemma_text_lt_transitive, text_le_rel, text_lt,
};

verus! {

/// The identifiers of an edge sequence, as plain character sequences.
pub open spec fn edge_view(edges: Seq<(String, String)>) -> Seq<(Seq<char>, Seq<char>)> {
    edges.map_values(|e: (String, String)| (e.0@, e.1@))
}

/// Every identifier met while scanning the edges in order, each edge's source
/// before its target.
pub open spec fn endpoints(es: Seq<(Seq<char>, Seq<char>)>) -> Seq<Seq<char>>
    decreases es.len(),
{
    if es.len() == 0 {
        Seq::empty()
    } else {
        endpoints(es.drop_last()).push(es.last().0).push(es.last().1)
    }
}

/// The distinct elements of `xs`, in the order of their first occurrence.
pub open spec fn first_seen(xs: Seq<Seq<char>>) -> Seq<Seq<char>>
    decreases xs.len(),
{
    if xs.len() == 0 {
        Seq::empty()
    } else {
        let p = first_seen(xs.drop_last());
        if p.contains(xs.last()) {
            p
        } else {
            p.push(xs.last())
        }
    }
}

/// The identifiers in the order in which they receive labels 1, 2, 3, ...
pub open spec fn label_order(es: Seq<(Seq<char>, Seq<char>)>) -> Seq<Seq<char>> {
    first_seen(endpoints(es))
}

/// The label of `x` when labels follow `order`: its position plus one, or 0
/// when `x` is not in it.
pub open spec fn label_in(order: Seq<Seq<char>>, x: Seq<char>) -> nat {
    if order.contains(x) {
        (order.index_of(x) + 1) as nat
    } else {
        0
    }
}

/// The label that serializing `es` gives to identifier `x`.
pub open spec fn label(es: Seq<(Seq<char>, Seq<char>)>, x: Seq<char>) -> nat {
    label_in(label_order(es), x)
}

pub open spec fn strictly_sorted(s: Seq<Seq<char>>) -> bool {
    forall|i: int, j: int| 0 <= i < j < s.len() ==> text_lt(#[trigger] s[i], #[trigger] s[j])
}

/// The distinct identifiers of `es` in ascending string order.
pub open spec fn alphabetical(es: Seq<(Seq<char>, Seq<char>)>) -> Seq<Seq<char>> {
    label_order(es).sort_by(text_le_rel())
}

/// The node section as (label, identifier) lines.
pub open spec fn node_entries(es: Seq<(Seq<char>, Seq<char>)>) -> Seq<(nat, Seq<char>)> {
    alphabetical(es).map_values(|x: Seq<char>| (label(es, x), x))
}

/// The edge section as (source label, target label) lines.
pub open spec fn edge_entries(es: Seq<(Seq<char>, Seq<char>)>) -> Seq<(nat, nat)> {
    es.map_values(|e: (Seq<char>, Seq<char>)| (label(es, e.0), label(es, e.1)))
}

pub open spec fn digit(d: nat) -> char {
    seq!['0', '1', '2', '3', '4', '5', '6', '7', '8', '9'][d as int]
}

/// The decimal notation of `n`, without leading zeros.
pub open spec fn decimal(n: nat) -> Seq<char>
    decreases n,
{
    if n < 10 {
        seq![digit(n)]
    } else {
        decimal(n / 10) + seq![digit(n % 10)]
    }
}

pub open spec fn node_lines(entries: Seq<(nat, Seq<char>)>) -> Seq<char>
    decreases entries.len(),
{
    if entries.len() == 0 {
        Seq::empty()
    } else {
        let e = entries.last();
        node_lines(entries.drop_last()) + decimal(e.0) + seq![' '] + e.1 + seq!['\n']
    }
}

pub open spec fn edge_lines(entries: Seq<(nat, nat)>) -> Seq<char>
    decreases entries.len(),
{
    if entries.len() == 0 {
        Seq::empty()
    } else {
        let e = entries.last();
        edge_lines(entries.drop_last()) + decimal(e.0) + seq![' '] + decimal(e.1) + seq!['\n']
    }
}

/// The whole document for the canonical edge sequence `es`.
pub open spec fn tgf_text(es: Seq<(Seq<char>, Seq<char>)>) -> Seq<char> {
    node_lines(node_entries(es)) + seq!['#', '\n'] + edge_lines(edge_entries(es))
}

fn digit_text(d: usize) -> (r: &'static str)
    requires
        d < 10,
    ensures
        r@ == seq![digit(d as nat)],
{
    proof {
        reveal_strlit("0");
        reveal_strlit("1");
        reveal_strlit("2");
        reveal_strlit("3");
        reveal_strlit("4");
        reveal_strlit("5");
        reveal_strlit("6");
        reveal_strlit("7");
        reveal_strlit("8");
        reveal_strlit("9");
    }
    match d {
        0 => "0",
        1 => "1",
        2 => "2",
        3 => "3",
        4 => "4",
        5 => "5",
        6 => "6",
        7 => "7",
        8 => "8",
        _ => "9",
    }
}

fn push_decimal(out: &mut String, n: usize)
    ensures
        final(out)@ == old(out)@ + decimal(n as nat),
    decreases n,
{
    if n >= 10 {
        push_decimal(out, n / 10);
    }
    out.append(digit_text(n % 10));
    assert(final(out)@ =~= old(out)@ + decimal(n as nat));
}


/// The identifiers held by a label table.
spec fn keys(t: Seq<(String, usize)>) -> Seq<Seq<char>> {
    t.map_values(|p: (String, usize)| p.0@)
}

/// A label table: sorted by identifier, holding exactly the identifiers of
/// `order`, each with its label under `order`.
spec fn table_ok(t: Seq<(String, usize)>, order: Seq<Seq<char>>) -> bool {
    &&& strictly_sorted(keys(t))
    &&& keys(t).to_set() == order.to_set()
    &&& order.no_duplicates()
    &&& forall|i: int| 0 <= i < t.len() ==> (#[trigger] t[i]).1 as nat == label_in(order, t[i].0@)
}

proof fn lemma_strictly_sorted_no_duplicates(s: Seq<Seq<char>>)
    requires
        strictly_sorted(s),
    ensures
        s.no_duplicates(),
{
    assert forall|i: int, j: int| 0 <= i < s.len() && 0 <= j < s.len() && i != j implies s[i]
        != s[j] by {
        lemma_text_lt_irreflexive(s[i]);
        if i < j {
            assert(text_lt(s[i], s[j]));
        } else {
            assert(text_lt(s[j], s[i]));
        }
    }
}

/// Two strictly sorted sequences with the same elements are the same.
proof fn lemma_sorted_unique(a: Seq<Seq<char>>, b: Seq<Seq<char>>)
    requires
        strictly_sorted(a),
        strictly_sorted(b),
        a.to_set() == b.to_set(),
    ensures
        a == b,
    decreases a.len(),
{
    if a.len() == 0 {
        if b.len() > 0 {
            assert(b.to_set().contains(b[0]));
        }
        assert(a =~= b);
    } else {
        assert(a.to_set().contains(a[0]));
        assert(b.len() > 0);
        assert(b.to_set().contains(b[0]));
        let i = choose|i: int| 0 <= i < a.len() && a[i] == b[0];
        let j = choose|j: int| 0 <= j < b.len() && b[j] == a[0];
        if j > 0 {
            assert(text_lt(b[0], b[j]));
            if i > 0 {
                assert(text_lt(a[0], a[i]));
                lemma_text_lt_asymmetric(a[0], b[0]);
            } else {
                lemma_text_lt_irreflexive(b[0]);
            }
        }
        assert(a[0] == b[0]);
        lemma_strictly_sorted_no_duplicates(a);
        lemma_strictly_sorted_no_duplicates(b);
        let a1 = a.drop_first();
        let b1 = b.drop_first();
        assert forall|x: Seq<char>| a1.to_set().contains(x) <==> b1.to_set().contains(x) by {
            if a1.to_set().contains(x) {
                let k = choose|k: int| 0 <= k < a1.len() && a1[k] == x;
                assert(a[k + 1] == x);
                assert(b.to_set().contains(x));
                let m = choose|m: int| 0 <= m < b.len() && b[m] == x;
                assert(m != 0);
                assert(b1[m - 1] == x);
            }
            if b1.to_set().contains(x) {
                let k = choose|k: int| 0 <= k < b1.len() && b1[k] == x;
                assert(b[k + 1] == x);
                assert(a.to_set().contains(x));
                let m = choose|m: int| 0 <= m < a.len() && a[m] == x;
                assert(m != 0);
                assert(a1[m - 1] == x);
            }
        }
        assert(a1.to_set() =~= b1.to_set());
        lemma_sorted_unique(a1, b1);
        assert(a =~= seq![a[0]] + a1);
        assert(b =~= seq![b[0]] + b1);
    }
}

proof fn lemma_first_seen(xs: Seq<Seq<char>>)
    ensures
        first_seen(xs).no_duplicates(),
        first_seen(xs).to_set() == xs.to_set(),
    decreases xs.len(),
{
    if xs.len() > 0 {
        let p = first_seen(xs.drop_last());
        lemma_first_seen(xs.drop_last());
        assert(xs =~= xs.drop_last().push(xs.last()));
        if !p.contains(xs.last()) {
            lemma_label_push(p, xs.last(), xs.last());
        }
        assert(first_seen(xs).to_set() =~= xs.to_set()) by {
            assert forall|y: Seq<char>| first_seen(xs).to_set().contains(y) <==> xs.to_set().contains(y) by {
                if y == xs.last() {
                    assert(xs[xs.len() - 1] == y);
                    if p.contains(y) {
                    } else {
                        assert(p.push(y)[p.len() as int] == y);
                    }
                } else {
                    if xs.to_set().contains(y) {
                        let k = choose|k: int| 0 <= k < xs.len() && xs[k] == y;
                        assert(xs.drop_last()[k] == y);
                        assert(xs.drop_last().to_set().contains(y));
                        let n = choose|n: int| 0 <= n < p.len() && p[n] == y;
                        if !p.contains(xs.last()) {
                            assert(p.push(xs.last())[n] == y);
                        }
                    }
                    if first_seen(xs).to_set().contains(y) {
                        let n = choose|n: int| 0 <= n < first_seen(xs).len() && first_seen(xs)[n] == y;
                        assert(p[n] == y);
                        assert(p.to_set().contains(y));
                        let k = choose|k: int| 0 <= k < xs.len() - 1 && xs.drop_last()[k] == y;
                        assert(xs[k] == y);
                    }
                }
            }
        }
    }
}

/// The node section holds each label-order identifier once, in strictly
/// ascending order.
proof fn lemma_alphabetical(es: Seq<(Seq<char>, Seq<char>)>)
    ensures
        strictly_sorted(alphabetical(es)),
        alphabetical(es).to_set() == label_order(es).to_set(),
{
    let o = label_order(es);
    let s = alphabetical(es);
    lemma_first_seen(endpoints(es));
    lemma_text_le_total_ordering();
    o.lemma_sort_by_ensures(text_le_rel());
    o.lemma_multiset_has_no_duplicates();
    broadcast use vstd::seq_lib::group_to_multiset_ensures;
    s.lemma_multiset_has_no_duplicates_conv();
    assert forall|i: int, j: int| 0 <= i < j < s.len() implies text_lt(
        #[trigger] s[i],
        #[trigger] s[j],
    ) by {
        assert(text_le_rel()(s[i], s[j]));
    }
    assert forall|y: Seq<char>| s.to_set().contains(y) <==> o.to_set().contains(y) by {
        assert(s.contains(y) <==> s.to_multiset().count(y) > 0);
        assert(o.contains(y) <==> o.to_multiset().count(y) > 0);
    }
    assert(s.to_set() =~= o.to_set());
}

/// Appending an identifier that is new keeps every earlier label.
proof fn lemma_label_push(order: Seq<Seq<char>>, x: Seq<char>, y: Seq<char>)
    requires
        order.no_duplicates(),
        !order.contains(x),
    ensures
        order.push(x).no_duplicates(),
        order.contains(y) ==> label_in(order.push(x), y) == label_in(order, y),
        label_in(order.push(x), x) == order.len() + 1,
{
    let o2 = order.push(x);
    assert forall|i: int, j: int| 0 <= i < o2.len() && 0 <= j < o2.len() && i != j implies o2[i]
        != o2[j] by {
        if i == order.len() {
            assert(order[j] == o2[j]);
        } else if j == order.len() {
            assert(order[i] == o2[i]);
        }
    }
    if order.contains(y) {
        let i = order.index_of(y);
        assert(o2[i] == y);
        assert(o2.contains(y));
        let j = o2.index_of(y);
        assert(o2[j] == y);
    }
    assert(o2[order.len() as int] == x);
    assert(o2.contains(x));
}

/// Where `x` would stand in the sorted table `t`.
fn search(t: &Vec<(String, usize)>, x: &String) -> (lo: usize)
    requires
        strictly_sorted(keys(t@)),
    ensures
        lo <= t@.len(),
        forall|i: int| 0 <= i < lo ==> text_lt(#[trigger] keys(t@)[i], x@),
        forall|i: int| lo <= i < t@.len() ==> !text_lt(#[trigger] keys(t@)[i], x@),
{
    let mut lo: usize = 0;
    let mut hi: usize = t.len();
    while lo < hi
        invariant
            0 <= lo <= hi <= t@.len(),
            strictly_sorted(keys(t@)),
            forall|i: int| 0 <= i < lo ==> text_lt(#[trigger] keys(t@)[i], x@),
            forall|i: int| hi <= i < t@.len() ==> !text_lt(#[trigger] keys(t@)[i], x@),
        decreases hi - lo,
    {
        let mid = lo + (hi - lo) / 2;
        let ghost k = keys(t@);
        match compare_text(t[mid].0.as_str(), x.as_str()) {
            core::cmp::Ordering::Less => {
                assert forall|i: int| 0 <= i < mid + 1 implies text_lt(#[trigger] k[i], x@) by {
                    if i < mid {
                        lemma_text_lt_transitive(k[i], k[mid as int], x@);
                    }
                }
                lo = mid + 1;
            },
            _ => {
                assert forall|i: int| mid <= i < t@.len() implies !text_lt(
                    #[trigger] k[i],
                    x@,
                ) by {
                    if i > mid && text_lt(k[i], x@) {
                        lemma_text_lt_transitive(k[mid as int], k[i], x@);
                    }
                }
                hi = mid;
            },
        }
    }
    lo
}

/// Gives `x` the next label unless it has one already.
fn assign(
    t: &mut Vec<(String, usize)>,
    counter: &mut usize,
    x: &String,
    Ghost(order): Ghost<Seq<Seq<char>>>,
) -> (order2: Ghost<Seq<Seq<char>>>)
    requires
        table_ok(old(t)@, order),
        *old(counter) == order.len(),
        order.len() < usize::MAX,
    ensures
        order2@ == (if order.contains(x@) {
            order
        } else {
            order.push(x@)
        }),
        table_ok(final(t)@, order2@),
        *final(counter) == order2@.len(),
{
    let lo = search(t, x);
    let ghost k = keys(t@);
    if lo < t.len() && t[lo].0 == *x {
        assert(k[lo as int] == x@);
        assert(k.to_set().contains(x@));
        assert(order.to_set().contains(x@));
        Ghost(order)
    } else {
        assert forall|i: int| lo <= i < k.len() implies text_lt(x@, #[trigger] k[i]) by {
            lemma_text_lt_total(k[lo as int], x@);
            if i > lo {
                lemma_text_lt_transitive(x@, k[lo as int], k[i]);
            }
        }
        assert(!order.contains(x@)) by {
            if order.contains(x@) {
                assert(k.to_set().contains(x@));
                let m = choose|m: int| 0 <= m < k.len() && k[m] == x@;
                lemma_text_lt_irreflexive(x@);
            }
        }
        let ghost order2 = order.push(x@);
        let ghost old_t = t@;
        *counter = *counter + 1;
        t.insert(lo, (x.clone(), *counter));
        let ghost k2 = keys(t@);
        assert(k2 =~= k.insert(lo as int, x@));
        assert forall|i: int, j: int| 0 <= i < j < k2.len() implies text_lt(
            #[trigger] k2[i],
            #[trigger] k2[j],
        ) by {
            if j < lo {
            } else if j == lo {
            } else if i < lo {
                lemma_text_lt_transitive(k2[i], x@, k2[j]);
            } else if i == lo {
            } else {
                assert(k2[i] == k[i - 1] && k2[j] == k[j - 1]);
            }
        }
        assert(k2.to_set() =~= order2.to_set()) by {
            assert forall|y: Seq<char>| k2.to_set().contains(y) <==> order2.to_set().contains(y) by {
                if k2.to_set().contains(y) {
                    let m = choose|m: int| 0 <= m < k2.len() && k2[m] == y;
                    if m < lo {
                        assert(k[m] == y);
                        assert(k.to_set().contains(y));
                    } else if m > lo {
                        assert(k[m - 1] == y);
                        assert(k.to_set().contains(y));
                    }
                    if y != x@ {
                        assert(order.contains(y));
                        let n = choose|n: int| 0 <= n < order.len() && order[n] == y;
                        assert(order2[n] == y);
                    } else {
                        assert(order2[order.len() as int] == y);
                    }
                }
                if order2.to_set().contains(y) {
                    let n = choose|n: int| 0 <= n < order2.len() && order2[n] == y;
                    if n < order.len() {
                        assert(order[n] == y);
                        assert(k.to_set().contains(y));
                        let m = choose|m: int| 0 <= m < k.len() && k[m] == y;
                        if m < lo {
                            assert(k2[m] == y);
                        } else {
                            assert(k2[m + 1] == y);
                        }
                    } else {
                        assert(k2[lo as int] == y);
                    }
                }
            }
        }
        assert forall|i: int| 0 <= i < t@.len() implies (#[trigger] t@[i]).1 as nat == label_in(
            order2,
            t@[i].0@,
        ) by {
            lemma_label_push(order, x@, t@[i].0@);
            if i < lo {
                assert(t@[i] == old_t[i]);
                assert(k.to_set().contains(k[i]));
            } else if i > lo {
                assert(t@[i] == old_t[i - 1]);
                assert(k.to_set().contains(k[i - 1]));
            }
        }
        proof {
            lemma_label_push(order, x@, x@);
        }
        Ghost(order2)
    }
}


/// The label that table `t` holds for `x`, or 0 where it holds none.
fn lookup(t: &Vec<(String, usize)>, x: &String, Ghost(order): Ghost<Seq<Seq<char>>>) -> (r: usize)
    requires
        table_ok(t@, order),
    ensures
        r as nat == label_in(order, x@),
{
    let lo = search(t, x);
    let ghost k = keys(t@);
    if lo < t.len() && t[lo].0 == *x {
        assert(k[lo as int] == x@);
        t[lo].1
    } else {
        assert(!order.contains(x@)) by {
            if order.contains(x@) {
                let n = choose|n: int| 0 <= n < order.len() && order[n] == x@;
                assert(order.to_set().contains(x@));
                assert(k.to_set().contains(x@));
                let m = choose|m: int| 0 <= m < k.len() && k[m] == x@;
                lemma_text_lt_irreflexive(x@);
                if m > lo {
                    lemma_text_lt_total(k[lo as int], x@);
                    lemma_text_lt_transitive(x@, k[lo as int], k[m]);
                }
            }
        }
        0
    }
}

/// The node section as the table gives it.
spec fn table_entries(t: Seq<(String, usize)>) -> Seq<(nat, Seq<char>)> {
    t.map_values(|p: (String, usize)| (p.1 as nat, p.0@))
}

proof fn lemma_label_order_step(es: Seq<(Seq<char>, Seq<char>)>, i: int)
    requires
        0 <= i < es.len(),
    ensures
        ({
            let p = label_order(es.take(i));
            let q = if p.contains(es[i].0) {
                p
            } else {
                p.push(es[i].0)
            };
            label_order(es.take(i + 1)) == if q.contains(es[i].1) {
                q
            } else {
                q.push(es[i].1)
            }
        }),
{
    let e0 = endpoints(es.take(i));
    assert(es.take(i + 1).drop_last() =~= es.take(i));
    let e1 = e0.push(es[i].0);
    let e2 = e1.push(es[i].1);
    assert(es.take(i + 1).last() == es[i]);
    assert(endpoints(es.take(i + 1)) == e2);
    assert(e2.drop_last() =~= e1);
    assert(e1.drop_last() =~= e0);
    assert(first_seen(e1) == (if first_seen(e0).contains(es[i].0) {
        first_seen(e0)
    } else {
        first_seen(e0).push(es[i].0)
    }));
    assert(first_seen(e2) == (if first_seen(e1).contains(es[i].1) {
        first_seen(e1)
    } else {
        first_seen(e1).push(es[i].1)
    }));
}

/// Serializes a canonical edge sequence: one line `<label> <identifier>` per
/// distinct identifier in ascending identifier order, a `#` line, then one
/// line `<label> <label>` per edge. Labels count from 1 in the order in which
/// identifiers first occur, each source before its target.
pub fn get_tgf(edges: &Vec<(String, String)>) -> (r: String)
    requires
        edges@.len() < usize::MAX / 2,
    ensures
        r@ == tgf_text(edge_view(edges@)),
{
    let ghost es = edge_view(edges@);
    let mut table: Vec<(String, usize)> = Vec::new();
    let mut counter: usize = 0;
    let ghost mut order: Seq<Seq<char>> = Seq::empty();
    assert(keys(table@).to_set() =~= order.to_set());
    assert(es.take(0) =~= Seq::empty());
    let mut i: usize = 0;
    while i < edges.len()
        invariant
            i <= edges@.len() < usize::MAX / 2,
            es == edge_view(edges@),
            table_ok(table@, order),
            counter == order.len(),
            order.len() <= 2 * i,
            order == label_order(es.take(i as int)),
        decreases edges@.len() - i,
    {
        let g1 = assign(&mut table, &mut counter, &edges[i].0, Ghost(order));
        let g2 = assign(&mut table, &mut counter, &edges[i].1, g1);
        proof {
            lemma_label_order_step(es, i as int);
            order = g2@;
        }
        i = i + 1;
    }
    assert(es.take(i as int) =~= es);
    let mut out = String::new();
    let ghost te = table_entries(table@);
    let mut j: usize = 0;
    proof {
        reveal_strlit(" ");
        reveal_strlit("\n");
        reveal_strlit("#\n");
    }
    assert(te.take(0) =~= Seq::empty());
    while j < table.len()
        invariant
            j <= table@.len(),
            te == table_entries(table@),
            out@ == node_lines(te.take(j as int)),
        decreases table@.len() - j,
    {
        proof {
            reveal_strlit(" ");
            reveal_strlit("\n");
        }
        let ghost before = out@;
        assert(te[j as int] == (table@[j as int].1 as nat, table@[j as int].0@));
        push_decimal(&mut out, table[j].1);
        out.append(" ");
        out.append(table[j].0.as_str());
        out.append("\n");
        assert(te.take(j + 1).drop_last() =~= te.take(j as int));
        assert(out@ =~= before + decimal(te[j as int].0) + seq![' '] + te[j as int].1 + seq!['\n']);
        j = j + 1;
    }
    assert(te.take(j as int) =~= te);
    proof {
        let k = keys(table@);
        lemma_alphabetical(es);
        lemma_sorted_unique(alphabetical(es), k);
        assert(te =~= node_entries(es));
    }
    out.append("#\n");
    let ghost head = out@;
    let ghost ee = edge_entries(es);
    let mut m: usize = 0;
    assert(ee.take(0) =~= Seq::empty());
    while m < edges.len()
        invariant
            m <= edges@.len(),
            es == edge_view(edges@),
            ee == edge_entries(es),
            table_ok(table@, label_order(es)),
            out@ == head + edge_lines(ee.take(m as int)),
        decreases edges@.len() - m,
    {
        let a = lookup(&table, &edges[m].0, Ghost(label_order(es)));
        let b = lookup(&table, &edges[m].1, Ghost(label_order(es)));
        proof {
            reveal_strlit(" ");
            reveal_strlit("\n");
        }
        let ghost before = out@;
        assert(es[m as int] == (edges@[m as int].0@, edges@[m as int].1@));
        assert(ee[m as int] == (a as nat, b as nat));
        push_decimal(&mut out, a);
        out.append(" ");
        push_decimal(&mut out, b);
        out.append("\n");
        assert(ee.take(m + 1).drop_last() =~= ee.take(m as int));
        assert(out@ =~= before + decimal(ee[m as int].0) + seq![' '] + decimal(ee[m as int].1)
            + seq!['\n']);
        m = m + 1;
    }
    assert(ee.take(m as int) =~= ee);
    assert(out@ =~= tgf_text(es));
    out
}


proof fn lemma_endpoints_contain(es: Seq<(Seq<char>, Seq<char>)>, k: int)
    requires
        0 <= k < es.len(),
    ensures
        endpoints(es).contains(es[k].0),
        endpoints(es).contains(es[k].1),
        endpoints(es).len() == 2 * es.len(),
    decreases es.len(),
{
    let e = endpoints(es);
    let p = endpoints(es.drop_last());
    if k == es.len() - 1 {
        lemma_endpoints_len(es.drop_last());
        assert(e[p.len() as int] == es[k].0);
        assert(e[p.len() as int + 1] == es[k].1);
    } else {
        lemma_endpoints_contain(es.drop_last(), k);
        let a = choose|a: int| 0 <= a < p.len() && p[a] == es[k].0;
        let b = choose|b: int| 0 <= b < p.len() && p[b] == es[k].1;
        assert(e[a] == es[k].0);
        assert(e[b] == es[k].1);
    }
}

proof fn lemma_endpoints_len(es: Seq<(Seq<char>, Seq<char>)>)
    ensures
        endpoints(es).len() == 2 * es.len(),
    decreases es.len(),
{
    if es.len() > 0 {
        lemma_endpoints_len(es.drop_last());
    }
}

/// Serializing the same canonical edge sequence twice gives the same
/// document, character for character.
pub proof fn lemma_serialization_deterministic(a: Seq<(String, String)>, b: Seq<(String, String)>)
    requires
        edge_view(a) == edge_view(b),
    ensures
        tgf_text(edge_view(a)) == tgf_text(edge_view(b)),
{
}

/// The identifiers of the node section stand in strictly ascending string
/// order.
pub proof fn lemma_node_lines_ascending(es: Seq<(Seq<char>, Seq<char>)>)
    ensures
        forall|i: int, j: int|
            0 <= i < j < node_entries(es).len() ==> text_lt(
                #[trigger] node_entries(es)[i].1,
                #[trigger] node_entries(es)[j].1,
            ),
{
    lemma_alphabetical(es);
    let s = alphabetical(es);
    assert forall|i: int, j: int| 0 <= i < j < node_entries(es).len() implies text_lt(
        #[trigger] node_entries(es)[i].1,
        #[trigger] node_entries(es)[j].1,
    ) by {
        assert(text_lt(s[i], s[j]));
    }
}

/// No two lines of the node section share a label, and every label there is
/// positive.
pub proof fn lemma_labels_injective(es: Seq<(Seq<char>, Seq<char>)>)
    ensures
        forall|i: int, j: int|
            0 <= i < node_entries(es).len() && 0 <= j < node_entries(es).len() && i != j
                ==> #[trigger] node_entries(es)[i].0 != #[trigger] node_entries(es)[j].0,
        forall|i: int| 0 <= i < node_entries(es).len() ==> #[trigger] node_entries(es)[i].0 > 0,
{
    lemma_alphabetical(es);
    lemma_first_seen(endpoints(es));
    let s = alphabetical(es);
    let o = label_order(es);
    lemma_strictly_sorted_no_duplicates(s);
    assert forall|i: int| 0 <= i < s.len() implies o.contains(#[trigger] s[i]) by {
        assert(s.to_set().contains(s[i]));
        assert(o.to_set().contains(s[i]));
    }
    assert forall|i: int, j: int|
        0 <= i < node_entries(es).len() && 0 <= j < node_entries(es).len() && i != j implies #[trigger] node_entries(es)[i].0
        != #[trigger] node_entries(es)[j].0 by {
        assert(o.contains(s[i]));
        assert(o.contains(s[j]));
        let a = o.index_of(s[i]);
        let b = o.index_of(s[j]);
        assert(o[a] == s[i]);
        assert(o[b] == s[j]);
    }
    assert forall|i: int| 0 <= i < node_entries(es).len() implies #[trigger] node_entries(es)[i].0
        > 0 by {
        assert(o.contains(s[i]));
    }
}

/// Some line of node section `n` carries label `l`.
pub open spec fn has_label(n: Seq<(nat, Seq<char>)>, l: nat) -> bool {
    exists|i: int| 0 <= i < n.len() && n[i].0 == l
}

proof fn lemma_edge_labels_resolve_at(es: Seq<(Seq<char>, Seq<char>)>, k: int)
    requires
        0 <= k < es.len(),
    ensures
        has_label(node_entries(es), edge_entries(es)[k].0),
        has_label(node_entries(es), edge_entries(es)[k].1),
{
    lemma_alphabetical(es);
    lemma_first_seen(endpoints(es));
    let s = alphabetical(es);
    let n = node_entries(es);
    lemma_endpoints_contain(es, k);
    let e = endpoints(es);
    let a = choose|a: int| 0 <= a < e.len() && e[a] == es[k].0;
    let b = choose|b: int| 0 <= b < e.len() && e[b] == es[k].1;
    assert(e.to_set().contains(es[k].0));
    assert(e.to_set().contains(es[k].1));
    assert(s.to_set().contains(es[k].0));
    assert(s.to_set().contains(es[k].1));
    let i = choose|i: int| 0 <= i < s.len() && s[i] == es[k].0;
    let j = choose|j: int| 0 <= j < s.len() && s[j] == es[k].1;
    assert(n[i].0 == edge_entries(es)[k].0);
    assert(n[j].0 == edge_entries(es)[k].1);
}

/// Both labels of every edge line are labels of some line of the node
/// section.
pub proof fn lemma_edge_labels_resolve(es: Seq<(Seq<char>, Seq<char>)>)
    ensures
        forall|k: int|
            0 <= k < edge_entries(es).len() ==> has_label(
                node_entries(es),
                (#[trigger] edge_entries(es)[k]).0,
            ) && has_label(node_entries(es), edge_entries(es)[k].1),
{
    assert forall|k: int| 0 <= k < edge_entries(es).len() implies has_label(
        node_entries(es),
        (#[trigger] edge_entries(es)[k]).0,
    ) && has_label(node_entries(es), edge_entries(es)[k].1) by {
        lemma_edge_labels_resolve_at(es, k);
    }
}

} // verus!
