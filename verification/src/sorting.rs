use vstd::prelude::*;
use crate::text::{
    chars_eq, chars_lt, chars_of, lemma_seq_lt_asymmetric, lemma_seq_lt_irreflexive, lemma_seq_lt_total,
    lemma_seq_lt_transitive, seq_lt, str_lt,
};

verus! {

/// Each string comes strictly before the next, in the order of `String`.
pub open spec fn strictly_sorted(s: Seq<Seq<char>>) -> bool {
    forall|i: int, j: int| 0 <= i < j < s.len() ==> seq_lt(#[trigger] s[i], #[trigger] s[j])
}

/// The strings of a finite set, in increasing order.
pub open spec fn sorted_list(s: Set<Seq<char>>) -> Seq<Seq<char>> {
    choose|l: Seq<Seq<char>>| strictly_sorted(l) && l.to_set() == s
}

/// Two increasing lists of the same strings are the same list.
pub proof fn lemma_sorted_unique(a: Seq<Seq<char>>, b: Seq<Seq<char>>)
    requires
        strictly_sorted(a),
        strictly_sorted(b),
        a.to_set() == b.to_set(),
    ensures
        a == b,
    decreases a.len(),
{
    if a.len() == 0 {
        if b.len() > 0 {
            assert(b.to_set().contains(b[0]));
        }
        assert(a =~= b);
    } else {
        assert(a.to_set().contains(a[0]));
        assert(b.len() > 0);
        assert(b.to_set().contains(b[0]));
        let ka = choose|k: int| 0 <= k < a.len() && a[k] == b[0];
        let kb = choose|k: int| 0 <= k < b.len() && b[k] == a[0];
        if a[0] != b[0] {
            assert(ka > 0 && kb > 0);
            assert(seq_lt(a[0], a[ka]));
            assert(seq_lt(b[0], b[kb]));
            lemma_seq_lt_asymmetric(a[0], b[0]);
            assert(false);
        }
        let ra = a.drop_first();
        let rb = b.drop_first();
        assert forall|x: Seq<char>| ra.to_set().contains(x) <==> rb.to_set().contains(x) by {
            if ra.to_set().contains(x) {
                let i = choose|i: int| 0 <= i < ra.len() && ra[i] == x;
                assert(a[i + 1] == x);
                assert(seq_lt(a[0], x));
                lemma_seq_lt_irreflexive(x);
                assert(a.to_set().contains(x));
                assert(b.to_set().contains(x));
                let j = choose|j: int| 0 <= j < b.len() && b[j] == x;
                assert(j != 0);
                assert(rb[j - 1] == x);
            }
            if rb.to_set().contains(x) {
                let i = choose|i: int| 0 <= i < rb.len() && rb[i] == x;
                assert(b[i + 1] == x);
                assert(seq_lt(b[0], x));
                lemma_seq_lt_irreflexive(x);
                assert(b.to_set().contains(x));
                assert(a.to_set().contains(x));
                let j = choose|j: int| 0 <= j < a.len() && a[j] == x;
                assert(j != 0);
                assert(ra[j - 1] == x);
            }
        }
        assert(ra.to_set() =~= rb.to_set());
        lemma_sorted_unique(ra, rb);
        assert(a =~= seq![a[0]] + ra);
        assert(b =~= seq![b[0]] + rb);
    }
}

/// An increasing list is the sorted list of its strings.
pub proof fn lemma_is_sorted_list(l: Seq<Seq<char>>)
    requires
        strictly_sorted(l),
    ensures
        sorted_list(l.to_set()) == l,
{
    let c = sorted_list(l.to_set());
    assert(strictly_sorted(c) && c.to_set() == l.to_set());
    lemma_sorted_unique(c, l);
}

/// The views of a sequence of strings.
pub open spec fn views(v: Seq<String>) -> Seq<Seq<char>> {
    v.map_values(|s: String| s@)
}

/// Adds `s` to an increasing list of strings unless it is already there.
pub fn insert_sorted_unique(v: &mut Vec<String>, s: String)
    requires
        strictly_sorted(views(old(v)@)),
    ensures
        strictly_sorted(views(final(v)@)),
        views(final(v)@).to_set() == views(old(v)@).to_set().insert(s@),
{
    let sc = chars_of(s.as_str());
    let ghost w = views(v@);
    let mut p: usize = 0;
    while p < v.len() && chars_lt(chars_of(v[p].as_str()).as_slice(), sc.as_slice())
        invariant
            p <= v@.len(),
            w == views(v@),
            sc@ == s@,
            strictly_sorted(w),
            forall|i: int| 0 <= i < p ==> seq_lt(#[trigger] w[i], s@),
        decreases v@.len() - p,
    {
        p += 1;
    }
    if p < v.len() {
        let cur = chars_of(v[p].as_str());
        if chars_eq(cur.as_slice(), sc.as_slice()) {
            proof {
                assert(w.to_set().contains(w[p as int]));
                assert(w.to_set().insert(s@) =~= w.to_set());
            }
            return;
        }
    }
    proof {
        if p < w.len() {
            assert(!seq_lt(w[p as int], s@));
            lemma_seq_lt_total(w[p as int], s@);
        }
    }
    v.insert(p, s);
    proof {
        let nw = views(v@);
        assert(nw =~= w.insert(p as int, s@));
        assert forall|i: int, j: int| 0 <= i < j < nw.len() implies seq_lt(#[trigger] nw[i], #[trigger] nw[j]) by {
            if i < p && j == p {
            } else if i < p && j > p {
                assert(nw[j] == w[j - 1]);
                if j - 1 >= p {
                    assert(seq_lt(s@, w[p as int]));
                    if j - 1 > p {
                        lemma_seq_lt_transitive(s@, w[p as int], w[j - 1]);
                    }
                    lemma_seq_lt_transitive(w[i], s@, w[j - 1]);
                }
            } else if i == p {
                assert(nw[j] == w[j - 1]);
                if j - 1 > p {
                    lemma_seq_lt_transitive(s@, w[p as int], w[j - 1]);
                }
            } else if i > p {
                assert(nw[i] == w[i - 1] && nw[j] == w[j - 1]);
            }
        }
        assert(nw.to_set() =~= w.to_set().insert(s@)) by {
            assert forall|x: Seq<char>| nw.to_set().contains(x) <==> w.to_set().insert(s@).contains(x) by {
                if nw.to_set().contains(x) {
                    let i = choose|i: int| 0 <= i < nw.len() && nw[i] == x;
                    if i < p { assert(w[i] == x); } else if i > p { assert(w[i - 1] == x); }
                }
                if w.to_set().contains(x) {
                    let i = choose|i: int| 0 <= i < w.len() && w[i] == x;
                    if i < p { assert(nw[i] == x); } else { assert(nw[i + 1] == x); }
                }
                if x == s@ {
                    assert(nw[p as int] == x);
                }
            }
        }
    }
}

/// An entry for the stable descending sort: a key and the position it came from.
pub open spec fn insert_desc(s: Seq<(usize, usize)>, x: (usize, usize)) -> Seq<(usize, usize)>
    decreases s.len(),
{
    if s.len() == 0 {
        seq![x]
    } else if s.last().0 >= x.0 {
        s.push(x)
    } else {
        insert_desc(s.drop_last(), x).push(s.last())
    }
}

/// Stable sort by decreasing key: entries with equal keys keep their order.
pub open spec fn sort_desc(s: Seq<(usize, usize)>) -> Seq<(usize, usize)>
    decreases s.len(),
{
    if s.len() == 0 {
        s
    } else {
        insert_desc(sort_desc(s.drop_last()), s.last())
    }
}

/// Each key paired with its position.
pub open spec fn keyed(keys: Seq<usize>) -> Seq<(usize, usize)> {
    Seq::new(keys.len(), |i: int| (keys[i], i as usize))
}

/// The positions of `keys`, ordered by decreasing key; equal keys keep their order.
pub open spec fn order_desc(keys: Seq<usize>) -> Seq<usize> {
    sort_desc(keyed(keys)).map_values(|p: (usize, usize)| p.1)
}

proof fn lemma_insert_desc_at(s: Seq<(usize, usize)>, x: (usize, usize), p: int)
    requires
        0 <= p <= s.len(),
        forall|j: int| p <= j < s.len() ==> (#[trigger] s[j]).0 < x.0,
        p == 0 || s[p - 1].0 >= x.0,
    ensures
        insert_desc(s, x) == s.insert(p, x),
    decreases s.len(),
{
    if s.len() == 0 {
        assert(s.insert(p, x) =~= seq![x]);
    } else if p == s.len() {
        assert(s.insert(p, x) =~= s.push(x));
    } else {
        let t = s.drop_last();
        lemma_insert_desc_at(t, x, p);
        assert(s.insert(p, x) =~= t.insert(p, x).push(s.last()));
    }
}

/// The positions of `keys`, ordered by decreasing key; equal keys keep their order.
pub fn stable_order_desc(keys: &Vec<usize>) -> (order: Vec<usize>)
    ensures
        order@ == order_desc(keys@),
{
    let n = keys.len();
    let mut sorted: Vec<(usize, usize)> = Vec::new();
    let mut i: usize = 0;
    while i < n
        invariant
            i <= n,
            n == keys@.len(),
            sorted@ == sort_desc(keyed(keys@).take(i as int)),
        decreases n - i,
    {
        let x = (keys[i], i);
        let mut p: usize = sorted.len();
        while p > 0 && sorted[p - 1].0 < x.0
            invariant
                p <= sorted@.len(),
                forall|j: int| p <= j < sorted@.len() ==> (#[trigger] sorted@[j]).0 < x.0,
            decreases p,
        {
            p -= 1;
        }
        proof {
            lemma_insert_desc_at(sorted@, x, p as int);
            let k = keyed(keys@).take(i + 1);
            assert(k.drop_last() == keyed(keys@).take(i as int));
            assert(k.last() == x);
        }
        sorted.insert(p, x);
        i += 1;
    }
    assert(keyed(keys@).take(n as int) == keyed(keys@));
    let mut order: Vec<usize> = Vec::new();
    let mut j: usize = 0;
    while j < sorted.len()
        invariant
            j <= sorted@.len(),
            order@ == sorted@.take(j as int).map_values(|p: (usize, usize)| p.1),
        decreases sorted@.len() - j,
    {
        order.push(sorted[j].1);
        j += 1;
        assert(sorted@.take(j as int).map_values(|p: (usize, usize)| p.1)
            =~= sorted@.take(j - 1).map_values(|p: (usize, usize)| p.1).push(sorted@[j - 1].1));
    }
    assert(sorted@.take(sorted@.len() as int) == sorted@);
    order
}

proof fn lemma_insert_desc_elems(s: Seq<(usize, usize)>, x: (usize, usize))
    ensures
        insert_desc(s, x).len() == s.len() + 1,
        forall|i: int| 0 <= i < insert_desc(s, x).len() ==> #[trigger] insert_desc(s, x)[i] == x || s.contains(insert_desc(s, x)[i]),
    decreases s.len(),
{
    if s.len() > 0 && s.last().0 < x.0 {
        lemma_insert_desc_elems(s.drop_last(), x);
        let r = insert_desc(s, x);
        assert forall|i: int| 0 <= i < r.len() implies #[trigger] r[i] == x || s.contains(r[i]) by {
            if i < r.len() - 1 {
                let t = insert_desc(s.drop_last(), x);
                assert(r[i] == t[i]);
                if t[i] != x {
                    let k = choose|k: int| 0 <= k < s.drop_last().len() && s.drop_last()[k] == t[i];
                    assert(s[k] == t[i]);
                }
            } else {
                assert(s[s.len() - 1] == r[i]);
            }
        }
    } else if s.len() > 0 {
        let r = insert_desc(s, x);
        assert forall|i: int| 0 <= i < r.len() implies #[trigger] r[i] == x || s.contains(r[i]) by {
            if i < s.len() { assert(s[i] == r[i]); }
        }
    }
}

pub proof fn lemma_sort_desc_elems(s: Seq<(usize, usize)>)
    ensures
        sort_desc(s).len() == s.len(),
        forall|i: int| 0 <= i < sort_desc(s).len() ==> s.contains(#[trigger] sort_desc(s)[i]),
    decreases s.len(),
{
    if s.len() > 0 {
        let t = sort_desc(s.drop_last());
        lemma_sort_desc_elems(s.drop_last());
        lemma_insert_desc_elems(t, s.last());
        let r = sort_desc(s);
        assert forall|i: int| 0 <= i < r.len() implies s.contains(#[trigger] r[i]) by {
            if r[i] == s.last() {
                assert(s[s.len() - 1] == r[i]);
            } else {
                let k = choose|k: int| 0 <= k < t.len() && t[k] == r[i];
                let m = choose|m: int| 0 <= m < s.drop_last().len() && s.drop_last()[m] == t[k];
                assert(s[m] == r[i]);
            }
        }
    }
}

/// The order has one entry per key, each a position of `keys`.
pub proof fn lemma_order_desc_bounds(keys: Seq<usize>)
    ensures
        order_desc(keys).len() == keys.len(),
        forall|i: int| 0 <= i < keys.len() ==> #[trigger] order_desc(keys)[i] < keys.len(),
{
    let k = keyed(keys);
    lemma_sort_desc_elems(k);
    assert forall|i: int| 0 <= i < keys.len() implies #[trigger] order_desc(keys)[i] < keys.len() by {
        let e = sort_desc(k)[i];
        assert(k.contains(e));
        let m = choose|m: int| 0 <= m < k.len() && k[m] == e;
        assert(k[m].1 == m as usize);
    }
}

/// Puts entry `x` after every entry whose key does not come after its own.
pub open spec fn insert_asc(s: Seq<(Seq<char>, usize)>, x: (Seq<char>, usize)) -> Seq<(Seq<char>, usize)>
    decreases s.len(),
{
    if s.len() == 0 {
        seq![x]
    } else if seq_lt(x.0, s.last().0) {
        insert_asc(s.drop_last(), x).push(s.last())
    } else {
        s.push(x)
    }
}

/// Stable sort by increasing key: entries with equal keys keep their order.
pub open spec fn sort_asc(s: Seq<(Seq<char>, usize)>) -> Seq<(Seq<char>, usize)>
    decreases s.len(),
{
    if s.len() == 0 {
        s
    } else {
        insert_asc(sort_asc(s.drop_last()), s.last())
    }
}

/// Each string key paired with its position.
pub open spec fn named(keys: Seq<Seq<char>>) -> Seq<(Seq<char>, usize)> {
    Seq::new(keys.len(), |i: int| (keys[i], i as usize))
}

/// The positions of `keys`, ordered by increasing key; equal keys keep their order.
pub open spec fn order_by_name(keys: Seq<Seq<char>>) -> Seq<usize> {
    sort_asc(named(keys)).map_values(|p: (Seq<char>, usize)| p.1)
}

proof fn lemma_insert_asc_at(s: Seq<(Seq<char>, usize)>, x: (Seq<char>, usize), p: int)
    requires
        0 <= p <= s.len(),
        forall|j: int| p <= j < s.len() ==> seq_lt(x.0, (#[trigger] s[j]).0),
        p == 0 || !seq_lt(x.0, s[p - 1].0),
    ensures
        insert_asc(s, x) == s.insert(p, x),
    decreases s.len(),
{
    if s.len() == 0 {
        assert(s.insert(p, x) =~= seq![x]);
    } else if p == s.len() {
        assert(s.insert(p, x) =~= s.push(x));
    } else {
        let t = s.drop_last();
        lemma_insert_asc_at(t, x, p);
        assert(s.insert(p, x) =~= t.insert(p, x).push(s.last()));
    }
}

/// The positions of `keys`, ordered by increasing key; equal keys keep their order.
pub fn stable_order_by_name(keys: &Vec<String>) -> (order: Vec<usize>)
    ensures
        order@ == order_by_name(views(keys@)),
{
    let ghost ks = views(keys@);
    let n = keys.len();
    let mut sorted: Vec<usize> = Vec::new();
    let mut i: usize = 0;
    while i < n
        invariant
            i <= n,
            n == keys@.len(),
            ks == views(keys@),
            forall|j: int| 0 <= j < sorted@.len() ==> #[trigger] sorted@[j] < i,
            sorted@.map_values(|q: usize| (ks[q as int], q)) == sort_asc(named(ks).take(i as int)),
        decreases n - i,
    {
        let ghost x = (ks[i as int], i);
        let ghost before = sorted@;
        let ghost entries = sorted@.map_values(|q: usize| (ks[q as int], q));
        let mut p: usize = sorted.len();
        while p > 0 && str_lt(keys[i].as_str(), keys[sorted[p - 1]].as_str())
            invariant
                p <= sorted@.len(),
                sorted@ == before,
                x == (ks[i as int], i),
                i < n,
                n == keys@.len(),
                ks == views(keys@),
                forall|j: int| 0 <= j < sorted@.len() ==> #[trigger] sorted@[j] < i,
                entries == sorted@.map_values(|q: usize| (ks[q as int], q)),
                forall|j: int| p <= j < entries.len() ==> seq_lt(x.0, (#[trigger] entries[j]).0),
            decreases p,
        {
            assert(entries[p - 1] == (ks[sorted@[p - 1] as int], sorted@[p - 1]));
            assert(ks[i as int] == keys@[i as int]@);
            assert(ks[sorted@[p - 1] as int] == keys@[sorted@[p - 1] as int]@);
            p -= 1;
        }
        proof {
            if p > 0 {
                assert(entries[p - 1] == (ks[sorted@[p - 1] as int], sorted@[p - 1]));
            }
            lemma_insert_asc_at(entries, x, p as int);
            let k = named(ks).take(i + 1);
            assert(k.drop_last() == named(ks).take(i as int));
            assert(k.last() == x);
        }
        sorted.insert(p, i);
        proof {
            assert(sorted@.map_values(|q: usize| (ks[q as int], q)) =~= entries.insert(p as int, x));
        }
        i += 1;
    }
    assert(named(ks).take(n as int) == named(ks));
    proof {
        let e = sorted@.map_values(|q: usize| (ks[q as int], q));
        assert(e.map_values(|p: (Seq<char>, usize)| p.1) =~= sorted@);
    }
    sorted
}

proof fn lemma_insert_asc_elems(s: Seq<(Seq<char>, usize)>, x: (Seq<char>, usize))
    ensures
        insert_asc(s, x).len() == s.len() + 1,
        forall|i: int| 0 <= i < insert_asc(s, x).len() ==> #[trigger] insert_asc(s, x)[i] == x || s.contains(insert_asc(s, x)[i]),
    decreases s.len(),
{
    if s.len() > 0 && seq_lt(x.0, s.last().0) {
        lemma_insert_asc_elems(s.drop_last(), x);
        let r = insert_asc(s, x);
        assert forall|i: int| 0 <= i < r.len() implies #[trigger] r[i] == x || s.contains(r[i]) by {
            if i < r.len() - 1 {
                let t = insert_asc(s.drop_last(), x);
                assert(r[i] == t[i]);
                if t[i] != x {
                    let k = choose|k: int| 0 <= k < s.drop_last().len() && s.drop_last()[k] == t[i];
                    assert(s[k] == t[i]);
                }
            } else {
                assert(s[s.len() - 1] == r[i]);
            }
        }
    } else if s.len() > 0 {
        let r = insert_asc(s, x);
        assert forall|i: int| 0 <= i < r.len() implies #[trigger] r[i] == x || s.contains(r[i]) by {
            if i < s.len() { assert(s[i] == r[i]); }
        }
    }
}

proof fn lemma_sort_asc_elems(s: Seq<(Seq<char>, usize)>)
    ensures
        sort_asc(s).len() == s.len(),
        forall|i: int| 0 <= i < sort_asc(s).len() ==> s.contains(#[trigger] sort_asc(s)[i]),
    decreases s.len(),
{
    if s.len() > 0 {
        let t = sort_asc(s.drop_last());
        lemma_sort_asc_elems(s.drop_last());
        lemma_insert_asc_elems(t, s.last());
        let r = sort_asc(s);
        assert forall|i: int| 0 <= i < r.len() implies s.contains(#[trigger] r[i]) by {
            if r[i] == s.last() {
                assert(s[s.len() - 1] == r[i]);
            } else {
                let k = choose|k: int| 0 <= k < t.len() && t[k] == r[i];
                let m = choose|m: int| 0 <= m < s.drop_last().len() && s.drop_last()[m] == t[k];
                assert(s[m] == r[i]);
            }
        }
    }
}

/// The order has one entry per key, each a position of `keys`.
pub proof fn lemma_order_by_name_bounds(keys: Seq<Seq<char>>)
    ensures
        order_by_name(keys).len() == keys.len(),
        forall|i: int| 0 <= i < keys.len() ==> #[trigger] order_by_name(keys)[i] < keys.len(),
{
    let k = named(keys);
    lemma_sort_asc_elems(k);
    assert forall|i: int| 0 <= i < keys.len() implies #[trigger] order_by_name(keys)[i] < keys.len() by {
        let e = sort_asc(k)[i];
        assert(k.contains(e));
        let m = choose|m: int| 0 <= m < k.len() && k[m] == e;
        assert(k[m].1 == m as usize);
    }
}

/// Neither string comes before the other in reverse: the order of `String` read as `<=`.
proof fn lemma_not_lt_transitive(a: Seq<char>, b: Seq<char>, c: Seq<char>)
    requires
        !seq_lt(a, b),
        !seq_lt(b, c),
    ensures
        !seq_lt(a, c),
{
    if seq_lt(a, c) && a != b {
        lemma_seq_lt_total(a, b);
        lemma_seq_lt_transitive(b, a, c);
    }
}

/// The entries are in order of key: no key comes before the key of an earlier entry.
pub open spec fn ascending(s: Seq<(Seq<char>, usize)>) -> bool {
    forall|i: int, j: int| 0 <= i < j < s.len() ==> !seq_lt((#[trigger] s[j]).0, (#[trigger] s[i]).0)
}

proof fn lemma_insert_asc_sorted(s: Seq<(Seq<char>, usize)>, x: (Seq<char>, usize))
    requires
        ascending(s),
    ensures
        ascending(insert_asc(s, x)),
    decreases s.len(),
{
    if s.len() > 0 {
        let l = s.last();
        if seq_lt(x.0, l.0) {
            let t = s.drop_last();
            lemma_insert_asc_sorted(t, x);
            lemma_insert_asc_elems(t, x);
            let inner = insert_asc(t, x);
            let r = inner.push(l);
            assert forall|i: int, j: int| 0 <= i < j < r.len() implies !seq_lt((#[trigger] r[j]).0, (#[trigger] r[i]).0) by {
                if j == r.len() - 1 {
                    assert(r[j] == l);
                    assert(r[i] == inner[i]);
                    if inner[i] == x {
                        lemma_seq_lt_asymmetric(x.0, l.0);
                    } else {
                        let k = choose|k: int| 0 <= k < t.len() && t[k] == inner[i];
                        assert(s[k] == t[k]);
                        assert(s[s.len() - 1] == l);
                    }
                } else {
                    assert(r[i] == inner[i] && r[j] == inner[j]);
                }
            }
        } else {
            let r = s.push(x);
            assert forall|i: int, j: int| 0 <= i < j < r.len() implies !seq_lt((#[trigger] r[j]).0, (#[trigger] r[i]).0) by {
                if j == r.len() - 1 {
                    assert(r[j] == x);
                    assert(r[i] == s[i]);
                    if i < s.len() - 1 {
                        assert(s[s.len() - 1] == l);
                        lemma_not_lt_transitive(x.0, l.0, s[i].0);
                    }
                } else {
                    assert(r[i] == s[i] && r[j] == s[j]);
                }
            }
        }
    }
}

proof fn lemma_sort_asc_sorted(s: Seq<(Seq<char>, usize)>)
    ensures
        ascending(sort_asc(s)),
    decreases s.len(),
{
    if s.len() > 0 {
        lemma_sort_asc_sorted(s.drop_last());
        lemma_insert_asc_sorted(sort_asc(s.drop_last()), s.last());
    }
}

/// Sorting by name puts the keys in order: no key comes before the key of an earlier position.
pub proof fn lemma_order_by_name_sorted(keys: Seq<Seq<char>>)
    requires
        keys.len() <= usize::MAX,
    ensures
        forall|i: int, j: int| 0 <= i < j < keys.len() ==>
            !seq_lt(keys[#[trigger] order_by_name(keys)[j] as int], keys[#[trigger] order_by_name(keys)[i] as int]),
{
    let k = named(keys);
    let r = sort_asc(k);
    lemma_sort_asc_sorted(k);
    lemma_sort_asc_elems(k);
    lemma_order_by_name_bounds(keys);
    assert forall|i: int, j: int| 0 <= i < j < keys.len() implies
        !seq_lt(keys[#[trigger] order_by_name(keys)[j] as int], keys[#[trigger] order_by_name(keys)[i] as int]) by {
        assert(k.contains(r[i]) && k.contains(r[j]));
        let a = choose|a: int| 0 <= a < k.len() && k[a] == r[i];
        let b = choose|b: int| 0 <= b < k.len() && k[b] == r[j];
        assert(r[i].0 == keys[order_by_name(keys)[i] as int]);
        assert(r[j].0 == keys[order_by_name(keys)[j] as int]);
    }
}

/// Inserting by key places the entry at some position among the others, which keep their order.
proof fn lemma_insert_asc_is_insert(s: Seq<(Seq<char>, usize)>, x: (Seq<char>, usize))
    ensures
        exists|p: int| 0 <= p <= s.len() && insert_asc(s, x) == s.insert(p, x),
    decreases s.len(),
{
    if s.len() == 0 {
        assert(insert_asc(s, x) == s.insert(0, x));
    } else if seq_lt(x.0, s.last().0) {
        let t = s.drop_last();
        lemma_insert_asc_is_insert(t, x);
        let p = choose|p: int| 0 <= p <= t.len() && insert_asc(t, x) == t.insert(p, x);
        assert(insert_asc(s, x) == s.insert(p, x));
    } else {
        assert(insert_asc(s, x) == s.insert(s.len() as int, x));
    }
}

/// The entries are pairwise different.
pub open spec fn distinct_entries<A>(s: Seq<A>) -> bool {
    forall|i: int, j: int| 0 <= i < s.len() && 0 <= j < s.len() && i != j ==> s[i] != s[j]
}

proof fn lemma_sort_asc_permutes(s: Seq<(Seq<char>, usize)>)
    requires
        distinct_entries(s),
    ensures
        sort_asc(s).len() == s.len(),
        distinct_entries(sort_asc(s)),
        forall|e: (Seq<char>, usize)| s.contains(e) ==> #[trigger] sort_asc(s).contains(e),
    decreases s.len(),
{
    if s.len() > 0 {
        let t = s.drop_last();
        let x = s.last();
        assert(distinct_entries(t)) by {
            assert forall|i: int, j: int| 0 <= i < t.len() && 0 <= j < t.len() && i != j implies t[i] != t[j] by {
                assert(t[i] == s[i] && t[j] == s[j]);
            }
        }
        lemma_sort_asc_permutes(t);
        lemma_sort_asc_elems(t);
        let inner = sort_asc(t);
        lemma_insert_asc_is_insert(inner, x);
        let p = choose|p: int| 0 <= p <= inner.len() && insert_asc(inner, x) == inner.insert(p, x);
        let r = inner.insert(p, x);
        assert(!inner.contains(x)) by {
            if inner.contains(x) {
                let a = choose|a: int| 0 <= a < inner.len() && inner[a] == x;
                assert(t.contains(inner[a]));
                let b = choose|b: int| 0 <= b < t.len() && t[b] == x;
                assert(s[b] == x && s[s.len() - 1] == x);
            }
        }
        assert forall|i: int, j: int| 0 <= i < r.len() && 0 <= j < r.len() && i != j implies r[i] != r[j] by {
            let oi = if i < p { i } else { i - 1 };
            let oj = if j < p { j } else { j - 1 };
            if i != p && j != p {
                assert(r[i] == inner[oi] && r[j] == inner[oj]);
            } else if i == p {
                assert(r[j] == inner[oj]);
            } else {
                assert(r[i] == inner[oi]);
            }
        }
        assert forall|e: (Seq<char>, usize)| s.contains(e) implies #[trigger] r.contains(e) by {
            let a = choose|a: int| 0 <= a < s.len() && s[a] == e;
            if a == s.len() - 1 {
                assert(r[p] == e);
            } else {
                assert(t[a] == e);
                assert(t.contains(e));
                assert(sort_asc(t).contains(e));
                assert(inner.contains(e));
                let b = choose|b: int| 0 <= b < inner.len() && inner[b] == e;
                if b < p { assert(r[b] == e); } else { assert(r[b + 1] == e); }
            }
        }
    }
}

/// Sorting by name gives every position exactly once.
pub proof fn lemma_order_by_name_permutes(keys: Seq<Seq<char>>)
    requires
        keys.len() <= usize::MAX,
    ensures
        order_by_name(keys).len() == keys.len(),
        forall|i: int, j: int| 0 <= i < keys.len() && 0 <= j < keys.len() && i != j ==>
            #[trigger] order_by_name(keys)[i] != #[trigger] order_by_name(keys)[j],
        forall|k: int| 0 <= k < keys.len() ==> #[trigger] order_by_name(keys).contains(k as usize),
{
    let n = named(keys);
    assert(distinct_entries(n)) by {
        assert forall|i: int, j: int| 0 <= i < n.len() && 0 <= j < n.len() && i != j implies n[i] != n[j] by {
            assert(n[i].1 == i as usize && n[j].1 == j as usize);
        }
    }
    lemma_sort_asc_permutes(n);
    lemma_sort_asc_elems(n);
    let r = sort_asc(n);
    let o = order_by_name(keys);
    assert forall|i: int, j: int| 0 <= i < keys.len() && 0 <= j < keys.len() && i != j implies
        #[trigger] o[i] != #[trigger] o[j] by {
        assert(n.contains(r[i]) && n.contains(r[j]));
        let a = choose|a: int| 0 <= a < n.len() && n[a] == r[i];
        let b = choose|b: int| 0 <= b < n.len() && n[b] == r[j];
        assert(r[i] != r[j]);
    }
    assert forall|k: int| 0 <= k < keys.len() implies #[trigger] o.contains(k as usize) by {
        assert(n[k] == (keys[k], k as usize));
        assert(n.contains(n[k]));
        assert(r.contains(n[k]));
        let a = choose|a: int| 0 <= a < r.len() && r[a] == n[k];
        assert(o[a] == k as usize);
    }
}

/// The entries are in order of decreasing key.
pub open spec fn descending(s: Seq<(usize, usize)>) -> bool {
    forall|i: int, j: int| 0 <= i < j < s.len() ==> (#[trigger] s[i]).0 >= (#[trigger] s[j]).0
}

proof fn lemma_insert_desc_sorted(s: Seq<(usize, usize)>, x: (usize, usize))
    requires
        descending(s),
    ensures
        descending(insert_desc(s, x)),
    decreases s.len(),
{
    if s.len() > 0 {
        let l = s.last();
        if l.0 < x.0 {
            let t = s.drop_last();
            lemma_insert_desc_sorted(t, x);
            lemma_insert_desc_elems(t, x);
            let inner = insert_desc(t, x);
            let r = inner.push(l);
            assert forall|i: int, j: int| 0 <= i < j < r.len() implies (#[trigger] r[i]).0 >= (#[trigger] r[j]).0 by {
                if j == r.len() - 1 {
                    assert(r[j] == l);
                    assert(r[i] == inner[i]);
                    if inner[i] != x {
                        let k = choose|k: int| 0 <= k < t.len() && t[k] == inner[i];
                        assert(s[k] == t[k]);
                        assert(s[s.len() - 1] == l);
                    }
                } else {
                    assert(r[i] == inner[i] && r[j] == inner[j]);
                }
            }
        } else {
            let r = s.push(x);
            assert forall|i: int, j: int| 0 <= i < j < r.len() implies (#[trigger] r[i]).0 >= (#[trigger] r[j]).0 by {
                if j == r.len() - 1 {
                    assert(r[i] == s[i]);
                    assert(s[s.len() - 1] == l);
                    if i < s.len() - 1 {
                        assert(s[i].0 >= s[s.len() - 1].0);
                    }
                } else {
                    assert(r[i] == s[i] && r[j] == s[j]);
                }
            }
        }
    }
}

proof fn lemma_sort_desc_sorted(s: Seq<(usize, usize)>)
    ensures
        descending(sort_desc(s)),
    decreases s.len(),
{
    if s.len() > 0 {
        lemma_sort_desc_sorted(s.drop_last());
        lemma_insert_desc_sorted(sort_desc(s.drop_last()), s.last());
    }
}

/// Ordering by decreasing key puts the keys in order: an earlier position never has a smaller key.
pub proof fn lemma_order_desc_sorted(keys: Seq<usize>)
    requires
        keys.len() <= usize::MAX,
    ensures
        forall|i: int, j: int| 0 <= i < j < keys.len() ==>
            keys[#[trigger] order_desc(keys)[i] as int] >= keys[#[trigger] order_desc(keys)[j] as int],
{
    let k = keyed(keys);
    let r = sort_desc(k);
    lemma_sort_desc_sorted(k);
    lemma_sort_desc_elems(k);
    lemma_order_desc_bounds(keys);
    assert forall|i: int, j: int| 0 <= i < j < keys.len() implies
        keys[#[trigger] order_desc(keys)[i] as int] >= keys[#[trigger] order_desc(keys)[j] as int] by {
        assert(k.contains(r[i]) && k.contains(r[j]));
        let a = choose|a: int| 0 <= a < k.len() && k[a] == r[i];
        let b = choose|b: int| 0 <= b < k.len() && k[b] == r[j];
        assert(r[i].0 == keys[order_desc(keys)[i] as int]);
        assert(r[j].0 == keys[order_desc(keys)[j] as int]);
    }
}

/// Inserting by decreasing key places the entry at some position among the others, which
/// keep their order.
proof fn lemma_insert_desc_is_insert(s: Seq<(usize, usize)>, x: (usize, usize))
    ensures
        exists|p: int| 0 <= p <= s.len() && insert_desc(s, x) == s.insert(p, x),
    decreases s.len(),
{
    if s.len() == 0 {
        assert(insert_desc(s, x) == s.insert(0, x));
    } else if s.last().0 < x.0 {
        let t = s.drop_last();
        lemma_insert_desc_is_insert(t, x);
        let p = choose|p: int| 0 <= p <= t.len() && insert_desc(t, x) == t.insert(p, x);
        assert(insert_desc(s, x) == s.insert(p, x));
    } else {
        assert(insert_desc(s, x) == s.insert(s.len() as int, x));
    }
}

proof fn lemma_sort_desc_permutes(s: Seq<(usize, usize)>)
    requires
        distinct_entries(s),
    ensures
        sort_desc(s).len() == s.len(),
        distinct_entries(sort_desc(s)),
        forall|e: (usize, usize)| s.contains(e) ==> #[trigger] sort_desc(s).contains(e),
    decreases s.len(),
{
    if s.len() > 0 {
        let t = s.drop_last();
        let x = s.last();
        assert(distinct_entries(t)) by {
            assert forall|i: int, j: int| 0 <= i < t.len() && 0 <= j < t.len() && i != j implies t[i] != t[j] by {
                assert(t[i] == s[i] && t[j] == s[j]);
            }
        }
        lemma_sort_desc_permutes(t);
        lemma_sort_desc_elems(t);
        let inner = sort_desc(t);
        lemma_insert_desc_is_insert(inner, x);
        let p = choose|p: int| 0 <= p <= inner.len() && insert_desc(inner, x) == inner.insert(p, x);
        let r = inner.insert(p, x);
        assert(!inner.contains(x)) by {
            if inner.contains(x) {
                let a = choose|a: int| 0 <= a < inner.len() && inner[a] == x;
                assert(t.contains(inner[a]));
                let b = choose|b: int| 0 <= b < t.len() && t[b] == x;
                assert(s[b] == x && s[s.len() - 1] == x);
            }
        }
        assert forall|i: int, j: int| 0 <= i < r.len() && 0 <= j < r.len() && i != j implies r[i] != r[j] by {
            let oi = if i < p { i } else { i - 1 };
            let oj = if j < p { j } else { j - 1 };
            if i != p && j != p {
                assert(r[i] == inner[oi] && r[j] == inner[oj]);
            } else if i == p {
                assert(r[j] == inner[oj]);
            } else {
                assert(r[i] == inner[oi]);
            }
        }
        assert forall|e: (usize, usize)| s.contains(e) implies #[trigger] r.contains(e) by {
            let a = choose|a: int| 0 <= a < s.len() && s[a] == e;
            if a == s.len() - 1 {
                assert(r[p] == e);
            } else {
                assert(t[a] == e);
                assert(t.contains(e));
                assert(sort_desc(t).contains(e));
                assert(inner.contains(e));
                let b = choose|b: int| 0 <= b < inner.len() && inner[b] == e;
                if b < p { assert(r[b] == e); } else { assert(r[b + 1] == e); }
            }
        }
    }
}

/// Ordering by decreasing key gives every position exactly once.
pub proof fn lemma_order_desc_permutes(keys: Seq<usize>)
    requires
        keys.len() <= usize::MAX,
    ensures
        order_desc(keys).len() == keys.len(),
        forall|i: int, j: int| 0 <= i < keys.len() && 0 <= j < keys.len() && i != j ==>
            #[trigger] order_desc(keys)[i] != #[trigger] order_desc(keys)[j],
        forall|k: int| 0 <= k < keys.len() ==> #[trigger] order_desc(keys).contains(k as usize),
{
    let n = keyed(keys);
    assert(distinct_entries(n)) by {
        assert forall|i: int, j: int| 0 <= i < n.len() && 0 <= j < n.len() && i != j implies n[i] != n[j] by {
            assert(n[i].1 == i as usize && n[j].1 == j as usize);
        }
    }
    lemma_sort_desc_permutes(n);
    lemma_sort_desc_elems(n);
    let r = sort_desc(n);
    let o = order_desc(keys);
    assert forall|i: int, j: int| 0 <= i < keys.len() && 0 <= j < keys.len() && i != j implies
        #[trigger] o[i] != #[trigger] o[j] by {
        assert(n.contains(r[i]) && n.contains(r[j]));
        let a = choose|a: int| 0 <= a < n.len() && n[a] == r[i];
        let b = choose|b: int| 0 <= b < n.len() && n[b] == r[j];
        assert(r[i] != r[j]);
    }
    assert forall|k: int| 0 <= k < keys.len() implies #[trigger] o.contains(k as usize) by {
        assert(n[k] == (keys[k], k as usize));
        assert(n.contains(n[k]));
        assert(r.contains(n[k]));
        let a = choose|a: int| 0 <= a < r.len() && r[a] == n[k];
        assert(o[a] == k as usize);
    }
}

/// Pushing onto a sequence adds the item to its set.
pub proof fn lemma_push_to_set<A>(s: Seq<A>, x: A)
    ensures
        s.push(x).to_set() == s.to_set().insert(x),
{
    assert forall|y: A| s.push(x).contains(y) <==> s.to_set().insert(x).contains(y) by {
        if s.push(x).contains(y) {
            let k = choose|k: int| 0 <= k < s.push(x).len() && s.push(x)[k] == y;
            if k < s.len() {
                assert(s[k] == y);
            }
        }
        if s.contains(y) {
            let k = choose|k: int| 0 <= k < s.len() && s[k] == y;
            assert(s.push(x)[k] == y);
        }
        if y == x {
            assert(s.push(x)[s.len() as int] == y);
        }
    }
    assert(s.push(x).to_set() =~= s.to_set().insert(x));
}

/// `x` put into an increasing list of strings, unless it is there already.
pub open spec fn insert_string(l: Seq<Seq<char>>, x: Seq<char>) -> Seq<Seq<char>>
    decreases l.len(),
{
    if l.len() == 0 {
        seq![x]
    } else if seq_lt(l.last(), x) {
        l.push(x)
    } else if l.last() == x {
        l
    } else {
        insert_string(l.drop_last(), x).push(l.last())
    }
}

/// The strings of `s` put one after the other into an increasing list.
pub open spec fn sorted_strings(s: Seq<Seq<char>>) -> Seq<Seq<char>>
    decreases s.len(),
{
    if s.len() == 0 { s } else { insert_string(sorted_strings(s.drop_last()), s.last()) }
}

proof fn lemma_insert_string(l: Seq<Seq<char>>, x: Seq<char>)
    requires
        strictly_sorted(l),
    ensures
        strictly_sorted(insert_string(l, x)),
        insert_string(l, x).to_set() == l.to_set().insert(x),
    decreases l.len(),
{
    if l.len() == 0 {
        assert(seq![x] == Seq::<Seq<char>>::empty().push(x));
        lemma_push_to_set(Seq::<Seq<char>>::empty(), x);
    } else if seq_lt(l.last(), x) {
        lemma_push_to_set(l, x);
        let r = l.push(x);
        assert forall|i: int, j: int| 0 <= i < j < r.len() implies seq_lt(#[trigger] r[i], #[trigger] r[j]) by {
            if j == l.len() && i < l.len() - 1 {
                assert(seq_lt(l[i], l[l.len() - 1]));
                lemma_seq_lt_transitive(l[i], l.last(), x);
            } else if j < l.len() {
                assert(r[i] == l[i] && r[j] == l[j]);
            }
        }
    } else if l.last() == x {
        assert(l.to_set().contains(x)) by { assert(l[l.len() - 1] == x); }
        assert(l.to_set().insert(x) =~= l.to_set());
    } else {
        let t = l.drop_last();
        let y = l.last();
        lemma_seq_lt_total(y, x);
        assert(strictly_sorted(t)) by {
            assert forall|i: int, j: int| 0 <= i < j < t.len() implies seq_lt(#[trigger] t[i], #[trigger] t[j]) by {
                assert(t[i] == l[i] && t[j] == l[j]);
            }
        }
        lemma_insert_string(t, x);
        let inner = insert_string(t, x);
        let r = inner.push(y);
        lemma_push_to_set(inner, y);
        assert(l == t.push(y));
        lemma_push_to_set(t, y);
        assert(r.to_set() =~= l.to_set().insert(x));
        assert forall|i: int, j: int| 0 <= i < j < r.len() implies seq_lt(#[trigger] r[i], #[trigger] r[j]) by {
            if j == inner.len() {
                assert(r[i] == inner[i]);
                assert(inner.to_set().contains(inner[i]));
                if inner[i] != x {
                    assert(t.to_set().contains(inner[i]));
                    let k = choose|k: int| 0 <= k < t.len() && t[k] == inner[i];
                    assert(l[k] == t[k]);
                    assert(seq_lt(l[k], l[l.len() - 1]));
                }
            } else {
                assert(r[i] == inner[i] && r[j] == inner[j]);
            }
        }
    }
}

proof fn lemma_sorted_strings(s: Seq<Seq<char>>)
    ensures
        strictly_sorted(sorted_strings(s)),
        sorted_strings(s).to_set() == s.to_set(),
    decreases s.len(),
{
    if s.len() == 0 {
        assert(s.to_set() =~= Set::<Seq<char>>::empty());
        assert(sorted_strings(s).to_set() =~= Set::<Seq<char>>::empty());
    } else {
        lemma_sorted_strings(s.drop_last());
        lemma_insert_string(sorted_strings(s.drop_last()), s.last());
        assert(s == s.drop_last().push(s.last()));
        lemma_push_to_set(s.drop_last(), s.last());
    }
}

/// The strings of a sequence have a sorted list: increasing, with the same strings, one entry
/// per distinct string.
pub proof fn lemma_sorted_list_exists(s: Seq<Seq<char>>)
    ensures
        strictly_sorted(sorted_list(s.to_set())),
        sorted_list(s.to_set()).to_set() == s.to_set(),
        sorted_list(s.to_set()).len() == s.to_set().len(),
{
    lemma_sorted_strings(s);
    let w = sorted_strings(s);
    assert(strictly_sorted(w) && w.to_set() == s.to_set());
    let l = sorted_list(s.to_set());
    assert(l.no_duplicates()) by {
        assert forall|i: int, j: int| 0 <= i < l.len() && 0 <= j < l.len() && i != j implies l[i] != l[j] by {
            if i < j {
                assert(seq_lt(l[i], l[j]));
                lemma_seq_lt_irreflexive(l[i]);
            } else {
                assert(seq_lt(l[j], l[i]));
                lemma_seq_lt_irreflexive(l[j]);
            }
        }
    }
    l.unique_seq_to_set();
}

} // verus!
