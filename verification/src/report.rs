//! The per-field frequency report: fields in name order, each with its values
//! ranked by count.
use vstd::prelude::*;

use crate::models::{CountsView, FieldFrequencies, counts_total, lemma_total_insert, lemma_total_empty};
use crate::table::{StrMap, pairs_to_map, distinct_keys, lemma_pairs_to_map, lemma_map_of_pairs};
use crate::text::{lex_less, str_less, lemma_lex_total, lemma_lex_transitive};

verus! {

/// How many values of a field a report shows.
pub const TOP_VALUES: usize = 15;

/// `a` ranks before `b`: a higher count, or the same count and a value that
/// comes first in string order.
pub open spec fn ranks_before(a: (Seq<char>, u64), b: (Seq<char>, u64)) -> bool {
    a.1 > b.1 || (a.1 == b.1 && lex_less(a.0, b.0))
}

/// Every pair of `s` ranks before the pairs after it.
pub open spec fn ranked(s: Seq<(Seq<char>, u64)>) -> bool {
    forall|i: int, j: int| 0 <= i < j < s.len() ==> ranks_before(#[trigger] s[i], #[trigger] s[j])
}

/// Every name of `s` comes before the names after it in string order.
pub open spec fn names_sorted(s: Seq<Seq<char>>) -> bool {
    forall|i: int, j: int| 0 <= i < j < s.len() ==> lex_less(#[trigger] s[i], #[trigger] s[j])
}

/// The view of a vector of value/count pairs.
pub open spec fn counts_seq(v: Seq<(String, u64)>) -> Seq<(Seq<char>, u64)> {
    v.map_values(|e: (String, u64)| (e.0@, e.1))
}

/// The view of a vector of strings.
pub open spec fn names_seq(v: Seq<String>) -> Seq<Seq<char>> {
    v.map_values(|e: String| e@)
}

proof fn lemma_ranks_transitive(a: (Seq<char>, u64), b: (Seq<char>, u64), c: (Seq<char>, u64))
    requires
        ranks_before(a, b),
        ranks_before(b, c),
    ensures
        ranks_before(a, c),
{
    if a.1 == b.1 && b.1 == c.1 {
        lemma_lex_transitive(a.0, b.0, c.0);
    }
}

proof fn lemma_ranks_total(a: (Seq<char>, u64), b: (Seq<char>, u64))
    requires
        a.0 != b.0,
    ensures
        ranks_before(a, b) || ranks_before(b, a),
{
    lemma_lex_total(a.0, b.0);
}

fn ranks_before_exec(a: &(String, u64), b: &(String, u64)) -> (r: bool)
    ensures
        r == ranks_before((a.0@, a.1), (b.0@, b.1)),
{
    a.1 > b.1 || (a.1 == b.1 && str_less(a.0.as_str(), b.0.as_str()))
}

/// The pairs of `counts`, ranked by count, highest first, and by value
/// among equal counts.
pub fn ranked_counts(counts: &StrMap<u64>) -> (r: Vec<(String, u64)>)
    ensures
        ranked(counts_seq(r@)),
        distinct_keys(counts_seq(r@)),
        pairs_to_map(counts_seq(r@)) == counts@,
{
    proof {
        use_type_invariant(counts);
        counts.lemma_pairs();
    }
    let ghost t = counts.pairs();
    let n = counts.len();
    let mut out: Vec<(String, u64)> = Vec::new();
    proof {
        assert(t.take(0) =~= Seq::<(Seq<char>, u64)>::empty());
        assert(counts_seq(out@) =~= Seq::<(Seq<char>, u64)>::empty());
    }
    let mut i: usize = 0;
    while i < n
        invariant
            n == t.len(),
            i <= n,
            t == counts.pairs(),
            distinct_keys(t),
            pairs_to_map(t) == counts@,
            ranked(counts_seq(out@)),
            distinct_keys(counts_seq(out@)),
            pairs_to_map(counts_seq(out@)) == pairs_to_map(t.take(i as int)),
        decreases n - i,
    {
        let item = (counts.key_at(i).clone(), *counts.value_at(i));
        let ghost x = (item.0@, item.1);
        let ghost ov = counts_seq(out@);
        proof {
            assert(x == t[i as int]);
            lemma_pairs_to_map(ov);
            lemma_pairs_to_map(t.take(i as int));
            assert(distinct_keys(t.take(i as int)));
            assert forall|q: int| 0 <= q < ov.len() implies ov[q].0 != x.0 by {
                assert(pairs_to_map(t.take(i as int)).contains_key(ov[q].0));
                let j = choose|j: int| 0 <= j < t.take(i as int).len() && t.take(i as int)[j].0 == ov[q].0;
                assert(t[j].0 != t[i as int].0);
            }
        }
        let mut p: usize = 0;
        while p < out.len() && !ranks_before_exec(&item, &out[p])
            invariant
                p <= out.len(),
                ov == counts_seq(out@),
                x == (item.0@, item.1),
                forall|q: int| 0 <= q < p ==> ranks_before(ov[q], x),
                forall|q: int| 0 <= q < ov.len() ==> ov[q].0 != x.0,
            decreases out.len() - p,
        {
            proof {
                lemma_ranks_total(x, ov[p as int]);
            }
            p = p + 1;
        }
        out.insert(p, item);
        proof {
            let nv = counts_seq(out@);
            assert(nv =~= ov.insert(p as int, x));
            assert forall|a: int, b: int| 0 <= a < b < nv.len() implies ranks_before(#[trigger] nv[a], #[trigger] nv[b]) by {
                if b < p {
                } else if b == p {
                } else if a < p {
                    assert(nv[b] == ov[b - 1]);
                    if p < ov.len() {
                        lemma_ranks_transitive(ov[a], x, ov[p as int]);
                        if b - 1 > p {
                            lemma_ranks_transitive(ov[a], ov[p as int], ov[b - 1]);
                        }
                    }
                } else if a == p {
                    assert(nv[b] == ov[b - 1]);
                    if b - 1 > p {
                        lemma_ranks_transitive(x, ov[p as int], ov[b - 1]);
                    }
                } else {
                    assert(nv[a] == ov[a - 1]);
                    assert(nv[b] == ov[b - 1]);
                }
            }
            assert forall|a: int, b: int| 0 <= a < nv.len() && 0 <= b < nv.len() && a != b implies nv[a].0 != nv[b].0 by {
                let oa = if a < p { a } else { a - 1 };
                let ob = if b < p { b } else { b - 1 };
                if a != p && b != p {
                    assert(nv[a] == ov[oa]);
                    assert(nv[b] == ov[ob]);
                } else if a == p {
                    assert(nv[b] == ov[ob]);
                } else {
                    assert(nv[a] == ov[oa]);
                }
            }
            let m = pairs_to_map(t.take(i + 1));
            assert(t.take(i + 1).drop_last() =~= t.take(i as int));
            assert(m == pairs_to_map(ov).insert(x.0, x.1));
            assert forall|j: int| 0 <= j < nv.len() implies #[trigger] m.contains_key(nv[j].0) && m[nv[j].0] == nv[j].1 by {
                if j < p {
                    assert(nv[j] == ov[j]);
                } else if j > p {
                    assert(nv[j] == ov[j - 1]);
                }
            }
            assert forall|key: Seq<char>| #[trigger] m.contains_key(key) implies exists|j: int| 0 <= j < nv.len() && nv[j].0 == key by {
                if key == x.0 {
                    assert(nv[p as int].0 == key);
                } else {
                    let j = choose|j: int| 0 <= j < ov.len() && ov[j].0 == key;
                    if j < p {
                        assert(nv[j].0 == key);
                    } else {
                        assert(nv[j + 1].0 == key);
                    }
                }
            }
            lemma_map_of_pairs(nv, m);
        }
        i = i + 1;
    }
    assert(t.take(n as int) =~= t);
    out
}


/// The keys of `m`, in string order.
pub fn sorted_keys<V: View>(m: &StrMap<V>) -> (r: Vec<String>)
    ensures
        names_sorted(names_seq(r@)),
        forall|k: Seq<char>| m@.contains_key(k) <==> names_seq(r@).contains(k),
{
    proof {
        use_type_invariant(m);
        m.lemma_pairs();
        lemma_pairs_to_map(m.pairs());
    }
    let ghost t = m.pairs();
    let n = m.len();
    let mut out: Vec<String> = Vec::new();
    let mut i: usize = 0;
    while i < n
        invariant
            n == t.len(),
            i <= n,
            t == m.pairs(),
            distinct_keys(t),
            forall|k: Seq<char>| #[trigger] m@.contains_key(k) <==> exists|j: int| 0 <= j < t.len() && t[j].0 == k,
            names_sorted(names_seq(out@)),
            forall|k: Seq<char>| names_seq(out@).contains(k) <==> exists|j: int| 0 <= j < i && t[j].0 == k,
        decreases n - i,
    {
        let key = m.key_at(i).clone();
        let ghost x = key@;
        let ghost ov = names_seq(out@);
        proof {
            assert forall|q: int| 0 <= q < ov.len() implies ov[q] != x by {
                assert(ov.contains(ov[q]));
                let j = choose|j: int| 0 <= j < i && t[j].0 == ov[q];
                assert(t[j].0 != t[i as int].0);
            }
        }
        let mut p: usize = 0;
        while p < out.len() && !str_less(key.as_str(), out[p].as_str())
            invariant
                p <= out.len(),
                ov == names_seq(out@),
                x == key@,
                forall|q: int| 0 <= q < p ==> lex_less(ov[q], x),
                forall|q: int| 0 <= q < ov.len() ==> ov[q] != x,
            decreases out.len() - p,
        {
            proof {
                lemma_lex_total(x, ov[p as int]);
            }
            p = p + 1;
        }
        out.insert(p, key);
        proof {
            let nv = names_seq(out@);
            assert(nv =~= ov.insert(p as int, x));
            assert forall|a: int, b: int| 0 <= a < b < nv.len() implies lex_less(#[trigger] nv[a], #[trigger] nv[b]) by {
                if b < p {
                } else if b == p {
                } else if a < p {
                    assert(nv[b] == ov[b - 1]);
                    if p < ov.len() {
                        lemma_lex_transitive(ov[a], x, ov[p as int]);
                        if b - 1 > p {
                            lemma_lex_transitive(ov[a], ov[p as int], ov[b - 1]);
                        }
                    }
                } else if a == p {
                    assert(nv[b] == ov[b - 1]);
                    if b - 1 > p {
                        lemma_lex_transitive(x, ov[p as int], ov[b - 1]);
                    }
                } else {
                    assert(nv[a] == ov[a - 1]);
                    assert(nv[b] == ov[b - 1]);
                }
            }
            assert forall|k: Seq<char>| nv.contains(k) <==> exists|j: int| 0 <= j < i + 1 && t[j].0 == k by {
                if nv.contains(k) {
                    let q = choose|q: int| 0 <= q < nv.len() && nv[q] == k;
                    if q == p {
                        assert(t[i as int].0 == k);
                    } else {
                        let oq = if q < p { q } else { q - 1 };
                        assert(nv[q] == ov[oq]);
                        assert(ov.contains(k));
                    }
                }
                if exists|j: int| 0 <= j < i + 1 && t[j].0 == k {
                    let j = choose|j: int| 0 <= j < i + 1 && t[j].0 == k;
                    if j == i {
                        assert(nv[p as int] == k);
                    } else {
                        assert(ov.contains(k));
                        let q = choose|q: int| 0 <= q < ov.len() && ov[q] == k;
                        if q < p {
                            assert(nv[q] == k);
                        } else {
                            assert(nv[q + 1] == k);
                        }
                    }
                }
            }
        }
        i = i + 1;
    }
    out
}

proof fn lemma_total_bounded_by_superset(e: Seq<(Seq<char>, u64)>, k: int)
    requires
        distinct_keys(e),
        0 <= k <= e.len(),
    ensures
        pairs_to_map(e.take(k)).dom().finite(),
        counts_total(pairs_to_map(e.take(k))) <= counts_total(pairs_to_map(e)),
    decreases e.len() - k,
{
    assert(distinct_keys(e.take(k)));
    lemma_pairs_to_map(e.take(k));
    if k < e.len() {
        lemma_total_bounded_by_superset(e, k + 1);
        assert(e.take(k + 1).drop_last() =~= e.take(k));
        assert(!pairs_to_map(e.take(k)).contains_key(e[k].0)) by {
            if pairs_to_map(e.take(k)).contains_key(e[k].0) {
                let q = choose|q: int| 0 <= q < k && e.take(k)[q].0 == e[k].0;
                assert(e[q].0 == e[k].0);
            }
        }
        lemma_total_insert(pairs_to_map(e.take(k)), e[k].0, e[k].1);
    } else {
        assert(e.take(k) =~= e);
    }
}

/// The report of one field: its values ranked by count, the total of the
/// counts, and how many values are shown and how many are left out.
pub struct FieldReport {
    pub field: String,
    pub entries: Vec<(String, u64)>,
    pub total: u64,
    pub shown: usize,
    pub hidden: usize,
}

/// `r` reports the count map `counts`: all of its values ranked by count,
/// their total, the first `TOP_VALUES` of them shown and the rest counted.
pub open spec fn reports_counts(r: FieldReport, counts: CountsView) -> bool {
    let e = counts_seq(r.entries@);
    &&& ranked(e)
    &&& distinct_keys(e)
    &&& pairs_to_map(e) == counts
    &&& r.total == counts_total(counts)
    &&& r.shown == (if e.len() < TOP_VALUES { e.len() } else { TOP_VALUES as nat })
    &&& r.hidden == (if e.len() > TOP_VALUES { (e.len() - TOP_VALUES) as nat } else { 0 })
}

/// The report of every field of `freqs`, in field-name order.
pub fn frequency_report(freqs: &FieldFrequencies) -> (r: Vec<FieldReport>)
    requires
        forall|f: Seq<char>| #[trigger] freqs@.contains_key(f) ==> counts_total(freqs@[f]) <= u64::MAX,
    ensures
        names_sorted(r@.map_values(|x: FieldReport| x.field@)),
        forall|f: Seq<char>| freqs@.contains_key(f) <==> r@.map_values(|x: FieldReport| x.field@).contains(f),
        forall|i: int| 0 <= i < r@.len() ==> #[trigger] reports_counts(r@[i], freqs@[r@[i].field@]),
{
    let names = sorted_keys(freqs);
    let ghost nm = names_seq(names@);
    let mut out: Vec<FieldReport> = Vec::new();
    let mut i: usize = 0;
    while i < names.len()
        invariant
            i <= names.len(),
            nm == names_seq(names@),
            names_sorted(nm),
            forall|k: Seq<char>| freqs@.contains_key(k) <==> nm.contains(k),
            forall|f: Seq<char>| #[trigger] freqs@.contains_key(f) ==> counts_total(freqs@[f]) <= u64::MAX,
            out@.map_values(|x: FieldReport| x.field@) == nm.take(i as int),
            forall|j: int| 0 <= j < out@.len() ==> #[trigger] reports_counts(out@[j], freqs@[out@[j].field@]),
        decreases names.len() - i,
    {
        let name = &names[i];
        proof {
            assert(nm.contains(nm[i as int]));
        }
        let counts = freqs.get(name.as_str()).unwrap();
        let entries = ranked_counts(counts);
        let ghost e = counts_seq(entries@);
        proof {
            lemma_pairs_to_map(e);
            lemma_total_empty();
            assert(e.take(0) =~= Seq::<(Seq<char>, u64)>::empty());
            lemma_total_bounded_by_superset(e, 0);
        }
        let mut total: u64 = 0;
        let mut j: usize = 0;
        while j < entries.len()
            invariant
                j <= entries.len(),
                e == counts_seq(entries@),
                distinct_keys(e),
                pairs_to_map(e) == counts@,
                counts_total(counts@) <= u64::MAX,
                pairs_to_map(e.take(j as int)).dom().finite(),
                total == counts_total(pairs_to_map(e.take(j as int))),
                total <= counts_total(counts@),
            decreases entries.len() - j,
        {
            proof {
                assert(e.take(j + 1).drop_last() =~= e.take(j as int));
                assert(distinct_keys(e.take(j as int)));
                lemma_pairs_to_map(e.take(j as int));
                assert(!pairs_to_map(e.take(j as int)).contains_key(e[j as int].0)) by {
                    if pairs_to_map(e.take(j as int)).contains_key(e[j as int].0) {
                        let q = choose|q: int| 0 <= q < j && e.take(j as int)[q].0 == e[j as int].0;
                        assert(e[q].0 == e[j as int].0);
                    }
                }
                lemma_total_insert(pairs_to_map(e.take(j as int)), e[j as int].0, e[j as int].1);
                assert(distinct_keys(e.take(j + 1)));
                lemma_pairs_to_map(e.take(j + 1));
                lemma_total_bounded_by_superset(e, j + 1);
            }
            total = total + entries[j].1;
            j = j + 1;
        }
        proof {
            assert(e.take(entries.len() as int) =~= e);
        }
        let len = entries.len();
        let shown = if len < TOP_VALUES {
            len
        } else {
            TOP_VALUES
        };
        let hidden = if len > TOP_VALUES {
            len - TOP_VALUES
        } else {
            0
        };
        let ghost old_out = out@;
        out.push(FieldReport { field: name.clone(), entries, total, shown, hidden });
        proof {
            let g = |x: FieldReport| x.field@;
            assert(out@.map_values(g) =~= old_out.map_values(g).push(nm[i as int]));
            assert(nm.take(i + 1) =~= nm.take(i as int).push(nm[i as int]));
        }
        i = i + 1;
    }
    proof {
        assert(nm.take(names.len() as int) =~= nm);
    }
    out
}

} // verus!
