//! Data model: matched lines, per-field value counts and the run summary.
use vstd::prelude::*;
use std::time::Duration;

use crate::table::{StrMap, pairs_to_map, distinct_keys, lemma_pairs_to_map};

verus! {

/// Named capture group values of one matched line: group name to text.
pub type CaptureMap = StrMap<String>;

/// How often each value occurred: value to count.
pub type ValueCounts = StrMap<u64>;

/// Per-field value counts: field name to (value to count).
pub type FieldFrequencies = StrMap<StrMap<u64>>;

/// The view of a `ValueCounts`.
pub type CountsView = Map<Seq<char>, u64>;

/// The view of a `FieldFrequencies`.
pub type FreqView = Map<Seq<char>, Map<Seq<char>, u64>>;

/// The count of `k` in `m`, zero when absent.
pub open spec fn count_of(m: CountsView, k: Seq<char>) -> nat {
    if m.contains_key(k) {
        m[k] as nat
    } else {
        0
    }
}

/// The counts recorded for `field`, empty when absent.
pub open spec fn counts_of(f: FreqView, field: Seq<char>) -> CountsView {
    if f.contains_key(field) {
        f[field]
    } else {
        Map::empty()
    }
}

/// Pointwise sum of two count maps over the union of their keys.
pub open spec fn add_counts(a: CountsView, b: CountsView) -> CountsView {
    Map::new(
        |k: Seq<char>| a.contains_key(k) || b.contains_key(k),
        |k: Seq<char>| (count_of(a, k) + count_of(b, k)) as u64,
    )
}

/// Field-wise sum of two frequency tables; every field of either appears.
pub open spec fn merge_frequencies(a: FreqView, b: FreqView) -> FreqView {
    Map::new(
        |f: Seq<char>| a.contains_key(f) || b.contains_key(f),
        |f: Seq<char>| add_counts(counts_of(a, f), counts_of(b, f)),
    )
}

/// Adding the counts of `b` to those of `a` stays within `u64`.
pub open spec fn counts_fit(a: CountsView, b: CountsView) -> bool {
    forall|k: Seq<char>| #[trigger] count_of(a, k) + count_of(b, k) <= u64::MAX
}

/// Merging the tables `a` and `b` keeps every count within `u64`.
pub open spec fn frequencies_fit(a: FreqView, b: FreqView) -> bool {
    forall|f: Seq<char>| #[trigger] counts_fit(counts_of(a, f), counts_of(b, f))
}

/// The sum of all counts of a finite count map.
pub open spec fn counts_total(m: CountsView) -> int
    decreases m.dom().len(),
    when m.dom().finite()
{
    if m.dom().len() == 0 {
        0
    } else {
        let k = m.dom().choose();
        m[k] + counts_total(m.remove(k))
    }
}

/// Taking any one key out of a finite count map lowers its total by that
/// key's count.
pub proof fn lemma_total_remove(m: CountsView, k: Seq<char>)
    requires
        m.dom().finite(),
        m.contains_key(k),
    ensures
        counts_total(m) == m[k] + counts_total(m.remove(k)),
    decreases m.dom().len(),
{
    let c = m.dom().choose();
    if c != k {
        lemma_total_remove(m.remove(c), k);
        lemma_total_remove(m.remove(k), c);
        assert(m.remove(c).remove(k) =~= m.remove(k).remove(c));
    } else {
        assert(m.remove(c) == m.remove(k));
    }
}

/// Storing `v` under `k` changes the total by the difference from the old
/// count.
pub proof fn lemma_total_insert(m: CountsView, k: Seq<char>, v: u64)
    requires
        m.dom().finite(),
    ensures
        counts_total(m.insert(k, v)) == counts_total(m) - count_of(m, k) + v,
{
    let m2 = m.insert(k, v);
    lemma_total_remove(m2, k);
    if m.contains_key(k) {
        lemma_total_remove(m, k);
        assert(m2.remove(k) =~= m.remove(k));
    } else {
        assert(m2.remove(k) =~= m);
    }
}

/// The total of the empty count map is zero.
pub proof fn lemma_total_empty()
    ensures
        counts_total(Map::<Seq<char>, u64>::empty()) == 0,
{
    assert(Map::<Seq<char>, u64>::empty().dom() =~= Set::empty());
}

/// Merging adds counts: after a merge that stays within `u64`, each value's
/// count under each field is the sum of its counts in the two tables, and a
/// field (or a value under it) is present exactly when it is present in
/// either.
pub proof fn lemma_merge_counts(a: FreqView, b: FreqView, f: Seq<char>, v: Seq<char>)
    requires
        count_of(counts_of(a, f), v) + count_of(counts_of(b, f), v) <= u64::MAX,
    ensures
        count_of(counts_of(merge_frequencies(a, b), f), v) == count_of(counts_of(a, f), v) + count_of(
            counts_of(b, f),
            v,
        ),
        merge_frequencies(a, b).contains_key(f) <==> (a.contains_key(f) || b.contains_key(f)),
        counts_of(merge_frequencies(a, b), f).contains_key(v) <==> (counts_of(a, f).contains_key(v)
            || counts_of(b, f).contains_key(v)),
{
    if !(a.contains_key(f) || b.contains_key(f)) {
        assert(counts_of(merge_frequencies(a, b), f) == Map::<Seq<char>, u64>::empty());
    }
}

/// Merging batch frequencies does not depend on the order of the two
/// operands: batches may be merged in any order.
pub proof fn lemma_merge_commutative(a: FreqView, b: FreqView)
    ensures
        merge_frequencies(a, b) == merge_frequencies(b, a),
{
    assert forall|f: Seq<char>| #[trigger] merge_frequencies(a, b).contains_key(f) implies merge_frequencies(a, b)[f]
        == merge_frequencies(b, a)[f] by {
        assert(add_counts(counts_of(a, f), counts_of(b, f)) =~= add_counts(counts_of(b, f), counts_of(a, f)));
    }
    assert(merge_frequencies(a, b) =~= merge_frequencies(b, a));
}

/// Merging frequencies is associative, so batch results may be grouped in
/// any way (as long as no count leaves `u64`).
pub proof fn lemma_merge_associative(a: FreqView, b: FreqView, c: FreqView)
    requires
        forall|f: Seq<char>, k: Seq<char>|
            count_of(counts_of(a, f), k) + count_of(counts_of(b, f), k) + count_of(counts_of(c, f), k)
                <= u64::MAX,
    ensures
        merge_frequencies(merge_frequencies(a, b), c) == merge_frequencies(a, merge_frequencies(b, c)),
{
    let l = merge_frequencies(merge_frequencies(a, b), c);
    let r = merge_frequencies(a, merge_frequencies(b, c));
    assert forall|f: Seq<char>| #[trigger] l.contains_key(f) implies l[f] == r[f] by {
        let (x, y, z) = (counts_of(a, f), counts_of(b, f), counts_of(c, f));
        assert forall|k: Seq<char>| #[trigger] l[f].contains_key(k) implies l[f][k] == r[f][k] by {
            assert(count_of(x, k) + count_of(y, k) + count_of(z, k) <= u64::MAX);
        }
        assert(l[f] =~= r[f]);
    }
    assert(l =~= r);
}

/// Merging an empty batch leaves the frequencies as they were.
pub proof fn lemma_merge_empty(a: FreqView)
    ensures
        merge_frequencies(a, Map::empty()) == a,
{
    assert forall|f: Seq<char>| #[trigger] a.contains_key(f) implies merge_frequencies(a, Map::empty())[f] == a[f] by {
        assert(add_counts(counts_of(a, f), counts_of(Map::empty(), f)) =~= a[f]);
    }
    assert(merge_frequencies(a, Map::empty()) =~= a);
}

/// The zero duration.
///
/// Trusted: wraps the constant `Duration::ZERO` of std; `Duration` is opaque
/// to the verifier, so nothing is stated of the value.
#[verifier::external_body]
fn zero_duration() -> Duration {
    Duration::ZERO
}

proof fn lemma_add_counts_step(a: CountsView, t: Seq<(Seq<char>, u64)>, j: int)
    requires
        distinct_keys(t),
        0 <= j < t.len(),
    ensures
        add_counts(a, pairs_to_map(t.take(j + 1))) == add_counts(a, pairs_to_map(t.take(j))).insert(
            t[j].0,
            (count_of(add_counts(a, pairs_to_map(t.take(j))), t[j].0) + t[j].1) as u64,
        ),
{
    let p = t.take(j);
    let q = t.take(j + 1);
    assert(q.drop_last() =~= p);
    assert(distinct_keys(p));
    lemma_pairs_to_map(p);
    assert(!pairs_to_map(p).contains_key(t[j].0)) by {
        if pairs_to_map(p).contains_key(t[j].0) {
            let i = choose|i: int| 0 <= i < p.len() && p[i].0 == t[j].0;
            assert(t[i].0 == t[j].0);
        }
    }
    assert(add_counts(a, pairs_to_map(q)) =~= add_counts(a, pairs_to_map(p)).insert(
        t[j].0,
        (count_of(add_counts(a, pairs_to_map(p)), t[j].0) + t[j].1) as u64,
    ));
}

proof fn lemma_merge_step(a: FreqView, t: Seq<(Seq<char>, CountsView)>, j: int)
    requires
        distinct_keys(t),
        0 <= j < t.len(),
    ensures
        merge_frequencies(a, pairs_to_map(t.take(j + 1))) == merge_frequencies(
            a,
            pairs_to_map(t.take(j)),
        ).insert(
            t[j].0,
            add_counts(counts_of(merge_frequencies(a, pairs_to_map(t.take(j))), t[j].0), t[j].1),
        ),
{
    let p = t.take(j);
    let q = t.take(j + 1);
    assert(q.drop_last() =~= p);
    assert(distinct_keys(p));
    lemma_pairs_to_map(p);
    assert(!pairs_to_map(p).contains_key(t[j].0)) by {
        if pairs_to_map(p).contains_key(t[j].0) {
            let i = choose|i: int| 0 <= i < p.len() && p[i].0 == t[j].0;
            assert(t[i].0 == t[j].0);
        }
    }
    let f = t[j].0;
    let lhs = merge_frequencies(a, pairs_to_map(q));
    let rhs = merge_frequencies(a, pairs_to_map(p)).insert(
        f,
        add_counts(counts_of(merge_frequencies(a, pairs_to_map(p)), f), t[j].1),
    );
    assert(counts_of(merge_frequencies(a, pairs_to_map(p)), f) =~= add_counts(counts_of(a, f), Map::empty()));
    assert(add_counts(add_counts(counts_of(a, f), Map::empty()), t[j].1) =~= add_counts(counts_of(a, f), t[j].1));
    assert(lhs =~= rhs);
}

impl StrMap<u64> {
    /// Adds `n` to the count of `key`, starting from zero for a new key.
    pub fn add_count(&mut self, key: &String, n: u64)
        requires
            count_of(old(self)@, key@) + n <= u64::MAX,
        ensures
            final(self)@ == old(self)@.insert(key@, (count_of(old(self)@, key@) + n) as u64),
    {
        proof {
            use_type_invariant(&*self);
            self.lemma_pairs();
            lemma_pairs_to_map(self.pairs());
        }
        match self.position(key.as_str()) {
            Some(i) => {
                let (k, c) = self.remove_at(i);
                self.insert_at(i, k, c + n);
                assert(final(self)@ =~= old(self)@.insert(key@, (count_of(old(self)@, key@) + n) as u64));
            },
            None => {
                self.insert(key.clone(), n);
            },
        }
    }

    /// Adds every count of `other` to this map.
    pub fn add_all(&mut self, other: &StrMap<u64>)
        requires
            counts_fit(old(self)@, other@),
        ensures
            final(self)@ == add_counts(old(self)@, other@),
    {
        proof {
            use_type_invariant(other);
            other.lemma_pairs();
        }
        let ghost t = other.pairs();
        let n = other.len();
        assert(add_counts(old(self)@, pairs_to_map(t.take(0))) =~= old(self)@) by {
            assert(t.take(0) =~= Seq::<(Seq<char>, u64)>::empty());
        }
        let mut j: usize = 0;
        while j < n
            invariant
                n == t.len(),
                j <= n,
                t == other.pairs(),
                distinct_keys(t),
                pairs_to_map(t) == other@,
                counts_fit(old(self)@, other@),
                self@ == add_counts(old(self)@, pairs_to_map(t.take(j as int))),
            decreases n - j,
        {
            let k = other.key_at(j);
            let c = *other.value_at(j);
            proof {
                lemma_add_counts_step(old(self)@, t, j as int);
                lemma_pairs_to_map(t);
                lemma_pairs_to_map(t.take(j as int));
                assert(distinct_keys(t.take(j as int)));
                assert(!pairs_to_map(t.take(j as int)).contains_key(t[j as int].0)) by {
                    if pairs_to_map(t.take(j as int)).contains_key(t[j as int].0) {
                        let i = choose|i: int| 0 <= i < j && t.take(j as int)[i].0 == t[j as int].0;
                        assert(t[i].0 == t[j as int].0);
                    }
                }
                assert(count_of(old(self)@, k@) + count_of(other@, k@) <= u64::MAX);
                assert(count_of(other@, k@) == c);
            }
            self.add_count(k, c);
            j = j + 1;
        }
        assert(t.take(n as int) =~= t);
    }
}

impl StrMap<StrMap<u64>> {
    /// The count of `value` under `field`, zero when either is absent.
    pub fn count(&self, field: &str, value: &str) -> (c: u64)
        ensures
            c == count_of(counts_of(self@, field@), value@),
    {
        match self.get(field) {
            Some(counts) => match counts.get(value) {
                Some(c) => *c,
                None => 0,
            },
            None => 0,
        }
    }
    /// Adds `n` to the count of `value` under `field`, creating either as
    /// needed.
    pub fn add_field_count(&mut self, field: &String, value: &String, n: u64)
        requires
            count_of(counts_of(old(self)@, field@), value@) + n <= u64::MAX,
        ensures
            final(self)@ == old(self)@.insert(
                field@,
                counts_of(old(self)@, field@).insert(
                    value@,
                    (count_of(counts_of(old(self)@, field@), value@) + n) as u64,
                ),
            ),
    {
        proof {
            use_type_invariant(&*self);
            self.lemma_pairs();
            lemma_pairs_to_map(self.pairs());
        }
        match self.position(field.as_str()) {
            Some(i) => {
                let (k, mut inner) = self.remove_at(i);
                inner.add_count(value, n);
                self.insert_at(i, k, inner);
                assert(final(self)@ =~= old(self)@.insert(
                    field@,
                    counts_of(old(self)@, field@).insert(
                        value@,
                        (count_of(counts_of(old(self)@, field@), value@) + n) as u64,
                    ),
                ));
            },
            None => {
                let mut inner: StrMap<u64> = StrMap::new();
                inner.add_count(value, n);
                self.insert(field.clone(), inner);
            },
        }
    }

    /// Adds `counts` to the counts of `field`, creating the field if needed.
    pub fn add_field_counts(&mut self, field: &String, counts: &StrMap<u64>)
        requires
            counts_fit(counts_of(old(self)@, field@), counts@),
        ensures
            final(self)@ == old(self)@.insert(
                field@,
                add_counts(counts_of(old(self)@, field@), counts@),
            ),
    {
        proof {
            use_type_invariant(&*self);
            self.lemma_pairs();
            lemma_pairs_to_map(self.pairs());
        }
        match self.position(field.as_str()) {
            Some(i) => {
                let (k, mut inner) = self.remove_at(i);
                inner.add_all(counts);
                self.insert_at(i, k, inner);
                assert(final(self)@ =~= old(self)@.insert(
                    field@,
                    add_counts(counts_of(old(self)@, field@), counts@),
                ));
            },
            None => {
                let mut inner: StrMap<u64> = StrMap::new();
                inner.add_all(counts);
                self.insert(field.clone(), inner);
            },
        }
    }
}

/// A single matched log line with its named capture group values.
///
/// A regex with named groups such as `(?P<level>\w+)` fills `captures` with
/// `level` to the matched text; a line matched by a regex without named
/// groups has empty `captures`.
pub struct ParsedLine {
    /// 1-based line number in the source.
    pub line_number: u64,
    /// The text of the matched line.
    pub raw: String,
    /// Named capture group values extracted from the line.
    pub captures: CaptureMap,
}

/// The view of a parsed line: line number, text and capture values.
pub type ParsedView = (u64, Seq<char>, Map<Seq<char>, Seq<char>>);

impl View for ParsedLine {
    type V = ParsedView;

    open spec fn view(&self) -> ParsedView {
        (self.line_number, self.raw@, self.captures@)
    }
}

/// Aggregated statistics accumulated across a whole input.
pub struct Summary {
    /// Total number of lines read.
    pub total_lines: u64,
    /// Number of lines that matched the regex.
    pub matched_lines: u64,
    /// Total bytes read.
    pub bytes_processed: u64,
    /// Per-field value frequencies: field name to (value to count).
    pub field_frequencies: FieldFrequencies,
    /// Wall-clock time of the run.
    pub elapsed: Duration,
}

impl Summary {
    /// A zeroed summary.
    pub fn new() -> (s: Self)
        ensures
            s.total_lines == 0,
            s.matched_lines == 0,
            s.bytes_processed == 0,
            s.field_frequencies@ == FreqView::empty(),
    {
        Summary {
            total_lines: 0,
            matched_lines: 0,
            bytes_processed: 0,
            field_frequencies: StrMap::new(),
            elapsed: zero_duration(),
        }
    }

    /// Merges a batch result, `matched` lines with frequencies `freqs`, into
    /// this summary.
    pub fn merge_batch(&mut self, matched: u64, freqs: FieldFrequencies)
        requires
            old(self).matched_lines + matched <= u64::MAX,
            frequencies_fit(old(self).field_frequencies@, freqs@),
        ensures
            final(self).matched_lines == old(self).matched_lines + matched,
            final(self).field_frequencies@ == merge_frequencies(
                old(self).field_frequencies@,
                freqs@,
            ),
            final(self).total_lines == old(self).total_lines,
            final(self).bytes_processed == old(self).bytes_processed,
            final(self).elapsed == old(self).elapsed,
    {
        self.matched_lines = self.matched_lines + matched;
        proof {
            use_type_invariant(&freqs);
            freqs.lemma_pairs();
        }
        let ghost a = old(self).field_frequencies@;
        let ghost t = freqs.pairs();
        let n = freqs.len();
        assert(merge_frequencies(a, pairs_to_map(t.take(0))) =~= a) by {
            assert(t.take(0) =~= Seq::<(Seq<char>, CountsView)>::empty());
            assert forall|f: Seq<char>| a.contains_key(f) implies add_counts(counts_of(a, f), counts_of(Map::empty(), f)) =~= a[f] by {
            }
        }
        let mut j: usize = 0;
        while j < n
            invariant
                n == t.len(),
                j <= n,
                t == freqs.pairs(),
                distinct_keys(t),
                pairs_to_map(t) == freqs@,
                frequencies_fit(a, freqs@),
                self.field_frequencies@ == merge_frequencies(a, pairs_to_map(t.take(j as int))),
                self.matched_lines == old(self).matched_lines + matched,
                self.total_lines == old(self).total_lines,
                self.bytes_processed == old(self).bytes_processed,
                self.elapsed == old(self).elapsed,
            decreases n - j,
        {
            let f = freqs.key_at(j);
            let c = freqs.value_at(j);
            proof {
                lemma_merge_step(a, t, j as int);
                lemma_pairs_to_map(t);
                lemma_pairs_to_map(t.take(j as int));
                assert(distinct_keys(t.take(j as int)));
                assert(!pairs_to_map(t.take(j as int)).contains_key(t[j as int].0)) by {
                    if pairs_to_map(t.take(j as int)).contains_key(t[j as int].0) {
                        let i = choose|i: int| 0 <= i < j && t.take(j as int)[i].0 == t[j as int].0;
                        assert(t[i].0 == t[j as int].0);
                    }
                }
                let cur = counts_of(self.field_frequencies@, f@);
                assert(cur =~= add_counts(counts_of(a, f@), Map::empty()));
                assert(counts_of(freqs@, f@) == c@);
                assert(counts_fit(counts_of(a, f@), c@));
                assert forall|k: Seq<char>| #[trigger] count_of(cur, k) + count_of(c@, k) <= u64::MAX by {
                    assert(count_of(counts_of(a, f@), k) + count_of(c@, k) <= u64::MAX);
                }
            }
            self.field_frequencies.add_field_counts(f, c);
            j = j + 1;
        }
        assert(t.take(n as int) =~= t);
    }
}

impl Default for Summary {
    fn default() -> (s: Self)
        ensures
            s.total_lines == 0,
            s.matched_lines == 0,
            s.bytes_processed == 0,
            s.field_frequencies@ == FreqView::empty(),
    {
        Self::new()
    }
}

} // verus!
