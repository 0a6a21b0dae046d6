//! The log processing engine: matching batches of lines against a pattern
//! and accumulating field frequencies.
use vstd::prelude::*;

use crate::cli::OutputMode;
use crate::models::{
    CaptureMap, FieldFrequencies, FreqView, ParsedLine, ParsedView, Summary, count_of, counts_of,
    add_counts, merge_frequencies, counts_total, lemma_total_insert, lemma_total_empty,
    frequencies_fit, counts_fit,
};
use crate::pattern::{LinePattern, line_fields};
use crate::table::{StrMap, pairs_to_map, distinct_keys, lemma_pairs_to_map};
use rayon::iter::{IndexedParallelIterator, IntoParallelRefIterator, ParallelIterator};

verus! {

/// Every count in `f` is at most `b`.
pub open spec fn counts_within(f: FreqView, b: int) -> bool {
    forall|field: Seq<char>, value: Seq<char>| #[trigger] count_of(counts_of(f, field), value) <= b
}

/// `f` after recording one matched line with capture values `caps`: for
/// each captured field, the count of its value goes up by one.
pub open spec fn record_line(f: FreqView, caps: Map<Seq<char>, Seq<char>>) -> FreqView {
    Map::new(
        |field: Seq<char>| f.contains_key(field) || caps.contains_key(field),
        |field: Seq<char>|
            if caps.contains_key(field) {
                counts_of(f, field).insert(
                    caps[field],
                    (count_of(counts_of(f, field), caps[field]) + 1) as u64,
                )
            } else {
                f[field]
            },
    )
}

/// `f` after recording each of `lines` in order.
pub open spec fn record_lines(f: FreqView, lines: Seq<Map<Seq<char>, Seq<char>>>) -> FreqView
    decreases lines.len(),
{
    if lines.len() == 0 {
        f
    } else {
        record_line(record_lines(f, lines.drop_last()), lines.last())
    }
}

/// The view of a batch of numbered lines.
pub open spec fn batch_view(b: Seq<(u64, String)>) -> Seq<(u64, Seq<char>)> {
    b.map_values(|e: (u64, String)| (e.0, e.1@))
}

/// The lines of `batch` that `pattern` matches, in order, each with its
/// number, text and named capture values.
pub open spec fn matched_lines(pattern: Seq<char>, batch: Seq<(u64, Seq<char>)>) -> Seq<ParsedView>
    decreases batch.len(),
{
    if batch.len() == 0 {
        Seq::empty()
    } else {
        let prev = matched_lines(pattern, batch.drop_last());
        let (n, line) = batch.last();
        match line_fields(pattern, line) {
            Some(caps) => prev.push((n, line, caps)),
            None => prev,
        }
    }
}

/// Whether `pattern` matches the line of a numbered line.
pub open spec fn line_matches(pattern: Seq<char>) -> spec_fn((u64, Seq<char>)) -> bool {
    |e: (u64, Seq<char>)| line_fields(pattern, e.1) is Some
}

/// A line is among the matched lines exactly when the pattern matches it,
/// whatever its length: there are as many matched lines as matching lines
/// in the batch.
pub proof fn lemma_matched_count(pattern: Seq<char>, batch: Seq<(u64, Seq<char>)>)
    ensures
        matched_lines(pattern, batch).len() == batch.filter(line_matches(pattern)).len(),
    decreases batch.len(),
{
    reveal(Seq::filter);
    if batch.len() > 0 {
        lemma_matched_count(pattern, batch.drop_last());
    }
}

/// The matched lines are the matching lines of the batch, in batch order,
/// each with its own number and its full text: `idx` gives the position in
/// the batch of each matched line, positions increase, every matching line
/// has a position, and each entry carries the captures of its line.
pub proof fn lemma_matched_lines_from_batch(pattern: Seq<char>, batch: Seq<(u64, Seq<char>)>) -> (idx: Seq<int>)
    ensures
        idx.len() == matched_lines(pattern, batch).len(),
        forall|k: int| 0 <= k < idx.len() ==> 0 <= #[trigger] idx[k] < batch.len(),
        forall|k: int, l: int| 0 <= k < l < idx.len() ==> #[trigger] idx[k] < #[trigger] idx[l],
        forall|k: int|
            0 <= k < idx.len() ==> {
                let p = #[trigger] matched_lines(pattern, batch)[k];
                &&& p.0 == batch[idx[k]].0
                &&& p.1 == batch[idx[k]].1
                &&& line_fields(pattern, batch[idx[k]].1) == Some(p.2)
            },
        forall|i: int|
            0 <= i < batch.len() && line_fields(pattern, #[trigger] batch[i].1) is Some ==> exists|k: int|
                0 <= k < idx.len() && idx[k] == i,
    decreases batch.len(),
{
    if batch.len() == 0 {
        Seq::empty()
    } else {
        let prev = batch.drop_last();
        let pidx = lemma_matched_lines_from_batch(pattern, prev);
        let last = batch.len() - 1;
        assert forall|i: int| 0 <= i < prev.len() implies prev[i] == batch[i] by {}
        let (n, line) = batch.last();
        let mp = matched_lines(pattern, prev);
        match line_fields(pattern, line) {
            Some(caps) => {
                let idx = pidx.push(last);
                let m = matched_lines(pattern, batch);
                assert(m == mp.push((n, line, caps)));
                assert forall|k: int| 0 <= k < idx.len() implies {
                    let p = #[trigger] matched_lines(pattern, batch)[k];
                    &&& p.0 == batch[idx[k]].0
                    &&& p.1 == batch[idx[k]].1
                    &&& line_fields(pattern, batch[idx[k]].1) == Some(p.2)
                } by {
                    if k < pidx.len() {
                        assert(m[k] == mp[k]);
                        assert(idx[k] == pidx[k]);
                        assert(batch[pidx[k]] == prev[pidx[k]]);
                    }
                }
                assert forall|i: int| 0 <= i < batch.len() && line_fields(pattern, #[trigger] batch[i].1) is Some implies exists|k: int|
                    0 <= k < idx.len() && idx[k] == i by {
                    if i < last {
                        assert(prev[i] == batch[i]);
                        let k = choose|k: int| 0 <= k < pidx.len() && pidx[k] == i;
                        assert(idx[k] == i);
                    } else {
                        assert(idx[idx.len() - 1] == i);
                    }
                }
                assert forall|k: int, l: int| 0 <= k < l < idx.len() implies #[trigger] idx[k] < #[trigger] idx[l] by {
                    if l < pidx.len() {
                        assert(idx[k] == pidx[k] && idx[l] == pidx[l]);
                    } else {
                        assert(idx[k] == pidx[k]);
                    }
                }
                idx
            },
            None => {
                assert forall|k: int| 0 <= k < pidx.len() implies {
                    let p = #[trigger] matched_lines(pattern, batch)[k];
                    &&& p.0 == batch[pidx[k]].0
                    &&& p.1 == batch[pidx[k]].1
                    &&& line_fields(pattern, batch[pidx[k]].1) == Some(p.2)
                } by {
                    assert(batch[pidx[k]] == prev[pidx[k]]);
                }
                assert forall|i: int| 0 <= i < batch.len() && line_fields(pattern, #[trigger] batch[i].1) is Some implies exists|k: int|
                    0 <= k < pidx.len() && pidx[k] == i by {
                    assert(i < last);
                    assert(prev[i] == batch[i]);
                }
                pidx
            },
        }
    }
}

/// The capture values of parsed lines.
pub open spec fn captures_of_lines(parsed: Seq<ParsedView>) -> Seq<Map<Seq<char>, Seq<char>>> {
    parsed.map_values(|p: ParsedView| p.2)
}

/// The field frequencies of the matched lines of `batch`.
pub open spec fn batch_frequencies(pattern: Seq<char>, batch: Seq<(u64, Seq<char>)>) -> FreqView {
    record_lines(Map::empty(), captures_of_lines(matched_lines(pattern, batch)))
}

proof fn lemma_matched_len(pattern: Seq<char>, batch: Seq<(u64, Seq<char>)>)
    ensures
        matched_lines(pattern, batch).len() <= batch.len(),
    decreases batch.len(),
{
    if batch.len() > 0 {
        lemma_matched_len(pattern, batch.drop_last());
    }
}

proof fn lemma_record_line_bound(f: FreqView, caps: Map<Seq<char>, Seq<char>>, b: int)
    requires
        counts_within(f, b),
    ensures
        counts_within(record_line(f, caps), b + 1),
{
    assert forall|field: Seq<char>, value: Seq<char>|
        #[trigger] count_of(counts_of(record_line(f, caps), field), value) <= b + 1 by {
        assert(count_of(counts_of(f, field), value) <= b);
    }
}

proof fn lemma_record_lines_bound(f: FreqView, lines: Seq<Map<Seq<char>, Seq<char>>>, b: int)
    requires
        counts_within(f, b),
    ensures
        counts_within(record_lines(f, lines), b + lines.len()),
    decreases lines.len(),
{
    if lines.len() > 0 {
        lemma_record_lines_bound(f, lines.drop_last(), b);
        lemma_record_line_bound(record_lines(f, lines.drop_last()), lines.last(), b + lines.len() - 1);
    }
}

/// The number of lines among `lines` that captured `field`.
pub open spec fn lines_capturing(lines: Seq<Map<Seq<char>, Seq<char>>>, field: Seq<char>) -> nat {
    lines.filter(has_field(field)).len()
}

/// Whether a line's capture values include `field`.
pub open spec fn has_field(field: Seq<char>) -> spec_fn(Map<Seq<char>, Seq<char>>) -> bool {
    |c: Map<Seq<char>, Seq<char>>| c.contains_key(field)
}

/// The counts of a field add up to the number of recorded lines that
/// captured it, which is at most the number of lines: a field captured by
/// every matched line has counts that sum to the matched lines.
pub proof fn lemma_field_total(lines: Seq<Map<Seq<char>, Seq<char>>>, field: Seq<char>)
    requires
        lines.len() <= u64::MAX,
    ensures
        counts_of(record_lines(Map::empty(), lines), field).dom().finite(),
        counts_total(counts_of(record_lines(Map::empty(), lines), field)) == lines_capturing(lines, field),
        lines_capturing(lines, field) <= lines.len(),
    decreases lines.len(),
{
    let p = has_field(field);
    if lines.len() == 0 {
        assert(counts_of(Map::<Seq<char>, Map<Seq<char>, u64>>::empty(), field) =~= Map::empty());
        lemma_total_empty();
        assert(lines.filter(p).len() == 0) by {
            reveal(Seq::filter);
        }
    } else {
        let prev = lines.drop_last();
        let c = lines.last();
        lemma_field_total(prev, field);
        let e: FreqView = Map::empty();
        assert(counts_within(e, 0));
        lemma_record_lines_bound(e, prev, 0);
        let r = record_lines(e, prev);
        assert(lines.filter(p) == if p(c) { prev.filter(p).push(c) } else { prev.filter(p) }) by {
            reveal(Seq::filter);
        }
        if c.contains_key(field) {
            let m = counts_of(r, field);
            let v = c[field];
            assert(count_of(m, v) <= prev.len());
            assert(counts_of(record_line(r, c), field) == m.insert(v, (count_of(m, v) + 1) as u64));
            lemma_total_insert(m, v, (count_of(m, v) + 1) as u64);
        } else {
            assert(counts_of(record_line(r, c), field) == counts_of(r, field));
        }
    }
}

/// Whether a line's capture values hold `value` under `field`.
pub open spec fn has_value(field: Seq<char>, value: Seq<char>) -> spec_fn(Map<Seq<char>, Seq<char>>) -> bool {
    |c: Map<Seq<char>, Seq<char>>| c.contains_key(field) && c[field] == value
}

/// The number of lines among `lines` that captured `value` under `field`.
pub open spec fn lines_with_value(
    lines: Seq<Map<Seq<char>, Seq<char>>>,
    field: Seq<char>,
    value: Seq<char>,
) -> nat {
    lines.filter(has_value(field, value)).len()
}

/// The tally of `lines` counts, for each field and value, the lines that
/// captured that value under that field; it holds exactly the fields some
/// line captured and, under each, exactly the values with a positive count.
pub proof fn lemma_tally_counts(lines: Seq<Map<Seq<char>, Seq<char>>>, field: Seq<char>, value: Seq<char>)
    requires
        lines.len() <= u64::MAX,
    ensures
        count_of(counts_of(record_lines(Map::empty(), lines), field), value) == lines_with_value(
            lines,
            field,
            value,
        ),
        counts_of(record_lines(Map::empty(), lines), field).contains_key(value) <==> lines_with_value(
            lines,
            field,
            value,
        ) > 0,
        record_lines(Map::empty(), lines).contains_key(field) <==> lines_capturing(lines, field) > 0,
    decreases lines.len(),
{
    let p = has_value(field, value);
    let q = has_field(field);
    if lines.len() == 0 {
        assert(lines.filter(p).len() == 0) by {
            reveal(Seq::filter);
        }
        assert(lines.filter(q).len() == 0) by {
            reveal(Seq::filter);
        }
    } else {
        let prev = lines.drop_last();
        let c = lines.last();
        lemma_tally_counts(prev, field, value);
        let e: FreqView = Map::empty();
        assert(counts_within(e, 0));
        lemma_record_lines_bound(e, prev, 0);
        let r = record_lines(e, prev);
        assert(lines.filter(p) == if p(c) { prev.filter(p).push(c) } else { prev.filter(p) }) by {
            reveal(Seq::filter);
        }
        assert(lines.filter(q) == if q(c) { prev.filter(q).push(c) } else { prev.filter(q) }) by {
            reveal(Seq::filter);
        }
        assert(count_of(counts_of(r, field), value) <= prev.len());
    }
}

/// The frequency table of a batch is the tally of the capture values of its
/// matched lines, the lines that the JSON mode emits: each value's count is
/// the number of those lines that captured it under its field.
pub proof fn lemma_batch_tally(
    pattern: Seq<char>,
    batch: Seq<(u64, Seq<char>)>,
    field: Seq<char>,
    value: Seq<char>,
)
    requires
        batch.len() <= u64::MAX,
    ensures
        count_of(counts_of(batch_frequencies(pattern, batch), field), value) == lines_with_value(
            captures_of_lines(matched_lines(pattern, batch)),
            field,
            value,
        ),
        counts_of(batch_frequencies(pattern, batch), field).contains_key(value) <==> lines_with_value(
            captures_of_lines(matched_lines(pattern, batch)),
            field,
            value,
        ) > 0,
        batch_frequencies(pattern, batch).contains_key(field) <==> lines_capturing(
            captures_of_lines(matched_lines(pattern, batch)),
            field,
        ) > 0,
{
    lemma_matched_len(pattern, batch);
    lemma_tally_counts(captures_of_lines(matched_lines(pattern, batch)), field, value);
}

proof fn lemma_record_step(f: FreqView, t: Seq<(Seq<char>, Seq<char>)>, j: int)
    requires
        distinct_keys(t),
        0 <= j < t.len(),
    ensures
        record_line(f, pairs_to_map(t.take(j + 1))) == record_line(f, pairs_to_map(t.take(j))).insert(
            t[j].0,
            counts_of(record_line(f, pairs_to_map(t.take(j))), t[j].0).insert(
                t[j].1,
                (count_of(counts_of(record_line(f, pairs_to_map(t.take(j))), t[j].0), t[j].1)
                    + 1) as u64,
            ),
        ),
{
    let p = t.take(j);
    let q = t.take(j + 1);
    assert(q.drop_last() =~= p);
    assert(distinct_keys(p));
    lemma_pairs_to_map(p);
    assert(!pairs_to_map(p).contains_key(t[j].0)) by {
        if pairs_to_map(p).contains_key(t[j].0) {
            let i = choose|i: int| 0 <= i < p.len() && p[i].0 == t[j].0;
            assert(t[i].0 == t[j].0);
        }
    }
    let field = t[j].0;
    let r = record_line(f, pairs_to_map(p));
    assert(counts_of(r, field) == counts_of(f, field));
    assert(record_line(f, pairs_to_map(q)) =~= r.insert(
        field,
        counts_of(r, field).insert(t[j].1, (count_of(counts_of(r, field), t[j].1) + 1) as u64),
    ));
}

/// Records one matched line's capture values: the count of each captured
/// value under its field goes up by one.
pub fn record_captures(freqs: &mut FieldFrequencies, caps: &CaptureMap)
    requires
        forall|field: Seq<char>|
            #[trigger] caps@.contains_key(field) ==> count_of(counts_of(old(freqs)@, field), caps@[field])
                < u64::MAX,
    ensures
        final(freqs)@ == record_line(old(freqs)@, caps@),
{
    proof {
        use_type_invariant(caps);
        caps.lemma_pairs();
    }
    let ghost f0 = old(freqs)@;
    let ghost t = caps.pairs();
    let n = caps.len();
    assert(record_line(f0, pairs_to_map(t.take(0))) =~= f0) by {
        assert(t.take(0) =~= Seq::<(Seq<char>, Seq<char>)>::empty());
    }
    let mut j: usize = 0;
    while j < n
        invariant
            n == t.len(),
            j <= n,
            t == caps.pairs(),
            distinct_keys(t),
            pairs_to_map(t) == caps@,
            forall|field: Seq<char>|
                #[trigger] caps@.contains_key(field) ==> count_of(counts_of(f0, field), caps@[field])
                    < u64::MAX,
            freqs@ == record_line(f0, pairs_to_map(t.take(j as int))),
        decreases n - j,
    {
        let field = caps.key_at(j);
        let value = caps.value_at(j);
        proof {
            lemma_record_step(f0, t, j as int);
            lemma_pairs_to_map(t.take(j as int));
            assert(distinct_keys(t.take(j as int)));
            assert(!pairs_to_map(t.take(j as int)).contains_key(t[j as int].0)) by {
                if pairs_to_map(t.take(j as int)).contains_key(t[j as int].0) {
                    let i = choose|i: int| 0 <= i < j && t.take(j as int)[i].0 == t[j as int].0;
                    assert(t[i].0 == t[j as int].0);
                }
            }
            assert(counts_of(freqs@, field@) == counts_of(f0, field@));
            lemma_pairs_to_map(t);
            assert(pairs_to_map(t).contains_key(t[j as int].0));
            assert(caps@.contains_key(field@) && caps@[field@] == value@);
        }
        freqs.add_field_count(field, value, 1);
        j = j + 1;
    }
    assert(t.take(n as int) =~= t);
}

/// Whether `r` is what matching `line` against `pattern` gives.
pub open spec fn match_result(pattern: Seq<char>, line: Seq<char>, r: Option<CaptureMap>) -> bool {
    match r {
        Some(m) => line_fields(pattern, line) == Some(m@),
        None => line_fields(pattern, line) is None,
    }
}

/// Matches every line of a batch, in parallel.
///
/// Trusted: wraps rayon's `par_iter().map(..).collect_into_vec(..)` over the
/// batch; the closure only calls the verified `LinePattern::match_line`.
/// Rayon's `collect_into_vec` on an indexed parallel iterator fills the
/// vector with one result per input element, in input order.
#[verifier::external_body]
fn match_batch(batch: &[(u64, String)], pattern: &LinePattern) -> (r: Vec<Option<CaptureMap>>)
    ensures
        r@.len() == batch@.len(),
        forall|i: int| 0 <= i < batch@.len() ==> match_result(pattern@, batch@[i].1@, #[trigger] r@[i]),
{
    let mut out = Vec::new();
    batch.par_iter().map(|(_, line)| pattern.match_line(line.as_str())).collect_into_vec(&mut out);
    out
}

/// Matches every line of a batch and returns the matched lines, in order,
/// with their named capture values.
pub fn process_batch_json(batch: &[(u64, String)], pattern: &LinePattern) -> (r: Vec<ParsedLine>)
    ensures
        r@.map_values(|p: ParsedLine| p@) == matched_lines(pattern@, batch_view(batch@)),
{
    let matches = match_batch(batch, pattern);
    let ghost bv = batch_view(batch@);
    let ghost ms = matches@;
    let mut out: Vec<ParsedLine> = Vec::new();
    let mut i: usize = 0;
    for m in it: matches.into_iter()
        invariant
            i == it.index(),
            it.seq() == ms,
            ms.len() == batch@.len(),
            bv == batch_view(batch@),
            forall|k: int| 0 <= k < batch@.len() ==> match_result(pattern@, batch@[k].1@, #[trigger] ms[k]),
            out@.map_values(|p: ParsedLine| p@) == matched_lines(pattern@, bv.take(i as int)),
    {
        let (n, line) = &batch[i];
        proof {
            assert(bv.take(i + 1).drop_last() =~= bv.take(i as int));
            assert(match_result(pattern@, batch@[i as int].1@, ms[i as int]));
        }
        match m {
            Some(caps) => {
                out.push(ParsedLine { line_number: *n, raw: line.clone(), captures: caps });
            },
            None => {},
        }
        i = i + 1;
        proof {
            assert(out@.map_values(|p: ParsedLine| p@) =~= matched_lines(pattern@, bv.take(i as int)));
        }
    }
    assert(bv.take(batch.len() as int) =~= bv);
    out
}

/// Matches every line of a batch and returns the number of matched lines and
/// the frequencies of their named capture values.
pub fn process_batch_summary(batch: &[(u64, String)], pattern: &LinePattern) -> (r: (
    u64,
    FieldFrequencies,
))
    ensures
        r.0 == matched_lines(pattern@, batch_view(batch@)).len(),
        r.1@ == batch_frequencies(pattern@, batch_view(batch@)),
{
    let ghost bv = batch_view(batch@);
    let matches = match_batch(batch, pattern);
    let mut count: u64 = 0;
    let mut freqs: FieldFrequencies = StrMap::new();
    let mut i: usize = 0;
    while i < batch.len()
        invariant
            i <= batch.len(),
            bv == batch_view(batch@),
            matches@.len() == batch@.len(),
            forall|k: int| 0 <= k < batch@.len() ==> match_result(pattern@, batch@[k].1@, #[trigger] matches@[k]),
            count == matched_lines(pattern@, bv.take(i as int)).len(),
            freqs@ == record_lines(
                Map::empty(),
                captures_of_lines(matched_lines(pattern@, bv.take(i as int))),
            ),
            count <= i,
            counts_within(freqs@, count as int),
        decreases batch.len() - i,
    {
        proof {
            assert(bv.take(i + 1).drop_last() =~= bv.take(i as int));
            assert(match_result(pattern@, batch@[i as int].1@, matches@[i as int]));
        }
        match &matches[i] {
            Some(caps) => {
                proof {
                    lemma_record_line_bound(freqs@, caps@, count as int);
                    let prev = captures_of_lines(matched_lines(pattern@, bv.take(i as int)));
                    let next = captures_of_lines(matched_lines(pattern@, bv.take(i + 1)));
                    assert(next.drop_last() =~= prev);
                }
                record_captures(&mut freqs, caps);
                count = count + 1;
            },
            None => {},
        }
        i = i + 1;
    }
    assert(bv.take(batch.len() as int) =~= bv);
    (count, freqs)
}


proof fn lemma_record_after_merge(a: FreqView, r: FreqView, caps: Map<Seq<char>, Seq<char>>)
    requires
        forall|field: Seq<char>|
            #[trigger] caps.contains_key(field) ==> count_of(counts_of(a, field), caps[field])
                + count_of(counts_of(r, field), caps[field]) + 1 <= u64::MAX,
    ensures
        record_line(merge_frequencies(a, r), caps) == merge_frequencies(a, record_line(r, caps)),
{
    let lhs = record_line(merge_frequencies(a, r), caps);
    let rhs = merge_frequencies(a, record_line(r, caps));
    assert forall|field: Seq<char>| #[trigger] lhs.contains_key(field) implies lhs[field] == rhs[field] by {
        let ca = counts_of(a, field);
        let cr = counts_of(r, field);
        let m = counts_of(merge_frequencies(a, r), field);
        assert(m =~= add_counts(ca, cr));
        if caps.contains_key(field) {
            let v = caps[field];
            assert(count_of(ca, v) + count_of(cr, v) + 1 <= u64::MAX);
            assert(counts_of(record_line(r, caps), field) == cr.insert(v, (count_of(cr, v) + 1) as u64));
            assert(lhs[field] =~= rhs[field]);
        } else {
            assert(counts_of(record_line(r, caps), field) == cr);
        }
    }
    assert(lhs =~= rhs);
}

/// The tally of a prefix of the lines never exceeds the tally of all of them.
pub proof fn lemma_tally_prefix(lines: Seq<Map<Seq<char>, Seq<char>>>, k: int)
    requires
        0 <= k <= lines.len(),
        lines.len() <= u64::MAX,
    ensures
        forall|field: Seq<char>, value: Seq<char>|
            #[trigger] count_of(counts_of(record_lines(Map::empty(), lines.take(k)), field), value)
                <= count_of(counts_of(record_lines(Map::empty(), lines), field), value),
    decreases lines.len(),
{
    if k == lines.len() {
        assert(lines.take(k) =~= lines);
    } else {
        let prev = lines.drop_last();
        lemma_tally_prefix(prev, k);
        assert(prev.take(k) =~= lines.take(k));
        let e: FreqView = Map::empty();
        assert(counts_within(e, 0));
        lemma_record_lines_bound(e, prev, 0);
        let r = record_lines(e, prev);
        let c = lines.last();
        assert forall|field: Seq<char>, value: Seq<char>|
            count_of(counts_of(r, field), value) <= #[trigger] count_of(counts_of(record_line(r, c), field), value) by {
            assert(count_of(counts_of(r, field), value) <= prev.len());
        }
    }
}

proof fn lemma_tally_last(lines: Seq<Map<Seq<char>, Seq<char>>>, field: Seq<char>)
    requires
        lines.len() > 0,
        lines.len() <= u64::MAX,
        lines.last().contains_key(field),
    ensures
        count_of(counts_of(record_lines(Map::empty(), lines), field), lines.last()[field])
            == count_of(counts_of(record_lines(Map::empty(), lines.drop_last()), field), lines.last()[field]) + 1,
{
    let e: FreqView = Map::empty();
    assert(counts_within(e, 0));
    lemma_record_lines_bound(e, lines.drop_last(), 0);
}

/// Recording matched lines one by one into existing frequencies gives the
/// same table as tallying them apart and merging the tally in: the JSON and
/// summary modes accumulate the same frequencies.
pub proof fn lemma_tally_then_merge(a: FreqView, lines: Seq<Map<Seq<char>, Seq<char>>>)
    requires
        lines.len() <= u64::MAX,
        frequencies_fit(a, record_lines(Map::empty(), lines)),
    ensures
        merge_frequencies(a, record_lines(Map::empty(), lines)) == record_lines(a, lines),
    decreases lines.len(),
{
    if lines.len() == 0 {
        crate::models::lemma_merge_empty(a);
    } else {
        let prev = lines.drop_last();
        let e: FreqView = Map::empty();
        let t = record_lines(e, lines);
        let r = record_lines(e, prev);
        lemma_tally_prefix(lines, lines.len() - 1);
        assert(lines.take(lines.len() - 1) =~= prev);
        assert forall|field: Seq<char>| #[trigger] counts_fit(counts_of(a, field), counts_of(r, field)) by {
            assert forall|value: Seq<char>|
                #[trigger] count_of(counts_of(a, field), value) + count_of(counts_of(r, field), value) <= u64::MAX by {
                assert(counts_fit(counts_of(a, field), counts_of(t, field)));
                assert(count_of(counts_of(a, field), value) + count_of(counts_of(t, field), value) <= u64::MAX);
                assert(count_of(counts_of(record_lines(e, lines.take(lines.len() - 1)), field), value)
                    <= count_of(counts_of(t, field), value));
            }
        }
        lemma_tally_then_merge(a, prev);
        let c = lines.last();
        assert forall|field: Seq<char>| #[trigger] c.contains_key(field) implies count_of(counts_of(a, field), c[field])
            + count_of(counts_of(r, field), c[field]) + 1 <= u64::MAX by {
            lemma_tally_last(lines, field);
            assert(counts_fit(counts_of(a, field), counts_of(t, field)));
            assert(count_of(counts_of(a, field), c[field]) + count_of(counts_of(t, field), c[field]) <= u64::MAX);
        }
        lemma_record_after_merge(a, r, c);
    }
}

/// Processes one batch into `summary` and returns the lines to emit: in
/// `Json` mode the matched lines, in `Summary` mode none. Both modes count
/// the matched lines and record their capture values.
pub fn dispatch_batch(
    batch: &[(u64, String)],
    pattern: &LinePattern,
    mode: &OutputMode,
    summary: &mut Summary,
) -> (out: Vec<ParsedLine>)
    requires
        old(summary).matched_lines + matched_lines(pattern@, batch_view(batch@)).len() <= u64::MAX,
        frequencies_fit(
            old(summary).field_frequencies@,
            batch_frequencies(pattern@, batch_view(batch@)),
        ),
    ensures
        final(summary).matched_lines == old(summary).matched_lines + matched_lines(
            pattern@,
            batch_view(batch@),
        ).len(),
        final(summary).field_frequencies@ == record_lines(
            old(summary).field_frequencies@,
            captures_of_lines(matched_lines(pattern@, batch_view(batch@))),
        ),
        final(summary).total_lines == old(summary).total_lines,
        final(summary).bytes_processed == old(summary).bytes_processed,
        final(summary).elapsed == old(summary).elapsed,
        *mode == OutputMode::Json ==> out@.map_values(|p: ParsedLine| p@) == matched_lines(
            pattern@,
            batch_view(batch@),
        ),
        *mode == OutputMode::Summary ==> out@.len() == 0,
{
    let ghost bv = batch_view(batch@);
    let ghost lines = captures_of_lines(matched_lines(pattern@, bv));
    proof {
        lemma_matched_len(pattern@, bv);
    }
    match mode {
        OutputMode::Json => {
            let matched = process_batch_json(batch, pattern);
            let ghost f0 = summary.field_frequencies@;
            summary.matched_lines = summary.matched_lines + matched.len() as u64;
            proof {
                assert(captures_of_lines(matched@.map_values(|p: ParsedLine| p@)) =~= lines);
                assert(record_lines(f0, lines.take(0)) == f0) by {
                    assert(lines.take(0) =~= Seq::<Map<Seq<char>, Seq<char>>>::empty());
                }
            }
            let mut k: usize = 0;
            while k < matched.len()
                invariant
                    k <= matched.len(),
                    lines.len() == matched.len(),
                    lines.len() <= batch.len(),
                    forall|j: int| 0 <= j < lines.len() ==> #[trigger] lines[j] == matched@[j].captures@,
                    lines.len() <= u64::MAX,
                    frequencies_fit(f0, record_lines(Map::empty(), lines)),
                    summary.field_frequencies@ == record_lines(f0, lines.take(k as int)),
                    summary.matched_lines == old(summary).matched_lines + lines.len(),
                    summary.total_lines == old(summary).total_lines,
                    summary.bytes_processed == old(summary).bytes_processed,
                    summary.elapsed == old(summary).elapsed,
                decreases matched.len() - k,
            {
                proof {
                    let e: FreqView = Map::empty();
                    let pre = lines.take(k as int);
                    let pre1 = lines.take(k + 1);
                    let t = record_lines(e, lines);
                    assert(pre1.drop_last() =~= pre);
                    assert(pre1.last() == lines[k as int]);
                    lemma_tally_prefix(lines, k as int);
                    lemma_tally_prefix(lines, k + 1);
                    assert(frequencies_fit(f0, record_lines(e, pre))) by {
                        assert forall|field: Seq<char>| #[trigger] counts_fit(counts_of(f0, field), counts_of(record_lines(e, pre), field)) by {
                            assert forall|value: Seq<char>|
                                #[trigger] count_of(counts_of(f0, field), value) + count_of(counts_of(record_lines(e, pre), field), value) <= u64::MAX by {
                                assert(counts_fit(counts_of(f0, field), counts_of(t, field)));
                                assert(count_of(counts_of(f0, field), value) + count_of(counts_of(t, field), value) <= u64::MAX);
                                assert(count_of(counts_of(record_lines(e, lines.take(k as int)), field), value)
                                    <= count_of(counts_of(t, field), value));
                            }
                        }
                    }
                    lemma_tally_then_merge(f0, pre);
                    let c = lines[k as int];
                    assert forall|field: Seq<char>| #[trigger] c.contains_key(field) implies count_of(
                        counts_of(summary.field_frequencies@, field), c[field]) < u64::MAX by {
                        lemma_tally_last(pre1, field);
                        assert(counts_fit(counts_of(f0, field), counts_of(t, field)));
                        assert(count_of(counts_of(f0, field), c[field]) + count_of(counts_of(t, field), c[field]) <= u64::MAX);
                        assert(count_of(counts_of(record_lines(e, lines.take(k + 1)), field), c[field])
                            <= count_of(counts_of(t, field), c[field]));
                        let m = counts_of(merge_frequencies(f0, record_lines(e, pre)), field);
                        assert(m == add_counts(counts_of(f0, field), counts_of(record_lines(e, pre), field)));
                    }
                    assert(c == matched@[k as int].captures@);
                }
                record_captures(&mut summary.field_frequencies, &matched[k].captures);
                k = k + 1;
            }
            assert(lines.take(matched.len() as int) =~= lines);
            matched
        },
        OutputMode::Summary => {
            let (count, freqs) = process_batch_summary(batch, pattern);
            proof {
                lemma_tally_then_merge(summary.field_frequencies@, lines);
            }
            summary.merge_batch(count, freqs);
            Vec::new()
        },
    }
}


/// The text of `bytes` decoded as UTF-8, with each invalid sequence replaced
/// by U+FFFD (`String::from_utf8_lossy`).
pub uninterp spec fn utf8_lossy(bytes: Seq<u8>) -> Seq<char>;

/// Decodes bytes as UTF-8, replacing invalid sequences.
///
/// Trusted: wraps `String::from_utf8_lossy`, which std documents as
/// returning the decoded text unchanged when the bytes are valid UTF-8.
#[verifier::external_body]
fn lossy_text(bytes: &[u8]) -> (s: String)
    ensures
        s@ == utf8_lossy(bytes@),
        vstd::utf8::valid_utf8(bytes@) ==> s@ == vstd::utf8::decode_utf8(bytes@),
{
    String::from_utf8_lossy(bytes).into_owned()
}

/// A line as read up to and including its newline, without a trailing
/// `"\n"` or `"\r\n"`.
pub open spec fn strip_line_end(raw: Seq<u8>) -> Seq<u8> {
    if raw.len() > 0 && raw.last() == 10 {
        let t = raw.drop_last();
        if t.len() > 0 && t.last() == 13 {
            t.drop_last()
        } else {
            t
        }
    } else {
        raw
    }
}

/// Only the line ending is removed: a line that ends in `"\r\n"` loses
/// those two bytes, one that ends in `"\n"` alone loses that byte, and any
/// other line is kept whole; every other byte stays, in place.
pub proof fn lemma_strip_line_end(raw: Seq<u8>)
    ensures
        raw.len() >= 2 && raw[raw.len() - 2] == 13 && raw[raw.len() - 1] == 10 ==> strip_line_end(raw)
            + seq![13u8, 10u8] == raw,
        raw.len() >= 1 && raw[raw.len() - 1] == 10 && !(raw.len() >= 2 && raw[raw.len() - 2] == 13)
            ==> strip_line_end(raw) + seq![10u8] == raw,
        !(raw.len() >= 1 && raw[raw.len() - 1] == 10) ==> strip_line_end(raw) == raw,
        strip_line_end(raw).len() <= raw.len(),
        forall|k: int| 0 <= k < strip_line_end(raw).len() ==> #[trigger] strip_line_end(raw)[k] == raw[k],
{
    if raw.len() >= 2 && raw[raw.len() - 2] == 13 && raw[raw.len() - 1] == 10 {
        assert(strip_line_end(raw) + seq![13u8, 10u8] =~= raw);
    } else if raw.len() >= 1 && raw[raw.len() - 1] == 10 {
        assert(strip_line_end(raw) + seq![10u8] =~= raw);
    }
}

/// Turns one raw line, as read up to and including its newline, into its
/// text without the line ending and the number of bytes it occupied.
pub fn decode_line(raw: &[u8]) -> (r: (String, u64))
    ensures
        r.0@ == utf8_lossy(strip_line_end(raw@)),
        vstd::utf8::valid_utf8(strip_line_end(raw@)) ==> r.0@ == vstd::utf8::decode_utf8(
            strip_line_end(raw@),
        ),
        r.1 == raw@.len(),
{
    let mut end = raw.len();
    if end > 0 && raw[end - 1] == 10u8 {
        end = end - 1;
        if end > 0 && raw[end - 1] == 13u8 {
            end = end - 1;
        }
    }
    let body = &raw[0..end];
    assert(body@ =~= strip_line_end(raw@));
    (lossy_text(body), raw.len() as u64)
}

/// The end (exclusive) of the line that starts at `i`: just past the next
/// newline, or the end of the data.
pub open spec fn line_end(data: Seq<u8>, i: int) -> int
    decreases data.len() - i,
{
    if i >= data.len() {
        data.len() as int
    } else if data[i] == 10 {
        i + 1
    } else {
        line_end(data, i + 1)
    }
}

/// The line starting at `i` ends just past the first newline at or after `i`,
/// or at the end of the data.
pub proof fn lemma_line_end(data: Seq<u8>, i: int)
    requires
        0 <= i < data.len(),
    ensures
        i < line_end(data, i) <= data.len(),
        forall|j: int| i <= j < line_end(data, i) - 1 ==> data[j] != 10,
        line_end(data, i) < data.len() ==> data[line_end(data, i) - 1] == 10,
    decreases data.len() - i,
{
    if data[i] != 10 {
        if i + 1 < data.len() {
            lemma_line_end(data, i + 1);
        } else {
            assert(line_end(data, i + 1) == data.len());
        }
        assert(line_end(data, i) == line_end(data, i + 1));
    }
}

/// The raw lines of `data` from position `i` on, each up to and including
/// its newline (the last one may lack it), as successive reads up to a
/// newline return them.
pub open spec fn lines_from(data: Seq<u8>, i: int) -> Seq<Seq<u8>>
    decreases data.len() - i,
    when 0 <= i
{
    if i >= data.len() {
        Seq::empty()
    } else {
        proof {
            lemma_line_end(data, i);
        }
        seq![data.subrange(i, line_end(data, i))] + lines_from(data, line_end(data, i))
    }
}

/// The decoded lines of `data`: text without line ending, and byte count.
pub open spec fn decoded_lines(data: Seq<u8>) -> Seq<(Seq<char>, u64)> {
    lines_from(data, 0).map_values(|c: Seq<u8>| (utf8_lossy(strip_line_end(c)), c.len() as u64))
}

proof fn lemma_lines_from_step(data: Seq<u8>, i: int)
    requires
        0 <= i < data.len(),
    ensures
        lines_from(data, i) == seq![data.subrange(i, line_end(data, i))] + lines_from(data, line_end(data, i)),
{
    lemma_line_end(data, i);
}

/// The raw lines of `data` put back together give `data`: every byte is
/// read exactly once.
pub proof fn lemma_lines_cover(data: Seq<u8>, i: int)
    requires
        0 <= i <= data.len(),
    ensures
        lines_from(data, i).flatten() == data.subrange(i, data.len() as int),
    decreases data.len() - i,
{
    if i < data.len() {
        lemma_line_end(data, i);
        let e = line_end(data, i);
        lemma_lines_cover(data, e);
        let rest = lines_from(data, e);
        let first = data.subrange(i, e);
        assert(lines_from(data, i) == seq![first] + rest);
        assert((seq![first] + rest).drop_first() =~= rest);
        assert((seq![first] + rest).flatten() == first + rest.flatten());
        assert(first + data.subrange(e, data.len() as int) =~= data.subrange(i, data.len() as int));
    } else {
        assert(data.subrange(i, data.len() as int) =~= Seq::<u8>::empty());
    }
}

/// The number of newline bytes in `data` from position `i` on.
pub open spec fn newlines_from(data: Seq<u8>, i: int) -> nat
    decreases data.len() - i,
{
    if i >= data.len() || i < 0 {
        0
    } else {
        (if data[i] == 10 { 1nat } else { 0nat }) + newlines_from(data, i + 1)
    }
}

/// The sum of the byte counts of decoded lines.
pub open spec fn byte_total(lines: Seq<(Seq<char>, u64)>) -> int
    decreases lines.len(),
{
    if lines.len() == 0 {
        0
    } else {
        byte_total(lines.drop_last()) + lines.last().1
    }
}

proof fn lemma_newlines_skip(data: Seq<u8>, i: int, j: int)
    requires
        0 <= i <= j <= data.len(),
        forall|k: int| i <= k < j ==> data[k] != 10,
    ensures
        newlines_from(data, i) == newlines_from(data, j),
    decreases j - i,
{
    if i < j {
        lemma_newlines_skip(data, i + 1, j);
    }
}

proof fn lemma_line_count_from(data: Seq<u8>, i: int)
    requires
        0 <= i <= data.len(),
    ensures
        lines_from(data, i).len() == newlines_from(data, i) + (if i < data.len() && data.last() != 10 {
            1nat
        } else {
            0nat
        }),
    decreases data.len() - i,
{
    if i < data.len() {
        lemma_line_end(data, i);
        let e = line_end(data, i);
        lemma_line_count_from(data, e);
        lemma_lines_from_step(data, i);
        if data[e - 1] == 10 {
            lemma_newlines_skip(data, i, e - 1);
            assert(newlines_from(data, e - 1) == 1 + newlines_from(data, e));
        } else {
            assert(e == data.len());
            lemma_newlines_skip(data, i, e);
        }
    }
}

/// Reading `data` line by line gives one line per newline, plus one for an
/// unterminated last line, and their byte counts add up to the length of
/// `data`.
pub proof fn lemma_line_count(data: Seq<u8>)
    requires
        data.len() <= u64::MAX,
    ensures
        decoded_lines(data).len() == newlines_from(data, 0) + (if data.len() > 0 && data.last() != 10 {
            1nat
        } else {
            0nat
        }),
        byte_total(decoded_lines(data)) == data.len(),
{
    lemma_line_count_from(data, 0);
    lemma_lines_cover(data, 0);
    assert(data.subrange(0, data.len() as int) =~= data);
    let raw = lines_from(data, 0);
    raw.lemma_flatten_and_flatten_alt_are_equivalent();
    lemma_byte_total_prefix(data, raw.len() as int);
    assert(raw.take(raw.len() as int) =~= raw);
    assert(decoded_lines(data).take(raw.len() as int) =~= decoded_lines(data));
}

proof fn lemma_byte_total_prefix(data: Seq<u8>, k: int)
    requires
        data.len() <= u64::MAX,
        0 <= k <= lines_from(data, 0).len(),
        lines_from(data, 0).flatten() == data.subrange(0, data.len() as int),
    ensures
        byte_total(decoded_lines(data).take(k)) == lines_from(data, 0).take(k).flatten().len(),
    decreases k,
{
    let raw = lines_from(data, 0);
    let dl = decoded_lines(data);
    if k == 0 {
        assert(dl.take(0) =~= Seq::<(Seq<char>, u64)>::empty());
        assert(raw.take(0) =~= Seq::<Seq<u8>>::empty());
    } else {
        lemma_byte_total_prefix(data, k - 1);
        assert(dl.take(k).drop_last() =~= dl.take(k - 1));
        assert(raw.take(k) =~= raw.take(k - 1).push(raw[k - 1]));
        raw.take(k - 1).lemma_flatten_push(raw[k - 1]);
        raw.lemma_flatten_length_ge_single_element_length(k - 1);
        raw.lemma_flatten_and_flatten_alt_are_equivalent();
        assert(data.subrange(0, data.len() as int).len() == data.len());
        assert(raw[k - 1].len() <= u64::MAX);
    }
}

/// The shape of the raw lines from position `i` on.
pub open spec fn lines_well_cut(lines: Seq<Seq<u8>>) -> bool {
    &&& forall|k: int| 0 <= k < lines.len() ==> (#[trigger] lines[k]).len() >= 1
    &&& forall|k: int, j: int|
        0 <= k < lines.len() && 0 <= j < lines[k].len() - 1 ==> #[trigger] lines[k][j] != 10
    &&& forall|k: int| 0 <= k < lines.len() - 1 ==> (#[trigger] lines[k]).last() == 10
}

proof fn lemma_lines_shape_from(data: Seq<u8>, i: int)
    requires
        0 <= i <= data.len(),
    ensures
        lines_well_cut(lines_from(data, i)),
    decreases data.len() - i,
{
    if i < data.len() {
        lemma_line_end(data, i);
        let e = line_end(data, i);
        lemma_lines_shape_from(data, e);
        lemma_lines_from_step(data, i);
        let first = data.subrange(i, e);
        let rest = lines_from(data, e);
        let all = lines_from(data, i);
        assert forall|k: int| 0 <= k < all.len() implies (#[trigger] all[k]).len() >= 1 by {
            if k > 0 {
                assert(all[k] == rest[k - 1]);
            }
        }
        assert forall|k: int, j: int| 0 <= k < all.len() && 0 <= j < all[k].len() - 1 implies #[trigger] all[k][j] != 10 by {
            if k > 0 {
                assert(all[k] == rest[k - 1]);
            } else {
                assert(all[0][j] == data[i + j]);
            }
        }
        assert forall|k: int| 0 <= k < all.len() - 1 implies (#[trigger] all[k]).last() == 10 by {
            if k > 0 {
                assert(all[k] == rest[k - 1]);
            } else {
                assert(e < data.len());
            }
        }
    }
}

/// Cutting data into lines cuts just after each newline: every line is
/// non-empty, has no newline before its last byte, and every line but the
/// last ends with a newline; put back together they give the data.
pub proof fn lemma_lines_shape(data: Seq<u8>)
    ensures
        lines_well_cut(lines_from(data, 0)),
        lines_from(data, 0).flatten() == data,
{
    lemma_lines_shape_from(data, 0);
    lemma_lines_cover(data, 0);
    assert(data.subrange(0, data.len() as int) =~= data);
}

/// Splits in-memory data into decoded lines, as reading it line by line
/// does.
pub fn split_lines(data: &[u8]) -> (r: Vec<(String, u64)>)
    ensures
        r@.map_values(|e: (String, u64)| (e.0@, e.1)) == decoded_lines(data@),
        forall|i: int|
            0 <= i < r@.len() && vstd::utf8::valid_utf8(strip_line_end(#[trigger] lines_from(data@, 0)[i]))
                ==> r@[i].0@ == vstd::utf8::decode_utf8(strip_line_end(lines_from(data@, 0)[i])),
{
    let ghost d = data@;
    let mut out: Vec<(String, u64)> = Vec::new();
    let ghost mut done: Seq<Seq<u8>> = Seq::empty();
    let mut i: usize = 0;
    while i < data.len()
        invariant
            i <= data.len(),
            d == data@,
            lines_from(d, 0) == done + lines_from(d, i as int),
            out@.len() == done.len(),
            forall|k: int|
                0 <= k < done.len() && vstd::utf8::valid_utf8(strip_line_end(#[trigger] done[k]))
                    ==> out@[k].0@ == vstd::utf8::decode_utf8(strip_line_end(done[k])),
            out@.map_values(|e: (String, u64)| (e.0@, e.1)) == done.map_values(
                |c: Seq<u8>| (utf8_lossy(strip_line_end(c)), c.len() as u64),
            ),
        decreases data.len() - i,
    {
        let mut j = i;
        while j < data.len() && data[j] != 10u8
            invariant
                i <= j <= data.len(),
                d == data@,
                line_end(d, i as int) == line_end(d, j as int),
            decreases data.len() - j,
        {
            j = j + 1;
        }
        let end = if j < data.len() {
            j + 1
        } else {
            j
        };
        proof {
            lemma_line_end(d, i as int);
            lemma_lines_from_step(d, i as int);
            assert(end == line_end(d, i as int));
        }
        let chunk = &data[i..end];
        let line = decode_line(chunk);
        let ghost prev_out = out@;
        out.push(line);
        proof {
            let c = d.subrange(i as int, end as int);
            assert(chunk@ == c);
            assert(done + lines_from(d, i as int) =~= done.push(c) + lines_from(d, end as int));
            let f = |c: Seq<u8>| (utf8_lossy(strip_line_end(c)), c.len() as u64);
            let g = |e: (String, u64)| (e.0@, e.1);
            assert(out@ == prev_out.push(line));
            assert(out@.map_values(g) =~= prev_out.map_values(g).push(g(line)));
            assert(done.push(c).map_values(f) =~= done.map_values(f).push(f(c)));
            let nd = done.push(c);
            assert forall|k: int|
                0 <= k < nd.len() && vstd::utf8::valid_utf8(strip_line_end(#[trigger] nd[k]))
                    implies out@[k].0@ == vstd::utf8::decode_utf8(strip_line_end(nd[k])) by {
                if k < done.len() {
                    assert(nd[k] == done[k]);
                    assert(out@[k] == prev_out[k]);
                }
            }
            done = done.push(c);
        }
        i = end;
    }
    proof {
        assert(lines_from(d, data.len() as int) =~= Seq::<Seq<u8>>::empty());
        assert(done + Seq::<Seq<u8>>::empty() =~= done);
        assert(lines_from(d, 0) == done);
    }
    out
}


/// The streaming state of one run: the summary so far, the lines read but
/// not yet processed, and the number of lines read.
pub struct LineProcessor {
    summary: Summary,
    batch: Vec<(u64, String)>,
    line_number: u64,
    batch_size: usize,
}

impl LineProcessor {
    /// The summary of the processed lines.
    pub closed spec fn summary_spec(&self) -> Summary {
        self.summary
    }

    /// The lines read but not processed yet, with their numbers.
    pub closed spec fn pending(&self) -> Seq<(u64, Seq<char>)> {
        batch_view(self.batch@)
    }

    /// The number of lines read so far.
    pub closed spec fn lines_read(&self) -> u64 {
        self.line_number
    }

    /// The number of lines that make a full batch.
    pub closed spec fn batch_limit(&self) -> usize {
        self.batch_size
    }

    /// Every line read is either processed or pending, the matched lines are
    /// among the processed ones, no count exceeds the matched lines, and a
    /// full batch never stays pending.
    pub closed spec fn wf(&self) -> bool {
        &&& self.summary.total_lines + self.batch@.len() == self.line_number
        &&& self.summary.matched_lines <= self.summary.total_lines
        &&& counts_within(self.summary.field_frequencies@, self.summary.matched_lines as int)
        &&& (self.batch@.len() < self.batch_size || self.batch@.len() == 0)
    }

    /// A processor that has read nothing and processes lines in batches of
    /// `batch_size` (a batch size of zero processes each line at once).
    pub fn new(batch_size: usize) -> (p: Self)
        ensures
            p.wf(),
            p.lines_read() == 0,
            p.pending().len() == 0,
            p.batch_limit() == batch_size,
            p.summary_spec().total_lines == 0,
            p.summary_spec().matched_lines == 0,
            p.summary_spec().bytes_processed == 0,
            p.summary_spec().field_frequencies@ == FreqView::empty(),
    {
        let p = LineProcessor {
            summary: Summary::new(),
            batch: Vec::new(),
            line_number: 0,
            batch_size,
        };
        assert(p.pending() =~= Seq::empty());
        p
    }

    /// Processes the pending lines as one batch.
    fn flush(&mut self, pattern: &LinePattern, mode: &OutputMode) -> (out: Vec<ParsedLine>)
        requires
            old(self).summary.total_lines + old(self).batch@.len() == old(self).line_number,
            old(self).summary.matched_lines <= old(self).summary.total_lines,
            counts_within(
                old(self).summary.field_frequencies@,
                old(self).summary.matched_lines as int,
            ),
        ensures
            final(self).wf(),
            final(self).batch@.len() == 0,
            final(self).line_number == old(self).line_number,
            final(self).batch_size == old(self).batch_size,
            final(self).summary.total_lines == old(self).summary.total_lines + old(self).batch@.len(),
            final(self).summary.bytes_processed == old(self).summary.bytes_processed,
            final(self).summary.elapsed == old(self).summary.elapsed,
            final(self).summary.matched_lines == old(self).summary.matched_lines + matched_lines(
                pattern@,
                old(self).pending(),
            ).len(),
            final(self).summary.field_frequencies@ == record_lines(
                old(self).summary.field_frequencies@,
                captures_of_lines(matched_lines(pattern@, old(self).pending())),
            ),
            *mode == OutputMode::Json ==> out@.map_values(|p: ParsedLine| p@) == matched_lines(
                pattern@,
                old(self).pending(),
            ),
            *mode == OutputMode::Summary ==> out@.len() == 0,
    {
        let ghost pend = self.pending();
        let ghost f0 = self.summary.field_frequencies@;
        let ghost m0 = self.summary.matched_lines;
        self.summary.total_lines = self.summary.total_lines + self.batch.len() as u64;
        proof {
            lemma_matched_len(pattern@, pend);
            let lines = captures_of_lines(matched_lines(pattern@, pend));
            let e: FreqView = Map::empty();
            assert(counts_within(e, 0));
            lemma_record_lines_bound(e, lines, 0);
            let t = record_lines(e, lines);
            assert forall|field: Seq<char>| #[trigger] counts_fit(counts_of(f0, field), counts_of(t, field)) by {
                assert forall|value: Seq<char>|
                    #[trigger] count_of(counts_of(f0, field), value) + count_of(counts_of(t, field), value) <= u64::MAX by {
                    assert(count_of(counts_of(f0, field), value) <= m0);
                    assert(count_of(counts_of(t, field), value) <= lines.len());
                }
            }
        }
        let out = dispatch_batch(self.batch.as_slice(), pattern, mode, &mut self.summary);
        proof {
            lemma_record_lines_bound(f0, captures_of_lines(matched_lines(pattern@, pend)), m0 as int);
        }
        self.batch.clear();
        out
    }

    /// Takes in the next line read, with the number of bytes it occupied,
    /// and processes the pending lines once they make a full batch. Returns
    /// the lines to emit: in `Json` mode the matched lines of a processed
    /// batch, otherwise none.
    pub fn push_line(
        &mut self,
        line: String,
        bytes_read: u64,
        pattern: &LinePattern,
        mode: &OutputMode,
    ) -> (out: Vec<ParsedLine>)
        requires
            old(self).wf(),
            old(self).lines_read() < u64::MAX,
            old(self).summary_spec().bytes_processed + bytes_read <= u64::MAX,
        ensures
            final(self).wf(),
            final(self).lines_read() == old(self).lines_read() + 1,
            final(self).batch_limit() == old(self).batch_limit(),
            final(self).summary_spec().bytes_processed == old(self).summary_spec().bytes_processed
                + bytes_read,
            final(self).summary_spec().elapsed == old(self).summary_spec().elapsed,
            ({
                let batch = old(self).pending().push((final(self).lines_read(), line@));
                if batch.len() >= old(self).batch_limit() {
                    &&& final(self).pending().len() == 0
                    &&& final(self).summary_spec().total_lines == old(self).summary_spec().total_lines
                        + batch.len()
                    &&& final(self).summary_spec().matched_lines
                        == old(self).summary_spec().matched_lines + matched_lines(pattern@, batch).len()
                    &&& final(self).summary_spec().field_frequencies@ == record_lines(
                        old(self).summary_spec().field_frequencies@,
                        captures_of_lines(matched_lines(pattern@, batch)),
                    )
                    &&& (*mode == OutputMode::Json ==> out@.map_values(|p: ParsedLine| p@)
                        == matched_lines(pattern@, batch))
                    &&& (*mode == OutputMode::Summary ==> out@.len() == 0)
                } else {
                    &&& final(self).pending() == batch
                    &&& final(self).summary_spec().total_lines == old(self).summary_spec().total_lines
                    &&& final(self).summary_spec().matched_lines
                        == old(self).summary_spec().matched_lines
                    &&& final(self).summary_spec().field_frequencies@ == old(
                        self,
                    ).summary_spec().field_frequencies@
                    &&& out@.len() == 0
                }
            }),
    {
        self.line_number = self.line_number + 1;
        self.summary.bytes_processed = self.summary.bytes_processed + bytes_read;
        let ghost n = self.line_number;
        let ghost lv = line@;
        self.batch.push((self.line_number, line));
        proof {
            assert(self.pending() =~= old(self).pending().push((n, lv)));
        }
        if self.batch.len() >= self.batch_size {
            self.flush(pattern, mode)
        } else {
            Vec::new()
        }
    }

    /// Processes the lines still pending, as the last batch. Returns the
    /// lines to emit, as `push_line` does. Afterwards every line read is
    /// counted in the summary.
    pub fn finish(&mut self, pattern: &LinePattern, mode: &OutputMode) -> (out: Vec<ParsedLine>)
        requires
            old(self).wf(),
        ensures
            final(self).wf(),
            final(self).pending().len() == 0,
            final(self).lines_read() == old(self).lines_read(),
            final(self).summary_spec().total_lines == final(self).lines_read(),
            final(self).summary_spec().bytes_processed == old(self).summary_spec().bytes_processed,
            final(self).summary_spec().elapsed == old(self).summary_spec().elapsed,
            final(self).summary_spec().matched_lines == old(self).summary_spec().matched_lines
                + matched_lines(pattern@, old(self).pending()).len(),
            final(self).summary_spec().field_frequencies@ == record_lines(
                old(self).summary_spec().field_frequencies@,
                captures_of_lines(matched_lines(pattern@, old(self).pending())),
            ),
            *mode == OutputMode::Json ==> out@.map_values(|p: ParsedLine| p@) == matched_lines(
                pattern@,
                old(self).pending(),
            ),
            *mode == OutputMode::Summary ==> out@.len() == 0,
    {
        if self.batch.len() > 0 {
            self.flush(pattern, mode)
        } else {
            proof {
                assert(old(self).pending() =~= Seq::empty());
                assert(captures_of_lines(matched_lines(pattern@, old(self).pending())) =~= Seq::empty());
            }
            Vec::new()
        }
    }

    /// The number of lines read so far.
    pub fn line_number(&self) -> (n: u64)
        ensures
            n == self.lines_read(),
    {
        self.line_number
    }

    /// The summary of the lines processed so far.
    pub fn summary(&self) -> (s: &Summary)
        ensures
            *s == self.summary_spec(),
    {
        &self.summary
    }

    /// The summary, giving up the processor.
    pub fn into_summary(self) -> (s: Summary)
        ensures
            s == self.summary_spec(),
    {
        self.summary
    }
}


/// Matching distributes over concatenation of batches.
pub proof fn lemma_matched_concat(
    pattern: Seq<char>,
    a: Seq<(u64, Seq<char>)>,
    b: Seq<(u64, Seq<char>)>,
)
    ensures
        matched_lines(pattern, a + b) == matched_lines(pattern, a) + matched_lines(pattern, b),
    decreases b.len(),
{
    if b.len() == 0 {
        assert(a + b =~= a);
        assert(matched_lines(pattern, a) + matched_lines(pattern, b) =~= matched_lines(pattern, a));
    } else {
        lemma_matched_concat(pattern, a, b.drop_last());
        assert((a + b).drop_last() =~= a + b.drop_last());
        assert((a + b).last() == b.last());
        let (n, line) = b.last();
        match line_fields(pattern, line) {
            Some(caps) => {
                assert(matched_lines(pattern, a) + matched_lines(pattern, b.drop_last()).push((n, line, caps))
                    =~= (matched_lines(pattern, a) + matched_lines(pattern, b.drop_last())).push((n, line, caps)));
            },
            None => {},
        }
    }
}

/// Recording two runs of lines one after the other is recording their
/// concatenation.
pub proof fn lemma_record_concat(
    f: FreqView,
    x: Seq<Map<Seq<char>, Seq<char>>>,
    y: Seq<Map<Seq<char>, Seq<char>>>,
)
    ensures
        record_lines(f, x + y) == record_lines(record_lines(f, x), y),
    decreases y.len(),
{
    if y.len() == 0 {
        assert(x + y =~= x);
    } else {
        lemma_record_concat(f, x, y.drop_last());
        assert((x + y).drop_last() =~= x + y.drop_last());
        assert((x + y).last() == y.last());
    }
}

/// The decoded lines of `data`, numbered from 1.
pub open spec fn numbered_lines(data: Seq<u8>) -> Seq<(u64, Seq<char>)> {
    Seq::new(decoded_lines(data).len(), |i: int| ((i + 1) as u64, decoded_lines(data)[i].0))
}

proof fn lemma_lines_nonempty(data: Seq<u8>, i: int)
    requires
        0 <= i <= data.len(),
    ensures
        forall|k: int| 0 <= k < lines_from(data, i).len() ==> #[trigger] lines_from(data, i)[k].len() >= 1,
    decreases data.len() - i,
{
    if i < data.len() {
        lemma_line_end(data, i);
        lemma_lines_nonempty(data, line_end(data, i));
        let rest = lines_from(data, line_end(data, i));
        assert forall|k: int| 0 <= k < lines_from(data, i).len() implies #[trigger] lines_from(data, i)[k].len() >= 1 by {
            if k > 0 {
                assert(lines_from(data, i)[k] == rest[k - 1]);
            }
        }
    }
}

/// Processes a whole in-memory input: splits it into lines, numbers them
/// from 1 and feeds them to a `LineProcessor` in batches of `batch_size`.
/// Returns the summary and the lines to emit. The result does not depend on
/// the batch size.
pub fn process_bytes(data: &[u8], pattern: &LinePattern, mode: &OutputMode, batch_size: usize) -> (r: (
    Summary,
    Vec<ParsedLine>,
))
    ensures
        r.0.total_lines == decoded_lines(data@).len(),
        forall|i: int|
            0 <= i < numbered_lines(data@).len() && vstd::utf8::valid_utf8(
                strip_line_end(#[trigger] lines_from(data@, 0)[i]),
            ) ==> numbered_lines(data@)[i].1 == vstd::utf8::decode_utf8(strip_line_end(lines_from(data@, 0)[i])),
        r.0.bytes_processed == data@.len(),
        r.0.matched_lines == matched_lines(pattern@, numbered_lines(data@)).len(),
        r.0.field_frequencies@ == batch_frequencies(pattern@, numbered_lines(data@)),
        *mode == OutputMode::Json ==> r.1@.map_values(|p: ParsedLine| p@) == matched_lines(
            pattern@,
            numbered_lines(data@),
        ),
        *mode == OutputMode::Summary ==> r.1@.len() == 0,
{
    let lines = split_lines(data);
    let ghost raw = lines_from(data@, 0);
    let ghost all = numbered_lines(data@);
    proof {
        assert forall|i: int|
            0 <= i < all.len() && vstd::utf8::valid_utf8(strip_line_end(#[trigger] raw[i]))
                implies all[i].1 == vstd::utf8::decode_utf8(strip_line_end(raw[i])) by {
            let g = |e: (String, u64)| (e.0@, e.1);
            assert(lines@.map_values(g)[i] == decoded_lines(data@)[i]);
        }
        lemma_lines_cover(data@, 0);
        assert(data@.subrange(0, data@.len() as int) =~= data@);
        lemma_lines_nonempty(data@, 0);
        assert(raw.take(0).flatten() =~= Seq::<u8>::empty()) by {
            assert(raw.take(0) =~= Seq::<Seq<u8>>::empty());
        }
    }
    let dlen = data.len();
    let mut proc = LineProcessor::new(batch_size);
    let mut out: Vec<ParsedLine> = Vec::new();
    let ghost mut done: Seq<(u64, Seq<char>)> = Seq::empty();
    let mut k: usize = 0;
    while k < lines.len()
        invariant
            k <= lines.len(),
            dlen == data@.len(),
            lines.len() == raw.len(),
            all.len() == raw.len(),
            lines@.map_values(|e: (String, u64)| (e.0@, e.1)) == decoded_lines(data@),
            raw == lines_from(data@, 0),
            all == numbered_lines(data@),
            raw.flatten() == data@,
            forall|j: int| 0 <= j < raw.len() ==> #[trigger] raw[j].len() >= 1,
            proc.wf(),
            proc.lines_read() == k,
            proc.batch_limit() == batch_size,
            all.take(k as int) == done + proc.pending(),
            proc.summary_spec().bytes_processed == raw.take(k as int).flatten().len(),
            k <= raw.take(k as int).flatten().len(),
            proc.summary_spec().matched_lines == matched_lines(pattern@, done).len(),
            proc.summary_spec().field_frequencies@ == batch_frequencies(pattern@, done),
            *mode == OutputMode::Json ==> out@.map_values(|p: ParsedLine| p@) == matched_lines(pattern@, done),
            *mode == OutputMode::Summary ==> out@.len() == 0,
        decreases lines.len() - k,
    {
        let (text, nbytes) = &lines[k];
        proof {
            assert(raw.take(k + 1) =~= raw.take(k as int).push(raw[k as int]));
            raw.take(k as int).lemma_flatten_push(raw[k as int]);
            let g = |e: (String, u64)| (e.0@, e.1);
            assert(g(lines@[k as int]) == decoded_lines(data@)[k as int]);
            raw.lemma_flatten_length_ge_single_element_length(k as int);
            raw.lemma_flatten_and_flatten_alt_are_equivalent();
            assert(data@.len() <= usize::MAX);
            assert(raw[k as int].len() <= u64::MAX);
            assert(*nbytes == raw[k as int].len());
            lemma_lines_cover(data@, 0);
            assert(raw == raw.take(k + 1) + raw.skip(k + 1));
            vstd::seq_lib::lemma_flatten_concat(raw.take(k + 1), raw.skip(k + 1));
            assert(raw.take(k + 1).flatten().len() <= data@.len());
        }
        let ghost old_pending = proc.pending();
        let ghost old_summary = proc.summary_spec();
        let mut emitted = proc.push_line(text.clone(), *nbytes, pattern, mode);
        proof {
            let x = all[k as int];
            assert(x == ((k + 1) as u64, text@));
            assert(all.take(k + 1) =~= all.take(k as int).push(x));
            let batch = old_pending.push(x);
            if batch.len() >= batch_size {
                lemma_matched_concat(pattern@, done, batch);
                lemma_record_concat(
                    Map::empty(),
                    captures_of_lines(matched_lines(pattern@, done)),
                    captures_of_lines(matched_lines(pattern@, batch)),
                );
                assert(captures_of_lines(matched_lines(pattern@, done) + matched_lines(pattern@, batch))
                    =~= captures_of_lines(matched_lines(pattern@, done)) + captures_of_lines(matched_lines(pattern@, batch)));
                assert(done + batch =~= all.take(k + 1));
                done = done + batch;
                assert(all.take(k + 1) =~= done + proc.pending());
            } else {
                assert(all.take(k + 1) =~= done + proc.pending());
            }
        }
        let ghost prev_out = out@;
        let ghost em = emitted@;
        out.append(&mut emitted);
        proof {
            let v = |p: ParsedLine| p@;
            assert(out@ == prev_out + em);
            assert(out@.map_values(v) =~= prev_out.map_values(v) + em.map_values(v));
        }
        k = k + 1;
    }
    let ghost old_pending = proc.pending();
    let mut emitted = proc.finish(pattern, mode);
    proof {
        assert(all.take(k as int) =~= all);
        lemma_matched_concat(pattern@, done, old_pending);
        lemma_record_concat(
            Map::empty(),
            captures_of_lines(matched_lines(pattern@, done)),
            captures_of_lines(matched_lines(pattern@, old_pending)),
        );
        assert(captures_of_lines(matched_lines(pattern@, done) + matched_lines(pattern@, old_pending))
            =~= captures_of_lines(matched_lines(pattern@, done)) + captures_of_lines(matched_lines(pattern@, old_pending)));
        assert(raw.take(k as int) =~= raw);
    }
    let ghost prev_out = out@;
    let ghost em = emitted@;
    out.append(&mut emitted);
    proof {
        let v = |p: ParsedLine| p@;
        assert(out@ == prev_out + em);
        assert(out@.map_values(v) =~= prev_out.map_values(v) + em.map_values(v));
    }
    (proc.into_summary(), out)
}

} // verus!
