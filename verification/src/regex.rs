//! Pre-segmented training: the text is split by an external pattern-matching
//! capability into ordered, non-overlapping segments, pair statistics are
//! counted per segment and summed, and merges are applied within single
//! segments only — never across a boundary.

use vstd::prelude::*;

use crate::basic::{
    decode_seq, has_rule, ids_distinct, lemma_decode_seq_len, lemma_decode_seq_push_rule,
    lemma_merge_preserves_decode, tokens_valid, wf_merges, BasicTokenizer, MergeRule, TrainError,
};
use crate::utils::{
    accumulate_stats, get_top_pair, has_pair, lemma_merge_spec_elements, lemma_merge_spec_len,
    lemma_pair_count_bound, lemma_pair_count_pos, merge, merge_spec, pair_count, pair_le,
    stats_has, stats_index, stats_val, stats_wf, Pair, StatEntry,
};

verus! {

/// The view of each vector in a sequence of vectors.
pub open spec fn views_of<A>(s: Seq<Vec<A>>) -> Seq<Seq<A>> {
    s.map_values(|v: Vec<A>| v@)
}

/// The summed length of all segments.
pub open spec fn total_len<A>(splits: Seq<Seq<A>>) -> nat
    decreases splits.len(),
{
    if splits.len() == 0 {
        0
    } else {
        total_len(splits.drop_last()) + splits.last().len()
    }
}

/// The summed adjacent-pair count over all segments; a pair straddling two
/// segments is counted by neither.
pub open spec fn split_pair_count(splits: Seq<Seq<u32>>, pair: Pair) -> nat
    decreases splits.len(),
{
    if splits.len() == 0 {
        0
    } else {
        split_pair_count(splits.drop_last(), pair) + pair_count(splits.last(), pair)
    }
}

/// Every segment rewritten by the same pair replacement.
pub open spec fn split_merge_spec(ts: Seq<Seq<u32>>, pair: Pair, new_id: u32) -> Seq<Seq<u32>> {
    ts.map_values(|t: Seq<u32>| merge_spec(t, pair, new_id))
}

/// Every segment expanded through the merge table.
pub open spec fn split_decode(m: Seq<MergeRule>, ts: Seq<Seq<u32>>) -> Seq<Seq<u8>> {
    ts.map_values(|t: Seq<u32>| decode_seq(m, t))
}

/// Some family of token segments expands, segment by segment, to `segs`,
/// using at least `n_merges` fewer tokens in all than `segs` holds bytes.
pub open spec fn splits_compress_to(m: Seq<MergeRule>, segs: Seq<Seq<u8>>, n_merges: int) -> bool {
    exists|ts: Seq<Seq<u32>>|
        #![trigger split_decode(m, ts)]
        split_decode(m, ts) == segs && total_len(ts) + n_merges <= total_len(segs)
}

/// `p` is the selection of one presplit training step: its summed count is
/// positive and maximal, ties broken towards the lexicographically smallest
/// pair.
pub open spec fn is_top_split_pair(ts: Seq<Seq<u32>>, p: Pair) -> bool {
    &&& split_pair_count(ts, p) > 0
    &&& forall|q: Pair|
        #![trigger split_pair_count(ts, q)]
        split_pair_count(ts, q) <= split_pair_count(ts, p)
    &&& forall|q: Pair|
        #![trigger split_pair_count(ts, q)]
        split_pair_count(ts, q) == split_pair_count(ts, p) ==> pair_le(p, q)
}

/// The selection is deterministic: at most one top pair over the segments.
pub proof fn lemma_top_split_pair_unique(ts: Seq<Seq<u32>>, p: Pair, q: Pair)
    requires
        is_top_split_pair(ts, p),
        is_top_split_pair(ts, q),
    ensures
        p == q,
{
    assert(split_pair_count(ts, p) == split_pair_count(ts, q));
    assert(pair_le(p, q) && pair_le(q, p));
    assert(p.0 == q.0 && p.1 == q.1);
}

/// Each segment's raw bytes as byte-valued tokens.
pub open spec fn splits_tokens(segs: Seq<Seq<u8>>) -> Seq<Seq<u32>> {
    segs.map_values(|s: Seq<u8>| s.map_values(|b: u8| b as u32))
}

/// One greedy presplit training run as a function: like the unsegmented
/// replay, with counts summed over the segments and every merge applied
/// within single segments.
pub open spec fn train_splits_spec(ts: Seq<Seq<u32>>, k: nat, i: nat) -> Option<Seq<MergeRule>>
    decreases k,
{
    if k == 0 {
        Some(Seq::empty())
    } else if exists|p: Pair| is_top_split_pair(ts, p) {
        let p = choose|p: Pair| is_top_split_pair(ts, p);
        let id = (256 + i) as u32;
        match train_splits_spec(split_merge_spec(ts, p, id), (k - 1) as nat, i + 1) {
            Some(rest) => Some(seq![((p.0, p.1), id)] + rest),
            None => None,
        }
    } else {
        None
    }
}

/// The entry that `get_top_pair` selects from an exact summed table is the
/// top pair over the segments.
proof fn lemma_top_entry_is_top_split_pair(
    stats: Seq<StatEntry>,
    ts: Seq<Seq<u32>>,
    pc: ((u32, u32), usize),
)
    requires
        stats_wf(stats),
        forall|p: Pair|
            #![trigger stats_val(stats, p)]
            stats_val(stats, p) == split_pair_count(ts, p),
        stats_has(stats, pc.0),
        pc.1 == stats_val(stats, pc.0),
        pc.1 > 0,
        forall|j: int| 0 <= j < stats.len() ==> (#[trigger] stats[j]).1 <= pc.1,
        forall|j: int|
            0 <= j < stats.len() && (#[trigger] stats[j]).1 == pc.1 ==> pair_le(pc.0, stats[j].0),
    ensures
        is_top_split_pair(ts, pc.0),
{
    assert(split_pair_count(ts, pc.0) == stats_val(stats, pc.0));
    assert forall|q: Pair| #![trigger split_pair_count(ts, q)] split_pair_count(ts, q)
        <= split_pair_count(ts, pc.0) by {
        assert(stats_val(stats, q) == split_pair_count(ts, q));
        if stats_has(stats, q) {
            let j = stats_index(stats, q);
            assert(0 <= j < stats.len() && stats[j].0 == q);
            assert(stats[j].1 <= pc.1);
        }
    }
    assert forall|q: Pair|
        #![trigger split_pair_count(ts, q)]
        split_pair_count(ts, q) == split_pair_count(ts, pc.0) implies pair_le(pc.0, q) by {
        assert(stats_val(stats, q) == split_pair_count(ts, q));
        assert(stats_val(stats, q) > 0);
        assert(stats_has(stats, q));
        let j = stats_index(stats, q);
        assert(0 <= j < stats.len() && stats[j].0 == q);
        assert(stats[j].1 == stats_val(stats, q));
        assert(pair_le(pc.0, stats[j].0));
    }
}

pub proof fn lemma_split_pair_count_take_step(s: Seq<Seq<u32>>, pair: Pair, i: int)
    requires
        0 <= i < s.len(),
    ensures
        split_pair_count(s.take(i + 1), pair) == split_pair_count(s.take(i), pair) + pair_count(
            s[i],
            pair,
        ),
{
    assert(s.take(i + 1).drop_last() =~= s.take(i));
    assert(s.take(i + 1).last() == s[i]);
}

pub proof fn lemma_split_pair_count_take_mono(s: Seq<Seq<u32>>, pair: Pair, i: int)
    requires
        0 <= i <= s.len(),
    ensures
        split_pair_count(s.take(i), pair) <= split_pair_count(s, pair),
    decreases s.len(),
{
    if i == s.len() {
        assert(s.take(i) =~= s);
    } else if s.len() >= 1 {
        assert(s.drop_last().take(i) =~= s.take(i));
        lemma_split_pair_count_take_mono(s.drop_last(), pair, i);
    }
}

/// The summed pair count never exceeds the summed segment length.
pub proof fn lemma_split_pair_count_le_total(s: Seq<Seq<u32>>, pair: Pair)
    ensures
        split_pair_count(s, pair) <= total_len(s),
    decreases s.len(),
{
    if s.len() > 0 {
        lemma_split_pair_count_le_total(s.drop_last(), pair);
        lemma_pair_count_bound(s.last(), pair);
    }
}

/// The summed count is positive exactly when some single segment holds the
/// pair.
pub proof fn lemma_split_pair_count_pos(s: Seq<Seq<u32>>, pair: Pair)
    ensures
        split_pair_count(s, pair) > 0 <==> exists|i: int|
            0 <= i < s.len() && pair_count(#[trigger] s[i], pair) > 0,
    decreases s.len(),
{
    if s.len() > 0 {
        lemma_split_pair_count_pos(s.drop_last(), pair);
        if pair_count(s.last(), pair) > 0 {
            assert(pair_count(s[s.len() - 1], pair) > 0);
        } else if split_pair_count(s.drop_last(), pair) > 0 {
            let i = choose|i: int|
                0 <= i < s.drop_last().len() && pair_count(#[trigger] s.drop_last()[i], pair) > 0;
            assert(pair_count(s[i], pair) > 0);
        } else {
            if exists|i: int| 0 <= i < s.len() && pair_count(#[trigger] s[i], pair) > 0 {
                let i = choose|i: int| 0 <= i < s.len() && pair_count(#[trigger] s[i], pair) > 0;
                if i < s.len() - 1 {
                    assert(pair_count(s.drop_last()[i], pair) > 0);
                }
            }
        }
    }
}

/// Rewriting every segment never lengthens the whole, and strictly
/// shortens it when some segment holds the pair.
pub proof fn lemma_split_merge_total_len(ts: Seq<Seq<u32>>, pair: Pair, new_id: u32)
    ensures
        total_len(split_merge_spec(ts, pair, new_id)) <= total_len(ts),
        (exists|i: int| 0 <= i < ts.len() && pair_count(#[trigger] ts[i], pair) > 0) ==> total_len(
            split_merge_spec(ts, pair, new_id),
        ) < total_len(ts),
    decreases ts.len(),
{
    if ts.len() > 0 {
        let m = split_merge_spec(ts, pair, new_id);
        assert(m.drop_last() =~= split_merge_spec(ts.drop_last(), pair, new_id));
        assert(m.last() == merge_spec(ts.last(), pair, new_id));
        lemma_split_merge_total_len(ts.drop_last(), pair, new_id);
        lemma_merge_spec_len(ts.last(), pair, new_id);
        lemma_pair_count_pos(ts.last(), pair);
        if exists|i: int| 0 <= i < ts.len() && pair_count(#[trigger] ts[i], pair) > 0 {
            let i = choose|i: int| 0 <= i < ts.len() && pair_count(#[trigger] ts[i], pair) > 0;
            if i < ts.len() - 1 {
                assert(pair_count(ts.drop_last()[i], pair) > 0);
            } else {
                assert(pair_count(ts.last(), pair) > 0);
            }
        }
    }
}

/// Concatenating two sequences counts each side's pairs plus, exactly when
/// the tail of the first and the head of the second match, one straddling
/// occurrence.
pub proof fn lemma_pair_count_concat(s1: Seq<u32>, s2: Seq<u32>, pair: Pair)
    ensures
        pair_count(s1 + s2, pair) == pair_count(s1, pair) + pair_count(s2, pair) + if s1.len() > 0
            && s2.len() > 0 && s1.last() == pair.0 && s2.first() == pair.1 {
            1nat
        } else {
            0nat
        },
    decreases s2.len(),
{
    if s2.len() == 0 {
        assert(s1 + s2 =~= s1);
    } else if s2.len() == 1 {
        let c = s1 + s2;
        if s1.len() == 0 {
            assert(c =~= s2);
        } else {
            assert(c.drop_last() =~= s1);
            assert(c.len() == s1.len() + 1);
            assert(c[c.len() - 2] == s1.last());
            assert(c[c.len() - 1] == s2[0]);
        }
    } else {
        lemma_pair_count_concat(s1, s2.drop_last(), pair);
        let c = s1 + s2;
        assert(c.drop_last() =~= s1 + s2.drop_last());
        assert(c.len() >= 2);
        assert(c[c.len() - 2] == s2[s2.len() - 2]);
        assert(c[c.len() - 1] == s2[s2.len() - 1]);
        assert(s2.drop_last().len() > 0);
        assert(s2.drop_last().first() == s2.first());
        assert(s2.drop_last().last() == s2[s2.len() - 2]);
    }
}

/// Presplit boundary property, counting side: the summed statistics of two
/// adjacent segments count exactly the occurrences inside each segment; the
/// pair standing across the boundary — the last token of the first segment
/// before the first token of the second — is counted by the concatenation
/// but never by the per-segment sum.
pub proof fn lemma_boundary_pair_not_counted(s1: Seq<u32>, s2: Seq<u32>, pair: Pair)
    ensures
        split_pair_count(seq![s1, s2], pair) == pair_count(s1, pair) + pair_count(s2, pair),
        pair_count(s1 + s2, pair) == split_pair_count(seq![s1, s2], pair) + if s1.len() > 0
            && s2.len() > 0 && s1.last() == pair.0 && s2.first() == pair.1 {
            1nat
        } else {
            0nat
        },
{
    lemma_pair_count_concat(s1, s2, pair);
    let ss = seq![s1, s2];
    assert(ss.len() == 2 && ss[0] == s1 && ss[1] == s2);
    assert(ss.drop_last() =~= seq![s1]);
    assert(ss.last() == s2);
    assert(seq![s1].drop_last() =~= Seq::<Seq<u32>>::empty());
    assert(seq![s1].last() == s1);
    assert(split_pair_count(Seq::<Seq<u32>>::empty(), pair) == 0);
    assert(split_pair_count(seq![s1], pair) == split_pair_count(Seq::<Seq<u32>>::empty(), pair)
        + pair_count(s1, pair));
    assert(split_pair_count(ss, pair) == split_pair_count(seq![s1], pair) + pair_count(s2, pair));
}

/// Presplit boundary property, rewriting side: a training step rewrites
/// each segment by itself, and every segment keeps its own byte expansion —
/// no merge ever moves bytes across a segment boundary, so no learned rule
/// combines the tail of one segment with the head of the next.
pub proof fn lemma_split_merge_keeps_segments(
    m: Seq<MergeRule>,
    ts: Seq<Seq<u32>>,
    pair: Pair,
    new_id: u32,
)
    requires
        ids_distinct(m),
        m.contains(((pair.0, pair.1), new_id)),
        pair.0 < new_id,
        pair.1 < new_id,
        256 <= new_id,
    ensures
        split_merge_spec(ts, pair, new_id).len() == ts.len(),
        forall|i: int|
            0 <= i < ts.len() ==> decode_seq(m, #[trigger] split_merge_spec(ts, pair, new_id)[i])
                == decode_seq(m, ts[i]),
{
    assert forall|i: int| 0 <= i < ts.len() implies decode_seq(
        m,
        #[trigger] split_merge_spec(ts, pair, new_id)[i],
    ) == decode_seq(m, ts[i]) by {
        assert(split_merge_spec(ts, pair, new_id)[i] == merge_spec(ts[i], pair, new_id));
        lemma_merge_preserves_decode(m, ts[i], pair, new_id);
    }
}

/// The ordered, non-overlapping segments that the pattern-matching
/// capability yields for a pattern and a text, as byte sequences.
pub uninterp spec fn splits_of(pattern: Seq<char>, text: Seq<char>) -> Seq<Seq<u8>>;

/// Whether the pattern-matching capability succeeds on a pattern and a
/// text: the pattern compiles and every match is produced without error.
pub uninterp spec fn splits_ok(pattern: Seq<char>, text: Seq<char>) -> bool;

/// Relies on fancy_regex::Regex::new and Regex::find_iter: the successive
/// non-overlapping matches of the pattern in the text, in order, determined
/// by pattern and text alone; being disjoint substrings, their lengths sum
/// to at most the text's byte length. Whether the pattern compiles and
/// matching runs to completion is likewise a function of pattern and text
/// alone (the engine is deterministic, with a fixed backtrack limit), so
/// `None` comes exactly when that fails.
#[verifier::external_body]
fn get_splits(text: &str, regex: &str) -> (r: Option<Vec<Vec<u8>>>)
    ensures
        (r is Some) <==> splits_ok(regex@, text@),
        match r {
            Some(v) => views_of(v@) == splits_of(regex@, text@) && total_len(views_of(v@))
                <= usize::MAX,
            None => true,
        },
{
    let re = match fancy_regex::Regex::new(regex) {
        Ok(re) => re,
        Err(_) => return None,
    };
    let mut out: Vec<Vec<u8>> = Vec::new();
    for m in re.find_iter(text) {
        match m {
            Ok(m) => out.push(m.as_str().as_bytes().to_vec()),
            Err(_) => return None,
        }
    }
    Some(out)
}

fn splits_to_tokens(splits: &Vec<Vec<u8>>) -> (r: Vec<Vec<u32>>)
    ensures
        r@.len() == splits@.len(),
        forall|i: int|
            0 <= i < r@.len() ==> (#[trigger] r@[i])@ == splits@[i]@.map_values(|b: u8| b as u32),
{
    let mut r: Vec<Vec<u32>> = Vec::new();
    let mut i: usize = 0;
    while i < splits.len()
        invariant
            i <= splits@.len(),
            r@.len() == i,
            forall|k: int|
                0 <= k < i ==> (#[trigger] r@[k])@ == splits@[k]@.map_values(|b: u8| b as u32),
        decreases splits@.len() - i,
    {
        r.push(crate::basic::bytes_to_tokens(splits[i].as_slice()));
        i = i + 1;
    }
    r
}

/// Counts adjacent pairs per segment and sums the tables: a pair that
/// would straddle a segment boundary is never counted.
pub fn get_stats_from_splits(splits: &Vec<Vec<u32>>) -> (res: Vec<StatEntry>)
    requires
        total_len(views_of(splits@)) <= usize::MAX,
    ensures
        crate::utils::stats_wf(res@),
        forall|p: Pair|
            #![trigger stats_val(res@, p)]
            stats_val(res@, p) == split_pair_count(views_of(splits@), p),
{
    let mut res: Vec<StatEntry> = Vec::new();
    let ghost dv = views_of(splits@);
    proof {
        assert(dv.take(0) =~= Seq::<Seq<u32>>::empty());
    }
    let mut i: usize = 0;
    while i < splits.len()
        invariant
            i <= splits@.len(),
            dv == views_of(splits@),
            dv.len() == splits@.len(),
            total_len(dv) <= usize::MAX,
            crate::utils::stats_wf(res@),
            forall|p: Pair|
                #![trigger stats_val(res@, p)]
                stats_val(res@, p) == split_pair_count(dv.take(i as int), p),
        decreases splits@.len() - i,
    {
        proof {
            assert(dv[i as int] == splits@[i as int]@);
            assert forall|p: Pair| #![trigger pair_count(splits@[i as int]@, p)] stats_val(res@, p)
                + pair_count(splits@[i as int]@, p) <= usize::MAX by {
                lemma_split_pair_count_take_step(dv, p, i as int);
                lemma_split_pair_count_take_mono(dv, p, i as int + 1);
                lemma_split_pair_count_le_total(dv, p);
            }
        }
        let ghost pre = res@;
        accumulate_stats(&mut res, splits[i].as_slice());
        proof {
            assert forall|p: Pair| #![trigger stats_val(res@, p)] stats_val(res@, p)
                == split_pair_count(dv.take(i as int + 1), p) by {
                lemma_split_pair_count_take_step(dv, p, i as int);
                assert(stats_val(res@, p) == stats_val(pre, p) + pair_count(
                    splits@[i as int]@,
                    p,
                ));
            }
        }
        i = i + 1;
    }
    proof {
        assert(dv.take(dv.len() as int) =~= dv);
    }
    res
}

/// Applies one pair replacement inside every segment, never across a
/// boundary.
pub fn merge_in_splits(splits: &Vec<Vec<u32>>, pair: (u32, u32), idx: u32) -> (r: Vec<Vec<u32>>)
    ensures
        r@.len() == splits@.len(),
        forall|i: int|
            0 <= i < r@.len() ==> (#[trigger] r@[i])@ == merge_spec(splits@[i]@, pair, idx),
{
    let mut r: Vec<Vec<u32>> = Vec::new();
    let mut i: usize = 0;
    while i < splits.len()
        invariant
            i <= splits@.len(),
            r@.len() == i,
            forall|k: int|
                0 <= k < i ==> (#[trigger] r@[k])@ == merge_spec(splits@[k]@, pair, idx),
        decreases splits@.len() - i,
    {
        r.push(merge(splits[i].as_slice(), pair, idx));
        i = i + 1;
    }
    r
}

/// Runs the BPE training loop over already-segmented byte input: pair
/// statistics are summed over the segments, and each learned merge is
/// applied within single segments only. The learned rules rebuild every
/// segment's bytes independently, from at least `vocab_size - 256` fewer
/// tokens in all.
#[verifier::rlimit(100)]
pub fn train_from_splits(splits: &Vec<Vec<u8>>, vocab_size: u32) -> (r: Result<
    BasicTokenizer,
    TrainError,
>)
    requires
        vocab_size >= 256,
        total_len(views_of(splits@)) <= usize::MAX,
    ensures
        vocab_size == 256 ==> r is Ok,
        match r {
            Ok(tok) => tok.wf() && tok.merges@.len() == vocab_size - 256 && (forall|i: int|
                0 <= i < tok.merges@.len() ==> (#[trigger] tok.merges@[i]).1 == 256 + i)
                && splits_compress_to(tok.merges@, views_of(splits@), vocab_size - 256) && (
            vocab_size > 256 ==> exists|i: int|
                0 <= i < splits@.len() && (#[trigger] splits@[i])@.len() >= 2) && train_splits_spec(
                splits_tokens(views_of(splits@)),
                (vocab_size - 256) as nat,
                0,
            ) == Some(tok.merges@),
            Err(e) => e == TrainError::NotEnoughPairs && vocab_size > 256 && train_splits_spec(
                splits_tokens(views_of(splits@)),
                (vocab_size - 256) as nat,
                0,
            ) is None,
        },
{
    let ghost segs = views_of(splits@);
    let mut tsplits = splits_to_tokens(splits);
    let ghost raw_ts = views_of(tsplits@);
    proof {
        assert forall|i: int| 0 <= i < tsplits@.len() implies decode_seq(
            Seq::<MergeRule>::empty(),
            (#[trigger] tsplits@[i])@,
        ) == segs[i] && tokens_valid(Seq::<MergeRule>::empty(), tsplits@[i]@) by {
            crate::basic::lemma_decode_seq_low(Seq::<MergeRule>::empty(), tsplits@[i]@);
            assert(tsplits@[i]@ == splits@[i]@.map_values(|b: u8| b as u32));
            assert(decode_seq(Seq::<MergeRule>::empty(), tsplits@[i]@) =~= splits@[i]@);
        }
        assert forall|i: int| 0 <= i < tsplits@.len() implies (#[trigger] views_of(tsplits@)[i]).len()
            == segs[i].len() by {
            assert(views_of(tsplits@)[i] == tsplits@[i]@);
        }
        lemma_total_len_pointwise(views_of(tsplits@), segs);
        assert forall|i: int| 0 <= i < raw_ts.len() implies #[trigger] raw_ts[i]
            == splits_tokens(segs)[i] by {
            assert(raw_ts[i] == tsplits@[i]@);
            assert(segs[i] == splits@[i]@);
            assert(splits_tokens(segs)[i] == segs[i].map_values(|b: u8| b as u32));
        }
        assert(raw_ts =~= splits_tokens(segs));
        if let Some(rest) = train_splits_spec(raw_ts, (vocab_size - 256) as nat, 0) {
            assert(Seq::<MergeRule>::empty() + rest =~= rest);
        }
    }
    let num_merges = vocab_size - 256;
    let mut merges: Vec<MergeRule> = Vec::new();
    let mut k: u32 = 0;
    while k < num_merges
        invariant
            k <= num_merges,
            num_merges == vocab_size - 256,
            merges@.len() == k as int,
            forall|i: int| 0 <= i < k ==> (#[trigger] merges@[i]).1 == 256 + i,
            forall|i: int|
                0 <= i < k ==> (#[trigger] merges@[i]).0.0 < merges@[i].1 && merges@[i].0.1
                    < merges@[i].1,
            tsplits@.len() == splits@.len(),
            segs == views_of(splits@),
            segs.len() == splits@.len(),
            total_len(segs) <= usize::MAX,
            forall|i: int|
                0 <= i < tsplits@.len() ==> tokens_valid(merges@, (#[trigger] tsplits@[i])@),
            forall|i: int|
                0 <= i < tsplits@.len() ==> decode_seq(merges@, (#[trigger] tsplits@[i])@)
                    == segs[i],
            total_len(views_of(tsplits@)) + k <= total_len(segs),
            k >= 1 ==> exists|i: int| 0 <= i < segs.len() && (#[trigger] segs[i]).len() >= 2,
            raw_ts == splits_tokens(segs),
            match train_splits_spec(views_of(tsplits@), (num_merges - k) as nat, k as nat) {
                Some(rest) => train_splits_spec(raw_ts, num_merges as nat, 0) == Some(
                    merges@ + rest,
                ),
                None => train_splits_spec(raw_ts, num_merges as nat, 0) is None,
            },
        decreases num_merges - k,
    {
        let stats = get_stats_from_splits(&tsplits);
        match get_top_pair(&stats) {
            Some((pair, count)) => {
                let new_id: u32 = 256 + k;
                let ghost old_merges = merges@;
                let ghost old_tsv = views_of(tsplits@);
                proof {
                    assert(stats_has(stats@, pair));
                    let si = stats_index(stats@, pair);
                    assert(0 <= si < stats@.len() && stats@[si].0 == pair);
                    assert(stats@[si].1 > 0);
                    assert(count > 0);
                    assert(stats_val(stats@, pair) == split_pair_count(old_tsv, pair));
                    lemma_top_entry_is_top_split_pair(stats@, old_tsv, (pair, count));
                    lemma_split_pair_count_pos(old_tsv, pair);
                    let w = choose|i: int|
                        0 <= i < old_tsv.len() && pair_count(#[trigger] old_tsv[i], pair) > 0;
                    lemma_pair_count_pos(old_tsv[w], pair);
                    assert(has_pair(old_tsv[w], pair));
                    let wp = choose|q: int|
                        #![trigger old_tsv[w][q], old_tsv[w][q + 1]]
                        0 <= q && q + 1 < old_tsv[w].len() && old_tsv[w][q] == pair.0
                            && old_tsv[w][q + 1] == pair.1;
                    assert(old_tsv[w] == tsplits@[w]@);
                    assert(pair.0 < 256 + k && pair.1 < 256 + k);
                    assert(old_tsv[w].len() >= 2);
                }
                let new_tsplits = merge_in_splits(&tsplits, pair, new_id);
                merges.push(((pair.0, pair.1), new_id));
                tsplits = new_tsplits;
                proof {
                    let rule = ((pair.0, pair.1), new_id);
                    assert(merges@ == old_merges.push(rule));
                    assert(ids_distinct(old_merges));
                    assert(merges@[k as int] == rule);
                    assert(merges@.contains(rule));
                    let tsv = views_of(tsplits@);
                    assert(tsv.len() == old_tsv.len());
                    assert forall|i: int| 0 <= i < tsv.len() implies #[trigger] tsv[i]
                        == merge_spec(old_tsv[i], pair, new_id) by {
                        assert(tsv[i] == tsplits@[i]@);
                    }
                    assert(tsv =~= split_merge_spec(old_tsv, pair, new_id));
                    lemma_split_merge_total_len(old_tsv, pair, new_id);
                    assert forall|i: int| 0 <= i < tsplits@.len() implies decode_seq(
                        merges@,
                        (#[trigger] tsplits@[i])@,
                    ) == segs[i] && tokens_valid(merges@, tsplits@[i]@) by {
                        lemma_decode_seq_push_rule(old_merges, rule, old_tsv[i]);
                        lemma_merge_preserves_decode(merges@, old_tsv[i], pair, new_id);
                        lemma_merge_spec_len(old_tsv[i], pair, new_id);
                        lemma_merge_spec_elements(old_tsv[i], pair, new_id);
                        assert(tsplits@[i]@ == merge_spec(old_tsv[i], pair, new_id));
                        assert forall|j: int| 0 <= j < tsplits@[i]@.len() implies #[trigger] tsplits@[i]@[j]
                            < 256 + (k + 1) by {
                            if tsplits@[i]@[j] != new_id {
                                let w2 = choose|w2: int|
                                    0 <= w2 < old_tsv[i].len() && old_tsv[i][w2]
                                        == tsplits@[i]@[j];
                                assert(old_tsv[i][w2] < 256 + k);
                            }
                        }
                    }
                    // the witness segment had two bytes' worth of tokens
                    let wt = choose|i: int|
                        0 <= i < old_tsv.len() && pair_count(#[trigger] old_tsv[i], pair) > 0;
                    assert(old_tsv[wt].len() >= 2);
                    assert(wf_merges(old_merges)) by {
                        assert forall|id: u32| 256 <= id < 256 + old_merges.len() implies #[trigger] has_rule(
                            old_merges,
                            id,
                        ) by {
                            let ii = id - 256;
                            assert(old_merges[ii as int].1 == id);
                        }
                    }
                    lemma_decode_seq_len(old_merges, old_tsv[wt]);
                    assert(segs[wt].len() >= 2);
                    // the replay model takes the very same step
                    assert(is_top_split_pair(old_tsv, pair));
                    let pc = choose|p: Pair| is_top_split_pair(old_tsv, p);
                    lemma_top_split_pair_unique(old_tsv, pc, pair);
                    assert((256 + (k as nat)) as u32 == new_id);
                    assert(train_splits_spec(old_tsv, (num_merges - k) as nat, k as nat) == (
                    match train_splits_spec(tsv, (num_merges - k - 1) as nat, (k + 1) as nat) {
                        Some(rest) => Some(seq![rule] + rest),
                        None => None,
                    }));
                    if let Some(rest) = train_splits_spec(
                        tsv,
                        (num_merges - k - 1) as nat,
                        (k + 1) as nat,
                    ) {
                        assert(old_merges + (seq![rule] + rest) =~= merges@ + rest);
                    }
                }
                k = k + 1;
            },
            None => {
                proof {
                    let tsv = views_of(tsplits@);
                    assert forall|p: Pair| !is_top_split_pair(tsv, p) by {
                        assert(stats_val(stats@, p) == split_pair_count(tsv, p));
                        assert(stats@.len() == 0);
                        assert(!stats_has(stats@, p));
                    }
                    assert(train_splits_spec(tsv, (num_merges - k) as nat, k as nat) is None);
                }
                return Err(TrainError::NotEnoughPairs);
            },
        }
    }
    proof {
        assert(train_splits_spec(views_of(tsplits@), 0, num_merges as nat) == Some(
            Seq::<MergeRule>::empty(),
        ));
        assert(merges@ + Seq::<MergeRule>::empty() =~= merges@);
        assert(train_splits_spec(raw_ts, num_merges as nat, 0) == Some(merges@));
        assert forall|id: u32| 256 <= id < 256 + merges@.len() implies #[trigger] has_rule(
            merges@,
            id,
        ) by {
            let i = id - 256;
            assert(merges@[i as int].1 == id);
        }
        assert(wf_merges(merges@));
    }
    let tok = BasicTokenizer::from_merges(&merges);
    proof {
        let tsv = views_of(tsplits@);
        assert forall|i: int| 0 <= i < tsv.len() implies #[trigger] split_decode(tok.merges@, tsv)[i]
            == segs[i] by {
            assert(split_decode(tok.merges@, tsv)[i] == decode_seq(tok.merges@, tsv[i]));
            assert(tsv[i] == tsplits@[i]@);
        }
        assert(split_decode(tok.merges@, tsv) =~= segs);
        assert(splits_compress_to(tok.merges@, segs, vocab_size - 256));
    }
    Ok(tok)
}

/// Two segment families of pointwise equal lengths have equal total length.
proof fn lemma_total_len_pointwise<A, B>(s1: Seq<Seq<A>>, s2: Seq<Seq<B>>)
    requires
        s1.len() == s2.len(),
        forall|i: int| 0 <= i < s1.len() ==> (#[trigger] s1[i]).len() == s2[i].len(),
    ensures
        total_len(s1) == total_len(s2),
    decreases s1.len(),
{
    if s1.len() > 0 {
        assert(forall|i: int|
            0 <= i < s1.drop_last().len() ==> (#[trigger] s1.drop_last()[i]).len()
                == s2.drop_last()[i].len());
        lemma_total_len_pointwise(s1.drop_last(), s2.drop_last());
    }
}

/// Trains a tokenizer on text that is first segmented by the supplied
/// pattern: statistics are summed over the segments and merges never cross
/// a segment boundary, while the learned rules remain global. A pattern
/// that cannot be compiled or matched is reported as `InvalidPattern`,
/// exactly then and never silently; otherwise the result is the greedy
/// replay over the segments, succeeding or running out of pairs as the
/// replay does.
pub fn tokenizer_with_presplit(text: &str, vocab_size: u32, regex: &str) -> (r: Result<
    BasicTokenizer,
    TrainError,
>)
    requires
        vocab_size >= 256,
    ensures
        (r == Err::<BasicTokenizer, TrainError>(TrainError::InvalidPattern)) <==> !splits_ok(
            regex@,
            text@,
        ),
        vocab_size == 256 && splits_ok(regex@, text@) ==> r is Ok,
        match r {
            Ok(tok) => tok.wf() && tok.merges@.len() == vocab_size - 256 && (forall|i: int|
                0 <= i < tok.merges@.len() ==> (#[trigger] tok.merges@[i]).1 == 256 + i)
                && splits_compress_to(tok.merges@, splits_of(regex@, text@), vocab_size - 256) && (
            vocab_size > 256 ==> exists|i: int|
                0 <= i < splits_of(regex@, text@).len() && (#[trigger] splits_of(
                    regex@,
                    text@,
                )[i]).len() >= 2) && train_splits_spec(
                splits_tokens(splits_of(regex@, text@)),
                (vocab_size - 256) as nat,
                0,
            ) == Some(tok.merges@),
            Err(e) => e == TrainError::InvalidPattern || (e == TrainError::NotEnoughPairs
                && vocab_size > 256 && train_splits_spec(
                splits_tokens(splits_of(regex@, text@)),
                (vocab_size - 256) as nat,
                0,
            ) is None),
        },
{
    match get_splits(text, regex) {
        Some(splits) => {
            proof {
                assert(views_of(splits@) == splits_of(regex@, text@));
            }
            let r = train_from_splits(&splits, vocab_size);
            proof {
                if r is Ok {
                    if vocab_size > 256 {
                        let i = choose|i: int|
                            0 <= i < splits@.len() && (#[trigger] splits@[i])@.len() >= 2;
                        assert(views_of(splits@)[i] == splits@[i]@);
                        assert(splits_of(regex@, text@)[i].len() >= 2);
                    }
                }
            }
            r
        },
        None => Err(TrainError::InvalidPattern),
    }
}

} // verus!
