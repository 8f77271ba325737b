//! Pair counting, pair replacement and top-pair selection: the primitive
//! operations of the BPE training and encoding loops.

use vstd::prelude::*;

verus! {

/// An ordered pair of adjacent token ids.
pub type Pair = (u32, u32);

/// One occurrence-count entry of a pair-frequency table.
pub type StatEntry = ((u32, u32), usize);

/// How often `pair` stands at adjacent positions of `s`. Every position
/// counts, so a run of one symbol yields overlapping occurrences:
/// `[2, 2, 2]` holds `(2, 2)` at two positions.
pub open spec fn pair_count(s: Seq<u32>, pair: Pair) -> nat
    decreases s.len(),
{
    if s.len() < 2 {
        0
    } else {
        pair_count(s.drop_last(), pair) + if s[s.len() - 2] == pair.0 && s[s.len() - 1]
            == pair.1 {
            1nat
        } else {
            0nat
        }
    }
}

/// `pair` stands at some adjacent position of `s`.
pub open spec fn has_pair(s: Seq<u32>, pair: Pair) -> bool {
    exists|i: int| #![trigger s[i], s[i + 1]] 0 <= i && i + 1 < s.len() && s[i] == pair.0 && s[i + 1] == pair.1
}

/// The left-to-right rewrite of `s` that replaces each non-overlapping
/// occurrence of `pair` by `new_id`: at a match both elements are consumed,
/// so a run of one symbol is merged pairwise, not recursively.
pub open spec fn merge_spec(s: Seq<u32>, pair: Pair, new_id: u32) -> Seq<u32>
    decreases s.len(),
{
    if s.len() == 0 {
        Seq::empty()
    } else if s.len() >= 2 && s[0] == pair.0 && s[1] == pair.1 {
        seq![new_id] + merge_spec(s.skip(2), pair, new_id)
    } else {
        seq![s[0]] + merge_spec(s.skip(1), pair, new_id)
    }
}

pub proof fn lemma_pair_count_take_step(s: Seq<u32>, pair: Pair, i: int)
    requires
        1 <= i < s.len(),
    ensures
        pair_count(s.take(i + 1), pair) == pair_count(s.take(i), pair) + if s[i - 1] == pair.0
            && s[i] == pair.1 {
            1nat
        } else {
            0nat
        },
{
    assert(s.take(i + 1).drop_last() =~= s.take(i));
    assert(s.take(i + 1)[i - 1] == s[i - 1]);
    assert(s.take(i + 1)[i] == s[i]);
}

pub proof fn lemma_pair_count_take_mono(s: Seq<u32>, pair: Pair, i: int)
    requires
        0 <= i <= s.len(),
    ensures
        pair_count(s.take(i), pair) <= pair_count(s, pair),
    decreases s.len(),
{
    if i == s.len() {
        assert(s.take(i) =~= s);
    } else if s.len() >= 1 {
        assert(s.drop_last().take(i) =~= s.take(i));
        lemma_pair_count_take_mono(s.drop_last(), pair, i);
    }
}

pub proof fn lemma_pair_count_bound(s: Seq<u32>, pair: Pair)
    ensures
        s.len() >= 1 ==> pair_count(s, pair) <= s.len() - 1,
        s.len() == 0 ==> pair_count(s, pair) == 0,
    decreases s.len(),
{
    if s.len() >= 2 {
        lemma_pair_count_bound(s.drop_last(), pair);
    }
}

/// A pair occurs at some position exactly when its count is positive.
pub proof fn lemma_pair_count_pos(s: Seq<u32>, pair: Pair)
    ensures
        pair_count(s, pair) > 0 <==> has_pair(s, pair),
    decreases s.len(),
{
    if s.len() < 2 {
        assert(!has_pair(s, pair));
    } else {
        lemma_pair_count_pos(s.drop_last(), pair);
        let n = s.len() as int;
        if s[n - 2] == pair.0 && s[n - 1] == pair.1 {
            assert(s[n - 2] == pair.0 && s[(n - 2) + 1] == pair.1);
            assert(has_pair(s, pair));
        } else {
            if has_pair(s, pair) {
                let i = choose|i: int|
                    #![trigger s[i], s[i + 1]]
                    0 <= i && i + 1 < s.len() && s[i] == pair.0 && s[i + 1] == pair.1;
                assert(i + 1 < n - 1);
                assert(s.drop_last()[i] == pair.0 && s.drop_last()[i + 1] == pair.1);
                assert(has_pair(s.drop_last(), pair));
            }
            if has_pair(s.drop_last(), pair) {
                let i = choose|i: int|
                    #![trigger s.drop_last()[i], s.drop_last()[i + 1]]
                    0 <= i && i + 1 < s.drop_last().len() && s.drop_last()[i] == pair.0
                        && s.drop_last()[i + 1] == pair.1;
                assert(s[i] == pair.0 && s[i + 1] == pair.1);
                assert(has_pair(s, pair));
            }
        }
    }
}

/// Replacing a pair never lengthens a sequence, and strictly shortens it
/// whenever the pair occurs.
pub proof fn lemma_merge_spec_len(s: Seq<u32>, pair: Pair, new_id: u32)
    ensures
        merge_spec(s, pair, new_id).len() <= s.len(),
        has_pair(s, pair) ==> merge_spec(s, pair, new_id).len() < s.len(),
    decreases s.len(),
{
    if s.len() == 0 {
        assert(!has_pair(s, pair));
    } else if s.len() >= 2 && s[0] == pair.0 && s[1] == pair.1 {
        lemma_merge_spec_len(s.skip(2), pair, new_id);
    } else {
        lemma_merge_spec_len(s.skip(1), pair, new_id);
        if has_pair(s, pair) {
            let i = choose|i: int|
                #![trigger s[i], s[i + 1]]
                0 <= i && i + 1 < s.len() && s[i] == pair.0 && s[i + 1] == pair.1;
            assert(i >= 1);
            assert(s.skip(1)[i - 1] == pair.0 && s.skip(1)[i] == pair.1);
            assert(has_pair(s.skip(1), pair));
        }
    }
}

/// Every element of the rewritten sequence is the new id or an element of
/// the original.
pub proof fn lemma_merge_spec_elements(s: Seq<u32>, pair: Pair, new_id: u32)
    ensures
        forall|j: int|
            0 <= j < merge_spec(s, pair, new_id).len() ==> #[trigger] merge_spec(
                s,
                pair,
                new_id,
            )[j] == new_id || s.contains(merge_spec(s, pair, new_id)[j]),
    decreases s.len(),
{
    if s.len() == 0 {
    } else if s.len() >= 2 && s[0] == pair.0 && s[1] == pair.1 {
        lemma_merge_spec_elements(s.skip(2), pair, new_id);
        let m = merge_spec(s, pair, new_id);
        let rest = merge_spec(s.skip(2), pair, new_id);
        assert forall|j: int| 0 <= j < m.len() implies #[trigger] m[j] == new_id || s.contains(
            m[j],
        ) by {
            if j >= 1 {
                assert(m[j] == rest[j - 1]);
                if rest[j - 1] != new_id {
                    let k = choose|k: int| #![trigger s.skip(2)[k]] 0 <= k < s.skip(2).len() && s.skip(2)[k] == rest[j - 1];
                    assert(s[k + 2] == rest[j - 1]);
                }
            }
        }
    } else {
        lemma_merge_spec_elements(s.skip(1), pair, new_id);
        let m = merge_spec(s, pair, new_id);
        let rest = merge_spec(s.skip(1), pair, new_id);
        assert forall|j: int| 0 <= j < m.len() implies #[trigger] m[j] == new_id || s.contains(
            m[j],
        ) by {
            if j == 0 {
                assert(s.contains(s[0]));
            } else {
                assert(m[j] == rest[j - 1]);
                if rest[j - 1] != new_id {
                    let k = choose|k: int| #![trigger s.skip(1)[k]] 0 <= k < s.skip(1).len() && s.skip(1)[k] == rest[j - 1];
                    assert(s[k + 1] == rest[j - 1]);
                }
            }
        }
    }
}

/// Rewrites `tokens` left to right: wherever two adjacent elements equal
/// `pair`, emits `idx` and skips both; otherwise emits the element.
pub fn merge(tokens: &[u32], pair: (u32, u32), idx: u32) -> (res: Vec<u32>)
    ensures
        res@ == merge_spec(tokens@, pair, idx),
{
    let mut res: Vec<u32> = Vec::new();
    let mut i: usize = 0;
    proof {
        assert(tokens@.skip(0) =~= tokens@);
        assert(res@ + merge_spec(tokens@, pair, idx) =~= merge_spec(tokens@, pair, idx));
    }
    while i < tokens.len()
        invariant
            i <= tokens@.len(),
            merge_spec(tokens@, pair, idx) == res@ + merge_spec(tokens@.skip(i as int), pair, idx),
        decreases tokens@.len() - i,
    {
        let ghost pre = res@;
        let ghost tail = tokens@.skip(i as int);
        proof {
            assert(tail.len() == tokens@.len() - i);
            assert(tail[0] == tokens@[i as int]);
        }
        if i + 1 < tokens.len() && tokens[i] == pair.0 && tokens[i + 1] == pair.1 {
            res.push(idx);
            proof {
                assert(tail[1] == tokens@[i as int + 1]);
                assert(tail.skip(2) =~= tokens@.skip(i as int + 2));
                assert(merge_spec(tail, pair, idx) == seq![idx] + merge_spec(
                    tokens@.skip(i as int + 2),
                    pair,
                    idx,
                ));
                assert(pre + (seq![idx] + merge_spec(tokens@.skip(i as int + 2), pair, idx))
                    =~= res@ + merge_spec(tokens@.skip(i as int + 2), pair, idx));
            }
            i = i + 2;
        } else {
            res.push(tokens[i]);
            proof {
                assert(tail.skip(1) =~= tokens@.skip(i as int + 1));
                assert(merge_spec(tail, pair, idx) == seq![tail[0]] + merge_spec(
                    tokens@.skip(i as int + 1),
                    pair,
                    idx,
                ));
                assert(pre + (seq![tail[0]] + merge_spec(tokens@.skip(i as int + 1), pair, idx))
                    =~= res@ + merge_spec(tokens@.skip(i as int + 1), pair, idx));
            }
            i = i + 1;
        }
    }
    proof {
        assert(tokens@.skip(tokens@.len() as int) =~= Seq::<u32>::empty());
        assert(res@ + Seq::<u32>::empty() =~= res@);
    }
    res
}

/// Some entry of `stats` carries the key `p`.
pub open spec fn stats_has(stats: Seq<StatEntry>, p: Pair) -> bool {
    exists|j: int| #![trigger stats[j]] 0 <= j < stats.len() && stats[j].0 == p
}

/// The index of the entry carrying `p`; meaningful under `stats_wf`.
pub open spec fn stats_index(stats: Seq<StatEntry>, p: Pair) -> int {
    choose|j: int| #![trigger stats[j]] 0 <= j < stats.len() && stats[j].0 == p
}

/// The count recorded for `p`: the entry's value, or zero if absent.
pub open spec fn stats_val(stats: Seq<StatEntry>, p: Pair) -> nat {
    if stats_has(stats, p) {
        stats[stats_index(stats, p)].1 as nat
    } else {
        0
    }
}

/// A well-formed frequency table: one entry per key, every count positive.
pub open spec fn stats_wf(stats: Seq<StatEntry>) -> bool {
    &&& forall|j: int, k: int|
        0 <= j < stats.len() && 0 <= k < stats.len() && j != k ==> stats[j].0 != stats[k].0
    &&& forall|j: int| 0 <= j < stats.len() ==> (#[trigger] stats[j]).1 > 0
}

/// Under `stats_wf`, an entry's value is the value `stats_val` reports for
/// its key.
pub proof fn lemma_stats_entry_val(stats: Seq<StatEntry>, j: int)
    requires
        stats_wf(stats),
        0 <= j < stats.len(),
    ensures
        stats_has(stats, stats[j].0),
        stats_val(stats, stats[j].0) == stats[j].1,
{
    let p = stats[j].0;
    assert(stats_has(stats, p));
    let k = stats_index(stats, p);
    assert(0 <= k < stats.len() && stats[k].0 == p);
    assert(k == j);
}

pub proof fn lemma_stats_push(stats: Seq<StatEntry>, p: Pair, v: usize)
    requires
        stats_wf(stats),
        !stats_has(stats, p),
        v > 0,
    ensures
        stats_wf(stats.push((p, v))),
        stats_val(stats.push((p, v)), p) == v,
        forall|q: Pair| q != p ==> stats_val(stats.push((p, v)), q) == stats_val(stats, q),
{
    let s2 = stats.push((p, v));
    let w = stats.len() as int;
    assert(0 <= w < s2.len());
    assert(s2[w] == (p, v));
    assert(s2[w].0 == p);
    assert forall|j: int, k: int|
        0 <= j < s2.len() && 0 <= k < s2.len() && j != k implies s2[j].0 != s2[k].0 by {
        if j < stats.len() && k < stats.len() {
            assert(stats[j].0 != stats[k].0);
        } else if j == stats.len() {
            assert(s2[k].0 == stats[k].0);
            if stats[k].0 == p {
                assert(stats_has(stats, p));
            }
        } else {
            assert(s2[j].0 == stats[j].0);
            if stats[j].0 == p {
                assert(stats_has(stats, p));
            }
        }
    }
    assert(stats_has(s2, p));
    let j3 = stats_index(s2, p);
    assert(0 <= j3 < s2.len() && s2[j3].0 == p);
    if j3 < stats.len() {
        assert(stats[j3].0 == p);
        assert(stats_has(stats, p));
    }
    assert(s2[j3].1 == v);
    assert forall|q: Pair| q != p implies stats_val(s2, q) == stats_val(stats, q) by {
        if stats_has(stats, q) {
            let j = stats_index(stats, q);
            assert(0 <= j < stats.len() && stats[j].0 == q);
            assert(s2[j].0 == q);
            assert(stats_has(s2, q));
            let j2 = stats_index(s2, q);
            assert(0 <= j2 < s2.len() && s2[j2].0 == q);
            assert(j2 != stats.len());
            assert(stats[j2].0 == q);
            assert(j2 == j);
        } else {
            if stats_has(s2, q) {
                let j2 = stats_index(s2, q);
                assert(j2 < stats.len());
                assert(stats[j2].0 == q);
                assert(stats_has(stats, q));
            }
        }
    }
}

pub proof fn lemma_stats_update(stats: Seq<StatEntry>, j: int, v: usize)
    requires
        stats_wf(stats),
        0 <= j < stats.len(),
        v > 0,
    ensures
        stats_wf(stats.update(j, (stats[j].0, v))),
        stats_val(stats.update(j, (stats[j].0, v)), stats[j].0) == v,
        forall|q: Pair|
            q != stats[j].0 ==> stats_val(stats.update(j, (stats[j].0, v)), q) == stats_val(
                stats,
                q,
            ),
{
    let p = stats[j].0;
    let s2 = stats.update(j, (p, v));
    assert(forall|k: int| 0 <= k < s2.len() ==> (#[trigger] s2[k]).0 == stats[k].0);
    assert(s2[j] == (p, v));
    assert(s2[j].0 == p);
    assert(stats_has(s2, p));
    let j2 = stats_index(s2, p);
    assert(0 <= j2 < s2.len() && s2[j2].0 == p);
    assert(stats[j2].0 == p);
    assert(j2 == j);
    assert(s2[j].1 == v);
    assert forall|q: Pair| q != p implies stats_val(s2, q) == stats_val(stats, q) by {
        if stats_has(stats, q) {
            let k = stats_index(stats, q);
            assert(0 <= k < stats.len() && stats[k].0 == q);
            assert(s2[k].0 == q);
            assert(stats_has(s2, q));
            let k2 = stats_index(s2, q);
            assert(0 <= k2 < s2.len() && s2[k2].0 == q);
            assert(stats[k2].0 == q);
            assert(k2 == k);
            assert(k != j);
            assert(s2[k] == stats[k]);
        } else {
            if stats_has(s2, q) {
                let k2 = stats_index(s2, q);
                assert(stats[k2].0 == q);
                assert(stats_has(stats, q));
            }
        }
    }
}

fn stats_find(stats: &Vec<StatEntry>, p: (u32, u32)) -> (r: Option<usize>)
    ensures
        match r {
            Some(j) => j < stats@.len() && stats@[j as int].0 == p,
            None => !stats_has(stats@, p),
        },
{
    let mut j: usize = 0;
    while j < stats.len()
        invariant
            j <= stats@.len(),
            forall|k: int| 0 <= k < j ==> (#[trigger] stats@[k]).0 != p,
        decreases stats@.len() - j,
    {
        let (q, _) = stats[j];
        if q.0 == p.0 && q.1 == p.1 {
            return Some(j);
        }
        j = j + 1;
    }
    None
}

/// Adds the adjacent-pair counts of one sequence into a running table, so
/// that segmented input can be counted per segment and summed.
pub fn accumulate_stats(stats: &mut Vec<StatEntry>, ids: &[u32])
    requires
        stats_wf(old(stats)@),
        forall|p: Pair|
            #![trigger pair_count(ids@, p)]
            stats_val(old(stats)@, p) + pair_count(ids@, p) <= usize::MAX,
    ensures
        stats_wf(final(stats)@),
        forall|p: Pair|
            #![trigger stats_val(final(stats)@, p)]
            stats_val(final(stats)@, p) == stats_val(old(stats)@, p) + pair_count(ids@, p),
{
    if ids.len() < 2 {
        return;
    }
    let mut i: usize = 1;
    proof {
        assert(forall|p: Pair| pair_count(ids@.take(1), p) == 0);
    }
    while i < ids.len()
        invariant
            1 <= i <= ids@.len(),
            ids@.len() >= 2,
            stats_wf(stats@),
            forall|p: Pair|
                #![trigger stats_val(stats@, p)]
                stats_val(stats@, p) == stats_val(old(stats)@, p) + pair_count(
                    ids@.take(i as int),
                    p,
                ),
            forall|p: Pair|
                #![trigger pair_count(ids@, p)]
                stats_val(old(stats)@, p) + pair_count(ids@, p) <= usize::MAX,
        decreases ids@.len() - i,
    {
        let p = (ids[i - 1], ids[i]);
        proof {
            lemma_pair_count_take_step(ids@, p, i as int);
            lemma_pair_count_take_mono(ids@, p, i as int + 1);
            assert(pair_count(ids@.take(i as int + 1), p) <= pair_count(ids@, p));
        }
        let ghost pre = stats@;
        match stats_find(stats, p) {
            Some(j) => {
                proof {
                    lemma_stats_entry_val(stats@, j as int);
                    assert(stats@[j as int].1 == stats_val(stats@, p));
                }
                let c = stats[j].1;
                proof {
                    assert(c + 1 <= stats_val(old(stats)@, p) + pair_count(
                        ids@.take(i as int + 1),
                        p,
                    ));
                    assert(c < usize::MAX);
                }
                stats[j] = (p, c + 1);
                proof {
                    assert(stats@ == pre.update(j as int, (p, (c + 1) as usize)));
                    lemma_stats_update(pre, j as int, (c + 1) as usize);
                    assert forall|q: Pair|
                        #![trigger stats_val(stats@, q)]
                        stats_val(stats@, q) == stats_val(old(stats)@, q) + pair_count(
                            ids@.take(i as int + 1),
                            q,
                        ) by {
                        lemma_pair_count_take_step(ids@, q, i as int);
                        if q == p {
                            assert(stats_val(stats@, p) == c + 1);
                        } else {
                            assert(stats_val(stats@, q) == stats_val(pre, q));
                        }
                    }
                }
            },
            None => {
                stats.push((p, 1));
                proof {
                    lemma_stats_push(pre, p, 1);
                    assert(stats_val(pre, p) == 0);
                    assert forall|q: Pair|
                        #![trigger stats_val(stats@, q)]
                        stats_val(stats@, q) == stats_val(old(stats)@, q) + pair_count(
                            ids@.take(i as int + 1),
                            q,
                        ) by {
                        lemma_pair_count_take_step(ids@, q, i as int);
                        if q == p {
                            assert(stats_val(stats@, p) == 1);
                        } else {
                            assert(stats_val(stats@, q) == stats_val(pre, q));
                        }
                    }
                }
            },
        }
        i = i + 1;
    }
    proof {
        assert(ids@.take(ids@.len() as int) =~= ids@);
    }
}

/// Counts every adjacent pair of `ids` in one left-to-right pass.
pub fn get_stats(ids: &[u32]) -> (res: Vec<StatEntry>)
    ensures
        stats_wf(res@),
        forall|p: Pair| #![trigger stats_val(res@, p)] stats_val(res@, p) == pair_count(ids@, p),
{
    let mut res: Vec<StatEntry> = Vec::new();
    let n = ids.len();
    proof {
        assert(ids@.len() == n);
        assert forall|p: Pair| #![trigger pair_count(ids@, p)] stats_val(res@, p) + pair_count(
            ids@,
            p,
        ) <= usize::MAX by {
            lemma_pair_count_bound(ids@, p);
            assert(!stats_has(res@, p));
        }
    }
    accumulate_stats(&mut res, ids);
    res
}

/// Lexicographic order on pairs: the explicit, deterministic tie-break for
/// top-pair selection.
pub open spec fn pair_le(p: Pair, q: Pair) -> bool {
    p.0 < q.0 || (p.0 == q.0 && p.1 <= q.1)
}

/// The entry with the highest count; among equal counts, the
/// lexicographically smallest pair, so selection is deterministic.
pub fn get_top_pair(stats: &Vec<StatEntry>) -> (r: Option<((u32, u32), usize)>)
    requires
        stats_wf(stats@),
    ensures
        (r is None) <==> stats@.len() == 0,
        match r {
            Some(pc) => stats_has(stats@, pc.0) && pc.1 == stats_val(stats@, pc.0) && (forall|
                j: int,
            |
                0 <= j < stats@.len() ==> (#[trigger] stats@[j]).1 <= pc.1) && (forall|j: int|
                0 <= j < stats@.len() && (#[trigger] stats@[j]).1 == pc.1 ==> pair_le(
                    pc.0,
                    stats@[j].0,
                )),
            None => true,
        },
{
    if stats.len() == 0 {
        return None;
    }
    let mut best = stats[0];
    let mut i: usize = 1;
    while i < stats.len()
        invariant
            stats_wf(stats@),
            1 <= i <= stats@.len(),
            exists|j: int| #![trigger stats@[j]] 0 <= j < i && stats@[j] == best,
            forall|j: int| 0 <= j < i ==> (#[trigger] stats@[j]).1 <= best.1,
            forall|j: int|
                0 <= j < i && (#[trigger] stats@[j]).1 == best.1 ==> pair_le(best.0, stats@[j].0),
        decreases stats@.len() - i,
    {
        let e = stats[i];
        let better = e.1 > best.1 || (e.1 == best.1 && (e.0.0 < best.0.0 || (e.0.0 == best.0.0
            && e.0.1 < best.0.1)));
        if better {
            best = e;
        }
        i = i + 1;
    }
    proof {
        let j = choose|j: int| #![trigger stats@[j]] 0 <= j < stats@.len() && stats@[j] == best;
        lemma_stats_entry_val(stats@, j);
    }
    Some(best)
}

/// `p` is the selection of one training step over `s`: it occurs, its
/// count is maximal, and among maximal pairs it is lexicographically least.
pub open spec fn is_top_pair(s: Seq<u32>, p: Pair) -> bool {
    &&& pair_count(s, p) > 0
    &&& forall|q: Pair| #![trigger pair_count(s, q)] pair_count(s, q) <= pair_count(s, p)
    &&& forall|q: Pair|
        #![trigger pair_count(s, q)]
        pair_count(s, q) == pair_count(s, p) ==> pair_le(p, q)
}

/// The selection is deterministic: a sequence has at most one top pair.
pub proof fn lemma_top_pair_unique(s: Seq<u32>, p: Pair, q: Pair)
    requires
        is_top_pair(s, p),
        is_top_pair(s, q),
    ensures
        p == q,
{
    assert(pair_count(s, p) == pair_count(s, q));
    assert(pair_le(p, q) && pair_le(q, p));
    assert(p.0 == q.0 && p.1 == q.1);
}

/// The entry that `get_top_pair` selects from an exact frequency table is
/// the top pair of the counted sequence.
pub proof fn lemma_top_entry_is_top_pair(stats: Seq<StatEntry>, s: Seq<u32>, pc: ((u32, u32), usize))
    requires
        stats_wf(stats),
        forall|p: Pair| #![trigger stats_val(stats, p)] stats_val(stats, p) == pair_count(s, p),
        stats_has(stats, pc.0),
        pc.1 == stats_val(stats, pc.0),
        pc.1 > 0,
        forall|j: int| 0 <= j < stats.len() ==> (#[trigger] stats[j]).1 <= pc.1,
        forall|j: int|
            0 <= j < stats.len() && (#[trigger] stats[j]).1 == pc.1 ==> pair_le(pc.0, stats[j].0),
    ensures
        is_top_pair(s, pc.0),
{
    assert(pair_count(s, pc.0) == stats_val(stats, pc.0));
    assert forall|q: Pair| #![trigger pair_count(s, q)] pair_count(s, q) <= pair_count(
        s,
        pc.0,
    ) by {
        assert(stats_val(stats, q) == pair_count(s, q));
        if stats_has(stats, q) {
            let j = stats_index(stats, q);
            assert(0 <= j < stats.len() && stats[j].0 == q);
            assert(stats[j].1 <= pc.1);
        }
    }
    assert forall|q: Pair|
        #![trigger pair_count(s, q)]
        pair_count(s, q) == pair_count(s, pc.0) implies pair_le(pc.0, q) by {
        assert(stats_val(stats, q) == pair_count(s, q));
        assert(stats_val(stats, q) > 0);
        assert(stats_has(stats, q));
        let j = stats_index(stats, q);
        assert(0 <= j < stats.len() && stats[j].0 == q);
        assert(stats[j].1 == stats_val(stats, q));
        assert(pair_le(pc.0, stats[j].0));
    }
}

} // verus!
