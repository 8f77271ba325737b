//! The core BPE engine: merge tables, vocabulary reconstruction, training,
//! encoding and decoding.
//!
//! A merge table is a sequence of rules `((left, right), new_id)`. Ids below
//! 256 denote single raw bytes; synthetic ids start at 256 and are assigned
//! without gaps, so a well-formed table of `n` rules carries exactly the ids
//! `256 .. 256 + n`, each produced from two previously resolvable operands.

use vstd::prelude::*;

use crate::utils::{
    get_stats, get_top_pair, has_pair, is_top_pair, lemma_merge_spec_elements,
    lemma_merge_spec_len, lemma_pair_count_pos, lemma_top_entry_is_top_pair,
    lemma_top_pair_unique, merge, merge_spec, pair_count, stats_has, stats_index, stats_val, Pair,
};
use vstd::string::StrSliceExecFns;
use vstd::utf8::{decode_utf8, encode_utf8, valid_utf8};

verus! {

/// One merge rule: an ordered pair of token ids and the id that replaces it.
pub type MergeRule = ((u32, u32), u32);

/// Why training can fail.
#[derive(Clone, Copy, Debug, PartialEq, Eq)]
pub enum TrainError {
    /// The input ran out of adjacent pairs before the requested vocabulary
    /// size was reached.
    NotEnoughPairs,
    /// The supplied segmentation pattern could not be used.
    InvalidPattern,
}

/// Some rule of `m` assigns the id `id`.
pub open spec fn has_rule(m: Seq<MergeRule>, id: u32) -> bool {
    exists|i: int| #![trigger m[i]] 0 <= i < m.len() && m[i].1 == id
}

/// The index of the rule assigning `id`; meaningful under `ids_distinct`.
pub open spec fn rule_idx(m: Seq<MergeRule>, id: u32) -> int {
    choose|i: int| #![trigger m[i]] 0 <= i < m.len() && m[i].1 == id
}

/// The pair that `id` was produced from, if any rule assigns `id`.
pub open spec fn rule_pair(m: Seq<MergeRule>, id: u32) -> Option<Pair> {
    if has_rule(m, id) {
        Some(m[rule_idx(m, id)].0)
    } else {
        None
    }
}

/// Some rule of `m` has the key `pair`.
pub open spec fn merges_has_key(m: Seq<MergeRule>, pair: Pair) -> bool {
    exists|j: int| #![trigger m[j]] 0 <= j < m.len() && m[j].0 == pair
}

/// No two rules assign the same id.
pub open spec fn ids_distinct(m: Seq<MergeRule>) -> bool {
    forall|i: int, j: int|
        #![trigger m[i], m[j]]
        0 <= i < m.len() && 0 <= j < m.len() && i != j ==> m[i].1 != m[j].1
}

/// A well-formed merge table: the assigned ids are exactly
/// `256 .. 256 + len`, each id once, and every rule's operands are older
/// than the id it assigns (raw bytes or earlier rules).
pub open spec fn wf_merges(m: Seq<MergeRule>) -> bool {
    &&& forall|i: int|
        0 <= i < m.len() ==> 256 <= (#[trigger] m[i]).1 < 256 + m.len()
    &&& forall|i: int|
        0 <= i < m.len() ==> (#[trigger] m[i]).0.0 < m[i].1 && m[i].0.1 < m[i].1
    &&& ids_distinct(m)
    &&& forall|id: u32| 256 <= id < 256 + m.len() ==> #[trigger] has_rule(m, id)
}

/// The raw bytes that token `id` stands for under the merge table `m`:
/// ids below 256 are single bytes; a merged id expands to the expansion of
/// its left operand followed by that of its right operand.
pub open spec fn vocab_bytes(m: Seq<MergeRule>, id: u32) -> Seq<u8>
    decreases id,
{
    if id < 256 {
        seq![id as u8]
    } else if has_rule(m, id) {
        let p = m[rule_idx(m, id)].0;
        if p.0 < id && p.1 < id {
            vocab_bytes(m, p.0) + vocab_bytes(m, p.1)
        } else {
            Seq::empty()
        }
    } else {
        Seq::empty()
    }
}

/// The concatenated expansion of a whole token sequence.
pub open spec fn decode_seq(m: Seq<MergeRule>, tokens: Seq<u32>) -> Seq<u8>
    decreases tokens.len(),
{
    if tokens.len() == 0 {
        Seq::empty()
    } else {
        vocab_bytes(m, tokens[0]) + decode_seq(m, tokens.drop_first())
    }
}

/// Every token is one the table can expand: a raw byte or an assigned id.
pub open spec fn tokens_valid(m: Seq<MergeRule>, tokens: Seq<u32>) -> bool {
    forall|j: int| 0 <= j < tokens.len() ==> #[trigger] tokens[j] < 256 + m.len()
}

/// Some token sequence over `m` expands to `bytes` and is shorter than the
/// bytes by at least `n_merges` tokens: the learned rules really compress
/// what they were learned from.
pub open spec fn compresses_to(m: Seq<MergeRule>, bytes: Seq<u8>, n_merges: int) -> bool {
    exists|t: Seq<u32>|
        #![trigger decode_seq(m, t)]
        decode_seq(m, t) == bytes && t.len() + n_merges <= bytes.len()
}

/// One greedy training run as a function: `k` merges remain and the next
/// synthetic id is `256 + i`. Each step replaces the pair with the highest
/// count — ties broken towards the lexicographically smallest pair — or
/// the whole run yields `None` when no pair is left to merge.
pub open spec fn train_spec(t: Seq<u32>, k: nat, i: nat) -> Option<Seq<MergeRule>>
    decreases k,
{
    if k == 0 {
        Some(Seq::empty())
    } else if exists|p: Pair| is_top_pair(t, p) {
        let p = choose|p: Pair| is_top_pair(t, p);
        let id = (256 + i) as u32;
        match train_spec(merge_spec(t, p, id), (k - 1) as nat, i + 1) {
            Some(rest) => Some(seq![((p.0, p.1), id)] + rest),
            None => None,
        }
    } else {
        None
    }
}

pub proof fn lemma_decode_seq_concat(m: Seq<MergeRule>, t1: Seq<u32>, t2: Seq<u32>)
    ensures
        decode_seq(m, t1 + t2) == decode_seq(m, t1) + decode_seq(m, t2),
    decreases t1.len(),
{
    if t1.len() == 0 {
        assert(t1 + t2 =~= t2);
        assert(decode_seq(m, t1) + decode_seq(m, t2) =~= decode_seq(m, t2));
    } else {
        lemma_decode_seq_concat(m, t1.drop_first(), t2);
        assert((t1 + t2).drop_first() =~= t1.drop_first() + t2);
        assert((t1 + t2)[0] == t1[0]);
        assert(vocab_bytes(m, t1[0]) + (decode_seq(m, t1.drop_first()) + decode_seq(m, t2)) =~= (
        vocab_bytes(m, t1[0]) + decode_seq(m, t1.drop_first())) + decode_seq(m, t2));
    }
}

pub proof fn lemma_decode_seq_singleton(m: Seq<MergeRule>, x: u32)
    ensures
        decode_seq(m, seq![x]) == vocab_bytes(m, x),
{
    let s = seq![x];
    assert(s.len() == 1 && s[0] == x);
    assert(s.drop_first() =~= Seq::<u32>::empty());
    assert(decode_seq(m, Seq::<u32>::empty()) == Seq::<u8>::empty());
    assert(decode_seq(m, s) == vocab_bytes(m, x) + Seq::<u8>::empty());
    assert(vocab_bytes(m, x) + Seq::<u8>::empty() =~= vocab_bytes(m, x));
}

/// A sequence of raw-byte tokens expands to exactly those bytes.
pub proof fn lemma_decode_seq_low(m: Seq<MergeRule>, t: Seq<u32>)
    requires
        forall|k: int| 0 <= k < t.len() ==> #[trigger] t[k] < 256,
    ensures
        decode_seq(m, t) == t.map_values(|x: u32| x as u8),
    decreases t.len(),
{
    if t.len() == 0 {
        assert(t.map_values(|x: u32| x as u8) =~= Seq::<u8>::empty());
    } else {
        assert(forall|k: int|
            0 <= k < t.drop_first().len() ==> #[trigger] t.drop_first()[k] < 256);
        lemma_decode_seq_low(m, t.drop_first());
        assert(decode_seq(m, t) =~= t.map_values(|x: u32| x as u8));
    }
}

/// Under a well-formed table, every expandable token stands for at least
/// one byte.
pub proof fn lemma_vocab_bytes_nonempty(m: Seq<MergeRule>, id: u32)
    requires
        wf_merges(m),
        id < 256 + m.len(),
    ensures
        vocab_bytes(m, id).len() >= 1,
    decreases id,
{
    if id >= 256 {
        assert(has_rule(m, id));
        let j = rule_idx(m, id);
        assert(0 <= j < m.len() && m[j].1 == id);
        assert(m[j].0.0 < id && m[j].0.1 < id);
        lemma_vocab_bytes_nonempty(m, m[j].0.0);
        lemma_vocab_bytes_nonempty(m, m[j].0.1);
    }
}

/// A valid token sequence expands to at least as many bytes as tokens.
pub proof fn lemma_decode_seq_len(m: Seq<MergeRule>, t: Seq<u32>)
    requires
        wf_merges(m),
        tokens_valid(m, t),
    ensures
        decode_seq(m, t).len() >= t.len(),
    decreases t.len(),
{
    if t.len() > 0 {
        lemma_vocab_bytes_nonempty(m, t[0]);
        assert(forall|k: int|
            0 <= k < t.drop_first().len() ==> #[trigger] t.drop_first()[k] < 256 + m.len());
        lemma_decode_seq_len(m, t.drop_first());
    }
}

/// Under distinct ids, the rule found for an id is the rule standing at any
/// index that assigns it.
pub proof fn lemma_vocab_bytes_rule(m: Seq<MergeRule>, i: int)
    requires
        ids_distinct(m),
        0 <= i < m.len(),
        m[i].0.0 < m[i].1,
        m[i].0.1 < m[i].1,
        256 <= m[i].1,
    ensures
        vocab_bytes(m, m[i].1) == vocab_bytes(m, m[i].0.0) + vocab_bytes(m, m[i].0.1),
{
    let id = m[i].1;
    assert(has_rule(m, id));
    let j = rule_idx(m, id);
    assert(0 <= j < m.len() && m[j].1 == id);
    assert(j == i);
}

/// Rewriting a pair into the id its rule assigns leaves the expansion of the
/// sequence unchanged: the heart of the encode/decode round trip.
pub proof fn lemma_merge_preserves_decode(m: Seq<MergeRule>, t: Seq<u32>, pair: Pair, new_id: u32)
    requires
        ids_distinct(m),
        m.contains(((pair.0, pair.1), new_id)),
        pair.0 < new_id,
        pair.1 < new_id,
        256 <= new_id,
    ensures
        decode_seq(m, merge_spec(t, pair, new_id)) == decode_seq(m, t),
    decreases t.len(),
{
    let i = choose|i: int| #![trigger m[i]] 0 <= i < m.len() && m[i] == ((pair.0, pair.1), new_id);
    assert(m[i].1 == new_id && m[i].0 == (pair.0, pair.1));
    lemma_vocab_bytes_rule(m, i);
    if t.len() == 0 {
    } else if t.len() >= 2 && t[0] == pair.0 && t[1] == pair.1 {
        lemma_merge_preserves_decode(m, t.skip(2), pair, new_id);
        lemma_decode_seq_concat(m, seq![new_id], merge_spec(t.skip(2), pair, new_id));
        lemma_decode_seq_singleton(m, new_id);
        assert(merge_spec(t, pair, new_id) == seq![new_id] + merge_spec(t.skip(2), pair, new_id));
        assert(decode_seq(m, merge_spec(t, pair, new_id)) == vocab_bytes(m, new_id) + decode_seq(
            m,
            t.skip(2),
        ));
        let t1 = t.drop_first();
        assert(t1.len() == t.len() - 1);
        assert(t1[0] == t[1]);
        assert(t1.drop_first() =~= t.skip(2));
        assert(decode_seq(m, t1) == vocab_bytes(m, pair.1) + decode_seq(m, t.skip(2)));
        assert(decode_seq(m, t) == vocab_bytes(m, pair.0) + (vocab_bytes(m, pair.1) + decode_seq(
            m,
            t.skip(2),
        )));
        assert((vocab_bytes(m, pair.0) + vocab_bytes(m, pair.1)) + decode_seq(m, t.skip(2)) =~=
        vocab_bytes(m, pair.0) + (vocab_bytes(m, pair.1) + decode_seq(m, t.skip(2))));
    } else {
        lemma_merge_preserves_decode(m, t.skip(1), pair, new_id);
        lemma_decode_seq_concat(m, seq![t[0]], merge_spec(t.skip(1), pair, new_id));
        lemma_decode_seq_singleton(m, t[0]);
        assert(merge_spec(t, pair, new_id) == seq![t[0]] + merge_spec(t.skip(1), pair, new_id));
        assert(decode_seq(m, merge_spec(t, pair, new_id)) == vocab_bytes(m, t[0]) + decode_seq(
            m,
            t.skip(1),
        ));
        assert(t.drop_first() =~= t.skip(1));
        assert(decode_seq(m, t) == vocab_bytes(m, t[0]) + decode_seq(m, t.skip(1)));
    }
}

/// Two tables that agree on which pair every id up to `id` comes from give
/// that id the same expansion.
pub proof fn lemma_vocab_bytes_congruent(m1: Seq<MergeRule>, m2: Seq<MergeRule>, id: u32)
    requires
        forall|id2: u32| id2 <= id ==> #[trigger] rule_pair(m1, id2) == rule_pair(m2, id2),
    ensures
        vocab_bytes(m1, id) == vocab_bytes(m2, id),
    decreases id,
{
    if id >= 256 {
        assert(rule_pair(m1, id) == rule_pair(m2, id));
        if has_rule(m1, id) {
            assert(rule_pair(m1, id) == Some(m1[rule_idx(m1, id)].0));
            assert(has_rule(m2, id));
            let p = m1[rule_idx(m1, id)].0;
            assert(m2[rule_idx(m2, id)].0 == p);
            if p.0 < id && p.1 < id {
                lemma_vocab_bytes_congruent(m1, m2, p.0);
                lemma_vocab_bytes_congruent(m1, m2, p.1);
            }
        } else {
            assert(!has_rule(m2, id));
        }
    }
}

/// Appending a rule for a fresh id leaves every other id's rule unchanged.
pub proof fn lemma_rule_pair_push(m: Seq<MergeRule>, r: MergeRule, id: u32)
    requires
        ids_distinct(m),
        id != r.1,
    ensures
        rule_pair(m.push(r), id) == rule_pair(m, id),
{
    let mp = m.push(r);
    if has_rule(mp, id) {
        let i = rule_idx(mp, id);
        assert(0 <= i < mp.len() && mp[i].1 == id);
        assert(i < m.len());
        assert(m[i].1 == id);
        assert(has_rule(m, id));
        let j = rule_idx(m, id);
        assert(0 <= j < m.len() && m[j].1 == id);
        assert(mp[j].1 == id);
        assert(j == i);
        assert(mp[i] == m[i]);
    } else {
        if has_rule(m, id) {
            let j = rule_idx(m, id);
            assert(mp[j].1 == id);
            assert(has_rule(mp, id));
        }
    }
}

/// Appending a rule whose id is above every token leaves the expansion of
/// those tokens unchanged.
pub proof fn lemma_decode_seq_push_rule(m: Seq<MergeRule>, r: MergeRule, t: Seq<u32>)
    requires
        ids_distinct(m),
        forall|k: int| 0 <= k < t.len() ==> #[trigger] t[k] < r.1,
    ensures
        decode_seq(m.push(r), t) == decode_seq(m, t),
    decreases t.len(),
{
    if t.len() > 0 {
        assert(forall|k: int| 0 <= k < t.drop_first().len() ==> #[trigger] t.drop_first()[k] < r.1);
        lemma_decode_seq_push_rule(m, r, t.drop_first());
        assert forall|id2: u32| id2 <= t[0] implies #[trigger] rule_pair(m.push(r), id2)
            == rule_pair(m, id2) by {
            lemma_rule_pair_push(m, r, id2);
        }
        lemma_vocab_bytes_congruent(m.push(r), m, t[0]);
    }
}

/// Tables holding the same rules assign every id the same pair, whatever
/// the order the rules stand in.
pub proof fn lemma_rule_pair_permutation(m1: Seq<MergeRule>, m2: Seq<MergeRule>, id: u32)
    requires
        ids_distinct(m1),
        ids_distinct(m2),
        m1.to_multiset() == m2.to_multiset(),
    ensures
        rule_pair(m1, id) == rule_pair(m2, id),
{
    broadcast use vstd::seq_lib::to_multiset_contains;

    if has_rule(m1, id) {
        let i = rule_idx(m1, id);
        let rule = m1[i];
        assert(m1.contains(rule));
        assert(m1.to_multiset().count(rule) > 0);
        assert(m2.to_multiset().count(rule) > 0);
        assert(m2.contains(rule));
        let j = choose|j: int| #![trigger m2[j]] 0 <= j < m2.len() && m2[j] == rule;
        assert(has_rule(m2, id));
        let k = rule_idx(m2, id);
        assert(0 <= k < m2.len() && m2[k].1 == id);
        assert(k == j);
        assert(rule_pair(m2, id) == Some(rule.0));
        assert(rule_pair(m1, id) == Some(rule.0));
    } else {
        if has_rule(m2, id) {
            let j = rule_idx(m2, id);
            let rule = m2[j];
            assert(m2.contains(rule));
            assert(m2.to_multiset().count(rule) > 0);
            assert(m1.to_multiset().count(rule) > 0);
            assert(m1.contains(rule));
            let i = choose|i: int| #![trigger m1[i]] 0 <= i < m1.len() && m1[i] == rule;
            assert(has_rule(m1, id));
        }
    }
}

/// Vocabulary determinism: two merge tables holding the same rules, in any
/// iteration order, give every token id the same byte expansion.
pub proof fn lemma_vocab_determinism(m1: Seq<MergeRule>, m2: Seq<MergeRule>)
    requires
        ids_distinct(m1),
        ids_distinct(m2),
        m1.to_multiset() == m2.to_multiset(),
    ensures
        forall|id: u32| #![trigger vocab_bytes(m1, id)] vocab_bytes(m1, id) == vocab_bytes(m2, id),
{
    assert forall|id: u32| #![trigger vocab_bytes(m1, id)] vocab_bytes(m1, id) == vocab_bytes(
        m2,
        id,
    ) by {
        assert forall|id2: u32| id2 <= id implies #[trigger] rule_pair(m1, id2) == rule_pair(
            m2,
            id2,
        ) by {
            lemma_rule_pair_permutation(m1, m2, id2);
        }
        lemma_vocab_bytes_congruent(m1, m2, id);
    }
}

/// Round trip: a token sequence whose expansion under a merge table is the
/// UTF-8 encoding of `text` decodes, byte for byte, back to exactly `text`.
pub proof fn lemma_round_trip(m: Seq<MergeRule>, tokens: Seq<u32>, text: Seq<char>)
    requires
        decode_seq(m, tokens) == encode_utf8(text),
    ensures
        valid_utf8(decode_seq(m, tokens)),
        decode_utf8(decode_seq(m, tokens)) == text,
{
    vstd::utf8::encode_utf8_valid_utf8(text);
    vstd::utf8::encode_utf8_decode_utf8(text);
}

/// The text that lossy UTF-8 decoding yields for an arbitrary byte sequence.
pub uninterp spec fn lossy_of(bytes: Seq<u8>) -> Seq<char>;

/// Relies on String::from_utf8_lossy: the result depends on the bytes alone,
/// and a valid UTF-8 byte sequence decodes to exactly its characters.
#[verifier::external_body]
pub(crate) fn bytes_to_string_lossy(bytes: &Vec<u8>) -> (text: String)
    ensures
        text@ == lossy_of(bytes@),
        valid_utf8(bytes@) ==> text@ == decode_utf8(bytes@),
{
    String::from_utf8_lossy(bytes).into_owned()
}

fn find_rule_by_id(merges: &Vec<MergeRule>, id: u32) -> (r: Option<usize>)
    ensures
        match r {
            Some(i) => i < merges@.len() && merges@[i as int].1 == id,
            None => !has_rule(merges@, id),
        },
{
    let mut i: usize = 0;
    while i < merges.len()
        invariant
            i <= merges@.len(),
            forall|j: int| 0 <= j < i ==> (#[trigger] merges@[j]).1 != id,
        decreases merges@.len() - i,
    {
        if merges[i].1 == id {
            return Some(i);
        }
        i = i + 1;
    }
    None
}

pub(crate) fn bytes_to_tokens(bytes: &[u8]) -> (tokens: Vec<u32>)
    ensures
        tokens@ == bytes@.map_values(|b: u8| b as u32),
{
    let mut tokens: Vec<u32> = Vec::new();
    let mut i: usize = 0;
    while i < bytes.len()
        invariant
            i <= bytes@.len(),
            tokens@.len() == i,
            forall|k: int| 0 <= k < i ==> #[trigger] tokens@[k] == bytes@[k] as u32,
        decreases bytes@.len() - i,
    {
        tokens.push(bytes[i] as u32);
        i = i + 1;
    }
    assert(tokens@ =~= bytes@.map_values(|b: u8| b as u32));
    tokens
}

fn append_bytes(dst: &mut Vec<u8>, src: &Vec<u8>)
    ensures
        final(dst)@ == old(dst)@ + src@,
{
    let mut i: usize = 0;
    while i < src.len()
        invariant
            i <= src@.len(),
            dst@ == old(dst)@ + src@.take(i as int),
        decreases src@.len() - i,
    {
        dst.push(src[i]);
        proof {
            assert(old(dst)@ + src@.take(i as int + 1) =~= (old(dst)@ + src@.take(i as int)).push(
                src@[i as int],
            ));
        }
        i = i + 1;
    }
    proof {
        assert(src@.take(src@.len() as int) =~= src@);
    }
}

fn copy_merges(src: &Vec<MergeRule>) -> (r: Vec<MergeRule>)
    ensures
        r@ == src@,
{
    let mut r: Vec<MergeRule> = Vec::new();
    let mut i: usize = 0;
    while i < src.len()
        invariant
            i <= src@.len(),
            r@ == src@.take(i as int),
        decreases src@.len() - i,
    {
        r.push(src[i]);
        proof {
            assert(src@.take(i as int + 1) =~= src@.take(i as int).push(src@[i as int]));
        }
        i = i + 1;
    }
    proof {
        assert(src@.take(src@.len() as int) =~= src@);
    }
    r
}

/// Rebuilds the full vocabulary from a merge table alone: 256 identity
/// entries, then each synthetic id in ascending order as the concatenation
/// of its operands' entries.
pub fn create_vocab_from_merges(merges: &Vec<MergeRule>) -> (vocab: Vec<Vec<u8>>)
    requires
        wf_merges(merges@),
        merges@.len() <= u32::MAX - 255,
    ensures
        vocab@.len() == 256 + merges@.len(),
        forall|id: int|
            0 <= id < vocab@.len() ==> #[trigger] vocab@[id]@ == vocab_bytes(merges@, id as u32),
{
    let mut vocab: Vec<Vec<u8>> = Vec::new();
    let mut b: usize = 0;
    while b < 256
        invariant
            b <= 256,
            vocab@.len() == b,
            forall|id: int|
                0 <= id < b ==> #[trigger] vocab@[id]@ == vocab_bytes(merges@, id as u32),
        decreases 256 - b,
    {
        let mut entry: Vec<u8> = Vec::new();
        entry.push(b as u8);
        proof {
            assert(entry@ =~= seq![b as u8]);
        }
        vocab.push(entry);
        b = b + 1;
    }
    let mut k: usize = 0;
    while k < merges.len()
        invariant
            k <= merges@.len(),
            merges@.len() <= u32::MAX - 255,
            wf_merges(merges@),
            vocab@.len() == 256 + k,
            forall|id: int|
                0 <= id < vocab@.len() ==> #[trigger] vocab@[id]@ == vocab_bytes(merges@, id as u32),
        decreases merges@.len() - k,
    {
        let id: u32 = 256 + (k as u32);
        match find_rule_by_id(merges, id) {
            Some(i) => {
                let ((left, right), _) = merges[i];
                proof {
                    assert(merges@[i as int].1 == id);
                    assert(left < id && right < id);
                    lemma_vocab_bytes_rule(merges@, i as int);
                }
                let mut entry: Vec<u8> = Vec::new();
                append_bytes(&mut entry, &vocab[left as usize]);
                append_bytes(&mut entry, &vocab[right as usize]);
                proof {
                    assert(Seq::<u8>::empty() + vocab@[left as int]@ =~= vocab@[left as int]@);
                    assert(entry@ == vocab_bytes(merges@, left) + vocab_bytes(merges@, right));
                }
                vocab.push(entry);
            },
            None => {
                proof {
                    assert(has_rule(merges@, id));
                }
                return vocab;
            },
        }
        k = k + 1;
    }
    vocab
}

/// A trained tokenizer: the merge table and the vocabulary derived from it.
#[derive(Clone, Debug, PartialEq)]
pub struct BasicTokenizer {
    pub merges: Vec<MergeRule>,
    pub vocab: Vec<Vec<u8>>,
}

impl BasicTokenizer {
    /// The vocabulary is exactly what the merge table derives, and the table
    /// itself is well formed.
    pub open spec fn wf(self) -> bool {
        &&& wf_merges(self.merges@)
        &&& self.merges@.len() <= u32::MAX - 255
        &&& self.vocab@.len() == 256 + self.merges@.len()
        &&& forall|id: int|
            0 <= id < self.vocab@.len() ==> #[trigger] self.vocab@[id]@ == vocab_bytes(
                self.merges@,
                id as u32,
            )
    }

    /// Builds a tokenizer from an externally supplied merge table; the
    /// vocabulary is reconstructed from the rules alone.
    pub fn from_merges(merges: &Vec<MergeRule>) -> (r: Self)
        requires
            wf_merges(merges@),
            merges@.len() <= u32::MAX - 255,
        ensures
            r.wf(),
            r.merges@ == merges@,
    {
        let m = copy_merges(merges);
        let vocab = create_vocab_from_merges(merges);
        BasicTokenizer { merges: m, vocab }
    }

    /// Trains a tokenizer on `text`, learning `vocab_size - 256` merge
    /// rules greedily by pair frequency, exactly as `train_spec` replays it.
    /// Each learned id is `256 + i` in learning order; the learned rules can
    /// rebuild the training bytes from a sequence shortened by at least one
    /// token per rule, and an input with fewer than two bytes cannot support
    /// any merge.
    #[verifier::rlimit(50)]
    pub fn train(text: &str, vocab_size: u32) -> (r: Result<Self, TrainError>)
        requires
            vocab_size >= 256,
        ensures
            vocab_size == 256 ==> r is Ok,
            encode_utf8(text@).len() < 2 && vocab_size > 256 ==> r is Err,
            match r {
                Ok(tok) => tok.wf() && tok.merges@.len() == vocab_size - 256 && (forall|i: int|
                    0 <= i < tok.merges@.len() ==> (#[trigger] tok.merges@[i]).1 == 256 + i)
                    && compresses_to(tok.merges@, encode_utf8(text@), vocab_size - 256)
                    && train_spec(
                    encode_utf8(text@).map_values(|b: u8| b as u32),
                    (vocab_size - 256) as nat,
                    0,
                ) == Some(tok.merges@),
                Err(e) => e == TrainError::NotEnoughPairs && vocab_size > 256 && train_spec(
                    encode_utf8(text@).map_values(|b: u8| b as u32),
                    (vocab_size - 256) as nat,
                    0,
                ) is None,
            },
    {
        let bytes = text.as_bytes_vec();
        let mut tokens = bytes_to_tokens(bytes.as_slice());
        let ghost raw = tokens@;
        proof {
            lemma_decode_seq_low(Seq::<MergeRule>::empty(), tokens@);
            assert(decode_seq(Seq::<MergeRule>::empty(), tokens@) =~= bytes@);
            if let Some(rest) = train_spec(raw, (vocab_size - 256) as nat, 0) {
                assert(Seq::<MergeRule>::empty() + rest =~= rest);
            }
        }
        let num_merges = vocab_size - 256;
        let mut merges: Vec<MergeRule> = Vec::new();
        let mut k: u32 = 0;
        while k < num_merges
            invariant
                k <= num_merges,
                num_merges == vocab_size - 256,
                merges@.len() == k as int,
                forall|i: int| 0 <= i < k ==> (#[trigger] merges@[i]).1 == 256 + i,
                forall|i: int|
                    0 <= i < k ==> (#[trigger] merges@[i]).0.0 < merges@[i].1 && merges@[i].0.1
                        < merges@[i].1,
                tokens_valid(merges@, tokens@),
                decode_seq(merges@, tokens@) == bytes@,
                tokens@.len() + k <= bytes@.len(),
                bytes@ == encode_utf8(text@),
                raw == bytes@.map_values(|b: u8| b as u32),
                match train_spec(tokens@, (num_merges - k) as nat, k as nat) {
                    Some(rest) => train_spec(raw, num_merges as nat, 0) == Some(merges@ + rest),
                    None => train_spec(raw, num_merges as nat, 0) is None,
                },
            decreases num_merges - k,
        {
            let stats = get_stats(tokens.as_slice());
            match get_top_pair(&stats) {
                Some((pair, count)) => {
                    let new_id: u32 = 256 + k;
                    proof {
                        assert(stats_has(stats@, pair));
                        let si = stats_index(stats@, pair);
                        assert(0 <= si < stats@.len() && stats@[si].0 == pair);
                        assert(stats@[si].1 > 0);
                        assert(count > 0);
                        assert(stats_val(stats@, pair) == pair_count(tokens@, pair));
                        lemma_top_entry_is_top_pair(stats@, tokens@, (pair, count));
                        lemma_pair_count_pos(tokens@, pair);
                        assert(has_pair(tokens@, pair));
                        let w = choose|i: int|
                            #![trigger tokens@[i], tokens@[i + 1]]
                            0 <= i && i + 1 < tokens@.len() && tokens@[i] == pair.0 && tokens@[i
                                + 1] == pair.1;
                        assert(tokens@[w] == pair.0 && tokens@[w + 1] == pair.1);
                        assert(pair.0 < 256 + k && pair.1 < 256 + k);
                    }
                    let ghost old_merges = merges@;
                    let ghost old_tokens = tokens@;
                    let new_tokens = merge(tokens.as_slice(), pair, new_id);
                    merges.push(((pair.0, pair.1), new_id));
                    tokens = new_tokens;
                    proof {
                        let rule = ((pair.0, pair.1), new_id);
                        assert(merges@ == old_merges.push(rule));
                        assert(ids_distinct(old_merges));
                        lemma_decode_seq_push_rule(old_merges, rule, old_tokens);
                        assert(merges@[k as int] == rule);
                        assert(merges@.contains(rule));
                        lemma_merge_preserves_decode(merges@, old_tokens, pair, new_id);
                        lemma_merge_spec_len(old_tokens, pair, new_id);
                        lemma_merge_spec_elements(old_tokens, pair, new_id);
                        assert forall|j: int| 0 <= j < tokens@.len() implies #[trigger] tokens@[j]
                            < 256 + (k + 1) by {
                            if tokens@[j] != new_id {
                                let w2 = choose|w2: int|
                                    0 <= w2 < old_tokens.len() && old_tokens[w2] == tokens@[j];
                                assert(old_tokens[w2] < 256 + k);
                            }
                        }
                        // the replay model takes the very same step
                        assert(is_top_pair(old_tokens, pair));
                        let pc = choose|p: Pair| is_top_pair(old_tokens, p);
                        lemma_top_pair_unique(old_tokens, pc, pair);
                        assert((256 + (k as nat)) as u32 == new_id);
                        assert(tokens@ == merge_spec(old_tokens, pair, new_id));
                        assert(train_spec(old_tokens, (num_merges - k) as nat, k as nat) == (
                        match train_spec(tokens@, (num_merges - k - 1) as nat, (k + 1) as nat) {
                            Some(rest) => Some(seq![rule] + rest),
                            None => None,
                        }));
                        if let Some(rest) = train_spec(
                            tokens@,
                            (num_merges - k - 1) as nat,
                            (k + 1) as nat,
                        ) {
                            assert(old_merges + (seq![rule] + rest) =~= merges@ + rest);
                        }
                    }
                    k = k + 1;
                },
                None => {
                    proof {
                        assert forall|p: Pair| !is_top_pair(tokens@, p) by {
                            assert(stats_val(stats@, p) == pair_count(tokens@, p));
                            assert(stats@.len() == 0);
                            assert(!stats_has(stats@, p));
                        }
                        assert(train_spec(tokens@, (num_merges - k) as nat, k as nat) is None);
                    }
                    return Err(TrainError::NotEnoughPairs);
                },
            }
        }
        proof {
            assert(train_spec(tokens@, 0, num_merges as nat) == Some(Seq::<MergeRule>::empty()));
            assert(merges@ + Seq::<MergeRule>::empty() =~= merges@);
            assert(train_spec(raw, num_merges as nat, 0) == Some(merges@));
            assert forall|id: u32| 256 <= id < 256 + merges@.len() implies #[trigger] has_rule(
                merges@,
                id,
            ) by {
                let i = id - 256;
                assert(merges@[i as int].1 == id);
            }
            assert(wf_merges(merges@));
            if num_merges > 0 && bytes@.len() < 2 {
                assert(tokens@.len() + num_merges <= bytes@.len());
                assert(tokens@.len() == 0);
                assert(decode_seq(merges@, tokens@) == Seq::<u8>::empty());
                assert(bytes@.len() == 0);
                assert(false);
            }
        }
        let tok = Self::from_merges(&merges);
        proof {
            assert(tok.wf());
            assert(tok.merges@.len() == vocab_size - 256);
            assert(forall|i: int|
                0 <= i < tok.merges@.len() ==> (#[trigger] tok.merges@[i]).1 == 256 + i);
            assert(decode_seq(tok.merges@, tokens@) == encode_utf8(text@) && tokens@.len() + (
            vocab_size - 256) <= encode_utf8(text@).len());
            assert(compresses_to(tok.merges@, encode_utf8(text@), vocab_size - 256));
        }
        Ok(tok)
    }

    /// Encodes raw bytes: repeatedly rewrites the pair whose rule has the
    /// smallest id until no adjacent pair is a rule key. The result expands
    /// back to exactly the input bytes.
    pub fn encode_from_bytes(&self, bytes: &Vec<u8>) -> (tokens: Vec<u32>)
        requires
            self.wf(),
        ensures
            tokens@ == encode_spec(self.merges@, bytes@.map_values(|b: u8| b as u32)),
            decode_seq(self.merges@, tokens@) == bytes@,
            tokens_valid(self.merges@, tokens@),
            forall|i: int|
                #![trigger tokens@[i], tokens@[i + 1]]
                0 <= i && i + 1 < tokens@.len() ==> !merges_has_key(
                    self.merges@,
                    (tokens@[i], tokens@[i + 1]),
                ),
    {
        let mut tokens = bytes_to_tokens(bytes.as_slice());
        let ghost raw = tokens@;
        proof {
            lemma_decode_seq_low(self.merges@, tokens@);
            assert(decode_seq(self.merges@, tokens@) =~= bytes@);
        }
        let mut done = false;
        while !done
            invariant
                self.wf(),
                decode_seq(self.merges@, tokens@) == bytes@,
                tokens_valid(self.merges@, tokens@),
                encode_spec(self.merges@, tokens@) == encode_spec(self.merges@, raw),
                done ==> no_key_up_to(self.merges@, tokens@, tokens@.len() as int),
            decreases tokens@.len() + if done {
                0int
            } else {
                1int
            },
        {
            match find_best_pair(&self.merges, &tokens) {
                Some((pair, id)) => {
                    let ghost old_tokens = tokens@;
                    proof {
                        let j = choose|j: int|
                            #![trigger self.merges@[j]]
                            0 <= j < self.merges@.len() && self.merges@[j] == (
                            (pair.0, pair.1),
                            id,
                            );
                        assert(self.merges@[j].0.0 < self.merges@[j].1);
                        lemma_merge_preserves_decode(self.merges@, tokens@, pair, id);
                        lemma_merge_spec_len(tokens@, pair, id);
                        lemma_merge_spec_elements(tokens@, pair, id);
                        lemma_encode_spec_step(self.merges@, tokens@, pair, id);
                    }
                    tokens = merge(tokens.as_slice(), pair, id);
                    proof {
                        assert forall|j: int| 0 <= j < tokens@.len() implies #[trigger] tokens@[j]
                            < 256 + self.merges@.len() by {
                            if tokens@[j] != id {
                                let w = choose|w: int|
                                    0 <= w < old_tokens.len() && old_tokens[w] == tokens@[j];
                                assert(old_tokens[w] < 256 + self.merges@.len());
                            } else {
                                let j2 = choose|j2: int|
                                    #![trigger self.merges@[j2]]
                                    0 <= j2 < self.merges@.len() && self.merges@[j2] == (
                                    (pair.0, pair.1),
                                    id,
                                    );
                                assert(self.merges@[j2].1 < 256 + self.merges@.len());
                            }
                        }
                    }
                },
                None => {
                    done = true;
                },
            }
        }
        proof {
            lemma_encode_spec_fixed(self.merges@, tokens@);
        }
        tokens
    }

    /// Encodes text: its UTF-8 bytes are tokenized by replaying the learned
    /// merges, earliest first, so that the result expands back to exactly
    /// those bytes. A tokenizer without merges returns the raw byte values
    /// unchanged.
    pub fn encode(&self, text: &str) -> (tokens: Vec<u32>)
        requires
            self.wf(),
        ensures
            tokens@ == encode_spec(
                self.merges@,
                encode_utf8(text@).map_values(|b: u8| b as u32),
            ),
            decode_seq(self.merges@, tokens@) == encode_utf8(text@),
            tokens_valid(self.merges@, tokens@),
            forall|i: int|
                #![trigger tokens@[i], tokens@[i + 1]]
                0 <= i && i + 1 < tokens@.len() ==> !merges_has_key(
                    self.merges@,
                    (tokens@[i], tokens@[i + 1]),
                ),
    {
        let bytes = text.as_bytes_vec();
        self.encode_from_bytes(&bytes)
    }

    /// Expands each token to its vocabulary bytes and concatenates.
    pub fn decode_into_bytes(&self, tokens: &Vec<u32>) -> (bytes: Vec<u8>)
        requires
            self.wf(),
            tokens_valid(self.merges@, tokens@),
        ensures
            bytes@ == decode_seq(self.merges@, tokens@),
    {
        let mut bytes: Vec<u8> = Vec::new();
        let mut i: usize = 0;
        proof {
            assert(tokens@.take(0) =~= Seq::<u32>::empty());
        }
        while i < tokens.len()
            invariant
                self.wf(),
                tokens_valid(self.merges@, tokens@),
                i <= tokens@.len(),
                bytes@ == decode_seq(self.merges@, tokens@.take(i as int)),
            decreases tokens@.len() - i,
        {
            let t = tokens[i];
            proof {
                assert(tokens@[i as int] < 256 + self.merges@.len());
            }
            append_bytes(&mut bytes, &self.vocab[t as usize]);
            proof {
                lemma_decode_seq_concat(self.merges@, tokens@.take(i as int), seq![t]);
                lemma_decode_seq_singleton(self.merges@, t);
                assert(tokens@.take(i as int + 1) =~= tokens@.take(i as int) + seq![t]);
            }
            i = i + 1;
        }
        proof {
            assert(tokens@.take(tokens@.len() as int) =~= tokens@);
        }
        bytes
    }

    /// Decodes a token sequence to text: the concatenated expansions are
    /// interpreted as UTF-8, lossily, so a valid encoding decodes exactly
    /// and invalid bytes degrade instead of failing.
    pub fn decode(&self, tokens: &Vec<u32>) -> (text: String)
        requires
            self.wf(),
            tokens_valid(self.merges@, tokens@),
        ensures
            text@ == lossy_of(decode_seq(self.merges@, tokens@)),
            valid_utf8(decode_seq(self.merges@, tokens@)) ==> text@ == decode_utf8(
                decode_seq(self.merges@, tokens@),
            ),
    {
        let bytes = self.decode_into_bytes(tokens);
        bytes_to_string_lossy(&bytes)
    }
}

impl Default for BasicTokenizer {
    /// A tokenizer without merges: encoding passes raw byte values through.
    fn default() -> (r: Self)
        ensures
            r.wf(),
            r.merges@.len() == 0,
    {
        let merges: Vec<MergeRule> = Vec::new();
        BasicTokenizer::from_merges(&merges)
    }
}

/// No key of `m` occurs among the first `upto` adjacent positions of `t`.
spec fn no_key_up_to(m: Seq<MergeRule>, t: Seq<u32>, upto: int) -> bool {
    forall|k: int|
        #![trigger t[k], t[k + 1]]
        0 <= k < upto && k + 1 < t.len() ==> !merges_has_key(m, (t[k], t[k + 1]))
}

/// `id` is at most every rule id whose key occurs among the first `upto`
/// adjacent positions of `t`.
spec fn min_id_up_to(m: Seq<MergeRule>, t: Seq<u32>, upto: int, id: u32) -> bool {
    forall|k: int|
        #![trigger t[k], t[k + 1]]
        0 <= k < upto && k + 1 < t.len() ==> (forall|j: int|
            0 <= j < m.len() && (#[trigger] m[j]).0 == (t[k], t[k + 1]) ==> id <= m[j].1)
}

/// Rule `j` is the merge that encoding applies next to `t`: its key occurs
/// adjacently in `t`, and no rule whose key occurs carries a smaller id.
pub open spec fn is_best_rule(m: Seq<MergeRule>, t: Seq<u32>, j: int) -> bool {
    &&& 0 <= j < m.len()
    &&& has_pair(t, m[j].0)
    &&& forall|k: int| 0 <= k < m.len() && has_pair(t, (#[trigger] m[k]).0) ==> m[j].1 <= m[k].1
}

/// The deterministic replay of learned merges: while some adjacent pair is
/// a rule key, the rule with the smallest id is applied, so
/// earliest-learned merges apply first.
pub open spec fn encode_spec(m: Seq<MergeRule>, t: Seq<u32>) -> Seq<u32>
    decreases t.len(),
{
    if exists|j: int| is_best_rule(m, t, j) {
        let j = choose|j: int| is_best_rule(m, t, j);
        let t2 = merge_spec(t, m[j].0, m[j].1);
        if t2.len() < t.len() {
            encode_spec(m, t2)
        } else {
            t
        }
    } else {
        t
    }
}

/// Applying the occurring rule with the smallest id is exactly one step of
/// the replay.
proof fn lemma_encode_spec_step(m: Seq<MergeRule>, t: Seq<u32>, pair: Pair, id: u32)
    requires
        ids_distinct(m),
        m.contains(((pair.0, pair.1), id)),
        has_pair(t, pair),
        forall|j: int| 0 <= j < m.len() && has_pair(t, (#[trigger] m[j]).0) ==> id <= m[j].1,
    ensures
        encode_spec(m, t) == encode_spec(m, merge_spec(t, pair, id)),
{
    let jx = choose|jx: int| #![trigger m[jx]] 0 <= jx < m.len() && m[jx] == ((pair.0, pair.1), id);
    assert(m[jx].0 == (pair.0, pair.1) && m[jx].1 == id);
    assert(has_pair(t, m[jx].0));
    assert(is_best_rule(m, t, jx));
    let jc = choose|j: int| is_best_rule(m, t, j);
    assert(is_best_rule(m, t, jc));
    assert(m[jc].1 <= m[jx].1);
    assert(id <= m[jc].1);
    assert(jc == jx);
    lemma_merge_spec_len(t, pair, id);
    assert(merge_spec(t, m[jc].0, m[jc].1) == merge_spec(t, pair, id));
    assert(merge_spec(t, pair, id).len() < t.len());
}

/// Pass-through: under an empty merge table the replay leaves every token
/// sequence unchanged, so such a tokenizer returns raw byte values.
pub proof fn lemma_encode_empty_passthrough(t: Seq<u32>)
    ensures
        encode_spec(Seq::<MergeRule>::empty(), t) == t,
{
    if exists|j: int| is_best_rule(Seq::<MergeRule>::empty(), t, j) {
        let j = choose|j: int| is_best_rule(Seq::<MergeRule>::empty(), t, j);
        assert(0 <= j < 0);
    }
}

/// A sequence with no mergeable adjacent pair is a fixed point of the
/// replay.
proof fn lemma_encode_spec_fixed(m: Seq<MergeRule>, t: Seq<u32>)
    requires
        no_key_up_to(m, t, t.len() as int),
    ensures
        encode_spec(m, t) == t,
{
    if exists|j: int| is_best_rule(m, t, j) {
        let j = choose|j: int| is_best_rule(m, t, j);
        assert(has_pair(t, m[j].0));
        let k = choose|k: int|
            #![trigger t[k], t[k + 1]]
            0 <= k && k + 1 < t.len() && t[k] == m[j].0.0 && t[k + 1] == m[j].0.1;
        assert(m[j].0 == (t[k], t[k + 1]));
        assert(merges_has_key(m, (t[k], t[k + 1])));
        assert(false);
    }
}

/// Scans all adjacent pairs of `tokens` and returns the one whose merge
/// rule carries the smallest id, with that id; `None` when no adjacent pair
/// is a rule key.
#[verifier::rlimit(50)]
fn find_best_pair(merges: &Vec<MergeRule>, tokens: &Vec<u32>) -> (r: Option<((u32, u32), u32)>)
    ensures
        match r {
            Some(pi) => has_pair(tokens@, pi.0) && merges@.contains(((pi.0.0, pi.0.1), pi.1)) && (
            forall|j: int|
                0 <= j < merges@.len() && has_pair(tokens@, (#[trigger] merges@[j]).0) ==> pi.1
                    <= merges@[j].1),
            None => no_key_up_to(merges@, tokens@, tokens@.len() as int),
        },
{
    let mut best: Option<((u32, u32), u32)> = None;
    let n = tokens.len();
    if n < 2 {
        return None;
    }
    let mut i: usize = 0;
    while i + 1 < n
        invariant
            n == tokens@.len(),
            n >= 2,
            i <= n - 1,
            match best {
                Some(pi) => has_pair(tokens@, pi.0) && merges@.contains(((pi.0.0, pi.0.1), pi.1))
                    && min_id_up_to(merges@, tokens@, i as int, pi.1),
                None => no_key_up_to(merges@, tokens@, i as int),
            },
        decreases n - i,
    {
        let pair = (tokens[i], tokens[i + 1]);
        let ghost old_best = best;
        let found = min_rule_id(merges, pair);
        proof {
            assert(tokens@[i as int] == pair.0 && tokens@[i as int + 1] == pair.1);
        }
        match found {
            Some(id) => {
                let take_it = match best {
                    Some((_, bid)) => id < bid,
                    None => true,
                };
                if take_it {
                    best = Some((pair, id));
                    proof {
                        assert(has_pair(tokens@, pair));
                        assert forall|k: int|
                            #![trigger tokens@[k], tokens@[k + 1]]
                            0 <= k < i + 1 && k + 1 < tokens@.len() implies (forall|j: int|
                            0 <= j < merges@.len() && (#[trigger] merges@[j]).0 == (
                            tokens@[k],
                            tokens@[k + 1],
                            ) ==> id <= merges@[j].1) by {
                            if k < i {
                                match old_best {
                                    Some(pi) => {
                                        assert(min_id_up_to(merges@, tokens@, i as int, pi.1));
                                        assert(id < pi.1);
                                    },
                                    None => {
                                        assert(!merges_has_key(
                                            merges@,
                                            (tokens@[k], tokens@[k + 1]),
                                        ));
                                    },
                                }
                            }
                        }
                    }
                } else {
                    proof {
                        let pi = old_best->Some_0;
                        assert(pi.1 <= id);
                        assert forall|k: int|
                            #![trigger tokens@[k], tokens@[k + 1]]
                            0 <= k < i + 1 && k + 1 < tokens@.len() implies (forall|j: int|
                            0 <= j < merges@.len() && (#[trigger] merges@[j]).0 == (
                            tokens@[k],
                            tokens@[k + 1],
                            ) ==> pi.1 <= merges@[j].1) by {
                            if k < i {
                                assert(min_id_up_to(merges@, tokens@, i as int, pi.1));
                            }
                        }
                    }
                }
            },
            None => {
                proof {
                    assert(!merges_has_key(merges@, pair));
                    match old_best {
                        Some(pi) => {
                            assert forall|k: int|
                                #![trigger tokens@[k], tokens@[k + 1]]
                                0 <= k < i + 1 && k + 1 < tokens@.len() implies (forall|j: int|
                                0 <= j < merges@.len() && (#[trigger] merges@[j]).0 == (
                                tokens@[k],
                                tokens@[k + 1],
                                ) ==> pi.1 <= merges@[j].1) by {
                                if k < i {
                                    assert(min_id_up_to(merges@, tokens@, i as int, pi.1));
                                }
                            }
                        },
                        None => {
                            assert(no_key_up_to(merges@, tokens@, i as int + 1));
                        },
                    }
                }
            },
        }
        i = i + 1;
    }
    proof {
        match best {
            Some(pi) => {
                assert forall|j: int|
                    0 <= j < merges@.len() && has_pair(tokens@, (#[trigger] merges@[j]).0) implies
                    pi.1 <= merges@[j].1 by {
                    let k = choose|k: int|
                        #![trigger tokens@[k], tokens@[k + 1]]
                        0 <= k && k + 1 < tokens@.len() && tokens@[k] == merges@[j].0.0 && tokens@[k
                            + 1] == merges@[j].0.1;
                    assert(0 <= k < i);
                    assert(merges@[j].0 == (tokens@[k], tokens@[k + 1]));
                }
            },
            None => {},
        }
    }
    best
}

/// The smallest id any rule assigns to `pair`, if one does.
fn min_rule_id(merges: &Vec<MergeRule>, pair: (u32, u32)) -> (r: Option<u32>)
    ensures
        match r {
            Some(id) => merges@.contains(((pair.0, pair.1), id)) && (forall|j: int|
                0 <= j < merges@.len() && (#[trigger] merges@[j]).0 == pair ==> id <= merges@[j].1),
            None => !merges_has_key(merges@, pair),
        },
{
    let mut r: Option<u32> = None;
    let mut i: usize = 0;
    while i < merges.len()
        invariant
            i <= merges@.len(),
            match r {
                Some(id) => merges@.contains(((pair.0, pair.1), id)) && (forall|j: int|
                    0 <= j < i && (#[trigger] merges@[j]).0 == pair ==> id <= merges@[j].1),
                None => forall|j: int| 0 <= j < i ==> (#[trigger] merges@[j]).0 != pair,
            },
        decreases merges@.len() - i,
    {
        let ((a, b), id) = merges[i];
        if a == pair.0 && b == pair.1 {
            proof {
                assert(merges@[i as int] == ((pair.0, pair.1), id));
            }
            match r {
                Some(bid) => {
                    if id < bid {
                        r = Some(id);
                    }
                },
                None => {
                    r = Some(id);
                },
            }
        }
        i = i + 1;
    }
    r
}

} // verus!
