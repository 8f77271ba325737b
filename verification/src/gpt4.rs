//! The byte-shuffle layer: a tokenizer variant that remaps raw byte values
//! through a fixed injective table before BPE processing and undoes the
//! remapping after decoding.

use vstd::prelude::*;

use crate::basic::{
    bytes_to_string_lossy, decode_seq, encode_spec, lossy_of, merges_has_key, tokens_valid,
    wf_merges, BasicTokenizer, MergeRule,
};
use vstd::string::StrSliceExecFns;
use vstd::utf8::{decode_utf8, encode_utf8, valid_utf8};

verus! {

/// Some entry of the table maps the byte `b`.
pub open spec fn table_has(t: Seq<(u8, u8)>, b: u8) -> bool {
    exists|i: int| #![trigger t[i]] 0 <= i < t.len() && t[i].0 == b
}

/// The index of the entry mapping `b`; meaningful under `wf_shuffle`.
pub open spec fn table_index(t: Seq<(u8, u8)>, b: u8) -> int {
    choose|i: int| #![trigger t[i]] 0 <= i < t.len() && t[i].0 == b
}

/// The byte that the table maps `b` to.
pub open spec fn table_at(t: Seq<(u8, u8)>, b: u8) -> u8 {
    t[table_index(t, b)].1
}

/// A valid byte shuffle: keys distinct and values distinct, so the table is
/// an injective map over the byte domain it covers.
pub open spec fn wf_shuffle(t: Seq<(u8, u8)>) -> bool {
    &&& forall|i: int, j: int|
        #![trigger t[i], t[j]]
        0 <= i < t.len() && 0 <= j < t.len() && i != j ==> t[i].0 != t[j].0
    &&& forall|i: int, j: int|
        #![trigger t[i], t[j]]
        0 <= i < t.len() && 0 <= j < t.len() && i != j ==> t[i].1 != t[j].1
}

/// The table with every entry reversed.
pub open spec fn invert_spec(t: Seq<(u8, u8)>) -> Seq<(u8, u8)> {
    t.map_values(|kv: (u8, u8)| (kv.1, kv.0))
}

/// Every byte of `bytes` lies in the table's domain.
pub open spec fn covers(t: Seq<(u8, u8)>, bytes: Seq<u8>) -> bool {
    forall|i: int| 0 <= i < bytes.len() ==> #[trigger] table_has(t, bytes[i])
}

/// Every byte of `bytes` mapped through the table.
pub open spec fn apply_table(t: Seq<(u8, u8)>, bytes: Seq<u8>) -> Seq<u8> {
    bytes.map_values(|b: u8| table_at(t, b))
}

/// Under distinct keys, the entry at any index is what lookup reports for
/// its key.
pub proof fn lemma_table_at_entry(t: Seq<(u8, u8)>, i: int)
    requires
        wf_shuffle(t),
        0 <= i < t.len(),
    ensures
        table_has(t, t[i].0),
        table_at(t, t[i].0) == t[i].1,
{
    assert(table_has(t, t[i].0));
    let j = table_index(t, t[i].0);
    assert(0 <= j < t.len() && t[j].0 == t[i].0);
    assert(j == i);
}

/// Reversing an injective table yields an injective table.
pub proof fn lemma_invert_wf(t: Seq<(u8, u8)>)
    requires
        wf_shuffle(t),
    ensures
        wf_shuffle(invert_spec(t)),
{
    let inv = invert_spec(t);
    assert(forall|i: int| 0 <= i < inv.len() ==> #[trigger] inv[i] == (t[i].1, t[i].0));
}

/// Shuffle inverse: for every byte in the table's domain, the reversed
/// table maps the shuffled byte back to the original.
pub proof fn lemma_shuffle_inverse(t: Seq<(u8, u8)>, b: u8)
    requires
        wf_shuffle(t),
        table_has(t, b),
    ensures
        wf_shuffle(invert_spec(t)),
        table_has(invert_spec(t), table_at(t, b)),
        table_at(invert_spec(t), table_at(t, b)) == b,
{
    lemma_invert_wf(t);
    let inv = invert_spec(t);
    assert(forall|i: int| 0 <= i < inv.len() ==> #[trigger] inv[i] == (t[i].1, t[i].0));
    let i = table_index(t, b);
    assert(0 <= i < t.len() && t[i].0 == b);
    let v = table_at(t, b);
    assert(t[i].1 == v);
    assert(inv[i] == (v, b));
    assert(table_has(inv, v));
    let j = table_index(inv, v);
    assert(0 <= j < inv.len() && inv[j].0 == v);
    assert(t[j].1 == v);
    assert(j == i);
}

/// Mapping a byte sequence forward and then through the reversed table
/// returns the original bytes.
pub proof fn lemma_shuffle_round_trip(t: Seq<(u8, u8)>, bytes: Seq<u8>)
    requires
        wf_shuffle(t),
        covers(t, bytes),
    ensures
        apply_table(invert_spec(t), apply_table(t, bytes)) == bytes,
{
    let f = apply_table(t, bytes);
    assert(f.len() == bytes.len());
    assert forall|i: int| 0 <= i < bytes.len() implies apply_table(invert_spec(t), f)[i]
        == bytes[i] by {
        assert(table_has(t, bytes[i]));
        lemma_shuffle_inverse(t, bytes[i]);
        assert(f[i] == table_at(t, bytes[i]));
    }
    assert(apply_table(invert_spec(t), f) =~= bytes);
}

/// A shuffled tokenizer round-trips exactly like an unshuffled one: any
/// token sequence whose expansion is the shuffled UTF-8 encoding of `text`
/// is carried by the reversed table and lossy decoding back to `text`.
pub proof fn lemma_shuffled_round_trip(
    t: Seq<(u8, u8)>,
    m: Seq<MergeRule>,
    tokens: Seq<u32>,
    text: Seq<char>,
)
    requires
        wf_shuffle(t),
        covers(t, encode_utf8(text)),
        decode_seq(m, tokens) == apply_table(t, encode_utf8(text)),
    ensures
        covers(invert_spec(t), decode_seq(m, tokens)),
        apply_table(invert_spec(t), decode_seq(m, tokens)) == encode_utf8(text),
        valid_utf8(apply_table(invert_spec(t), decode_seq(m, tokens))),
        decode_utf8(apply_table(invert_spec(t), decode_seq(m, tokens))) == text,
{
    let bytes = encode_utf8(text);
    lemma_shuffle_round_trip(t, bytes);
    assert forall|i: int| 0 <= i < decode_seq(m, tokens).len() implies #[trigger] table_has(
        invert_spec(t),
        decode_seq(m, tokens)[i],
    ) by {
        assert(decode_seq(m, tokens)[i] == table_at(t, bytes[i]));
        lemma_shuffle_inverse(t, bytes[i]);
    }
    vstd::utf8::encode_utf8_valid_utf8(text);
    vstd::utf8::encode_utf8_decode_utf8(text);
}

/// Reverses each `(key, value)` entry of an injective byte mapping, giving
/// its exact inverse.
pub fn invert_mapping(mapping: &Vec<(u8, u8)>) -> (r: Vec<(u8, u8)>)
    ensures
        r@ == invert_spec(mapping@),
{
    let mut r: Vec<(u8, u8)> = Vec::new();
    let mut i: usize = 0;
    while i < mapping.len()
        invariant
            i <= mapping@.len(),
            r@.len() == i,
            forall|k: int| 0 <= k < i ==> #[trigger] r@[k] == (mapping@[k].1, mapping@[k].0),
        decreases mapping@.len() - i,
    {
        let (key, value) = mapping[i];
        r.push((value, key));
        i = i + 1;
    }
    assert(r@ =~= invert_spec(mapping@));
    r
}

fn copy_table(src: &Vec<(u8, u8)>) -> (r: Vec<(u8, u8)>)
    ensures
        r@ == src@,
{
    let mut r: Vec<(u8, u8)> = Vec::new();
    let mut i: usize = 0;
    while i < src.len()
        invariant
            i <= src@.len(),
            r@.len() == i,
            forall|k: int| 0 <= k < i ==> #[trigger] r@[k] == src@[k],
        decreases src@.len() - i,
    {
        r.push(src[i]);
        i = i + 1;
    }
    assert(r@ =~= src@);
    r
}

fn table_get(t: &Vec<(u8, u8)>, b: u8) -> (r: Option<u8>)
    ensures
        (r is Some) <==> table_has(t@, b),
        match r {
            Some(v) => exists|i: int| #![trigger t@[i]] 0 <= i < t@.len() && t@[i] == (b, v),
            None => true,
        },
{
    let mut i: usize = 0;
    while i < t.len()
        invariant
            i <= t@.len(),
            forall|k: int| 0 <= k < i ==> (#[trigger] t@[k]).0 != b,
        decreases t@.len() - i,
    {
        let (key, value) = t[i];
        if key == b {
            proof {
                assert(t@[i as int] == (b, value));
            }
            return Some(value);
        }
        i = i + 1;
    }
    None
}

/// Maps every byte through the table; each byte must lie in its domain.
fn map_through(t: &Vec<(u8, u8)>, bytes: &Vec<u8>) -> (r: Vec<u8>)
    requires
        wf_shuffle(t@),
        covers(t@, bytes@),
    ensures
        r@ == apply_table(t@, bytes@),
{
    let mut r: Vec<u8> = Vec::new();
    let mut i: usize = 0;
    while i < bytes.len()
        invariant
            wf_shuffle(t@),
            covers(t@, bytes@),
            i <= bytes@.len(),
            r@.len() == i,
            forall|k: int| 0 <= k < i ==> #[trigger] r@[k] == table_at(t@, bytes@[k]),
        decreases bytes@.len() - i,
    {
        let b = bytes[i];
        proof {
            assert(table_has(t@, bytes@[i as int]));
        }
        match table_get(t, b) {
            Some(v) => {
                proof {
                    let w = choose|w: int| #![trigger t@[w]] 0 <= w < t@.len() && t@[w] == (b, v);
                    lemma_table_at_entry(t@, w);
                }
                r.push(v);
            },
            None => {
                proof {
                    assert(false);
                }
                return r;
            },
        }
        i = i + 1;
    }
    assert(r@ =~= apply_table(t@, bytes@));
    r
}

/// A tokenizer wrapped with a byte shuffle and its inverse.
#[derive(Clone, Debug, PartialEq)]
pub struct Gpt4Tokenizer {
    /// Wrapped tokenizer.
    pub tok: BasicTokenizer,
    pub byte_shuffle: Vec<(u8, u8)>,
    pub inverse_byte_shuffle: Vec<(u8, u8)>,
}

impl Gpt4Tokenizer {
    /// The wrapped tokenizer is well formed, the shuffle is injective, and
    /// the stored inverse is exactly the reversed shuffle.
    pub open spec fn wf(self) -> bool {
        &&& self.tok.wf()
        &&& wf_shuffle(self.byte_shuffle@)
        &&& self.inverse_byte_shuffle@ == invert_spec(self.byte_shuffle@)
    }

    /// Builds the shuffled tokenizer from a merge table and a forward byte
    /// shuffle; the inverse table is derived, never supplied.
    pub fn from_merges_and_shuffles(merges: &Vec<MergeRule>, byte_shuffle: &Vec<(u8, u8)>) -> (r:
        Self)
        requires
            wf_merges(merges@),
            merges@.len() <= u32::MAX - 255,
            wf_shuffle(byte_shuffle@),
        ensures
            r.wf(),
            r.tok.merges@ == merges@,
            r.byte_shuffle@ == byte_shuffle@,
    {
        Gpt4Tokenizer {
            tok: BasicTokenizer::from_merges(merges),
            byte_shuffle: copy_table(byte_shuffle),
            inverse_byte_shuffle: invert_mapping(byte_shuffle),
        }
    }

    /// Encodes text by first remapping each UTF-8 byte through the forward
    /// shuffle; every input byte must lie in the shuffle's domain. The
    /// result expands, under the merge table, to exactly the shuffled bytes.
    pub fn encode(&self, text: &str) -> (tokens: Vec<u32>)
        requires
            self.wf(),
            covers(self.byte_shuffle@, encode_utf8(text@)),
        ensures
            tokens@ == encode_spec(
                self.tok.merges@,
                apply_table(self.byte_shuffle@, encode_utf8(text@)).map_values(|b: u8| b as u32),
            ),
            decode_seq(self.tok.merges@, tokens@) == apply_table(
                self.byte_shuffle@,
                encode_utf8(text@),
            ),
            tokens_valid(self.tok.merges@, tokens@),
            forall|i: int|
                #![trigger tokens@[i], tokens@[i + 1]]
                0 <= i && i + 1 < tokens@.len() ==> !merges_has_key(
                    self.tok.merges@,
                    (tokens@[i], tokens@[i + 1]),
                ),
    {
        let bytes = text.as_bytes_vec();
        let shuffled = map_through(&self.byte_shuffle, &bytes);
        self.tok.encode_from_bytes(&shuffled)
    }

    /// Decodes tokens by expanding them through the vocabulary, remapping
    /// each byte through the inverse shuffle, and interpreting the result
    /// as text, lossily.
    pub fn decode(&self, tokens: &Vec<u32>) -> (text: String)
        requires
            self.wf(),
            tokens_valid(self.tok.merges@, tokens@),
            covers(self.inverse_byte_shuffle@, decode_seq(self.tok.merges@, tokens@)),
        ensures
            text@ == lossy_of(
                apply_table(self.inverse_byte_shuffle@, decode_seq(self.tok.merges@, tokens@)),
            ),
            valid_utf8(
                apply_table(self.inverse_byte_shuffle@, decode_seq(self.tok.merges@, tokens@)),
            ) ==> text@ == decode_utf8(
                apply_table(self.inverse_byte_shuffle@, decode_seq(self.tok.merges@, tokens@)),
            ),
    {
        let bytes = self.tok.decode_into_bytes(tokens);
        proof {
            lemma_invert_wf(self.byte_shuffle@);
        }
        let unshuffled = map_through(&self.inverse_byte_shuffle, &bytes);
        bytes_to_string_lossy(&unshuffled)
    }
}

} // verus!
