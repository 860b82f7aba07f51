//! Character-level dataset for the reproduction harness: the vocabulary is
//! the set of distinct characters of the corpus, in code-point order.

use vstd::prelude::*;
use crate::hashing::string_from_chars;
use crate::text::chars_of;

verus! {

broadcast use vstd::seq_lib::group_seq_properties;

/// Strictly ascending by code point.
pub open spec fn chars_ascending(s: Seq<char>) -> bool {
    forall|i: int, j: int| 0 <= i < j < s.len() ==> (#[trigger] s[i] as u32) < (#[trigger] s[j] as u32)
}

/// The position of `c` in `vocab` (meaningful when present).
pub open spec fn char_index(vocab: Seq<char>, c: char) -> int {
    vocab.index_of(c)
}

/// Encode characters as their vocabulary positions.
pub open spec fn encode_spec(vocab: Seq<char>, s: Seq<char>) -> Seq<usize> {
    s.map_values(|c: char| char_index(vocab, c) as usize)
}

/// Decode positions back to characters.
pub open spec fn decode_spec(vocab: Seq<char>, ids: Seq<usize>) -> Seq<char> {
    ids.map_values(|i: usize| vocab[i as int])
}

/// In an ascending vocabulary, the index of a member is its unique position.
proof fn lemma_index_unique(vocab: Seq<char>, k: int)
    requires
        chars_ascending(vocab),
        0 <= k < vocab.len(),
    ensures
        char_index(vocab, vocab[k]) == k,
{
    assert(vocab.contains(vocab[k]));
    let j = vocab.index_of(vocab[k]);
    assert(vocab[j] == vocab[k]);
    if j < k {
        assert((vocab[j] as u32) < (vocab[k] as u32));
    } else if j > k {
        assert((vocab[k] as u32) < (vocab[j] as u32));
    }
}

fn find_char(vocab: &Vec<char>, c: char) -> (r: (bool, usize))
    requires
        chars_ascending(vocab@),
    ensures
        r.0 <==> vocab@.contains(c),
        r.0 ==> r.1 < vocab@.len() && vocab@[r.1 as int] == c && r.1 == char_index(vocab@, c),
        !r.0 ==> r.1 <= vocab@.len() && (forall|k: int| 0 <= k < r.1 ==> (#[trigger] vocab@[k] as u32) < (c as u32))
            && (forall|k: int| r.1 <= k < vocab@.len() ==> (c as u32) < (#[trigger] vocab@[k] as u32)),
{
    let mut lo: usize = 0;
    let mut hi: usize = vocab.len();
    while lo < hi
        invariant
            chars_ascending(vocab@),
            lo <= hi <= vocab@.len(),
            forall|k: int| 0 <= k < lo ==> (#[trigger] vocab@[k] as u32) < (c as u32),
            forall|k: int| hi <= k < vocab@.len() ==> (c as u32) < (#[trigger] vocab@[k] as u32),
        decreases hi - lo,
    {
        let mid = lo + (hi - lo) / 2;
        let v = vocab[mid];
        if (v as u32) == (c as u32) {
            proof {
                vstd::utf8::char_u32_cast(v, v as u32);
                vstd::utf8::char_u32_cast(c, c as u32);
                assert(v == c);
                lemma_index_unique(vocab@, mid as int);
            }
            return (true, mid);
        } else if (v as u32) < (c as u32) {
            lo = mid + 1;
        } else {
            hi = mid;
        }
    }
    proof {
        if vocab@.contains(c) {
            let k = choose|k: int| 0 <= k < vocab@.len() && vocab@[k] == c;
        }
    }
    (false, lo)
}

/// A small character-level dataset.
#[derive(Clone, Debug)]
pub struct CharDataset {
    chars: Vec<char>,
    data: Vec<usize>,
}

impl CharDataset {
    /// The vocabulary, ascending by code point.
    pub closed spec fn chars_spec(&self) -> Seq<char> {
        self.chars@
    }

    /// The encoded corpus.
    pub closed spec fn data_spec(&self) -> Seq<usize> {
        self.data@
    }

    /// Internal consistency.
    pub closed spec fn wf(&self) -> bool {
        &&& chars_ascending(self.chars@)
        &&& self.chars@.len() <= usize::MAX
        &&& forall|k: int| 0 <= k < self.data@.len() ==> (#[trigger] self.data@[k] as int) < self.chars@.len()
    }

    /// Facts every well-formed dataset has.
    pub proof fn lemma_wf(&self)
        requires
            self.wf(),
        ensures
            chars_ascending(self.chars_spec()),
            self.chars_spec().len() <= usize::MAX,
            forall|k: int| 0 <= k < self.data_spec().len() ==> (#[trigger] self.data_spec()[k] as int) < self.chars_spec().len(),
    {
    }

    /// Build a dataset from a text corpus: the vocabulary is the distinct
    /// characters, ascending; the data is the corpus encoded.
    pub fn from_text(text: &str) -> (r: CharDataset)
        ensures
            r.wf(),
            r.chars_spec().to_set() == text@.to_set(),
            r.data_spec() == encode_spec(r.chars_spec(), text@),
    {
        let cs = chars_of(text);
        let mut vocab: Vec<char> = Vec::new();
        let mut i: usize = 0;
        proof {
            assert(vocab@.to_set() =~= cs@.take(0).to_set());
        }
        while i < cs.len()
            invariant
                i <= cs@.len(),
                chars_ascending(vocab@),
                vocab@.to_set() == cs@.take(i as int).to_set(),
            decreases cs@.len() - i,
        {
            let c = cs[i];
            let (found, pos) = find_char(&vocab, c);
            proof {
                assert(cs@.take(i + 1) =~= cs@.take(i as int).push(c));
                crate::bytes_order::lemma_push_to_set(cs@.take(i as int), c);
            }
            if !found {
                let ghost v0 = vocab@;
                vocab.insert(pos, c);
                proof {
                    let v1 = vocab@;
                    assert(v1 =~= v0.insert(pos as int, c));
                    assert forall|a: int, b: int| 0 <= a < b < v1.len() implies (#[trigger] v1[a] as u32) < (#[trigger] v1[b] as u32) by {
                        if a < pos && b > pos {
                            assert(v1[b] == v0[b - 1]);
                        } else if a > pos {
                            assert(v1[a] == v0[a - 1]);
                            assert(v1[b] == v0[b - 1]);
                        } else if b < pos {
                        } else if a == pos {
                            assert(v1[b] == v0[b - 1]);
                        }
                    }
                    assert forall|y: char| v1.to_set().contains(y) <==> v0.to_set().insert(c).contains(y) by {
                        if v1.contains(y) {
                            let m = choose|m: int| 0 <= m < v1.len() && v1[m] == y;
                            if m < pos { assert(v0[m] == y); } else if m > pos { assert(v0[m - 1] == y); }
                        }
                        if v0.contains(y) {
                            let m = choose|m: int| 0 <= m < v0.len() && v0[m] == y;
                            if m < pos { assert(v1[m] == y); } else { assert(v1[m + 1] == y); }
                        }
                        if y == c { assert(v1[pos as int] == y); }
                    }
                    assert(v1.to_set() =~= v0.to_set().insert(c));
                }
            } else {
                proof {
                    assert(vocab@.to_set().insert(c) =~= vocab@.to_set());
                }
            }
            i = i + 1;
        }
        proof {
            assert(cs@.take(i as int) =~= cs@);
        }
        let mut data: Vec<usize> = Vec::new();
        let mut j: usize = 0;
        while j < cs.len()
            invariant
                j <= cs@.len(),
                chars_ascending(vocab@),
                vocab@.to_set() == cs@.to_set(),
                data@ == encode_spec(vocab@, cs@.take(j as int)),
                forall|k: int| 0 <= k < data@.len() ==> (#[trigger] data@[k] as int) < vocab@.len(),
            decreases cs@.len() - j,
        {
            let (found, pos) = find_char(&vocab, cs[j]);
            proof {
                assert(cs@.to_set().contains(cs@[j as int]));
                assert(vocab@.to_set().contains(cs@[j as int]));
            }
            data.push(pos);
            proof {
                assert(data@ =~= encode_spec(vocab@, cs@.take(j + 1)));
            }
            j = j + 1;
        }
        proof {
            assert(cs@.take(j as int) =~= cs@);
        }
        let vl = vocab.len();
        proof {
            assert(vocab@.len() == vl);
        }
        CharDataset { chars: vocab, data }
    }

    /// Vocabulary size.
    pub fn vocab_size(&self) -> (r: usize)
        ensures
            r == self.chars_spec().len(),
    {
        self.chars.len()
    }

    /// The sorted vocabulary.
    pub fn chars(&self) -> (r: &[char])
        ensures
            r@ == self.chars_spec(),
    {
        self.chars.as_slice()
    }

    /// The encoded corpus.
    pub fn data(&self) -> (r: &[usize])
        ensures
            r@ == self.data_spec(),
    {
        self.data.as_slice()
    }

    /// Encode a string to token ids (every character must be in the
    /// vocabulary).
    pub fn encode(&self, s: &str) -> (r: Vec<usize>)
        requires
            self.wf(),
            forall|k: int| 0 <= k < s@.len() ==> self.chars_spec().contains(#[trigger] s@[k]),
        ensures
            r@ == encode_spec(self.chars_spec(), s@),
            forall|k: int| 0 <= k < r@.len() ==> (#[trigger] r@[k] as int) < self.chars_spec().len(),
    {
        let cs = chars_of(s);
        let mut out: Vec<usize> = Vec::new();
        let mut j: usize = 0;
        while j < cs.len()
            invariant
                self.wf(),
                cs@ == s@,
                forall|k: int| 0 <= k < s@.len() ==> self.chars_spec().contains(#[trigger] s@[k]),
                j <= cs@.len(),
                out@ == encode_spec(self.chars@, cs@.take(j as int)),
                forall|k: int| 0 <= k < out@.len() ==> (#[trigger] out@[k] as int) < self.chars@.len(),
            decreases cs@.len() - j,
        {
            let (found, pos) = find_char(&self.chars, cs[j]);
            proof {
                assert(self.chars_spec().contains(s@[j as int]));
            }
            out.push(pos);
            proof {
                assert(out@ =~= encode_spec(self.chars@, cs@.take(j + 1)));
            }
            j = j + 1;
        }
        proof {
            assert(cs@.take(j as int) =~= cs@);
        }
        out
    }

    /// Decode token ids back to a string (every id must be a vocabulary
    /// position).
    pub fn decode(&self, ids: &[usize]) -> (r: String)
        requires
            self.wf(),
            forall|k: int| 0 <= k < ids@.len() ==> (#[trigger] ids@[k] as int) < self.chars_spec().len(),
        ensures
            r@ == decode_spec(self.chars_spec(), ids@),
    {
        let mut out: Vec<char> = Vec::new();
        let mut j: usize = 0;
        while j < ids.len()
            invariant
                forall|k: int| 0 <= k < ids@.len() ==> (#[trigger] ids@[k] as int) < self.chars@.len(),
                j <= ids@.len(),
                out@ == decode_spec(self.chars@, ids@.take(j as int)),
            decreases ids@.len() - j,
        {
            out.push(self.chars[ids[j]]);
            proof {
                assert(out@ =~= decode_spec(self.chars@, ids@.take(j + 1)));
            }
            j = j + 1;
        }
        proof {
            assert(ids@.take(j as int) =~= ids@);
        }
        string_from_chars(&out)
    }
}

/// Round trip: decoding the encoding of an in-vocabulary string gives it back.
pub proof fn lemma_decode_encode(d: &CharDataset, s: Seq<char>)
    requires
        d.wf(),
        forall|k: int| 0 <= k < s.len() ==> d.chars_spec().contains(#[trigger] s[k]),
    ensures
        decode_spec(d.chars_spec(), encode_spec(d.chars_spec(), s)) == s,
{
    let v = d.chars_spec();
    assert forall|k: int| 0 <= k < s.len() implies #[trigger] decode_spec(v, encode_spec(v, s))[k] == s[k] by {
        assert(v.contains(s[k]));
        let j = v.index_of(s[k]);
        assert(v[j] == s[k]);
        assert(encode_spec(v, s)[k] == j as usize);
        assert((j as usize) as int == j);
    }
    assert(decode_spec(v, encode_spec(v, s)) =~= s);
}

/// A single training window: `block` inputs and the targets shifted by one.
#[derive(Clone, Debug)]
pub struct Batch {
    pub inputs: Vec<usize>,
    pub targets: Vec<usize>,
}

/// Extract the window at `start`: inputs `data[start..start+block]`,
/// targets `data[start+1..start+1+block]`.
pub fn batch_at(data: &[usize], start: usize, block: usize) -> (r: Batch)
    requires
        start + block < data@.len(),
    ensures
        r.inputs@ == data@.subrange(start as int, start + block),
        r.targets@ == data@.subrange(start + 1, start + 1 + block),
{
    let mut inputs: Vec<usize> = Vec::new();
    let mut targets: Vec<usize> = Vec::new();
    let n = data.len();
    let mut k: usize = 0;
    while k < block
        invariant
            n == data@.len(),
            start + block < n,
            k <= block,
            inputs@ == data@.subrange(start as int, start + k),
            targets@ == data@.subrange(start + 1, start + 1 + k),
        decreases block - k,
    {
        inputs.push(data[start + k]);
        targets.push(data[start + 1 + k]);
        proof {
            assert(inputs@ =~= data@.subrange(start as int, start + k + 1));
            assert(targets@ =~= data@.subrange(start + 1, start + 1 + k + 1));
        }
        k = k + 1;
    }
    Batch { inputs, targets }
}

} // verus!
