//! Address-key attention support: the lattice cell of every token of a
//! character vocabulary.

use vstd::prelude::*;
use crate::data::CharDataset;
use crate::hashing::{token_bit, TOTAL_CELLS};
use crate::kstorage::{KStorage, KeyRef, TokenLutStorage};
use crate::text::push_utf8;
use vstd::utf8::{encode_scalar, encode_utf8};

verus! {

/// The UTF-8 bytes of one character (its token).
pub fn char_token(c: char) -> (r: Vec<u8>)
    ensures
        r@ == encode_utf8(seq![c]),
{
    let mut out: Vec<u8> = Vec::new();
    push_utf8(&mut out, c);
    proof {
        assert(seq![c].drop_first() =~= Seq::<char>::empty());
        assert(encode_utf8(Seq::<char>::empty()) =~= Seq::<u8>::empty());
        assert(encode_utf8(seq![c]) =~= encode_scalar(c as u32) + encode_utf8(Seq::<char>::empty()));
        assert(out@ =~= encode_utf8(seq![c]));
    }
    out
}

/// The tokens of a character vocabulary, one per character.
pub fn char_tokens(chars: &[char]) -> (r: Vec<Vec<u8>>)
    ensures
        r@.len() == chars@.len(),
        forall|k: int| 0 <= k < r@.len() ==> (#[trigger] r@[k])@ == encode_utf8(seq![chars@[k]]),
{
    let mut out: Vec<Vec<u8>> = Vec::new();
    let mut i: usize = 0;
    while i < chars.len()
        invariant
            i <= chars@.len(),
            out@.len() == i,
            forall|k: int| 0 <= k < i ==> (#[trigger] out@[k])@ == encode_utf8(seq![chars@[k]]),
        decreases chars@.len() - i,
    {
        out.push(char_token(chars[i]));
        i = i + 1;
    }
    out
}

/// The lattice cell of every token id of the dataset vocabulary.
pub fn bits_for_dataset(dataset: &CharDataset) -> (r: Vec<u32>)
    ensures
        r@.len() == dataset.chars_spec().len(),
        forall|k: int| 0 <= k < r@.len() ==> #[trigger] r@[k] == token_bit(encode_utf8(seq![dataset.chars_spec()[k]])),
        forall|k: int| 0 <= k < r@.len() ==> (#[trigger] r@[k] as int) < TOTAL_CELLS,
{
    let chars = dataset.chars();
    let tokens = char_tokens(chars);
    let storage = TokenLutStorage::from_tokens(&tokens);
    let mut out: Vec<u32> = Vec::new();
    let mut i: usize = 0;
    while i < tokens.len()
        invariant
            tokens@.len() == chars@.len(),
            chars@ == dataset.chars_spec(),
            forall|k: int| 0 <= k < tokens@.len() ==> (#[trigger] tokens@[k])@ == encode_utf8(seq![chars@[k]]),
            i <= tokens@.len(),
            out@.len() == i,
            forall|k: int| 0 <= k < i ==> #[trigger] out@[k] == token_bit(encode_utf8(seq![chars@[k]])),
            forall|k: int| 0 <= k < i ==> (#[trigger] out@[k] as int) < TOTAL_CELLS,
        decreases tokens@.len() - i,
    {
        let key = storage.key_of(tokens[i].as_slice());
        proof {
            crate::hashing::lemma_bit_of_hash_in_range(crate::hashing::content_address(tokens@[i as int]@));
        }
        let bit = match key {
            KeyRef::Cell(b) => b,
            KeyRef::Cells(..) => {
                proof {
                    assert(false);
                }
                0
            },
        };
        out.push(bit);
        i = i + 1;
    }
    out
}

} // verus!
