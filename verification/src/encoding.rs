//! Simulated encoder/decoder over opaque `tid{n}` encoding IDs: a
//! deterministic word <-> ID codec for a fixed vocabulary.

use vstd::prelude::*;
use crate::bytes_order::{
    bytes_eq, clone_all, clone_bytes, lemma_lex_irrefl, search_sorted, sort_dedup, strictly_sorted,
    views,
};
use crate::hashing::string_from_chars;
use crate::text::{encode_words, split_whitespace, split_ws, word_bytes};
use vstd::utf8::{decode_utf8, encode_utf8, valid_utf8};

verus! {

/// ASCII decimal digits of `n`, most significant first.
pub open spec fn decimal_bytes(n: nat) -> Seq<u8>
    decreases n,
{
    if n < 10 {
        seq![(48 + n) as u8]
    } else {
        decimal_bytes(n / 10).push((48 + n % 10) as u8)
    }
}

/// The bytes of the encoding ID `tid{n}`.
pub open spec fn tid_bytes(n: nat) -> Seq<u8> {
    seq![116u8, 105u8, 100u8] + decimal_bytes(n)
}

/// The characters of a byte string read as ASCII.
pub open spec fn ascii_chars(b: Seq<u8>) -> Seq<char> {
    b.map_values(|x: u8| x as char)
}

proof fn lemma_decimal_len(n: nat)
    ensures
        decimal_bytes(n).len() >= 1,
        n >= 10 ==> decimal_bytes(n).len() >= 2,
    decreases n,
{
    if n >= 10 {
        lemma_decimal_len(n / 10);
    }
}

/// Decimal notation is injective.
proof fn lemma_decimal_injective(a: nat, b: nat)
    requires
        decimal_bytes(a) == decimal_bytes(b),
    ensures
        a == b,
    decreases a,
{
    lemma_decimal_len(a);
    lemma_decimal_len(b);
    if a < 10 || b < 10 {
        if a < 10 && b < 10 {
            assert(decimal_bytes(a)[0] == decimal_bytes(b)[0]);
            assert(decimal_bytes(a)[0] == (48 + a) as u8);
            assert(decimal_bytes(b)[0] == (48 + b) as u8);
        } else if a < 10 {
            assert(decimal_bytes(a).len() == 1);
        } else {
            assert(decimal_bytes(b).len() == 1);
        }
    } else {
        let da = decimal_bytes(a);
        let db = decimal_bytes(b);
        assert(da.last() == db.last());
        assert(da.last() == (48 + a % 10) as u8);
        assert(db.last() == (48 + b % 10) as u8);
        assert(a % 10 == b % 10);
        assert(da.drop_last() =~= decimal_bytes(a / 10));
        assert(db.drop_last() =~= decimal_bytes(b / 10));
        lemma_decimal_injective(a / 10, b / 10);
        assert(a == 10 * (a / 10) + a % 10);
        assert(b == 10 * (b / 10) + b % 10);
    }
}

/// Distinct numbers have distinct encoding IDs.
pub proof fn lemma_tid_injective(a: nat, b: nat)
    requires
        tid_bytes(a) == tid_bytes(b),
    ensures
        a == b,
{
    assert(tid_bytes(a).skip(3) =~= decimal_bytes(a));
    assert(tid_bytes(b).skip(3) =~= decimal_bytes(b));
    lemma_decimal_injective(a, b);
}

/// Append the decimal digits of `n` to `out`.
pub(crate) fn push_decimal(n: u64, out: &mut Vec<u8>)
    ensures
        final(out)@ == old(out)@ + decimal_bytes(n as nat),
    decreases n,
{
    if n >= 10 {
        push_decimal(n / 10, out);
    }
    let d = (n % 10) as u8;
    out.push(48 + d);
    proof {
        if n >= 10 {
            assert(final(out)@ =~= old(out)@ + decimal_bytes(n as nat));
        } else {
            assert(final(out)@ =~= old(out)@ + decimal_bytes(n as nat));
        }
    }
}

/// The encoding ID `tid{n}` as bytes.
pub fn tid_as_bytes(n: usize) -> (r: Vec<u8>)
    ensures
        r@ == tid_bytes(n as nat),
{
    let mut out: Vec<u8> = Vec::new();
    out.push(116u8);
    out.push(105u8);
    out.push(100u8);
    push_decimal(n as u64, &mut out);
    proof {
        assert(out@ =~= tid_bytes(n as nat));
    }
    out
}

/// The canonical encoding-ID form: `tid{n}`.
pub fn tid(n: usize) -> (s: String)
    ensures
        s@ == ascii_chars(tid_bytes(n as nat)),
{
    let b = tid_as_bytes(n);
    let mut cs: Vec<char> = Vec::new();
    let mut i: usize = 0;
    while i < b.len()
        invariant
            i <= b@.len(),
            cs@ == ascii_chars(b@.take(i as int)),
        decreases b@.len() - i,
    {
        cs.push(b[i] as char);
        proof {
            assert(ascii_chars(b@.take(i + 1)) =~= ascii_chars(b@.take(i as int)).push(
                b@[i as int] as char,
            ));
        }
        i = i + 1;
    }
    proof {
        assert(b@.take(i as int) =~= b@);
    }
    string_from_chars(&cs)
}

/// The lossy UTF-8 decoding of a byte string, as computed by
/// `String::from_utf8_lossy`.
pub uninterp spec fn utf8_lossy(bytes: Seq<u8>) -> Seq<char>;

/// Calls `String::from_utf8_lossy` and takes ownership of the result. The
/// contract names the decoded characters and states what std documents of
/// valid input: valid UTF-8 comes back unchanged, as the characters it
/// encodes. What replaces invalid sequences is left to the name.
#[verifier::external_body]
fn string_from_utf8_lossy(bytes: &[u8]) -> (s: String)
    ensures
        s@ == utf8_lossy(bytes@),
        valid_utf8(bytes@) ==> s@ == decode_utf8(bytes@),
{
    String::from_utf8_lossy(bytes).into_owned()
}

/// A deterministic word <-> `tid{n}` codec for a fixed vocabulary.
///
/// `words` holds the vocabulary in strictly ascending byte order; the ID of
/// `words[i]` is `tid{i}`.
#[derive(Clone, Debug)]
pub struct SimCodec {
    words: Vec<Vec<u8>>,
    vocab: Vec<Vec<u8>>,
}

impl SimCodec {
    /// The vocabulary words, ascending.
    pub closed spec fn words_spec(&self) -> Seq<Seq<u8>> {
        views(self.words@)
    }

    /// The valid encoding IDs.
    pub closed spec fn vocab_spec(&self) -> Seq<Seq<u8>> {
        views(self.vocab@)
    }

    /// Internal consistency: sorted words, and `vocab[i] = tid{i}`.
    pub closed spec fn wf(&self) -> bool {
        &&& strictly_sorted(views(self.words@))
        &&& self.vocab@.len() == self.words@.len()
        &&& forall|i: int| 0 <= i < self.vocab@.len() ==> #[trigger] self.vocab@[i]@ == tid_bytes(i as nat)
    }

    /// Facts every well-formed codec has.
    pub proof fn lemma_wf(&self)
        requires
            self.wf(),
        ensures
            strictly_sorted(self.words_spec()),
            self.vocab_spec().len() == self.words_spec().len(),
            forall|i: int|
                0 <= i < self.vocab_spec().len() ==> #[trigger] self.vocab_spec()[i] == tid_bytes(
                    i as nat,
                ),
    {
    }

    /// The ID of a word, `None` out of vocabulary.
    pub open spec fn encode_spec(&self, w: Seq<u8>) -> Option<Seq<u8>> {
        if self.words_spec().contains(w) {
            Some(tid_bytes(self.words_spec().index_of(w) as nat))
        } else {
            None
        }
    }

    /// The word of an ID, `None` for an unknown ID.
    pub open spec fn decode_spec(&self, id: Seq<u8>) -> Option<Seq<u8>> {
        if exists|i: int| 0 <= i < self.words_spec().len() && #[trigger] tid_bytes(i as nat) == id {
            Some(
                self.words_spec()[choose|i: int|
                    0 <= i < self.words_spec().len() && #[trigger] tid_bytes(i as nat) == id],
            )
        } else {
            None
        }
    }

    fn build(ws: Vec<Vec<u8>>) -> (r: SimCodec)
        requires
            strictly_sorted(views(ws@)),
        ensures
            r.wf(),
            r.words_spec() == views(ws@),
    {
        let mut vocab: Vec<Vec<u8>> = Vec::new();
        let mut i: usize = 0;
        while i < ws.len()
            invariant
                i <= ws@.len(),
                vocab@.len() == i,
                forall|k: int| 0 <= k < i ==> #[trigger] vocab@[k]@ == tid_bytes(k as nat),
            decreases ws@.len() - i,
        {
            vocab.push(tid_as_bytes(i));
            i = i + 1;
        }
        SimCodec { words: ws, vocab }
    }

    /// Build a codec from a word list: the distinct words, ascending.
    pub fn from_words(words: &Vec<Vec<u8>>) -> (r: SimCodec)
        ensures
            r.wf(),
            strictly_sorted(r.words_spec()),
            r.words_spec().to_set() == views(words@).to_set(),
    {
        let ws = sort_dedup(words);
        SimCodec::build(ws)
    }

    /// Build a codec from the distinct whitespace-separated words of `text`.
    pub fn from_text(text: &str) -> (r: SimCodec)
        ensures
            r.wf(),
            strictly_sorted(r.words_spec()),
            r.words_spec().to_set() == word_bytes(text@).to_set(),
    {
        let ws = split_whitespace(text);
        SimCodec::from_words(&ws)
    }

    /// The valid encoding IDs (`tid0`, `tid1`, ...), in word order.
    pub fn vocab(&self) -> (r: &[Vec<u8>])
        requires
            self.wf(),
        ensures
            views(r@) == self.vocab_spec(),
    {
        self.vocab.as_slice()
    }

    /// Number of vocabulary words.
    pub fn len(&self) -> (r: usize)
        requires
            self.wf(),
        ensures
            r == self.words_spec().len(),
    {
        self.words.len()
    }

    /// Encode one word to its `tid{n}` ID (`None` out of vocabulary).
    pub fn encode_word(&self, word: &[u8]) -> (r: Option<Vec<u8>>)
        requires
            self.wf(),
        ensures
            match r {
                Some(id) => self.encode_spec(word@) == Some(id@),
                None => self.encode_spec(word@) == None::<Seq<u8>>,
            },
    {
        let (found, pos) = search_sorted(&self.words, word);
        if found {
            proof {
                let s = self.words_spec();
                assert(s[pos as int] == word@);
                assert(s.contains(word@));
                // the index of a word in a strictly sorted sequence is unique
                let k = s.index_of(word@);
                assert(s[k] == word@);
                if k != pos as int {
                    if k < pos {
                        assert(crate::bytes_order::lex_lt(s[k], s[pos as int]));
                    } else {
                        assert(crate::bytes_order::lex_lt(s[pos as int], s[k]));
                    }
                    lemma_lex_irrefl(word@);
                }
            }
            Some(clone_bytes(&self.vocab[pos]))
        } else {
            None
        }
    }

    /// Encode text to encoding IDs, dropping out-of-vocabulary words.
    pub fn encode_text(&self, text: &str) -> (r: Vec<Vec<u8>>)
        requires
            self.wf(),
        ensures
            views(r@) == encode_known(self, word_bytes(text@)),
    {
        let ws = split_whitespace(text);
        let mut out: Vec<Vec<u8>> = Vec::new();
        let mut i: usize = 0;
        while i < ws.len()
            invariant
                self.wf(),
                i <= ws@.len(),
                views(out@) == encode_known(self, views(ws@).take(i as int)),
            decreases ws@.len() - i,
        {
            let e = self.encode_word(ws[i].as_slice());
            proof {
                assert(views(ws@).take(i + 1) =~= views(ws@).take(i as int).push(ws@[i as int]@));
                assert(views(ws@).take(i + 1).drop_last() =~= views(ws@).take(i as int));
            }
            match e {
                Some(id) => {
                    let ghost o0 = out@;
                    out.push(id);
                    proof {
                        assert(views(out@) =~= views(o0).push(id@));
                    }
                },
                None => {},
            }
            i = i + 1;
        }
        proof {
            assert(views(ws@).take(i as int) =~= views(ws@));
        }
        out
    }

    /// Decode one encoding ID to its word (`None` if unknown).
    pub fn decode_id(&self, id: &[u8]) -> (r: Option<Vec<u8>>)
        requires
            self.wf(),
        ensures
            match r {
                Some(w) => self.decode_spec(id@) == Some(w@),
                None => self.decode_spec(id@) == None::<Seq<u8>>,
            },
    {
        let mut i: usize = 0;
        while i < self.vocab.len()
            invariant
                self.wf(),
                i <= self.vocab@.len(),
                forall|k: int| 0 <= k < i ==> #[trigger] tid_bytes(k as nat) != id@,
            decreases self.vocab@.len() - i,
        {
            if bytes_eq(self.vocab[i].as_slice(), id) {
                proof {
                    assert(tid_bytes(i as nat) == id@);
                    let s = self.words_spec();
                    let k = choose|k: int| 0 <= k < s.len() && #[trigger] tid_bytes(k as nat) == id@;
                    lemma_tid_injective(k as nat, i as nat);
                }
                return Some(clone_bytes(&self.words[i]));
            }
            i = i + 1;
        }
        None
    }

    /// Decode a sequence of IDs to text: known IDs render as their word,
    /// unknown IDs as `<id>`; pieces are joined by single spaces.
    pub fn decode_ids(&self, ids: &[Vec<u8>]) -> (s: String)
        requires
            self.wf(),
        ensures
            s@ == utf8_lossy(render(self, views(ids@))),
            valid_utf8(render(self, views(ids@))) ==> s@ == decode_utf8(render(self, views(ids@))),
    {
        let mut out: Vec<u8> = Vec::new();
        let mut i: usize = 0;
        while i < ids.len()
            invariant
                self.wf(),
                i <= ids@.len(),
                out@ == render(self, views(ids@).take(i as int)),
            decreases ids@.len() - i,
        {
            proof {
                assert(views(ids@).take(i + 1) =~= views(ids@).take(i as int).push(ids@[i as int]@));
                assert(views(ids@).take(i + 1).drop_last() =~= views(ids@).take(i as int));
            }
            if i > 0 {
                out.push(32u8);
            }
            match self.decode_id(ids[i].as_slice()) {
                Some(w) => {
                    let mut j: usize = 0;
                    let ghost o0 = out@;
                    while j < w.len()
                        invariant
                            j <= w@.len(),
                            out@ == o0 + w@.take(j as int),
                        decreases w@.len() - j,
                    {
                        out.push(w[j]);
                        proof {
                            assert(w@.take(j + 1) =~= w@.take(j as int).push(w@[j as int]));
                        }
                        j = j + 1;
                    }
                    proof {
                        assert(w@.take(j as int) =~= w@);
                    }
                },
                None => {
                    let id = &ids[i];
                    let ghost o0 = out@;
                    out.push(60u8);
                    let mut j: usize = 0;
                    while j < id.len()
                        invariant
                            j <= id@.len(),
                            out@ == o0.push(60u8) + id@.take(j as int),
                        decreases id@.len() - j,
                    {
                        out.push(id[j]);
                        proof {
                            assert(id@.take(j + 1) =~= id@.take(j as int).push(id@[j as int]));
                        }
                        j = j + 1;
                    }
                    out.push(62u8);
                    proof {
                        assert(id@.take(j as int) =~= id@);
                    }
                },
            }
            proof {
                assert(out@ =~= render(self, views(ids@).take(i + 1)));
            }
            i = i + 1;
        }
        proof {
            assert(views(ids@).take(i as int) =~= views(ids@));
        }
        string_from_utf8_lossy(out.as_slice())
    }
}

/// Round trip: decoding the ID of an in-vocabulary word gives the word back.
pub proof fn lemma_decode_encode(c: &SimCodec, w: Seq<u8>)
    requires
        c.wf(),
        c.words_spec().contains(w),
    ensures
        c.encode_spec(w) is Some,
        c.decode_spec(c.encode_spec(w)->Some_0) == Some(w),
{
    let s = c.words_spec();
    let k = s.index_of(w);
    assert(s[k] == w);
    let id = tid_bytes(k as nat);
    assert(tid_bytes(k as nat) == id);
    let i = choose|i: int| 0 <= i < s.len() && #[trigger] tid_bytes(i as nat) == id;
    lemma_tid_injective(i as nat, k as nat);
}

/// Round trip: every valid ID decodes to a word whose ID is that ID, and the
/// valid IDs are exactly `tid0 .. tid{n-1}`.
pub proof fn lemma_encode_decode(c: &SimCodec, i: int)
    requires
        c.wf(),
        0 <= i < c.vocab_spec().len(),
    ensures
        c.decode_spec(c.vocab_spec()[i]) == Some(c.words_spec()[i]),
        c.encode_spec(c.words_spec()[i]) == Some(c.vocab_spec()[i]),
{
    let s = c.words_spec();
    let id = c.vocab_spec()[i];
    assert(id == tid_bytes(i as nat));
    let j = choose|j: int| 0 <= j < s.len() && #[trigger] tid_bytes(j as nat) == id;
    lemma_tid_injective(j as nat, i as nat);
    assert(s.contains(s[i]));
    let k = s.index_of(s[i]);
    if k != i {
        if k < i {
            assert(crate::bytes_order::lex_lt(s[k], s[i]));
        } else {
            assert(crate::bytes_order::lex_lt(s[i], s[k]));
        }
        lemma_lex_irrefl(s[i]);
    }
}

/// The IDs of the in-vocabulary words of `ws`, in order.
pub open spec fn encode_known(c: &SimCodec, ws: Seq<Seq<u8>>) -> Seq<Seq<u8>>
    decreases ws.len(),
{
    if ws.len() == 0 {
        Seq::empty()
    } else {
        let prev = encode_known(c, ws.drop_last());
        match c.encode_spec(ws.last()) {
            Some(id) => prev.push(id),
            None => prev,
        }
    }
}

/// How one ID renders: its word, or `<id>` when unknown.
pub open spec fn render_one(c: &SimCodec, id: Seq<u8>) -> Seq<u8> {
    match c.decode_spec(id) {
        Some(w) => w,
        None => seq![60u8] + id + seq![62u8],
    }
}

/// The rendered IDs joined by single spaces.
pub open spec fn render(c: &SimCodec, ids: Seq<Seq<u8>>) -> Seq<u8>
    decreases ids.len(),
{
    if ids.len() == 0 {
        Seq::empty()
    } else if ids.len() == 1 {
        render_one(c, ids[0])
    } else {
        render(c, ids.drop_last()).push(32u8) + render_one(c, ids.last())
    }
}

/// Words joined by single spaces.
pub open spec fn join_words(ws: Seq<Seq<char>>) -> Seq<char>
    decreases ws.len(),
{
    if ws.len() == 0 {
        Seq::empty()
    } else if ws.len() == 1 {
        ws[0]
    } else {
        join_words(ws.drop_last()).push(' ') + ws.last()
    }
}

/// Every word of `ws` is in the codec's vocabulary.
pub open spec fn all_known(c: &SimCodec, ws: Seq<Seq<char>>) -> bool {
    forall|i: int| 0 <= i < ws.len() ==> c.words_spec().contains(#[trigger] encode_utf8(ws[i]))
}

/// Rendering the IDs of in-vocabulary words gives the UTF-8 of the words
/// joined by spaces.
proof fn lemma_render_known(c: &SimCodec, ws: Seq<Seq<char>>)
    requires
        c.wf(),
        all_known(c, ws),
    ensures
        encode_known(c, encode_words(ws)).len() == ws.len(),
        render(c, encode_known(c, encode_words(ws))) == encode_utf8(join_words(ws)),
    decreases ws.len(),
{
    let ids = encode_known(c, encode_words(ws));
    if ws.len() == 0 {
        assert(encode_words(ws) =~= Seq::<Seq<u8>>::empty());
        assert(encode_utf8(Seq::<char>::empty()) =~= Seq::<u8>::empty());
    } else {
        let pre = ws.drop_last();
        assert(encode_words(ws).drop_last() =~= encode_words(pre));
        assert(all_known(c, pre)) by {
            assert forall|i: int| 0 <= i < pre.len() implies c.words_spec().contains(#[trigger] encode_utf8(pre[i])) by {
                assert(pre[i] == ws[i]);
            }
        }
        lemma_render_known(c, pre);
        let w = encode_utf8(ws.last());
        assert(encode_words(ws).last() == w);
        assert(c.words_spec().contains(encode_utf8(ws[ws.len() - 1])));
        lemma_decode_encode(c, w);
        let id = c.encode_spec(w)->Some_0;
        assert(ids == encode_known(c, encode_words(pre)).push(id));
        assert(render_one(c, id) == w);
        if ws.len() == 1 {
            assert(encode_known(c, encode_words(pre)) =~= Seq::<Seq<u8>>::empty());
            assert(ids[0] == id);
        } else {
            assert(ids.drop_last() =~= encode_known(c, encode_words(pre)));
            assert(ids.last() == id);
            let jp = join_words(pre);
            crate::text::lemma_encode_push(jp, ' ');
            crate::text::lemma_encode_concat(jp.push(' '), ws.last());
            let sp: u32 = ' ' as u32;
            assert(sp == 32);
            assert((sp & 0x7F) as u8 == 32u8) by (bit_vector)
                requires
                    sp == 32,
            ;
            assert(vstd::utf8::encode_scalar(sp) =~= seq![32u8]);
            assert(encode_utf8(jp).push(32u8) =~= encode_utf8(jp) + seq![32u8]);
        }
    }
}

/// Codec round trip: on text whose whitespace-separated words are all in
/// the vocabulary, the rendered IDs of `encode_text` are valid UTF-8 and
/// decode to the words joined by single spaces; `decode_ids` therefore
/// gives back the text's words joined by single spaces.
pub proof fn lemma_codec_roundtrip(c: &SimCodec, text: Seq<char>)
    requires
        c.wf(),
        all_known(c, split_ws(text)),
    ensures
        valid_utf8(render(c, encode_known(c, word_bytes(text)))),
        decode_utf8(render(c, encode_known(c, word_bytes(text)))) == join_words(split_ws(text)),
{
    lemma_render_known(c, split_ws(text));
    vstd::utf8::encode_utf8_valid_utf8(join_words(split_ws(text)));
    vstd::utf8::encode_utf8_decode_utf8(join_words(split_ws(text)));
}

/// Every ID stays visible in the decoded text: an unknown ID appears as
/// `<id>` and a known one as its word, at the place of its piece, with the
/// pieces separated by single spaces; nothing is dropped.
pub proof fn lemma_render_keeps_every_id(c: &SimCodec, ids: Seq<Seq<u8>>, i: int)
    requires
        0 <= i < ids.len(),
    ensures
        c.decode_spec(ids[i]) is None ==> exists|k: int|
            0 <= k && k + ids[i].len() + 2 <= render(c, ids).len() && #[trigger] render(c, ids).subrange(
                k,
                k + ids[i].len() + 2,
            ) == seq![60u8] + ids[i] + seq![62u8],
        c.decode_spec(ids[i]) matches Some(w) ==> exists|k: int|
            0 <= k && k + w.len() <= render(c, ids).len() && #[trigger] render(c, ids).subrange(k, k + w.len()) == w,
        render(c, ids).len() >= ids.len() - 1,
    decreases ids.len(),
{
    let r = render(c, ids);
    let piece = if c.decode_spec(ids[i]) is None {
        seq![60u8] + ids[i] + seq![62u8]
    } else {
        c.decode_spec(ids[i])->Some_0
    };
    assert(render_one(c, ids[i]) == piece);
    if ids.len() == 1 {
        assert(r == piece);
        if c.decode_spec(ids[i]) is None {
            assert(render(c, ids).subrange(0int, 0int + ids[i].len() + 2) =~= seq![60u8] + ids[i] + seq![62u8]);
        } else {
            let w = c.decode_spec(ids[i])->Some_0;
            assert(render(c, ids).subrange(0int, 0int + w.len()) =~= w);
        }
    } else {
        let pre = ids.drop_last();
        let rp = render(c, pre);
        assert(r == rp.push(32u8) + render_one(c, ids.last()));
        if i < ids.len() - 1 {
            assert(pre[i] == ids[i]);
            lemma_render_keeps_every_id(c, pre, i);
            if c.decode_spec(ids[i]) is None {
                let k = choose|k: int|
                    0 <= k && k + ids[i].len() + 2 <= rp.len() && #[trigger] rp.subrange(k, k + ids[i].len() + 2)
                        == seq![60u8] + ids[i] + seq![62u8];
                assert(render(c, ids).subrange(k, k + ids[i].len() + 2) =~= rp.subrange(k, k + ids[i].len() + 2));
            } else {
                let w = c.decode_spec(ids[i])->Some_0;
                let k = choose|k: int| 0 <= k && k + w.len() <= rp.len() && #[trigger] rp.subrange(k, k + w.len()) == w;
                assert(render(c, ids).subrange(k, k + w.len()) =~= rp.subrange(k, k + w.len()));
            }
        } else {
            if ids.len() - 1 >= 1 {
                lemma_render_keeps_every_id(c, pre, 0);
            }
            let k: int = rp.len() as int + 1;
            assert(ids.last() == ids[i]);
            if c.decode_spec(ids[i]) is None {
                assert(render(c, ids).subrange(k, k + ids[i].len() + 2) =~= seq![60u8] + ids[i] + seq![62u8]);
            } else {
                let w = c.decode_spec(ids[i])->Some_0;
                assert(render(c, ids).subrange(k, k + w.len()) =~= w);
            }
        }
    }
}

} // verus!
