//! Text helpers: characters of a string, Unicode whitespace, splitting into
//! whitespace-separated words and into lines, and UTF-8 encoding.

use vstd::prelude::*;
use vstd::utf8::{encode_scalar, encode_utf8, has_width_1_encoding, has_width_2_encoding, has_width_3_encoding};

verus! {

broadcast use vstd::string::axiom_spec_iter;

/// The characters of a string.
pub fn chars_of(text: &str) -> (r: Vec<char>)
    ensures
        r@ == text@,
{
    let mut out: Vec<char> = Vec::new();
    for c in it: text.chars()
        invariant
            it.seq() == text@,
            out@ == it.seq().take(it.index() as int),
    {
        out.push(c);
        proof {
            assert(it.seq().take(it.index() + 1) =~= out@);
        }
    }
    assert(out@ =~= text@);
    out
}

/// Unicode `White_Space` (what `char::is_whitespace` tests).
pub open spec fn is_ws(c: char) -> bool {
    let v = c as u32;
    (0x9 <= v <= 0xD) || v == 0x20 || v == 0x85 || v == 0xA0 || v == 0x1680 || (0x2000 <= v
        <= 0x200A) || v == 0x2028 || v == 0x2029 || v == 0x202F || v == 0x205F || v == 0x3000
}

/// Whether `c` is Unicode whitespace.
pub fn is_whitespace(c: char) -> (r: bool)
    ensures
        r == is_ws(c),
{
    let v = c as u32;
    (0x9 <= v && v <= 0xD) || v == 0x20 || v == 0x85 || v == 0xA0 || v == 0x1680 || (0x2000 <= v
        && v <= 0x200A) || v == 0x2028 || v == 0x2029 || v == 0x202F || v == 0x205F || v == 0x3000
}

/// Words of `s` (maximal runs of non-whitespace), the current partial word
/// being `cur`.
pub open spec fn split_ws_from(s: Seq<char>, cur: Seq<char>) -> Seq<Seq<char>>
    decreases s.len(),
{
    if s.len() == 0 {
        if cur.len() == 0 {
            Seq::empty()
        } else {
            seq![cur]
        }
    } else if is_ws(s[0]) {
        (if cur.len() == 0 {
            Seq::empty()
        } else {
            seq![cur]
        }) + split_ws_from(s.drop_first(), Seq::empty())
    } else {
        split_ws_from(s.drop_first(), cur.push(s[0]))
    }
}

/// The whitespace-separated words of `s` (as `str::split_whitespace`).
pub open spec fn split_ws(s: Seq<char>) -> Seq<Seq<char>> {
    split_ws_from(s, Seq::empty())
}

/// The characters of Unicode `White_Space`, one by one.
pub open spec fn white_space_char(c: char) -> bool {
    c == '\t' || c == '\n' || c == '\u{b}' || c == '\u{c}' || c == '\r' || c == ' ' || c == '\u{85}'
        || c == '\u{a0}' || c == '\u{1680}' || c == '\u{2000}' || c == '\u{2001}' || c == '\u{2002}'
        || c == '\u{2003}' || c == '\u{2004}' || c == '\u{2005}' || c == '\u{2006}' || c == '\u{2007}'
        || c == '\u{2008}' || c == '\u{2009}' || c == '\u{200a}' || c == '\u{2028}' || c == '\u{2029}'
        || c == '\u{202f}' || c == '\u{205f}' || c == '\u{3000}'
}

proof fn lemma_split_from_clean(s: Seq<char>, cur: Seq<char>)
    requires
        forall|i: int| 0 <= i < cur.len() ==> !white_space_char(#[trigger] cur[i]),
    ensures
        forall|k: int, i: int|
            0 <= k < split_ws_from(s, cur).len() && 0 <= i < split_ws_from(s, cur)[k].len()
                ==> !white_space_char(#[trigger] split_ws_from(s, cur)[k][i]),
        forall|k: int| 0 <= k < split_ws_from(s, cur).len() ==> (#[trigger] split_ws_from(s, cur)[k]).len() > 0,
    decreases s.len(),
{
    if s.len() == 0 {
        if cur.len() > 0 {
            assert(split_ws_from(s, cur) == seq![cur]);
            assert(seq![cur][0] == cur);
        } else {
            assert(split_ws_from(s, cur).len() == 0);
        }
    } else if is_ws(s[0]) {
        lemma_split_from_clean(s.drop_first(), Seq::empty());
        let head: Seq<Seq<char>> = if cur.len() == 0 { Seq::empty() } else { seq![cur] };
        let rest = split_ws_from(s.drop_first(), Seq::empty());
        assert(split_ws_from(s, cur) == head + rest);
        assert forall|k: int| 0 <= k < (head + rest).len() implies (#[trigger] (head + rest)[k]).len() > 0
            && forall|i: int| 0 <= i < (head + rest)[k].len() ==> !white_space_char(#[trigger] (head + rest)[k][i]) by {
            if k < head.len() {
                assert((head + rest)[k] == cur);
            } else {
                assert((head + rest)[k] == rest[k - head.len()]);
            }
        }
    } else {
        let c = s[0];
        assert(!white_space_char(c)) by {
            assert(white_space_char(c) ==> is_ws(c));
        }
        let cur2 = cur.push(c);
        assert forall|i: int| 0 <= i < cur2.len() implies !white_space_char(#[trigger] cur2[i]) by {
            if i < cur.len() {
                assert(cur2[i] == cur[i]);
            }
        }
        lemma_split_from_clean(s.drop_first(), cur2);
        assert(split_ws_from(s, cur) == split_ws_from(s.drop_first(), cur2));
    }
}

/// Words split as `str::split_whitespace` does: every word is non-empty
/// and holds no `White_Space` character (tab, line feed, vertical tab, form
/// feed, carriage return, space, and the Unicode spaces), so each of them
/// separates words.
pub proof fn lemma_words_have_no_white_space(s: Seq<char>)
    ensures
        forall|k: int, i: int|
            0 <= k < split_ws(s).len() && 0 <= i < split_ws(s)[k].len() ==> !white_space_char(#[trigger] split_ws(s)[k][i]),
        forall|k: int| 0 <= k < split_ws(s).len() ==> (#[trigger] split_ws(s)[k]).len() > 0,
{
    lemma_split_from_clean(s, Seq::empty());
}

/// UTF-8 bytes of each word.
pub open spec fn encode_words(ws: Seq<Seq<char>>) -> Seq<Seq<u8>> {
    ws.map_values(|w: Seq<char>| encode_utf8(w))
}

/// The UTF-8 bytes of the whitespace-separated words of `s`.
pub open spec fn word_bytes(s: Seq<char>) -> Seq<Seq<u8>> {
    encode_words(split_ws(s))
}

/// Encoding a pushed character appends its encoding.
pub proof fn lemma_encode_push(s: Seq<char>, c: char)
    ensures
        encode_utf8(s.push(c)) == encode_utf8(s) + encode_scalar(c as u32),
    decreases s.len(),
{
    if s.len() == 0 {
        assert(s.push(c).drop_first() =~= Seq::<char>::empty());
        assert(encode_utf8(Seq::<char>::empty()) =~= Seq::<u8>::empty());
        assert(encode_utf8(s.push(c)) =~= encode_scalar(c as u32));
        assert(encode_utf8(s) =~= Seq::<u8>::empty());
        assert(encode_utf8(s) + encode_scalar(c as u32) =~= encode_scalar(c as u32));
    } else {
        assert(s.push(c).drop_first() =~= s.drop_first().push(c));
        lemma_encode_push(s.drop_first(), c);
        assert(encode_utf8(s.push(c)) =~= encode_scalar(s[0] as u32) + encode_utf8(
            s.drop_first().push(c),
        ));
    }
}

/// Encoding concatenated strings concatenates encodings.
pub proof fn lemma_encode_concat(a: Seq<char>, b: Seq<char>)
    ensures
        encode_utf8(a + b) == encode_utf8(a) + encode_utf8(b),
    decreases a.len(),
{
    if a.len() == 0 {
        assert(a + b =~= b);
        assert(encode_utf8(a) =~= Seq::<u8>::empty());
        assert(encode_utf8(a) + encode_utf8(b) =~= encode_utf8(b));
    } else {
        assert((a + b).drop_first() =~= a.drop_first() + b);
        lemma_encode_concat(a.drop_first(), b);
        assert(encode_utf8(a + b) =~= encode_scalar(a[0] as u32) + encode_utf8(a.drop_first() + b));
    }
}

/// Append the UTF-8 encoding of `c` to `out`.
pub fn push_utf8(out: &mut Vec<u8>, c: char)
    ensures
        final(out)@ == old(out)@ + encode_scalar(c as u32),
{
    let scalar = c as u32;
    proof {
        vstd::utf8::char_is_scalar(c);
    }
    if scalar <= 0x7F {
        out.push((scalar & 0x7F) as u8);
        proof {
            assert(has_width_1_encoding(scalar));
            assert(final(out)@ =~= old(out)@ + encode_scalar(c as u32));
        }
    } else if scalar <= 0x7FF {
        out.push(0xC0 | ((scalar >> 6) & 0x1F) as u8);
        out.push(0x80 | (scalar & 0x3F) as u8);
        proof {
            assert(has_width_2_encoding(scalar));
            assert(final(out)@ =~= old(out)@ + encode_scalar(c as u32));
        }
    } else if scalar <= 0xFFFF {
        out.push(0xE0 | ((scalar >> 12) & 0x0F) as u8);
        out.push(0x80 | ((scalar >> 6) & 0x3F) as u8);
        out.push(0x80 | (scalar & 0x3F) as u8);
        proof {
            assert(has_width_3_encoding(scalar));
            assert(final(out)@ =~= old(out)@ + encode_scalar(c as u32));
        }
    } else {
        out.push(0xF0 | ((scalar >> 18) & 0x7) as u8);
        out.push(0x80 | ((scalar >> 12) & 0x3F) as u8);
        out.push(0x80 | ((scalar >> 6) & 0x3F) as u8);
        out.push(0x80 | (scalar & 0x3F) as u8);
        proof {
            assert(!has_width_1_encoding(scalar));
            assert(!has_width_2_encoding(scalar));
            assert(!has_width_3_encoding(scalar));
            assert(final(out)@ =~= old(out)@ + encode_scalar(c as u32));
        }
    }
}

/// The UTF-8 bytes of a character sequence.
pub fn encode_chars(cs: &[char]) -> (r: Vec<u8>)
    ensures
        r@ == encode_utf8(cs@),
{
    let mut out: Vec<u8> = Vec::new();
    let mut i: usize = 0;
    proof {
        assert(encode_utf8(cs@.take(0)) =~= Seq::<u8>::empty());
    }
    while i < cs.len()
        invariant
            i <= cs@.len(),
            out@ == encode_utf8(cs@.take(i as int)),
        decreases cs@.len() - i,
    {
        push_utf8(&mut out, cs[i]);
        proof {
            assert(cs@.take(i + 1) =~= cs@.take(i as int).push(cs@[i as int]));
            lemma_encode_push(cs@.take(i as int), cs@[i as int]);
        }
        i = i + 1;
    }
    proof {
        assert(cs@.take(i as int) =~= cs@);
    }
    out
}

proof fn lemma_encode_words_add(a: Seq<Seq<char>>, b: Seq<Seq<char>>)
    ensures
        encode_words(a + b) == encode_words(a) + encode_words(b),
{
    assert(encode_words(a + b) =~= encode_words(a) + encode_words(b));
}

/// The whitespace-separated words of `s`, as UTF-8 bytes.
pub fn split_words(s: &[char]) -> (r: Vec<Vec<u8>>)
    ensures
        crate::bytes_order::views(r@) == encode_words(split_ws(s@)),
{
    let ghost total = encode_words(split_ws(s@));
    let mut out: Vec<Vec<u8>> = Vec::new();
    let mut cur: Vec<u8> = Vec::new();
    let ghost mut cur_chars: Seq<char> = Seq::empty();
    let mut i: usize = 0;
    proof {
        assert(s@.skip(0) =~= s@);
        assert(cur@ =~= encode_utf8(cur_chars));
        assert(crate::bytes_order::views(out@) =~= Seq::<Seq<u8>>::empty());
        assert(Seq::<Seq<u8>>::empty() + encode_words(split_ws_from(s@.skip(0), cur_chars))
            =~= total);
    }
    while i < s.len()
        invariant
            i <= s@.len(),
            cur@ == encode_utf8(cur_chars),
            crate::bytes_order::views(out@) + encode_words(
                split_ws_from(s@.skip(i as int), cur_chars),
            ) == total,
        decreases s@.len() - i,
    {
        let c = s[i];
        let ghost rest = s@.skip(i as int);
        proof {
            assert(rest[0] == c);
            assert(rest.drop_first() =~= s@.skip(i + 1));
        }
        if is_whitespace(c) {
            if cur.len() > 0 {
                let ghost o0 = out@;
                let w = cur;
                cur = Vec::new();
                out.push(w);
                proof {
                    assert(cur_chars.len() > 0) by {
                        if cur_chars.len() == 0 {
                            assert(encode_utf8(cur_chars) =~= Seq::<u8>::empty());
                        }
                    }
                    assert(crate::bytes_order::views(out@) =~= crate::bytes_order::views(o0).push(
                        encode_utf8(cur_chars),
                    ));
                    lemma_encode_words_add(seq![cur_chars], split_ws_from(s@.skip(i + 1), Seq::empty()));
                    assert(encode_words(seq![cur_chars]) =~= seq![encode_utf8(cur_chars)]);
                    assert(crate::bytes_order::views(out@) + encode_words(
                        split_ws_from(s@.skip(i + 1), Seq::empty()),
                    ) =~= crate::bytes_order::views(o0) + encode_words(
                        split_ws_from(rest, cur_chars),
                    ));
                }
            } else {
                proof {
                    assert(cur_chars.len() == 0) by {
                        if cur_chars.len() > 0 {
                            vstd::utf8::char_is_scalar(cur_chars[0]);
                            assert(encode_utf8(cur_chars).len() > 0);
                        }
                    }
                    assert(Seq::<Seq<char>>::empty() + split_ws_from(s@.skip(i + 1), Seq::empty())
                        =~= split_ws_from(s@.skip(i + 1), Seq::empty()));
                }
            }
            proof {
                cur_chars = Seq::empty();
                assert(cur@ =~= encode_utf8(cur_chars));
            }
        } else {
            push_utf8(&mut cur, c);
            proof {
                lemma_encode_push(cur_chars, c);
                cur_chars = cur_chars.push(c);
            }
        }
        i = i + 1;
    }
    proof {
        assert(s@.skip(i as int) =~= Seq::<char>::empty());
    }
    if cur.len() > 0 {
        let ghost o0 = out@;
        out.push(cur);
        proof {
            assert(crate::bytes_order::views(out@) =~= crate::bytes_order::views(o0).push(
                encode_utf8(cur_chars),
            ));
            assert(cur_chars.len() > 0) by {
                if cur_chars.len() == 0 {
                    assert(encode_utf8(cur_chars) =~= Seq::<u8>::empty());
                }
            }
            assert(encode_words(seq![cur_chars]) =~= seq![encode_utf8(cur_chars)]);
        }
    } else {
        proof {
            assert(cur_chars.len() == 0) by {
                if cur_chars.len() > 0 {
                    vstd::utf8::char_is_scalar(cur_chars[0]);
                    assert(encode_utf8(cur_chars).len() > 0);
                }
            }
            assert(encode_words(Seq::<Seq<char>>::empty()) =~= Seq::<Seq<u8>>::empty());
            assert(crate::bytes_order::views(out@) + Seq::<Seq<u8>>::empty()
                =~= crate::bytes_order::views(out@));
        }
    }
    out
}

/// The whitespace-separated words of a string, as UTF-8 bytes.
pub fn split_whitespace(text: &str) -> (r: Vec<Vec<u8>>)
    ensures
        crate::bytes_order::views(r@) == word_bytes(text@),
{
    let cs = chars_of(text);
    split_words(cs.as_slice())
}

} // verus!
