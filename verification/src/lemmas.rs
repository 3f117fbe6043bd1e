//! What the lines and the words of a text are, and the facts about UTF-8 on
//! which the operations of the string rest. Everything here is proved.

use crate::text::{first_occurrence, joined, occurs_at, trimmed_end, trimmed_start, white_space};
use vstd::prelude::*;
use vstd::utf8::*;

verus! {

/// The index of the first line feed in `bytes`, or their number when there
/// is none.
pub open spec fn line_end(bytes: Seq<u8>) -> int
    decreases bytes.len(),
{
    if bytes.len() == 0 || bytes[0] == 0x0A {
        0
    } else {
        1 + line_end(bytes.drop_first())
    }
}

/// A line without the carriage return that may end it.
pub open spec fn without_cr(line: Seq<u8>) -> Seq<u8> {
    if line.len() > 0 && line.last() == 0x0D {
        line.drop_last()
    } else {
        line
    }
}

/// The lines of a text. A line ends with a line feed, or with a carriage
/// return and a line feed, which are not part of it; the last line need not
/// end with either.
pub open spec fn lines_of(bytes: Seq<u8>) -> Seq<Seq<u8>>
    decreases bytes.len(),
{
    let end = line_end(bytes);
    if bytes.len() == 0 {
        Seq::<Seq<u8>>::empty()
    } else if end < 0 || end >= bytes.len() {
        seq![bytes]
    } else {
        seq![without_cr(bytes.subrange(0, end))] + lines_of(
            bytes.subrange(end + 1, bytes.len() as int),
        )
    }
}

/// The number of leading characters of `text` that are white space, when
/// `white` is set, or that are not, when it is not.
pub open spec fn run_len(text: Seq<char>, white: bool) -> int
    decreases text.len(),
{
    if text.len() > 0 && white_space(text[0]) == white {
        1 + run_len(text.drop_first(), white)
    } else {
        0
    }
}

/// The words of a text: its longest runs of characters that are not white
/// space, in order.
pub open spec fn words_of(text: Seq<char>) -> Seq<Seq<char>>
    decreases text.len(),
{
    let gap = run_len(text, true);
    let word = run_len(text.subrange(gap, text.len() as int), false);
    if gap < 0 || word <= 0 || gap + word > text.len() {
        Seq::<Seq<char>>::empty()
    } else {
        seq![text.subrange(gap, gap + word)] + words_of(
            text.subrange(gap + word, text.len() as int),
        )
    }
}

/// What stands before piece `i` in the joined text.
pub open spec fn lead(pieces: Seq<Seq<char>>, sep: Seq<char>, i: int) -> Seq<char> {
    if i <= 0 {
        Seq::<char>::empty()
    } else {
        joined(pieces.subrange(0, i), sep) + sep
    }
}

/// A well-formed prefix of well-formed text ends on a character boundary.
pub proof fn lemma_valid_prefix_boundary(bytes: Seq<u8>, n: int)
    requires
        valid_utf8(bytes),
        0 <= n <= bytes.len(),
        valid_utf8(bytes.subrange(0, n)),
    ensures
        is_char_boundary(bytes, n),
    decreases bytes.len(),
{
    if n != 0 {
        let prefix = bytes.subrange(0, n);
        let width = length_of_first_scalar(bytes);
        assert(prefix[0] == bytes[0]);
        assert(length_of_first_scalar(prefix) == width);
        assert(width <= n);
        assert(pop_first_scalar(prefix) =~= pop_first_scalar(bytes).subrange(0, n - width));
        lemma_valid_prefix_boundary(pop_first_scalar(bytes), n - width);
    }
}

/// A well-formed suffix of well-formed text starts on a character boundary.
pub proof fn lemma_valid_suffix_boundary(bytes: Seq<u8>, k: int)
    requires
        valid_utf8(bytes),
        0 <= k <= bytes.len(),
        valid_utf8(bytes.subrange(k, bytes.len() as int)),
    ensures
        is_char_boundary(bytes, k),
{
    if k == bytes.len() {
        is_char_boundary_start_end_of_seq(bytes);
    } else {
        let suffix = bytes.subrange(k, bytes.len() as int);
        assert(suffix[0] == bytes[k]);
        assert(valid_first_scalar(suffix));
        is_char_boundary_iff_is_leading_byte(bytes, k);
    }
}

/// The part of well-formed text between two character boundaries is well
/// formed, and so are the parts before and after it.
pub proof fn lemma_valid_between_boundaries(bytes: Seq<u8>, begin: int, end: int)
    requires
        valid_utf8(bytes),
        0 <= begin <= end <= bytes.len(),
        is_char_boundary(bytes, begin),
        is_char_boundary(bytes, end),
    ensures
        valid_utf8(bytes.subrange(begin, end)),
        valid_utf8(bytes.subrange(0, begin)),
        valid_utf8(bytes.subrange(end, bytes.len() as int)),
{
    valid_utf8_split(bytes, begin);
    valid_utf8_split(bytes, end);
    let prefix = bytes.subrange(0, end);
    assert(prefix.subrange(0, begin) =~= bytes.subrange(0, begin));
    lemma_valid_prefix_boundary(prefix, begin);
    valid_utf8_split(prefix, begin);
    assert(prefix.subrange(begin, prefix.len() as int) =~= bytes.subrange(begin, end));
}

/// Encoding distributes over concatenation.
pub proof fn lemma_encode_concat(a: Seq<char>, b: Seq<char>)
    ensures
        encode_utf8(a + b) == encode_utf8(a) + encode_utf8(b),
    decreases a.len(),
{
    if a.len() == 0 {
        assert(a + b =~= b);
        assert(encode_utf8(a) + encode_utf8(b) =~= encode_utf8(b));
    } else {
        lemma_encode_concat(a.drop_first(), b);
        assert((a + b).drop_first() =~= a.drop_first() + b);
        assert((a + b)[0] == a[0]);
        assert(encode_utf8(a + b) =~= encode_utf8(a) + encode_utf8(b));
    }
}

/// The encoding of a prefix of a text is a prefix of the text's encoding,
/// and ends on a character boundary of it.
pub proof fn lemma_encode_prefix(chars: Seq<char>, k: int)
    requires
        0 <= k <= chars.len(),
    ensures
        encode_utf8(chars) == encode_utf8(chars.subrange(0, k)) + encode_utf8(
            chars.subrange(k, chars.len() as int),
        ),
        is_char_boundary(encode_utf8(chars), encode_utf8(chars.subrange(0, k)).len() as int),
{
    let a = chars.subrange(0, k);
    let b = chars.subrange(k, chars.len() as int);
    assert(chars =~= a + b);
    lemma_encode_concat(a, b);
    encode_utf8_valid_utf8(chars);
    encode_utf8_valid_utf8(a);
    assert(encode_utf8(chars).subrange(0, encode_utf8(a).len() as int) =~= encode_utf8(a));
    lemma_valid_prefix_boundary(encode_utf8(chars), encode_utf8(a).len() as int);
}

/// Trimming at the start leaves an end of the text.
pub proof fn lemma_trimmed_start_is_suffix(text: Seq<char>)
    ensures
        trimmed_start(text).is_suffix_of(text),
    decreases text.len(),
{
    let kept = trimmed_start(text);
    if text.len() > 0 && white_space(text[0]) {
        lemma_trimmed_start_is_suffix(text.drop_first());
        let rest = text.drop_first();
        assert(kept =~= text.subrange(text.len() - kept.len(), text.len() as int)) by {
            assert(kept == rest.subrange(rest.len() - kept.len(), rest.len() as int));
        }
    } else {
        assert(kept =~= text.subrange(0, text.len() as int));
    }
}

/// Trimming at the end leaves a beginning of the text.
pub proof fn lemma_trimmed_end_is_prefix(text: Seq<char>)
    ensures
        trimmed_end(text).is_prefix_of(text),
    decreases text.len(),
{
    let kept = trimmed_end(text);
    if text.len() > 0 && white_space(text.last()) {
        lemma_trimmed_end_is_prefix(text.drop_last());
        let rest = text.drop_last();
        assert(kept =~= text.subrange(0, kept.len() as int)) by {
            assert(kept == rest.subrange(0, kept.len() as int));
        }
    } else {
        assert(kept =~= text.subrange(0, text.len() as int));
    }
}

/// The joined text begins with what stands before piece `i`, then piece `i`.
pub proof fn lemma_piece_place(pieces: Seq<Seq<char>>, sep: Seq<char>, i: int)
    requires
        0 <= i < pieces.len(),
    ensures
        joined(pieces.subrange(0, i + 1), sep) == lead(pieces, sep, i) + pieces[i],
        joined(pieces.subrange(0, i + 1), sep).is_prefix_of(joined(pieces, sep)),
    decreases pieces.len() - i,
{
    let upto = pieces.subrange(0, i + 1);
    if i == 0 {
        assert(joined(upto, sep) =~= lead(pieces, sep, i) + pieces[i]);
    } else {
        assert(upto.drop_last() =~= pieces.subrange(0, i));
    }
    if i + 1 == pieces.len() {
        assert(upto =~= pieces);
    } else {
        lemma_piece_place(pieces, sep, i + 1);
        let next = pieces.subrange(0, i + 2);
        assert(next.drop_last() =~= upto);
        assert(joined(next, sep) == joined(upto, sep) + sep + pieces[i + 1]);
        let whole = joined(pieces, sep);
        assert(joined(upto, sep) =~= joined(next, sep).subrange(0, joined(upto, sep).len() as int));
        assert(joined(next, sep) == whole.subrange(0, joined(next, sep).len() as int));
        assert(joined(upto, sep) =~= whole.subrange(0, joined(upto, sep).len() as int));
    }
}

/// The first line ends where the first line feed stands.
pub proof fn lemma_line_end(bytes: Seq<u8>, k: int)
    requires
        0 <= k <= bytes.len(),
        forall|j: int| 0 <= j < k ==> bytes[j] != 0x0A,
        k == bytes.len() || bytes[k] == 0x0A,
    ensures
        line_end(bytes) == k,
    decreases k,
{
    if k > 0 {
        let rest = bytes.drop_first();
        assert forall|j: int| 0 <= j < k - 1 implies rest[j] != 0x0A by {
            assert(rest[j] == bytes[j + 1]);
        }
        lemma_line_end(rest, k - 1);
    }
}

/// In well-formed text, a character boundary follows each ASCII byte, and
/// one stands before it.
pub proof fn lemma_ascii_boundaries(bytes: Seq<u8>, i: int)
    requires
        valid_utf8(bytes),
        0 <= i < bytes.len(),
        bytes[i] <= 0x7f,
    ensures
        is_char_boundary(bytes, i),
        is_char_boundary(bytes, i + 1),
{
    is_char_boundary_iff_is_leading_byte(bytes, i);
    valid_utf8_split(bytes, i);
    let rest = bytes.subrange(i, bytes.len() as int);
    assert(rest[0] == bytes[i]);
    assert(valid_first_scalar(rest));
    assert(length_of_first_scalar(rest) == 1);
    assert(partial_valid_utf8(bytes, i));
    partial_valid_utf8_extend(bytes, i);
    lemma_valid_prefix_boundary(bytes, i + 1);
}

/// A run is determined by where it ends.
pub proof fn lemma_run_len_unique(text: Seq<char>, white: bool, k: int)
    requires
        0 <= k <= text.len(),
        forall|i: int| 0 <= i < k ==> white_space(#[trigger] text[i]) == white,
        k < text.len() ==> white_space(text[k]) != white,
    ensures
        run_len(text, white) == k,
    decreases k,
{
    if k > 0 {
        let rest = text.drop_first();
        assert(white_space(text[0]) == white);
        assert forall|i: int| 0 <= i < k - 1 implies white_space(#[trigger] rest[i]) == white by {
            assert(rest[i] == text[i + 1]);
        }
        if k - 1 < rest.len() {
            assert(rest[k - 1] == text[k]);
        }
        lemma_run_len_unique(rest, white, k - 1);
    }
}

/// The encoding of a part of a text is the matching part of the text's
/// encoding, and lies between two character boundaries of it.
pub proof fn lemma_encode_between(chars: Seq<char>, a: int, b: int)
    requires
        0 <= a <= b <= chars.len(),
    ensures
        encode_utf8(chars.subrange(0, b)).len() == encode_utf8(chars.subrange(0, a)).len()
            + encode_utf8(chars.subrange(a, b)).len(),
        encode_utf8(chars.subrange(0, b)).len() <= encode_utf8(chars).len(),
        encode_utf8(chars).subrange(
            encode_utf8(chars.subrange(0, a)).len() as int,
            encode_utf8(chars.subrange(0, b)).len() as int,
        ) == encode_utf8(chars.subrange(a, b)),
        is_char_boundary(encode_utf8(chars), encode_utf8(chars.subrange(0, a)).len() as int),
        is_char_boundary(encode_utf8(chars), encode_utf8(chars.subrange(0, b)).len() as int),
{
    let before = chars.subrange(0, a);
    let part = chars.subrange(a, b);
    let upto = chars.subrange(0, b);
    assert(upto =~= before + part);
    lemma_encode_concat(before, part);
    lemma_encode_prefix(chars, a);
    lemma_encode_prefix(chars, b);
    assert(encode_utf8(chars).subrange(
        encode_utf8(before).len() as int,
        encode_utf8(upto).len() as int,
    ) =~= encode_utf8(part));
}

/// Appending one character appends its encoding.
pub proof fn lemma_encode_push(chars: Seq<char>, c: char)
    ensures
        encode_utf8(chars.push(c)) == encode_utf8(chars) + encode_scalar(c as u32),
{
    let one = seq![c];
    assert(chars.push(c) =~= chars + one);
    lemma_encode_concat(chars, one);
    assert(one.drop_first() =~= Seq::<char>::empty());
    assert(encode_utf8(one) =~= encode_scalar(c as u32)) by {
        reveal_with_fuel(encode_utf8, 2);
    }
}

/// Where a well-formed pattern first occurs in well-formed text, it starts
/// and ends on character boundaries.
pub proof fn lemma_occurrence_boundaries(hay: Seq<u8>, pat: Seq<u8>, i: int)
    requires
        valid_utf8(hay),
        valid_utf8(pat),
        first_occurrence(hay, pat, i),
    ensures
        is_char_boundary(hay, i),
        is_char_boundary(hay, i + pat.len()),
{
    if pat.len() == 0 {
        if i > 0 {
            assert(hay.subrange(0, 0) =~= pat);
            assert(occurs_at(hay, pat, 0));
        }
    } else {
        assert(hay.subrange(i, i + pat.len())[0] == hay[i]);
        assert(valid_first_scalar(pat));
        is_char_boundary_iff_is_leading_byte(hay, i);
        valid_utf8_split(hay, i);
        let rest = hay.subrange(i, hay.len() as int);
        assert(rest.subrange(0, pat.len() as int) =~= pat);
        lemma_valid_prefix_boundary(rest, pat.len() as int);
        valid_utf8_split(rest, pat.len() as int);
        assert(rest.subrange(pat.len() as int, rest.len() as int) =~= hay.subrange(
            i + pat.len(),
            hay.len() as int,
        ));
        lemma_valid_suffix_boundary(hay, i + pat.len());
    }
}

/// Two texts with the same encoding are the same text.
pub proof fn lemma_same_encoding(a: Seq<char>, b: Seq<char>)
    requires
        encode_utf8(a) == encode_utf8(b),
    ensures
        a == b,
{
    encode_utf8_decode_utf8(a);
    encode_utf8_decode_utf8(b);
}

/// The text that a part of an encoding decodes to, where the part is the
/// encoding of a part of the text.
pub proof fn lemma_decode_part(chars: Seq<char>, a: int, b: int, part: Seq<u8>)
    requires
        0 <= a <= b <= chars.len(),
        part == encode_utf8(chars).subrange(
            encode_utf8(chars.subrange(0, a)).len() as int,
            encode_utf8(chars.subrange(0, b)).len() as int,
        ),
    ensures
        valid_utf8(part),
        decode_utf8(part) == chars.subrange(a, b),
{
    lemma_encode_between(chars, a, b);
    encode_utf8_valid_utf8(chars.subrange(a, b));
    encode_utf8_decode_utf8(chars.subrange(a, b));
}

/// The words of a text, by its first word: after `gap` characters of white
/// space come `word` characters that are none, and the other words are those
/// of what follows. Where `word` is 0, the text has no words.
pub proof fn lemma_first_word(text: Seq<char>, gap: int, word: int)
    requires
        gap == run_len(text, true),
        word == run_len(text.subrange(gap, text.len() as int), false),
        0 <= gap,
        0 <= word,
        gap + word <= text.len(),
    ensures
        word == 0 ==> words_of(text) == Seq::<Seq<char>>::empty(),
        word > 0 ==> words_of(text) == seq![text.subrange(gap, gap + word)] + words_of(
            text.subrange(gap + word, text.len() as int),
        ),
{
}

} // verus!
