//! The words of a string.

use crate::helper::run_in;
use crate::lemmas::{
    lemma_decode_part, lemma_encode_between, lemma_first_word, lemma_run_len_unique,
    lemma_same_encoding, words_of,
};
use crate::string::ByteStr;
use crate::text::white_space;
use vstd::prelude::*;
use vstd::string::StringSliceAdditionalSpecFns;
use vstd::utf8::*;

verus! {

/// The text of each string of a sequence.
pub open spec fn all_texts(strings: Seq<ByteStr>) -> Seq<Seq<char>> {
    Seq::new(strings.len(), |i: int| strings[i]@)
}

impl ByteStr {
    /// The words of the string: its longest runs of characters that are not
    /// white space, in order.
    pub fn split_whitespace(&self) -> (r: Vec<Self>)
        requires
            self.wf(),
        ensures
            all_texts(r@) == words_of(self@),
            r@.len() == words_of(self@).len(),
            forall|i: int| 0 <= i < r@.len() ==> (#[trigger] r@[i]).wf(),
    {
        let white = |c: char| -> (b: bool)
            ensures
                b == white_space(c),
            { c.is_whitespace() };
        let black = |c: char| -> (b: bool)
            ensures
                b == !white_space(c),
            { !c.is_whitespace() };
        let ghost whole = self@;
        let mut out: Vec<Self> = Vec::new();
        let mut rest: &str = self.as_str();
        let mut offset: usize = 0;
        let ghost mut at: int = 0;
        proof {
            assert(whole.subrange(0, whole.len() as int) =~= whole);
            assert(whole.subrange(0, 0) =~= Seq::<char>::empty());
            assert(all_texts(out@) + words_of(rest@) =~= words_of(whole));
        }
        loop
            invariant
                self.wf(),
                whole == self@,
                self.bytes() == encode_utf8(whole),
                self.bytes().len() <= usize::MAX,
                forall|c: char| call_requires(white, (c,)),
                forall|c: char| call_requires(black, (c,)),
                forall|c: char, b: bool| call_ensures(white, (c,), b) ==> b == white_space(c),
                forall|c: char, b: bool| call_ensures(black, (c,), b) ==> b == !white_space(c),
                0 <= at <= whole.len(),
                rest@ == whole.subrange(at, whole.len() as int),
                offset == encode_utf8(whole.subrange(0, at)).len(),
                words_of(whole) == all_texts(out@) + words_of(rest@),
                forall|i: int| 0 <= i < out@.len() ==> (#[trigger] out@[i]).wf(),
            ensures
                all_texts(out@) == words_of(whole),
                forall|i: int| 0 <= i < out@.len() ==> (#[trigger] out@[i]).wf(),
            decreases rest@.len(),
        {
            let ghost text = rest@;
            proof {
                lemma_encode_between(whole, at, whole.len() as int);
            }
            let (gap, Ghost(k1)) = run_in(rest, &white);
            let (_, after_gap) = rest.split_at(gap);
            proof {
                lemma_run_len_unique(text, true, k1);
                lemma_encode_between(text, k1, text.len() as int);
                assert(text.subrange(0, text.len() as int) =~= text);
                lemma_same_encoding(after_gap@, text.subrange(k1, text.len() as int));
            }
            let (word_len, Ghost(k2)) = run_in(after_gap, &black);
            proof {
                lemma_run_len_unique(after_gap@, false, k2);
                lemma_first_word(text, k1, k2);
                if k2 > 0 {
                    encode_utf8_first_scalar(after_gap@.subrange(0, k2));
                } else {
                    assert(after_gap@.subrange(0, 0) =~= Seq::<char>::empty());
                }
            }
            if word_len == 0 {
                proof {
                    assert(all_texts(out@) + words_of(text) =~= all_texts(out@));
                }
                break ;
            }
            proof {
                assert(whole.subrange(at, at + k1) =~= text.subrange(0, k1));
                assert(whole.subrange(at + k1, at + k1 + k2) =~= after_gap@.subrange(0, k2));
                lemma_encode_between(whole, at, at + k1);
                lemma_encode_between(whole, at + k1, at + k1 + k2);
            }
            let begin: usize = offset + gap;
            let end: usize = begin + word_len;
            let word = self.slice(begin, end);
            let (_, tail) = after_gap.split_at(word_len);
            proof {
                lemma_decode_part(whole, at + k1, at + k1 + k2, word.bytes());
                assert(word@ =~= text.subrange(k1, k1 + k2));
                lemma_encode_between(after_gap@, k2, after_gap@.len() as int);
                assert(after_gap@.subrange(0, after_gap@.len() as int) =~= after_gap@);
                lemma_same_encoding(tail@, after_gap@.subrange(k2, after_gap@.len() as int));
                assert(tail@ =~= text.subrange(k1 + k2, text.len() as int));
                assert(tail@ =~= whole.subrange(at + k1 + k2, whole.len() as int));
                assert(all_texts(out@.push(word)) =~= all_texts(out@) + seq![word@]);
                at = at + k1 + k2;
            }
            out.push(word);
            rest = tail;
            offset = end;
        }
        out
    }
}

} // verus!
