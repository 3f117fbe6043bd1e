//! Splitting, trimming and searching, all by taking parts of the buffer.

use crate::buffer::as_slice;
use crate::lemmas::{
    lead, lemma_ascii_boundaries, lemma_encode_concat,
    lemma_encode_prefix, lemma_encode_push, lemma_line_end, lemma_occurrence_boundaries,
    lemma_piece_place, lemma_trimmed_end_is_prefix,
    lemma_trimmed_start_is_suffix, lines_of, without_cr,
};
use crate::string::ByteStr;
use crate::text::{
    first_occurrence, joined, occurs_at, split_pieces, splitn_pieces, str_ends_with, str_find,
    str_split, str_splitn, str_starts_with, str_trim_end, str_trim_start, texts, trimmed_end,
    trimmed_start,
};
use vstd::prelude::*;
use vstd::std_specs::iter::IteratorSpec;
use vstd::string::StringSliceAdditionalSpecFns;
use vstd::utf8::*;

verus! {

broadcast use {vstd::utf8::group_utf8_lib, vstd::string::group_string_axioms};

impl ByteStr {
    /// Divides the string in two at byte `mid`, which must lie on a character
    /// boundary.
    pub fn split_at(self, mid: usize) -> (r: (Self, Self))
        requires
            self.wf(),
            is_char_boundary(self.bytes(), mid as int),
        ensures
            r.0.wf(),
            r.1.wf(),
            r.0.bytes() == self.bytes().subrange(0, mid as int),
            r.1.bytes() == self.bytes().subrange(mid as int, self.bytes().len() as int),
            r.0@ + r.1@ == self@,
    {
        proof {
            lemma_boundary_in_range(self.bytes(), mid as int);
            is_char_boundary_start_end_of_seq(self.bytes());
            decode_utf8_split(self.bytes(), mid as int);
        }
        let left = self.slice(0, mid);
        let right = self.slice(mid, self.len());
        (left, right)
    }

    /// The first `n` bytes of the string; `n` must lie on a character
    /// boundary.
    pub fn take(&self, n: usize) -> (s: Self)
        requires
            self.wf(),
            is_char_boundary(self.bytes(), n as int),
        ensures
            s.wf(),
            s.bytes() == self.bytes().subrange(0, n as int),
            s@.is_prefix_of(self@),
    {
        proof {
            lemma_boundary_in_range(self.bytes(), n as int);
            is_char_boundary_start_end_of_seq(self.bytes());
            decode_utf8_split(self.bytes(), n as int);
            let head = decode_utf8(self.bytes().subrange(0, n as int));
            assert(self@.subrange(0, head.len() as int) =~= head);
        }
        self.slice(0, n)
    }

    /// The string without its first `n` bytes; `n` must lie on a character
    /// boundary.
    pub fn skip(&self, n: usize) -> (s: Self)
        requires
            self.wf(),
            is_char_boundary(self.bytes(), n as int),
        ensures
            s.wf(),
            s.bytes() == self.bytes().subrange(n as int, self.bytes().len() as int),
            s@.is_suffix_of(self@),
    {
        proof {
            lemma_boundary_in_range(self.bytes(), n as int);
            is_char_boundary_start_end_of_seq(self.bytes());
            decode_utf8_split(self.bytes(), n as int);
            let tail = decode_utf8(self.bytes().subrange(n as int, self.bytes().len() as int));
            assert(self@.subrange(self@.len() - tail.len(), self@.len() as int) =~= tail);
        }
        self.slice(n, self.len())
    }

    /// What stands before the first occurrence of `pat`, or the whole string
    /// when `pat` does not occur.
    pub fn take_until(&self, pat: &str) -> (s: Self)
        requires
            self.wf(),
        ensures
            s.wf(),
            forall|i: int|
                first_occurrence(self.bytes(), encode_utf8(pat@), i) ==> s.bytes()
                    == self.bytes().subrange(0, i),
            (forall|i: int| !occurs_at(self.bytes(), encode_utf8(pat@), i)) ==> s.bytes()
                == self.bytes(),
    {
        match str_find(self.as_str(), pat) {
            None => {
                proof {
                    is_char_boundary_start_end_of_seq(self.bytes());
                    assert(self.bytes().subrange(0, self.bytes().len() as int) =~= self.bytes());
                }
                self.slice(0, self.len())
            },
            Some(pos) => {
                proof {
                    lemma_occurrence_boundaries(self.bytes(), encode_utf8(pat@), pos as int);
                    lemma_first_occurrence_unique(self.bytes(), encode_utf8(pat@), pos as int);
                }
                self.take(pos)
            },
        }
    }

    /// What stands before and what stands after the first occurrence of
    /// `pat`; `None` when `pat` does not occur.
    pub fn split_once(&self, pat: &str) -> (r: Option<(Self, Self)>)
        requires
            self.wf(),
        ensures
            r is Some <==> exists|i: int| occurs_at(self.bytes(), encode_utf8(pat@), i),
            r matches Some((left, right)) ==> {
                &&& left.wf()
                &&& right.wf()
                &&& forall|i: int|
                    first_occurrence(self.bytes(), encode_utf8(pat@), i) ==> {
                        &&& left.bytes() == self.bytes().subrange(0, i)
                        &&& right.bytes() == self.bytes().subrange(
                            i + encode_utf8(pat@).len(),
                            self.bytes().len() as int,
                        )
                    }
            },
    {
        match str_find(self.as_str(), pat) {
            None => None,
            Some(pos) => {
                proof {
                    lemma_occurrence_boundaries(self.bytes(), encode_utf8(pat@), pos as int);
                    lemma_first_occurrence_unique(self.bytes(), encode_utf8(pat@), pos as int);
                }
                let left = self.take(pos);
                let right = self.skip(pos + pat.len());
                Some((left, right))
            },
        }
    }

    /// The string without the leading `prefix`; `None` when it does not start
    /// with `prefix`.
    pub fn strip_prefix(&self, prefix: &str) -> (r: Option<Self>)
        requires
            self.wf(),
        ensures
            r is Some <==> prefix@.is_prefix_of(self@),
            r matches Some(s) ==> s.wf() && prefix@ + s@ == self@,
    {
        let text = self.as_str();
        if str_starts_with(text, prefix) {
            proof {
                let k = prefix@.len() as int;
                assert(text@.subrange(0, k) =~= prefix@);
                lemma_encode_prefix(text@, k);
                decode_utf8_split(self.bytes(), encode_utf8(prefix@).len() as int);
                assert(self.bytes().subrange(0, encode_utf8(prefix@).len() as int) =~= encode_utf8(
                    prefix@,
                ));
            }
            let rest = self.skip(prefix.len());
            proof {
                let tail = text@.subrange(prefix@.len() as int, text@.len() as int);
                assert(rest.bytes() =~= encode_utf8(tail));
                lemma_rest_after_prefix(prefix@, rest@, self@);
            }
            Some(rest)
        } else {
            None
        }
    }

    /// The string without the trailing `suffix`; `None` when it does not end
    /// with `suffix`.
    pub fn strip_suffix(&self, suffix: &str) -> (r: Option<Self>)
        requires
            self.wf(),
        ensures
            r is Some <==> suffix@.is_suffix_of(self@),
            r matches Some(s) ==> s.wf() && s@ + suffix@ == self@,
    {
        let text = self.as_str();
        if str_ends_with(text, suffix) {
            proof {
                let k = text@.len() - suffix@.len();
                assert(text@.subrange(k, text@.len() as int) =~= suffix@);
                lemma_encode_prefix(text@, k);
            }
            let keep: usize = self.len() - suffix.len();
            proof {
                decode_utf8_split(self.bytes(), keep as int);
                assert(self.bytes().subrange(keep as int, self.bytes().len() as int)
                    =~= encode_utf8(suffix@));
            }
            let rest = self.take(keep);
            Some(rest)
        } else {
            None
        }
    }

    /// The lines of the string. A line ends with a line feed, or with a
    /// carriage return and a line feed, which are not part of it; the last
    /// line need not end with either.
    pub fn lines(&self) -> (r: Vec<Self>)
        requires
            self.wf(),
        ensures
            all_bytes(r@) == lines_of(self.bytes()),
            r@.len() == lines_of(self.bytes()).len(),
            forall|i: int| 0 <= i < r@.len() ==> (#[trigger] r@[i]).wf(),
    {
        let total: usize = self.len();
        let raw = as_slice(self.as_bytes());
        let ghost whole = self.bytes();
        let mut out: Vec<Self> = Vec::new();
        let mut start: usize = 0;
        let mut i: usize = 0;
        proof {
            is_char_boundary_start_end_of_seq(whole);
            assert(whole.subrange(0, total as int) =~= whole);
            assert(all_bytes(out@) + lines_of(whole) =~= lines_of(whole));
        }
        while i < total
            invariant
                self.wf(),
                whole == self.bytes(),
                raw@ == whole,
                total == whole.len(),
                start <= i <= total,
                is_char_boundary(whole, start as int),
                forall|j: int| start <= j < i ==> whole[j] != 0x0A,
                lines_of(whole) == all_bytes(out@) + lines_of(
                    whole.subrange(start as int, total as int),
                ),
                forall|j: int| 0 <= j < out@.len() ==> (#[trigger] out@[j]).wf(),
            decreases total - i,
        {
            if raw[i] == 0x0A {
                let mut end: usize = i;
                if end > start && raw[end - 1] == 0x0D {
                    end = end - 1;
                }
                proof {
                    lemma_ascii_boundaries(whole, i as int);
                    if end < i {
                        lemma_ascii_boundaries(whole, end as int);
                    }
                }
                let line = self.slice(start, end);
                proof {
                    let rest = whole.subrange(start as int, total as int);
                    assert forall|j: int| 0 <= j < i - start implies rest[j] != 0x0A by {
                        assert(rest[j] == whole[start + j]);
                    }
                    lemma_line_end(rest, i - start);
                    assert(rest.subrange(0, i - start) =~= whole.subrange(start as int, i as int));
                    assert(without_cr(whole.subrange(start as int, i as int)) =~= line.bytes());
                    assert(rest.subrange(i - start + 1, rest.len() as int) =~= whole.subrange(
                        i + 1,
                        total as int,
                    ));
                    assert(all_bytes(out@.push(line)) =~= all_bytes(out@) + seq![line.bytes()]);
                }
                out.push(line);
                start = i + 1;
            }
            i += 1;
        }
        if start < total {
            proof {
                let rest = whole.subrange(start as int, total as int);
                assert forall|j: int| 0 <= j < total - start implies rest[j] != 0x0A by {
                    assert(rest[j] == whole[start + j]);
                }
                lemma_line_end(rest, total - start);
                is_char_boundary_start_end_of_seq(whole);
            }
            let line = self.slice(start, total);
            proof {
                assert(all_bytes(out@.push(line)) =~= all_bytes(out@) + seq![line.bytes()]);
            }
            out.push(line);
        } else {
            proof {
                assert(all_bytes(out@) + Seq::<Seq<u8>>::empty() =~= all_bytes(out@));
            }
        }
        out
    }

    /// The parts of the string that hold the given pieces, where the pieces
    /// with `sep` between them make up the text of the string.
    pub fn cut(&self, pieces: &Vec<&str>, sep: &str) -> (r: Vec<Self>)
        requires
            self.wf(),
            joined(texts(pieces@), sep@) == self@,
        ensures
            r@.len() == pieces@.len(),
            forall|i: int|
                0 <= i < r@.len() ==> (#[trigger] r@[i]).wf() && r@[i]@ == texts(pieces@)[i],
    {
        let total: usize = self.len();
        let count: usize = pieces.len();
        let ghost all = texts(pieces@);
        let mut out: Vec<Self> = Vec::new();
        let mut offset: usize = 0;
        let mut i: usize = 0;
        while i < count
            invariant
                self.wf(),
                total == self.bytes().len(),
                self.bytes() == encode_utf8(self@),
                count == pieces@.len(),
                all == texts(pieces@),
                joined(all, sep@) == self@,
                i <= count,
                i < count ==> offset == encode_utf8(lead(all, sep@, i as int)).len(),
                out@.len() == i,
                forall|j: int| 0 <= j < i ==> (#[trigger] out@[j]).wf() && out@[j]@ == all[j],
            decreases count - i,
        {
            let piece: &str = pieces[i];
            proof {
                let before = lead(all, sep@, i as int);
                let upto = before + all[i as int];
                lemma_piece_place(all, sep@, i as int);
                lemma_encode_concat(before, all[i as int]);
                assert(self@.subrange(0, upto.len() as int) =~= upto);
                assert(self@.subrange(0, before.len() as int) =~= before);
                lemma_encode_prefix(self@, upto.len() as int);
                lemma_encode_prefix(self@, before.len() as int);
                assert(self.bytes().subrange(offset as int, offset + encode_utf8(all[i as int]).len())
                    =~= encode_utf8(all[i as int]));
            }
            let end: usize = offset + piece.len();
            out.push(self.slice(offset, end));
            if i + 1 < count {
                proof {
                    let upto = lead(all, sep@, i as int) + all[i as int];
                    let next = lead(all, sep@, i + 1);
                    assert(next == upto + sep@);
                    lemma_encode_concat(upto, sep@);
                    lemma_piece_place(all, sep@, i + 1);
                    lemma_encode_concat(next, all[i + 1]);
                    assert(self@.subrange(0, (next + all[i + 1]).len() as int) =~= next + all[i
                        + 1]);
                    lemma_encode_prefix(self@, (next + all[i + 1]).len() as int);
                }
                offset = end + sep.len();
            }
            i += 1;
        }
        out
    }

    /// The pieces into which the occurrences of `pat` divide the string.
    pub fn split(&self, pat: &str) -> (r: Vec<Self>)
        requires
            self.wf(),
        ensures
            r@.len() == split_pieces(self@, pat@).len(),
            forall|i: int|
                0 <= i < r@.len() ==> (#[trigger] r@[i]).wf() && r@[i]@ == split_pieces(
                    self@,
                    pat@,
                )[i],
            joined(split_pieces(self@, pat@), pat@) == self@,
    {
        let pieces = str_split(self.as_str(), pat);
        self.cut(&pieces, pat)
    }

    /// The pieces into which the first occurrences of `pat` divide the string
    /// when at most `n` pieces are made: the last piece holds all the rest.
    pub fn splitn(&self, n: usize, pat: &str) -> (r: Vec<Self>)
        requires
            self.wf(),
        ensures
            r@.len() == splitn_pieces(self@, n as nat, pat@).len(),
            r@.len() <= n,
            forall|i: int|
                0 <= i < r@.len() ==> (#[trigger] r@[i]).wf() && r@[i]@ == splitn_pieces(
                    self@,
                    n as nat,
                    pat@,
                )[i],
            n > 0 ==> joined(splitn_pieces(self@, n as nat, pat@), pat@) == self@,
    {
        let pieces = str_splitn(self.as_str(), n, pat);
        if n == 0 {
            assert(texts(pieces@).len() == 0);
            Vec::new()
        } else {
            self.cut(&pieces, pat)
        }
    }

    /// The length in bytes of the longest run of leading characters that `f`
    /// accepts, with the number of characters in that run.
    fn leading_run<F: Fn(char) -> bool>(&self, f: &F) -> (r: (usize, Ghost<int>))
        requires
            self.wf(),
            forall|c: char| call_requires(*f, (c,)),
        ensures
            accepted_run(*f, self@, r.1@),
            r.0 == encode_utf8(self@.subrange(0, r.1@)).len(),
            r.0 <= self.bytes().len(),
            is_char_boundary(self.bytes(), r.0 as int),
    {
        run_in(self.as_str(), f)
    }

    /// The string without the leading characters that `f` accepts: it starts
    /// with the first character that `f` rejects.
    pub fn skip_while<F: Fn(char) -> bool>(&self, f: F) -> (s: Self)
        requires
            self.wf(),
            forall|c: char| call_requires(f, (c,)),
        ensures
            s.wf(),
            exists|k: int| #[trigger] accepted_run(f, self@, k) && s@ == self@.subrange(
                k,
                self@.len() as int,
            ),
    {
        let (start, Ghost(k)) = self.leading_run(&f);
        let rest = self.skip(start);
        proof {
            lemma_encode_prefix(self@, k);
            assert(rest.bytes() =~= encode_utf8(self@.subrange(k, self@.len() as int)));
        }
        rest
    }

    /// The leading characters that `f` accepts, and what follows them.
    pub fn take_while<F: Fn(char) -> bool>(&self, f: F) -> (r: (Self, Self))
        requires
            self.wf(),
            forall|c: char| call_requires(f, (c,)),
        ensures
            r.0.wf(),
            r.1.wf(),
            exists|k: int| #[trigger] accepted_run(f, self@, k) && r.0@ == self@.subrange(0, k)
                && r.1@ == self@.subrange(k, self@.len() as int),
    {
        let (end, Ghost(k)) = self.leading_run(&f);
        let taken = self.take(end);
        let remaining = self.skip(end);
        proof {
            lemma_encode_prefix(self@, k);
            assert(taken.bytes() =~= encode_utf8(self@.subrange(0, k)));
            assert(remaining.bytes() =~= encode_utf8(self@.subrange(k, self@.len() as int)));
        }
        (taken, remaining)
    }

    /// The string without its leading white space.
    pub fn trim_start(&self) -> (s: Self)
        requires
            self.wf(),
        ensures
            s.wf(),
            s@ == trimmed_start(self@),
    {
        let text = self.as_str();
        let kept = str_trim_start(text);
        proof {
            lemma_trimmed_start_is_suffix(text@);
            let k = text@.len() - kept@.len();
            assert(text@.subrange(k, text@.len() as int) =~= kept@);
            lemma_encode_prefix(text@, k);
        }
        let drop: usize = self.len() - kept.len();
        proof {
            assert(self.bytes().subrange(drop as int, self.bytes().len() as int) =~= encode_utf8(
                kept@,
            ));
        }
        self.skip(drop)
    }

    /// The string without its trailing white space.
    pub fn trim_end(&self) -> (s: Self)
        requires
            self.wf(),
        ensures
            s.wf(),
            s@ == trimmed_end(self@),
    {
        let text = self.as_str();
        let kept = str_trim_end(text);
        proof {
            lemma_trimmed_end_is_prefix(text@);
            let k = kept@.len() as int;
            assert(text@.subrange(0, k) =~= kept@);
            lemma_encode_prefix(text@, k);
            assert(self.bytes().subrange(0, encode_utf8(kept@).len() as int) =~= encode_utf8(
                kept@,
            ));
        }
        self.take(kept.len())
    }

    /// The string without its leading and trailing white space.
    pub fn trim(&self) -> (s: Self)
        requires
            self.wf(),
        ensures
            s.wf(),
            s@ == trimmed_end(trimmed_start(self@)),
    {
        self.trim_start().trim_end()
    }
}

/// The length in bytes of the longest run of leading characters of `text`
/// that `f` accepts, with the number of characters in that run.
pub(crate) fn run_in<F: Fn(char) -> bool>(text: &str, f: &F) -> (r: (usize, Ghost<int>))
    requires
        encode_utf8(text@).len() <= usize::MAX,
        forall|c: char| call_requires(*f, (c,)),
    ensures
        accepted_run(*f, text@, r.1@),
        r.0 == encode_utf8(text@.subrange(0, r.1@)).len(),
        r.0 <= encode_utf8(text@).len(),
        is_char_boundary(encode_utf8(text@), r.0 as int),
{
    let mut chars = text.chars();
    let mut end: usize = 0;
    let ghost mut count: int = 0;
    let ghost bytes = encode_utf8(text@);
    proof {
        assert(text@.subrange(0, 0) =~= Seq::<char>::empty());
        assert(text@.subrange(0, text@.len() as int) =~= text@);
        lemma_encode_prefix(text@, 0);
    }
    loop
        invariant_except_break
            chars.remaining() == text@.subrange(count, text@.len() as int),
        invariant
            bytes == encode_utf8(text@),
            bytes.len() <= usize::MAX,
            forall|c: char| call_requires(*f, (c,)),
            0 <= count <= text@.len(),
            chars.obeys_prophetic_iter_laws(),
            chars.decrease() is Some,
            end == encode_utf8(text@.subrange(0, count)).len(),
            end <= bytes.len(),
            is_char_boundary(bytes, end as int),
            forall|i: int| 0 <= i < count ==> call_ensures(*f, (#[trigger] text@[i],), true),
        ensures
            accepted_run(*f, text@, count),
            end == encode_utf8(text@.subrange(0, count)).len(),
            end <= bytes.len(),
            is_char_boundary(bytes, end as int),
        decreases chars.decrease()->0,
    {
        match chars.next() {
            None => {
                break ;
            },
            Some(c) => {
                assert(c == text@[count]);
                if f(c) {
                    proof {
                        assert(text@.subrange(0, count + 1) =~= text@.subrange(0, count).push(c));
                        lemma_encode_push(text@.subrange(0, count), c);
                        lemma_encode_prefix(text@, count + 1);
                        assert(chars.remaining() =~= text@.subrange(
                            count + 1,
                            text@.len() as int,
                        ));
                    }
                    end = end + c.len_utf8();
                    proof {
                        count = count + 1;
                    }
                } else {
                    break ;
                }
            },
        }
    }
    (end, Ghost(count))
}

/// The bytes of each string of a sequence.
pub open spec fn all_bytes(strings: Seq<ByteStr>) -> Seq<Seq<u8>> {
    Seq::new(strings.len(), |i: int| strings[i].bytes())
}

/// The first `k` characters of `text` are a longest run that `f` accepts:
/// `f` may answer yes to each of them, and `text` ends there or `f` may answer
/// no to the next one.
pub open spec fn accepted_run<F: Fn(char) -> bool>(f: F, text: Seq<char>, k: int) -> bool {
    &&& 0 <= k <= text.len()
    &&& forall|i: int| 0 <= i < k ==> call_ensures(f, (#[trigger] text[i],), true)
    &&& k < text.len() ==> call_ensures(f, (text[k],), false)
}

/// A character boundary of a byte sequence lies inside it.
pub proof fn lemma_boundary_in_range(bytes: Seq<u8>, n: int)
    requires
        valid_utf8(bytes),
        is_char_boundary(bytes, n),
    ensures
        0 <= n <= bytes.len(),
{
}

/// A pattern has at most one first occurrence.
pub proof fn lemma_first_occurrence_unique(hay: Seq<u8>, pat: Seq<u8>, i: int)
    requires
        first_occurrence(hay, pat, i),
    ensures
        forall|j: int| first_occurrence(hay, pat, j) ==> j == i,
{
}

/// A text is its beginning followed by the rest of it.
pub proof fn lemma_rest_after_prefix(a: Seq<char>, b: Seq<char>, whole: Seq<char>)
    requires
        a.is_prefix_of(whole),
        b == whole.subrange(a.len() as int, whole.len() as int),
    ensures
        a + b == whole,
{
    assert(a + b =~= whole);
}

} // verus!
