//! The order of strings: that of their bytes, read from left to right.

use crate::buffer::contents;
use crate::string::ByteStr;
use bytes::Bytes;
use std::cmp::Ordering;
use vstd::prelude::*;
use vstd::std_specs::cmp::{PartialOrdSpec, PartialOrdSpecImpl};

verus! {

/// How `a` stands to `b` in the lexicographic order of byte sequences: the
/// first byte in which they differ decides, and a proper beginning of a
/// sequence comes before it.
pub open spec fn lex_order(a: Seq<u8>, b: Seq<u8>) -> Ordering
    decreases a.len(),
{
    if a.len() == 0 && b.len() == 0 {
        Ordering::Equal
    } else if a.len() == 0 {
        Ordering::Less
    } else if b.len() == 0 {
        Ordering::Greater
    } else if a[0] < b[0] {
        Ordering::Less
    } else if a[0] > b[0] {
        Ordering::Greater
    } else {
        lex_order(a.drop_first(), b.drop_first())
    }
}

/// `<Bytes as Ord>::cmp` compares the exposed bytes lexicographically.
#[verifier::external_body]
fn compare(a: &Bytes, b: &Bytes) -> (r: Ordering)
    ensures
        r == lex_order(contents(*a), contents(*b)),
{
    a.cmp(b)
}

impl PartialOrd for ByteStr {
    fn partial_cmp(&self, other: &Self) -> (r: Option<Ordering>) {
        Some(compare(self.as_bytes(), other.as_bytes()))
    }
}

impl PartialOrdSpecImpl for ByteStr {
    open spec fn obeys_partial_cmp_spec() -> bool {
        true
    }

    open spec fn partial_cmp_spec(&self, other: &Self) -> Option<Ordering> {
        Some(lex_order(self.bytes(), other.bytes()))
    }
}

/// Two byte sequences are equal in the order exactly when they are the same,
/// and turning a comparison round turns its answer round.
pub proof fn lemma_lex_order(a: Seq<u8>, b: Seq<u8>)
    ensures
        lex_order(a, b) == Ordering::Equal <==> a == b,
        lex_order(a, b) == Ordering::Less <==> lex_order(b, a) == Ordering::Greater,
    decreases a.len(),
{
    if a.len() > 0 && b.len() > 0 && a[0] == b[0] {
        lemma_lex_order(a.drop_first(), b.drop_first());
        if a.drop_first() == b.drop_first() {
            assert(a.len() == b.len());
            assert forall|i: int| 0 <= i < a.len() implies a[i] == b[i] by {
                if i > 0 {
                    assert(a[i] == a.drop_first()[i - 1]);
                    assert(b[i] == b.drop_first()[i - 1]);
                }
            }
            assert(a =~= b);
        }
    } else if a.len() == 0 && b.len() == 0 {
        assert(a =~= b);
    }
}

/// The order of strings is consistent with their equality: two strings
/// compare as equal exactly when they hold the same bytes, whatever buffers
/// they share.
pub proof fn law_order_matches_equality(x: ByteStr, y: ByteStr)
    ensures
        PartialOrdSpec::partial_cmp_spec(&x, &y) == Some(Ordering::Equal) <==> x.bytes()
            == y.bytes(),
        PartialOrdSpec::partial_cmp_spec(&x, &y) == Some(Ordering::Less)
            <==> PartialOrdSpec::partial_cmp_spec(&y, &x) == Some(Ordering::Greater),
{
    lemma_lex_order(x.bytes(), y.bytes());
}

} // verus!
