//! The mathematical model of escaping: what the scanner's output must
//! be, stated byte by byte over sequences, together with the laws that
//! hold of it.

use crate::table::EscapeTable;
use vstd::prelude::*;

verus! {

/// What one byte contributes to the output: its replacement string when
/// the table escapes it, the byte itself otherwise.
pub open spec fn escape_byte(t: EscapeTable, b: u8) -> Seq<u8> {
    match t.escapes(b) {
        Some(r) => r,
        None => seq![b],
    }
}

/// The escaped form of a whole byte sequence: the concatenation, in
/// input order, of what each byte contributes.
pub open spec fn escaped_seq(t: EscapeTable, s: Seq<u8>) -> Seq<u8>
    decreases s.len(),
{
    if s.len() == 0 {
        Seq::<u8>::empty()
    } else {
        escape_byte(t, s[0]) + escaped_seq(t, s.drop_first())
    }
}

/// Escaping a single byte yields exactly that byte's contribution.
pub proof fn lemma_escaped_seq_singleton(t: EscapeTable, b: u8)
    ensures
        escaped_seq(t, seq![b]) == escape_byte(t, b),
{
    assert(seq![b].drop_first() =~= Seq::<u8>::empty());
    assert(escaped_seq(t, Seq::<u8>::empty()) =~= Seq::<u8>::empty());
    assert(seq![b][0] == b);
    assert(escape_byte(t, b) + Seq::<u8>::empty() =~= escape_byte(t, b));
}

/// Order preservation: the escaped form of a concatenation is the
/// concatenation of the escaped forms — runs never reorder, duplicate
/// or drop bytes across a split point.
pub proof fn lemma_escaped_seq_concat(t: EscapeTable, a: Seq<u8>, b: Seq<u8>)
    ensures
        escaped_seq(t, a + b) == escaped_seq(t, a) + escaped_seq(t, b),
    decreases a.len(),
{
    if a.len() == 0 {
        assert(a + b =~= b);
        assert(escaped_seq(t, a) + escaped_seq(t, b) =~= escaped_seq(t, b));
    } else {
        lemma_escaped_seq_concat(t, a.drop_first(), b);
        assert((a + b).drop_first() =~= a.drop_first() + b);
        assert((a + b)[0] == a[0]);
        assert(escape_byte(t, a[0]) + (escaped_seq(t, a.drop_first()) + escaped_seq(t, b)) =~= (
        escape_byte(t, a[0]) + escaped_seq(t, a.drop_first())) + escaped_seq(t, b));
    }
}

/// Escaping is the identity on clean input: a sequence none of whose
/// bytes the table escapes comes out unchanged.
pub proof fn lemma_escaped_seq_clean(t: EscapeTable, s: Seq<u8>)
    requires
        forall|i: int| 0 <= i < s.len() ==> t.escapes(s[i]) is None,
    ensures
        escaped_seq(t, s) == s,
    decreases s.len(),
{
    if s.len() == 0 {
        assert(escaped_seq(t, s) =~= s);
    } else {
        lemma_escaped_seq_clean(t, s.drop_first());
        assert(escape_byte(t, s[0]) =~= seq![s[0]]);
        assert(seq![s[0]] + s.drop_first() =~= s);
    }
}

/// Full coverage, one byte at a time: a single-byte input equal to a
/// byte the table maps comes out as exactly its replacement string, and
/// a single unmapped byte comes out as exactly itself.
pub proof fn lemma_single_byte_coverage(t: EscapeTable, b: u8)
    ensures
        t.escapes(b) matches Some(r) ==> escaped_seq(t, seq![b]) == r,
        t.escapes(b) is None ==> escaped_seq(t, seq![b]) == seq![b],
{
    lemma_escaped_seq_singleton(t, b);
}

} // verus!
