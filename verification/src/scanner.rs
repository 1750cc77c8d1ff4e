//! The escape scanner: one pass over the input that flushes unescaped
//! runs in bulk and substitutes escaped bytes in place. The input is
//! walked in 16-byte blocks; each block is first classified with a
//! bitmask of candidate positions, and the escape table is consulted
//! only at the candidates.
//!
//! Block boundaries are counted from the start of the input span, so
//! there is no unaligned prefix to treat separately; a partial tail is
//! covered by one more block that ends exactly at the input's end,
//! overlapping bytes the body already scanned, with the already-scanned
//! positions masked off. An input shorter than one block is scanned as
//! a single partial block.

use crate::model::{
    escape_byte, escaped_seq, lemma_escaped_seq_clean, lemma_escaped_seq_concat,
    lemma_escaped_seq_singleton,
};
use crate::sink::Buffer;
use crate::table::EscapeTable;
use vstd::prelude::*;
use vstd::string::StringSliceAdditionalSpecFns;

verus! {

/// Width of one scanned block, in bytes.
pub const VECTOR_BYTES: usize = 16;

/// The fast membership test: a byte is a candidate for escaping when
/// OR-ing it with one of two small constants yields the matching key
/// constant. This flags exactly the bytes 0x22, 0x23, 0x26, 0x27,
/// 0x3c and 0x3e; the escape table then confirms or rejects each one.
pub open spec fn is_candidate(b: u8) -> bool {
    (b | 5) == 0x27 || (b | 2) == 0x3e
}

/// The candidate test flags exactly the six bytes `"`, `#`, `&`, `'`,
/// `<` and `>`. A caller who maps only bytes of this set can use this
/// to establish that its table is in lock-step with the fast test.
pub proof fn lemma_candidate_set(b: u8)
    ensures
        is_candidate(b) <==> (b == 0x22 || b == 0x23 || b == 0x26 || b == 0x27 || b == 0x3c || b
            == 0x3e),
{
    assert(((b | 5) == 0x27 || (b | 2) == 0x3e) <==> (b == 0x22 || b == 0x23 || b == 0x26 || b
        == 0x27 || b == 0x3c || b == 0x3e)) by (bit_vector);
}

/// The table and the fast test are in lock-step: every byte the table
/// escapes is flagged as a candidate, so the candidate mask can never
/// miss an escape point (false positives are filtered by the lookup,
/// false negatives must not exist).
pub open spec fn table_in_lockstep(t: EscapeTable) -> bool {
    forall|b: u8| #![trigger t.escapes(b)] t.escapes(b) is Some ==> is_candidate(b)
}

/// The cursor invariant while scanning: everything before `start` has
/// been flushed to the buffer in escaped form.
pub open spec fn flushed_to(t: EscapeTable, feed: Seq<u8>, init: Seq<u8>, out: Seq<u8>, start: int) -> bool {
    out == init + escaped_seq(t, feed.subrange(0, start))
}

/// No byte of `feed[lo..hi]` is escaped by the table.
pub open spec fn clean_range(t: EscapeTable, feed: Seq<u8>, lo: int, hi: int) -> bool {
    forall|j: int| lo <= j < hi ==> t.escapes(feed[j]) is None
}

/// Compute the candidate mask of the `n` bytes at `feed[pos..pos + n]`:
/// bit `i` is set exactly when byte `pos + i` is a candidate.
fn block_mask(feed: &[u8], pos: usize, n: usize) -> (m: u32)
    requires
        n <= VECTOR_BYTES,
        pos + n <= feed@.len(),
    ensures
        forall|i: u32| i < n ==> ((((m >> i) & 1) == 1) == is_candidate(feed@[pos + i])),
        m >> (n as u32) == 0u32,
{
    let flen = feed.len();
    let mut m: u32 = 0;
    let mut i: usize = 0;
    proof {
        assert(0u32 >> 0u32 == 0u32) by (bit_vector);
    }
    while i < n
        invariant
            i <= n <= 16,
            pos + n <= feed@.len(),
            flen == feed@.len(),
            m >> (i as u32) == 0u32,
            forall|j: u32| j < i ==> ((((m >> j) & 1) == 1) == is_candidate(feed@[pos + j])),
        decreases n - i,
    {
        proof {
            assert(pos + i < flen);
        }
        let b = feed[pos + i];
        let ghost m0 = m;
        let ghost iu = i as u32;
        let ghost iu1 = (i + 1) as u32;
        if (b | 5) == 0x27 || (b | 2) == 0x3e {
            m = m | (1u32 << (i as u32));
            proof {
                assert(((m0 | (1u32 << iu)) >> iu) & 1 == 1) by (bit_vector)
                    requires
                        iu < 16,
                ;
                assert((m0 | (1u32 << iu)) >> iu1 == 0) by (bit_vector)
                    requires
                        iu < 16,
                        iu1 == iu + 1,
                        m0 >> iu == 0u32,
                ;
                assert forall|j: u32| j < iu implies ((m >> j) & 1) == ((m0 >> j) & 1) by {
                    assert(((m0 | (1u32 << iu)) >> j) & 1 == (m0 >> j) & 1) by (bit_vector)
                        requires
                            j < iu,
                            iu < 16,
                    ;
                }
            }
        } else {
            proof {
                assert((m0 >> iu) & 1 == 0 && m0 >> iu1 == 0) by (bit_vector)
                    requires
                        iu1 == iu + 1,
                        iu < 16,
                        m0 >> iu == 0u32,
                ;
            }
        }
        i = i + 1;
    }
    m
}

/// The shared escape-application step. Consult the table for the byte
/// at `idx`; when it is escaped, flush the pending unescaped run
/// `feed[start..idx]`, append the replacement, and move the run start
/// past the byte; otherwise leave everything as it is.
fn apply_escape(feed: &[u8], table: &EscapeTable, idx: usize, start: usize, buffer: &mut Buffer) -> (new_start: usize)
    requires
        table.wf(),
        start <= idx < feed@.len(),
    ensures
        start <= new_start <= idx + 1,
        match table.escapes(feed@[idx as int]) {
            Some(r) => new_start == idx + 1 && final(buffer)@ == old(buffer)@ + feed@.subrange(
                start as int,
                idx as int,
            ) + r,
            None => new_start == start && final(buffer)@ == old(buffer)@,
        },
{
    match table.lookup(feed[idx]) {
        Some(rep) => {
            if start < idx {
                buffer.push_run(feed, start, idx);
            } else {
                proof {
                    assert(buffer@ =~= buffer@ + feed@.subrange(start as int, idx as int));
                }
            }
            buffer.push_bytes(rep.as_slice());
            idx + 1
        },
        None => start,
    }
}

/// After an escape is applied at `idx`, the buffer again holds the
/// escaped form of the whole prefix up to and including `idx`.
proof fn lemma_advance_past_escape(
    t: EscapeTable,
    feed: Seq<u8>,
    init: Seq<u8>,
    pre: Seq<u8>,
    post: Seq<u8>,
    start: int,
    idx: int,
)
    requires
        0 <= start <= idx < feed.len(),
        t.escapes(feed[idx]) is Some,
        flushed_to(t, feed, init, pre, start),
        clean_range(t, feed, start, idx),
        post == pre + feed.subrange(start, idx) + t.escapes(feed[idx]).unwrap(),
    ensures
        flushed_to(t, feed, init, post, idx + 1),
{
    let a = feed.subrange(0, start);
    let b = feed.subrange(start, idx);
    let c = feed[idx];
    assert forall|k: int| 0 <= k < b.len() implies t.escapes(b[k]) is None by {
        assert(b[k] == feed[start + k]);
    }
    lemma_escaped_seq_concat(t, a, b);
    lemma_escaped_seq_concat(t, a + b, seq![c]);
    lemma_escaped_seq_clean(t, b);
    lemma_escaped_seq_singleton(t, c);
    assert(a + b + seq![c] =~= feed.subrange(0, idx + 1));
    assert(escape_byte(t, c) == t.escapes(feed[idx]).unwrap());
    assert(post =~= init + escaped_seq(t, feed.subrange(0, idx + 1)));
}

/// Resolve every candidate bit of one block, lowest byte offset first:
/// repeatedly take the lowest set bit, apply the escape step at that
/// offset, and clear the bit. Bit `i` of `mask` corresponds to input
/// position `pos + i`, for the `n` positions the block covers; bits at
/// or above `n` must be clear.
fn resolve_block(
    feed: &[u8],
    table: &EscapeTable,
    pos: usize,
    n: usize,
    mask: u32,
    start: usize,
    buffer: &mut Buffer,
    Ghost(init): Ghost<Seq<u8>>,
) -> (new_start: usize)
    requires
        table.wf(),
        table_in_lockstep(*table),
        n <= VECTOR_BYTES,
        start <= pos,
        pos + n <= feed@.len(),
        forall|i: u32| i < n ==> ((((mask >> i) & 1) == 1) == is_candidate(feed@[pos + i])),
        mask >> (n as u32) == 0u32,
        flushed_to(*table, feed@, init, old(buffer)@, start as int),
        clean_range(*table, feed@, start as int, pos as int),
    ensures
        start <= new_start <= pos + n,
        flushed_to(*table, feed@, init, final(buffer)@, new_start as int),
        clean_range(*table, feed@, new_start as int, pos + n),
{
    let flen = feed.len();
    let mut cur = start;
    let mut rest = mask;
    // Offsets below `bound` are settled: their bits are cleared in
    // `rest`, and every escape among them has been applied.
    let ghost mut bound: u32 = 0;
    while rest != 0
        invariant
            table.wf(),
            table_in_lockstep(*table),
            n <= 16,
            pos + n <= feed@.len(),
            flen == feed@.len(),
            bound <= n,
            start <= cur <= pos + bound,
            forall|i: u32| i < n ==> ((((mask >> i) & 1) == 1) == is_candidate(feed@[pos + i])),
            mask >> (n as u32) == 0u32,
            forall|k: u32|
                k < 32 ==> ((rest >> k) & 1) == (if k >= bound {
                    (mask >> k) & 1
                } else {
                    0u32
                }),
            flushed_to(*table, feed@, init, buffer@, cur as int),
            clean_range(*table, feed@, cur as int, pos + bound),
        decreases rest,
    {
        let tz32 = rest.trailing_zeros();
        proof {
            vstd::std_specs::bits::axiom_u32_trailing_zeros(rest);
        }
        let ghost rest0 = rest;
        let ghost nu = n as u32;
        proof {
            // The lowest set bit lies at or above `bound` (everything
            // below is cleared) and below `n` (bits at or above `n`
            // were never set).
            assert((rest0 >> tz32) & 1 == 1);
            assert(tz32 >= bound);
            assert((mask >> tz32) & 1 == 1);
            if tz32 >= nu {
                assert((mask >> tz32) & 1 == 0) by (bit_vector)
                    requires
                        mask >> nu == 0u32,
                        nu <= tz32 < 32,
                ;
            }
            assert(tz32 < nu);
            // No byte between `bound` and the lowest set bit is a
            // candidate, so none of them is escaped.
            assert forall|j: int| cur <= j < pos + tz32 implies table.escapes(feed@[j]) is None by {
                if j >= pos + bound {
                    let k: u32 = (j - pos) as u32;
                    assert((rest0 >> k) & 1 == 0);
                    assert(((mask >> k) & 1) != 1);
                    assert(!is_candidate(feed@[pos + k]));
                    assert(table.escapes(feed@[j]) is None);
                }
            }
        }
        let tz = tz32 as usize;
        proof {
            assert(pos + tz < flen);
        }
        let ghost pre = buffer@;
        let ghost cur0 = cur as int;
        cur = apply_escape(feed, table, pos + tz, cur, buffer);
        proof {
            if table.escapes(feed@[pos + tz]) is Some {
                lemma_advance_past_escape(*table, feed@, init, pre, buffer@, cur0, pos + tz);
            }
        }
        rest = rest ^ (1u32 << tz32);
        proof {
            assert(rest < rest0) by (bit_vector)
                requires
                    rest == rest0 ^ (1u32 << tz32),
                    (rest0 >> tz32) & 1 == 1,
                    tz32 < 32,
            ;
            bound = (tz32 + 1) as u32;
            assert forall|k: u32|
                k < 32 implies ((rest >> k) & 1) == (if k >= bound {
                    (mask >> k) & 1
                } else {
                    0u32
                }) by {
                if k == tz32 {
                    assert(((rest0 ^ (1u32 << tz32)) >> k) & 1 == 0) by (bit_vector)
                        requires
                            k == tz32,
                            tz32 < 32,
                            (rest0 >> tz32) & 1 == 1,
                    ;
                } else {
                    assert(((rest0 ^ (1u32 << tz32)) >> k) & 1 == (rest0 >> k) & 1) by (bit_vector)
                        requires
                            k < 32,
                            tz32 < 32,
                            k != tz32,
                    ;
                    assert((rest0 >> k) & 1 == (if k >= tz32 + 1 {
                        (mask >> k) & 1
                    } else {
                        0u32
                    }));
                }
            }
        }
    }
    proof {
        // The mask is exhausted: no byte at or above `bound` in this
        // block is a candidate, so the rest of the block is clean.
        assert forall|j: int| cur <= j < pos + n implies table.escapes(feed@[j]) is None by {
            if j >= pos + bound {
                let k: u32 = (j - pos) as u32;
                assert((rest >> k) & 1 == 0) by (bit_vector)
                    requires
                        rest == 0u32,
                ;
                assert(((mask >> k) & 1) != 1);
                assert(!is_candidate(feed@[pos + k]));
                assert(table.escapes(feed@[j]) is None);
            }
        }
    }
    cur
}

/// Append to `buffer` the escaped form of `feed`: every byte the table
/// escapes is replaced by its replacement string, every other byte is
/// copied verbatim, in input order, with no byte lost or duplicated.
///
/// The table must be in lock-step with the candidate test (every
/// escaped byte is a candidate), or the fast mask would skip escape
/// points.
pub fn escape(feed: &[u8], buffer: &mut Buffer, table: &EscapeTable)
    requires
        table.wf(),
        table_in_lockstep(*table),
    ensures
        final(buffer)@ == old(buffer)@ + escaped_seq(*table, feed@),
{
    let ghost init = buffer@;
    let len = feed.len();
    let mut start: usize = 0;
    proof {
        assert(feed@.subrange(0, 0) =~= Seq::<u8>::empty());
        assert(escaped_seq(*table, Seq::<u8>::empty()) =~= Seq::<u8>::empty());
        assert(buffer@ =~= init + escaped_seq(*table, feed@.subrange(0, 0)));
    }
    if len < VECTOR_BYTES {
        // The whole input is shorter than one block: scan it as a
        // single partial block.
        let mask = block_mask(feed, 0, len);
        start = resolve_block(feed, table, 0, len, mask, 0, buffer, Ghost(init));
    } else {
        let mut pos: usize = 0;
        while pos <= len - VECTOR_BYTES
            invariant
                table.wf(),
                table_in_lockstep(*table),
                len == feed@.len(),
                len >= 16,
                start <= pos <= len,
                flushed_to(*table, feed@, init, buffer@, start as int),
                clean_range(*table, feed@, start as int, pos as int),
            decreases len - pos,
        {
            let mask = block_mask(feed, pos, VECTOR_BYTES);
            start = resolve_block(feed, table, pos, VECTOR_BYTES, mask, start, buffer, Ghost(init));
            pos = pos + VECTOR_BYTES;
        }
        if pos < len {
            // Partial tail: read one more full-width block that ends
            // exactly at the input's end (overlapping what the body
            // already scanned) and shift the mask so that only the
            // unprocessed positions remain.
            let rem = len - pos;
            let backs = VECTOR_BYTES - rem;
            let read = pos - backs;
            let full = block_mask(feed, read, VECTOR_BYTES);
            let mask = full >> (backs as u32);
            proof {
                let bu = backs as u32;
                let ru = rem as u32;
                assert((full >> bu) >> ru == 0u32) by (bit_vector)
                    requires
                        full >> 16u32 == 0u32,
                        bu + ru == 16,
                        bu < 16,
                ;
                assert forall|i: u32| i < rem implies ((((mask >> i) & 1) == 1) == is_candidate(
                    feed@[pos + i],
                )) by {
                    let ju: u32 = (bu + i) as u32;
                    assert((full >> bu) >> i == full >> ju) by (bit_vector)
                        requires
                            bu < 16,
                            i < 16,
                            ju == bu + i,
                    ;
                    assert((((full >> ju) & 1) == 1) == is_candidate(feed@[read + ju]));
                    assert(read + ju == pos + i);
                }
            }
            start = resolve_block(feed, table, pos, rem, mask, start, buffer, Ghost(init));
        }
    }
    // Finalize: flush the remaining unescaped run.
    if start < len {
        buffer.push_run(feed, start, len);
    }
    proof {
        let a = feed@.subrange(0, start as int);
        let b = feed@.subrange(start as int, len as int);
        assert forall|k: int| 0 <= k < b.len() implies table.escapes(b[k]) is None by {
            assert(b[k] == feed@[start + k]);
        }
        lemma_escaped_seq_concat(*table, a, b);
        lemma_escaped_seq_clean(*table, b);
        assert(a + b =~= feed@);
        assert(buffer@ =~= init + escaped_seq(*table, feed@));
    }
}

/// Escape a text span: the same operation on the bytes of a `&str`.
pub fn escape_str(feed: &str, buffer: &mut Buffer, table: &EscapeTable)
    requires
        table.wf(),
        table_in_lockstep(*table),
    ensures
        final(buffer)@ == old(buffer)@ + escaped_seq(*table, feed.spec_bytes()),
{
    escape(feed.as_bytes(), buffer, table)
}

/// Decide at run time whether a table is in lock-step with the fast
/// candidate test, as a dispatcher would before selecting this scanner:
/// `true` exactly when every byte the table escapes is a candidate.
pub fn is_in_lockstep(table: &EscapeTable) -> (ok: bool)
    requires
        table.wf(),
    ensures
        ok == table_in_lockstep(*table),
{
    let mut ok = true;
    let mut i: usize = 0;
    while i < 256
        invariant
            i <= 256,
            table.wf(),
            ok ==> forall|c: u8| c < i ==> (table.escapes(c) is Some ==> is_candidate(c)),
            !ok ==> !table_in_lockstep(*table),
        decreases 256 - i,
    {
        let b = i as u8;
        match table.lookup(b) {
            Some(_) => {
                if !((b | 5) == 0x27 || (b | 2) == 0x3e) {
                    proof {
                        assert(table.escapes(b) is Some && !is_candidate(b));
                    }
                    ok = false;
                }
            },
            None => {},
        }
        i = i + 1;
    }
    proof {
        if ok {
            assert forall|b: u8| #![trigger table.escapes(b)]
                table.escapes(b) is Some implies is_candidate(b) by {
                assert(b < 256);
            }
        }
    }
    ok
}

} // verus!
