//! Majority voting over the copies of one byte.
//!
//! A buffer of `n` copies of `d` bytes holds copy `c` of byte `i` at
//! position `c * d + i`.  The bytes at one index across all copies form a
//! column; every bit position of a column is put to the vote.

use vstd::prelude::*;
use vstd::arithmetic::div_mod::{lemma_fundamental_div_mod, lemma_fundamental_div_mod_converse};
use crate::bits::{
    bit_of, byte_of, lemma_bits_determine_byte, lemma_byte_of_bits, lemma_merge_bit, lemma_set_bit,
    lemma_test_bit, lemma_zero_bits,
};

verus! {

/// How many bytes of `col` have bit `t` set.
pub open spec fn ones_in(col: Seq<u8>, t: u8) -> nat
    decreases col.len(),
{
    if col.len() == 0 {
        0
    } else {
        ones_in(col.drop_last(), t) + if bit_of(col.last(), t) {
            1nat
        } else {
            0nat
        }
    }
}

/// The size of the smaller side of the vote on bit `t`.
pub open spec fn minority(col: Seq<u8>, t: u8) -> nat {
    let ones = ones_in(col, t);
    let zeros = (col.len() - ones) as nat;
    if zeros < ones {
        zeros
    } else {
        ones
    }
}

/// The outcome of the vote on bit `t` for a copy whose own byte is `own`:
/// the strict majority where there is one, the copy's own bit on a tie.
pub open spec fn vote_bit(col: Seq<u8>, own: u8, t: u8) -> bool {
    let ones = ones_in(col, t);
    let zeros = (col.len() - ones) as nat;
    if zeros < ones {
        true
    } else if ones < zeros {
        false
    } else {
        bit_of(own, t)
    }
}

/// The byte that a copy holding `own` gets from the vote over `col`.
pub open spec fn voted_byte(col: Seq<u8>, own: u8) -> u8 {
    byte_of(
        vote_bit(col, own, 0),
        vote_bit(col, own, 1),
        vote_bit(col, own, 2),
        vote_bit(col, own, 3),
        vote_bit(col, own, 4),
        vote_bit(col, own, 5),
        vote_bit(col, own, 6),
        vote_bit(col, own, 7),
    )
}

/// The minorities of the bit positions below `t`, added up.
pub open spec fn errors_below(col: Seq<u8>, t: u8) -> nat
    decreases t,
{
    if t == 0 {
        0
    } else {
        errors_below(col, (t - 1) as u8) + minority(col, (t - 1) as u8)
    }
}

/// The number of bit errors that the vote over `col` reports.
pub open spec fn column_errors(col: Seq<u8>) -> nat {
    errors_below(col, 8)
}

/// The bytes at index `i` of each of the `n` copies in `b`.
pub open spec fn column(b: Seq<u8>, n: nat, i: nat) -> Seq<u8> {
    let d = b.len() / n;
    Seq::new(n, |c: int| b[c * d + i])
}

/// `b` after the vote on index `i` alone.
pub open spec fn voted_at(b: Seq<u8>, n: nat, i: nat) -> Seq<u8> {
    let d = b.len() / n;
    Seq::new(
        b.len(),
        |p: int|
            if p % (d as int) == i {
                voted_byte(column(b, n, i), b[p])
            } else {
                b[p]
            },
    )
}

/// `b` after the vote on every index.
pub open spec fn voted(b: Seq<u8>, n: nat) -> Seq<u8> {
    let d = b.len() / n;
    Seq::new(b.len(), |p: int| voted_byte(column(b, n, (p % (d as int)) as nat), b[p]))
}

/// The bit errors that the votes on the indices below `m` report.
pub open spec fn vote_errors_below(b: Seq<u8>, n: nat, m: nat) -> nat
    decreases m,
{
    if m == 0 {
        0
    } else {
        vote_errors_below(b, n, (m - 1) as nat) + column_errors(column(b, n, (m - 1) as nat))
    }
}

/// The bit errors that the vote on every index reports.
pub open spec fn vote_errors(b: Seq<u8>, n: nat) -> nat {
    vote_errors_below(b, n, b.len() / n)
}

/// Where copy `c` of index `i` lies, and how to read copy and index back
/// from a position.
pub proof fn lemma_cell(n: int, d: int, c: int, i: int)
    requires
        0 <= c < n,
        0 <= i < d,
    ensures
        0 <= c * d + i < n * d,
        (c * d + i) % d == i,
        (c * d + i) / d == c,
{
    assert(0 <= c * d && c * d + d <= n * d) by (nonlinear_arith)
        requires
            0 <= c < n,
            0 < d,
    ;
    lemma_fundamental_div_mod_converse(c * d + i, d, c, i);
}

/// A buffer of `n` copies is `n` times as long as one copy.
pub proof fn lemma_copies_len(len: int, n: int)
    requires
        n > 0,
        len >= 0,
        len % n == 0,
    ensures
        len == n * (len / n),
        len / n >= 0,
{
    lemma_fundamental_div_mod(len, n);
    assert(len / n >= 0) by (nonlinear_arith)
        requires
            n > 0,
            len >= 0,
            len == n * (len / n),
    ;
}

/// A position below `n * d` belongs to a copy below `n`.
pub proof fn lemma_position(n: int, d: int, p: int)
    requires
        0 < d,
        0 <= p < n * d,
    ensures
        0 <= p / d < n,
        0 <= p % d < d,
        p == (p / d) * d + p % d,
{
    lemma_fundamental_div_mod(p, d);
    let q = p / d;
    assert((p / d) * d == d * (p / d)) by (nonlinear_arith);
    assert(0 <= q < n) by (nonlinear_arith)
        requires
            0 < d,
            0 <= p < n * d,
            p == q * d + p % d,
            0 <= p % d < d,
    ;
}

/// No vote has more than half of the column on its smaller side.
pub proof fn lemma_ones_bound(col: Seq<u8>, t: u8)
    ensures
        ones_in(col, t) <= col.len(),
        2 * minority(col, t) <= col.len(),
    decreases col.len(),
{
    if col.len() > 0 {
        lemma_ones_bound(col.drop_last(), t);
    }
}

/// A column reports at most `t` minorities below bit `t`.
pub proof fn lemma_errors_bound(col: Seq<u8>, t: u8)
    ensures
        2 * errors_below(col, t) <= t * col.len(),
    decreases t,
{
    if t > 0 {
        lemma_errors_bound(col, (t - 1) as u8);
        lemma_ones_bound(col, (t - 1) as u8);
        assert(t * col.len() == (t - 1) * col.len() + col.len()) by (nonlinear_arith);
    }
}

/// Counts the copies of index `index` that have bit `bit` set.
fn count_ones(buffer: &[u8], n_copies: usize, index: usize, bit: u8) -> (ones: u32)
    requires
        n_copies >= 1,
        n_copies <= u32::MAX,
        buffer@.len() % (n_copies as nat) == 0,
        index < buffer@.len() / (n_copies as nat),
        bit < 8,
    ensures
        ones == ones_in(column(buffer@, n_copies as nat, index as nat), bit),
{
    let data_len = buffer.len() / n_copies;
    let mask: u8 = 1u8 << bit;
    let ghost col = column(buffer@, n_copies as nat, index as nat);
    let mut ones: u32 = 0;
    let mut copy: usize = 0;
    proof {
        lemma_copies_len(buffer@.len() as int, n_copies as int);
    }
    while copy < n_copies
        invariant
            copy <= n_copies <= u32::MAX,
            data_len == buffer@.len() / (n_copies as nat),
            buffer@.len() == n_copies * data_len,
            buffer@.len() <= usize::MAX,
            index < data_len,
            bit < 8,
            mask == 1u8 << bit,
            col == column(buffer@, n_copies as nat, index as nat),
            ones == ones_in(col.take(copy as int), bit),
            ones <= copy,
        decreases n_copies - copy,
    {
        proof {
            lemma_cell(n_copies as int, data_len as int, copy as int, index as int);
        }
        let byte = buffer[copy * data_len + index];
        proof {
            lemma_test_bit(byte, bit);
            assert(col.take(copy + 1).drop_last() == col.take(copy as int));
            assert(col.take(copy + 1).last() == byte);
        }
        if byte & mask != 0 {
            ones += 1;
        }
        copy += 1;
    }
    proof {
        assert(col.take(n_copies as int) == col);
    }
    ones
}

/// Puts every bit of the copies of byte `index` to the vote, rewrites each
/// copy with the outcome and returns the number of bits on the losing
/// sides.  A tied bit keeps in each copy the value it had there.
pub fn correct_bits_redundant(buffer: &mut [u8], n_copies: usize, index: usize) -> (errors: u32)
    requires
        n_copies >= 1,
        4 * n_copies <= u32::MAX,
        old(buffer)@.len() % (n_copies as nat) == 0,
        index < old(buffer)@.len() / (n_copies as nat),
    ensures
        final(buffer)@ == voted_at(old(buffer)@, n_copies as nat, index as nat),
        errors == column_errors(column(old(buffer)@, n_copies as nat, index as nat)),
{
    let data_len = buffer.len() / n_copies;
    let ghost col = column(buffer@, n_copies as nat, index as nat);
    let mut errors: u32 = 0;
    let mut set: u8 = 0;
    let mut keep: u8 = 0;
    let mut bit: u8 = 0;
    proof {
        lemma_copies_len(buffer@.len() as int, n_copies as int);
        assert forall|s: u8| s < 8 implies !bit_of(0u8, s) by {
            lemma_zero_bits(s);
        }
    }
    while bit < 8
        invariant
            bit <= 8,
            n_copies >= 1,
            4 * n_copies <= u32::MAX,
            buffer@ == old(buffer)@,
            buffer@.len() % (n_copies as nat) == 0,
            index < buffer@.len() / (n_copies as nat),
            col == column(buffer@, n_copies as nat, index as nat),
            col.len() == n_copies,
            errors == errors_below(col, bit),
            forall|s: u8|
                s < 8 ==> bit_of(set, s) == (s < bit && col.len() - ones_in(col, s) < ones_in(col, s)),
            forall|s: u8|
                s < 8 ==> bit_of(keep, s) == (s < bit && col.len() - ones_in(col, s) == ones_in(col, s)),
        decreases 8 - bit,
    {
        let ones = count_ones(buffer, n_copies, index, bit);
        proof {
            lemma_ones_bound(col, bit);
            lemma_errors_bound(col, bit);
            assert(bit * col.len() <= 7 * col.len()) by (nonlinear_arith)
                requires
                    bit <= 7,
            ;
        }
        let zeros = n_copies as u32 - ones;
        let ghost old_set = set;
        let ghost old_keep = keep;
        if zeros < ones {
            set = set | (1u8 << bit);
            errors += zeros;
        } else {
            errors += ones;
            if zeros == ones {
                keep = keep | (1u8 << bit);
            }
        }
        proof {
            assert forall|s: u8| s < 8 implies bit_of(set, s) == (s < bit + 1 && col.len() - ones_in(
                col,
                s,
            ) < ones_in(col, s)) by {
                lemma_set_bit(old_set, bit, s);
            }
            assert forall|s: u8| s < 8 implies bit_of(keep, s) == (s < bit + 1 && col.len() - ones_in(
                col,
                s,
            ) == ones_in(col, s)) by {
                lemma_set_bit(old_keep, bit, s);
            }
        }
        bit += 1;
    }
    let mut copy: usize = 0;
    while copy < n_copies
        invariant
            copy <= n_copies,
            data_len == old(buffer)@.len() / (n_copies as nat),
            old(buffer)@.len() == n_copies * data_len,
            index < data_len,
            buffer@.len() == old(buffer)@.len(),
            buffer@.len() <= usize::MAX,
            col == column(old(buffer)@, n_copies as nat, index as nat),
            col.len() == n_copies,
            forall|s: u8| s < 8 ==> bit_of(set, s) == (col.len() - ones_in(col, s) < ones_in(col, s)),
            forall|s: u8| s < 8 ==> bit_of(keep, s) == (col.len() - ones_in(col, s) == ones_in(col, s)),
            forall|p: int|
                0 <= p < buffer@.len() ==> buffer@[p] == if p % (data_len as int) == index && p / (
                data_len as int) < copy {
                    voted_byte(col, old(buffer)@[p])
                } else {
                    old(buffer)@[p]
                },
        decreases n_copies - copy,
    {
        proof {
            lemma_cell(n_copies as int, data_len as int, copy as int, index as int);
        }
        let at = copy * data_len + index;
        let own = buffer[at];
        let byte = set | (own & keep);
        proof {
            assert(own == old(buffer)@[at as int]);
            assert forall|s: u8| s < 8 implies bit_of(byte, s) == vote_bit(col, own, s) by {
                lemma_merge_bit(set, keep, own, s);
                lemma_ones_bound(col, s);
            }
            lemma_byte_of_bits(
                vote_bit(col, own, 0),
                vote_bit(col, own, 1),
                vote_bit(col, own, 2),
                vote_bit(col, own, 3),
                vote_bit(col, own, 4),
                vote_bit(col, own, 5),
                vote_bit(col, own, 6),
                vote_bit(col, own, 7),
            );
            assert forall|s: u8| s < 8 implies bit_of(byte, s) == bit_of(voted_byte(col, own), s) by {
                assert(s == 0 || s == 1 || s == 2 || s == 3 || s == 4 || s == 5 || s == 6 || s == 7);
            }
            lemma_bits_determine_byte(byte, voted_byte(col, own));
        }
        let ghost prev = buffer@;
        buffer[at] = byte;
        proof {
            assert forall|p: int| 0 <= p < buffer@.len() implies buffer@[p] == if p % (data_len as int)
                == index && p / (data_len as int) < copy + 1 {
                voted_byte(col, old(buffer)@[p])
            } else {
                old(buffer)@[p]
            } by {
                lemma_position(n_copies as int, data_len as int, p);
                if p != at {
                    assert(buffer@[p] == prev[p]);
                    if p % (data_len as int) == index && p / (data_len as int) == copy {
                        assert(false);
                    }
                }
            }
        }
        copy += 1;
    }
    proof {
        let want = voted_at(old(buffer)@, n_copies as nat, index as nat);
        assert forall|p: int| 0 <= p < buffer@.len() implies buffer@[p] == want[p] by {
            lemma_position(n_copies as int, data_len as int, p);
        }
        assert(buffer@ =~= want);
    }
    errors
}

} // verus!
