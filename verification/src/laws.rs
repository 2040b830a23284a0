//! What holds of the layers and the walks, whatever the bytes.

use vstd::prelude::*;
use vstd::arithmetic::div_mod::lemma_fundamental_div_mod_converse;
use crate::bits::{bit_of, lemma_bits_determine_byte, lemma_byte_of_bits};
use crate::cipher::{
    aes128_ctr_keystream, lemma_xor_bytes_twice, xor_bytes, KEY, NONCE, NONCE_LEN,
};
use crate::codec::rs_decoded;
use crate::policies::{copies, lemma_copies_clean, Policy};
use crate::vote::{
    column, column_errors, errors_below, lemma_cell, lemma_copies_len, lemma_ones_bound,
    lemma_position, minority, ones_in, vote_bit, vote_errors, vote_errors_below, voted,
    voted_byte,
};
use crate::walk::{
    check_ok, cipher_span, corrected_chunks, corrected_walk, corrupted_walk, decrypted, encrypted, first_of,
    lemma_data_len, peeled, same_kind, span_ok,
};

verus! {

/// How many bytes of `col` differ from `x`.
pub open spec fn differing(col: Seq<u8>, x: u8) -> nat
    decreases col.len(),
{
    if col.len() == 0 {
        0
    } else {
        differing(col.drop_last(), x) + if col.last() != x {
            1nat
        } else {
            0nat
        }
    }
}

/// The bytes of a column that agree with `x` vote with it on every bit.
proof fn lemma_ones_against(col: Seq<u8>, x: u8, t: u8)
    ensures
        differing(col, x) <= col.len(),
        bit_of(x, t) ==> ones_in(col, t) + differing(col, x) >= col.len(),
        !bit_of(x, t) ==> ones_in(col, t) <= differing(col, x),
    decreases col.len(),
{
    if col.len() > 0 {
        lemma_ones_against(col.drop_last(), x, t);
    }
}

/// A byte that more than half of the copies hold wins the vote in every
/// copy, whatever that copy held.
pub proof fn lemma_majority_wins(col: Seq<u8>, x: u8, own: u8)
    requires
        2 * differing(col, x) < col.len(),
    ensures
        voted_byte(col, own) == x,
{
    assert forall|t: u8| t < 8 implies vote_bit(col, own, t) == bit_of(x, t) by {
        lemma_ones_against(col, x, t);
        lemma_ones_bound(col, t);
    }
    lemma_voted_byte_is(col, own, x);
}

/// The vote gives a copy the byte whose bits are the outcomes of the
/// eight votes.
proof fn lemma_voted_byte_is(col: Seq<u8>, own: u8, x: u8)
    requires
        forall|t: u8| t < 8 ==> vote_bit(col, own, t) == bit_of(x, t),
    ensures
        voted_byte(col, own) == x,
{
    lemma_byte_of_bits(
        vote_bit(col, own, 0),
        vote_bit(col, own, 1),
        vote_bit(col, own, 2),
        vote_bit(col, own, 3),
        vote_bit(col, own, 4),
        vote_bit(col, own, 5),
        vote_bit(col, own, 6),
        vote_bit(col, own, 7),
    );
    assert forall|t: u8| t < 8 implies bit_of(voted_byte(col, own), t) == bit_of(x, t) by {
        assert(t == 0 || t == 1 || t == 2 || t == 3 || t == 4 || t == 5 || t == 6 || t == 7);
    }
    lemma_bits_determine_byte(voted_byte(col, own), x);
}

/// A column of equal bytes has no byte that differs from them, and no
/// vote on it has a losing side.
proof fn lemma_equal_column(col: Seq<u8>, x: u8, t: u8)
    requires
        forall|c: int| 0 <= c < col.len() ==> col[c] == x,
    ensures
        differing(col, x) == 0,
        minority(col, t) == 0,
    decreases col.len(),
{
    if col.len() > 0 {
        lemma_equal_column(col.drop_last(), x, t);
    }
    lemma_ones_against(col, x, t);
    lemma_ones_bound(col, t);
}

/// A column in which only the byte at `j` may differ from `x` has at most
/// one byte that differs.
proof fn lemma_one_differs(col: Seq<u8>, x: u8, j: int)
    requires
        forall|c: int| 0 <= c < col.len() && c != j ==> col[c] == x,
    ensures
        differing(col, x) <= 1,
        !(0 <= j < col.len()) ==> differing(col, x) == 0,
    decreases col.len(),
{
    if col.len() > 0 {
        if j == col.len() - 1 {
            lemma_one_differs(col.drop_last(), x, -1);
        } else {
            lemma_one_differs(col.drop_last(), x, j);
        }
    }
}

/// The errors of a column with no losing side add up to nothing.
proof fn lemma_no_errors(col: Seq<u8>, x: u8, t: u8)
    requires
        forall|c: int| 0 <= c < col.len() ==> col[c] == x,
        t <= 8,
    ensures
        errors_below(col, t) == 0,
    decreases t,
{
    if t > 0 {
        lemma_no_errors(col, x, (t - 1) as u8);
        lemma_equal_column(col, x, (t - 1) as u8);
    }
}

/// The vote over copies that agree changes nothing and reports nothing.
pub proof fn lemma_vote_on_copies(data: Seq<u8>, n: u32)
    requires
        n >= 1,
    ensures
        Policy::Redundancy(n).corrected(copies(data, n as nat)) == (copies(data, n as nat), 0nat),
{
    let b = copies(data, n as nat);
    let d = data.len();
    lemma_copies_clean(data, n);
    assert(b.len() / (n as nat) == d);
    assert forall|p: int| 0 <= p < b.len() implies voted(b, n as nat)[p] == b[p] by {
        lemma_position(n as int, d as int, p);
        let i = p % (d as int);
        let col = column(b, n as nat, i as nat);
        assert forall|c: int| 0 <= c < col.len() implies col[c] == data[i] by {
            lemma_cell(n as int, d as int, c, i);
        }
        lemma_equal_column(col, data[i], 0);
        lemma_majority_wins(col, data[i], b[p]);
    }
    assert(voted(b, n as nat) =~= b);
    lemma_no_vote_errors(data, n, d);
}

/// The votes over copies that agree report nothing on the indices below
/// `m`.
proof fn lemma_no_vote_errors(data: Seq<u8>, n: u32, m: nat)
    requires
        n >= 1,
        m <= data.len(),
    ensures
        vote_errors_below(copies(data, n as nat), n as nat, m) == 0,
    decreases m,
{
    if m > 0 {
        lemma_no_vote_errors(data, n, (m - 1) as nat);
        let b = copies(data, n as nat);
        let d = data.len();
        lemma_copies_clean(data, n);
        let i = (m - 1) as int;
        let col = column(b, n as nat, i as nat);
        assert forall|c: int| 0 <= c < col.len() implies col[c] == data[i] by {
            lemma_cell(n as int, d as int, c, i);
        }
        lemma_no_errors(col, data[i], 8);
    }
}

/// The repairing walk keeps the length of the buffer.
pub proof fn lemma_corrected_len(ps: Seq<Policy>, i: nat, b: Seq<u8>)
    requires
        check_ok(ps, i, b.len()),
    ensures
        corrected_walk(ps, i, b).0.len() == b.len(),
    decreases ps.len() - i, 0nat,
{
    if i >= ps.len() || ps[i as int] is Nil || ps[i as int] is Encrypted {
    } else {
        let layer = ps[i as int];
        let d = layer.data_len(b.len());
        lemma_data_len(layer, b.len());
        match layer {
            Policy::Redundancy(n) => {
                lemma_copies_len(b.len() as int, n as int);
                lemma_chunks_len(ps, i + 1, b, d, n as nat, n as nat);
            },
            _ => {
                lemma_corrected_len(ps, i + 1, b.subrange(0, d as int));
            },
        }
    }
}

/// The repairing walk over the first `m` of `n` chunks keeps the length of
/// the buffer.
pub proof fn lemma_chunks_len(ps: Seq<Policy>, i: nat, b: Seq<u8>, d: nat, n: nat, m: nat)
    requires
        i <= ps.len(),
        b.len() == n * d,
        m <= n,
        check_ok(ps, i, d),
    ensures
        corrected_chunks(ps, i, b, d, m).0.len() == b.len(),
    decreases ps.len() - i, m,
{
    if m > 0 {
        lemma_chunks_len(ps, i, b, d, n, (m - 1) as nat);
        let before = corrected_chunks(ps, i, b, d, (m - 1) as nat);
        let start = (m - 1) * d;
        assert(0 <= start && start + d <= n * d) by (nonlinear_arith)
            requires
                1 <= m <= n,
                start == (m - 1) * d,
        ;
        lemma_corrected_len(ps, i, before.0.subrange(start, start + d));
    }
}

/// Each chunk of a buffer of copies is the data that was copied.
proof fn lemma_chunk_of_copies(data: Seq<u8>, n: nat, c: nat)
    requires
        c < n,
    ensures
        0 <= c * data.len(),
        c * data.len() + data.len() <= copies(data, n).len(),
        copies(data, n).subrange(
            (c * data.len()) as int,
            (c * data.len() + data.len()) as int,
        ) == data,
{
    let d = data.len() as int;
    let start = c * d;
    assert(0 <= start && start + d <= n * d) by (nonlinear_arith)
        requires
            0 <= c < n,
            0 <= d,
            start == c * d,
    ;
    let chunk = copies(data, n).subrange(start, start + d);
    assert forall|q: int| 0 <= q < d implies chunk[q] == data[q] by {
        lemma_cell(n as int, d, c as int, q);
    }
    assert(chunk =~= data);
}

/// The repairing walk over chunks that are consistent copies changes
/// nothing and reports nothing.
proof fn lemma_consistent_chunks(ps: Seq<Policy>, i: nat, data: Seq<u8>, n: nat, m: nat)
    requires
        i <= ps.len(),
        m <= n,
        check_ok(ps, i, data.len()),
        !corrupted_walk(ps, i, data),
    ensures
        corrected_chunks(ps, i, copies(data, n), data.len(), m) == (copies(data, n), 0nat),
    decreases ps.len() - i, m,
{
    if m > 0 {
        lemma_consistent_chunks(ps, i, data, n, (m - 1) as nat);
        lemma_chunk_of_copies(data, n, (m - 1) as nat);
        lemma_consistent_needs_no_repair(ps, i, data);
        let b = copies(data, n);
        let start = (m - 1) * data.len();
        assert(b.subrange(0, start) + data + b.subrange(start + data.len(), b.len() as int) =~= b);
    }
}

/// A buffer that the checking walk finds consistent comes out of the
/// repairing walk as it went in, with no error reported.
pub proof fn lemma_consistent_needs_no_repair(ps: Seq<Policy>, i: nat, b: Seq<u8>)
    requires
        check_ok(ps, i, b.len()),
        !corrupted_walk(ps, i, b),
    ensures
        corrected_walk(ps, i, b) == (b, 0nat),
    decreases ps.len() - i, 0nat,
{
    if i >= ps.len() || ps[i as int] is Nil || ps[i as int] is Encrypted {
    } else {
        let layer = ps[i as int];
        let d = layer.data_len(b.len());
        let data = b.subrange(0, d as int);
        lemma_data_len(layer, b.len());
        match layer {
            Policy::Redundancy(n) => {
                lemma_consistent_chunks(ps, i + 1, data, n as nat, n as nat);
                lemma_vote_on_copies(data, n);
            },
            _ => {
                lemma_consistent_needs_no_repair(ps, i + 1, data);
                assert(data + b.subrange(d as int, b.len() as int) =~= b);
            },
        }
    }
}

/// Where at most `(n - 1) / 2` of an odd number `n` of copies of each
/// byte have been changed, in whatever way, the vote gives every copy
/// its first content back.
pub proof fn lemma_vote_restores(data: Seq<u8>, n: u32, b: Seq<u8>)
    requires
        n % 2 == 1,
        b.len() == n * data.len(),
        forall|i: nat|
            i < data.len() ==> differing(#[trigger] column(b, n as nat, i), data[i as int]) <= (n - 1)
                / 2,
    ensures
        Policy::Redundancy(n).corrected(b).0 == copies(data, n as nat),
{
    let d = data.len();
    lemma_copies_clean(data, n);
    assert(b.len() / (n as nat) == d);
    let want = copies(data, n as nat);
    assert forall|p: int| 0 <= p < b.len() implies voted(b, n as nat)[p] == want[p] by {
        lemma_position(n as int, d as int, p);
        let i = (p % (d as int)) as nat;
        let col = column(b, n as nat, i);
        assert(differing(col, data[i as int]) <= (n - 1) / 2);
        lemma_majority_wins(col, data[i as int], b[p]);
    }
    assert(voted(b, n as nat) =~= want);
}

/// The repairing walk over the chunks of a buffer that differs from
/// consistent copies in chunk `j` alone leaves every other chunk as it
/// is.
proof fn lemma_chunks_one_changed(
    ps: Seq<Policy>,
    i: nat,
    data: Seq<u8>,
    n: nat,
    b: Seq<u8>,
    j: int,
    m: nat,
)
    requires
        i <= ps.len(),
        m <= n,
        data.len() > 0,
        check_ok(ps, i, data.len()),
        !corrupted_walk(ps, i, data),
        b.len() == n * data.len(),
        forall|p: int|
            0 <= p < b.len() && p / (data.len() as int) != j ==> b[p] == copies(data, n)[p],
    ensures
        corrected_chunks(ps, i, b, data.len(), m).0.len() == b.len(),
        forall|p: int|
            0 <= p < b.len() && p / (data.len() as int) != j ==> corrected_chunks(
                ps,
                i,
                b,
                data.len(),
                m,
            ).0[p] == copies(data, n)[p],
    decreases ps.len() - i, m,
{
    let d = data.len() as int;
    if m > 0 {
        lemma_chunks_one_changed(ps, i, data, n, b, j, (m - 1) as nat);
        lemma_chunks_len(ps, i, b, d as nat, n, m);
        lemma_chunk_of_copies(data, n, (m - 1) as nat);
        let before = corrected_chunks(ps, i, b, d as nat, (m - 1) as nat).0;
        let after = corrected_chunks(ps, i, b, d as nat, m).0;
        let start = (m - 1) * d;
        let chunk = before.subrange(start, start + d);
        lemma_corrected_len(ps, i, chunk);
        if m - 1 != j {
            assert forall|q: int| 0 <= q < d implies chunk[q] == data[q] by {
                lemma_cell(n as int, d, m - 1, q);
                assert(copies(data, n).subrange(start, start + d)[q] == data[q]);
            }
            assert(chunk =~= data);
            lemma_consistent_needs_no_repair(ps, i, data);
        }
        assert forall|p: int| 0 <= p < b.len() && p / d != j implies after[p] == copies(data, n)[p] by {
            lemma_position(n as int, d, p);
            if start <= p < start + d {
                lemma_fundamental_div_mod_converse(
                    p,
                    d,
                    m - 1,
                    p - start,
                );
                assert(after[p] == data[p - start]);
                lemma_cell(n as int, d, m - 1, p - start);
            } else {
                assert(after[p] == before[p]);
            }
        }
    }
}

/// Under a redundancy layer of three or more copies, whatever has
/// happened to one copy, and whatever the inner layers make of it, the
/// repairing walk gives the consistent buffer back, and reports at least
/// one error where anything had happened.
pub proof fn lemma_vote_masks_one_copy(ps: Seq<Policy>, i: nat, n: u32, consistent: Seq<u8>, b: Seq<u8>, j: nat)
    requires
        i < ps.len(),
        ps[i as int] == Policy::Redundancy(n),
        n >= 3,
        check_ok(ps, i, consistent.len()),
        !corrupted_walk(ps, i, consistent),
        b.len() == consistent.len(),
        forall|p: int|
            0 <= p < b.len() && p / ((consistent.len() / (n as nat)) as int) != j ==> b[p]
                == consistent[p],
    ensures
        corrected_walk(ps, i, b).0 == consistent,
        b != consistent ==> corrected_walk(ps, i, b).1 > 0,
{
    let len = consistent.len();
    let d = len / (n as nat);
    let data = consistent.subrange(0, d as int);
    lemma_copies_len(len as int, n as int);
    lemma_copies_clean(data, n);
    assert(consistent == copies(data, n as nat));
    if d == 0 {
        assert(len == 0);
        assert(b =~= consistent);
        lemma_consistent_needs_no_repair(ps, i, consistent);
    } else {
        lemma_chunks_one_changed(ps, i + 1, data, n as nat, b, j as int, n as nat);
        let inner = corrected_chunks(ps, i + 1, b, d, n as nat).0;
        assert forall|p: int| 0 <= p < len implies voted(inner, n as nat)[p] == consistent[p] by {
            lemma_position(n as int, d as int, p);
            let at = p % (d as int);
            let col = column(inner, n as nat, at as nat);
            assert forall|c: int| 0 <= c < col.len() && c != j implies col[c] == data[at] by {
                lemma_cell(n as int, d as int, c, at);
                let q = c * d + at;
                assert(q / (data.len() as int) == c);
                assert(inner[q] == copies(data, n as nat)[q]);
            }
            lemma_one_differs(col, data[at], j as int);
            lemma_majority_wins(col, data[at], inner[p]);
        }
        assert(voted(inner, n as nat) =~= consistent);
    }
    if corrected_walk(ps, i, b).1 == 0 {
        lemma_quiet_repair(ps, i, b);
    }
}

/// With an odd number of copies no vote is tied, and the redundancy
/// layer finds the buffer consistent once it has repaired it.
pub proof fn lemma_vote_settles(n: u32, b: Seq<u8>)
    requires
        n % 2 == 1,
        Policy::Redundancy(n).splits(b.len()),
    ensures
        !Policy::Redundancy(n).corrupted(Policy::Redundancy(n).corrected(b).0),
{
    let len = b.len();
    let d = len / (n as nat);
    lemma_copies_len(len as int, n as int);
    let w = voted(b, n as nat);
    let first = w.subrange(0, d as int);
    lemma_copies_clean(first, n);
    assert forall|p: int| 0 <= p < len implies w[p] == copies(first, n as nat)[p] by {
        lemma_position(n as int, d as int, p);
        let i = p % (d as int);
        lemma_cell(n as int, d as int, 0, i);
        let col = column(b, n as nat, i as nat);
        assert forall|t: u8| t < 8 implies vote_bit(col, b[p], t) == vote_bit(col, b[i], t) by {
            lemma_ones_bound(col, t);
        }
        assert(w[i] == voted_byte(col, b[i]));
    }
    assert(w =~= copies(first, n as nat));
}

/// A parity layer finds the buffer consistent once the codec has
/// repaired it.
pub proof fn lemma_parity_settles(k: u32, b: Seq<u8>)
    requires
        rs_decoded(k as nat, b) is Some,
    ensures
        !Policy::ReedSolomon(k).corrupted(Policy::ReedSolomon(k).corrected(b).0),
{
}

/// A parity layer that finds its buffer inconsistent reports at least
/// one error where the codec repairs it.
pub proof fn lemma_parity_reports(k: u32, b: Seq<u8>)
    requires
        Policy::ReedSolomon(k).corrupted(b),
        rs_decoded(k as nat, b) is Some,
    ensures
        Policy::ReedSolomon(k).corrected(b).1 > 0,
{
}

/// A vote that reports nothing changes nothing.
pub proof fn lemma_quiet_vote(n: u32, b: Seq<u8>)
    requires
        Policy::Redundancy(n).splits(b.len()),
        vote_errors(b, n as nat) == 0,
    ensures
        voted(b, n as nat) == b,
{
    let len = b.len();
    let d = len / (n as nat);
    lemma_copies_len(len as int, n as int);
    assert forall|p: int| 0 <= p < len implies voted(b, n as nat)[p] == b[p] by {
        assert(d > 0) by (nonlinear_arith)
            requires
                len == n * d,
                0 <= p < len,
        ;
        lemma_position(n as int, d as int, p);
        let i = p % (d as int);
        let c = p / (d as int);
        lemma_cell(n as int, d as int, c, i);
        let col = column(b, n as nat, i as nat);
        assert(col[c] == b[p]);
        lemma_vote_errors_include(b, n as nat, i as nat, d);
        assert forall|t: u8| t < 8 implies vote_bit(col, b[p], t) == bit_of(b[p], t) by {
            lemma_errors_include(col, t, 8);
            lemma_ones_witness(col, c, t);
            lemma_ones_bound(col, t);
        }
        lemma_voted_byte_is(col, b[p], b[p]);
    }
    assert(voted(b, n as nat) =~= b);
}

/// The repairing walk over chunks that reports nothing changes nothing.
proof fn lemma_quiet_chunks(ps: Seq<Policy>, i: nat, b: Seq<u8>, d: nat, n: nat, m: nat)
    requires
        i <= ps.len(),
        b.len() == n * d,
        m <= n,
        check_ok(ps, i, d),
        corrected_chunks(ps, i, b, d, m).1 == 0,
    ensures
        corrected_chunks(ps, i, b, d, m).0 == b,
    decreases ps.len() - i, m,
{
    if m > 0 {
        lemma_quiet_chunks(ps, i, b, d, n, (m - 1) as nat);
        let start = (m - 1) * d;
        assert(0 <= start && start + d <= n * d) by (nonlinear_arith)
            requires
                1 <= m <= n,
                start == (m - 1) * d,
        ;
        let chunk = b.subrange(start, start + d);
        lemma_quiet_repair(ps, i, chunk);
        assert(b.subrange(0, start) + chunk + b.subrange(start + d, b.len() as int) =~= b);
    }
}

/// A repairing walk that reports nothing changes nothing.
pub proof fn lemma_quiet_repair(ps: Seq<Policy>, i: nat, b: Seq<u8>)
    requires
        check_ok(ps, i, b.len()),
        corrected_walk(ps, i, b).1 == 0,
    ensures
        corrected_walk(ps, i, b).0 == b,
    decreases ps.len() - i, 0nat,
{
    if i >= ps.len() || ps[i as int] is Nil || ps[i as int] is Encrypted {
    } else {
        let layer = ps[i as int];
        let d = layer.data_len(b.len());
        lemma_data_len(layer, b.len());
        match layer {
            Policy::Redundancy(n) => {
                lemma_copies_len(b.len() as int, n as int);
                lemma_quiet_chunks(ps, i + 1, b, d, n as nat, n as nat);
                lemma_quiet_vote(n, b);
            },
            _ => {
                let data = b.subrange(0, d as int);
                lemma_quiet_repair(ps, i + 1, data);
                assert(data + b.subrange(d as int, b.len() as int) =~= b);
            },
        }
    }
}

/// A buffer that the checking walk finds inconsistent, and consistent
/// once the repairing walk has gone over it, makes that walk report at
/// least one error.
pub proof fn lemma_repair_is_reported(ps: Seq<Policy>, i: nat, b: Seq<u8>)
    requires
        check_ok(ps, i, b.len()),
        corrupted_walk(ps, i, b),
        !corrupted_walk(ps, i, corrected_walk(ps, i, b).0),
    ensures
        corrected_walk(ps, i, b).1 > 0,
{
    if corrected_walk(ps, i, b).1 == 0 {
        lemma_quiet_repair(ps, i, b);
    }
}

/// A byte of a column that has bit `t` set, or clear, keeps the vote on
/// that bit from being all clear, or all set.
proof fn lemma_ones_witness(col: Seq<u8>, a: int, t: u8)
    requires
        0 <= a < col.len(),
    ensures
        bit_of(col[a], t) ==> ones_in(col, t) >= 1,
        !bit_of(col[a], t) ==> ones_in(col, t) + 1 <= col.len(),
    decreases col.len(),
{
    lemma_ones_bound(col.drop_last(), t);
    if a < col.len() - 1 {
        lemma_ones_witness(col.drop_last(), a, t);
    }
}

/// The errors below a bit position include the losing side of every
/// earlier vote.
proof fn lemma_errors_include(col: Seq<u8>, t: u8, upto: u8)
    requires
        t < upto <= 8,
    ensures
        minority(col, t) <= errors_below(col, upto),
    decreases upto,
{
    if t < upto - 1 {
        lemma_errors_include(col, t, (upto - 1) as u8);
    }
}

/// The errors of the indices below `m` include those of every earlier
/// index.
proof fn lemma_vote_errors_include(b: Seq<u8>, n: nat, i: nat, m: nat)
    requires
        i < m,
    ensures
        column_errors(column(b, n, i)) <= vote_errors_below(b, n, m),
    decreases m,
{
    if i < m - 1 {
        lemma_vote_errors_include(b, n, i, (m - 1) as nat);
    }
}

/// A redundancy layer that finds its buffer inconsistent reports at least
/// one error when it repairs it.
pub proof fn lemma_vote_reports(n: u32, b: Seq<u8>)
    requires
        Policy::Redundancy(n).splits(b.len()),
        Policy::Redundancy(n).corrupted(b),
    ensures
        Policy::Redundancy(n).corrected(b).1 > 0,
{
    let len = b.len();
    let d = len / (n as nat);
    let data = b.subrange(0, d as int);
    let want = copies(data, n as nat);
    lemma_copies_len(len as int, n as int);
    lemma_copies_clean(data, n);
    if forall|p: int| 0 <= p < len ==> b[p] == want[p] {
        assert(b =~= want);
    } else {
        let p = choose|p: int| 0 <= p < len && b[p] != want[p];
        lemma_position(n as int, d as int, p);
        let i = p % (d as int);
        let c = p / (d as int);
        let col = column(b, n as nat, i as nat);
        lemma_cell(n as int, d as int, 0, i);
        assert(col[0] == b[i]);
        assert(col[c] == b[p]);
        assert(want[p] == b[i]);
        if forall|t: u8| t < 8 ==> bit_of(col[0], t) == bit_of(col[c], t) {
            lemma_bits_determine_byte(col[0], col[c]);
        } else {
            let t = choose|t: u8| t < 8 && bit_of(col[0], t) != bit_of(col[c], t);
            lemma_ones_witness(col, 0, t);
            lemma_ones_witness(col, c, t);
            lemma_ones_bound(col, t);
            lemma_errors_include(col, t, 8);
            lemma_vote_errors_include(b, n as nat, i as nat, d);
        }
    }
}

/// Under a stack whose walk ends behind a redundancy layer in slot `i`, a
/// buffer that the checking walk finds inconsistent makes the repairing
/// walk report at least one error.
pub proof fn lemma_corrupted_is_reported(ps: Seq<Policy>, i: nat, b: Seq<u8>)
    requires
        i < ps.len(),
        ps[i as int] is Redundancy,
        i + 1 == ps.len() || ps[i as int + 1] is Nil || ps[i as int + 1] is Encrypted,
        check_ok(ps, i, b.len()),
        corrupted_walk(ps, i, b),
    ensures
        corrected_walk(ps, i, b).1 > 0,
{
    let n = ps[i as int]->Redundancy_0;
    let d = b.len() / (n as nat);
    lemma_copies_len(b.len() as int, n as int);
    lemma_untouched_chunks(ps, i + 1, b, d, n as nat);
    assert(!corrupted_walk(ps, i + 1, b.subrange(0, d as int)));
    lemma_vote_reports(n, b);
}

/// A walk that ends where it starts leaves every chunk as it is.
proof fn lemma_untouched_chunks(ps: Seq<Policy>, i: nat, b: Seq<u8>, d: nat, m: nat)
    requires
        i >= ps.len() || ps[i as int] is Nil || ps[i as int] is Encrypted,
        m * d <= b.len(),
    ensures
        corrected_chunks(ps, i, b, d, m) == (b, 0nat),
    decreases m,
{
    if m > 0 && i <= ps.len() {
        assert(0 <= (m - 1) * d && (m - 1) * d + d == m * d) by (nonlinear_arith)
            requires
                m >= 1,
        ;
        lemma_untouched_chunks(ps, i, b, d, (m - 1) as nat);
        let start = (m - 1) * d;
        let chunk = b.subrange(start, start + d);
        assert(corrected_walk(ps, i, chunk) == (chunk, 0nat));
        assert(b.subrange(0, start) + chunk + b.subrange(start + d, b.len() as int) =~= b);
    }
}

/// Decryption undoes encryption: the data of the cipher's span is again
/// what it was, and the nonce stands behind it.
pub proof fn lemma_encrypt_then_decrypt(ps: Seq<Policy>, b: Seq<u8>)
    requires
        span_ok(ps, b.len()),
        first_of(ps, Policy::Encrypted, 0) is Some,
    ensures
        cipher_span(ps, b.len()) <= b.len(),
        decrypted(ps, encrypted(ps, b)) == b.subrange(0, cipher_span(ps, b.len()) - NONCE_LEN)
            + NONCE@ + b.subrange(cipher_span(ps, b.len()) as int, b.len() as int),
{
    lemma_span_within(ps, b.len());
    lemma_first_is_of_kind(ps, Policy::Encrypted, 0);
    let span = cipher_span(ps, b.len()) as int;
    let d = span - NONCE_LEN;
    let e = encrypted(ps, b);
    let data = b.subrange(0, d);
    assert(b.subrange(0, span).subrange(0, d) =~= data);
    assert(e.len() == b.len());
    assert(e.subrange(d, span) =~= NONCE@);
    lemma_xor_bytes_twice(data, aes128_ctr_keystream(KEY@, NONCE@, d as nat));
    assert(e.subrange(d, b.len() as int) =~= NONCE@ + b.subrange(span, b.len() as int));
    assert(decrypted(ps, e) =~= data + NONCE@ + b.subrange(span, b.len() as int));
}

/// Encryption undoes decryption where the fixed nonce stands behind the
/// data: a buffer that is decrypted, read and encrypted again is what it
/// was.
pub proof fn lemma_decrypt_then_encrypt(ps: Seq<Policy>, b: Seq<u8>)
    requires
        span_ok(ps, b.len()),
        first_of(ps, Policy::Encrypted, 0) is Some ==> b.subrange(
            cipher_span(ps, b.len()) - NONCE_LEN,
            cipher_span(ps, b.len()) as int,
        ) == NONCE@,
    ensures
        encrypted(ps, decrypted(ps, b)) == b,
{
    if first_of(ps, Policy::Encrypted, 0) is Some {
        lemma_span_within(ps, b.len());
        lemma_first_is_of_kind(ps, Policy::Encrypted, 0);
        let span = cipher_span(ps, b.len()) as int;
        let d = span - NONCE_LEN;
        let plain = decrypted(ps, b);
        let data = b.subrange(0, d);
        assert(plain.len() == b.len());
        assert(plain.subrange(0, span).subrange(0, d) =~= xor_bytes(
            data,
            aes128_ctr_keystream(KEY@, NONCE@, d as nat),
        ));
        lemma_xor_bytes_twice(data, aes128_ctr_keystream(KEY@, NONCE@, d as nat));
        assert(plain.subrange(span, b.len() as int) =~= b.subrange(span, b.len() as int));
        assert(encrypted(ps, plain) =~= b);
    }
}

/// The cipher's span lies within the backing buffer.
pub proof fn lemma_span_within(ps: Seq<Policy>, len: nat)
    requires
        span_ok(ps, len),
    ensures
        cipher_span(ps, len) <= len,
{
    let red = first_of(ps, Policy::Redundancy(0), 0);
    let rs = first_of(ps, Policy::ReedSolomon(0), 0);
    if red is Some {
        lemma_data_len(red->0, len);
    }
    if rs is Some {
        lemma_data_len(rs->0, peeled(red, len));
    }
}

/// Decrypting keeps the length of the backing buffer.
pub proof fn lemma_decrypted_len(ps: Seq<Policy>, b: Seq<u8>)
    requires
        span_ok(ps, b.len()),
    ensures
        decrypted(ps, b).len() == b.len(),
{
    lemma_span_within(ps, b.len());
    lemma_first_is_of_kind(ps, Policy::Encrypted, 0);
}

/// The layer that a search finds is of the kind searched for.
pub proof fn lemma_first_is_of_kind(ps: Seq<Policy>, kind: Policy, i: nat)
    ensures
        first_of(ps, kind, i) matches Some(layer) ==> same_kind(layer, kind),
    decreases ps.len() - i,
{
    if i < ps.len() && !same_kind(ps[i as int], kind) {
        lemma_first_is_of_kind(ps, kind, i + 1);
    }
}

} // verus!
