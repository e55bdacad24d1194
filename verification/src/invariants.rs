//! What holds of every state of the piece picker.
//!
//! Each operation keeps the state well formed: every piece stands where its
//! position says, every boundary is in range and the last one at the end.
//! The operations that peers cause keep each availability equal to the
//! number of stored bitfields that have the piece. Raising and lowering an
//! availability keep the boundaries a partition of the pieces.
use crate::bits::resized;
use crate::model::{
    holders, knows, peer_index, single_bit, Change, PeerView, PickerView, MAX_AVAIL, MAX_PEERS,
};
use crate::piece::{
    block_count, block_length, first_open, is_first_open, lemma_block_bounds,
    lemma_final_block_length, lemma_some_open, none_open, BlockState,
};
use vstd::prelude::*;

verus! {

/// Before any peer is known the state is well formed, no piece is
/// available, and the boundaries part the pieces by availability.
pub proof fn lemma_initial(hashes: Seq<Seq<u8>>, piece_length: nat, file_length: nat)
    requires
        forall|i: int| 0 <= i < hashes.len() ==> (#[trigger] hashes[i]).len() == 20,
        hashes.len() <= u32::MAX,
        hashes.len() <= usize::MAX / 8,
        piece_length <= u32::MAX,
        file_length <= u32::MAX,
        hashes.len() > 0 ==> (hashes.len() - 1) * piece_length < file_length <= hashes.len()
            * piece_length,
    ensures
        PickerView::initial(hashes, piece_length, file_length).wf(),
        PickerView::initial(hashes, piece_length, file_length).consistent(),
        PickerView::initial(hashes, piece_length, file_length).partitioned(),
{
}

/// In a well-formed state every piece stands where its position says, and
/// the last boundary is at the end of the order.
pub proof fn lemma_positions(v: PickerView, i: int)
    requires
        v.wf(),
        0 <= i < v.total(),
    ensures
        0 <= v.positions[i] < v.total(),
        v.pieces[v.positions[i]] == i,
        v.boundaries[MAX_AVAIL - 1] == v.total(),
{
}

/// Every piece has at least one byte and at most `piece_length`.
pub proof fn lemma_piece_sizes(v: PickerView, i: int)
    requires
        v.layout_ok(),
        0 <= i < v.total(),
    ensures
        0 < v.size_of(i) <= v.piece_length,
        i * v.piece_length + v.size_of(i) <= v.file_length,
        block_count(v.size_of(i)) >= 1,
{
    let n = v.total();
    let p = v.piece_length as int;
    assert(p > 0) by (nonlinear_arith)
        requires
            n > 0,
            p >= 0,
            (n - 1) * p < n * p,
    ;
    assert(n * p == (n - 1) * p + p) by (nonlinear_arith);
    if i + 1 < n {
        assert((i + 1) * p <= (n - 1) * p) by (nonlinear_arith)
            requires
                i + 1 <= n - 1,
                p >= 0,
        ;
        assert((i + 1) * p == i * p + p) by (nonlinear_arith);
    }
}

/// The last piece has what the pieces before it leave of the file, and its
/// last block has the remainder of that length by 16384 where that is not
/// zero, and 16384 bytes where it is.
pub proof fn lemma_last_piece(v: PickerView)
    requires
        v.layout_ok(),
        v.total() > 0,
    ensures
        v.size_of(v.total() - 1) == v.file_length - (v.total() - 1) * v.piece_length,
        block_length(
            v.size_of(v.total() - 1),
            (block_count(v.size_of(v.total() - 1)) - 1) as nat,
        ) == if v.size_of(v.total() - 1) % 16384 != 0 {
            v.size_of(v.total() - 1) % 16384
        } else {
            16384
        },
{
    lemma_piece_sizes(v, v.total() - 1);
    lemma_final_block_length(v.size_of(v.total() - 1));
}

/// Raising an availability keeps the state well formed: the two orders stay
/// inverse permutations and the boundaries in range. Only the count of
/// piece `i` changes.
pub proof fn lemma_increment_wf(v: PickerView, i: int)
    requires
        v.wf(),
        0 <= i < v.total(),
        v.counts[i] < MAX_AVAIL - 1,
    ensures
        v.increment(i).wf(),
        v.increment(i).total() == v.total(),
        v.increment(i).counts == v.counts.update(i, v.counts[i] + 1),
{
    let w = v.increment(i);
    let a = v.counts[i];
    if v.boundaries[a] != 0 {
        let b = v.boundaries[a] - 1;
        let p = v.positions[i];
        assert(v.pieces[p] == i);
        let y = v.pieces[b];
        assert(v.positions[y] == b);
        assert forall|q: int| 0 <= q < w.total() implies 0 <= #[trigger] w.pieces[q] < w.total()
            && w.positions[w.pieces[q]] == q by {
            assert(0 <= v.pieces[q] < v.total());
        }
        assert forall|j: int| 0 <= j < w.total() implies 0 <= #[trigger] w.positions[j]
            < w.total() && w.pieces[w.positions[j]] == j by {
            assert(0 <= v.positions[j] < v.total());
        }
    }
}

/// Lowering an availability keeps the state well formed, and only the
/// count of piece `i` changes.
pub proof fn lemma_decrement_wf(v: PickerView, i: int)
    requires
        v.wf(),
        0 <= i < v.total(),
    ensures
        v.decrement(i).wf(),
        v.decrement(i).total() == v.total(),
        v.decrement(i).counts == if v.counts[i] > 0 {
            v.counts.update(i, v.counts[i] - 1)
        } else {
            v.counts
        },
{
    let w = v.decrement(i);
    let a = v.counts[i] - 1;
    if a >= 0 && v.boundaries[a] < v.total() {
        let b = v.boundaries[a];
        let p = v.positions[i];
        assert(v.pieces[p] == i);
        let y = v.pieces[b];
        assert(v.positions[y] == b);
        assert forall|q: int| 0 <= q < w.total() implies 0 <= #[trigger] w.pieces[q] < w.total()
            && w.positions[w.pieces[q]] == q by {
            assert(0 <= v.pieces[q] < v.total());
        }
        assert forall|j: int| 0 <= j < w.total() implies 0 <= #[trigger] w.positions[j]
            < w.total() && w.pieces[w.positions[j]] == j by {
            assert(0 <= v.positions[j] < v.total());
        }
    } else if a >= 0 {
        assert(w.counts =~= v.counts.update(i, v.counts[i] - 1));
    } else {
        assert(v.counts[i] == 0);
    }
}

/// Moving a piece to the front keeps the state well formed and changes no
/// count.
pub proof fn lemma_prioritize_wf(v: PickerView, pos: int)
    requires
        v.wf(),
        0 <= pos < v.total(),
    ensures
        v.prioritize(pos).wf(),
        v.prioritize(pos).total() == v.total(),
        v.prioritize(pos).counts == v.counts,
        v.prioritize(pos).pieces[0] == v.pieces[pos],
{
    let w = v.prioritize(pos);
    let x = v.pieces[pos];
    assert(v.positions[x] == pos);
    assert forall|q: int| 0 <= q < w.total() implies 0 <= #[trigger] w.pieces[q] < w.total()
        && w.positions[w.pieces[q]] == q by {
        if q == 0 {
        } else if q <= pos {
            assert(0 <= v.pieces[q - 1] < v.total());
            assert(v.positions[v.pieces[q - 1]] == q - 1);
        } else {
            assert(0 <= v.pieces[q] < v.total());
            assert(v.positions[v.pieces[q]] == q);
        }
    }
    assert forall|j: int| 0 <= j < w.total() implies 0 <= #[trigger] w.positions[j] < w.total()
        && w.pieces[w.positions[j]] == j by {
        assert(0 <= v.positions[j] < v.total());
        assert(v.pieces[v.positions[j]] == j);
    }
}

/// While the boundaries part `pieces` by availability, the boundary that
/// `increment` moves is not at 0, and the boundaries part `pieces` by
/// availability afterwards too.
pub proof fn lemma_increment_partitioned(v: PickerView, i: int)
    requires
        v.wf(),
        v.partitioned(),
        0 <= i < v.total(),
        v.counts[i] < MAX_AVAIL - 1,
    ensures
        v.boundaries[v.counts[i]] > 0,
        v.increment(i).partitioned(),
{
    let w = v.increment(i);
    let a0 = v.counts[i];
    let at0 = v.positions[i];
    assert(v.pieces[at0] == i);
    assert(at0 < v.boundaries[a0]);
    let b = v.boundaries[a0] - 1;
    let y = v.pieces[b];
    lemma_increment_wf(v, i);
    assert forall|a: int, p: int| 0 <= a < MAX_AVAIL && 0 <= p < w.total() implies (p
        < #[trigger] w.boundaries[a] <==> w.counts[#[trigger] w.pieces[p]] <= a) by {
        assert(p < v.boundaries[a] <==> v.counts[v.pieces[p]] <= a);
        assert(at0 < v.boundaries[a] <==> v.counts[v.pieces[at0]] <= a);
        assert(b < v.boundaries[a] <==> v.counts[v.pieces[b]] <= a);
        assert(b < v.boundaries[a0] <==> v.counts[v.pieces[b]] <= a0);
        assert(0 <= v.pieces[p] < v.total());
        assert(v.positions[v.pieces[p]] == p);
    }
}

/// While the boundaries part `pieces` by availability, the boundary that
/// `decrement` moves is not at the end, and the boundaries part `pieces` by
/// availability afterwards too.
pub proof fn lemma_decrement_partitioned(v: PickerView, i: int)
    requires
        v.wf(),
        v.partitioned(),
        0 <= i < v.total(),
        v.counts[i] > 0,
    ensures
        v.boundaries[v.counts[i] - 1] < v.total(),
        v.decrement(i).partitioned(),
{
    let w = v.decrement(i);
    let a0 = v.counts[i] - 1;
    let at0 = v.positions[i];
    assert(v.pieces[at0] == i);
    assert(at0 < v.boundaries[a0] <==> v.counts[v.pieces[at0]] <= a0);
    let b = v.boundaries[a0];
    let y = v.pieces[b];
    lemma_decrement_wf(v, i);
    assert forall|a: int, p: int| 0 <= a < MAX_AVAIL && 0 <= p < w.total() implies (p
        < #[trigger] w.boundaries[a] <==> w.counts[#[trigger] w.pieces[p]] <= a) by {
        assert(p < v.boundaries[a] <==> v.counts[v.pieces[p]] <= a);
        assert(at0 < v.boundaries[a] <==> v.counts[v.pieces[at0]] <= a);
        assert(b < v.boundaries[a] <==> v.counts[v.pieces[b]] <= a);
        assert(b < v.boundaries[a0] <==> v.counts[v.pieces[b]] <= a0);
        assert(0 <= v.pieces[p] < v.total());
        assert(v.positions[v.pieces[p]] == p);
    }
}

/// Moving a piece to the front keeps the boundaries a partition of all the
/// positions behind the front: where they part `pieces` from `from` on
/// before, they part it from `from + 1` on after.
pub proof fn lemma_prioritize_partitioned(v: PickerView, pos: int, from: int)
    requires
        v.wf(),
        0 <= pos < v.total(),
        0 <= from,
        v.partitioned_from(from),
    ensures
        v.prioritize(pos).partitioned_from(from + 1),
{
    let w = v.prioritize(pos);
    lemma_prioritize_wf(v, pos);
    assert forall|a: int, p: int| 0 <= a < MAX_AVAIL && from + 1 <= p < w.total() implies (p
        < #[trigger] w.boundaries[a] <==> w.counts[#[trigger] w.pieces[p]] <= a) by {
        if p <= pos {
            assert(p - 1 < v.boundaries[a] <==> v.counts[v.pieces[p - 1]] <= a);
        } else {
            assert(p < v.boundaries[a] <==> v.counts[v.pieces[p]] <= a);
        }
    }
}

/// Where the boundaries part the pieces by availability, the pieces stand
/// in order of availability, the rarest first.
pub proof fn lemma_partition_sorts(v: PickerView, p: int, q: int)
    requires
        v.wf(),
        v.partitioned(),
        0 <= p <= q < v.total(),
    ensures
        v.counts[v.pieces[p]] <= v.counts[v.pieces[q]],
{
    let d = v.counts[v.pieces[q]];
    assert(0 <= v.pieces[q] < v.total());
    assert(0 <= v.pieces[p] < v.total());
    assert(q < v.boundaries[d] <==> v.counts[v.pieces[q]] <= d);
    assert(p < v.boundaries[d] <==> v.counts[v.pieces[p]] <= d);
}

/// Where the boundaries part the pieces by availability, the piece that is
/// picked for a peer is a rarest one among the pieces that the peer has and
/// that have an open block.
pub proof fn lemma_rarest_first(v: PickerView, bits: Seq<bool>, q: int)
    requires
        v.wf(),
        v.partitioned(),
        0 <= q < v.total(),
        v.eligible(bits, q),
    ensures
        v.is_first_eligible(bits, v.first_eligible(bits)),
        v.counts[v.pieces[v.first_eligible(bits)]] <= v.counts[v.pieces[q]],
{
    lemma_some_eligible(v, bits, q);
    let p = v.first_eligible(bits);
    if q < p {
        assert(!v.eligible(bits, q));
    }
    lemma_partition_sorts(v, p, q);
}

/// After any sequence of changes of availability the state is well formed,
/// and the boundaries part the pieces by availability: a piece stands
/// before boundary `a` exactly if at most `a` peers have it.
pub proof fn lemma_changes_partitioned(v: PickerView, cs: Seq<Change>)
    requires
        v.wf(),
        v.partitioned(),
        v.admits_all(cs),
    ensures
        v.changes(cs).wf(),
        v.changes(cs).partitioned(),
        v.changes(cs).boundaries[MAX_AVAIL - 1] == v.total(),
    decreases cs.len(),
{
    if cs.len() > 0 {
        lemma_changes_partitioned(v, cs.drop_last());
        let w = v.changes(cs.drop_last());
        match cs.last() {
            Change::Raise(i) => {
                lemma_increment_wf(w, i);
                lemma_increment_partitioned(w, i);
            },
            Change::Lower(i) => {
                lemma_decrement_wf(w, i);
                if w.counts[i] > 0 {
                    lemma_decrement_partitioned(w, i);
                }
            },
        }
    }
}

/// No piece is held by fewer than no peer or by more peers than there are.
pub proof fn lemma_holders_bounds(peers: Seq<PeerView>, i: int)
    ensures
        0 <= holders(peers, i) <= peers.len(),
    decreases peers.len(),
{
    if peers.len() > 0 {
        lemma_holders_bounds(peers.drop_last(), i);
    }
}

/// A peer that joins adds one holder to each piece it has.
pub proof fn lemma_holders_push(peers: Seq<PeerView>, peer: PeerView, i: int)
    ensures
        holders(peers.push(peer), i) == holders(peers, i) + if peer.bits[i] {
            1int
        } else {
            0int
        },
{
    assert(peers.push(peer).drop_last() =~= peers);
}

/// A peer that leaves takes one holder from each piece it had.
pub proof fn lemma_holders_remove(peers: Seq<PeerView>, j: int, i: int)
    requires
        0 <= j < peers.len(),
    ensures
        holders(peers.remove(j), i) == holders(peers, i) - if peers[j].bits[i] {
            1int
        } else {
            0int
        },
    decreases peers.len(),
{
    if j == peers.len() - 1 {
        assert(peers.remove(j) =~= peers.drop_last());
    } else {
        lemma_holders_remove(peers.drop_last(), j, i);
        assert(peers.remove(j).drop_last() =~= peers.drop_last().remove(j));
        assert(peers.remove(j).last() == peers.last());
    }
}

/// A peer whose bitfield changes counts by its new bitfield.
pub proof fn lemma_holders_update(peers: Seq<PeerView>, j: int, peer: PeerView, i: int)
    requires
        0 <= j < peers.len(),
    ensures
        holders(peers.update(j, peer), i) == holders(peers, i) - (if peers[j].bits[i] {
            1int
        } else {
            0int
        }) + (if peer.bits[i] {
            1int
        } else {
            0int
        }),
    decreases peers.len(),
{
    if j == peers.len() - 1 {
        assert(peers.update(j, peer).drop_last() =~= peers.drop_last());
    } else {
        lemma_holders_update(peers.drop_last(), j, peer, i);
        assert(peers.update(j, peer).drop_last() =~= peers.drop_last().update(j, peer));
    }
}

/// A peer's id finds the peer: among peers with distinct ids, the place of
/// `peers[j].id` is `j`.
pub proof fn lemma_peer_index(peers: Seq<PeerView>, j: int)
    requires
        0 <= j < peers.len(),
        forall|a: int, b: int|
            0 <= a < b < peers.len() ==> (#[trigger] peers[a]).id != (#[trigger] peers[b]).id,
    ensures
        knows(peers, peers[j].id),
        peer_index(peers, peers[j].id) == j,
{
    let k = peer_index(peers, peers[j].id);
    assert(0 <= k < peers.len() && peers[k].id == peers[j].id);
    if k < j {
        assert(peers[k].id != peers[j].id);
    } else if j < k {
        assert(peers[j].id != peers[k].id);
    }
}

/// Raising the availability of the pieces of a bitfield keeps the state
/// well formed and raises each of those counts by one.
pub proof fn lemma_increment_each(v: PickerView, bits: Seq<bool>, upto: nat)
    requires
        v.wf(),
        bits.len() == v.total(),
        upto <= v.total(),
        forall|i: int| 0 <= i < v.total() && bits[i] ==> #[trigger] v.counts[i] < MAX_AVAIL - 1,
    ensures
        v.increment_each(bits, upto).wf(),
        v.same_book(v.increment_each(bits, upto)),
        forall|i: int|
            0 <= i < v.total() ==> #[trigger] v.increment_each(bits, upto).counts[i] == v.counts[i]
                + if i < upto && bits[i] {
                1int
            } else {
                0int
            },
    decreases upto,
{
    if upto > 0 {
        let k = (upto - 1) as nat;
        lemma_increment_each(v, bits, k);
        let w = v.increment_each(bits, k);
        if bits[k as int] {
            assert(w.counts[k as int] == v.counts[k as int]);
            lemma_increment_wf(w, k as int);
        }
    }
}

/// Lowering the availability of the pieces of a bitfield keeps the state
/// well formed and lowers each of those counts by one.
pub proof fn lemma_decrement_each(v: PickerView, bits: Seq<bool>, upto: nat)
    requires
        v.wf(),
        bits.len() == v.total(),
        upto <= v.total(),
        forall|i: int| 0 <= i < v.total() && bits[i] ==> #[trigger] v.counts[i] > 0,
    ensures
        v.decrement_each(bits, upto).wf(),
        v.same_book(v.decrement_each(bits, upto)),
        forall|i: int|
            0 <= i < v.total() ==> #[trigger] v.decrement_each(bits, upto).counts[i] == v.counts[i]
                - if i < upto && bits[i] {
                1int
            } else {
                0int
            },
    decreases upto,
{
    if upto > 0 {
        let k = (upto - 1) as nat;
        lemma_decrement_each(v, bits, k);
        let w = v.decrement_each(bits, k);
        if bits[k as int] {
            assert(w.counts[k as int] == v.counts[k as int]);
            lemma_decrement_wf(w, k as int);
        }
    }
}

/// Raising the availability of the pieces of a bitfield keeps the
/// boundaries a partition of the pieces.
pub proof fn lemma_increment_each_partitioned(v: PickerView, bits: Seq<bool>, upto: nat)
    requires
        v.wf(),
        v.partitioned(),
        bits.len() == v.total(),
        upto <= v.total(),
        forall|i: int| 0 <= i < v.total() && bits[i] ==> #[trigger] v.counts[i] < MAX_AVAIL - 1,
    ensures
        v.increment_each(bits, upto).partitioned(),
    decreases upto,
{
    if upto > 0 {
        let k = (upto - 1) as nat;
        lemma_increment_each_partitioned(v, bits, k);
        lemma_increment_each(v, bits, k);
        let w = v.increment_each(bits, k);
        if bits[k as int] {
            assert(w.counts[k as int] == v.counts[k as int]);
            lemma_increment_partitioned(w, k as int);
        }
    }
}

/// Lowering the availability of the pieces of a bitfield keeps the
/// boundaries a partition of the pieces.
pub proof fn lemma_decrement_each_partitioned(v: PickerView, bits: Seq<bool>, upto: nat)
    requires
        v.wf(),
        v.partitioned(),
        bits.len() == v.total(),
        upto <= v.total(),
        forall|i: int| 0 <= i < v.total() && bits[i] ==> #[trigger] v.counts[i] > 0,
    ensures
        v.decrement_each(bits, upto).partitioned(),
    decreases upto,
{
    if upto > 0 {
        let k = (upto - 1) as nat;
        lemma_decrement_each_partitioned(v, bits, k);
        lemma_decrement_each(v, bits, k);
        let w = v.decrement_each(bits, k);
        if bits[k as int] {
            assert(w.counts[k as int] == v.counts[k as int]);
            lemma_decrement_partitioned(w, k as int);
        }
    }
}

/// A peer that joins leaves the state well formed, and each availability
/// the number of peers that have the piece.
pub proof fn lemma_with_peer(v: PickerView, id: Seq<u8>, bits: Seq<bool>)
    requires
        v.wf(),
        v.consistent(),
        bits.len() == v.total(),
        !knows(v.peers, id),
        v.peers.len() < MAX_PEERS,
    ensures
        v.with_peer(id, bits).wf(),
        v.with_peer(id, bits).consistent(),
{
    let n = v.total() as nat;
    assert forall|i: int| 0 <= i < v.total() && bits[i] implies #[trigger] v.counts[i] < MAX_AVAIL
        - 1 by {
        lemma_holders_bounds(v.peers, i);
    }
    lemma_increment_each(v, bits, n);
    let u = v.increment_each(bits, n);
    let w = v.with_peer(id, bits);
    let peer = PeerView { id, bits };
    assert(w.peers_ok()) by {
        assert forall|j: int, k: int| 0 <= j < k < w.peers.len() implies (#[trigger] w.peers[j]).id
            != (#[trigger] w.peers[k]).id by {
            if k == v.peers.len() {
                assert(v.peers[j].id != id);
            }
        }
    }
    assert(w.progress_ok());
    assert forall|i: int| 0 <= i < w.total() implies #[trigger] w.counts[i] == holders(
        w.peers,
        i,
    ) by {
        lemma_holders_push(v.peers, peer, i);
        assert(u.counts[i] == v.counts[i] + if i < n && bits[i] {
            1int
        } else {
            0int
        });
    }
}

/// A peer that leaves leaves the state well formed, and each availability
/// the number of peers that have the piece.
pub proof fn lemma_without_peer(v: PickerView, j: int)
    requires
        v.wf(),
        v.consistent(),
        0 <= j < v.peers.len(),
    ensures
        v.without_peer(j).wf(),
        v.without_peer(j).consistent(),
        v.without_peer(j).peers.len() == v.peers.len() - 1,
        v.without_peer(j).total() == v.total(),
        !knows(v.without_peer(j).peers, v.peers[j].id),
{
    let n = v.total() as nat;
    let bits = v.peers[j].bits;
    assert forall|i: int| 0 <= i < v.total() && bits[i] implies #[trigger] v.counts[i] > 0 by {
        lemma_holders_remove(v.peers, j, i);
        lemma_holders_bounds(v.peers.remove(j), i);
    }
    lemma_decrement_each(v, bits, n);
    let u = v.decrement_each(bits, n);
    let w = v.without_peer(j);
    assert forall|k: int| 0 <= k < w.peers.len() implies (#[trigger] w.peers[k]).id
        != v.peers[j].id && w.peers[k].bits.len() == w.total() by {
        if k < j {
            assert(w.peers[k] == v.peers[k]);
        } else {
            assert(w.peers[k] == v.peers[k + 1]);
        }
    }
    assert(w.peers_ok()) by {
        assert forall|a: int, b: int| 0 <= a < b < w.peers.len() implies (#[trigger] w.peers[a]).id
            != (#[trigger] w.peers[b]).id by {
            let a0 = if a < j {
                a
            } else {
                a + 1
            };
            let b0 = if b < j {
                b
            } else {
                b + 1
            };
            assert(w.peers[a] == v.peers[a0]);
            assert(w.peers[b] == v.peers[b0]);
        }
    }
    assert(w.progress_ok());
    assert forall|i: int| 0 <= i < w.total() implies #[trigger] w.counts[i] == holders(
        w.peers,
        i,
    ) by {
        lemma_holders_remove(v.peers, j, i);
        assert(u.counts[i] == v.counts[i] - if i < n && bits[i] {
            1int
        } else {
            0int
        });
    }
}

/// After any bitfield from any peer the state is well formed, and each
/// piece's availability is the number of stored bitfields that have it.
pub proof fn lemma_register(v: PickerView, id: Seq<u8>, raw: Seq<bool>)
    requires
        v.wf(),
        v.consistent(),
    ensures
        v.register(id, raw).wf(),
        v.register(id, raw).consistent(),
{
    let bits = resized(raw, v.total() as nat, false);
    if knows(v.peers, id) {
        let j = peer_index(v.peers, id);
        lemma_without_peer(v, j);
        lemma_with_peer(v.without_peer(j), id, bits);
    } else if v.peers.len() < MAX_PEERS {
        lemma_with_peer(v, id, bits);
    }
}

/// After a peer has left the state is well formed, and each piece's
/// availability is the number of stored bitfields that have it.
pub proof fn lemma_remove_peer(v: PickerView, id: Seq<u8>)
    requires
        v.wf(),
        v.consistent(),
    ensures
        v.remove_peer(id).wf(),
        v.remove_peer(id).consistent(),
{
    if knows(v.peers, id) {
        lemma_without_peer(v, peer_index(v.peers, id));
    }
}

/// After any `have` from any peer the state is well formed, and each
/// piece's availability is the number of stored bitfields that have it.
pub proof fn lemma_have(v: PickerView, id: Seq<u8>, i: int)
    requires
        v.wf(),
        v.consistent(),
    ensures
        v.have(id, i).wf(),
        v.have(id, i).consistent(),
{
    if 0 <= i < v.total() {
        if knows(v.peers, id) {
            let j = peer_index(v.peers, id);
            assert(0 <= j < v.peers.len());
            assert(v.peers[j].bits.len() == v.total());
            if !v.peers[j].bits[i] {
                let peer = PeerView { id: v.peers[j].id, bits: v.peers[j].bits.update(i, true) };
                let w = v.have(id, i);
                lemma_holders_update(v.peers, j, peer, i);
                lemma_holders_bounds(v.peers.update(j, peer), i);
                assert(v.counts[i] == holders(v.peers, i));
                assert(v.counts[i] < MAX_AVAIL - 1);
                lemma_increment_wf(v, i);
                assert(w.counts == v.counts.update(i, v.counts[i] + 1));
                assert(w.peers_ok()) by {
                    assert forall|a: int, b: int| 0 <= a < b < w.peers.len() implies (
                    #[trigger] w.peers[a]).id != (#[trigger] w.peers[b]).id by {
                        assert(w.peers[a].id == v.peers[a].id);
                        assert(w.peers[b].id == v.peers[b].id);
                    }
                    assert forall|k: int| 0 <= k < w.peers.len() implies (
                    #[trigger] w.peers[k]).bits.len() == w.total() by {
                        assert(v.peers[k].bits.len() == v.total());
                    }
                }
                assert(w.progress_ok());
                assert forall|k: int| 0 <= k < w.total() implies #[trigger] w.counts[k] == holders(
                    w.peers,
                    k,
                ) by {
                    lemma_holders_update(v.peers, j, peer, k);
                }
            }
        } else if v.peers.len() < MAX_PEERS {
            lemma_with_peer(v, id, single_bit(v.total() as nat, i));
        }
    }
}

/// While no piece was moved to the front, bitfields, `have`s and peers
/// that leave keep the boundaries a partition of the pieces.
pub proof fn lemma_peers_keep_partition(v: PickerView, id: Seq<u8>, raw: Seq<bool>, i: int)
    requires
        v.wf(),
        v.consistent(),
        v.partitioned(),
    ensures
        v.register(id, raw).partitioned(),
        v.have(id, i).partitioned(),
        v.remove_peer(id).partitioned(),
{
    let n = v.total() as nat;
    if knows(v.peers, id) {
        let j = peer_index(v.peers, id);
        let old_bits = v.peers[j].bits;
        assert forall|k: int| 0 <= k < v.total() && old_bits[k] implies #[trigger] v.counts[k]
            > 0 by {
            lemma_holders_remove(v.peers, j, k);
            lemma_holders_bounds(v.peers.remove(j), k);
        }
        lemma_decrement_each_partitioned(v, old_bits, n);
        lemma_without_peer(v, j);
        let u = v.without_peer(j);
        let bits = resized(raw, n, false);
        assert forall|k: int| 0 <= k < u.total() && bits[k] implies #[trigger] u.counts[k]
            < MAX_AVAIL - 1 by {
            lemma_holders_bounds(u.peers, k);
        }
        lemma_increment_each_partitioned(u, bits, n);
        if 0 <= i < v.total() && !v.peers[j].bits[i] {
            let peer = PeerView { id: v.peers[j].id, bits: v.peers[j].bits.update(i, true) };
            lemma_holders_update(v.peers, j, peer, i);
            lemma_holders_bounds(v.peers.update(j, peer), i);
            lemma_increment_partitioned(v, i);
        }
    } else if v.peers.len() < MAX_PEERS {
        assert forall|k: int| 0 <= k < v.total() implies #[trigger] v.counts[k] < MAX_AVAIL
            - 1 by {
            lemma_holders_bounds(v.peers, k);
        }
        lemma_increment_each_partitioned(v, resized(raw, n, false), n);
        if 0 <= i < v.total() {
            lemma_increment_each_partitioned(v, single_bit(n, i), n);
        }
    }
}

/// Bits past the last piece do not count: two bitfields that agree on the
/// bits of the pieces register alike.
pub proof fn lemma_register_cuts_tail(v: PickerView, id: Seq<u8>, raw: Seq<bool>, other: Seq<bool>)
    requires
        forall|i: int|
            0 <= i < v.total() ==> (i < raw.len() && raw[i]) == (i < other.len() && other[i]),
    ensures
        v.register(id, raw) == v.register(id, other),
{
    assert(resized(raw, v.total() as nat, false) =~= resized(other, v.total() as nat, false));
}

/// A piece announced twice by one peer counts once: the second `have`
/// changes nothing.
pub proof fn lemma_have_twice(v: PickerView, id: Seq<u8>, i: int)
    requires
        v.wf(),
        v.consistent(),
    ensures
        v.have(id, i).have(id, i) == v.have(id, i),
{
    let w = v.have(id, i);
    if 0 <= i < v.total() {
        if knows(v.peers, id) {
            let j = peer_index(v.peers, id);
            assert(0 <= j < v.peers.len());
            if !v.peers[j].bits[i] {
                lemma_have(v, id, i);
                assert(w.peers[j].id == id);
                lemma_peer_index(w.peers, j);
            }
        } else if v.peers.len() < MAX_PEERS {
            lemma_have(v, id, i);
            let j = v.peers.len() as int;
            assert(w.peers[j].id == id);
            lemma_peer_index(w.peers, j);
        }
    }
}

/// There is at most one first position that can be asked of a peer.
pub proof fn lemma_first_eligible(v: PickerView, bits: Seq<bool>, p: int)
    requires
        v.is_first_eligible(bits, p),
    ensures
        v.first_eligible(bits) == p,
        !v.none_eligible(bits),
{
    let c = v.first_eligible(bits);
    assert(v.is_first_eligible(bits, c));
    if c < p {
        assert(!v.eligible(bits, c));
    } else if p < c {
        assert(!v.eligible(bits, p));
    }
}

/// Where position `q` can be asked of the peer, one position up to `q` is
/// the first that can.
proof fn lemma_some_eligible(v: PickerView, bits: Seq<bool>, q: int)
    requires
        0 <= q < v.total(),
        v.eligible(bits, q),
    ensures
        v.is_first_eligible(bits, v.first_eligible(bits)),
    decreases q,
{
    if forall|r: int| 0 <= r < q ==> !v.eligible(bits, r) {
        assert(v.is_first_eligible(bits, q));
    } else {
        let r = choose|r: int| 0 <= r < q && v.eligible(bits, r);
        lemma_some_eligible(v, bits, r);
    }
}

/// Marking a block requested keeps the state well formed and changes no
/// availability.
pub proof fn lemma_request_at(v: PickerView, p: int)
    requires
        v.wf(),
        0 <= p < v.total(),
        !none_open(v.states_of(v.pieces[p])),
    ensures
        v.request_at(p).wf(),
        v.request_at(p).counts == v.counts,
        v.request_at(p).peers == v.peers,
        v.request_at(p).pieces == v.pieces,
        v.request_at(p).boundaries == v.boundaries,
        is_first_open(v.states_of(v.pieces[p]), first_open(v.states_of(v.pieces[p]))),
{
    let w = v.request_at(p);
    let x = v.pieces[p];
    assert(0 <= x < v.total());
    lemma_some_open(v.states_of(x));
    assert forall|i: u32| #[trigger] w.requested.contains_key(i) implies i < w.total()
        && w.requested[i].len() == block_count(w.size_of(i as int)) by {
        if i != x as u32 {
            assert(v.requested.contains_key(i));
        }
    }
    assert forall|i: u32| i < w.total() implies (#[trigger] w.active[i as int]
        <==> w.requested.contains_key(i)) by {
        assert(v.active[i as int] <==> v.requested.contains_key(i));
    }
    assert forall|i: u32| #[trigger] w.received.contains_key(i) implies i < w.total()
        && w.received[i].len() == block_count(w.size_of(i as int)) by {
        assert(v.received.contains_key(i));
    }
}

/// Picking a piece keeps the state well formed and changes no availability
/// and no bitfield.
pub proof fn lemma_pick_at(v: PickerView, p: int)
    requires
        v.wf(),
        0 <= p < v.total(),
        !none_open(v.states_of(v.pieces[p])),
    ensures
        v.pick_at(p).wf(),
        v.pick_at(p).counts == v.counts,
        v.pick_at(p).peers == v.peers,
        v.pick_at(p).total() == v.total(),
        v.consistent() ==> v.pick_at(p).consistent(),
{
    lemma_request_at(v, p);
    lemma_prioritize_wf(v.request_at(p), p);
}

/// After any request for a block the state is well formed, and each
/// availability still the number of peers that have the piece.
pub proof fn lemma_pick(v: PickerView, id: Seq<u8>)
    requires
        v.wf(),
        v.consistent(),
    ensures
        v.pick(id).0.wf(),
        v.pick(id).0.consistent(),
        v.pick(id).0.peers == v.peers,
        v.pick(id).0.counts == v.counts,
{
    if knows(v.peers, id) {
        let bits = v.peers[peer_index(v.peers, id)].bits;
        if !v.none_eligible(bits) {
            let q = choose|q: int| 0 <= q < v.total() && v.eligible(bits, q);
            lemma_some_eligible(v, bits, q);
            let p = v.first_eligible(bits);
            lemma_pick_at(v, p);
        }
    }
}

/// A block that is handed out was open, is a block of a piece that the peer
/// has, lies within that piece, and is requested afterwards, so that it is
/// not handed out again while it stays so.
pub proof fn lemma_picked_block(v: PickerView, id: Seq<u8>)
    requires
        v.wf(),
        v.consistent(),
        v.pick(id).1 is Some,
    ensures
        ({
            let block = v.pick(id).1->0;
            let after = v.pick(id).0;
            let k = block.begin as int / 16384;
            &&& knows(v.peers, id)
            &&& block.piece_index < v.total()
            &&& v.peers[peer_index(v.peers, id)].bits[block.piece_index as int]
            &&& 0 <= k < v.states_of(block.piece_index as int).len()
            &&& block.begin == k * 16384
            &&& block.length == block_length(v.size_of(block.piece_index as int), k as nat)
            &&& block.begin + block.length <= v.size_of(block.piece_index as int)
            &&& v.states_of(block.piece_index as int)[k] == BlockState::Open
            &&& after.requested.contains_key(block.piece_index)
            &&& after.requested[block.piece_index][k] == BlockState::Requested
            &&& after.pieces[0] == block.piece_index
        }),
{
    let bits = v.peers[peer_index(v.peers, id)].bits;
    let q = choose|q: int| 0 <= q < v.total() && v.eligible(bits, q);
    lemma_some_eligible(v, bits, q);
    let p = v.first_eligible(bits);
    let x = v.pieces[p];
    assert(0 <= x < v.total());
    lemma_request_at(v, p);
    let k = first_open(v.states_of(x));
    lemma_piece_sizes(v, x);
    assert(v.states_of(x).len() == block_count(v.size_of(x)));
    lemma_block_bounds(v.size_of(x), k as nat);
    lemma_prioritize_wf(v.request_at(p), p);
}

/// After any number of requests for a block the state is well formed, each
/// availability still the number of peers that have the piece, and there is
/// one answer for each request.
pub proof fn lemma_pick_many(v: PickerView, id: Seq<u8>, n: nat)
    requires
        v.wf(),
        v.consistent(),
    ensures
        v.pick_many(id, n).0.wf(),
        v.pick_many(id, n).0.consistent(),
        v.pick_many(id, n).1.len() == n,
    decreases n,
{
    if n > 0 {
        lemma_pick_many(v, id, (n - 1) as nat);
        lemma_pick(v.pick_many(id, (n - 1) as nat).0, id);
    }
}

/// After any block the state is well formed, and no availability has
/// changed.
pub proof fn lemma_deposit(v: PickerView, piece: u32, begin: u32, data: Seq<u8>)
    requires
        v.wf(),
    ensures
        v.deposit(piece, begin, data).wf(),
        v.deposit(piece, begin, data).counts == v.counts,
        v.deposit(piece, begin, data).peers == v.peers,
        v.deposit(piece, begin, data).pieces == v.pieces,
        v.deposit(piece, begin, data).boundaries == v.boundaries,
        v.consistent() ==> v.deposit(piece, begin, data).consistent(),
{
    let w = v.deposit(piece, begin, data);
    if piece < v.total() {
        assert forall|i: u32| #[trigger] w.requested.contains_key(i) implies i < w.total()
            && w.requested[i].len() == block_count(w.size_of(i as int)) by {
            assert(v.requested.contains_key(i));
        }
        assert forall|i: u32| i < w.total() implies (#[trigger] w.active[i as int]
            <==> w.requested.contains_key(i)) by {
            assert(v.active[i as int] <==> v.requested.contains_key(i));
        }
        assert forall|i: u32| #[trigger] w.received.contains_key(i) implies i < w.total()
            && w.received[i].len() == block_count(w.size_of(i as int)) by {
            if i != piece {
                assert(v.received.contains_key(i));
            } else if v.received.contains_key(i) {
            }
        }
    }
}

} // verus!
