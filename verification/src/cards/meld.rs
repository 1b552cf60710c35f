//! The meld engine: `SetMeld` and `Run` validation, formation and layoff, and
//! the `Meld` wrapper with atomic multi-meld formation.

use vstd::prelude::*;
use vstd::multiset::Multiset;

use crate::cards::card::{sort_cards_by_value, sorted_by_value, Card};
use crate::cards::suit_rank::{Rank, Suit};

verus! {

broadcast use
    vstd::seq_lib::group_to_multiset_ensures,
    vstd::seq_lib::group_filter_ensures,
    vstd::multiset::group_multiset_axioms,
;

/// Potential errors from a meld.
#[derive(Debug, PartialEq, Eq)]
pub enum MeldError {
    /// Fewer card indices than a meld needs were supplied.
    InsufficientCards { provided: usize, minimum: usize },
    /// A given card index is out of bounds, or repeated.
    InvalidCardIndex,
    /// A card index appears more than once.
    DuplicateCardIndex,
    /// The cards do not form a valid set.
    InvalidSet,
    /// The cards do not form a valid run.
    InvalidRun,
    /// A meld cannot be formed from wildcards alone.
    OnlyWildcards,
    /// The card cannot be laid off on the targeted meld.
    InvalidLayoff,
    /// The cards are aligned for a run, but its gaps need more wildcards
    /// than were supplied.
    InsufficientWildcards,
    /// One of several simultaneously formed melds failed.
    FailedMultipleMelds { meld_index: usize, err: Box<MeldError> },
}

/// The type of index which caused a `MeldError`.
#[derive(Debug, Clone, Copy, PartialEq, Eq, Structural)]
pub enum MeldErrorIndexType {
    Card,
    Meld,
    Player,
}

/// The non-wildcard cards of `s`, in order.
pub open spec fn nonwilds(s: Seq<Card>) -> Seq<Card> {
    s.filter(|c: Card| !c.spec_is_wildcard())
}

/// The wildcard cards of `s`, in order.
pub open spec fn wilds(s: Seq<Card>) -> Seq<Card> {
    s.filter(|c: Card| c.spec_is_wildcard())
}

/// Whether every index points into a hand of length `len`.
pub open spec fn indices_in_bounds(idx: Seq<usize>, len: int) -> bool {
    forall|k: int| 0 <= k < idx.len() ==> idx[k] < len
}

/// Whether no index repeats.
pub open spec fn indices_distinct(idx: Seq<usize>) -> bool {
    forall|a: int, b: int| 0 <= a < b < idx.len() ==> idx[a] != idx[b]
}

/// The cards of `hand` selected by `idx`, in the order the indices were
/// given.
pub open spec fn chosen_cards(hand: Seq<Card>, idx: Seq<usize>) -> Seq<Card> {
    idx.map_values(|i: usize| hand[i as int])
}

/// `hand` with the positions listed in `idx` removed, the others keeping
/// their relative order. Positions at or after `from` are considered.
pub open spec fn remove_positions_from(hand: Seq<Card>, idx: Seq<usize>, from: int) -> Seq<Card>
    decreases hand.len() - from,
{
    if from < 0 || from >= hand.len() {
        Seq::empty()
    } else {
        let rest = remove_positions_from(hand, idx, from + 1);
        if idx.contains(from as usize) {
            rest
        } else {
            seq![hand[from]] + rest
        }
    }
}

/// `hand` with the positions listed in `idx` removed, the others keeping
/// their relative order.
pub open spec fn remove_positions(hand: Seq<Card>, idx: Seq<usize>) -> Seq<Card> {
    remove_positions_from(hand, idx, 0)
}

/// The cards of `hand` at the positions listed in `idx`, in ascending
/// position order. Positions at or after `from` are considered.
pub open spec fn taken_positions_from(hand: Seq<Card>, idx: Seq<usize>, from: int) -> Seq<Card>
    decreases hand.len() - from,
{
    if from < 0 || from >= hand.len() {
        Seq::empty()
    } else {
        let rest = taken_positions_from(hand, idx, from + 1);
        if idx.contains(from as usize) {
            seq![hand[from]] + rest
        } else {
            rest
        }
    }
}

/// Removing and taking the positions of `idx` splits `hand` exactly: both
/// parts together hold every card of `hand`, with its multiplicity.
pub proof fn lemma_remove_taken_partition(hand: Seq<Card>, idx: Seq<usize>, from: int)
    requires
        0 <= from <= hand.len(),
    ensures
        remove_positions_from(hand, idx, from).to_multiset().add(
            taken_positions_from(hand, idx, from).to_multiset(),
        ) =~= hand.skip(from).to_multiset(),
        remove_positions_from(hand, idx, from).len() + taken_positions_from(hand, idx, from).len()
            == hand.len() - from,
    decreases hand.len() - from,
{
    if from >= hand.len() {
        assert(hand.skip(from) =~= Seq::<Card>::empty());
    } else {
        lemma_remove_taken_partition(hand, idx, from + 1);
        let r = remove_positions_from(hand, idx, from);
        let t = taken_positions_from(hand, idx, from);
        let r1 = remove_positions_from(hand, idx, from + 1);
        let t1 = taken_positions_from(hand, idx, from + 1);
        assert(hand.skip(from) =~= seq![hand[from]] + hand.skip(from + 1));
        vstd::seq_lib::lemma_multiset_commutative(seq![hand[from]], hand.skip(from + 1));
        assert(seq![hand[from]].to_multiset() =~= Multiset::<Card>::empty().insert(hand[from]));
        if idx.contains(from as usize) {
            vstd::seq_lib::lemma_multiset_commutative(seq![hand[from]], t1);
        } else {
            vstd::seq_lib::lemma_multiset_commutative(seq![hand[from]], r1);
        }
    }
}

/// When the indices are distinct and in bounds, the cards taken by position
/// are, as a multiset, exactly the chosen cards.
pub proof fn lemma_taken_is_chosen(hand: Seq<Card>, idx: Seq<usize>)
    requires
        hand.len() <= usize::MAX,
        indices_distinct(idx),
        indices_in_bounds(idx, hand.len() as int),
    ensures
        taken_positions_from(hand, idx, 0).to_multiset() =~= chosen_cards(hand, idx).to_multiset(),
        taken_positions_from(hand, idx, 0).len() == idx.len(),
    decreases hand.len(),
{
    let p = hand.len() - 1;
    if hand.len() == 0 {
        assert(idx.len() == 0) by {
            if idx.len() > 0 {
                assert(idx[0] < 0);
            }
        }
        assert(chosen_cards(hand, idx) =~= Seq::<Card>::empty());
    } else {
        lemma_taken_truncate(hand, idx, 0);
        let h1 = hand.take(p);
        assert(h1.len() == p);
        if idx.contains(p as usize) {
            assert(exists|k: int| 0 <= k < idx.len() && idx[k] == p as usize);
            let j = choose|k: int| 0 <= k < idx.len() && idx[k] == p as usize;
            assert(0 <= j < idx.len() && idx[j] == p as usize);
            let idx1 = idx.remove(j);
            lemma_distinct_remove_membership(idx, j);
            assert forall|v: usize| v < h1.len() implies (idx1.contains(v) == idx.contains(v)) by {
                assert(v != idx[j]);
                assert(idx.remove(j).contains(v) == idx.contains(v));
            }
            lemma_taken_same_membership(h1, idx, idx1, 0);
            lemma_taken_is_chosen(h1, idx1);
            assert(chosen_cards(h1, idx1) =~= chosen_cards(hand, idx).remove(j)) by {
                assert forall|k: int| 0 <= k < idx1.len() implies chosen_cards(h1, idx1)[k]
                    == chosen_cards(hand, idx).remove(j)[k] by {
                    let i1 = idx1[k];
                    if k < j {
                        assert(idx1[k] == idx[k]);
                        assert(idx[k] != idx[j]);
                    } else {
                        assert(idx1[k] == idx[k + 1]);
                        assert(idx[j] != idx[k + 1]);
                    }
                    assert(i1 != p as usize);
                    assert(i1 < hand.len());
                    assert(h1[i1 as int] == hand[i1 as int]);
                }
            }
            assert(chosen_cards(hand, idx)[j] == hand[p]);
            assert(chosen_cards(hand, idx).remove(j).to_multiset() =~= chosen_cards(
                hand,
                idx,
            ).to_multiset().remove(hand[p]));
            assert(chosen_cards(hand, idx).to_multiset().count(hand[p]) > 0) by {
                assert(chosen_cards(hand, idx)[j] == hand[p]);
            }
        } else {
            assert forall|v: usize| v < h1.len() implies (idx.contains(v) == idx.contains(v)) by {}
            lemma_taken_is_chosen(h1, idx);
            assert(chosen_cards(h1, idx) =~= chosen_cards(hand, idx)) by {
                assert forall|k: int| 0 <= k < idx.len() implies chosen_cards(h1, idx)[k]
                    == chosen_cards(hand, idx)[k] by {
                    let i1 = idx[k];
                    assert(i1 < hand.len());
                    assert(i1 != p as usize);
                    assert(h1[i1 as int] == hand[i1 as int]);
                }
            }
        }
    }
}

/// Taking positions from a hand truncated before its last card is the same
/// as taking from the full hand, minus that last card if it was selected.
proof fn lemma_taken_truncate(hand: Seq<Card>, idx: Seq<usize>, from: int)
    requires
        0 <= from < hand.len(),
    ensures
        taken_positions_from(hand, idx, from) == if idx.contains((hand.len() - 1) as usize) {
            taken_positions_from(hand.take(hand.len() - 1), idx, from).push(hand.last())
        } else {
            taken_positions_from(hand.take(hand.len() - 1), idx, from)
        },
    decreases hand.len() - from,
{
    let p = hand.len() - 1;
    let h1 = hand.take(p);
    if from == p {
        assert(taken_positions_from(hand, idx, from + 1) =~= Seq::<Card>::empty());
        assert(taken_positions_from(h1, idx, from) =~= Seq::<Card>::empty());
        if idx.contains(p as usize) {
            assert(taken_positions_from(hand, idx, from) =~= Seq::<Card>::empty().push(
                hand.last(),
            ));
        }
    } else {
        lemma_taken_truncate(hand, idx, from + 1);
        assert(h1[from] == hand[from]);
        if idx.contains(from as usize) {
            if idx.contains(p as usize) {
                assert(taken_positions_from(hand, idx, from) =~= seq![hand[from]]
                    + taken_positions_from(h1, idx, from + 1).push(hand.last()));
                assert((seq![hand[from]] + taken_positions_from(h1, idx, from + 1)).push(
                    hand.last(),
                ) =~= seq![hand[from]] + taken_positions_from(h1, idx, from + 1).push(
                    hand.last(),
                ));
            }
        }
    }
}

/// Two index lists with the same membership below the hand's length take
/// and keep the same cards.
proof fn lemma_taken_same_membership(hand: Seq<Card>, idx1: Seq<usize>, idx2: Seq<usize>, from: int)
    requires
        forall|v: usize| v < hand.len() ==> (idx1.contains(v) == idx2.contains(v)),
    ensures
        taken_positions_from(hand, idx1, from) == taken_positions_from(hand, idx2, from),
        remove_positions_from(hand, idx1, from) == remove_positions_from(hand, idx2, from),
    decreases hand.len() - from,
{
    if 0 <= from < hand.len() {
        lemma_taken_same_membership(hand, idx1, idx2, from + 1);
        assert(idx1.contains(from as usize) == idx2.contains(from as usize));
    }
}

/// Removing one entry of a distinct index list removes exactly that value's
/// membership.
proof fn lemma_distinct_remove_membership(idx: Seq<usize>, j: int)
    requires
        indices_distinct(idx),
        0 <= j < idx.len(),
    ensures
        indices_distinct(idx.remove(j)),
        forall|v: usize| v != idx[j] ==> (#[trigger] idx.remove(j).contains(v)) == idx.contains(v),
        !idx.remove(j).contains(idx[j]),
{
    let idx1 = idx.remove(j);
    assert forall|a: int, b: int| 0 <= a < b < idx1.len() implies idx1[a] != idx1[b] by {
        let a0 = if a < j {
            a
        } else {
            a + 1
        };
        let b0 = if b < j {
            b
        } else {
            b + 1
        };
        assert(idx1[a] == idx[a0] && idx1[b] == idx[b0]);
    }
    assert forall|v: usize| v != idx[j] implies (#[trigger] idx1.contains(v)) == idx.contains(
        v,
    ) by {
        if idx1.contains(v) {
            let k = choose|k: int| 0 <= k < idx1.len() && idx1[k] == v;
            let k0 = if k < j {
                k
            } else {
                k + 1
            };
            assert(idx[k0] == v);
        }
        if idx.contains(v) {
            let k = choose|k: int| 0 <= k < idx.len() && idx[k] == v;
            assert(k != j);
            let k1 = if k < j {
                k
            } else {
                k - 1
            };
            assert(idx1[k1] == v);
        }
    }
    if idx1.contains(idx[j]) {
        let k = choose|k: int| 0 <= k < idx1.len() && idx1[k] == idx[j];
        let k0 = if k < j {
            k
        } else {
            k + 1
        };
        assert(idx[k0] == idx[j] && k0 != j);
    }
}

/// Forming a meld conserves cards: the kept hand plus the chosen cards are
/// exactly the original hand, as multisets.
pub proof fn lemma_selection_conserves(hand: Seq<Card>, idx: Seq<usize>)
    requires
        hand.len() <= usize::MAX,
        indices_distinct(idx),
        indices_in_bounds(idx, hand.len() as int),
    ensures
        remove_positions(hand, idx).to_multiset().add(chosen_cards(hand, idx).to_multiset())
            =~= hand.to_multiset(),
        remove_positions(hand, idx).len() + idx.len() == hand.len(),
{
    lemma_remove_taken_partition(hand, idx, 0);
    lemma_taken_is_chosen(hand, idx);
    assert(hand.skip(0) =~= hand);
    let r = remove_positions(hand, idx).to_multiset();
    let t = taken_positions_from(hand, idx, 0).to_multiset();
    let c = chosen_cards(hand, idx).to_multiset();
    assert(r.add(t) =~= hand.to_multiset());
    assert(r.add(c) =~= r.add(t));
    assert(remove_positions(hand, idx).len() + t.len() == hand.len());
}


/// The position of the first non-wildcard card of `s` (its length if every
/// card is wild).
pub open spec fn first_nonwild_index(s: Seq<Card>) -> int
    decreases s.len(),
{
    if s.len() == 0 {
        0
    } else if !s[0].spec_is_wildcard() {
        0
    } else {
        1 + first_nonwild_index(s.skip(1))
    }
}

/// The position of the first wildcard card of `s` (its length if no card is
/// wild).
pub open spec fn first_wild_index(s: Seq<Card>) -> int
    decreases s.len(),
{
    if s.len() == 0 {
        0
    } else if s[0].spec_is_wildcard() {
        0
    } else {
        1 + first_wild_index(s.skip(1))
    }
}

/// `first_nonwild_index` names the position of the first card that is not a
/// wildcard.
pub proof fn lemma_first_nonwild_index_of(s: Seq<Card>, k: int)
    requires
        0 <= k < s.len(),
        forall|i: int| 0 <= i < k ==> s[i].spec_is_wildcard(),
        !s[k].spec_is_wildcard(),
    ensures
        first_nonwild_index(s) == k,
    decreases k,
{
    if k > 0 {
        lemma_first_nonwild_index_of(s.skip(1), k - 1);
    }
}

/// `first_wild_index` names the position of the first wildcard.
pub proof fn lemma_first_wild_index_of(s: Seq<Card>, k: int)
    requires
        0 <= k < s.len(),
        forall|i: int| 0 <= i < k ==> !s[i].spec_is_wildcard(),
        s[k].spec_is_wildcard(),
    ensures
        first_wild_index(s) == k,
    decreases k,
{
    if k > 0 {
        lemma_first_wild_index_of(s.skip(1), k - 1);
    }
}

/// Whether `s` is a well-formed set of rank `r`: at least 3 cards, at least
/// one of them not a wildcard, and every card either wild or of rank `r`.
pub open spec fn set_cards_valid(s: Seq<Card>, r: Rank) -> bool {
    &&& s.len() >= 3
    &&& exists|i: int| 0 <= i < s.len() && !s[i].spec_is_wildcard()
    &&& forall|i: int| 0 <= i < s.len() ==> (s[i].spec_is_wildcard() || s[i].rank == r)
}

/// What validating `indices` of `hand` as a set returns: `Ok` exactly when
/// they select at least 3 cards, without repetition or out-of-bounds
/// indices, not all wildcards, all non-wildcards sharing one rank.
pub open spec fn set_selection_check(hand: Seq<Card>, idx: Seq<usize>) -> Result<(), MeldError> {
    if idx.len() < 3 {
        Err(MeldError::InsufficientCards { provided: idx.len() as usize, minimum: 3 })
    } else if !indices_in_bounds(idx, hand.len() as int) || !indices_distinct(idx) {
        Err(MeldError::InvalidCardIndex)
    } else {
        let s = chosen_cards(hand, idx);
        if forall|i: int| 0 <= i < s.len() ==> s[i].spec_is_wildcard() {
            Err(MeldError::OnlyWildcards)
        } else if !(forall|i: int|
            0 <= i < s.len() ==> (s[i].spec_is_wildcard() || s[i].rank == s[first_nonwild_index(
                s,
            )].rank)) {
            Err(MeldError::InvalidSet)
        } else {
            Ok(())
        }
    }
}

/// Whether `indices@.contains(x)`.
fn vec_contains_index(indices: &Vec<usize>, x: usize) -> (b: bool)
    ensures
        b == indices@.contains(x),
{
    let mut k: usize = 0;
    while k < indices.len()
        invariant
            k <= indices@.len(),
            forall|i: int| 0 <= i < k ==> indices@[i] != x,
        decreases indices@.len() - k,
    {
        if indices[k] == x {
            return true;
        }
        k = k + 1;
    }
    false
}

/// Whether every index is in bounds for a hand of `hand_len` cards and none
/// repeats.
fn selection_ok(hand_len: usize, indices: &Vec<usize>) -> (b: bool)
    ensures
        b == (indices_in_bounds(indices@, hand_len as int) && indices_distinct(indices@)),
{
    let n = indices.len();
    let mut k: usize = 0;
    while k < n
        invariant
            k <= n,
            n == indices@.len(),
            forall|i: int| 0 <= i < k ==> indices@[i] < hand_len,
            forall|a: int, b: int| 0 <= a < b < indices@.len() && a < k ==> indices@[a] != indices@[b],
        decreases n - k,
    {
        if indices[k] >= hand_len {
            return false;
        }
        let mut l: usize = k + 1;
        while l < n
            invariant
                k < l <= n,
                n == indices@.len(),
                forall|b: int| k < b < l ==> indices@[k as int] != indices@[b],
            decreases n - l,
        {
            if indices[l] == indices[k] {
                return false;
            }
            l = l + 1;
        }
        k = k + 1;
    }
    true
}

/// The cards of `hand` at `indices`, in index-list order.
fn collect_chosen(hand: &Vec<Card>, indices: &Vec<usize>) -> (v: Vec<Card>)
    requires
        indices_in_bounds(indices@, hand@.len() as int),
    ensures
        v@ == chosen_cards(hand@, indices@),
{
    let mut v: Vec<Card> = Vec::new();
    let mut k: usize = 0;
    while k < indices.len()
        invariant
            k <= indices@.len(),
            indices_in_bounds(indices@, hand@.len() as int),
            v@.len() == k,
            forall|i: int| 0 <= i < k ==> v@[i] == hand@[indices@[i] as int],
        decreases indices@.len() - k,
    {
        v.push(hand[indices[k]]);
        k = k + 1;
    }
    proof {
        assert(v@ =~= chosen_cards(hand@, indices@));
    }
    v
}

/// Removes the positions listed in `indices` from `hand`, keeping the
/// relative order of the remaining cards.
fn remove_chosen(hand: &mut Vec<Card>, indices: &Vec<usize>)
    ensures
        final(hand)@ == remove_positions(old(hand)@, indices@),
{
    let ghost hand0 = hand@;
    let mut k = hand.len();
    while k > 0
        invariant
            k <= hand0.len(),
            hand@ =~= hand0.take(k as int) + remove_positions_from(hand0, indices@, k as int),
        decreases k,
    {
        k = k - 1;
        let ghost pre = hand@;
        if vec_contains_index(indices, k) {
            hand.remove(k);
            proof {
                assert(pre.remove(k as int) =~= hand0.take(k as int) + remove_positions_from(
                    hand0,
                    indices@,
                    k as int,
                ));
            }
        } else {
            proof {
                assert(pre =~= hand0.take(k as int) + remove_positions_from(
                    hand0,
                    indices@,
                    k as int,
                ));
            }
        }
    }
    proof {
        assert(hand@ =~= remove_positions(hand0, indices@));
    }
}

/// A Rummy meld set.
#[derive(Debug, Clone, PartialEq, Eq)]
pub struct SetMeld {
    pub(crate) cards: Vec<Card>,
    pub(crate) set_rank: Rank,
}

impl SetMeld {
    /// The set's cards.
    pub closed spec fn spec_cards(self) -> Seq<Card> {
        self.cards@
    }

    /// The set's rank.
    pub closed spec fn spec_rank(self) -> Rank {
        self.set_rank
    }

    /// Whether the set is well-formed: see [`set_cards_valid`].
    pub open spec fn wf(self) -> bool {
        set_cards_valid(self.spec_cards(), self.spec_rank())
    }

    /// Get an immutable reference to the set's cards.
    pub fn cards(&self) -> (c: &Vec<Card>)
        ensures
            c@ == self.spec_cards(),
    {
        &self.cards
    }

    /// Get the set's rank.
    pub fn rank(&self) -> (r: Rank)
        ensures
            r == self.spec_rank(),
    {
        self.set_rank
    }

    /// Returns `Ok` if the cards in `hand_cards` indexed by `indices` form a
    /// valid set; see [`set_selection_check`] for the exact conditions and
    /// errors.
    pub fn valid(hand_cards: &Vec<Card>, indices: &Vec<usize>) -> (r: Result<(), MeldError>)
        ensures
            r == set_selection_check(hand_cards@, indices@),
    {
        if indices.len() < 3 {
            return Err(MeldError::InsufficientCards { provided: indices.len(), minimum: 3 });
        }
        if !selection_ok(hand_cards.len(), indices) {
            return Err(MeldError::InvalidCardIndex);
        }
        let chosen = collect_chosen(hand_cards, indices);
        let ghost s = chosen@;

        // Find the first card that is not a wildcard; its rank is the
        // candidate rank of the set.
        let mut k: usize = 0;
        while k < chosen.len() && chosen[k].is_wildcard()
            invariant
                k <= s.len(),
                chosen@ == s,
                forall|i: int| 0 <= i < k ==> s[i].spec_is_wildcard(),
            decreases s.len() - k,
        {
            k = k + 1;
        }
        if k == chosen.len() {
            return Err(MeldError::OnlyWildcards);
        }
        assert(!s[k as int].spec_is_wildcard());
        proof {
            lemma_first_nonwild_index_of(s, k as int);
        }
        let rank = chosen[k].rank;

        let mut l: usize = 0;
        while l < chosen.len()
            invariant
                l <= s.len(),
                chosen@ == s,
                k < s.len(),
                !s[k as int].spec_is_wildcard(),
                rank == s[first_nonwild_index(s)].rank,
                s == chosen_cards(hand_cards@, indices@),
                indices@.len() >= 3,
                indices_in_bounds(indices@, hand_cards@.len() as int),
                indices_distinct(indices@),
                forall|i: int| 0 <= i < l ==> (s[i].spec_is_wildcard() || s[i].rank == rank),
            decreases s.len() - l,
        {
            if !chosen[l].is_wildcard() && !(chosen[l].rank == rank) {
                return Err(MeldError::InvalidSet);
            }
            l = l + 1;
        }
        Ok(())
    }

    /// Attempt to create a new set out of the cards in `hand_cards` indexed
    /// by `indices`. If they validate, the indexed cards move from the hand
    /// into the set; otherwise the hand is left untouched.
    pub fn new(hand_cards: &mut Vec<Card>, indices: &Vec<usize>) -> (r: Result<SetMeld, MeldError>)
        ensures
            set_selection_check(old(hand_cards)@, indices@) matches Err(e) ==> (r matches Err(e2)
                && e2 == e) && final(hand_cards)@ == old(hand_cards)@,
            set_selection_check(old(hand_cards)@, indices@) is Ok ==> (r matches Ok(set) && {
                let chosen = chosen_cards(old(hand_cards)@, indices@);
                &&& set.spec_cards() == chosen
                &&& set.spec_rank() == chosen[first_nonwild_index(chosen)].rank
                &&& set.wf()
                &&& final(hand_cards)@ == remove_positions(old(hand_cards)@, indices@)
                &&& final(hand_cards)@.to_multiset().add(set.spec_cards().to_multiset()) == old(
                    hand_cards,
                )@.to_multiset()
                &&& final(hand_cards)@.len() + indices@.len() == old(hand_cards)@.len()
            }),
    {
        match SetMeld::valid(hand_cards, indices) {
            Err(e) => Err(e),
            Ok(()) => {
                let cards = collect_chosen(hand_cards, indices);
                let ghost s = cards@;
                assert(exists|i: int| 0 <= i < s.len() && !s[i].spec_is_wildcard());

                let mut k: usize = 0;
                while k < cards.len() && cards[k].is_wildcard()
                    invariant
                        k <= s.len(),
                        cards@ == s,
                        forall|i: int| 0 <= i < k ==> s[i].spec_is_wildcard(),
                    decreases s.len() - k,
                {
                    k = k + 1;
                }
                assert(k < s.len() && !s[k as int].spec_is_wildcard()) by {
                    if k >= s.len() {
                        let i = choose|i: int| 0 <= i < s.len() && !s[i].spec_is_wildcard();
                        assert(s[i].spec_is_wildcard());
                    }
                }
                proof {
                    lemma_first_nonwild_index_of(s, k as int);
                }
                let set_rank = cards[k].rank;

                let n = hand_cards.len();
                proof {
                    assert(hand_cards@.len() == n);
                    lemma_selection_conserves(hand_cards@, indices@);
                }
                remove_chosen(hand_cards, indices);
                Ok(SetMeld { cards, set_rank })
            },
        }
    }

    /// Attempt to add the card of `hand_cards` chosen by `index` to the set.
    ///
    /// A card of the set's rank is accepted, replacing the first wildcard in
    /// the set (which moves back into the hand) if there is one; a wildcard
    /// from the hand is always accepted and appended. Otherwise `Err` is
    /// returned and neither the hand nor the set changes.
    pub fn layoff_card(&mut self, hand_cards: &mut Vec<Card>, index: usize) -> (r: Result<
        (),
        MeldError,
    >)
        ensures
            index >= old(hand_cards)@.len() ==> (r matches Err(e) && e
                == MeldError::InvalidCardIndex) && final(hand_cards)@ == old(hand_cards)@
                && *final(self) == *old(self),
            index < old(hand_cards)@.len() ==> {
                let c = old(hand_cards)@[index as int];
                let m = old(self).spec_cards();
                let w = first_wild_index(m);
                if c.rank == old(self).spec_rank() {
                    if exists|i: int| 0 <= i < m.len() && m[i].spec_is_wildcard() {
                        &&& r is Ok
                        &&& final(self).spec_cards() == m.update(w, c)
                        &&& final(hand_cards)@ == old(hand_cards)@.update(index as int, m[w])
                        &&& final(self).spec_rank() == old(self).spec_rank()
                    } else {
                        &&& r is Ok
                        &&& final(self).spec_cards() == m.push(c)
                        &&& final(hand_cards)@ == old(hand_cards)@.remove(index as int)
                        &&& final(self).spec_rank() == old(self).spec_rank()
                    }
                } else if c.spec_is_wildcard() {
                    &&& r is Ok
                    &&& final(self).spec_cards() == m.push(c)
                    &&& final(hand_cards)@ == old(hand_cards)@.remove(index as int)
                    &&& final(self).spec_rank() == old(self).spec_rank()
                } else {
                    &&& r matches Err(e) && e == MeldError::InvalidLayoff
                    &&& final(hand_cards)@ == old(hand_cards)@
                    &&& *final(self) == *old(self)
                }
            },
            old(self).wf() && r is Ok ==> final(self).wf(),
            final(hand_cards)@.len() + final(self).spec_cards().len() == old(hand_cards)@.len()
                + old(self).spec_cards().len(),
            final(hand_cards)@.to_multiset().add(final(self).spec_cards().to_multiset()) == old(
                hand_cards,
            )@.to_multiset().add(old(self).spec_cards().to_multiset()),
            r is Err ==> *final(hand_cards) == *old(hand_cards) && *final(self) == *old(self),
    {
        if index >= hand_cards.len() {
            return Err(MeldError::InvalidCardIndex);
        }
        let card = hand_cards[index];

        if card.rank == self.set_rank {
            // Look for a wildcard in the set to swap back into the hand.
            let ghost m = self.cards@;
            let mut k: usize = 0;
            while k < self.cards.len()
                invariant
                    k <= m.len(),
                    *self == *old(self),
                    hand_cards@ == old(hand_cards)@,
                    m == old(self).spec_cards(),
                    card == old(hand_cards)@[index as int],
                    card.rank == old(self).spec_rank(),
                    index < hand_cards@.len(),
                    forall|i: int| 0 <= i < k ==> !m[i].spec_is_wildcard(),
                decreases m.len() - k,
            {
                if self.cards[k].is_wildcard() {
                    proof {
                        lemma_first_wild_index_of(m, k as int);
                    }
                    let wildcard = self.cards[k];
                    self.cards.set(k, card);
                    hand_cards.set(index, wildcard);
                    proof {
                        lemma_layoff_swap_multisets(old(hand_cards)@, m, index as int, k as int);
                        if old(self).wf() {
                            let i = choose|i: int|
                                0 <= i < m.len() && !m[i].spec_is_wildcard();
                            assert(i != k);
                            assert(!self.cards@[i].spec_is_wildcard());
                            assert(final(self).wf() == self.wf());
                        }
                    }
                    return Ok(());
                }
                k = k + 1;
            }
            assert(forall|i: int| 0 <= i < m.len() ==> !m[i].spec_is_wildcard());
            self.cards.push(hand_cards.remove(index));
            proof {
                lemma_layoff_move_multisets(
                    old(hand_cards)@,
                    old(self).spec_cards(),
                    index as int,
                    old(hand_cards)@[index as int],
                );
                if old(self).wf() {
                    let i = choose|i: int|
                        0 <= i < old(self).spec_cards().len() && !old(self).spec_cards()[
                            i
                        ].spec_is_wildcard();
                    assert(!self.cards@[i].spec_is_wildcard());
                }
            }
            return Ok(());
        } else if card.is_wildcard() {
            self.cards.push(hand_cards.remove(index));
            proof {
                lemma_layoff_move_multisets(
                    old(hand_cards)@,
                    old(self).spec_cards(),
                    index as int,
                    old(hand_cards)@[index as int],
                );
                if old(self).wf() {
                    let i = choose|i: int|
                        0 <= i < old(self).spec_cards().len() && !old(self).spec_cards()[
                            i
                        ].spec_is_wildcard();
                    assert(!self.cards@[i].spec_is_wildcard());
                }
            }
            return Ok(());
        }
        Err(MeldError::InvalidLayoff)
    }
}


/// The smallest card value in `s` (0 when `s` is empty).
pub open spec fn seq_min_value(s: Seq<Card>) -> int
    decreases s.len(),
{
    if s.len() == 0 {
        0
    } else if s.len() == 1 {
        s[0].spec_value()
    } else {
        let m = seq_min_value(s.drop_last());
        if s.last().spec_value() < m {
            s.last().spec_value()
        } else {
            m
        }
    }
}

/// The largest card value in `s` (0 when `s` is empty).
pub open spec fn seq_max_value(s: Seq<Card>) -> int
    decreases s.len(),
{
    if s.len() == 0 {
        0
    } else if s.len() == 1 {
        s[0].spec_value()
    } else {
        let m = seq_max_value(s.drop_last());
        if s.last().spec_value() > m {
            s.last().spec_value()
        } else {
            m
        }
    }
}

/// The minimum is a lower bound and is attained; the maximum an upper bound
/// and attained.
pub proof fn lemma_min_max_value(s: Seq<Card>)
    requires
        s.len() >= 1,
    ensures
        forall|i: int|
            0 <= i < s.len() ==> seq_min_value(s) <= (#[trigger] s[i]).spec_value()
                <= seq_max_value(s),
        exists|i: int| 0 <= i < s.len() && s[i].spec_value() == seq_min_value(s),
        exists|i: int| 0 <= i < s.len() && s[i].spec_value() == seq_max_value(s),
    decreases s.len(),
{
    if s.len() > 1 {
        lemma_min_max_value(s.drop_last());
        assert forall|i: int|
            0 <= i < s.len() implies seq_min_value(s) <= (#[trigger] s[i]).spec_value()
            <= seq_max_value(s) by {
            if i < s.len() - 1 {
                assert(s.drop_last()[i] == s[i]);
            }
        }
        if seq_min_value(s) != s.last().spec_value() {
            let i = choose|i: int|
                0 <= i < s.drop_last().len() && s.drop_last()[i].spec_value() == seq_min_value(
                    s.drop_last(),
                );
            assert(s[i].spec_value() == seq_min_value(s));
        }
        if seq_max_value(s) != s.last().spec_value() {
            let i = choose|i: int|
                0 <= i < s.drop_last().len() && s.drop_last()[i].spec_value() == seq_max_value(
                    s.drop_last(),
                );
            assert(s[i].spec_value() == seq_max_value(s));
        }
    }
}

/// Sequences holding the same cards have the same minimum and maximum
/// values.
pub proof fn lemma_min_max_value_multiset(s: Seq<Card>, t: Seq<Card>)
    requires
        s.len() >= 1,
        s.to_multiset() == t.to_multiset(),
    ensures
        seq_min_value(s) == seq_min_value(t),
        seq_max_value(s) == seq_max_value(t),
{
    assert(t.len() >= 1) by {
        assert(s.to_multiset().len() == s.len());
        assert(t.to_multiset().len() == t.len());
    }
    lemma_min_max_value(s);
    lemma_min_max_value(t);
    let si = choose|i: int| 0 <= i < s.len() && s[i].spec_value() == seq_min_value(s);
    assert(t.contains(s[si])) by {
        assert(s.to_multiset().count(s[si]) > 0);
    }
    let ti = choose|i: int| 0 <= i < t.len() && t[i].spec_value() == seq_min_value(t);
    assert(s.contains(t[ti])) by {
        assert(t.to_multiset().count(t[ti]) > 0);
    }
    let sa = choose|i: int| 0 <= i < s.len() && s[i].spec_value() == seq_max_value(s);
    assert(t.contains(s[sa])) by {
        assert(s.to_multiset().count(s[sa]) > 0);
    }
    let ta = choose|i: int| 0 <= i < t.len() && t[i].spec_value() == seq_max_value(t);
    assert(s.contains(t[ta])) by {
        assert(t.to_multiset().count(t[ta]) > 0);
    }
}

/// A card found at two different positions occurs at least twice in the
/// multiset.
pub proof fn lemma_two_positions_count(s: Seq<Card>, i: int, j: int)
    requires
        0 <= i < s.len(),
        0 <= j < s.len(),
        i != j,
        s[i] == s[j],
    ensures
        s.to_multiset().count(s[i]) >= 2,
{
    let s1 = s.remove(i);
    assert(s1.to_multiset() == s.to_multiset().remove(s[i]));
    let j1 = if j < i {
        j
    } else {
        j - 1
    };
    assert(s1[j1] == s[j]);
    assert(s1.contains(s[i]));
    assert(s1.to_multiset().count(s[i]) > 0);
}

/// A card that occurs at least twice in the multiset is found at two
/// different positions.
pub proof fn lemma_count_two_positions(s: Seq<Card>, x: Card)
    requires
        s.to_multiset().count(x) >= 2,
    ensures
        exists|i: int, j: int| 0 <= i < s.len() && 0 <= j < s.len() && i != j && s[i] == x && s[j]
            == x,
{
    assert(s.contains(x));
    let i = choose|i: int| 0 <= i < s.len() && s[i] == x;
    let s1 = s.remove(i);
    assert(s1.to_multiset() == s.to_multiset().remove(x));
    assert(s1.to_multiset().count(x) >= 1);
    assert(s1.contains(x));
    let j1 = choose|j: int| 0 <= j < s1.len() && s1[j] == x;
    let j = if j1 < i {
        j1
    } else {
        j1 + 1
    };
    assert(s[j] == s1[j1]);
    assert(0 <= j < s.len() && j != i && s[i] == x && s[j] == x);
}

/// Appending one card to a sequence filters to the old filtering, plus that
/// card when it satisfies the predicate.
pub proof fn lemma_filter_push(s: Seq<Card>, pred: spec_fn(Card) -> bool, x: Card)
    ensures
        s.push(x).filter(pred) == if pred(x) {
            s.filter(pred).push(x)
        } else {
            s.filter(pred)
        },
{
    reveal(Seq::filter);
    assert(s.push(x).drop_last() =~= s);
    assert(s.push(x).last() == x);
}

/// The wildcards and the non-wildcards of `s` together are exactly `s`, as
/// multisets.
pub proof fn lemma_wild_partition(s: Seq<Card>)
    ensures
        nonwilds(s).to_multiset().add(wilds(s).to_multiset()) =~= s.to_multiset(),
        nonwilds(s).len() + wilds(s).len() == s.len(),
    decreases s.len(),
{
    reveal(Seq::filter);
    if s.len() == 0 {
        assert(nonwilds(s) =~= Seq::<Card>::empty());
        assert(wilds(s) =~= Seq::<Card>::empty());
    } else {
        let s1 = s.drop_last();
        lemma_wild_partition(s1);
        assert(s =~= s1.push(s.last()));
        lemma_filter_push(s1, |c: Card| !c.spec_is_wildcard(), s.last());
        lemma_filter_push(s1, |c: Card| c.spec_is_wildcard(), s.last());
    }
}

/// Pairwise distinct and aligned: any two different non-wildcards differ in
/// value, by a multiple of 4.
pub open spec fn run_aligned_distinct(nw: Seq<Card>) -> bool {
    forall|i: int, j: int|
        0 <= i < nw.len() && 0 <= j < nw.len() && i != j ==> (#[trigger] nw[i]).spec_value() != (
        #[trigger] nw[j]).spec_value() && ((nw[i].spec_value() - nw[j].spec_value()) % 4 == 0)
}

/// How many wildcards a run over `s` needs to fill the gaps between its
/// non-wildcards.
pub open spec fn run_wildcards_needed(s: Seq<Card>) -> int {
    let nw = nonwilds(s);
    (seq_max_value(nw) - seq_min_value(nw)) / 4 + 1 - nw.len()
}

/// What validating `indices` of `hand` as a run returns: `Ok` exactly when
/// they select at least 3 cards, without repetition or out-of-bounds
/// indices, at least one of them not wild, the non-wildcards pairwise
/// distinct in value and aligned on one suit lane (all value differences
/// multiples of 4), and the gaps of the resulting chain coverable by the
/// selected wildcards.
pub open spec fn run_selection_check(hand: Seq<Card>, idx: Seq<usize>) -> Result<(), MeldError> {
    if idx.len() < 3 {
        Err(MeldError::InsufficientCards { provided: idx.len() as usize, minimum: 3 })
    } else if !indices_in_bounds(idx, hand.len() as int) || !indices_distinct(idx) {
        Err(MeldError::InvalidCardIndex)
    } else {
        let s = chosen_cards(hand, idx);
        let nw = nonwilds(s);
        if nw.len() == 0 {
            Err(MeldError::OnlyWildcards)
        } else if !run_aligned_distinct(nw) {
            Err(MeldError::InvalidRun)
        } else if run_wildcards_needed(s) > s.len() - nw.len() {
            Err(MeldError::InsufficientWildcards)
        } else {
            Ok(())
        }
    }
}

/// A formed run chain: it opens with a non-wildcard, and every non-wildcard
/// at position `i` has value exactly 4·i above the opening card's.
pub open spec fn run_chain_valid(s: Seq<Card>) -> bool {
    &&& s.len() >= 1
    &&& !s[0].spec_is_wildcard()
    &&& forall|i: int|
        0 <= i < s.len() ==> ((#[trigger] s[i]).spec_is_wildcard() || s[i].spec_value()
            == s[0].spec_value() + 4 * i)
}

/// In a sorted, pairwise distinct and aligned sequence, values grow by at
/// least 4 per step.
proof fn lemma_sorted_aligned_spread(nw: Seq<Card>, i: int, j: int)
    requires
        0 <= i <= j < nw.len(),
        sorted_by_value(nw),
        run_aligned_distinct(nw),
    ensures
        nw[j].spec_value() - nw[i].spec_value() >= 4 * (j - i),
    decreases j - i,
{
    if i < j {
        lemma_sorted_aligned_spread(nw, i, j - 1);
        let a = nw[j - 1].spec_value();
        let b = nw[j].spec_value();
        assert(a <= b && a != b);
        assert((b - a) % 4 == 0);
        vstd::arithmetic::div_mod::lemma_fundamental_div_mod(b - a, 4);
        assert(b - a == 4 * ((b - a) / 4));
        assert((b - a) / 4 >= 1) by {
            if (b - a) / 4 <= 0 {
                assert(b - a <= 0);
            }
        }
    }
}


/// Every card of an all-wildcard sequence filtered for non-wildcards leaves
/// nothing.
proof fn lemma_all_wild_filter_empty(s: Seq<Card>)
    requires
        forall|i: int| 0 <= i < s.len() ==> (#[trigger] s[i]).spec_is_wildcard(),
    ensures
        nonwilds(s).len() == 0,
    decreases s.len(),
{
    reveal(Seq::filter);
    if s.len() > 0 {
        lemma_all_wild_filter_empty(s.drop_last());
    }
}

/// A value is a multiple of 4 exactly when its negation is.
proof fn lemma_mod4_neg(x: int)
    ensures
        (x % 4 == 0) == ((-x) % 4 == 0),
{
    vstd::arithmetic::div_mod::lemma_fundamental_div_mod(x, 4);
    vstd::arithmetic::div_mod::lemma_fundamental_div_mod(-x, 4);
    if x % 4 == 0 {
        vstd::arithmetic::div_mod::lemma_fundamental_div_mod_converse(-x, 4, -(x / 4), 0);
    }
    if (-x) % 4 == 0 {
        vstd::arithmetic::div_mod::lemma_fundamental_div_mod_converse(x, 4, -((-x) / 4), 0);
    }
}


/// Multiples of 4 are closed under addition.
proof fn lemma_mod4_add(a: int, b: int)
    requires
        a % 4 == 0,
        b % 4 == 0,
    ensures
        (a + b) % 4 == 0,
{
    vstd::arithmetic::div_mod::lemma_fundamental_div_mod(a, 4);
    vstd::arithmetic::div_mod::lemma_fundamental_div_mod(b, 4);
    vstd::arithmetic::div_mod::lemma_fundamental_div_mod_converse(a + b, 4, a / 4 + b / 4, 0);
}

/// Strictly increasing, aligned neighbours make the whole sorted sequence
/// pairwise distinct and aligned.
proof fn lemma_chain_step(nw: Seq<Card>, x: int, y: int)
    requires
        0 <= x < y < nw.len(),
        forall|a: int|
            1 <= a < nw.len() ==> (#[trigger] nw[a]).spec_value() > nw[a - 1].spec_value() && (
            nw[a].spec_value() - nw[a - 1].spec_value()) % 4 == 0,
    ensures
        nw[x].spec_value() < nw[y].spec_value(),
        (nw[y].spec_value() - nw[x].spec_value()) % 4 == 0,
    decreases y - x,
{
    if y == x + 1 {
        assert(nw[y].spec_value() > nw[y - 1].spec_value());
    } else {
        lemma_chain_step(nw, x, y - 1);
        assert(nw[y].spec_value() > nw[y - 1].spec_value());
        lemma_mod4_add(
            nw[y - 1].spec_value() - nw[x].spec_value(),
            nw[y].spec_value() - nw[y - 1].spec_value(),
        );
    }
}

/// See [`lemma_chain_step`]: adjacent strictness and alignment give
/// `run_aligned_distinct`.
proof fn lemma_adjacent_to_pairwise(nw: Seq<Card>)
    requires
        forall|a: int|
            1 <= a < nw.len() ==> (#[trigger] nw[a]).spec_value() > nw[a - 1].spec_value() && (
            nw[a].spec_value() - nw[a - 1].spec_value()) % 4 == 0,
    ensures
        run_aligned_distinct(nw),
{
    assert forall|i: int, j: int|
        0 <= i < nw.len() && 0 <= j < nw.len() && i != j implies (#[trigger] nw[i]).spec_value()
        != (#[trigger] nw[j]).spec_value() && ((nw[i].spec_value() - nw[j].spec_value()) % 4
        == 0) by {
        if i < j {
            lemma_chain_step(nw, i, j);
            lemma_mod4_neg(nw[j].spec_value() - nw[i].spec_value());
        } else {
            lemma_chain_step(nw, j, i);
        }
    }
}

/// A violation between two positions of one card sequence rules out
/// `run_aligned_distinct` for any sequence holding the same cards.
proof fn lemma_violation_transfer(nw: Seq<Card>, nwc: Seq<Card>, a: int, b: int)
    requires
        nw.to_multiset() == nwc.to_multiset(),
        0 <= a < b < nw.len(),
        nw[a].spec_value() == nw[b].spec_value() || (nw[b].spec_value() - nw[a].spec_value()) % 4
            != 0,
    ensures
        !run_aligned_distinct(nwc),
{
    let c1 = nw[a];
    let c2 = nw[b];
    if c1 == c2 {
        lemma_two_positions_count(nw, a, b);
        lemma_count_two_positions(nwc, c1);
        let (i, j): (int, int) = choose|i: int, j: int|
            0 <= i < nwc.len() && 0 <= j < nwc.len() && i != j && nwc[i] == c1 && nwc[j] == c1;
        assert(nwc[i].spec_value() == nwc[j].spec_value());
    } else {
        assert(nw.to_multiset().count(c1) > 0);
        assert(nw.to_multiset().count(c2) > 0);
        assert(nwc.contains(c1) && nwc.contains(c2));
        let i = choose|i: int| 0 <= i < nwc.len() && nwc[i] == c1;
        let j = choose|j: int| 0 <= j < nwc.len() && nwc[j] == c2;
        assert(i != j);
        if nw[a].spec_value() == nw[b].spec_value() {
            assert(nwc[i].spec_value() == nwc[j].spec_value());
            assert(!run_aligned_distinct(nwc));
        } else {
            assert((nwc[j].spec_value() - nwc[i].spec_value()) % 4 != 0);
            assert(!run_aligned_distinct(nwc));
        }
    }
}

/// A fully pairwise-compatible sequence transfers `run_aligned_distinct` to
/// any sequence holding the same cards.
proof fn lemma_aligned_transfer(nw: Seq<Card>, nwc: Seq<Card>)
    requires
        nw.to_multiset() == nwc.to_multiset(),
        run_aligned_distinct(nw),
    ensures
        run_aligned_distinct(nwc),
{
    assert forall|i: int, j: int|
        0 <= i < nwc.len() && 0 <= j < nwc.len() && i != j implies (#[trigger] nwc[i]).spec_value()
        != (#[trigger] nwc[j]).spec_value() && ((nwc[i].spec_value() - nwc[j].spec_value()) % 4
        == 0) by {
        let c1 = nwc[i];
        let c2 = nwc[j];
        if c1 == c2 {
            lemma_two_positions_count(nwc, i, j);
            lemma_count_two_positions(nw, c1);
            let (p, q): (int, int) = choose|p: int, q: int|
                0 <= p < nw.len() && 0 <= q < nw.len() && p != q && nw[p] == c1 && nw[q] == c1;
            assert(nw[p].spec_value() != nw[q].spec_value());
            assert(false);
        } else {
            assert(nwc.to_multiset().count(c1) > 0);
            assert(nwc.to_multiset().count(c2) > 0);
            assert(nw.contains(c1) && nw.contains(c2));
            let p = choose|p: int| 0 <= p < nw.len() && nw[p] == c1;
            let q = choose|q: int| 0 <= q < nw.len() && nw[q] == c2;
            assert(p != q);
        }
    }
}

/// Validates a run selection. On success, hands back the selected
/// non-wildcards sorted ascending by value, and the selected wildcards.
#[verifier::rlimit(100)]
fn check_run_selection(hand_cards: &Vec<Card>, indices: &Vec<usize>) -> (r: Result<
    (Vec<Card>, Vec<Card>),
    MeldError,
>)
    ensures
        r matches Err(e) ==> (run_selection_check(hand_cards@, indices@) matches Err(e2) && e
            == e2),
        r matches Ok(p) ==> run_selection_check(hand_cards@, indices@) is Ok && ({
            let chosen = chosen_cards(hand_cards@, indices@);
            &&& p.0@.to_multiset() == nonwilds(chosen).to_multiset()
            &&& p.0@.len() == nonwilds(chosen).len()
            &&& p.0@.len() >= 1
            &&& p.1@ == wilds(chosen)
            &&& sorted_by_value(p.0@)
            &&& run_aligned_distinct(p.0@)
            &&& (forall|i: int|
                0 <= i < p.0@.len() ==> !(#[trigger] p.0@[i]).spec_is_wildcard())
            &&& (forall|i: int|
                0 <= i < p.0@.len() ==> (#[trigger] p.0@[i]).spec_value() <= 56)
            &&& p.0@[0].spec_value() == seq_min_value(nonwilds(chosen))
            &&& p.0@[p.0@.len() - 1].spec_value() == seq_max_value(nonwilds(chosen))
            &&& run_wildcards_needed(chosen) + p.0@.len() - 1 == (p.0@[p.0@.len()
                - 1].spec_value() - p.0@[0].spec_value()) / 4
        }),
{
    if indices.len() < 3 {
        return Err(MeldError::InsufficientCards { provided: indices.len(), minimum: 3 });
    }
    if !selection_ok(hand_cards.len(), indices) {
        return Err(MeldError::InvalidCardIndex);
    }
    let chosen = collect_chosen(hand_cards, indices);
    let ghost s = chosen@;

    // Split the chosen cards into non-wildcards and wildcards.
    let mut nw: Vec<Card> = Vec::new();
    let mut wld: Vec<Card> = Vec::new();
    let mut t: usize = 0;
    while t < chosen.len()
        invariant
            t <= s.len(),
            chosen@ == s,
            nw@ == nonwilds(s.take(t as int)),
            wld@ == wilds(s.take(t as int)),
        decreases s.len() - t,
    {
        let c = chosen[t];
        proof {
            assert(s.take(t as int + 1) =~= s.take(t as int).push(s[t as int]));
            lemma_filter_push(s.take(t as int), |c: Card| !c.spec_is_wildcard(), s[t as int]);
            lemma_filter_push(s.take(t as int), |c: Card| c.spec_is_wildcard(), s[t as int]);
        }
        if c.is_wildcard() {
            wld.push(c);
        } else {
            nw.push(c);
        }
        t = t + 1;
    }
    proof {
        assert(s.take(s.len() as int) =~= s);
    }
    assert(nw@ == nonwilds(s) && wld@ == wilds(s));

    if nw.len() == 0 {
        return Err(MeldError::OnlyWildcards);
    }

    let ghost nw_orig = nw@;
    sort_cards_by_value(&mut nw);
    proof {
        assert forall|i: int| 0 <= i < nw@.len() implies !(#[trigger] nw@[i]).spec_is_wildcard()
            && nw@[i].spec_value() <= 56 by {
            assert(nw@.to_multiset().count(nw@[i]) > 0);
            assert(nw_orig.contains(nw@[i]));
            let j = choose|j: int| 0 <= j < nw_orig.len() && nw_orig[j] == nw@[i];
            assert(!nonwilds(s)[j].spec_is_wildcard());
            crate::cards::card::lemma_card_value_bounds(nw@[i]);
        }
    }

    // Walk the sorted non-wildcards: adjacent values must be distinct and
    // aligned (difference a positive multiple of 4); count the wildcards
    // the gaps need.
    let n = nw.len();
    let mut needed: usize = 0;
    let mut t2: usize = 1;
    while t2 < n
        invariant
            1 <= t2 <= n,
            n == nw@.len(),
            n >= 1,
            chosen@ == s,
            s == chosen_cards(hand_cards@, indices@),
            indices@.len() >= 3,
            indices_in_bounds(indices@, hand_cards@.len() as int),
            indices_distinct(indices@),
            nw@.to_multiset() == nonwilds(s).to_multiset(),
            nw@.len() == nonwilds(s).len(),
            wld@ == wilds(s),
            sorted_by_value(nw@),
            forall|a: int|
                1 <= a < t2 ==> (#[trigger] nw@[a]).spec_value() > nw@[a - 1].spec_value() && (
                nw@[a].spec_value() - nw@[a - 1].spec_value()) % 4 == 0,
            4 * needed == nw@[t2 - 1].spec_value() - nw@[0].spec_value() - 4 * (t2 - 1),
            nw@[t2 - 1].spec_value() <= 56,
            needed <= 56,
        decreases n - t2,
    {
        let va = nw[t2 - 1].value();
        let vb = nw[t2].value();
        assert(va <= vb);
        if vb == va || (vb - va) % 4 != 0 {
            proof {
                lemma_violation_transfer(nw@, nonwilds(s), t2 - 1, t2 as int);
            }
            return Err(MeldError::InvalidRun);
        }
        assert(va < vb);
        let gap = (vb - va) / 4 - 1;
        proof {
            vstd::arithmetic::div_mod::lemma_fundamental_div_mod(vb as int - va as int, 4);
        }
        needed = needed + gap as usize;
        t2 = t2 + 1;
    }

    // The whole sorted sequence is pairwise distinct and aligned; carry
    // that over to the non-wildcards as chosen.
    proof {
        lemma_adjacent_to_pairwise(nw@);
        lemma_aligned_transfer(nw@, nonwilds(s));
    }

    // Relate the counted gaps to the chain span.
    proof {
        let nwc = nonwilds(s);
        lemma_min_max_value_multiset(nw@, nwc);
        lemma_min_max_value(nw@);
        assert(seq_min_value(nw@) == nw@[0].spec_value()) by {
            let i = choose|i: int| 0 <= i < nw@.len() && nw@[i].spec_value() == seq_min_value(nw@);
            assert(nw@[0].spec_value() <= nw@[i].spec_value());
        }
        assert(seq_max_value(nw@) == nw@[n - 1].spec_value()) by {
            let i = choose|i: int| 0 <= i < nw@.len() && nw@[i].spec_value() == seq_max_value(nw@);
            assert(nw@[i].spec_value() <= nw@[n - 1].spec_value());
        }
        vstd::arithmetic::div_mod::lemma_fundamental_div_mod_converse(
            nw@[n - 1].spec_value() - nw@[0].spec_value(),
            4,
            needed + n - 1,
            0,
        );
        lemma_wild_partition(s);
    }

    if needed > wld.len() {
        return Err(MeldError::InsufficientWildcards);
    }
    Ok((nw, wld))
}

/// A Rummy meld run.
#[derive(Debug, Clone, PartialEq, Eq)]
pub struct Run {
    pub(crate) cards: Vec<Card>,
    pub(crate) set_suit: Suit,
}

/// Whether the wildcard at position `i` of the run `m` could be replaced by
/// the (non-wild) card `c`: the check is local, against the direct
/// neighbours only.
pub open spec fn replaceable_at(m: Seq<Card>, c: Card, i: int) -> bool {
    &&& 0 <= i < m.len()
    &&& m[i].spec_is_wildcard()
    &&& ((i + 1 < m.len() && c.spec_value() + 4 == m[i + 1].spec_value()) || (i > 0 && m[i
        - 1].spec_value() + 4 == c.spec_value()))
}

/// The first position of `m` whose wildcard `c` could replace (`m.len()`
/// when there is none), scanning from `from`.
pub open spec fn first_replaceable_from(m: Seq<Card>, c: Card, from: int) -> int
    decreases m.len() - from,
{
    if from < 0 || from >= m.len() {
        m.len() as int
    } else if replaceable_at(m, c, from) {
        from
    } else {
        first_replaceable_from(m, c, from + 1)
    }
}

/// The scan for a replaceable wildcard lands on the first replaceable
/// position at or after `from`, or on `m.len()`.
proof fn lemma_first_replaceable(m: Seq<Card>, c: Card, from: int)
    requires
        0 <= from <= m.len(),
    ensures
        from <= first_replaceable_from(m, c, from) <= m.len(),
        first_replaceable_from(m, c, from) < m.len() ==> replaceable_at(
            m,
            c,
            first_replaceable_from(m, c, from),
        ),
        forall|i: int| from <= i < first_replaceable_from(m, c, from) ==> !replaceable_at(m, c, i),
    decreases m.len() - from,
{
    if from < m.len() && !replaceable_at(m, c, from) {
        lemma_first_replaceable(m, c, from + 1);
    }
}



/// Pushing the same card on both sides of a balanced pair of collections
/// keeps them balanced.
proof fn lemma_push_both_sides(a: Seq<Card>, b: Seq<Card>, c: Seq<Card>, d: Seq<Card>, x: Card)
    requires
        a.to_multiset().add(b.to_multiset()) == c.to_multiset().add(d.to_multiset()),
    ensures
        a.push(x).to_multiset().add(b.to_multiset()) == c.push(x).to_multiset().add(
            d.to_multiset(),
        ),
{
    broadcast use vstd::seq_lib::group_to_multiset_ensures;
    broadcast use vstd::multiset::group_multiset_axioms;

    assert(a.push(x).to_multiset() =~= a.to_multiset().insert(x));
    assert(c.push(x).to_multiset() =~= c.to_multiset().insert(x));
    assert forall|y: Card|
        a.push(x).to_multiset().add(b.to_multiset()).count(y) == c.push(
            x,
        ).to_multiset().add(d.to_multiset()).count(y) by {
        assert(a.to_multiset().add(b.to_multiset()).count(y) == c.to_multiset().add(
            d.to_multiset(),
        ).count(y));
        assert(a.to_multiset().add(b.to_multiset()).count(y) == a.to_multiset().count(y)
            + b.to_multiset().count(y));
        assert(c.to_multiset().add(d.to_multiset()).count(y) == c.to_multiset().count(y)
            + d.to_multiset().count(y));
        assert(a.to_multiset().insert(x).count(y) == a.to_multiset().count(y) + (if y == x {
            1int
        } else {
            0int
        }));
        assert(c.to_multiset().insert(x).count(y) == c.to_multiset().count(y) + (if y == x {
            1int
        } else {
            0int
        }));
        assert(a.push(x).to_multiset().add(b.to_multiset()).count(y) == a.to_multiset().insert(
            x,
        ).count(y) + b.to_multiset().count(y));
        assert(c.push(x).to_multiset().add(d.to_multiset()).count(y) == c.to_multiset().insert(
            x,
        ).count(y) + d.to_multiset().count(y));
    }
    assert(a.push(x).to_multiset().add(b.to_multiset()) =~= c.push(x).to_multiset().add(
        d.to_multiset(),
    ));
}

/// Moving one card from the right-hand collection to the left keeps the
/// combined multiset.
proof fn lemma_move_last_card(a: Seq<Card>, b: Seq<Card>, x: Card)
    ensures
        a.push(x).to_multiset().add(b.to_multiset()) == a.to_multiset().add(
            b.push(x).to_multiset(),
        ),
{
    broadcast use vstd::seq_lib::group_to_multiset_ensures;
    broadcast use vstd::multiset::group_multiset_axioms;

    assert(a.push(x).to_multiset() =~= a.to_multiset().insert(x));
    assert(b.push(x).to_multiset() =~= b.to_multiset().insert(x));
    assert(a.push(x).to_multiset().add(b.to_multiset()) =~= a.to_multiset().add(
        b.push(x).to_multiset(),
    ));
}

impl Run {
    /// The run's cards, bottom of the run first.
    pub closed spec fn spec_cards(self) -> Seq<Card> {
        self.cards@
    }

    /// The run's suit.
    pub closed spec fn spec_suit(self) -> Suit {
        self.set_suit
    }

    /// A run is never empty.
    pub open spec fn wf(self) -> bool {
        self.spec_cards().len() >= 1
    }

    /// Get an immutable reference to the run's cards.
    pub fn cards(&self) -> (c: &Vec<Card>)
        ensures
            c@ == self.spec_cards(),
    {
        &self.cards
    }

    /// Get the run's suit.
    pub fn suit(&self) -> (r: Suit)
        ensures
            r == self.spec_suit(),
    {
        self.set_suit
    }

    /// Returns `Ok` if the cards in `hand_cards` indexed by `indices` form a
    /// valid run; see [`run_selection_check`] for the exact conditions and
    /// errors.
    pub fn valid(hand_cards: &Vec<Card>, indices: &Vec<usize>) -> (r: Result<(), MeldError>)
        ensures
            r == run_selection_check(hand_cards@, indices@),
    {
        match check_run_selection(hand_cards, indices) {
            Ok(_) => Ok(()),
            Err(e) => Err(e),
        }
    }

    /// Attempt to create a new run out of the cards in `hand_cards` indexed
    /// by `indices`. If they validate, the indexed cards move from the hand
    /// into the run, arranged as the chain: non-wildcards ascending by
    /// value, wildcards filling the gaps, leftover wildcards appended at
    /// the top. Otherwise the hand is left untouched.
    #[verifier::rlimit(100)]
    pub fn new(hand_cards: &mut Vec<Card>, indices: &Vec<usize>) -> (r: Result<Run, MeldError>)
        ensures
            run_selection_check(old(hand_cards)@, indices@) matches Err(e) ==> (r matches Err(e2)
                && e2 == e) && final(hand_cards)@ == old(hand_cards)@,
            run_selection_check(old(hand_cards)@, indices@) is Ok ==> (r matches Ok(run) && {
                let chosen = chosen_cards(old(hand_cards)@, indices@);
                &&& run.spec_cards().len() == indices@.len()
                &&& run.spec_cards().to_multiset() == chosen.to_multiset()
                &&& run_chain_valid(run.spec_cards())
                &&& run.wf()
                &&& run.spec_cards()[0].spec_value() == seq_min_value(nonwilds(chosen))
                &&& run.spec_suit() == chosen[first_nonwild_index(chosen)].suit
                &&& final(hand_cards)@ == remove_positions(old(hand_cards)@, indices@)
                &&& final(hand_cards)@.to_multiset().add(run.spec_cards().to_multiset()) == old(
                    hand_cards,
                )@.to_multiset()
                &&& final(hand_cards)@.len() + indices@.len() == old(hand_cards)@.len()
            }),
    {
        let picked = match check_run_selection(hand_cards, indices) {
            Ok(p) => p,
            Err(e) => {
                return Err(e);
            },
        };
        let nw = picked.0;
        let mut wldv = picked.1;
        let ghost s = chosen_cards(hand_cards@, indices@);
        let ghost wld0 = wldv@;

        // The run's suit comes from the first non-wildcard among the chosen
        // cards, in the order the indices were given.
        let chosen = collect_chosen(hand_cards, indices);
        let mut fi: usize = 0;
        while fi < chosen.len() && chosen[fi].is_wildcard()
            invariant
                fi <= s.len(),
                chosen@ == s,
                forall|i: int| 0 <= i < fi ==> (#[trigger] s[i]).spec_is_wildcard(),
            decreases s.len() - fi,
        {
            fi = fi + 1;
        }
        assert(fi < s.len() && !s[fi as int].spec_is_wildcard()) by {
            if fi >= s.len() {
                lemma_all_wild_filter_empty(s);
            }
        }
        proof {
            lemma_first_nonwild_index_of(s, fi as int);
        }
        let set_suit = chosen[fi].suit;

        // Build the chain: walk the sorted non-wildcards, filling every gap
        // with wildcards.
        let n = nw.len();
        let ghost v0 = nw@[0].spec_value();
        let ghost vmax = nw@[n - 1].spec_value();
        let mut chain: Vec<Card> = Vec::new();
        chain.push(nw[0]);
        proof {
            assert(nw@.take(1) =~= seq![nw@[0]]);
            assert(chain@ =~= seq![nw@[0]]);
            assert(chain@.to_multiset() =~= nw@.take(1).to_multiset());
            assert(chain@.to_multiset().add(wldv@.to_multiset()) =~= nw@.take(
                1,
            ).to_multiset().add(wld0.to_multiset()));
            lemma_wild_partition(s);
            if n > 1 {
                assert((vmax - v0) % 4 == 0);
                vstd::arithmetic::div_mod::lemma_fundamental_div_mod(vmax - v0, 4);
            }
            assert(4 * wld0.len() >= vmax - v0 - 4 * (n - 1));
        }
        let mut t: usize = 1;
        while t < n
            invariant
                1 <= t <= n,
                n == nw@.len(),
                sorted_by_value(nw@),
                run_aligned_distinct(nw@),
                forall|i: int| 0 <= i < n ==> !(#[trigger] nw@[i]).spec_is_wildcard(),
                forall|i: int| 0 <= i < n ==> (#[trigger] nw@[i]).spec_value() <= 56,
                v0 == nw@[0].spec_value(),
                vmax == nw@[n - 1].spec_value(),
                chain@.len() >= 1,
                chain@[0] == nw@[0],
                run_chain_valid(chain@),
                4 * (chain@.len() - 1) == nw@[t - 1].spec_value() - v0,
                chain@.to_multiset().add(wldv@.to_multiset()) =~= nw@.take(
                    t as int,
                ).to_multiset().add(wld0.to_multiset()),
                chain@.len() + wldv@.len() == t + wld0.len(),
                forall|i: int| 0 <= i < wldv@.len() ==> (#[trigger] wldv@[i]).spec_is_wildcard(),
                4 * wld0.len() >= vmax - v0 - 4 * (n - 1),
            decreases n - t,
        {
            let va = nw[t - 1].value();
            let vb = nw[t].value();
            proof {
                assert(nw@[t - 1].spec_value() != nw@[t as int].spec_value());
                assert((nw@[t as int].spec_value() - nw@[t - 1].spec_value()) % 4 == 0);
                vstd::arithmetic::div_mod::lemma_fundamental_div_mod(vb as int - va as int, 4);
            }
            assert(va < vb);
            let diff = vb - va;
            assert(diff >= 4 && diff % 4 == 0);
            let gap = diff / 4 - 1;
            let ghost vai = nw@[t - 1].spec_value();
            let ghost vbi = nw@[t as int].spec_value();
            let ghost base_len = chain@.len();
            let mut g: u8 = 0;
            while g < gap
                invariant
                    g <= gap,
                    1 <= t < n,
                    n == nw@.len(),
                    sorted_by_value(nw@),
                    run_aligned_distinct(nw@),
                    vai == nw@[t - 1].spec_value(),
                    vbi == nw@[t as int].spec_value(),
                    v0 == nw@[0].spec_value(),
                    vmax == nw@[n - 1].spec_value(),
                    4 * (gap as int + 1) == vbi - vai,
                    chain@.len() == base_len + g,
                    4 * (base_len - 1) == vai - v0,
                    chain@.len() >= 1,
                    chain@[0] == nw@[0],
                    run_chain_valid(chain@),
                    chain@.to_multiset().add(wldv@.to_multiset()) =~= nw@.take(
                        t as int,
                    ).to_multiset().add(wld0.to_multiset()),
                    chain@.len() + wldv@.len() == t + wld0.len(),
                    forall|i: int|
                        0 <= i < wldv@.len() ==> (#[trigger] wldv@[i]).spec_is_wildcard(),
                    4 * wld0.len() >= vmax - v0 - 4 * (n - 1),
                decreases gap - g,
            {
                proof {
                    lemma_sorted_aligned_spread(nw@, t as int, n - 1);
                    assert(vmax - vbi >= 4 * (n - 1 - t));
                    assert(wldv@.len() >= 1);
                }
                let ghost wpre = wldv@;
                let ghost prechain = chain@;
                let w = wldv.pop().unwrap();
                chain.push(w);
                proof {
                    assert(wpre =~= wldv@.push(w));
                    lemma_move_last_card(prechain, wldv@, w);
                    assert(w.spec_is_wildcard()) by {
                        assert(wpre[wpre.len() - 1].spec_is_wildcard());
                    }
                }
                g = g + 1;
            }
            let ghost prechain = chain@;
            chain.push(nw[t]);
            proof {
                assert(nw@.take(t as int + 1) =~= nw@.take(t as int).push(nw@[t as int]));
                assert(run_chain_valid(chain@)) by {
                    assert(chain@[chain@.len() - 1].spec_value() == vbi);
                    assert(4 * (chain@.len() - 1) == vbi - v0);
                }
                lemma_push_both_sides(prechain, wldv@, nw@.take(t as int), wld0, nw@[t as int]);
            }
            t = t + 1;
        }
        let ghost prechain = chain@;
        let ghost wpre = wldv@;
        chain.append(&mut wldv);
        proof {
            vstd::seq_lib::lemma_multiset_commutative(prechain, wpre);
            assert(run_chain_valid(chain@)) by {
                assert(chain@[0] == prechain[0]);
                assert forall|i: int|
                    0 <= i < chain@.len() implies ((#[trigger] chain@[i]).spec_is_wildcard()
                    || chain@[i].spec_value() == chain@[0].spec_value() + 4 * i) by {
                    if i < prechain.len() {
                        assert(chain@[i] == prechain[i]);
                    } else {
                        assert(chain@[i] == wpre[i - prechain.len()]);
                    }
                }
            }
            assert(nw@.take(n as int) =~= nw@);
            lemma_wild_partition(s);
            assert(chain@.to_multiset() =~= s.to_multiset());
        }
        let hn = hand_cards.len();
        proof {
            assert(hand_cards@.len() == hn);
            lemma_selection_conserves(hand_cards@, indices@);
        }
        remove_chosen(hand_cards, indices);
        Ok(Run { cards: chain, set_suit })
    }
}


impl Run {
    /// Attempt to add the card of `hand_cards` chosen by `index` to the run.
    ///
    /// A wildcard from the hand is always appended. A non-wildcard can
    /// replace the first in-run wildcard whose direct neighbours are
    /// compatible with it (that wildcard moves back into the hand), or else
    /// be added at the bottom or the top of the run. Otherwise `Err` is
    /// returned and neither the hand nor the run changes.
    pub fn layoff_card(&mut self, hand_cards: &mut Vec<Card>, index: usize) -> (r: Result<
        (),
        MeldError,
    >)
        requires
            old(self).spec_cards().len() >= 1,
        ensures
            final(self).spec_suit() == old(self).spec_suit(),
            final(self).spec_cards().len() >= 1,
            final(hand_cards)@.len() + final(self).spec_cards().len() == old(hand_cards)@.len()
                + old(self).spec_cards().len(),
            final(hand_cards)@.to_multiset().add(final(self).spec_cards().to_multiset()) == old(
                hand_cards,
            )@.to_multiset().add(old(self).spec_cards().to_multiset()),
            index >= old(hand_cards)@.len() ==> (r matches Err(e) && e
                == MeldError::InvalidCardIndex) && final(hand_cards)@ == old(hand_cards)@
                && *final(self) == *old(self),
            r is Err ==> *final(hand_cards) == *old(hand_cards) && *final(self) == *old(self),
            index < old(hand_cards)@.len() ==> ({
                let c = old(hand_cards)@[index as int];
                let m = old(self).spec_cards();
                let w = first_replaceable_from(m, c, 0);
                if c.spec_is_wildcard() {
                    &&& r is Ok
                    &&& final(self).spec_cards() == m.push(c)
                    &&& final(hand_cards)@ == old(hand_cards)@.remove(index as int)
                } else if c.deck_config.wildcard_rank is Some && w < m.len() {
                    &&& r is Ok
                    &&& final(self).spec_cards() == m.update(w, c)
                    &&& final(hand_cards)@ == old(hand_cards)@.update(index as int, m[w])
                } else if c.spec_value() + 4 == m[0].spec_value() {
                    &&& r is Ok
                    &&& final(self).spec_cards() == m.insert(0, c)
                    &&& final(hand_cards)@ == old(hand_cards)@.remove(index as int)
                } else if m[m.len() - 1].spec_value() + 4 == c.spec_value() {
                    &&& r is Ok
                    &&& final(self).spec_cards() == m.push(c)
                    &&& final(hand_cards)@ == old(hand_cards)@.remove(index as int)
                } else {
                    &&& r matches Err(e) && e == MeldError::InvalidLayoff
                    &&& final(hand_cards)@ == old(hand_cards)@
                    &&& *final(self) == *old(self)
                }
            }),
    {
        if index >= hand_cards.len() {
            return Err(MeldError::InvalidCardIndex);
        }
        let layoff_card = hand_cards[index];
        let ghost m = self.cards@;
        let ghost h0 = hand_cards@;

        let has_wildcard_rank = match layoff_card.deck_config.wildcard_rank {
            Some(_) => true,
            None => false,
        };
        if has_wildcard_rank {
            // A wildcard from the hand is always a valid layoff.
            if layoff_card.is_wildcard() {
                let c = hand_cards.remove(index);
                self.cards.push(c);
                proof {
                    lemma_layoff_move_multisets(h0, m, index as int, layoff_card);
                }
                return Ok(());
            }
            // Otherwise, see if a wildcard in the run can be replaced: its
            // next card must follow the layoff card, or (for a wildcard at
            // the top) its previous card must precede it.
            let len = self.cards.len();
            let mut i: usize = 0;
            while i < len
                invariant
                    i <= len,
                    len == m.len(),
                    len >= 1,
                    *self == *old(self),
                    *hand_cards == *old(hand_cards),
                    m == old(self).spec_cards(),
                    index < hand_cards@.len(),
                    layoff_card == old(hand_cards)@[index as int],
                    !layoff_card.spec_is_wildcard(),
                    layoff_card.deck_config.wildcard_rank is Some,
                    forall|k: int| 0 <= k < i ==> !replaceable_at(m, layoff_card, k),
                decreases len - i,
            {
                let here_wild = self.cards[i].is_wildcard();
                let next_fits = i < len - 1 && layoff_card.same_suit_consecutive_rank(
                    &self.cards[i + 1],
                );
                let prev_fits = i > 0 && self.cards[i - 1].same_suit_consecutive_rank(
                    &layoff_card,
                );
                if here_wild && (next_fits || prev_fits) {
                    proof {
                        assert(replaceable_at(m, layoff_card, i as int));
                        lemma_first_replaceable(m, layoff_card, 0);
                        let f = first_replaceable_from(m, layoff_card, 0);
                        if f < i as int {
                            assert(!replaceable_at(m, layoff_card, f));
                        }
                        if f > i as int {
                            assert(!replaceable_at(m, layoff_card, i as int));
                        }
                        assert(f == i as int);
                    }
                    let wildcard = self.cards[i];
                    self.cards.set(i, layoff_card);
                    hand_cards.set(index, wildcard);
                    proof {
                        lemma_layoff_swap_multisets(old(hand_cards)@, m, index as int, i as int);
                    }
                    return Ok(());
                }
                i = i + 1;
            }
            proof {
                lemma_first_replaceable(m, layoff_card, 0);
                let f = first_replaceable_from(m, layoff_card, 0);
                if f < m.len() {
                    assert(!replaceable_at(m, layoff_card, f));
                }
            }
        }
        // See if the card can be added at the bottom of the run, or at the
        // top (the only two possible places).
        if layoff_card.same_suit_consecutive_rank(&self.cards[0]) {
            let c = hand_cards.remove(index);
            self.cards.insert(0, c);
            proof {
                assert(self.cards@ =~= m.insert(0, layoff_card));
                lemma_layoff_insert_multisets(h0, m, index as int, layoff_card);
            }
            return Ok(());
        } else if self.cards[self.cards.len() - 1].same_suit_consecutive_rank(&layoff_card) {
            let c = hand_cards.remove(index);
            self.cards.push(c);
            proof {
                lemma_layoff_move_multisets(h0, m, index as int, layoff_card);
            }
            return Ok(());
        }
        Err(MeldError::InvalidLayoff)
    }
}

/// Moving one card from the hand onto the end of a meld moves exactly one
/// multiset occurrence.
proof fn lemma_layoff_move_multisets(h: Seq<Card>, m: Seq<Card>, index: int, c: Card)
    requires
        0 <= index < h.len(),
        h[index] == c,
    ensures
        h.remove(index).to_multiset().add(m.push(c).to_multiset()) == h.to_multiset().add(
            m.to_multiset(),
        ),
{
    assert(h.remove(index).to_multiset() == h.to_multiset().remove(c));
    assert(m.push(c).to_multiset() == m.to_multiset().insert(c));
    assert(h.to_multiset().count(c) > 0) by {
        assert(h[index] == c);
    }
    assert(h.remove(index).to_multiset().add(m.push(c).to_multiset()) =~= h.to_multiset().add(
        m.to_multiset(),
    ));
}

/// Inserting the hand card at the bottom of the meld is the same move.
proof fn lemma_layoff_insert_multisets(h: Seq<Card>, m: Seq<Card>, index: int, c: Card)
    requires
        0 <= index < h.len(),
        h[index] == c,
    ensures
        h.remove(index).to_multiset().add(m.insert(0, c).to_multiset()) == h.to_multiset().add(
            m.to_multiset(),
        ),
{
    assert(m.insert(0, c) =~= seq![c] + m);
    vstd::seq_lib::lemma_multiset_commutative(seq![c], m);
    assert(seq![c].to_multiset() =~= Multiset::<Card>::empty().insert(c));
    assert(h.remove(index).to_multiset() == h.to_multiset().remove(c));
    assert(h.to_multiset().count(c) > 0) by {
        assert(h[index] == c);
    }
    assert(h.remove(index).to_multiset().add(m.insert(0, c).to_multiset()) =~= h.to_multiset().add(
        m.to_multiset(),
    ));
}

/// Swapping a hand card with an in-meld wildcard preserves the combined
/// multiset.
proof fn lemma_layoff_swap_multisets(h: Seq<Card>, m: Seq<Card>, index: int, w: int)
    requires
        0 <= index < h.len(),
        0 <= w < m.len(),
    ensures
        h.update(index, m[w]).to_multiset().add(m.update(w, h[index]).to_multiset())
            == h.to_multiset().add(m.to_multiset()),
{
    assert(h.update(index, m[w]).to_multiset() == h.to_multiset().insert(m[w]).remove(h[index]));
    assert(m.update(w, h[index]).to_multiset() == m.to_multiset().insert(h[index]).remove(m[w]));
    assert(h.to_multiset().count(h[index]) > 0) by {
        assert(h[index] == h[index]);
    }
    assert(m.to_multiset().count(m[w]) > 0) by {
        assert(m[w] == m[w]);
    }
    assert(h.update(index, m[w]).to_multiset().add(m.update(w, h[index]).to_multiset())
        =~= h.to_multiset().add(m.to_multiset()));
}


/// Represents behaviour of a meld.
pub trait Meldable: Sized {
    /// Returns `Ok` if the cards in `hand_cards` indexed by `indices` form
    /// a valid meld of this kind; else an `Err` with the reason.
    fn valid(hand_cards: &Vec<Card>, indices: &Vec<usize>) -> Result<(), MeldError>;

    /// Attempt to create a new meld out of the cards in `hand_cards`
    /// indexed by `indices`; the indexed cards are removed on success, and
    /// `hand_cards` is left untouched on failure.
    fn new(hand_cards: &mut Vec<Card>, indices: &Vec<usize>) -> Result<Self, MeldError>;

    /// Attempt to move the card of `hand_cards` chosen by `index` into the
    /// meld (possibly swapping it against one of the meld's wildcards); on
    /// failure, `hand_cards` and the meld are left untouched.
    fn layoff_card(&mut self, hand_cards: &mut Vec<Card>, index: usize) -> Result<(), MeldError>;

    /// Inspect the meld's cards.
    fn cards(&self) -> &Vec<Card>;
}

/// A Rummy meld.
/// There are 2 types:
/// - **Set**; >=3 cards of the same rank
/// - **Run**; >=3 sequential cards of the same suit
#[derive(Debug, Clone, PartialEq, Eq)]
pub enum Meld {
    SetMeld(SetMeld),
    Run(Run),
}

/// Whether the hand card `c` can be laid off on the set `st`.
pub open spec fn set_layoff_accepts(st: SetMeld, c: Card) -> bool {
    c.rank == st.spec_rank() || c.spec_is_wildcard()
}

/// Whether the hand card `c` can be laid off on the run `rn`.
pub open spec fn run_layoff_accepts(rn: Run, c: Card) -> bool {
    let m = rn.spec_cards();
    ||| c.spec_is_wildcard()
    ||| (c.deck_config.wildcard_rank is Some && first_replaceable_from(m, c, 0) < m.len())
    ||| c.spec_value() + 4 == m[0].spec_value()
    ||| m[m.len() - 1].spec_value() + 4 == c.spec_value()
}

/// Whether the hand card `c` can be laid off on the meld `m`.
pub open spec fn meld_layoff_accepts(m: Meld, c: Card) -> bool {
    match m {
        Meld::SetMeld(st) => set_layoff_accepts(st, c),
        Meld::Run(rn) => run_layoff_accepts(rn, c),
    }
}

/// What validating `indices` of `hand` as a meld returns: the set rules are
/// tried first, then the run rules; when both fail, the set's error is
/// reported.
pub open spec fn meld_selection_check(hand: Seq<Card>, idx: Seq<usize>) -> Result<(), MeldError> {
    if set_selection_check(hand, idx) is Ok {
        Ok(())
    } else if run_selection_check(hand, idx) is Ok {
        Ok(())
    } else {
        set_selection_check(hand, idx)
    }
}

/// What forming a meld checks: a repeated index is rejected up front, then
/// the selection is validated as a set or a run.
pub open spec fn meld_new_check(hand: Seq<Card>, idx: Seq<usize>) -> Result<(), MeldError> {
    if !indices_distinct(idx) {
        Err(MeldError::InvalidCardIndex)
    } else {
        meld_selection_check(hand, idx)
    }
}

/// Whether no index of `indices@` repeats.
pub(crate) fn indices_distinct_ok(indices: &Vec<usize>) -> (b: bool)
    ensures
        b == indices_distinct(indices@),
{
    let n = indices.len();
    let mut k: usize = 0;
    while k < n
        invariant
            k <= n,
            n == indices@.len(),
            forall|a: int, b: int| 0 <= a < b < indices@.len() && a < k ==> indices@[a] != indices@[b],
        decreases n - k,
    {
        let mut l: usize = k + 1;
        while l < n
            invariant
                k < l <= n,
                n == indices@.len(),
                forall|b: int| k < b < l ==> indices@[k as int] != indices@[b],
            decreases n - l,
        {
            if indices[l] == indices[k] {
                return false;
            }
            l = l + 1;
        }
        k = k + 1;
    }
    true
}

impl Meld {
    /// The meld's cards.
    pub open spec fn spec_cards(self) -> Seq<Card> {
        match self {
            Meld::SetMeld(st) => st.spec_cards(),
            Meld::Run(rn) => rn.spec_cards(),
        }
    }

    /// Basic well-formedness: a set keeps its set shape, a run is never
    /// empty.
    pub open spec fn wf(self) -> bool {
        match self {
            Meld::SetMeld(st) => st.wf(),
            Meld::Run(rn) => rn.wf(),
        }
    }

    /// Validity of a freshly formed meld: a set's shape, or a run's exact
    /// chain layout, over at least 3 cards.
    pub open spec fn formed_valid(self) -> bool {
        match self {
            Meld::SetMeld(st) => st.wf(),
            Meld::Run(rn) => run_chain_valid(rn.spec_cards()) && rn.spec_cards().len() >= 3,
        }
    }

    /// Return if the meld is a set.
    pub fn is_set(&self) -> (b: bool)
        ensures
            b == (self matches Meld::SetMeld(_)),
    {
        match self {
            Meld::SetMeld(_) => true,
            Meld::Run(_) => false,
        }
    }

    /// Return if the meld is a run.
    pub fn is_run(&self) -> (b: bool)
        ensures
            b == (self matches Meld::Run(_)),
    {
        !self.is_set()
    }

    /// Get an immutable reference to the meld's cards.
    pub fn cards(&self) -> (c: &Vec<Card>)
        ensures
            c@ == self.spec_cards(),
    {
        match self {
            Meld::SetMeld(st) => st.cards(),
            Meld::Run(rn) => rn.cards(),
        }
    }

    /// Returns `Ok` if the cards in `hand_cards` indexed by `indices` form
    /// a valid set or run; see [`meld_selection_check`].
    pub fn valid(hand_cards: &Vec<Card>, indices: &Vec<usize>) -> (r: Result<(), MeldError>)
        ensures
            r == meld_selection_check(hand_cards@, indices@),
    {
        match SetMeld::valid(hand_cards, indices) {
            Ok(()) => Ok(()),
            Err(set_err) => match Run::valid(hand_cards, indices) {
                Ok(()) => Ok(()),
                Err(_) => Err(set_err),
            },
        }
    }

    /// Attempt to create a new meld out of the cards in `hand_cards`
    /// indexed by `indices`: a set if they form one, else a run. On
    /// success the indexed cards move from the hand into the meld; on any
    /// failure the hand is left untouched.
    pub fn new(hand_cards: &mut Vec<Card>, indices: &Vec<usize>) -> (r: Result<Meld, MeldError>)
        ensures
            meld_new_check(old(hand_cards)@, indices@) matches Err(e) ==> (r matches Err(e2) && e2
                == e) && final(hand_cards)@ == old(hand_cards)@,
            meld_new_check(old(hand_cards)@, indices@) is Ok ==> (r matches Ok(meld) && {
                let chosen = chosen_cards(old(hand_cards)@, indices@);
                &&& meld.formed_valid()
                &&& meld.wf()
                &&& (meld matches Meld::SetMeld(_)) == (set_selection_check(
                    old(hand_cards)@,
                    indices@,
                ) is Ok)
                &&& meld.spec_cards().to_multiset() == chosen.to_multiset()
                &&& meld.spec_cards().len() == indices@.len()
                &&& final(hand_cards)@ == remove_positions(old(hand_cards)@, indices@)
                &&& final(hand_cards)@.to_multiset().add(meld.spec_cards().to_multiset()) == old(
                    hand_cards,
                )@.to_multiset()
                &&& final(hand_cards)@.len() + indices@.len() == old(hand_cards)@.len()
            }),
    {
        if !indices_distinct_ok(indices) {
            return Err(MeldError::InvalidCardIndex);
        }

        match SetMeld::new(hand_cards, indices) {
            Ok(set) => Ok(Meld::SetMeld(set)),
            Err(set_err) => match Run::new(hand_cards, indices) {
                Ok(run) => {
                    proof {
                        lemma_wild_partition(chosen_cards(old(hand_cards)@, indices@));
                    }
                    Ok(Meld::Run(run))
                },
                Err(_) => Err(set_err),
            },
        }
    }

    /// Attempt to add the card of `hand_cards` chosen by `index` to the
    /// meld, under the rules of its kind. On failure, both the hand and
    /// the meld are left exactly as they were.
    pub fn layoff_card(&mut self, hand_cards: &mut Vec<Card>, index: usize) -> (r: Result<
        (),
        MeldError,
    >)
        requires
            old(self).wf(),
        ensures
            final(self).wf(),
            (*final(self) matches Meld::SetMeld(_)) == (*old(self) matches Meld::SetMeld(_)),
            final(hand_cards)@.len() + final(self).spec_cards().len() == old(hand_cards)@.len()
                + old(self).spec_cards().len(),
            final(hand_cards)@.to_multiset().add(final(self).spec_cards().to_multiset()) == old(
                hand_cards,
            )@.to_multiset().add(old(self).spec_cards().to_multiset()),
            r is Err ==> final(hand_cards)@ == old(hand_cards)@ && *final(self) == *old(self),
            index >= old(hand_cards)@.len() ==> (r matches Err(e) && e
                == MeldError::InvalidCardIndex),
            index < old(hand_cards)@.len() ==> (if meld_layoff_accepts(
                *old(self),
                old(hand_cards)@[index as int],
            ) {
                r is Ok
            } else {
                r matches Err(e) && e == MeldError::InvalidLayoff
            }),
    {
        match self {
            Meld::SetMeld(set) => set.layoff_card(hand_cards, index),
            Meld::Run(run) => run.layoff_card(hand_cards, index),
        }
    }
}


/// The index of the first selection in `melds` that does not validate as a
/// meld of `hand` (the number of selections when all validate), scanning
/// from `from`.
pub open spec fn first_failing_meld(hand: Seq<Card>, melds: Seq<Seq<usize>>, from: int) -> int
    decreases melds.len() - from,
{
    if from < 0 || from >= melds.len() {
        melds.len() as int
    } else if meld_selection_check(hand, melds[from]) is Err {
        from
    } else {
        first_failing_meld(hand, melds, from + 1)
    }
}

/// The scan over the selections lands on the first failing one, or on the
/// total count.
pub proof fn lemma_first_failing_meld(hand: Seq<Card>, melds: Seq<Seq<usize>>, from: int)
    requires
        0 <= from <= melds.len(),
    ensures
        from <= first_failing_meld(hand, melds, from) <= melds.len(),
        first_failing_meld(hand, melds, from) < melds.len() ==> meld_selection_check(
            hand,
            melds[first_failing_meld(hand, melds, from)],
        ) is Err,
        forall|i: int|
            from <= i < first_failing_meld(hand, melds, from) ==> meld_selection_check(
                hand,
                melds[i],
            ) is Ok,
    decreases melds.len() - from,
{
    if from < melds.len() && !(meld_selection_check(hand, melds[from]) is Err) {
        lemma_first_failing_meld(hand, melds, from + 1);
    }
}

/// The combined cards of a list of melds.
pub open spec fn melds_multiset(s: Seq<Meld>) -> Multiset<Card>
    decreases s.len(),
{
    if s.len() == 0 {
        Multiset::empty()
    } else {
        melds_multiset(s.drop_last()).add(s.last().spec_cards().to_multiset())
    }
}

/// The combined cards chosen by a list of selections.
pub open spec fn chosen_melds_multiset(hand: Seq<Card>, melds: Seq<Seq<usize>>) -> Multiset<Card>
    decreases melds.len(),
{
    if melds.len() == 0 {
        Multiset::empty()
    } else {
        chosen_melds_multiset(hand, melds.drop_last()).add(
            chosen_cards(hand, melds.last()).to_multiset(),
        )
    }
}

/// Choosing by the flattened selections chooses the same cards as choosing
/// selection by selection.
proof fn lemma_chosen_flatten(hand: Seq<Card>, melds: Seq<Seq<usize>>)
    ensures
        chosen_cards(hand, melds.flatten()).to_multiset() == chosen_melds_multiset(hand, melds),
    decreases melds.len(),
{
    broadcast use Seq::lemma_flatten_push;

    if melds.len() == 0 {
        assert(melds.flatten() =~= Seq::<usize>::empty());
        assert(chosen_cards(hand, melds.flatten()) =~= Seq::<Card>::empty());
        assert(chosen_cards(hand, melds.flatten()).to_multiset() =~= Multiset::<Card>::empty());
    } else {
        let m1 = melds.drop_last();
        lemma_chosen_flatten(hand, m1);
        assert(melds =~= m1.push(melds.last()));
        assert(melds.flatten() == m1.flatten() + melds.last());
        assert(chosen_cards(hand, m1.flatten() + melds.last()) =~= chosen_cards(hand, m1.flatten())
            + chosen_cards(hand, melds.last()));
        vstd::seq_lib::lemma_multiset_commutative(
            chosen_cards(hand, m1.flatten()),
            chosen_cards(hand, melds.last()),
        );
    }
}

/// Selections that are each in bounds flatten to an in-bounds index list.
proof fn lemma_flatten_in_bounds(melds: Seq<Seq<usize>>, len: int)
    requires
        forall|i: int| 0 <= i < melds.len() ==> indices_in_bounds(#[trigger] melds[i], len),
    ensures
        indices_in_bounds(melds.flatten(), len),
    decreases melds.len(),
{
    broadcast use Seq::lemma_flatten_push;

    if melds.len() == 0 {
        assert(melds.flatten() =~= Seq::<usize>::empty());
    } else {
        let m1 = melds.drop_last();
        lemma_flatten_in_bounds(m1, len);
        assert(melds =~= m1.push(melds.last()));
        assert(melds.flatten() == m1.flatten() + melds.last());
        assert(indices_in_bounds(melds.last(), len));
        assert forall|k: int| 0 <= k < melds.flatten().len() implies melds.flatten()[k] < len by {
            if k < m1.flatten().len() {
                assert(melds.flatten()[k] == m1.flatten()[k]);
            } else {
                assert(melds.flatten()[k] == melds.last()[k - m1.flatten().len()]);
            }
        }
    }
}

/// A list of `0, 1, ..., n - 1`.
fn identity_indices(n: usize) -> (v: Vec<usize>)
    ensures
        v@.len() == n,
        forall|k: int| 0 <= k < n ==> v@[k] == k,
        indices_distinct(v@),
        indices_in_bounds(v@, n as int),
{
    let mut v: Vec<usize> = Vec::new();
    let mut k: usize = 0;
    while k < n
        invariant
            k <= n,
            v@.len() == k,
            forall|i: int| 0 <= i < k ==> v@[i] == i,
        decreases n - k,
    {
        v.push(k);
        k = k + 1;
    }
    v
}

impl Meld {
    /// Attempt to form multiple melds simultaneously, in the order provided
    /// in `indices_of_melds`, returning all the formed melds if successful.
    ///
    /// On the first failure anywhere (a reused card index, or one selection
    /// that validates as neither set nor run), an
    /// `Err(MeldError::FailedMultipleMelds)` names the failing selection
    /// and `hand_cards` is not mutated. Only on total success are all the
    /// chosen cards removed from the hand, in one pass.
    #[verifier::rlimit(100)]
    pub fn multiple(hand_cards: &mut Vec<Card>, indices_of_melds: &Vec<Vec<usize>>) -> (r: Result<
        Vec<Meld>,
        MeldError,
    >)
        ensures
            !indices_distinct(indices_of_melds.deep_view().flatten()) ==> (r matches Err(e)
                && (e matches MeldError::FailedMultipleMelds { meld_index, err } && meld_index == 0
                && *err == MeldError::InvalidCardIndex)) && final(hand_cards)@ == old(
                hand_cards,
            )@,
            ({
                let melds = indices_of_melds.deep_view();
                let ff = first_failing_meld(old(hand_cards)@, melds, 0);
                &&& (indices_distinct(melds.flatten()) && ff < melds.len()) ==> (r matches Err(e)
                    && (e matches MeldError::FailedMultipleMelds { meld_index, err } && meld_index
                    == ff && Err::<(), MeldError>(*err) == meld_selection_check(
                    old(hand_cards)@,
                    melds[ff],
                ))) && final(hand_cards)@ == old(hand_cards)@
                &&& (indices_distinct(melds.flatten()) && ff == melds.len()) ==> (r matches Ok(v)
                    && {
                    &&& v@.len() == melds.len()
                    &&& forall|i: int|
                        0 <= i < v@.len() ==> (#[trigger] v@[i]).formed_valid() && v@[i].wf()
                            && v@[i].spec_cards().to_multiset() == chosen_cards(
                            old(hand_cards)@,
                            melds[i],
                        ).to_multiset() && v@[i].spec_cards().len() == melds[i].len()
                    &&& final(hand_cards)@ == remove_positions(
                        old(hand_cards)@,
                        melds.flatten(),
                    )
                    &&& final(hand_cards)@.len() + melds.flatten().len() == old(
                        hand_cards,
                    )@.len()
                    &&& final(hand_cards)@.to_multiset().add(melds_multiset(v@)) == old(
                        hand_cards,
                    )@.to_multiset()
                })
            }),
    {
        broadcast use Seq::lemma_flatten_push;

        let ghost melds = indices_of_melds.deep_view();
        let ghost flat = melds.flatten();

        // Validate that no card index is reused across the melds.
        let mut all_indices: Vec<usize> = Vec::new();
        let mut i: usize = 0;
        while i < indices_of_melds.len()
            invariant
                i <= melds.len(),
                melds == indices_of_melds.deep_view(),
                all_indices@ == melds.take(i as int).flatten(),
            decreases melds.len() - i,
        {
            let ghost pre = all_indices@;
            let inner_len = indices_of_melds[i].len();
            let mut j: usize = 0;
            while j < inner_len
                invariant
                    j <= inner_len,
                    i < melds.len(),
                    melds == indices_of_melds.deep_view(),
                    inner_len == melds[i as int].len(),
                    all_indices@ == pre + melds[i as int].take(j as int),
                decreases inner_len - j,
            {
                all_indices.push(indices_of_melds[i][j]);
                proof {
                    assert(indices_of_melds@[i as int]@ == melds[i as int]);
                    assert(melds[i as int].take(j as int + 1) =~= melds[i as int].take(
                        j as int,
                    ).push(melds[i as int][j as int]));
                    assert(all_indices@ =~= pre + melds[i as int].take(j as int + 1));
                }
                j = j + 1;
            }
            proof {
                assert(melds[i as int].take(inner_len as int) =~= melds[i as int]);
                assert(melds.take(i as int + 1) =~= melds.take(i as int).push(melds[i as int]));
                melds.take(i as int).lemma_flatten_push(melds[i as int]);
                assert(melds.take(i as int + 1).flatten() == melds.take(i as int).flatten()
                    + melds[i as int]);
            }
            i = i + 1;
        }
        proof {
            assert(melds.take(melds.len() as int) =~= melds);
        }
        if !indices_distinct_ok(&all_indices) {
            return Err(
                MeldError::FailedMultipleMelds {
                    meld_index: 0,
                    err: Box::new(MeldError::InvalidCardIndex),
                },
            );
        }

        // Validate that every selection forms a valid meld on its own.
        let mut i: usize = 0;
        while i < indices_of_melds.len()
            invariant
                i <= melds.len(),
                melds == indices_of_melds.deep_view(),
                hand_cards@ == old(hand_cards)@,
                indices_distinct(melds.flatten()),
                forall|k: int|
                    0 <= k < i ==> meld_selection_check(hand_cards@, #[trigger] melds[k]) is Ok,
            decreases melds.len() - i,
        {
            proof {
                assert(indices_of_melds@[i as int]@ == melds[i as int]);
            }
            match Meld::valid(hand_cards, &indices_of_melds[i]) {
                Ok(()) => {},
                Err(err) => {
                    proof {
                        lemma_first_failing_meld(old(hand_cards)@, melds, 0);
                        let ff = first_failing_meld(old(hand_cards)@, melds, 0);
                        if ff < i as int {
                            assert(meld_selection_check(old(hand_cards)@, melds[ff]) is Ok);
                        }
                        if ff > i as int {
                            assert(meld_selection_check(old(hand_cards)@, melds[i as int]) is Ok);
                        }
                        assert(ff == i as int);
                    }
                    return Err(
                        MeldError::FailedMultipleMelds { meld_index: i, err: Box::new(err) },
                    );
                },
            }
            i = i + 1;
        }
        proof {
            lemma_first_failing_meld(old(hand_cards)@, melds, 0);
            let ff = first_failing_meld(old(hand_cards)@, melds, 0);
            if ff < melds.len() {
                assert(meld_selection_check(old(hand_cards)@, melds[ff]) is Ok);
            }
        }

        // Form each meld from a copy of its cards; validation already
        // succeeded, so formation cannot fail.
        let mut formed: Vec<Meld> = Vec::new();
        let mut i: usize = 0;
        while i < indices_of_melds.len()
            invariant
                i <= melds.len(),
                melds == indices_of_melds.deep_view(),
                hand_cards@ == old(hand_cards)@,
                forall|k: int|
                    0 <= k < melds.len() ==> meld_selection_check(hand_cards@, #[trigger] melds[k])
                        is Ok,
                formed@.len() == i,
                forall|k: int|
                    0 <= k < i ==> (#[trigger] formed@[k]).formed_valid() && formed@[k].wf()
                        && formed@[k].spec_cards().to_multiset() == chosen_cards(
                        hand_cards@,
                        melds[k],
                    ).to_multiset() && formed@[k].spec_cards().len() == melds[k].len(),
                melds_multiset(formed@) == chosen_melds_multiset(hand_cards@, melds.take(i as int)),
            decreases melds.len() - i,
        {
            proof {
                assert(indices_of_melds@[i as int]@ == melds[i as int]);
                assert(meld_selection_check(hand_cards@, melds[i as int]) is Ok);
            }
            let mut sub_cards = collect_chosen(hand_cards, &indices_of_melds[i]);
            let ident = identity_indices(sub_cards.len());
            let ghost chosen_i = chosen_cards(hand_cards@, melds[i as int]);
            proof {
                assert(chosen_cards(sub_cards@, ident@) =~= chosen_i);
                assert(set_selection_check(sub_cards@, ident@) == set_selection_check(
                    hand_cards@,
                    melds[i as int],
                ));
                assert(run_selection_check(sub_cards@, ident@) == run_selection_check(
                    hand_cards@,
                    melds[i as int],
                ));
                assert(meld_new_check(sub_cards@, ident@) is Ok);
            }
            let ghost pre_formed = formed@;
            match Meld::new(&mut sub_cards, &ident) {
                Ok(meld) => {
                    formed.push(meld);
                    proof {
                        assert(formed@.drop_last() =~= pre_formed);
                        assert(melds.take(i as int + 1) =~= melds.take(i as int).push(
                            melds[i as int],
                        ));
                        assert(melds.take(i as int + 1).drop_last() =~= melds.take(i as int));
                    }
                },
                Err(_) => {
                    proof {
                        assert(false);
                    }
                    return Err(MeldError::InvalidCardIndex);
                },
            }
            i = i + 1;
        }
        proof {
            assert(melds.take(melds.len() as int) =~= melds);
        }

        // Delete all the chosen cards from the hand in one pass.
        let hn = hand_cards.len();
        proof {
            assert(hand_cards@.len() == hn);
            assert forall|k: int|
                0 <= k < melds.len() implies indices_in_bounds(
                #[trigger] melds[k],
                hand_cards@.len() as int,
            ) by {
                assert(meld_selection_check(hand_cards@, melds[k]) is Ok);
            }
            lemma_flatten_in_bounds(melds, hand_cards@.len() as int);
            lemma_selection_conserves(hand_cards@, flat);
            lemma_chosen_flatten(hand_cards@, melds);
        }
        remove_chosen(hand_cards, &all_indices);
        Ok(formed)
    }
}

impl Meldable for SetMeld {
    fn valid(hand_cards: &Vec<Card>, indices: &Vec<usize>) -> Result<(), MeldError> {
        SetMeld::valid(hand_cards, indices)
    }

    fn new(hand_cards: &mut Vec<Card>, indices: &Vec<usize>) -> Result<SetMeld, MeldError> {
        SetMeld::new(hand_cards, indices)
    }

    fn layoff_card(&mut self, hand_cards: &mut Vec<Card>, index: usize) -> Result<(), MeldError> {
        SetMeld::layoff_card(self, hand_cards, index)
    }

    fn cards(&self) -> &Vec<Card> {
        SetMeld::cards(self)
    }
}

impl Meldable for Meld {
    fn valid(hand_cards: &Vec<Card>, indices: &Vec<usize>) -> Result<(), MeldError> {
        Meld::valid(hand_cards, indices)
    }

    fn new(hand_cards: &mut Vec<Card>, indices: &Vec<usize>) -> Result<Meld, MeldError> {
        Meld::new(hand_cards, indices)
    }

    fn layoff_card(&mut self, hand_cards: &mut Vec<Card>, index: usize) -> Result<(), MeldError> {
        match self {
            Meld::SetMeld(set) => set.layoff_card(hand_cards, index),
            Meld::Run(run) => {
                if run.cards.len() < 1 {
                    return Err(MeldError::InvalidLayoff);
                }
                run.layoff_card(hand_cards, index)
            },
        }
    }

    fn cards(&self) -> &Vec<Card> {
        Meld::cards(self)
    }
}


impl Meld {
    /// Whether laying off the card of `hand_cards` chosen by `index` on
    /// this meld would be accepted, without touching either.
    pub fn accepts_layoff(&self, hand_cards: &Vec<Card>, index: usize) -> (b: bool)
        requires
            self matches Meld::Run(rn) ==> rn.spec_cards().len() >= 1,
        ensures
            b == (index < hand_cards@.len() && meld_layoff_accepts(
                *self,
                hand_cards@[index as int],
            )),
    {
        if index >= hand_cards.len() {
            return false;
        }
        let c = hand_cards[index];
        match self {
            Meld::SetMeld(st) => c.rank == st.set_rank || c.is_wildcard(),
            Meld::Run(rn) => {
                if c.is_wildcard() {
                    return true;
                }
                let has_wildcard_rank = match c.deck_config.wildcard_rank {
                    Some(_) => true,
                    None => false,
                };
                let ghost m = rn.spec_cards();
                if has_wildcard_rank {
                    let len = rn.cards.len();
                    let mut i: usize = 0;
                    while i < len
                        invariant
                            i <= len,
                            len == m.len(),
                            len >= 1,
                            m == rn.spec_cards(),
                            *self matches Meld::Run(rn2) && rn2 == *rn,
                            index < hand_cards@.len(),
                            c == hand_cards@[index as int],
                            !c.spec_is_wildcard(),
                            c.deck_config.wildcard_rank is Some,
                            forall|k: int| 0 <= k < i ==> !replaceable_at(m, c, k),
                        decreases len - i,
                    {
                        let here_wild = rn.cards[i].is_wildcard();
                        let next_fits = i < len - 1 && c.same_suit_consecutive_rank(
                            &rn.cards[i + 1],
                        );
                        let prev_fits = i > 0 && rn.cards[i - 1].same_suit_consecutive_rank(&c);
                        if here_wild && (next_fits || prev_fits) {
                            proof {
                                assert(replaceable_at(m, c, i as int));
                                lemma_first_replaceable(m, c, 0);
                                let f = first_replaceable_from(m, c, 0);
                                if f > i as int {
                                    assert(!replaceable_at(m, c, i as int));
                                }
                            }
                            return true;
                        }
                        i = i + 1;
                    }
                    proof {
                        lemma_first_replaceable(m, c, 0);
                        let f = first_replaceable_from(m, c, 0);
                        if f < m.len() {
                            assert(!replaceable_at(m, c, f));
                        }
                    }
                }
                c.same_suit_consecutive_rank(&rn.cards[0]) || rn.cards[rn.cards.len()
                    - 1].same_suit_consecutive_rank(&c)
            },
        }
    }
}


/// The non-wildcards of a valid run chain, in order: they open with the
/// chain's first card, ascend strictly, stay aligned to its base value,
/// and never overshoot the chain's span.
#[verifier::rlimit(100)]
proof fn lemma_chain_nonwilds(s: Seq<Card>)
    requires
        run_chain_valid(s),
    ensures
        nonwilds(s).len() >= 1,
        nonwilds(s)[0] == s[0],
        forall|k: int|
            0 <= k < nonwilds(s).len() ==> ((#[trigger] nonwilds(s)[k]).spec_value()
                - s[0].spec_value()) % 4 == 0,
        forall|k1: int, k2: int|
            0 <= k1 < k2 < nonwilds(s).len() ==> (#[trigger] nonwilds(s)[k1]).spec_value() < (
            #[trigger] nonwilds(s)[k2]).spec_value(),
        seq_min_value(nonwilds(s)) == s[0].spec_value(),
        seq_max_value(nonwilds(s)) <= s[0].spec_value() + 4 * (s.len() - 1),
    decreases s.len(),
{
    broadcast use vstd::seq_lib::group_filter_ensures;

    reveal(Seq::filter);
    if s.len() == 1 {
        assert(nonwilds(s) =~= seq![s[0]]);
    } else {
        let s1 = s.drop_last();
        assert(run_chain_valid(s1)) by {
            assert(s1[0] == s[0]);
            assert(forall|i: int| 0 <= i < s1.len() ==> s1[i] == s[i]);
        }
        lemma_chain_nonwilds(s1);
        let nw1 = nonwilds(s1);
        lemma_min_max_value(nw1);
        let x = s.last();
        lemma_filter_push(s1, |c: Card| !c.spec_is_wildcard(), x);
        assert(s =~= s1.push(x));
        if x.spec_is_wildcard() {
            assert(nonwilds(s) == nw1);
            assert(seq_max_value(nonwilds(s)) <= s[0].spec_value() + 4 * (s.len() - 1));
        } else {
            assert(x.spec_value() == s[0].spec_value() + 4 * (s.len() - 1));
            assert(nonwilds(s) == nw1.push(x));
            let nw = nonwilds(s);
            assert(nw.drop_last() =~= nw1);
            assert(nw.last() == x);
            assert(forall|k: int| 0 <= k < nw1.len() ==> nw[k] == nw1[k]);
            assert forall|k: int|
                0 <= k < nw.len() implies ((#[trigger] nw[k]).spec_value() - s[0].spec_value()) % 4
                == 0 by {
                if k == nw.len() - 1 {
                    vstd::arithmetic::div_mod::lemma_fundamental_div_mod_converse(
                        x.spec_value() - s[0].spec_value(),
                        4,
                        s.len() - 1,
                        0,
                    );
                }
            }
            assert forall|k1: int, k2: int|
                0 <= k1 < k2 < nw.len() implies (#[trigger] nw[k1]).spec_value() < (
            #[trigger] nw[k2]).spec_value() by {
                if k2 == nw.len() - 1 {
                    assert(nw[k1].spec_value() <= seq_max_value(nw1));
                    assert(seq_max_value(nw1) <= s[0].spec_value() + 4 * (s1.len() - 1));
                }
            }
            assert(seq_min_value(nw) == s[0].spec_value()) by {
                assert(x.spec_value() >= seq_min_value(nw1));
            }
            assert(seq_max_value(nw) <= s[0].spec_value() + 4 * (s.len() - 1)) by {
                assert(seq_max_value(nw1) <= s[0].spec_value() + 4 * (s1.len() - 1));
            }
        }
    }
}

/// A valid run chain's non-wildcards are pairwise distinct in value and
/// aligned.
proof fn lemma_chain_aligned_distinct(s: Seq<Card>)
    requires
        run_chain_valid(s),
    ensures
        run_aligned_distinct(nonwilds(s)),
{
    lemma_chain_nonwilds(s);
    let nw = nonwilds(s);
    assert forall|i: int, j: int|
        0 <= i < nw.len() && 0 <= j < nw.len() && i != j implies (#[trigger] nw[i]).spec_value()
        != (#[trigger] nw[j]).spec_value() && ((nw[i].spec_value() - nw[j].spec_value()) % 4
        == 0) by {
        let x = if i < j {
            i
        } else {
            j
        };
        let y = if i < j {
            j
        } else {
            i
        };
        assert(nw[x].spec_value() < nw[y].spec_value());
        lemma_mod4_neg(nw[x].spec_value() - s[0].spec_value());
        lemma_mod4_add(
            nw[y].spec_value() - s[0].spec_value(),
            -(nw[x].spec_value() - s[0].spec_value()),
        );
        assert((nw[y].spec_value() - nw[x].spec_value()) % 4 == 0);
        lemma_mod4_neg(nw[y].spec_value() - nw[x].spec_value());
    }
}

/// A valid run chain's gaps never need more wildcards than the chain
/// holds.
proof fn lemma_chain_needed(s: Seq<Card>)
    requires
        run_chain_valid(s),
    ensures
        nonwilds(s).len() >= 1,
        run_wildcards_needed(s) <= s.len() - nonwilds(s).len(),
{
    lemma_chain_nonwilds(s);
    lemma_wild_partition(s);
    let nw = nonwilds(s);
    lemma_min_max_value(nw);
    let span = seq_max_value(nw) - seq_min_value(nw);
    assert(span <= 4 * (s.len() - 1));
    assert(span % 4 == 0) by {
        let b = choose|b: int| 0 <= b < nw.len() && nw[b].spec_value() == seq_max_value(nw);
        assert(seq_min_value(nw) == s[0].spec_value());
        assert((nw[b].spec_value() - s[0].spec_value()) % 4 == 0);
    }
    vstd::arithmetic::div_mod::lemma_fundamental_div_mod(span, 4);
    assert(span / 4 <= s.len() - 1) by {
        if span / 4 > s.len() - 1 {
            assert(span >= 4 * (span / 4));
        }
    }
}

/// Any freshly formed meld passes its own re-validation: checking its
/// cards, selected in place, against the set and run rules again comes
/// back `Ok`.
pub proof fn lemma_formed_meld_revalidates(m: Meld)
    requires
        m.formed_valid(),
        m.spec_cards().len() <= usize::MAX,
    ensures
        meld_selection_check(
            m.spec_cards(),
            Seq::new(m.spec_cards().len(), |i: int| i as usize),
        ) is Ok,
{
    let s = m.spec_cards();
    let ident = Seq::new(s.len(), |i: int| i as usize);
    assert(indices_in_bounds(ident, s.len() as int));
    assert(indices_distinct(ident));
    assert(chosen_cards(s, ident) =~= s);
    match m {
        Meld::SetMeld(st) => {
            let r = st.spec_rank();
            assert(set_cards_valid(s, r));
            let i = choose|i: int| 0 <= i < s.len() && !s[i].spec_is_wildcard();
            assert(!(forall|i: int| 0 <= i < s.len() ==> s[i].spec_is_wildcard())) by {
                assert(!s[i].spec_is_wildcard());
            }
            let f = first_nonwild_index(s);
            lemma_first_nonwild_in_range(s, i);
            assert(!s[f].spec_is_wildcard());
            assert(s[f].rank == r);
            assert(set_selection_check(s, ident) is Ok);
        },
        Meld::Run(rn) => {
            assert(run_chain_valid(s));
            lemma_chain_aligned_distinct(s);
            lemma_chain_needed(s);
            assert(run_selection_check(s, ident) is Ok);
        },
    }
}

/// The first-non-wildcard scan stays in range when some card is not wild.
proof fn lemma_first_nonwild_in_range(s: Seq<Card>, i: int)
    requires
        0 <= i < s.len(),
        !s[i].spec_is_wildcard(),
    ensures
        0 <= first_nonwild_index(s) <= i,
        !s[first_nonwild_index(s)].spec_is_wildcard(),
    decreases s.len(),
{
    if s.len() > 0 && s[0].spec_is_wildcard() {
        lemma_first_nonwild_in_range(s.skip(1), i - 1);
    }
}

} // verus!
