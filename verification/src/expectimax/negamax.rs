//! Move ordering helpers of the expectimax search.

use vstd::prelude::*;

use crate::env::types::Move;

verus! {

broadcast use vstd::seq_lib::group_to_multiset_ensures;

/// `s` with its entry at `pos` moved to the front, the others in their order.
pub open spec fn moved_to_front(s: Seq<Move>, pos: int) -> Seq<Move> {
    seq![s[pos]] + s.subrange(0, pos) + s.subrange(pos + 1, s.len() as int)
}

/// `pos` is the first entry of `s` with the given action.
pub open spec fn first_with_action(s: Seq<Move>, pos: int, action: usize) -> bool {
    &&& 0 <= pos < s.len()
    &&& s[pos].action == action
    &&& forall|j: int| 0 <= j < pos ==> #[trigger] s[j].action != action
}

/// Moves the first move with the given action to the front (hint or table move first),
/// keeping the order of the others; leaves the list alone when no move has it.
pub fn move_to_front(moves: &mut [Move], action: usize)
    ensures
        (forall|i: int| 0 <= i < old(moves)@.len() ==> #[trigger] old(moves)@[i].action != action)
            ==> final(moves)@ == old(moves)@,
        forall|pos: int| #[trigger] first_with_action(old(moves)@, pos, action)
            ==> final(moves)@ == moved_to_front(old(moves)@, pos),
{
    let len = moves.len();
    let mut pos: usize = 0;
    while pos < len && moves[pos].action != action
        invariant
            len == moves@.len(),
            pos <= len,
            moves@ == old(moves)@,
            forall|j: int| 0 <= j < pos ==> #[trigger] moves@[j].action != action,
        decreases len - pos,
    {
        pos += 1;
    }
    if pos == len {
        return;
    }
    let m = moves[pos];
    let mut i: usize = pos;
    while i > 0
        invariant
            len == moves@.len(),
            pos < len,
            i <= pos,
            m == old(moves)@[pos as int],
            forall|j: int| 0 <= j < i ==> #[trigger] moves@[j] == old(moves)@[j],
            forall|j: int| i < j <= pos ==> #[trigger] moves@[j] == old(moves)@[j - 1],
            forall|j: int| pos < j < len ==> #[trigger] moves@[j] == old(moves)@[j],
        decreases i,
    {
        moves[i] = moves[i - 1];
        i -= 1;
    }
    moves[0] = m;
    proof {
        assert(moves@ =~= moved_to_front(old(moves)@, pos as int));
        assert forall|p: int| #[trigger] first_with_action(old(moves)@, p, action) implies p == pos by {
            if p < pos {
                assert(old(moves)@[p].action != action);
            }
            if p > pos {
                assert(old(moves)@[pos as int].action != action);
            }
        }
    }
}

/// Moving an entry to the front only reorders the list: the same moves, as often.
pub proof fn law_move_to_front_permutes(s: Seq<Move>, pos: int)
    requires
        0 <= pos < s.len(),
    ensures
        moved_to_front(s, pos).to_multiset() == s.to_multiset(),
{
    broadcast use vstd::seq_lib::lemma_multiset_commutative;
    broadcast use vstd::multiset::group_multiset_axioms;

    let a = s.subrange(0, pos);
    let x = seq![s[pos]];
    let b = s.subrange(pos + 1, s.len() as int);
    assert(s =~= a + x + b);
    assert((x + a + b).to_multiset() =~= x.to_multiset().add(a.to_multiset()).add(b.to_multiset()));
    assert((a + x + b).to_multiset() =~= a.to_multiset().add(x.to_multiset()).add(b.to_multiset()));
}

/// Moving the entry at `pos` to the front puts it first, shifts the entries before it
/// back by one, and leaves the entries after it in place.
pub proof fn law_move_to_front_positions(s: Seq<Move>, pos: int)
    requires
        0 <= pos < s.len(),
    ensures
        moved_to_front(s, pos).len() == s.len(),
        moved_to_front(s, pos)[0] == s[pos],
        forall|i: int| 0 <= i < pos ==> #[trigger] moved_to_front(s, pos)[i + 1] == s[i],
        forall|i: int| pos < i < s.len() ==> #[trigger] moved_to_front(s, pos)[i] == s[i],
{
}

} // verus!
