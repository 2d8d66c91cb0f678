//! Per-creature actions and the column operation that drops dead creatures
//! from every per-creature array.

use vstd::prelude::*;
use vstd::multiset::Multiset;
use crate::heapless;
use crate::rng::{two_pow_64, xoshiro_next, SimRng};

verus! {

broadcast use vstd::seq_lib::group_to_multiset_ensures;

/// One discrete action a creature chose this tick.
#[derive(Copy, Clone, Debug, PartialEq, Eq, Structural)]
pub enum Action {
    Graze,
    Eat,
    Split,
}

impl Action {
    /// Every action, in index order.
    pub const ALL: [Action; 3] = [Action::Graze, Action::Eat, Action::Split];

    /// Position of the action in `ALL` (its logit / one-hot index).
    pub open spec fn spec_index(self) -> u8 {
        match self {
            Action::Graze => 0,
            Action::Eat => 1,
            Action::Split => 2,
        }
    }

    /// Position of the action in `ALL` (its logit / one-hot index).
    pub fn index(self) -> (i: u8)
        ensures
            i == self.spec_index(),
            i < 3,
    {
        match self {
            Action::Graze => 0,
            Action::Eat => 1,
            Action::Split => 2,
        }
    }

    /// The action at position `i` of `ALL`, if there is one.
    pub fn from_index(i: u8) -> (a: Option<Action>)
        ensures
            a is Some <==> i < 3,
            a matches Some(x) ==> x.spec_index() == i,
    {
        if i == 0 {
            Some(Action::Graze)
        } else if i == 1 {
            Some(Action::Eat)
        } else if i == 2 {
            Some(Action::Split)
        } else {
            None
        }
    }
}

/// Reading an action's index back gives the same action.
pub proof fn lemma_action_index_round_trip(a: Action, b: Action)
    ensures
        a.spec_index() == b.spec_index() ==> a == b,
        a.spec_index() < 3,
{
}

/// End-of-tick promotion: every creature's last action becomes the action
/// it took this tick.
pub fn promote_actions(last_action: &mut Vec<Action>, action_this_tick: &[Action])
    requires
        old(last_action)@.len() == action_this_tick@.len(),
    ensures
        final(last_action)@ == action_this_tick@,
{
    let n = action_this_tick.len();
    let mut i: usize = 0;
    while i < n
        invariant
            n == action_this_tick@.len(),
            last_action@.len() == n,
            i <= n,
            forall|j: int| 0 <= j < i ==> #[trigger] last_action@[j] == action_this_tick@[j],
        decreases n - i,
    {
        last_action.set(i, action_this_tick[i]);
        i = i + 1;
    }
    assert(last_action@ =~= action_this_tick@);
}

/// Index of the first creature whose id is `id`, if any.
pub fn creature_idx_by_id(ids: &[u64], id: u64) -> (r: Option<u32>)
    requires
        ids@.len() <= u32::MAX,
    ensures
        r is None <==> !ids@.contains(id),
        r matches Some(i) ==> i < ids@.len() && ids@[i as int] == id
            && forall|j: int| 0 <= j < i ==> ids@[j] != id,
{
    let mut i: usize = 0;
    while i < ids.len()
        invariant
            i <= ids@.len(),
            ids@.len() <= u32::MAX,
            forall|j: int| 0 <= j < i ==> ids@[j] != id,
        decreases ids@.len() - i,
    {
        if ids[i] == id {
            return Some(i as u32);
        }
        i = i + 1;
    }
    proof {
        if ids@.contains(id) {
            let j = choose|j: int| 0 <= j < ids@.len() && ids@[j] == id;
            assert(ids@[j] != id);
        }
    }
    None
}

/// Position of the first `v` in `valid` from `i` on, or `valid.len()`.
pub open spec fn first_pos(valid: Seq<u8>, v: u8, i: int) -> int
    decreases valid.len() - i,
{
    if i < 0 || i >= valid.len() {
        valid.len() as int
    } else if valid[i] == v {
        i
    } else {
        first_pos(valid, v, i + 1)
    }
}

/// The eye counts an eye-count mutation may move to from `current`: the
/// valid counts just before and just after `current` in `valid` (taken as
/// position 0 when `current` is not listed), in that order.
pub open spec fn eye_neighbours(valid: Seq<u8>, current: u8) -> Seq<u8> {
    let p = first_pos(valid, current, 0);
    let i = if p < valid.len() { p } else { 0 };
    let before = if i > 0 { seq![valid[i - 1]] } else { Seq::empty() };
    let after = if i + 1 < valid.len() { seq![valid[i + 1]] } else { Seq::empty() };
    before + after
}

/// The eye counts `current` may mutate to, among the ascending list of
/// valid counts `valid`.
pub fn eye_count_candidates(valid: &[u8], current: u8) -> (c: heapless::Vec<u8, 2>)
    ensures
        c@ == eye_neighbours(valid@, current),
        c.wf(),
{
    let mut i: usize = 0;
    while i < valid.len() && valid[i] != current
        invariant
            i <= valid@.len(),
            first_pos(valid@, current, 0) == first_pos(valid@, current, i as int),
        decreases valid@.len() - i,
    {
        i = i + 1;
    }
    assert(i as int == first_pos(valid@, current, 0));
    let idx: usize = if i < valid.len() { i } else { 0 };
    let mut c: heapless::Vec<u8, 2> = heapless::Vec::new();
    if idx > 0 {
        let _ = c.push(valid[idx - 1]);
    }
    if idx + 1 < valid.len() {
        let _ = c.push(valid[idx + 1]);
    }
    assert(c@ =~= eye_neighbours(valid@, current));
    c
}

/// One eye-count mutation (after its rate roll fired): with no neighbour
/// the count stays and the stream is untouched; otherwise one `index` draw
/// over the neighbours picks the new count.
pub fn step_eye_count(valid: &[u8], current: u8, rng: &mut SimRng) -> (next: u8)
    ensures
        ({
            let c = eye_neighbours(valid@, current);
            if c.len() == 0 {
                next == current && *final(rng) == *old(rng)
            } else {
                let k = (xoshiro_next(*old(rng)).0 as int * c.len()) / two_pow_64();
                &&& next == c[k]
                &&& *final(rng) == xoshiro_next(*old(rng)).1
            }
        }),
{
    let c = eye_count_candidates(valid, current);
    if c.is_empty() {
        return current;
    }
    let k = rng.index(c.len());
    *c.get(k)
}

/// `s` with the element at `k` replaced by the last one and the last slot
/// dropped (what `swap_remove(k)` leaves).
pub open spec fn swap_removed<T>(s: Seq<T>, k: int) -> Seq<T> {
    s.update(k, s.last()).drop_last()
}

/// The column after the removals for `dead[j..]`, taken from the back:
/// `dead[m-1]` first, then `dead[m-2]`, down to `dead[j]`.
pub open spec fn removed_from<T>(s: Seq<T>, dead: Seq<usize>, j: int) -> Seq<T>
    decreases dead.len() - j,
{
    if j < 0 || j >= dead.len() {
        s
    } else {
        swap_removed(removed_from(s, dead, j + 1), dead[j] as int)
    }
}

/// The elements at the indices `dead[j..]` of `s`.
pub open spec fn picked<T>(s: Seq<T>, dead: Seq<usize>, j: int) -> Seq<T>
    decreases dead.len() - j,
{
    if j < 0 || j >= dead.len() {
        Seq::empty()
    } else {
        picked(s, dead, j + 1).push(s[dead[j] as int])
    }
}

/// Indices strictly ascending, all below `len`.
pub open spec fn valid_dead(dead: Seq<usize>, len: int) -> bool {
    &&& forall|i: int, j: int| 0 <= i < j < dead.len() ==> dead[i] < dead[j]
    &&& forall|i: int| 0 <= i < dead.len() ==> dead[i] < len
}

proof fn lemma_dead_spacing(dead: Seq<usize>, len: int, i: int)
    requires
        valid_dead(dead, len),
        0 <= i < dead.len(),
    ensures
        dead[i] + (dead.len() - 1 - i) < len,
    decreases dead.len() - i,
{
    if i + 1 < dead.len() {
        lemma_dead_spacing(dead, len, i + 1);
        assert(dead[i] < dead[i + 1]);
    }
}

/// What the removals of `dead[j..]` leave: the length drops by one per
/// index, the elements below the smallest removed index stay in place, and
/// together with the removed elements they make up the multiset they came from.
pub proof fn lemma_removed_from<T>(s: Seq<T>, dead: Seq<usize>, j: int)
    requires
        valid_dead(dead, s.len() as int),
        0 <= j <= dead.len(),
    ensures
        removed_from(s, dead, j).len() == s.len() - (dead.len() - j),
        forall|i: int|
            0 <= i < (if j < dead.len() { dead[j] as int } else { s.len() as int })
                ==> #[trigger] removed_from(s, dead, j)[i] == s[i],
        removed_from(s, dead, j).to_multiset().add(picked(s, dead, j).to_multiset())
            == s.to_multiset(),
    decreases dead.len() - j,
{
    broadcast use vstd::multiset::group_multiset_axioms;

    if j == dead.len() {
        assert(picked(s, dead, j).to_multiset() =~= Multiset::empty());
        assert(s.to_multiset().add(Multiset::empty()) =~= s.to_multiset());
    } else {
        lemma_removed_from(s, dead, j + 1);
        lemma_dead_spacing(dead, s.len() as int, j);
        let t = removed_from(s, dead, j + 1);
        let k = dead[j] as int;
        let bound = if j + 1 < dead.len() { dead[j + 1] as int } else { s.len() as int };
        assert(k < bound);
        assert(t[k] == s[k]);
        assert(k < t.len());
        let u = t.update(k, t.last());
        let r = swap_removed(t, k);
        assert(r == u.drop_last());
        // The multiset of `r` is that of `t` without `t[k]`.
        assert(u.last() == t.last());
        assert(u =~= r.push(t.last()));
        assert(u.to_multiset() == t.to_multiset().insert(t.last()).remove(t[k]));
        assert(u.to_multiset() == r.to_multiset().insert(t.last()));
        assert(t.to_multiset().count(t[k]) > 0);
        assert forall|a: T| #[trigger] r.to_multiset().count(a) == t.to_multiset().remove(t[k]).count(a) by {
            assert(r.to_multiset().insert(t.last()).count(a) == u.to_multiset().count(a));
        }
        assert(r.to_multiset() =~= t.to_multiset().remove(t[k]));
        // The picked elements gain `s[k]`.
        let p1 = picked(s, dead, j + 1);
        assert(picked(s, dead, j) == p1.push(s[k]));
        assert(picked(s, dead, j).to_multiset() == p1.to_multiset().insert(s[k]));
        assert(t.to_multiset().count(t[k]) > 0);
        assert(r.to_multiset().add(picked(s, dead, j).to_multiset()) =~= t.to_multiset().add(
            p1.to_multiset(),
        ));
        assert forall|i: int| 0 <= i < k implies #[trigger] removed_from(s, dead, j)[i] == s[i] by {
            assert(r[i] == t[i]);
        }
    }
}

/// Remove the entries at the indices `dead` (ascending) from a per-creature
/// column, walking `dead` from the back so that each `swap_remove` leaves
/// the earlier indices in place.
pub fn remove_indices<T>(col: &mut Vec<T>, dead: &[usize])
    requires
        valid_dead(dead@, old(col)@.len() as int),
    ensures
        final(col)@ == removed_from(old(col)@, dead@, 0),
        final(col)@.len() == old(col)@.len() - dead@.len(),
        final(col)@.to_multiset().add(picked(old(col)@, dead@, 0).to_multiset())
            == old(col)@.to_multiset(),
{
    let ghost s = col@;
    let mut j: usize = dead.len();
    while j > 0
        invariant
            j <= dead@.len(),
            valid_dead(dead@, s.len() as int),
            col@ == removed_from(s, dead@, j as int),
        decreases j,
    {
        proof {
            lemma_removed_from(s, dead@, j as int);
            lemma_dead_spacing(dead@, s.len() as int, j - 1);
        }
        j = j - 1;
        let k = dead[j];
        col.swap_remove(k);
    }
    proof {
        lemma_removed_from(s, dead@, 0);
    }
}

} // verus!
