//! Composable NN input layout: an ordered list of input groups, each with a
//! slot count. Groups pack contiguously in order; the total is padded up to
//! the next multiple of 8 so it can feed the SIMD-chunked first matmul.

use vstd::prelude::*;
use crate::constants::{NN_SECTORS, NN_CREATURE_SECTORS_SPECIES};

verus! {

/// A semantic block of NN inputs.
#[derive(Clone, Copy, Debug, PartialEq, Eq, Structural)]
pub enum NnInputGroup {
    /// Self/memory state (hunger, age, previous velocity, last action, ...).
    SelfMemory,
    /// Wall proximity N/S/E/W (walled worlds only).
    WallProximity,
    /// Creature proximity per world-aligned sector.
    CreatureSectors,
    /// Grass density per sector.
    GrassSectors,
    /// Reserved predator slot of the legacy layout.
    ReservedPredator,
    /// Grass density under the body.
    CurrGrass,
    /// Constant 1.0 bias-learning input.
    Bias,
    /// Directional biome inputs (N/S/E/W).
    BiomeDir,
}

/// Sum of the slot counts of `groups`.
pub open spec fn groups_total(groups: Seq<(NnInputGroup, usize)>) -> int
    decreases groups.len(),
{
    if groups.len() == 0 {
        0
    } else {
        groups_total(groups.drop_last()) + groups.last().1
    }
}

/// `n` rounded up to a multiple of 8.
pub open spec fn round_up_8(n: int) -> int {
    ((n + 7) / 8) * 8
}

/// Offset of the first group equal to `g`, or `None` when absent.
pub open spec fn group_offset(groups: Seq<(NnInputGroup, usize)>, g: NnInputGroup) -> Option<int>
    decreases groups.len(),
{
    if groups.len() == 0 {
        None
    } else {
        match group_offset(groups.drop_last(), g) {
            Some(o) => Some(o),
            None => if groups.last().0 == g {
                Some(groups_total(groups.drop_last()))
            } else {
                None
            },
        }
    }
}

/// An ordered group list with its padded total width.
#[derive(Clone, Debug)]
pub struct NnInputLayout {
    groups: Vec<(NnInputGroup, usize)>,
}

impl NnInputLayout {
    /// The ordered `(group, slot count)` entries.
    pub closed spec fn spec_groups(&self) -> Seq<(NnInputGroup, usize)> {
        self.groups@
    }

    /// The padded total fits a `usize`.
    pub open spec fn wf(&self) -> bool {
        round_up_8(groups_total(self.spec_groups())) <= usize::MAX
    }

    /// Build a layout from an ordered `(group, slot count)` list.
    pub fn from_groups_for_test(groups: &[(NnInputGroup, usize)]) -> (l: Self)
        requires
            round_up_8(groups_total(groups@)) <= usize::MAX,
        ensures
            l.spec_groups() == groups@,
            l.wf(),
    {
        let mut v: Vec<(NnInputGroup, usize)> = Vec::new();
        let mut i: usize = 0;
        while i < groups.len()
            invariant
                i <= groups@.len(),
                v@ == groups@.subrange(0, i as int),
            decreases groups@.len() - i,
        {
            v.push(groups[i]);
            i = i + 1;
            assert(v@ =~= groups@.subrange(0, i as int));
        }
        assert(v@ =~= groups@);
        NnInputLayout { groups: v }
    }

    /// The legacy width-32 layout: self/memory 8, wall proximity 4, creature
    /// sectors 8, grass sectors 8, reserved predator 1, current grass 1,
    /// bias 1 (31 real slots, padded to 32).
    pub fn legacy() -> (l: Self)
        ensures
            l.spec_groups() == seq![
                (NnInputGroup::SelfMemory, 8usize),
                (NnInputGroup::WallProximity, 4usize),
                (NnInputGroup::CreatureSectors, NN_SECTORS),
                (NnInputGroup::GrassSectors, NN_SECTORS),
                (NnInputGroup::ReservedPredator, 1usize),
                (NnInputGroup::CurrGrass, 1usize),
                (NnInputGroup::Bias, 1usize),
            ],
            l.wf(),
    {
        let mut v: Vec<(NnInputGroup, usize)> = Vec::new();
        v.push((NnInputGroup::SelfMemory, 8));
        v.push((NnInputGroup::WallProximity, 4));
        v.push((NnInputGroup::CreatureSectors, NN_SECTORS));
        v.push((NnInputGroup::GrassSectors, NN_SECTORS));
        v.push((NnInputGroup::ReservedPredator, 1));
        v.push((NnInputGroup::CurrGrass, 1));
        v.push((NnInputGroup::Bias, 1));
        let l = NnInputLayout { groups: v };
        proof { lemma_total_small(l.spec_groups()); }
        l
    }

    /// The layout the construction settings select: self/memory 8, then wall
    /// proximity 4 in a walled world only, creature sectors (8, or 16 when
    /// species mode splits same/other species), grass sectors 8, current
    /// grass 1 and bias 1.
    pub fn for_settings(wrap_world: bool, species_mode: bool) -> (l: Self)
        ensures
            l.spec_groups() == settings_groups(wrap_world, species_mode),
            l.wf(),
    {
        let mut v: Vec<(NnInputGroup, usize)> = Vec::new();
        v.push((NnInputGroup::SelfMemory, 8));
        if !wrap_world {
            v.push((NnInputGroup::WallProximity, 4));
        }
        let creature = if species_mode { NN_CREATURE_SECTORS_SPECIES } else { NN_SECTORS };
        v.push((NnInputGroup::CreatureSectors, creature));
        v.push((NnInputGroup::GrassSectors, NN_SECTORS));
        v.push((NnInputGroup::CurrGrass, 1));
        v.push((NnInputGroup::Bias, 1));
        let l = NnInputLayout { groups: v };
        assert(l.spec_groups() =~= settings_groups(wrap_world, species_mode));
        proof { lemma_total_small(l.spec_groups()); }
        l
    }

    /// Total input width: the summed slot counts rounded up to a multiple of 8.
    pub fn width(&self) -> (w: usize)
        requires
            self.wf(),
        ensures
            w == round_up_8(groups_total(self.spec_groups())),
    {
        let ghost g = self.groups@;
        let mut total: usize = 0;
        let mut i: usize = 0;
        proof { lemma_total_prefix_bounded(g, 0); }
        while i < self.groups.len()
            invariant
                g == self.groups@,
                i <= g.len(),
                total == groups_total(g.subrange(0, i as int)),
                round_up_8(groups_total(g)) <= usize::MAX,
            decreases g.len() - i,
        {
            proof { lemma_total_prefix_bounded(g, i as int + 1); }
            assert(g.subrange(0, i + 1).drop_last() =~= g.subrange(0, i as int));
            total = total + self.groups[i].1;
            i = i + 1;
        }
        assert(g.subrange(0, i as int) =~= g);
        (total + 7) / 8 * 8
    }

    /// Start slot of the first group equal to `group`, or `None` if absent.
    pub fn offset_of(&self, group: NnInputGroup) -> (r: Option<usize>)
        requires
            self.wf(),
        ensures
            match group_offset(self.spec_groups(), group) {
                Some(o) => r == Some(o as usize),
                None => r is None,
            },
    {
        let ghost g = self.groups@;
        let mut total: usize = 0;
        let mut i: usize = 0;
        while i < self.groups.len()
            invariant
                g == self.groups@,
                i <= g.len(),
                total == groups_total(g.subrange(0, i as int)),
                group_offset(g.subrange(0, i as int), group) is None,
                round_up_8(groups_total(g)) <= usize::MAX,
            decreases g.len() - i,
        {
            proof { lemma_total_prefix_bounded(g, i as int + 1); }
            assert(g.subrange(0, i + 1).drop_last() =~= g.subrange(0, i as int));
            if self.groups[i].0 == group {
                proof { lemma_offset_prefix(g, i as int + 1, group); }
                return Some(total);
            }
            total = total + self.groups[i].1;
            i = i + 1;
        }
        assert(g.subrange(0, i as int) =~= g);
        None
    }
}

/// Group list chosen by the construction settings.
pub open spec fn settings_groups(wrap_world: bool, species_mode: bool) -> Seq<(NnInputGroup, usize)> {
    let creature = if species_mode { NN_CREATURE_SECTORS_SPECIES } else { NN_SECTORS };
    let head = if wrap_world {
        seq![(NnInputGroup::SelfMemory, 8usize)]
    } else {
        seq![(NnInputGroup::SelfMemory, 8usize), (NnInputGroup::WallProximity, 4usize)]
    };
    head + seq![
        (NnInputGroup::CreatureSectors, creature),
        (NnInputGroup::GrassSectors, NN_SECTORS),
        (NnInputGroup::CurrGrass, 1usize),
        (NnInputGroup::Bias, 1usize),
    ]
}

/// Totals of prefixes never exceed the whole (slot counts are non-negative).
proof fn lemma_total_prefix_bounded(g: Seq<(NnInputGroup, usize)>, k: int)
    requires
        0 <= k <= g.len(),
    ensures
        0 <= groups_total(g.subrange(0, k)) <= groups_total(g),
    decreases g.len() - k,
{
    lemma_total_nonneg(g.subrange(0, k));
    if k < g.len() {
        lemma_total_prefix_bounded(g, k + 1);
        assert(g.subrange(0, k + 1).drop_last() =~= g.subrange(0, k));
    } else {
        assert(g.subrange(0, k) =~= g);
    }
}

proof fn lemma_total_nonneg(g: Seq<(NnInputGroup, usize)>)
    ensures
        groups_total(g) >= 0,
    decreases g.len(),
{
    if g.len() > 0 {
        lemma_total_nonneg(g.drop_last());
    }
}

/// If the first `k - 1` groups miss `group` and group `k - 1` is it, its
/// offset is the total of the first `k - 1` groups, in every extension.
proof fn lemma_offset_prefix(g: Seq<(NnInputGroup, usize)>, k: int, group: NnInputGroup)
    requires
        1 <= k <= g.len(),
        group_offset(g.subrange(0, k - 1), group) is None,
        g[k - 1].0 == group,
    ensures
        group_offset(g, group) == Some(groups_total(g.subrange(0, k - 1))),
    decreases g.len() - k,
{
    assert(g.subrange(0, k).drop_last() =~= g.subrange(0, k - 1));
    assert(group_offset(g.subrange(0, k), group) == Some(groups_total(g.subrange(0, k - 1))));
    lemma_offset_extend(g, k, group);
}

/// A group found in a prefix keeps its offset in the whole list.
proof fn lemma_offset_extend(g: Seq<(NnInputGroup, usize)>, k: int, group: NnInputGroup)
    requires
        0 <= k <= g.len(),
        group_offset(g.subrange(0, k), group) is Some,
    ensures
        group_offset(g, group) == group_offset(g.subrange(0, k), group),
    decreases g.len() - k,
{
    if k < g.len() {
        assert(g.subrange(0, k + 1).drop_last() =~= g.subrange(0, k));
        lemma_offset_extend(g, k + 1, group);
    } else {
        assert(g.subrange(0, k) =~= g);
    }
}

/// Small fixed layouts have small totals.
proof fn lemma_total_small(g: Seq<(NnInputGroup, usize)>)
    requires
        g.len() <= 8,
        forall|i: int| 0 <= i < g.len() ==> #[trigger] g[i].1 <= 16,
    ensures
        0 <= groups_total(g) <= 16 * g.len(),
    decreases g.len(),
{
    if g.len() > 0 {
        lemma_total_small(g.drop_last());
    }
}

} // verus!
