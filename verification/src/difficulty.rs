//! Selectable difficulty: three survival times over the same maze, and a
//! faster pathfinding refresh on the harder settings.
use vstd::prelude::*;

verus! {

#[derive(Clone, Copy, Debug, PartialEq, Eq, Structural)]
pub enum Difficulty {
    Easy,
    Medium,
    Hard,
}

impl Difficulty {
    /// Seconds the player has to survive to win.
    pub open spec fn spec_survival_seconds(self) -> u32 {
        match self {
            Difficulty::Easy => 90,
            Difficulty::Medium => 150,
            Difficulty::Hard => 210,
        }
    }

    /// Seconds the player has to survive to win.
    pub fn survival_seconds(self) -> (s: u32)
        ensures
            s == self.spec_survival_seconds(),
    {
        match self {
            Difficulty::Easy => 90,
            Difficulty::Medium => 150,
            Difficulty::Hard => 210,
        }
    }

    /// Frames between two recomputations of the enemy's distance field.
    pub open spec fn spec_pathfind_recalc_frames(self) -> u32 {
        match self {
            Difficulty::Easy => 16,
            Difficulty::Medium => 12,
            Difficulty::Hard => 6,
        }
    }

    /// Frames between two recomputations of the enemy's distance field: the
    /// harder the difficulty, the more often the enemy re-plans.
    pub fn pathfind_recalc_frames(self) -> (n: u32)
        ensures
            n == self.spec_pathfind_recalc_frames(),
    {
        match self {
            Difficulty::Easy => 16,
            Difficulty::Medium => 12,
            Difficulty::Hard => 6,
        }
    }

    /// Name shown in the difficulty selector.
    pub fn label(self) -> (s: &'static str)
        ensures
            self == Difficulty::Easy ==> s@ == "EASY"@,
            self == Difficulty::Medium ==> s@ == "MEDIUM"@,
            self == Difficulty::Hard ==> s@ == "HARD"@,
    {
        match self {
            Difficulty::Easy => "EASY",
            Difficulty::Medium => "MEDIUM",
            Difficulty::Hard => "HARD",
        }
    }

    /// Position of the difficulty from easiest (0) to hardest (2).
    pub open spec fn rank(self) -> int {
        match self {
            Difficulty::Easy => 0,
            Difficulty::Medium => 1,
            Difficulty::Hard => 2,
        }
    }
}

/// A harder difficulty asks the player to survive longer and makes the enemy
/// re-plan its path more often.
pub proof fn lemma_harder_is_longer_and_faster(a: Difficulty, b: Difficulty)
    requires
        a.rank() < b.rank(),
    ensures
        a.spec_survival_seconds() < b.spec_survival_seconds(),
        a.spec_pathfind_recalc_frames() > b.spec_pathfind_recalc_frames(),
{
}

} // verus!
