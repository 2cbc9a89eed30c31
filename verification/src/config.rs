use vstd::prelude::*;

use crate::chance::{random_inclusive, thread_rng};

verus! {

/// How large a generated maze is: each side is drawn from the range of its
/// difficulty.
#[derive(Debug, Clone, Copy, PartialEq, Eq, Structural)]
pub enum Difficulty {
    Easy,
    Medium,
    Hard,
    Labyrinthian,
}

impl Difficulty {
    /// The smallest side length of the difficulty.
    pub open spec fn min_size(self) -> int {
        match self {
            Difficulty::Easy => 20,
            Difficulty::Medium => 50,
            Difficulty::Hard => 100,
            Difficulty::Labyrinthian => 250,
        }
    }

    /// The largest side length of the difficulty.
    pub open spec fn max_size(self) -> int {
        match self {
            Difficulty::Easy => 49,
            Difficulty::Medium => 99,
            Difficulty::Hard => 249,
            Difficulty::Labyrinthian => 1000,
        }
    }

    /// The name of the difficulty.
    pub open spec fn label_text(self) -> Seq<char> {
        match self {
            Difficulty::Easy => "Easy"@,
            Difficulty::Medium => "Medium"@,
            Difficulty::Hard => "Hard"@,
            Difficulty::Labyrinthian => "Labyrinthian"@,
        }
    }

    /// Draws a side length at random from the range of the difficulty.
    pub fn random_size(self) -> (size: usize)
        ensures
            self.min_size() <= size <= self.max_size(),
    {
        let mut rng = thread_rng();
        match self {
            Difficulty::Easy => random_inclusive(&mut rng, 20, 49),
            Difficulty::Medium => random_inclusive(&mut rng, 50, 99),
            Difficulty::Hard => random_inclusive(&mut rng, 100, 249),
            Difficulty::Labyrinthian => random_inclusive(&mut rng, 250, 1000),
        }
    }

    /// The name of the difficulty.
    pub fn label(self) -> (label: &'static str)
        ensures
            label@ == self.label_text(),
    {
        match self {
            Difficulty::Easy => "Easy",
            Difficulty::Medium => "Medium",
            Difficulty::Hard => "Hard",
            Difficulty::Labyrinthian => "Labyrinthian",
        }
    }
}

/// The difficulty whose range holds `size`; any size outside the first
/// three ranges counts as labyrinthian.
pub open spec fn size_class(size: int) -> Difficulty {
    if 20 <= size <= 49 {
        Difficulty::Easy
    } else if 50 <= size <= 99 {
        Difficulty::Medium
    } else if 100 <= size <= 249 {
        Difficulty::Hard
    } else {
        Difficulty::Labyrinthian
    }
}

/// The name of the difficulty of a maze `size` cells wide.
pub fn difficulty_from_size(size: u64) -> (label: &'static str)
    ensures
        label@ == size_class(size as int).label_text(),
{
    if 20 <= size && size <= 49 {
        Difficulty::Easy.label()
    } else if 50 <= size && size <= 99 {
        Difficulty::Medium.label()
    } else if 100 <= size && size <= 249 {
        Difficulty::Hard.label()
    } else {
        Difficulty::Labyrinthian.label()
    }
}

/// The difficulty of a training maze for a roll in `0..100`: 10 in 100
/// easy, 20 medium, 30 hard and 40 labyrinthian.
pub open spec fn roll_class(roll: int) -> Difficulty {
    if roll < 10 {
        Difficulty::Easy
    } else if roll < 30 {
        Difficulty::Medium
    } else if roll < 60 {
        Difficulty::Hard
    } else {
        Difficulty::Labyrinthian
    }
}

/// The difficulty of a training maze for a roll in `0..100`.
pub fn difficulty_for_roll(roll: usize) -> (difficulty: Difficulty)
    requires
        roll < 100,
    ensures
        difficulty == roll_class(roll as int),
{
    if roll < 10 {
        Difficulty::Easy
    } else if roll < 30 {
        Difficulty::Medium
    } else if roll < 60 {
        Difficulty::Hard
    } else {
        Difficulty::Labyrinthian
    }
}

/// Draws the difficulty of a training maze: a roll in `0..100` decides.
pub fn random_training_difficulty() -> (difficulty: Difficulty)
    ensures
        exists|roll: int| 0 <= roll < 100 && difficulty == roll_class(roll),
{
    let mut rng = thread_rng();
    let roll = random_inclusive(&mut rng, 0, 99);
    difficulty_for_roll(roll)
}

} // verus!
