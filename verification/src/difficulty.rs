//! The three intensities of the chase.

use vstd::prelude::*;

verus! {

/// How hard the traffic is.
#[derive(Clone, Copy, PartialEq, Eq, Structural, Debug)]
pub enum Difficulty {
    Chill,
    Rush,
    Mayhem,
}

impl Difficulty {
    /// All intensities, from the easiest to the hardest.
    pub const ALL: [Difficulty; 3] = [Difficulty::Chill, Difficulty::Rush, Difficulty::Mayhem];

    /// The place of an intensity among all of them.
    pub open spec fn place(self) -> int {
        match self {
            Difficulty::Chill => 0,
            Difficulty::Rush => 1,
            Difficulty::Mayhem => 2,
        }
    }

    /// The intensity at a place, counted round the three of them.
    pub open spec fn at(place: int) -> Difficulty {
        if place % 3 == 0 {
            Difficulty::Chill
        } else if place % 3 == 1 {
            Difficulty::Rush
        } else {
            Difficulty::Mayhem
        }
    }

    /// The name on the screen.
    pub open spec fn label(self) -> Seq<char> {
        match self {
            Difficulty::Chill => "CHILL"@,
            Difficulty::Rush => "RUSH"@,
            Difficulty::Mayhem => "MAYHEM"@,
        }
    }

    /// The line under the names in the menu.
    pub open spec fn tagline(self) -> Seq<char> {
        match self {
            Difficulty::Chill => "sunday cruise · light traffic · top 160 km/h"@,
            Difficulty::Rush => "rush hour · dense lanes · top 215 km/h"@,
            Difficulty::Mayhem => "gridlock chaos · no mercy · top 265 km/h"@,
        }
    }

    /// The top speed without nitro, in km/h.
    pub open spec fn top(self) -> int {
        match self {
            Difficulty::Chill => 160,
            Difficulty::Rush => 215,
            Difficulty::Mayhem => 265,
        }
    }

    /// The shortest pause between two cars, in hundredths of a second.
    pub open spec fn shortest_gap(self) -> int {
        match self {
            Difficulty::Chill => 150,
            Difficulty::Rush => 100,
            Difficulty::Mayhem => 62,
        }
    }

    /// The longest pause between two cars, in hundredths of a second.
    pub open spec fn longest_gap(self) -> int {
        match self {
            Difficulty::Chill => 230,
            Difficulty::Rush => 160,
            Difficulty::Mayhem => 105,
        }
    }

    /// The slowest car in the traffic, in km/h.
    pub open spec fn slowest(self) -> int {
        match self {
            Difficulty::Chill => 50,
            Difficulty::Rush => 58,
            Difficulty::Mayhem => 66,
        }
    }

    /// The fastest car in the traffic, in km/h.
    pub open spec fn fastest(self) -> int {
        match self {
            Difficulty::Chill => 85,
            Difficulty::Rush => 105,
            Difficulty::Mayhem => 128,
        }
    }

    /// The place of this intensity among all of them.
    pub fn index(self) -> (i: usize)
        ensures
            i == self.place(),
            i < 3,
    {
        match self {
            Difficulty::Chill => 0,
            Difficulty::Rush => 1,
            Difficulty::Mayhem => 2,
        }
    }

    /// The name on the screen.
    pub fn name(self) -> (r: &'static str)
        ensures
            r@ == self.label(),
    {
        match self {
            Difficulty::Chill => "CHILL",
            Difficulty::Rush => "RUSH",
            Difficulty::Mayhem => "MAYHEM",
        }
    }

    /// The top speed without nitro, in km/h.
    pub fn max_speed(self) -> (r: i32)
        ensures
            r == self.top(),
    {
        match self {
            Difficulty::Chill => 160,
            Difficulty::Rush => 215,
            Difficulty::Mayhem => 265,
        }
    }

    /// The shortest and the longest pause between two cars, in hundredths of a second.
    pub fn spawn_gap(self) -> (r: (i32, i32))
        ensures
            r.0 == self.shortest_gap(),
            r.1 == self.longest_gap(),
    {
        match self {
            Difficulty::Chill => (150, 230),
            Difficulty::Rush => (100, 160),
            Difficulty::Mayhem => (62, 105),
        }
    }

    /// The slowest and the fastest car in the traffic, in km/h.
    pub fn traffic(self) -> (r: (i32, i32))
        ensures
            r.0 == self.slowest(),
            r.1 == self.fastest(),
    {
        match self {
            Difficulty::Chill => (50, 85),
            Difficulty::Rush => (58, 105),
            Difficulty::Mayhem => (66, 128),
        }
    }

    /// The line under the names in the menu.
    pub fn blurb(self) -> (r: &'static str)
        ensures
            r@ == self.tagline(),
    {
        match self {
            Difficulty::Chill => "sunday cruise · light traffic · top 160 km/h",
            Difficulty::Rush => "rush hour · dense lanes · top 215 km/h",
            Difficulty::Mayhem => "gridlock chaos · no mercy · top 265 km/h",
        }
    }

    /// The intensity `steps` places further on, counted round.
    pub fn further(self, steps: usize) -> (r: Difficulty)
        requires
            steps <= 2,
        ensures
            r == Difficulty::at(self.place() + steps),
    {
        Difficulty::ALL[(self.index() + steps) % 3]
    }
}

/// Counting the places round gives every intensity back.
pub proof fn places_name_intensities(d: Difficulty)
    ensures
        Difficulty::at(d.place()) == d,
        Difficulty::at(Difficulty::at(d.place() + 1).place() + 2) == d,
        Difficulty::at(Difficulty::at(d.place() + 2).place() + 1) == d,
{
}

/// A harder intensity has the higher top speed, the faster traffic and the shorter pauses.
pub proof fn harder_is_faster(a: Difficulty, b: Difficulty)
    requires
        a.place() < b.place(),
    ensures
        a.top() < b.top(),
        a.slowest() < b.slowest(),
        a.fastest() < b.fastest(),
        a.shortest_gap() > b.shortest_gap(),
        a.longest_gap() > b.longest_gap(),
{
}

/// Names and lines of the menu are short.
pub(crate) proof fn lemma_names_are_short(d: Difficulty)
    ensures
        d.label().len() <= 6,
        d.tagline().len() <= 60,
{
    reveal_strlit("CHILL");
    reveal_strlit("RUSH");
    reveal_strlit("MAYHEM");
    reveal_strlit("sunday cruise · light traffic · top 160 km/h");
    reveal_strlit("rush hour · dense lanes · top 215 km/h");
    reveal_strlit("gridlock chaos · no mercy · top 265 km/h");
}

} // verus!
