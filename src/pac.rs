use vstd::prelude::*;
use vstd::string::*;

use crate::world::{Position, Team};

verus! {

/// The hand a unit plays in the rock / paper / scissors rule; `Uninitialized`
/// before a unit is first seen.
#[derive(Clone, Copy, Debug, PartialEq, Eq, Structural)]
pub enum PacKind {
    Rock,
    Paper,
    Scissors,
    Uninitialized,
}

/// Unit type tokens as they appear in the turn input.
pub open spec fn kind_of_token(s: Seq<char>) -> Option<PacKind> {
    if s =~= seq!['R', 'O', 'C', 'K'] {
        Some(PacKind::Rock)
    } else if s =~= seq!['P', 'A', 'P', 'E', 'R'] {
        Some(PacKind::Paper)
    } else if s =~= seq!['S', 'C', 'I', 'S', 'S', 'O', 'R', 'S'] {
        Some(PacKind::Scissors)
    } else {
        None
    }
}

pub open spec fn kind_name(k: PacKind) -> Seq<char> {
    match k {
        PacKind::Rock => "Rock"@,
        PacKind::Paper => "Paper"@,
        PacKind::Scissors => "Scissors"@,
        PacKind::Uninitialized => "Uninitialized"@,
    }
}

/// `s` spells out `word`.
fn spells(s: &str, word: &[char]) -> (r: bool)
    ensures
        r == (s@ == word@),
{
    let n = s.unicode_len();
    if n != word.len() {
        return false;
    }
    let mut i: usize = 0;
    while i < n
        invariant
            n == s@.len(),
            n == word@.len(),
            0 <= i <= n,
            forall|j: int| 0 <= j < i ==> s@[j] == word@[j],
        decreases n - i,
    {
        if s.get_char(i) != word[i] {
            return false;
        }
        i = i + 1;
    }
    assert(s@ == word@);
    true
}

impl PacKind {
    /// Reads a unit type token: `ROCK`, `PAPER` or `SCISSORS`; anything else
    /// is `None`.
    pub fn try_from(v: &str) -> (r: Option<PacKind>)
        ensures
            r == kind_of_token(v@),
    {
        let rock = ['R', 'O', 'C', 'K'];
        let paper = ['P', 'A', 'P', 'E', 'R'];
        let scissors = ['S', 'C', 'I', 'S', 'S', 'O', 'R', 'S'];
        assert(rock@ == seq!['R', 'O', 'C', 'K']);
        assert(paper@ == seq!['P', 'A', 'P', 'E', 'R']);
        assert(scissors@ == seq!['S', 'C', 'I', 'S', 'S', 'O', 'R', 'S']);
        if spells(v, rock.as_slice()) {
            Some(PacKind::Rock)
        } else if spells(v, paper.as_slice()) {
            Some(PacKind::Paper)
        } else if spells(v, scissors.as_slice()) {
            Some(PacKind::Scissors)
        } else {
            None
        }
    }
}

impl PacKind {
    /// The variant's name, as the game's debug output prints it.
    pub fn name(&self) -> (r: &'static str)
        ensures
            r@ == kind_name(*self),
    {
        match self {
            PacKind::Rock => "Rock",
            PacKind::Paper => "Paper",
            PacKind::Scissors => "Scissors",
            PacKind::Uninitialized => "Uninitialized",
        }
    }
}

impl Default for PacKind {
    fn default() -> (r: Self)
        ensures
            r == PacKind::Uninitialized,
    {
        PacKind::Uninitialized
    }
}

/// Properties of a unit, replaced as a whole each turn it is seen.
#[derive(Clone, Copy, Debug, PartialEq, Eq)]
pub struct PacProperties {
    pub kind: PacKind,
    pub pos: Position,
    pub speed_turns_left: i32,
    pub ability_cooldown: i32,
}

/// A unit: its identity (team and number) and its last known properties.
#[derive(Clone, Copy, Debug, PartialEq, Eq)]
pub struct Pac {
    pub team: Team,
    pub id: i32,
    pub prop: PacProperties,
}

impl PacProperties {
    pub fn new(kind: PacKind, pos: Position, speed_turns_left: i32, ability_cooldown: i32) -> (r:
        PacProperties)
        ensures
            r == (PacProperties { kind, pos, speed_turns_left, ability_cooldown }),
    {
        PacProperties { kind, pos, speed_turns_left, ability_cooldown }
    }
}

impl Default for PacProperties {
    fn default() -> (r: Self)
        ensures
            r == (PacProperties {
                kind: PacKind::Uninitialized,
                pos: (0, 0),
                speed_turns_left: 0,
                ability_cooldown: 0,
            }),
    {
        PacProperties {
            kind: PacKind::Uninitialized,
            pos: (0, 0),
            speed_turns_left: 0,
            ability_cooldown: 0,
        }
    }
}

impl Pac {
    /// A unit record; without properties it starts from the default ones.
    pub fn new(team: Team, id: i32, prop: Option<PacProperties>) -> (r: Self)
        ensures
            r.team == team,
            r.id == id,
            prop matches Some(p) ==> r.prop == p,
            prop.is_none() ==> r.prop == (PacProperties {
                kind: PacKind::Uninitialized,
                pos: (0, 0),
                speed_turns_left: 0,
                ability_cooldown: 0,
            }),
    {
        match prop {
            Some(prop) => Pac { team, id, prop },
            None => Pac { team, id, prop: PacProperties::default() },
        }
    }

    /// Replaces the unit's properties as a whole.
    pub fn update(&mut self, prop: PacProperties)
        ensures
            *final(self) == (Pac { prop, ..*old(self) }),
    {
        self.prop = prop;
    }

    pub fn id(&self) -> (r: i32)
        ensures
            r == self.id,
    {
        self.id
    }

    pub fn team(&self) -> (r: Team)
        ensures
            r == self.team,
    {
        self.team
    }

    pub fn pos(&self) -> (r: Position)
        ensures
            r == self.prop.pos,
    {
        self.prop.pos
    }

    pub fn kind(&self) -> (r: PacKind)
        ensures
            r == self.prop.kind,
    {
        self.prop.kind
    }
}

} // verus!
