use vstd::prelude::*;

verus! {

/// The kinds of enemy.
#[derive(Clone, Copy, PartialEq, Eq, Structural, Debug)]
pub enum EnemyType {
    Grunt,
    Brute,
    Archer,
}

impl EnemyType {
    /// The score a kill of this kind is worth.
    pub open spec fn xp(self) -> u32 {
        match self {
            EnemyType::Grunt => 10,
            EnemyType::Brute => 30,
            EnemyType::Archer => 15,
        }
    }

    /// The display name of the kind.
    pub fn name(&self) -> (s: &'static str)
        ensures
            s@ == (match self {
                EnemyType::Grunt => "Grunt"@,
                EnemyType::Brute => "Brute"@,
                EnemyType::Archer => "Archer"@,
            }),
    {
        match self {
            EnemyType::Grunt => "Grunt",
            EnemyType::Brute => "Brute",
            EnemyType::Archer => "Archer",
        }
    }

    /// The score a kill of this kind is worth.
    pub fn xp_value(&self) -> (v: u32)
        ensures
            v == self.xp(),
    {
        match self {
            EnemyType::Grunt => 10,
            EnemyType::Brute => 30,
            EnemyType::Archer => 15,
        }
    }

    /// Whether the kind attacks from a distance with projectiles.
    pub fn is_ranged(&self) -> (r: bool)
        ensures
            r == (*self == EnemyType::Archer),
    {
        matches!(self, EnemyType::Archer)
    }
}

/// What an enemy is doing.
#[derive(Clone, Copy, Debug, PartialEq, Eq, Structural)]
pub enum AiState {
    Patrol,
    Chase { target_id: usize },
    Attack { target_id: usize },
}

/// The symbol that stands for an enemy kind.
pub fn enemy_icon(t: &EnemyType) -> (s: &'static str)
    ensures
        s@ == (match t {
            EnemyType::Grunt => "✕"@,
            EnemyType::Brute => "◉"@,
            EnemyType::Archer => "↑"@,
        }),
{
    match t {
        EnemyType::Grunt => "✕",
        EnemyType::Brute => "◉",
        EnemyType::Archer => "↑",
    }
}

} // verus!
