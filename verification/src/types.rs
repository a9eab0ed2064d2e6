//! Identifiers and small value types shared by every part of the simulator.
use vstd::prelude::*;

verus! {

/// Stable logical identity of a game object; it never changes while the object lives.
#[derive(Clone, Copy, Debug, PartialEq, Eq, Structural, PartialOrd, Ord, Hash)]
pub struct GameEntityId(pub u64);

/// Identity of an event recorded during resolution.
#[derive(Clone, Copy, Debug, PartialEq, Eq, Structural, PartialOrd, Ord, Hash)]
pub struct EventId(pub u64);

/// Identity of a slot that will later hold a prepared event.
#[derive(Clone, Copy, Debug, PartialEq, Eq, Structural, PartialOrd, Ord, Hash)]
pub struct EventSlotId(pub u64);

/// Identity of a slot that receives the outcome of one draw.
#[derive(Clone, Copy, Debug, PartialEq, Eq, Structural, PartialOrd, Ord, Hash)]
pub struct DrawResultSlotId(pub u64);

/// Identity of one operation pushed on the resolution stack.
#[derive(Clone, Copy, Debug, PartialEq, Eq, Structural, PartialOrd, Ord, Hash)]
pub struct ResolutionId(pub u64);

/// Identity of a choice request or of one of its options.
#[derive(Clone, Copy, Debug, PartialEq, Eq, Structural, PartialOrd, Ord, Hash)]
pub struct ChoiceId(pub u64);

/// One of the two seats at the table.
#[derive(Clone, Copy, Debug, PartialEq, Eq, Structural, PartialOrd, Ord, Hash)]
pub enum PlayerId {
    One,
    Two,
}

impl PlayerId {
    /// The other seat.
    pub open spec fn spec_opponent(self) -> PlayerId {
        match self {
            PlayerId::One => PlayerId::Two,
            PlayerId::Two => PlayerId::One,
        }
    }

    /// The other seat.
    #[verifier::when_used_as_spec(spec_opponent)]
    pub fn opponent(self) -> (r: PlayerId)
        ensures
            r == self.spec_opponent(),
    {
        match self {
            PlayerId::One => PlayerId::Two,
            PlayerId::Two => PlayerId::One,
        }
    }

    /// Position of the seat in per-player arrays: `One` is 0 and `Two` is 1.
    pub open spec fn spec_bucket(self) -> usize {
        match self {
            PlayerId::One => 0,
            PlayerId::Two => 1,
        }
    }

    /// Position of the seat in per-player arrays: `One` is 0 and `Two` is 1.
    #[verifier::when_used_as_spec(spec_bucket)]
    pub fn bucket(self) -> (r: usize)
        ensures
            r == self.spec_bucket(),
    {
        match self {
            PlayerId::One => 0,
            PlayerId::Two => 1,
        }
    }
}

/// Where a game object currently is.
#[derive(Clone, Copy, Debug, PartialEq, Eq, Structural, PartialOrd, Ord, Hash)]
pub enum Zone {
    Deck,
    Hand,
    Play,
    Graveyard,
    RemovedFromGame,
}

/// What a game object is.
#[derive(Clone, Copy, Debug, PartialEq, Eq, Structural, PartialOrd, Ord, Hash)]
pub enum EntityKind {
    Player,
    Hero,
    HeroPower,
    Minion,
    Spell,
    Weapon,
    Enchantment,
}

/// Keywords a character can carry.
#[derive(Clone, Copy, Debug, PartialEq, Eq, Structural, PartialOrd, Ord, Hash)]
pub enum Keyword {
    Taunt,
    Stealth,
    Immune,
    Windfury,
    Charge,
    Rush,
}

/// A set of keywords, one flag per keyword.
#[derive(Clone, Copy, Debug, PartialEq, Eq, Structural, Default, Hash)]
pub struct KeywordSet {
    pub taunt: bool,
    pub stealth: bool,
    pub immune: bool,
    pub windfury: bool,
    pub charge: bool,
    pub rush: bool,
}

impl KeywordSet {
    /// Whether `keyword` is in the set.
    pub open spec fn has(self, keyword: Keyword) -> bool {
        match keyword {
            Keyword::Taunt => self.taunt,
            Keyword::Stealth => self.stealth,
            Keyword::Immune => self.immune,
            Keyword::Windfury => self.windfury,
            Keyword::Charge => self.charge,
            Keyword::Rush => self.rush,
        }
    }

    /// The empty set.
    pub fn empty() -> (r: KeywordSet)
        ensures
            r == KeywordSet::none(),
            forall|k: Keyword| !r.has(k),
    {
        KeywordSet {
            taunt: false,
            stealth: false,
            immune: false,
            windfury: false,
            charge: false,
            rush: false,
        }
    }

    /// Whether `keyword` is in the set.
    pub fn contains(&self, keyword: Keyword) -> (r: bool)
        ensures
            r == self.has(keyword),
    {
        match keyword {
            Keyword::Taunt => self.taunt,
            Keyword::Stealth => self.stealth,
            Keyword::Immune => self.immune,
            Keyword::Windfury => self.windfury,
            Keyword::Charge => self.charge,
            Keyword::Rush => self.rush,
        }
    }

    /// The set with `keyword` added (`present` true) or removed (`present` false).
    pub open spec fn with(self, keyword: Keyword, present: bool) -> KeywordSet {
        match keyword {
            Keyword::Taunt => KeywordSet { taunt: present, ..self },
            Keyword::Stealth => KeywordSet { stealth: present, ..self },
            Keyword::Immune => KeywordSet { immune: present, ..self },
            Keyword::Windfury => KeywordSet { windfury: present, ..self },
            Keyword::Charge => KeywordSet { charge: present, ..self },
            Keyword::Rush => KeywordSet { rush: present, ..self },
        }
    }

    /// The empty set, as a value.
    pub open spec fn none() -> KeywordSet {
        KeywordSet {
            taunt: false,
            stealth: false,
            immune: false,
            windfury: false,
            charge: false,
            rush: false,
        }
    }

    /// Adds (`present` true) or removes (`present` false) one keyword, keeping the others.
    pub fn set(&mut self, keyword: Keyword, present: bool)
        ensures
            *final(self) == old(self).with(keyword, present),
            final(self).has(keyword) == present,
            forall|k: Keyword| k != keyword ==> final(self).has(k) == old(self).has(k),
    {
        match keyword {
            Keyword::Taunt => self.taunt = present,
            Keyword::Stealth => self.stealth = present,
            Keyword::Immune => self.immune = present,
            Keyword::Windfury => self.windfury = present,
            Keyword::Charge => self.charge = present,
            Keyword::Rush => self.rush = present,
        }
    }

    /// Whether no keyword is in the set.
    pub fn is_empty(&self) -> (r: bool)
        ensures
            r == forall|k: Keyword| !self.has(k),
    {
        let r = !(self.taunt || self.stealth || self.immune || self.windfury || self.charge
            || self.rush);
        proof {
            if !r {
                if self.taunt {
                    assert(self.has(Keyword::Taunt));
                } else if self.stealth {
                    assert(self.has(Keyword::Stealth));
                } else if self.immune {
                    assert(self.has(Keyword::Immune));
                } else if self.windfury {
                    assert(self.has(Keyword::Windfury));
                } else if self.charge {
                    assert(self.has(Keyword::Charge));
                } else {
                    assert(self.has(Keyword::Rush));
                }
            }
        }
        r
    }
}

} // verus!

verus! {

/// Where the simulation stands between and during actions.
#[derive(Clone, Copy, Debug, PartialEq, Eq, Structural)]
pub enum SimulationStatus {
    AwaitingAction,
    Resolving,
    AwaitingChoice,
    Complete,
}

/// How a finished game ended.
#[derive(Clone, Copy, Debug, PartialEq, Eq, Structural)]
pub enum GameOutcome {
    Winner(PlayerId),
    Draw,
}

} // verus!
