use vstd::prelude::*;

verus! {

/// The seven descriptive categories a card may belong to. The category does
/// not affect how a card resolves.
#[derive(Clone, Copy, Debug, PartialEq, Eq, Structural)]
pub enum CardType {
    Instant,
    Sorcery,
    Creature,
    Enchantment,
    Artifact,
    Planeswalker,
    Land,
}

/// What a card does when it resolves. Any variant other than `DealDamage`
/// and `CounterSpell` resolves with no effect on game state, so new effects
/// can be added without touching the resolution logic.
#[derive(Clone, Copy, Debug, PartialEq, Eq, Structural)]
pub enum Effect {
    /// Reduce the opponent's health by `amount`, floored at zero.
    DealDamage { amount: u32 },
    /// Cancel one other pending, not-yet-resolved, not-yet-countered card.
    CounterSpell,
    /// A placeholder effect: the card resolves and changes nothing.
    NoEffect,
}

/// An immutable description of a playable effect. Equality is structural:
/// two cards with the same name, type and effect are indistinguishable.
#[derive(Debug)]
pub struct Card {
    pub name: String,
    pub card_type: CardType,
    pub effect: Effect,
}

/// The mathematical value of a `Card`: the name as a sequence of characters
/// together with the card's type and effect.
pub struct CardV {
    pub name: Seq<char>,
    pub card_type: CardType,
    pub effect: Effect,
}

impl View for Card {
    type V = CardV;

    open spec fn view(&self) -> CardV {
        CardV { name: self.name@, card_type: self.card_type, effect: self.effect }
    }
}

impl Card {
    /// An exact copy of the card.
    pub fn duplicate(&self) -> (c: Card)
        ensures
            c@ == self@,
    {
        Card { name: self.name.clone(), card_type: self.card_type, effect: self.effect }
    }

    /// Structural equality: same name, same type, same effect.
    pub fn same_card(&self, other: &Card) -> (r: bool)
        ensures
            r == (self@ == other@),
    {
        self.name == other.name && self.card_type == other.card_type
            && self.effect == other.effect
    }
}

} // verus!
