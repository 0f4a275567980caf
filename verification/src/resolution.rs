use vstd::prelude::*;
use crate::cards::{Card, CardV, Effect};

verus! {

/// The mathematical value of one log entry: the card that was processed,
/// the outcome message, and both health totals as of that step.
pub struct StepV {
    pub card: CardV,
    pub result: Seq<char>,
    pub player_health: u32,
    pub opponent_health: u32,
}

/// The state of one resolution pass: the cards resolved so far and the cards
/// countered so far (as sets, since targeting is by structural match), the
/// opponent's current health, and the log produced so far.
pub struct PassState {
    pub resolved: Set<CardV>,
    pub countered: Set<CardV>,
    pub opponent_health: u32,
    pub log: Seq<StepV>,
}

/// The character for one decimal digit.
pub open spec fn decimal_digit(d: nat) -> char {
    if d == 0 {
        '0'
    } else if d == 1 {
        '1'
    } else if d == 2 {
        '2'
    } else if d == 3 {
        '3'
    } else if d == 4 {
        '4'
    } else if d == 5 {
        '5'
    } else if d == 6 {
        '6'
    } else if d == 7 {
        '7'
    } else if d == 8 {
        '8'
    } else {
        '9'
    }
}

/// The decimal notation of a natural number, without leading zeros.
pub open spec fn decimal(n: nat) -> Seq<char>
    decreases n,
{
    if n < 10 {
        seq![decimal_digit(n)]
    } else {
        decimal(n / 10).push(decimal_digit(n % 10))
    }
}

/// The message logged when a card deals damage.
pub open spec fn dealt_msg(amount: u32) -> Seq<char> {
    "Dealt "@ + decimal(amount as nat) + " damage"@
}

/// The message logged when a counter cancels the card named `name`.
pub open spec fn countered_msg(name: Seq<char>) -> Seq<char> {
    "Countered "@ + name
}

/// The message logged when a countered card fizzles.
pub open spec fn fizzled_msg() -> Seq<char> {
    "Fizzled (was countered)"@
}

/// The message logged when a card with no game-state effect resolves.
pub open spec fn resolved_msg() -> Seq<char> {
    "Resolved"@
}

/// Health after taking `amount` damage: subtraction saturating at zero.
pub open spec fn damage_result(health: u32, amount: u32) -> u32 {
    if health >= amount {
        (health - amount) as u32
    } else {
        0u32
    }
}

/// The first card at position `from` or later in `cards`, other than the one
/// at position `skip`, that is in neither `resolved` nor `countered`.
pub open spec fn find_target_from(
    cards: Seq<CardV>,
    skip: int,
    resolved: Set<CardV>,
    countered: Set<CardV>,
    from: int,
) -> Option<CardV>
    decreases cards.len() - from,
{
    if from < 0 || from >= cards.len() {
        None
    } else if from != skip && !resolved.contains(cards[from]) && !countered.contains(
        cards[from],
    ) {
        Some(cards[from])
    } else {
        find_target_from(cards, skip, resolved, countered, from + 1)
    }
}

/// The target a counter at position `skip` selects: the first card in
/// sequence order, at any position but its own, that is neither resolved nor
/// countered yet. Selection is by first structural match, so with duplicated
/// cards the match may fall on a copy rather than a particular instance.
pub open spec fn find_target(
    cards: Seq<CardV>,
    skip: int,
    resolved: Set<CardV>,
    countered: Set<CardV>,
) -> Option<CardV> {
    find_target_from(cards, skip, resolved, countered, 0)
}

/// One step of the pass: process the card at position `i` of the reversed
/// sequence `cards`, starting from state `st`.
///
/// A counter with a target marks the target countered and logs one entry; a
/// counter without a target logs nothing at all. Every other card either
/// fizzles (when countered) or resolves; only an uncountered `DealDamage`
/// changes health, and its log entry carries the post-subtraction total.
pub open spec fn step(cards: Seq<CardV>, i: int, player_health: u32, st: PassState) -> PassState {
    let card = cards[i];
    match card.effect {
        Effect::CounterSpell => {
            match find_target(cards, i, st.resolved, st.countered) {
                Some(t) => PassState {
                    countered: st.countered.insert(t),
                    log: st.log.push(
                        StepV {
                            card,
                            result: countered_msg(t.name),
                            player_health,
                            opponent_health: st.opponent_health,
                        },
                    ),
                    ..st
                },
                None => st,
            }
        },
        Effect::DealDamage { amount } => {
            if st.countered.contains(card) {
                PassState {
                    log: st.log.push(
                        StepV {
                            card,
                            result: fizzled_msg(),
                            player_health,
                            opponent_health: st.opponent_health,
                        },
                    ),
                    ..st
                }
            } else {
                let next_health = damage_result(st.opponent_health, amount);
                PassState {
                    resolved: st.resolved.insert(card),
                    opponent_health: next_health,
                    log: st.log.push(
                        StepV {
                            card,
                            result: dealt_msg(amount),
                            player_health,
                            opponent_health: next_health,
                        },
                    ),
                    ..st
                }
            }
        },
        _ => {
            if st.countered.contains(card) {
                PassState {
                    log: st.log.push(
                        StepV {
                            card,
                            result: fizzled_msg(),
                            player_health,
                            opponent_health: st.opponent_health,
                        },
                    ),
                    ..st
                }
            } else {
                PassState {
                    resolved: st.resolved.insert(card),
                    log: st.log.push(
                        StepV {
                            card,
                            result: resolved_msg(),
                            player_health,
                            opponent_health: st.opponent_health,
                        },
                    ),
                    ..st
                }
            }
        },
    }
}

/// The pass state after the first `n` cards of `cards` have been processed,
/// starting from `st0`.
pub open spec fn run(cards: Seq<CardV>, n: int, player_health: u32, st0: PassState) -> PassState
    decreases n,
{
    if n <= 0 {
        st0
    } else {
        step(cards, n - 1, player_health, run(cards, n - 1, player_health, st0))
    }
}

/// The state a pass starts from: nothing resolved, nothing countered, an
/// empty log.
pub open spec fn start_state(opponent_health: u32) -> PassState {
    PassState {
        resolved: Set::empty(),
        countered: Set::empty(),
        opponent_health,
        log: Seq::empty(),
    }
}

/// The complete resolution of `pending` (given in submission order): the
/// sequence is reversed, so the most recently submitted card is processed
/// first, and the reversed sequence is processed left to right.
pub open spec fn resolve_spec(
    pending: Seq<CardV>,
    player_health: u32,
    opponent_health: u32,
) -> PassState {
    run(pending.reverse(), pending.len() as int, player_health, start_state(opponent_health))
}

/// The mathematical values of a sequence of cards.
pub open spec fn views(cards: Seq<Card>) -> Seq<CardV> {
    cards.map_values(|c: Card| c@)
}

} // verus!
