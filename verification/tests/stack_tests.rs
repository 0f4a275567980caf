use card_stack::cards::{Card, CardType, Effect};
use card_stack::stack::Stack;

fn card(name: &str, effect: Effect) -> Card {
    Card { name: name.to_string(), card_type: CardType::Instant, effect }
}

#[test]
fn order_inversion_processes_lifo() {
    let mut s = Stack::new();
    s.add_to_stack(card("A", Effect::NoEffect));
    s.add_to_stack(card("B", Effect::NoEffect));
    s.add_to_stack(card("C", Effect::NoEffect));
    let log = s.resolve_stack();
    assert_eq!(log.len(), 3);
    assert_eq!(log[0].card.name, "C");
    assert_eq!(log[1].card.name, "B");
    assert_eq!(log[2].card.name, "A");
    assert_eq!(log[0].result, "Resolved");
}

#[test]
fn drain_idempotence() {
    let mut s = Stack::new();
    s.add_to_stack(card("Bolt", Effect::DealDamage { amount: 5 }));
    let first = s.resolve_stack();
    assert_eq!(first.len(), 1);
    assert_eq!(s.opponent_health, 15);
    let second = s.resolve_stack();
    assert_eq!(second.len(), 0);
    assert_eq!(s.opponent_health, 15);
    assert_eq!(s.player_health, 20);
}

#[test]
fn damage_floor_saturates_at_zero() {
    let mut s = Stack::new();
    s.add_to_stack(card("Big", Effect::DealDamage { amount: 12 }));
    s.add_to_stack(card("Bigger", Effect::DealDamage { amount: 15 }));
    let log = s.resolve_stack();
    assert_eq!(log.len(), 2);
    assert_eq!(log[0].result, "Dealt 15 damage");
    assert_eq!(log[0].opponent_health, 5);
    assert_eq!(log[1].result, "Dealt 12 damage");
    assert_eq!(log[1].opponent_health, 0);
    assert_eq!(s.opponent_health, 0);
}

#[test]
fn counter_cancels_exactly_one_target() {
    let mut s = Stack::new();
    s.add_to_stack(card("Bolt", Effect::DealDamage { amount: 5 }));
    s.add_to_stack(card("Negate", Effect::CounterSpell));
    let log = s.resolve_stack();
    assert_eq!(log.len(), 2);
    assert_eq!(log[0].card.name, "Negate");
    assert_eq!(log[0].result, "Countered Bolt");
    assert_eq!(log[0].opponent_health, 20);
    assert_eq!(log[1].card.name, "Bolt");
    assert_eq!(log[1].result, "Fizzled (was countered)");
    assert_eq!(log[1].opponent_health, 20);
    assert_eq!(s.opponent_health, 20);
}

#[test]
fn untargeted_counter_produces_no_entry() {
    let mut s = Stack::new();
    s.add_to_stack(card("Negate", Effect::CounterSpell));
    let log = s.resolve_stack();
    assert_eq!(log.len(), 0);
    assert_eq!(s.opponent_health, 20);
    assert_eq!(s.player_health, 20);
}

#[test]
fn health_snapshots_follow_each_step() {
    let mut s = Stack::new();
    s.add_to_stack(card("Shock", Effect::DealDamage { amount: 3 }));
    s.add_to_stack(card("Bolt", Effect::DealDamage { amount: 4 }));
    let log = s.resolve_stack();
    assert_eq!(log.len(), 2);
    assert_eq!(log[0].result, "Dealt 4 damage");
    assert_eq!(log[0].opponent_health, 16);
    assert_eq!(log[0].player_health, 20);
    assert_eq!(log[1].result, "Dealt 3 damage");
    assert_eq!(log[1].opponent_health, 13);
    assert_eq!(log[1].player_health, 20);
    assert_eq!(s.opponent_health, 13);
}

#[test]
fn default_variant_fizzles_like_damage() {
    let mut s = Stack::new();
    s.add_to_stack(card("Wall", Effect::NoEffect));
    s.add_to_stack(card("Negate", Effect::CounterSpell));
    let log = s.resolve_stack();
    assert_eq!(log.len(), 2);
    assert_eq!(log[0].result, "Countered Wall");
    assert_eq!(log[1].result, "Fizzled (was countered)");
    assert_eq!(s.opponent_health, 20);
}

#[test]
fn default_variant_resolves_without_state_change() {
    let mut s = Stack::new();
    s.add_to_stack(card("Wall", Effect::NoEffect));
    let log = s.resolve_stack();
    assert_eq!(log.len(), 1);
    assert_eq!(log[0].result, "Resolved");
    assert_eq!(log[0].opponent_health, 20);
    assert_eq!(s.opponent_health, 20);
}

#[test]
fn zero_damage_logs_and_changes_nothing() {
    let mut s = Stack::new();
    s.add_to_stack(card("Prod", Effect::DealDamage { amount: 0 }));
    let log = s.resolve_stack();
    assert_eq!(log.len(), 1);
    assert_eq!(log[0].result, "Dealt 0 damage");
    assert_eq!(log[0].opponent_health, 20);
    assert_eq!(s.opponent_health, 20);
}

#[test]
fn large_damage_message_uses_full_decimal() {
    let mut s = Stack::new();
    s.add_to_stack(card("Doom", Effect::DealDamage { amount: 1234 }));
    let log = s.resolve_stack();
    assert_eq!(log.len(), 1);
    assert_eq!(log[0].result, "Dealt 1234 damage");
    assert_eq!(log[0].opponent_health, 0);
    assert_eq!(s.opponent_health, 0);
}

#[test]
fn duplicate_cards_match_structurally() {
    // Two field-for-field identical bolts and one counter: the counter
    // cancels the first structural match, and both copies then count as
    // countered, so neither deals damage.
    let mut s = Stack::new();
    s.add_to_stack(card("Bolt", Effect::DealDamage { amount: 5 }));
    s.add_to_stack(card("Bolt", Effect::DealDamage { amount: 5 }));
    s.add_to_stack(card("Negate", Effect::CounterSpell));
    let log = s.resolve_stack();
    assert_eq!(log.len(), 3);
    assert_eq!(log[0].result, "Countered Bolt");
    assert_eq!(log[1].result, "Fizzled (was countered)");
    assert_eq!(log[2].result, "Fizzled (was countered)");
    assert_eq!(s.opponent_health, 20);
}

#[test]
fn counters_can_counter_each_other() {
    // The later counter resolves first and cancels the earlier one; a
    // cancelled counter still performs its own counter rather than fizzling.
    let mut s = Stack::new();
    s.add_to_stack(card("First", Effect::CounterSpell));
    s.add_to_stack(card("Second", Effect::CounterSpell));
    let log = s.resolve_stack();
    assert_eq!(log.len(), 2);
    assert_eq!(log[0].card.name, "Second");
    assert_eq!(log[0].result, "Countered First");
    assert_eq!(log[1].card.name, "First");
    assert_eq!(log[1].result, "Countered Second");
    assert_eq!(s.opponent_health, 20);
}

#[test]
fn health_persists_across_rounds() {
    let mut s = Stack::new();
    s.add_to_stack(card("Shock", Effect::DealDamage { amount: 3 }));
    let _ = s.resolve_stack();
    assert_eq!(s.opponent_health, 17);
    s.add_to_stack(card("Bolt", Effect::DealDamage { amount: 4 }));
    let log = s.resolve_stack();
    assert_eq!(log[0].result, "Dealt 4 damage");
    assert_eq!(log[0].opponent_health, 13);
    assert_eq!(s.opponent_health, 13);
}

#[test]
fn cards_compare_structurally() {
    let a = card("Bolt", Effect::DealDamage { amount: 5 });
    let b = card("Bolt", Effect::DealDamage { amount: 5 });
    let c = card("Bolt", Effect::DealDamage { amount: 6 });
    assert!(a.same_card(&b));
    assert!(!a.same_card(&c));
    assert!(a.same_card(&a.duplicate()));
}
