use vstd::prelude::*;
use crate::cards::{CardV, Effect};
use crate::resolution::{
    countered_msg, damage_result, dealt_msg, find_target, find_target_from, fizzled_msg,
    resolve_spec, resolved_msg, run, start_state, step, PassState, StepV,
};

verus! {

/// Draining is idempotent: resolving an empty pending sequence produces an
/// empty log and leaves both health totals unchanged.
pub proof fn lemma_drain_idempotent(player_health: u32, opponent_health: u32)
    ensures
        resolve_spec(Seq::<CardV>::empty(), player_health, opponent_health) == start_state(
            opponent_health,
        ),
        resolve_spec(Seq::<CardV>::empty(), player_health, opponent_health).log.len() == 0,
        resolve_spec(
            Seq::<CardV>::empty(),
            player_health,
            opponent_health,
        ).opponent_health == opponent_health,
{
}

proof fn lemma_find_target_from_some(
    cards: Seq<CardV>,
    skip: int,
    resolved: Set<CardV>,
    countered: Set<CardV>,
    from: int,
    t: CardV,
)
    requires
        find_target_from(cards, skip, resolved, countered, from) == Some(t),
    ensures
        !resolved.contains(t),
        !countered.contains(t),
        exists|j: int| from <= j < cards.len() && j != skip && cards[j] == t,
    decreases cards.len() - from,
{
    if 0 <= from < cards.len() {
        if from != skip && !resolved.contains(cards[from]) && !countered.contains(cards[from]) {
            assert(from <= from < cards.len() && from != skip && cards[from] == t);
        } else {
            lemma_find_target_from_some(cards, skip, resolved, countered, from + 1, t);
            let j = choose|j: int|
                from + 1 <= j < cards.len() && j != skip && cards[j] == t;
            assert(from <= j < cards.len() && j != skip && cards[j] == t);
        }
    }
}

/// A counter's selected target was eligible: not yet resolved, not yet
/// countered, and present in the sequence at a position other than the
/// counter's own.
pub proof fn lemma_find_target_some(
    cards: Seq<CardV>,
    skip: int,
    resolved: Set<CardV>,
    countered: Set<CardV>,
    t: CardV,
)
    requires
        find_target(cards, skip, resolved, countered) == Some(t),
    ensures
        !resolved.contains(t),
        !countered.contains(t),
        exists|j: int| 0 <= j < cards.len() && j != skip && cards[j] == t,
{
    lemma_find_target_from_some(cards, skip, resolved, countered, 0, t);
    let j = choose|j: int| 0 <= j < cards.len() && j != skip && cards[j] == t;
    assert(0 <= j < cards.len() && j != skip && cards[j] == t);
}

/// A counter with an eligible target cancels exactly that one target: the
/// target was pending (neither resolved nor countered), the countered set
/// grows by the target alone, nothing resolves, health is untouched, and the
/// counter logs one entry naming the target.
pub proof fn lemma_counter_cancels_one(
    cards: Seq<CardV>,
    i: int,
    player_health: u32,
    st: PassState,
    t: CardV,
)
    requires
        0 <= i < cards.len(),
        cards[i].effect == Effect::CounterSpell,
        find_target(cards, i, st.resolved, st.countered) == Some(t),
    ensures
        ({
            let r = step(cards, i, player_health, st);
            &&& !st.resolved.contains(t)
            &&& !st.countered.contains(t)
            &&& r.countered == st.countered.insert(t)
            &&& r.resolved == st.resolved
            &&& r.opponent_health == st.opponent_health
            &&& r.log == st.log.push(
                (StepV {
                    card: cards[i],
                    result: countered_msg(t.name),
                    player_health,
                    opponent_health: st.opponent_health,
                }),
            )
        }),
{
    lemma_find_target_some(cards, i, st.resolved, st.countered, t);
}

/// A counter that finds no eligible target is silent: it changes no state
/// and produces no log entry at all.
pub proof fn lemma_untargeted_counter_no_entry(
    cards: Seq<CardV>,
    i: int,
    player_health: u32,
    st: PassState,
)
    requires
        0 <= i < cards.len(),
        cards[i].effect == Effect::CounterSpell,
        find_target(cards, i, st.resolved, st.countered) is None,
    ensures
        step(cards, i, player_health, st) == st,
{
}

/// A counter submitted with nothing else pending cannot target itself, so
/// the whole resolution logs nothing and changes nothing.
pub proof fn lemma_lone_counter_silent(card: CardV, player_health: u32, opponent_health: u32)
    requires
        card.effect == Effect::CounterSpell,
    ensures
        resolve_spec(seq![card], player_health, opponent_health) == start_state(opponent_health),
        resolve_spec(seq![card], player_health, opponent_health).log.len() == 0,
{
    let s = seq![card];
    assert(s.reverse() =~= s);
    let none: Set<CardV> = Set::empty();
    assert(find_target_from(s, 0, none, none, 1) is None);
    assert(find_target_from(s, 0, none, none, 0) is None);
    assert(run(s, 0, player_health, start_state(opponent_health)) == start_state(
        opponent_health,
    ));
    assert(run(s, 1, player_health, start_state(opponent_health)) == step(
        s,
        0,
        player_health,
        start_state(opponent_health),
    ));
}

proof fn lemma_run_no_counters(cards: Seq<CardV>, n: int, player_health: u32, st0: PassState)
    requires
        0 <= n <= cards.len(),
        forall|i: int| 0 <= i < n ==> cards[i].effect != Effect::CounterSpell,
        st0.countered == Set::<CardV>::empty(),
    ensures
        ({
            let r = run(cards, n, player_health, st0);
            &&& r.countered == st0.countered
            &&& r.log.len() == st0.log.len() + n
            &&& forall|k: int| 0 <= k < st0.log.len() ==> r.log[k] == st0.log[k]
            &&& forall|k: int| 0 <= k < n ==> r.log[st0.log.len() + k].card == cards[k]
        }),
    decreases n,
{
    if n > 0 {
        lemma_run_no_counters(cards, n - 1, player_health, st0);
        let prev = run(cards, n - 1, player_health, st0);
        let r = run(cards, n, player_health, st0);
        assert(!prev.countered.contains(cards[n - 1]));
        assert forall|k: int| 0 <= k < n implies r.log[st0.log.len() + k].card == cards[k] by {
            if k < n - 1 {
                assert(r.log[st0.log.len() + k] == prev.log[st0.log.len() + k]);
            } else {
                assert(st0.log.len() + k == prev.log.len());
            }
        };
    }
}

/// Order inversion: when no counter is pending, every card produces exactly
/// one log entry, and the log lists the cards in reverse submission order —
/// the most recently submitted card is processed first.
pub proof fn lemma_order_inversion(pending: Seq<CardV>, player_health: u32, opponent_health: u32)
    requires
        forall|i: int| 0 <= i < pending.len() ==> pending[i].effect != Effect::CounterSpell,
    ensures
        ({
            let pass = resolve_spec(pending, player_health, opponent_health);
            &&& pass.log.len() == pending.len()
            &&& forall|i: int|
                0 <= i < pending.len() ==> pass.log[i].card == pending[pending.len() - 1 - i]
        }),
{
    let rev = pending.reverse();
    assert(rev.len() == pending.len());
    assert forall|i: int| 0 <= i < rev.len() implies rev[i].effect != Effect::CounterSpell by {
        assert(rev[i] == pending[pending.len() - 1 - i]);
    };
    lemma_run_no_counters(rev, rev.len() as int, player_health, start_state(opponent_health));
    let pass = resolve_spec(pending, player_health, opponent_health);
    assert forall|i: int| 0 <= i < pending.len() implies pass.log[i].card == pending[
        pending.len() - 1 - i
    ] by {
        assert(pass.log[start_state(opponent_health).log.len() + i].card == rev[i]);
        assert(rev[i] == pending[pending.len() - 1 - i]);
    };
}

proof fn lemma_run_health_bounds(cards: Seq<CardV>, n: int, player_health: u32, st0: PassState)
    requires
        0 <= n,
    ensures
        ({
            let r = run(cards, n, player_health, st0);
            &&& r.opponent_health <= st0.opponent_health
            &&& r.log.len() >= st0.log.len()
            &&& forall|k: int| 0 <= k < st0.log.len() ==> r.log[k] == st0.log[k]
            &&& forall|k: int|
                st0.log.len() <= k < r.log.len() ==> r.opponent_health <= (#[trigger] r.log[
                    k
                ]).opponent_health <= st0.opponent_health
            &&& forall|j: int, k: int|
                st0.log.len() <= j <= k < r.log.len() ==> (#[trigger] r.log[k]).opponent_health
                    <= (#[trigger] r.log[j]).opponent_health
        }),
    decreases n,
{
    if n > 0 {
        lemma_run_health_bounds(cards, n - 1, player_health, st0);
    }
}

/// Damage floor: opponent health never goes below zero, never rises during a
/// resolution, every log snapshot stays within the initial total, and the
/// snapshots are non-increasing along the log.
pub proof fn lemma_damage_floor(pending: Seq<CardV>, player_health: u32, opponent_health: u32)
    ensures
        ({
            let pass = resolve_spec(pending, player_health, opponent_health);
            &&& 0 <= pass.opponent_health <= opponent_health
            &&& forall|k: int|
                0 <= k < pass.log.len() ==> 0 <= (#[trigger] pass.log[k]).opponent_health
                    <= opponent_health
            &&& forall|j: int, k: int|
                0 <= j <= k < pass.log.len() ==> (#[trigger] pass.log[k]).opponent_health
                    <= (#[trigger] pass.log[j]).opponent_health
        }),
{
    lemma_run_health_bounds(
        pending.reverse(),
        pending.len() as int,
        player_health,
        start_state(opponent_health),
    );
}

/// A damage card that was not countered subtracts its amount, saturating at
/// zero, and its own log entry carries the post-subtraction health — the
/// snapshot matches the health after the card's effect is applied.
pub proof fn lemma_damage_snapshot(
    cards: Seq<CardV>,
    i: int,
    amount: u32,
    player_health: u32,
    st: PassState,
)
    requires
        0 <= i < cards.len(),
        cards[i].effect == (Effect::DealDamage { amount }),
        !st.countered.contains(cards[i]),
    ensures
        ({
            let r = step(cards, i, player_health, st);
            &&& r.opponent_health == damage_result(st.opponent_health, amount)
            &&& r.countered == st.countered
            &&& r.resolved == st.resolved.insert(cards[i])
            &&& r.log == st.log.push(
                (StepV {
                    card: cards[i],
                    result: dealt_msg(amount),
                    player_health,
                    opponent_health: damage_result(st.opponent_health, amount),
                }),
            )
        }),
{
}

/// A countered card fizzles the same way whatever its effect: one log entry
/// with the fizzle message and the unchanged snapshots, and no other change.
/// (A counter is the one exception: it ignores its own countered status.)
pub proof fn lemma_fizzle_uniform(cards: Seq<CardV>, i: int, player_health: u32, st: PassState)
    requires
        0 <= i < cards.len(),
        cards[i].effect != Effect::CounterSpell,
        st.countered.contains(cards[i]),
    ensures
        ({
            let r = step(cards, i, player_health, st);
            &&& r.resolved == st.resolved
            &&& r.countered == st.countered
            &&& r.opponent_health == st.opponent_health
            &&& r.log == st.log.push(
                (StepV {
                    card: cards[i],
                    result: fizzled_msg(),
                    player_health,
                    opponent_health: st.opponent_health,
                }),
            )
        }),
{
}

/// Any card that is neither damage nor a counter does exactly the
/// counter/fizzle bookkeeping a damage card does — membership in the
/// countered set alone decides fizzle versus resolve — differing only in its
/// message and in changing no health.
pub proof fn lemma_default_variant_symmetry(
    cards: Seq<CardV>,
    i: int,
    player_health: u32,
    st: PassState,
)
    requires
        0 <= i < cards.len(),
        cards[i].effect != Effect::CounterSpell,
        !(cards[i].effect is DealDamage),
    ensures
        ({
            let r = step(cards, i, player_health, st);
            &&& r.opponent_health == st.opponent_health
            &&& r.countered == st.countered
            &&& (st.countered.contains(cards[i]) ==> r.resolved == st.resolved && r.log
                == st.log.push(
                (StepV {
                    card: cards[i],
                    result: fizzled_msg(),
                    player_health,
                    opponent_health: st.opponent_health,
                }),
            ))
            &&& (!st.countered.contains(cards[i]) ==> r.resolved == st.resolved.insert(cards[i])
                && r.log == st.log.push(
                (StepV {
                    card: cards[i],
                    result: resolved_msg(),
                    player_health,
                    opponent_health: st.opponent_health,
                }),
            ))
        }),
{
}

} // verus!
