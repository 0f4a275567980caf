use vstd::prelude::*;
use vstd::string::StringExecFns;
use crate::cards::{Card, CardV, Effect};
use crate::resolution::{
    decimal, decimal_digit, dealt_msg, countered_msg, fizzled_msg, resolved_msg, views,
    find_target, find_target_from, run, start_state, resolve_spec, step, StepV,
};

verus! {

/// One entry of the resolution log: the processed card, a human-readable
/// outcome, and a snapshot of both health totals as of that step.
#[derive(Debug)]
pub struct ResolutionResult {
    pub card: Card,
    pub result: String,
    pub player_health: u32,
    pub opponent_health: u32,
}

impl View for ResolutionResult {
    type V = StepV;

    open spec fn view(&self) -> StepV {
        StepV {
            card: self.card@,
            result: self.result@,
            player_health: self.player_health,
            opponent_health: self.opponent_health,
        }
    }
}

/// The mathematical values of a resolution log.
pub open spec fn log_views(results: Seq<ResolutionResult>) -> Seq<StepV> {
    results.map_values(|r: ResolutionResult| r@)
}

/// The resolution engine: the pending cards in submission order, and the two
/// health totals, which persist across resolution rounds.
#[derive(Debug)]
pub struct Stack {
    pub cards: Vec<Card>,
    pub player_health: u32,
    pub opponent_health: u32,
}

/// One decimal digit as a string slice.
fn digit_str(d: u32) -> (r: &'static str)
    requires
        d < 10,
    ensures
        r@ == seq![decimal_digit(d as nat)],
{
    proof {
        reveal_strlit("0");
        reveal_strlit("1");
        reveal_strlit("2");
        reveal_strlit("3");
        reveal_strlit("4");
        reveal_strlit("5");
        reveal_strlit("6");
        reveal_strlit("7");
        reveal_strlit("8");
        reveal_strlit("9");
    }
    let r = if d == 0 {
        "0"
    } else if d == 1 {
        "1"
    } else if d == 2 {
        "2"
    } else if d == 3 {
        "3"
    } else if d == 4 {
        "4"
    } else if d == 5 {
        "5"
    } else if d == 6 {
        "6"
    } else if d == 7 {
        "7"
    } else if d == 8 {
        "8"
    } else {
        "9"
    };
    proof {
        assert(r@ =~= seq![decimal_digit(d as nat)]);
    }
    r
}

/// The decimal notation of `n`, as a string.
fn decimal_string(n: u32) -> (r: String)
    ensures
        r@ == decimal(n as nat),
    decreases n,
{
    if n < 10 {
        String::from_str(digit_str(n))
    } else {
        let mut s = decimal_string(n / 10);
        s.append(digit_str(n % 10));
        proof {
            assert(s@ =~= decimal(n as nat));
        }
        s
    }
}

/// The damage message, e.g. `Dealt 4 damage`.
fn dealt_string(amount: u32) -> (r: String)
    ensures
        r@ == dealt_msg(amount),
{
    let mut s = String::from_str("Dealt ");
    let digits = decimal_string(amount);
    s.append(digits.as_str());
    s.append(" damage");
    s
}

/// The counter message, e.g. `Countered Bolt`.
fn countered_string(name: &String) -> (r: String)
    ensures
        r@ == countered_msg(name@),
{
    let mut s = String::from_str("Countered ");
    s.append(name.as_str());
    s
}

/// The fizzle message.
fn fizzled_string() -> (r: String)
    ensures
        r@ == fizzled_msg(),
{
    String::from_str("Fizzled (was countered)")
}

/// The message for a card that resolves without touching game state.
fn resolved_string() -> (r: String)
    ensures
        r@ == resolved_msg(),
{
    String::from_str("Resolved")
}

/// Pushing a card onto a sequence adds exactly that card to the set of its
/// elements.
proof fn lemma_push_to_set(q: Seq<CardV>, x: CardV)
    ensures
        q.push(x).to_set() == q.to_set().insert(x),
{
    assert forall|a: CardV| q.push(x).to_set().contains(a) implies q.to_set().insert(x).contains(
        a,
    ) by {
        let i = choose|i: int| 0 <= i < q.push(x).len() && q.push(x)[i] == a;
        if i < q.len() {
            assert(q[i] == a);
        }
    };
    assert forall|a: CardV| q.to_set().insert(x).contains(a) implies q.push(x).to_set().contains(
        a,
    ) by {
        if a == x {
            assert(q.push(x)[q.len() as int] == a);
        } else {
            let i = choose|i: int| 0 <= i < q.len() && q[i] == a;
            assert(q.push(x)[i] == a);
        }
    };
    assert(q.push(x).to_set() =~= q.to_set().insert(x));
}

/// Whether `card` is a structural match for any card in `list`.
fn contains_card(list: &Vec<Card>, card: &Card) -> (r: bool)
    ensures
        r == views(list@).to_set().contains(card@),
{
    let mut j: usize = 0;
    while j < list.len()
        invariant
            j <= list.len(),
            forall|k: int| 0 <= k < j ==> views(list@)[k] != card@,
        decreases list.len() - j,
    {
        if list[j].same_card(card) {
            proof {
                assert(views(list@)[j as int] == card@);
                assert(views(list@).contains(card@));
            }
            return true;
        }
        j += 1;
    }
    proof {
        assert(!views(list@).contains(card@));
    }
    false
}

/// The position of the first card, at any position but `skip`, that is in
/// neither `resolved` nor `countered`: the target a counter at position
/// `skip` selects.
fn find_target_in(
    cards: &Vec<Card>,
    skip: usize,
    resolved: &Vec<Card>,
    countered: &Vec<Card>,
) -> (r: Option<usize>)
    ensures
        ({
            let t = find_target(
                views(cards@),
                skip as int,
                views(resolved@).to_set(),
                views(countered@).to_set(),
            );
            match r {
                Some(j) => j < cards@.len() && t == Some(views(cards@)[j as int]),
                None => t is None,
            }
        }),
{
    let ghost cv = views(cards@);
    let ghost rs = views(resolved@).to_set();
    let ghost cs = views(countered@).to_set();
    let mut j: usize = 0;
    while j < cards.len()
        invariant
            j <= cards.len(),
            cv == views(cards@),
            rs == views(resolved@).to_set(),
            cs == views(countered@).to_set(),
            find_target_from(cv, skip as int, rs, cs, 0) == find_target_from(
                cv,
                skip as int,
                rs,
                cs,
                j as int,
            ),
        decreases cards.len() - j,
    {
        proof {
            assert(cv.len() == cards@.len());
            assert(cv[j as int] == cards@[j as int]@);
        }
        if j != skip {
            let in_resolved = contains_card(resolved, &cards[j]);
            if !in_resolved {
                let in_countered = contains_card(countered, &cards[j]);
                if !in_countered {
                    proof {
                        assert(find_target_from(cv, skip as int, rs, cs, j as int) == Some(
                            cv[j as int],
                        ));
                    }
                    return Some(j);
                }
            }
        }
        proof {
            assert(find_target_from(cv, skip as int, rs, cs, j as int) == find_target_from(
                cv,
                skip as int,
                rs,
                cs,
                j as int + 1,
            ));
        }
        j += 1;
    }
    proof {
        assert(find_target_from(cv, skip as int, rs, cs, j as int) is None);
    }
    None
}

impl Stack {
    /// The pending cards, as mathematical values, in submission order.
    pub open spec fn pending(&self) -> Seq<CardV> {
        views(self.cards@)
    }

    /// A fresh game session: no pending cards, both players at 20 health.
    pub fn new() -> (s: Stack)
        ensures
            s.pending() == Seq::<CardV>::empty(),
            s.player_health == 20,
            s.opponent_health == 20,
    {
        let s = Stack { cards: Vec::new(), player_health: 20, opponent_health: 20 };
        proof {
            assert(s.pending() =~= Seq::<CardV>::empty());
        }
        s
    }

    /// Append a card to the end of the pending sequence. Health is untouched
    /// and submission order is preserved.
    pub fn add_to_stack(&mut self, card: Card)
        ensures
            final (self).pending() == old(self).pending().push(card@),
            final (self).player_health == old(self).player_health,
            final (self).opponent_health == old(self).opponent_health,
    {
        let ghost cv = card@;
        self.cards.push(card);
        proof {
            assert(self.pending() =~= old(self).pending().push(cv));
        }
    }

    /// Resolve everything currently pending and return the ordered log of
    /// outcomes. The pending sequence is processed in reverse submission
    /// order and is empty afterwards; the opponent's health ends as the
    /// resolution pass leaves it, and the player's health is untouched.
    pub fn resolve_stack(&mut self) -> (results: Vec<ResolutionResult>)
        ensures
            ({
                let pass = resolve_spec(
                    old(self).pending(),
                    old(self).player_health,
                    old(self).opponent_health,
                );
                &&& final (self).pending() == Seq::<CardV>::empty()
                &&& final (self).player_health == old(self).player_health
                &&& final (self).opponent_health == pass.opponent_health
                &&& log_views(results@) == pass.log
            }),
    {
        let ghost pending0 = views(self.cards@);
        let ghost oh0 = self.opponent_health;
        let ph = self.player_health;

        // Reverse the pending sequence: the most recently submitted card is
        // processed first.
        let n = self.cards.len();
        let mut rev: Vec<Card> = Vec::new();
        let mut k: usize = n;
        while k > 0
            invariant
                k <= n,
                n == self.cards.len(),
                pending0 == views(self.cards@),
                rev@.len() == n - k,
                forall|idx: int| 0 <= idx < rev@.len() ==> rev@[idx]@ == pending0[n - 1 - idx],
            decreases k,
        {
            k = k - 1;
            let c = self.cards[k].duplicate();
            rev.push(c);
        }
        proof {
            assert(views(rev@) =~= pending0.reverse());
        }
        let ghost rv = views(rev@);

        let mut resolved: Vec<Card> = Vec::new();
        let mut countered: Vec<Card> = Vec::new();
        let mut results: Vec<ResolutionResult> = Vec::new();
        let mut health = self.opponent_health;

        let mut i: usize = 0;
        while i < rev.len()
            invariant
                i <= rev.len(),
                rev@.len() == rv.len(),
                rv == views(rev@),
                ({
                    let st = run(rv, i as int, ph, start_state(oh0));
                    &&& st.resolved == views(resolved@).to_set()
                    &&& st.countered == views(countered@).to_set()
                    &&& st.opponent_health == health
                    &&& st.log == log_views(results@)
                }),
            decreases rev.len() - i,
        {
            let ghost st0 = run(rv, i as int, ph, start_state(oh0));
            let card = rev[i].duplicate();
            proof {
                assert(card@ == rv[i as int]);
            }
            match card.effect {
                Effect::CounterSpell => {
                    match find_target_in(&rev, i, &resolved, &countered) {
                        Some(j) => {
                            let msg = countered_string(&rev[j].name);
                            let target = rev[j].duplicate();
                            let ghost tv = target@;
                            let ghost c_before = views(countered@);
                            let ghost log_before = log_views(results@);
                            countered.push(target);
                            results.push(
                                ResolutionResult {
                                    card,
                                    result: msg,
                                    player_health: ph,
                                    opponent_health: health,
                                },
                            );
                            proof {
                                assert(views(countered@) =~= c_before.push(tv));
                                lemma_push_to_set(c_before, tv);
                                assert(log_views(results@) =~= log_before.push(
                                    StepV {
                                        card: rv[i as int],
                                        result: countered_msg(tv.name),
                                        player_health: ph,
                                        opponent_health: st0.opponent_health,
                                    },
                                ));
                                assert(find_target(rv, i as int, st0.resolved, st0.countered)
                                    == Some(tv));
                            }
                        },
                        None => {
                            proof {
                                assert(find_target(rv, i as int, st0.resolved, st0.countered)
                                    is None);
                            }
                        },
                    }
                },
                Effect::DealDamage { amount } => {
                    if contains_card(&countered, &card) {
                        let ghost log_before = log_views(results@);
                        results.push(
                            ResolutionResult {
                                card,
                                result: fizzled_string(),
                                player_health: ph,
                                opponent_health: health,
                            },
                        );
                        proof {
                            assert(log_views(results@) =~= log_before.push(
                                StepV {
                                    card: rv[i as int],
                                    result: fizzled_msg(),
                                    player_health: ph,
                                    opponent_health: st0.opponent_health,
                                },
                            ));
                        }
                    } else {
                        let ghost r_before = views(resolved@);
                        let ghost log_before = log_views(results@);
                        resolved.push(card.duplicate());
                        health = if health >= amount {
                            health - amount
                        } else {
                            0
                        };
                        results.push(
                            ResolutionResult {
                                card,
                                result: dealt_string(amount),
                                player_health: ph,
                                opponent_health: health,
                            },
                        );
                        proof {
                            assert(views(resolved@) =~= r_before.push(rv[i as int]));
                            lemma_push_to_set(r_before, rv[i as int]);
                            assert(log_views(results@) =~= log_before.push(
                                StepV {
                                    card: rv[i as int],
                                    result: dealt_msg(amount),
                                    player_health: ph,
                                    opponent_health: health,
                                },
                            ));
                        }
                    }
                },
                _ => {
                    if contains_card(&countered, &card) {
                        let ghost log_before = log_views(results@);
                        results.push(
                            ResolutionResult {
                                card,
                                result: fizzled_string(),
                                player_health: ph,
                                opponent_health: health,
                            },
                        );
                        proof {
                            assert(log_views(results@) =~= log_before.push(
                                StepV {
                                    card: rv[i as int],
                                    result: fizzled_msg(),
                                    player_health: ph,
                                    opponent_health: st0.opponent_health,
                                },
                            ));
                        }
                    } else {
                        let ghost r_before = views(resolved@);
                        let ghost log_before = log_views(results@);
                        resolved.push(card.duplicate());
                        results.push(
                            ResolutionResult {
                                card,
                                result: resolved_string(),
                                player_health: ph,
                                opponent_health: health,
                            },
                        );
                        proof {
                            assert(views(resolved@) =~= r_before.push(rv[i as int]));
                            lemma_push_to_set(r_before, rv[i as int]);
                            assert(log_views(results@) =~= log_before.push(
                                StepV {
                                    card: rv[i as int],
                                    result: resolved_msg(),
                                    player_health: ph,
                                    opponent_health: st0.opponent_health,
                                },
                            ));
                        }
                    }
                },
            }
            proof {
                assert(run(rv, i as int + 1, ph, start_state(oh0)) == step(rv, i as int, ph, st0));
            }
            i += 1;
        }

        self.cards.clear();
        self.opponent_health = health;
        proof {
            assert(self.pending() =~= Seq::<CardV>::empty());
            assert(rv == pending0.reverse());
            assert(rv.len() == pending0.len());
        }
        results
    }
}

} // verus!
