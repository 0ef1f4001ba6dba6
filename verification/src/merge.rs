use vstd::prelude::*;

use crate::calendar::{calendar_wf, events_view, Calendar, CalendarV};
use crate::event::{
    event_le, event_le_exec, event_wf, lemma_event_le_total, lemma_event_le_trans, Event, EventV,
};
use crate::periodic::{
    lemma_occ_monotone, lemma_occ_wf, occ, wf_iter, PeriodicIter, PeriodicV,
};

verus! {

/// The least current occurrence among the rule streams at positions `ps`,
/// from index `i` on, with `acc` the best seen so far; the earliest rule
/// wins ties.
pub open spec fn best_rule_from(
    rules: Seq<PeriodicV>,
    ps: Seq<nat>,
    i: int,
    acc: Option<(int, EventV)>,
) -> Option<(int, EventV)>
    decreases rules.len() - i,
{
    if i < 0 || i >= rules.len() || i >= ps.len() {
        acc
    } else {
        let acc2 = match occ(rules[i], ps[i]) {
            None => acc,
            Some(e) => match acc {
                None => Some((i, e)),
                Some(pr) => if event_le(pr.1, e) {
                    acc
                } else {
                    Some((i, e))
                },
            },
        };
        best_rule_from(rules, ps, i + 1, acc2)
    }
}

pub open spec fn best_rule(rules: Seq<PeriodicV>, ps: Seq<nat>) -> Option<(int, EventV)> {
    best_rule_from(rules, ps, 0, None)
}

/// The best rule head is no later than any live rule head.
pub proof fn lemma_best_rule_from(rules: Seq<PeriodicV>, ps: Seq<nat>, i: int, acc: Option<
    (int, EventV),
>)
    requires
        rules.len() == ps.len(),
        0 <= i,
    ensures
        best_rule_from(rules, ps, i, acc) is None ==> acc is None && forall|k: int|
            i <= k < rules.len() ==> occ(rules[k], #[trigger] ps[k]) is None,
        best_rule_from(rules, ps, i, acc) matches Some(pr) ==> {
            &&& forall|k: int|
                i <= k < rules.len() ==> (match occ(rules[k], #[trigger] ps[k]) {
                    Some(h) => event_le(pr.1, h),
                    None => true,
                })
            &&& (match acc {
                Some(a) => event_le(pr.1, a.1),
                None => true,
            })
            &&& (0 <= pr.0 < rules.len() && occ(rules[pr.0], ps[pr.0]) == Some(pr.1)) || acc
                == Some(pr)
        },
    decreases rules.len() - i,
{
    if !(i < 0 || i >= rules.len() || i >= ps.len()) {
        let acc2 = match occ(rules[i], ps[i]) {
            None => acc,
            Some(e) => match acc {
                None => Some((i, e)),
                Some(pr) => if event_le(pr.1, e) {
                    acc
                } else {
                    Some((i, e))
                },
            },
        };
        lemma_best_rule_from(rules, ps, i + 1, acc2);
        match best_rule_from(rules, ps, i, acc) {
            None => {},
            Some(pr) => {
                match occ(rules[i], ps[i]) {
                    None => {},
                    Some(e) => {
                        match acc {
                            None => {},
                            Some(a) => {
                                if event_le(a.1, e) {
                                    // pr.1 <= a.1 <= e
                                    lemma_event_le_trans(pr.1, a.1, e);
                                } else {
                                    lemma_event_le_total(a.1, e);
                                    // pr.1 <= e <= a.1
                                    lemma_event_le_trans(pr.1, e, a.1);
                                }
                            },
                        }
                    },
                }
            },
        }
    }
}

/// The head of the merged stream: the current single event if it comes no
/// later than the best rule head, else that rule head.
pub open spec fn merged_head(c: CalendarV, si: nat, ps: Seq<nat>) -> Option<EventV> {
    let s: Option<EventV> = if si < c.singles.len() {
        Some(c.singles[si as int])
    } else {
        None
    };
    match (s, best_rule(c.periodics, ps)) {
        (None, None) => None,
        (Some(e), None) => Some(e),
        (None, Some(pr)) => Some(pr.1),
        (Some(es), Some(pr)) => if event_le(es, pr.1) {
            Some(es)
        } else {
            Some(pr.1)
        },
    }
}

/// Whether the single list supplies the merged head.
pub open spec fn single_chosen(c: CalendarV, si: nat, ps: Seq<nat>) -> bool {
    si < c.singles.len() && (match best_rule(c.periodics, ps) {
        None => true,
        Some(pr) => event_le(c.singles[si as int], pr.1),
    })
}

/// The `n`-th event of the merged stream from a given state: each pull
/// takes the head and advances exactly the source that supplied it.
pub open spec fn merged(c: CalendarV, si: nat, ps: Seq<nat>, n: nat) -> Option<EventV>
    decreases n,
{
    if n == 0 {
        merged_head(c, si, ps)
    } else if merged_head(c, si, ps) is None {
        None
    } else if single_chosen(c, si, ps) {
        merged(c, (si + 1) as nat, ps, (n - 1) as nat)
    } else {
        match best_rule(c.periodics, ps) {
            Some(pr) => merged(c, si, ps.update(pr.0, (ps[pr.0] + 1) as nat), (n - 1) as nat),
            None => None,
        }
    }
}

/// Law: building the store is deterministic, so parsing one document twice
/// gives merged occurrence streams that agree at every position.
pub proof fn lemma_parse_idempotent(
    cs: Seq<Seq<crate::calendar::PropertyV>>,
    c1: CalendarV,
    c2: CalendarV,
    ps: Seq<nat>,
    si: nat,
    n: nat,
)
    requires
        crate::calendar::spec_parse(cs) == Ok::<CalendarV, crate::errors::EventError>(c1),
        crate::calendar::spec_parse(cs) == Ok::<CalendarV, crate::errors::EventError>(c2),
    ensures
        merged(c1, si, ps, n) == merged(c2, si, ps, n),
{
}

/// The merged, lazily pulled stream over one calendar: the sorted single
/// events and one generator per rule, of which only the current head is
/// ever held.
pub struct CalendarIter {
    pub singles: Vec<Event>,
    pub si: usize,
    pub gens: Vec<PeriodicIter>,
    pub heads: Vec<Option<Event>>,
    pub prev: Ghost<Option<EventV>>,
}

pub open spec fn rules_of(it: CalendarIter) -> Seq<PeriodicV> {
    it.gens@.map_values(|g: PeriodicIter| g.rule@)
}

pub open spec fn cal_of(it: CalendarIter) -> CalendarV {
    CalendarV { singles: events_view(it.singles@), periodics: rules_of(it) }
}

/// The stream position of each rule: the index of its current head.
pub open spec fn positions(it: CalendarIter) -> Seq<nat> {
    Seq::new(
        it.gens@.len(),
        |i: int|
            if it.heads@[i] is Some {
                (it.gens@[i].emitted - 1) as nat
            } else {
                it.gens@[i].emitted as nat
            },
    )
}

pub open spec fn citer_wf(it: CalendarIter) -> bool {
    &&& calendar_wf(cal_of(it))
    &&& it.si <= it.singles@.len()
    &&& it.gens@.len() == it.heads@.len()
    &&& forall|i: int| 0 <= i < it.gens@.len() ==> wf_iter(#[trigger] it.gens@[i])
    &&& forall|i: int|
        0 <= i < it.heads@.len() ==> (match #[trigger] it.heads@[i] {
            Some(e) => it.gens@[i].emitted >= 1 && occ(
                it.gens@[i].rule@,
                (it.gens@[i].emitted - 1) as nat,
            ) == Some(e@),
            None => occ(it.gens@[i].rule@, it.gens@[i].emitted as nat) is None,
        })
    &&& (match it.prev@ {
        Some(l) => {
            &&& (it.si < it.singles@.len() ==> event_le(l, cal_of(it).singles[it.si as int]))
            &&& forall|i: int|
                0 <= i < it.heads@.len() ==> (match #[trigger] it.heads@[i] {
                    Some(e) => event_le(l, e@),
                    None => true,
                })
        },
        None => true,
    })
}

/// Picks the least live head, earliest on ties.
fn best_head(
    heads: &Vec<Option<Event>>,
    Ghost(rules): Ghost<Seq<PeriodicV>>,
    Ghost(ps): Ghost<Seq<nat>>,
) -> (r: Option<usize>)
    requires
        heads@.len() == rules.len() == ps.len(),
        forall|i: int|
            0 <= i < heads@.len() ==> (match #[trigger] heads@[i] {
                Some(e) => occ(rules[i], ps[i]) == Some(e@) && event_wf(e@),
                None => occ(rules[i], ps[i]) is None,
            }),
    ensures
        match r {
            Some(bi) => bi < heads@.len() && heads@[bi as int] is Some && best_rule(rules, ps)
                == Some((bi as int, heads@[bi as int]->Some_0@)),
            None => best_rule(rules, ps) is None,
        },
{
    let m = heads.len();
    let mut found: bool = false;
    let mut bi: usize = 0;
    let mut q: usize = 0;
    while q < m
        invariant
            m == heads@.len() == rules.len() == ps.len(),
            0 <= q <= m,
            forall|i: int|
                0 <= i < heads@.len() ==> (match #[trigger] heads@[i] {
                    Some(e) => occ(rules[i], ps[i]) == Some(e@) && event_wf(e@),
                    None => occ(rules[i], ps[i]) is None,
                }),
            found ==> bi < q && heads@[bi as int] is Some,
            best_rule(rules, ps) == best_rule_from(
                rules,
                ps,
                q as int,
                if found {
                    Some((bi as int, heads@[bi as int]->Some_0@))
                } else {
                    None::<(int, EventV)>
                },
            ),
        decreases m - q,
    {
        match &heads[q] {
            Some(e) => {
                if !found {
                    found = true;
                    bi = q;
                } else {
                    let keep = match &heads[bi] {
                        Some(b) => event_le_exec(b, e),
                        None => false,
                    };
                    if !keep {
                        bi = q;
                    }
                }
            },
            None => {},
        }
        q = q + 1;
    }
    if found {
        Some(bi)
    } else {
        None
    }
}

impl Calendar {
    /// The merged, ascending, lazy stream of all the calendar's
    /// occurrences; pulling it never computes more than one occurrence
    /// per rule beyond those already delivered.
    pub fn iter(&self) -> (it: CalendarIter)
        requires
            calendar_wf(self@),
        ensures
            citer_wf(it),
            cal_of(it) == self@,
            it.si == 0,
            it.prev@ is None,
            positions(it) =~= Seq::new(self@.periodics.len(), |i: int| 0nat),
    {
        let mut singles: Vec<Event> = Vec::new();
        let n = self.single.len();
        let mut i: usize = 0;
        while i < n
            invariant
                n == self.single@.len(),
                0 <= i <= n,
                singles@.len() == i,
                forall|q: int| 0 <= q < i ==> singles@[q]@ == #[trigger] self.single@[q]@,
            decreases n - i,
        {
            let e = self.single[i].duplicate();
            singles.push(e);
            i = i + 1;
        }
        proof {
            assert(events_view(singles@) =~= events_view(self.single@));
        }
        let m = self.periodic.len();
        let mut gens: Vec<PeriodicIter> = Vec::new();
        let mut heads: Vec<Option<Event>> = Vec::new();
        let mut j: usize = 0;
        while j < m
            invariant
                m == self.periodic@.len(),
                calendar_wf(self@),
                gens@.len() == j && heads@.len() == j,
                0 <= j <= m,
                forall|q: int|
                    0 <= q < j ==> (#[trigger] gens@[q]).rule@ == self.periodic@[q]@ && wf_iter(
                        gens@[q],
                    ),
                forall|q: int|
                    0 <= q < j ==> (match #[trigger] heads@[q] {
                        Some(e) => gens@[q].emitted == 1 && occ(gens@[q].rule@, 0) == Some(e@),
                        None => gens@[q].emitted == 0 && occ(gens@[q].rule@, 0) is None,
                    }),
            decreases m - j,
        {
            proof {
                assert(self@.periodics[j as int] == self.periodic@[j as int]@);
            }
            let mut g = self.periodic[j].produce();
            let h = g.next();
            gens.push(g);
            heads.push(h);
            j = j + 1;
        }
        let it = CalendarIter { singles, si: 0, gens, heads, prev: Ghost(None) };
        proof {
            assert(rules_of(it) =~= self@.periodics);
            assert(cal_of(it) == self@) by {
                assert(events_view(it.singles@) =~= self@.singles);
            }
        }
        it
    }
}

impl CalendarIter {
    /// One pull: yields the merged stream's head — the least current
    /// candidate, singles first on ties, then earlier rules — advances
    /// only the source that supplied it, and never yields out of order.
    #[verifier::rlimit(100)]
    pub fn next(&mut self) -> (r: Option<Event>)
        requires
            citer_wf(*old(self)),
        ensures
            citer_wf(*final(self)),
            cal_of(*final(self)) == cal_of(*old(self)),
            match r {
                Some(e) => {
                    &&& Some(e@) == merged_head(
                        cal_of(*old(self)),
                        old(self).si as nat,
                        positions(*old(self)),
                    )
                    &&& final(self).prev@ == Some(e@)
                    &&& (match old(self).prev@ {
                        Some(l) => event_le(l, e@),
                        None => true,
                    })
                    &&& (if single_chosen(
                        cal_of(*old(self)),
                        old(self).si as nat,
                        positions(*old(self)),
                    ) {
                        final(self).si == old(self).si + 1 && positions(*final(self))
                            == positions(*old(self))
                    } else {
                        final(self).si == old(self).si && (match best_rule(
                            rules_of(*old(self)),
                            positions(*old(self)),
                        ) {
                            Some(pr) => positions(*final(self)) == positions(*old(self)).update(
                                pr.0,
                                (positions(*old(self))[pr.0] + 1) as nat,
                            ),
                            None => false,
                        })
                    })
                },
                None => merged_head(
                    cal_of(*old(self)),
                    old(self).si as nat,
                    positions(*old(self)),
                ) is None && *final(self) == *old(self),
            },
    {
        let ghost c0 = cal_of(*old(self));
        let ghost ps0 = positions(*old(self));
        proof {
            assert forall|i: int| 0 <= i < self.heads@.len() implies (match #[trigger] self
                .heads@[i] {
                Some(e) => occ(rules_of(*self)[i], ps0[i]) == Some(e@) && event_wf(e@),
                None => occ(rules_of(*self)[i], ps0[i]) is None,
            }) by {
                assert(rules_of(*self)[i] == self.gens@[i].rule@);
                match self.heads@[i] {
                    Some(e) => {
                        lemma_occ_wf(self.gens@[i].rule@, (self.gens@[i].emitted - 1) as nat);
                    },
                    None => {},
                }
            }
        }
        let bh = best_head(
            &self.heads,
            Ghost(rules_of(*self)),
            Ghost(ps0),
        );
        proof {
            lemma_best_rule_from(rules_of(*self), ps0, 0, None::<(int, EventV)>);
        }
        let take_single: bool = if self.si < self.singles.len() {
            match bh {
                None => true,
                Some(bi) => {
                    let b = match &self.heads[bi] {
                        Some(x) => x,
                        None => {
                            proof {
                                assert(false);
                            }
                            &self.singles[self.si]
                        },
                    };
                    proof {
                        assert(c0.singles[self.si as int] == self.singles@[self.si as int]@);
                    }
                    event_le_exec(&self.singles[self.si], b)
                },
            }
        } else {
            false
        };
        if take_single {
            let e = self.singles[self.si].duplicate();
            self.si = self.si + 1;
            proof {
                self.prev = Ghost(Some(e@));
                assert(c0.singles[(self.si - 1) as int] == e@);
                assert(positions(*self) =~= ps0);
                assert(cal_of(*self) == c0) by {
                    assert(rules_of(*self) =~= rules_of(*old(self)));
                }
                // the yielded single is no later than any remaining candidate
                if self.si < self.singles@.len() {
                    assert(event_le(e@, c0.singles[self.si as int]));
                }
                assert forall|i: int| 0 <= i < self.heads@.len() implies (match #[trigger] self
                    .heads@[i] {
                    Some(h) => event_le(e@, h@),
                    None => true,
                }) by {
                    match self.heads@[i] {
                        Some(h) => {
                            match best_rule(rules_of(*old(self)), ps0) {
                                Some(pr) => {
                                    lemma_event_le_trans(e@, pr.1, h@);
                                },
                                None => {},
                            }
                        },
                        None => {},
                    }
                }
            }
            Some(e)
        } else {
            match bh {
                None => {
                    proof {
                        assert(merged_head(c0, old(self).si as nat, ps0) is None);
                    }
                    None
                },
                Some(bi) => {
                    let e = match &self.heads[bi] {
                        Some(x) => x.duplicate(),
                        None => {
                            proof {
                                assert(false);
                            }
                            Event::new()
                        },
                    };
                    let ghost pr = best_rule(rules_of(*old(self)), ps0)->Some_0;
                    proof {
                        // singles first on ties: here the rule head came first
                        if old(self).si < old(self).singles@.len() {
                            assert(c0.singles[old(self).si as int] == old(self).singles@[old(
                                self,
                            ).si as int]@);
                            lemma_event_le_total(c0.singles[old(self).si as int], e@);
                        }
                    }
                    let mut g = self.gens.remove(bi);
                    let nh = g.next();
                    self.gens.insert(bi, g);
                    self.heads[bi] = nh;
                    proof {
                        self.prev = Ghost(Some(e@));
                        assert(self.gens@ =~= old(self).gens@.update(
                            bi as int,
                            self.gens@[bi as int],
                        ));
                        assert(rules_of(*self) =~= rules_of(*old(self)));
                        assert(cal_of(*self) == c0);
                        let gb = self.gens@[bi as int];
                        let rb = gb.rule@;
                        // the chosen position moved one step
                        assert(positions(*self) =~= ps0.update(
                            bi as int,
                            (ps0[bi as int] + 1) as nat,
                        ));
                        // the new head, if any, is the next occurrence
                        match self.heads@[bi as int] {
                            Some(x) => {
                                lemma_occ_monotone(rb, ps0[bi as int], (ps0[bi as int] + 1) as nat);
                            },
                            None => {},
                        }
                        // the yielded head precedes every other candidate
                        assert forall|i: int| 0 <= i < self.heads@.len() implies (
                        match #[trigger] self.heads@[i] {
                            Some(h) => event_le(e@, h@),
                            None => true,
                        }) by {
                            if i != bi {
                                assert(self.heads@[i] == old(self).heads@[i]);
                                match self.heads@[i] {
                                    Some(h) => {},
                                    None => {},
                                }
                            }
                        }
                    }
                    Some(e)
                },
            }
        }
    }
}

} // verus!
