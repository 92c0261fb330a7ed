use vstd::prelude::*;

use crate::charset::CharSet;
use crate::nfa::{label_of, states_in, table_view, table_wf, NFA, TableView};

verus! {

/// The regular-expression AST. All semantics live in the builder.
pub enum Regex {
    Eps,
    CharSet(CharSet),
    Concat(Box<Regex>, Box<Regex>),
    Or(Box<Regex>, Box<Regex>),
    Star(Box<Regex>),
    Plus(Box<Regex>),
    Ques(Box<Regex>),
}

/// A termination measure for the construction: `Plus` costs a build of its
/// body plus a build of the body's `Star`.
pub open spec fn rsize(r: Regex) -> nat
    decreases r,
{
    match r {
        Regex::Eps => 1,
        Regex::CharSet(_) => 1,
        Regex::Concat(r1, r2) => 1 + rsize(*r1) + rsize(*r2),
        Regex::Or(r1, r2) => 1 + rsize(*r1) + rsize(*r2),
        Regex::Star(r0) => 1 + rsize(*r0),
        Regex::Plus(r0) => 2 + 2 * rsize(*r0),
        Regex::Ques(r0) => 1 + rsize(*r0),
    }
}

/// The table of a builder that has allocated only the initial state 0.
pub open spec fn init_table() -> TableView {
    seq![Seq::<(crate::nfa::EdgeLabel, usize)>::empty()]
}

/// Append one edge to `from`'s row.
pub open spec fn add_edge(t: TableView, from: usize, lbl: crate::nfa::EdgeLabel, to: usize) -> TableView
    recommends
        from < t.len(),
{
    t.update(from as int, t[from as int].push((lbl, to)))
}

/// For each entry state in order: allocate a fresh state and add an edge
/// labeled `lbl` to it; the fresh states are the new frontier.
pub open spec fn fresh_targets(t: TableView, cur: Seq<usize>, lbl: crate::nfa::EdgeLabel) -> (
    TableView,
    Seq<usize>,
)
    decreases cur.len(),
{
    if cur.len() == 0 {
        (t, Seq::<usize>::empty())
    } else {
        let s = t.len() as usize;
        let t2 = add_edge(t.push(Seq::empty()), cur[0], lbl, s);
        let rest = fresh_targets(t2, cur.drop_first(), lbl);
        (rest.0, seq![s] + rest.1)
    }
}

/// Add an epsilon edge from `from` to every state of `tos`, in order.
pub open spec fn add_eps_fan(t: TableView, from: usize, tos: Seq<usize>) -> TableView
    decreases tos.len(),
{
    if tos.len() == 0 {
        t
    } else {
        add_eps_fan(add_edge(t, from, label_of(CharSet::Epsilon), tos[0]), from, tos.drop_first())
    }
}

/// Add an epsilon edge from every state of `froms` to every state of `tos`.
pub open spec fn add_eps_back(t: TableView, froms: Seq<usize>, tos: Seq<usize>) -> TableView
    decreases froms.len(),
{
    if froms.len() == 0 {
        t
    } else {
        add_eps_back(add_eps_fan(t, froms[0], tos), froms.drop_first(), tos)
    }
}

/// The generalized Thompson construction: what building `r` from the
/// frontier `cur` does to the table, and the exit frontier it returns.
pub open spec fn compile(t: TableView, cur: Seq<usize>, r: Regex) -> (TableView, Seq<usize>)
    decreases rsize(r),
{
    match r {
        Regex::Eps => (t, cur),
        Regex::CharSet(cs) => fresh_targets(t, cur, label_of(cs)),
        Regex::Concat(r1, r2) => {
            let step_1 = compile(t, cur, *r1);
            compile(step_1.0, step_1.1, *r2)
        },
        Regex::Or(r1, r2) => {
            let step_1 = compile(t, cur, *r1);
            let step_2 = compile(step_1.0, cur, *r2);
            (step_2.0, step_1.1 + step_2.1)
        },
        Regex::Star(r0) => {
            let step = compile(t, cur, *r0);
            (add_eps_back(step.0, step.1, cur), cur)
        },
        Regex::Plus(r0) => {
            let step_1 = compile(t, cur, *r0);
            let step_2 = compile(step_1.0, step_1.1, *r0);
            (add_eps_back(step_2.0, step_2.1, step_1.1), step_1.1)
        },
        Regex::Ques(r0) => {
            let step = compile(t, cur, *r0);
            (step.0, cur + step.1)
        },
    }
}

/// Compiles a `Regex` into an `NFA` by threading a frontier of entry states
/// through the AST, allocating fresh states as it goes.
pub struct NFABuilder {
    next_state: usize,
    transitions: Vec<Vec<(CharSet, usize)>>,
}

impl NFABuilder {
    /// The meaning of the table built so far.
    pub closed spec fn tview(self) -> TableView {
        table_view(self.transitions@)
    }

    /// The next fresh state is exactly the number of rows, and every target
    /// recorded so far is a state of the table.
    pub closed spec fn inv(self) -> bool {
        &&& self.next_state == self.tview().len()
        &&& table_wf(self.tview())
    }

    /// Compile `regex`: allocate its states and transitions starting from the
    /// frontier `{0}`, then freeze the table and the final frontier (as the
    /// accepting set) into a ready-to-run automaton.
    pub fn build(regex: &Regex) -> (nfa: NFA)
        ensures
            nfa.wf(),
            nfa.table() == compile(init_table(), seq![0usize], *regex).0,
            nfa.acc() == compile(init_table(), seq![0usize], *regex).1,
            nfa.live() == crate::nfa::eps_closure(nfa.table(), crate::nfa::start_set()),
    {
        let mut rows: Vec<Vec<(CharSet, usize)>> = Vec::new();
        rows.push(Vec::new());
        let mut builder = NFABuilder { next_state: 1, transitions: rows };
        proof {
            assert(builder.transitions@[0]@ =~= Seq::<(CharSet, usize)>::empty());
            assert(crate::nfa::row_view(builder.transitions@[0]@) =~= Seq::<(
                crate::nfa::EdgeLabel,
                usize,
            )>::empty());
            assert(builder.tview() =~= init_table());
            assert(builder.inv());
        }
        let mut starts: Vec<usize> = Vec::new();
        starts.push(0);
        proof {
            assert(starts@ =~= seq![0usize]);
        }
        let accepting = builder.add_regex(&starts, regex);
        NFA::new(builder.transitions, accepting)
    }

    /// Allocate a fresh state: a new, empty row of the table.
    fn new_state(&mut self) -> (s: usize)
        requires
            old(self).inv(),
        ensures
            final(self).inv(),
            s == old(self).tview().len(),
            final(self).tview() == old(self).tview().push(Seq::empty()),
    {
        let s = self.next_state;
        self.transitions.push(Vec::new());
        self.next_state = self.transitions.len();
        proof {
            let t0 = old(self).tview();
            assert(self.transitions@[t0.len() as int]@ =~= Seq::<(CharSet, usize)>::empty());
            assert(crate::nfa::row_view(self.transitions@[t0.len() as int]@) =~= Seq::<(
                crate::nfa::EdgeLabel,
                usize,
            )>::empty());
            assert(self.tview() =~= t0.push(Seq::empty()));
            assert forall|a: int, j: int|
                0 <= a < self.tview().len() && 0 <= j < self.tview()[a].len() implies (
            #[trigger] self.tview()[a][j]).1 < self.tview().len() by {
                assert(self.tview()[a] == t0.push(Seq::empty())[a]);
                if a < t0.len() {
                    assert(t0[a][j].1 < t0.len());
                }
            }
        }
        s
    }

    /// Record the transition `(from, cs, to)` by appending a copy of `cs` to
    /// `from`'s row.
    fn add_transition(&mut self, from: usize, cs: &CharSet, to: usize)
        requires
            old(self).inv(),
            from < old(self).tview().len(),
            to < old(self).tview().len(),
        ensures
            final(self).inv(),
            final(self).tview() == add_edge(old(self).tview(), from, label_of(*cs), to),
    {
        let cs_copy = cs.clone();
        proof {
            assert(Set::new(|c: char| cs_copy.spec_matches(c)) =~= Set::new(
                |c: char| cs.spec_matches(c),
            ));
            assert(label_of(cs_copy) == label_of(*cs));
        }
        let row = &mut self.transitions[from];
        row.push((cs_copy, to));
        proof {
            let t0 = old(self).tview();
            let goal = add_edge(t0, from, label_of(*cs), to);
            assert(self.transitions@ == old(self).transitions@.update(
                from as int,
                *final(row),
            ));
            assert(crate::nfa::row_view(self.transitions@[from as int]@) =~= t0[from as int].push(
                (label_of(*cs), to),
            ));
            assert forall|a: int|
                0 <= a < self.tview().len() implies self.tview()[a] == goal[a] by {
                if a != from {
                    assert(self.transitions@[a] == old(self).transitions@[a]);
                }
            }
            assert(self.tview() =~= goal);
            assert forall|a: int, j: int|
                0 <= a < self.tview().len() && 0 <= j < self.tview()[a].len() implies (
            #[trigger] self.tview()[a][j]).1 < self.tview().len() by {
                if a == from && j == goal[a].len() - 1 {
                } else {
                    assert(self.tview()[a][j] == t0[a][j]);
                    assert(t0[a][j].1 < t0.len());
                }
            }
        }
    }

    /// Apply the per-node construction rule for `regex`, entering from
    /// `current_states`; the returned vector is the exit frontier.
    fn add_regex(&mut self, current_states: &Vec<usize>, regex: &Regex) -> (next_states: Vec<
        usize,
    >)
        requires
            old(self).inv(),
            states_in(current_states@, old(self).tview().len()),
        ensures
            final(self).inv(),
            old(self).tview().len() <= final(self).tview().len(),
            states_in(next_states@, final(self).tview().len()),
            final(self).tview() == compile(old(self).tview(), current_states@, *regex).0,
            next_states@ == compile(old(self).tview(), current_states@, *regex).1,
        decreases rsize(*regex),
    {
        match regex {
            Regex::Eps => {
                let r = copy_states(current_states);
                r
            },
            Regex::CharSet(cs) => {
                let ghost t0 = self.tview();
                let ghost lbl = label_of(*cs);
                let ghost cur = current_states@;
                let mut next_states: Vec<usize> = Vec::new();
                let mut i: usize = 0;
                proof {
                    assert(cur.skip(0) =~= cur);
                    assert(Seq::<usize>::empty() + fresh_targets(self.tview(), cur, lbl).1
                        =~= fresh_targets(self.tview(), cur, lbl).1);
                }
                while i < current_states.len()
                    invariant
                        self.inv(),
                        *regex == Regex::CharSet(*cs),
                        lbl == label_of(*cs),
                        cur == current_states@,
                        i <= cur.len(),
                        states_in(cur, t0.len()),
                        t0.len() <= self.tview().len(),
                        states_in(next_states@, self.tview().len()),
                        fresh_targets(t0, cur, lbl).0 == fresh_targets(
                            self.tview(),
                            cur.skip(i as int),
                            lbl,
                        ).0,
                        fresh_targets(t0, cur, lbl).1 == next_states@ + fresh_targets(
                            self.tview(),
                            cur.skip(i as int),
                            lbl,
                        ).1,
                    decreases cur.len() - i,
                {
                    let ghost t_now = self.tview();
                    let st = current_states[i];
                    let ns = self.new_state();
                    self.add_transition(st, cs, ns);
                    next_states.push(ns);
                    proof {
                        assert(cur.skip(i as int)[0] == cur[i as int]);
                        assert(cur.skip(i as int).drop_first() =~= cur.skip(i + 1));
                        assert(self.tview() == add_edge(
                            t_now.push(Seq::empty()),
                            cur[i as int],
                            lbl,
                            (t_now.len() as usize),
                        ));
                        assert(fresh_targets(t_now, cur.skip(i as int), lbl).0 == fresh_targets(
                            self.tview(),
                            cur.skip(i + 1),
                            lbl,
                        ).0);
                        assert(fresh_targets(t_now, cur.skip(i as int), lbl).1 == seq![ns]
                            + fresh_targets(self.tview(), cur.skip(i + 1), lbl).1);
                        assert(next_states@ + (seq![ns] + fresh_targets(
                            self.tview(),
                            cur.skip(i + 1),
                            lbl,
                        ).1) =~= next_states@.push(ns) + fresh_targets(
                            self.tview(),
                            cur.skip(i + 1),
                            lbl,
                        ).1);
                    }
                    i += 1;
                }
                proof {
                    assert(cur.skip(cur.len() as int) =~= Seq::<usize>::empty());
                    assert(next_states@ + Seq::<usize>::empty() =~= next_states@);
                }
                next_states
            },
            Regex::Concat(r1, r2) => {
                let mid_states = self.add_regex(current_states, r1);
                let r = self.add_regex(&mid_states, r2);
                r
            },
            Regex::Or(r1, r2) => {
                let mut exits_1 = self.add_regex(current_states, r1);
                let mut exits_2 = self.add_regex(current_states, r2);
                exits_1.append(&mut exits_2);
                exits_1
            },
            Regex::Star(r0) => {
                let exits = self.add_regex(current_states, r0);
                self.add_eps_edges(&exits, current_states);
                let r = copy_states(current_states);
                r
            },
            Regex::Plus(r0) => {
                let exits_1 = self.add_regex(current_states, r0);
                let exits_2 = self.add_regex(&exits_1, r0);
                self.add_eps_edges(&exits_2, &exits_1);
                exits_1
            },
            Regex::Ques(r0) => {
                let mut skip_states = copy_states(current_states);
                let mut taken_states = self.add_regex(current_states, r0);
                skip_states.append(&mut taken_states);
                skip_states
            },
        }
    }

    /// Add an epsilon transition from every state of `froms` to every state
    /// of `tos` (the loop-back edges of `Star` and `Plus`).
    fn add_eps_edges(&mut self, froms: &Vec<usize>, tos: &Vec<usize>)
        requires
            old(self).inv(),
            states_in(froms@, old(self).tview().len()),
            states_in(tos@, old(self).tview().len()),
        ensures
            final(self).inv(),
            final(self).tview() == add_eps_back(old(self).tview(), froms@, tos@),
            final(self).tview().len() == old(self).tview().len(),
    {
        let ghost t0 = self.tview();
        let mut i: usize = 0;
        proof {
            assert(froms@.skip(0) =~= froms@);
        }
        while i < froms.len()
            invariant
                self.inv(),
                i <= froms@.len(),
                states_in(froms@, t0.len()),
                states_in(tos@, t0.len()),
                self.tview().len() == t0.len(),
                add_eps_back(t0, froms@, tos@) == add_eps_back(
                    self.tview(),
                    froms@.skip(i as int),
                    tos@,
                ),
            decreases froms@.len() - i,
        {
            let ghost t_enter = self.tview();
            let mut k: usize = 0;
            proof {
                assert(tos@.skip(0) =~= tos@);
            }
            while k < tos.len()
                invariant
                    self.inv(),
                    i < froms@.len(),
                    k <= tos@.len(),
                    states_in(froms@, t0.len()),
                    states_in(tos@, t0.len()),
                    self.tview().len() == t0.len(),
                    add_eps_fan(t_enter, froms@[i as int], tos@) == add_eps_fan(
                        self.tview(),
                        froms@[i as int],
                        tos@.skip(k as int),
                    ),
                decreases tos@.len() - k,
            {
                let ghost t_now = self.tview();
                self.add_transition(froms[i], &CharSet::Epsilon, tos[k]);
                proof {
                    assert(tos@.skip(k as int)[0] == tos@[k as int]);
                    assert(tos@.skip(k as int).drop_first() =~= tos@.skip(k + 1));
                    assert(self.tview() == add_edge(
                        t_now,
                        froms@[i as int],
                        label_of(CharSet::Epsilon),
                        tos@[k as int],
                    ));
                    assert(add_eps_fan(t_now, froms@[i as int], tos@.skip(k as int))
                        == add_eps_fan(self.tview(), froms@[i as int], tos@.skip(k + 1)));
                }
                k += 1;
            }
            proof {
                assert(tos@.skip(tos@.len() as int) =~= Seq::<usize>::empty());
                assert(add_eps_fan(t_enter, froms@[i as int], tos@) == self.tview());
                assert(froms@.skip(i as int)[0] == froms@[i as int]);
                assert(froms@.skip(i as int).drop_first() =~= froms@.skip(i + 1));
                assert(add_eps_back(t_enter, froms@.skip(i as int), tos@) == add_eps_back(
                    self.tview(),
                    froms@.skip(i + 1),
                    tos@,
                ));
            }
            i += 1;
        }
        proof {
            assert(froms@.skip(froms@.len() as int) =~= Seq::<usize>::empty());
        }
    }
}

/// Copy a frontier vector.
fn copy_states(states: &Vec<usize>) -> (r: Vec<usize>)
    ensures
        r@ == states@,
{
    let mut r: Vec<usize> = Vec::new();
    let mut i: usize = 0;
    while i < states.len()
        invariant
            i <= states@.len(),
            r@ == states@.take(i as int),
        decreases states@.len() - i,
    {
        r.push(states[i]);
        proof {
            assert(states@.take(i as int).push(states@[i as int]) =~= states@.take(i + 1));
        }
        i += 1;
    }
    proof {
        assert(states@.take(states@.len() as int) =~= states@);
    }
    r
}

} // verus!

