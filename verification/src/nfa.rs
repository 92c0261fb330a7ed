use vstd::prelude::*;

use crate::charset::CharSet;

verus! {

/// The meaning of one transition label: whether it is the epsilon sentinel,
/// and the set of characters it matches.
pub struct EdgeLabel {
    pub eps: bool,
    pub chars: Set<char>,
}

/// The meaning of a `CharSet` when it labels a transition.
pub open spec fn label_of(cs: CharSet) -> EdgeLabel {
    EdgeLabel { eps: cs is Epsilon, chars: Set::new(|c: char| cs.spec_matches(c)) }
}

/// The mathematical transition table: for each state, its outgoing edges.
pub type TableView = Seq<Seq<(EdgeLabel, usize)>>;

/// One row of the table, as the meaning of the stored `(CharSet, target)` pairs.
pub open spec fn row_view(row: Seq<(CharSet, usize)>) -> Seq<(EdgeLabel, usize)> {
    row.map_values(|e: (CharSet, usize)| (label_of(e.0), e.1))
}

/// The whole stored table, as its meaning.
pub open spec fn table_view(rows: Seq<Vec<(CharSet, usize)>>) -> TableView {
    rows.map_values(|row: Vec<(CharSet, usize)>| row_view(row@))
}

/// Every transition target is a state of the table, and state 0 exists.
pub open spec fn table_wf(t: TableView) -> bool {
    &&& t.len() >= 1
    &&& forall|a: int, j: int|
        0 <= a < t.len() && 0 <= j < t[a].len() ==> (#[trigger] t[a][j]).1 < t.len()
}

/// All listed states lie below the state count `n`.
pub open spec fn states_in(states: Seq<usize>, n: nat) -> bool {
    forall|i: int| 0 <= i < states.len() ==> (#[trigger] states[i]) < n
}

/// The set of states marked live in the flag vector.
pub open spec fn live_view(flags: Seq<bool>) -> Set<nat> {
    Set::new(|i: nat| i < flags.len() && flags[i as int])
}

/// State `a` has an epsilon-labeled edge to state `b`.
pub open spec fn eps_edge(t: TableView, a: nat, b: nat) -> bool {
    a < t.len() && exists|j: int|
        0 <= j < t[a as int].len() && (#[trigger] t[a as int][j]).0.eps && t[a as int][j].1 == b
}

/// State `a` has a non-epsilon edge to state `b` whose label matches `c`.
pub open spec fn char_edge(t: TableView, a: nat, b: nat, c: char) -> bool {
    a < t.len() && exists|j: int|
        0 <= j < t[a as int].len() && !(#[trigger] t[a as int][j]).0.eps && t[a as int][j].0.chars.contains(c)
            && t[a as int][j].1 == b
}

/// All states reached from `s` by consuming `c` on one matching edge.
pub open spec fn char_step(t: TableView, s: Set<nat>, c: char) -> Set<nat> {
    Set::new(|b: nat| exists|a: nat| s.contains(a) && char_edge(t, a, b, c))
}

/// Every adjacent pair of the sequence is an epsilon edge.
pub open spec fn eps_path_ok(t: TableView, p: Seq<nat>) -> bool {
    forall|i: int| 0 <= i < p.len() - 1 ==> eps_edge(t, #[trigger] p[i], p[i + 1])
}

/// `b` is reachable from some state in `s` by zero or more epsilon edges.
pub open spec fn eps_reaches(t: TableView, s: Set<nat>, b: nat) -> bool {
    exists|p: Seq<nat>| p.len() > 0 && s.contains(p[0]) && p.last() == b && eps_path_ok(t, p)
}

/// The epsilon closure of `s`: everything epsilon-reachable from `s`.
pub open spec fn eps_closure(t: TableView, s: Set<nat>) -> Set<nat> {
    Set::new(|b: nat| eps_reaches(t, s, b))
}

/// What one `feed(c)` does to a live set.
pub open spec fn feed_step(t: TableView, s: Set<nat>, c: char) -> Set<nat> {
    eps_closure(t, char_step(t, s, c))
}

/// What feeding a whole character sequence does to a live set.
pub open spec fn feed_all(t: TableView, s: Set<nat>, cs: Seq<char>) -> Set<nat>
    decreases cs.len(),
{
    if cs.len() == 0 {
        s
    } else {
        feed_all(t, feed_step(t, s, cs[0]), cs.drop_first())
    }
}

/// The live set right after a reset, before the closure is taken.
pub open spec fn start_set() -> Set<nat> {
    set![0nat]
}

/// The live set intersects the accepting list.
pub open spec fn accepts(live: Set<nat>, acc: Seq<usize>) -> bool {
    exists|i: int| 0 <= i < acc.len() && live.contains(#[trigger] acc[i] as nat)
}

/// `s` itself lies inside its epsilon closure.
pub proof fn lemma_closure_base(t: TableView, s: Set<nat>, b: nat)
    requires
        s.contains(b),
    ensures
        eps_closure(t, s).contains(b),
{
    let p = seq![b];
    assert(p.len() > 0 && s.contains(p[0]) && p.last() == b && eps_path_ok(t, p));
    assert(eps_reaches(t, s, b));
}

/// The closure absorbs one more epsilon edge.
pub proof fn lemma_closure_step(t: TableView, s: Set<nat>, a: nat, b: nat)
    requires
        eps_closure(t, s).contains(a),
        eps_edge(t, a, b),
    ensures
        eps_closure(t, s).contains(b),
{
    let p = choose|p: Seq<nat>| p.len() > 0 && s.contains(p[0]) && p.last() == a && eps_path_ok(t, p);
    let q = p.push(b);
    assert(q.last() == b);
    assert forall|i: int| 0 <= i < q.len() - 1 implies eps_edge(t, #[trigger] q[i], q[i + 1]) by {
        if i < p.len() - 1 {
            assert(q[i] == p[i] && q[i + 1] == p[i + 1]);
        } else {
            assert(q[i] == p.last() && q[i + 1] == b);
        }
    }
    assert(q.len() > 0 && s.contains(q[0]) && q.last() == b && eps_path_ok(t, q));
    assert(eps_reaches(t, s, b));
}

/// A set closed under epsilon edges contains the end of every epsilon path
/// that starts inside it.
proof fn lemma_path_stays_inside(t: TableView, r: Set<nat>, p: Seq<nat>)
    requires
        p.len() > 0,
        r.contains(p[0]),
        eps_path_ok(t, p),
        forall|x: nat, y: nat| r.contains(x) && eps_edge(t, x, y) ==> r.contains(y),
    ensures
        r.contains(p.last()),
    decreases p.len(),
{
    if p.len() == 1 {
    } else {
        assert(eps_edge(t, p[0], p[1]));
        let q = p.drop_first();
        assert(q[0] == p[1]);
        assert forall|i: int| 0 <= i < q.len() - 1 implies eps_edge(t, #[trigger] q[i], q[i + 1]) by {
            assert(q[i] == p[i + 1] && q[i + 1] == p[i + 2]);
            assert(eps_edge(t, p[i + 1], p[i + 2]));
        }
        lemma_path_stays_inside(t, r, q);
        assert(q.last() == p.last());
    }
}

/// The epsilon closure is the least set that contains `s` and is closed
/// under epsilon edges.
pub proof fn lemma_closure_least(t: TableView, s: Set<nat>, r: Set<nat>)
    requires
        s.subset_of(r),
        forall|x: nat, y: nat| r.contains(x) && eps_edge(t, x, y) ==> r.contains(y),
    ensures
        eps_closure(t, s).subset_of(r),
{
    assert forall|b: nat| eps_closure(t, s).contains(b) implies r.contains(b) by {
        let p = choose|p: Seq<nat>|
            p.len() > 0 && s.contains(p[0]) && p.last() == b && eps_path_ok(t, p);
        lemma_path_stays_inside(t, r, p);
    }
}

/// The epsilon closure of the empty set is empty.
pub proof fn lemma_closure_empty(t: TableView)
    ensures
        eps_closure(t, Set::<nat>::empty()) == Set::<nat>::empty(),
{
    assert(eps_closure(t, Set::<nat>::empty()) =~= Set::<nat>::empty());
}

/// Count of `true` entries in a flag vector.
pub open spec fn count_true(flags: Seq<bool>) -> nat
    decreases flags.len(),
{
    if flags.len() == 0 {
        0
    } else {
        count_true(flags.drop_last()) + if flags.last() {
            1nat
        } else {
            0nat
        }
    }
}

proof fn lemma_count_true_bound(flags: Seq<bool>)
    ensures
        count_true(flags) <= flags.len(),
    decreases flags.len(),
{
    if flags.len() > 0 {
        lemma_count_true_bound(flags.drop_last());
    }
}

/// Pointwise implication of flags gives at most as many `true` entries;
/// a strict difference at `w` gives strictly fewer.
proof fn lemma_count_true_monotone(lo: Seq<bool>, hi: Seq<bool>, w: int)
    requires
        lo.len() == hi.len(),
        forall|i: int| 0 <= i < lo.len() && lo[i] ==> hi[i],
        0 <= w < lo.len() ==> (!lo[w] && hi[w]),
    ensures
        count_true(lo) <= count_true(hi),
        0 <= w < lo.len() ==> count_true(lo) < count_true(hi),
    decreases lo.len(),
{
    if lo.len() == 0 {
    } else {
        let n = lo.len() - 1;
        let lo1 = lo.drop_last();
        let hi1 = hi.drop_last();
        assert(forall|i: int| 0 <= i < lo1.len() && lo1[i] ==> hi1[i]);
        if w == n {
            lemma_count_true_monotone(lo1, hi1, -1);
        } else {
            lemma_count_true_monotone(lo1, hi1, w);
        }
    }
}

/// A nondeterministic finite automaton with a live, resettable simulation.
///
/// The transition table and accepting list are frozen at construction;
/// only the set of currently active states changes while input is consumed.
pub struct NFA {
    cur_states: Vec<bool>,
    transitions: Vec<Vec<(CharSet, usize)>>,
    accepting: Vec<usize>,
}

impl NFA {
    /// The meaning of the frozen transition table.
    pub closed spec fn table(self) -> TableView {
        table_view(self.transitions@)
    }

    /// The accepting-state list.
    pub closed spec fn acc(self) -> Seq<usize> {
        self.accepting@
    }

    /// The set of currently active states.
    pub closed spec fn live(self) -> Set<nat> {
        live_view(self.cur_states@)
    }

    /// Internal consistency: targets and accepting states are states of the
    /// table, and the live-flag vector covers every state.
    pub closed spec fn wf(self) -> bool {
        &&& table_wf(self.table())
        &&& states_in(self.accepting@, self.table().len())
        &&& self.cur_states@.len() == self.table().len()
    }
}

/// How `reset` relates the automaton before the call to the one after it.
pub open spec fn reset_rel(pre: NFA, post: NFA) -> bool {
    &&& post.table() == pre.table()
    &&& post.acc() == pre.acc()
    &&& post.live() == eps_closure(pre.table(), start_set())
}

/// How `feed(c)` relates the automaton before the call to the one after it.
pub open spec fn feed_rel(pre: NFA, post: NFA, c: char) -> bool {
    &&& post.table() == pre.table()
    &&& post.acc() == pre.acc()
    &&& post.live() == feed_step(pre.table(), pre.live(), c)
}

impl NFA {
    /// Freeze a transition table and accepting list into an automaton whose
    /// live set starts as the epsilon closure of `{0}`.
    pub fn new(transitions: Vec<Vec<(CharSet, usize)>>, accepting: Vec<usize>) -> (nfa: NFA)
        requires
            table_wf(table_view(transitions@)),
            states_in(accepting@, table_view(transitions@).len()),
        ensures
            nfa.wf(),
            nfa.table() == table_view(transitions@),
            nfa.acc() == accepting@,
            nfa.live() == eps_closure(nfa.table(), start_set()),
    {
        let n = transitions.len();
        let mut flags: Vec<bool> = Vec::new();
        while flags.len() < n
            invariant
                flags@.len() <= n,
            decreases n - flags@.len(),
        {
            flags.push(false);
        }
        let mut nfa = NFA { cur_states: flags, transitions, accepting };
        nfa.reset();
        nfa
    }

    /// Set the live set back to the epsilon closure of `{0}`.
    pub fn reset(&mut self)
        requires
            old(self).wf(),
        ensures
            final(self).wf(),
            reset_rel(*old(self), *final(self)),
    {
        let n = self.transitions.len();
        let mut flags: Vec<bool> = Vec::new();
        flags.push(true);
        while flags.len() < n
            invariant
                1 <= flags@.len() <= n,
                flags@[0],
                forall|i: int| 1 <= i < flags@.len() ==> !flags@[i],
            decreases n - flags@.len(),
        {
            flags.push(false);
        }
        self.cur_states = flags;
        proof {
            assert(self.live() =~= start_set());
        }
        self.take_epsilons();
    }

    /// Consume one character: follow every matching non-epsilon edge from the
    /// live set, then close the result under epsilon edges.
    pub fn feed(&mut self, c: char)
        requires
            old(self).wf(),
        ensures
            final(self).wf(),
            feed_rel(*old(self), *final(self), c),
    {
        self.step(c);
    }

    /// Whether some live state is accepting.
    pub fn check_accepting(&self) -> (r: bool)
        requires
            self.wf(),
        ensures
            r == accepts(self.live(), self.acc()),
    {
        let mut i: usize = 0;
        while i < self.accepting.len()
            invariant
                self.wf(),
                i <= self.accepting@.len(),
                forall|k: int|
                    0 <= k < i ==> !self.live().contains(#[trigger] self.accepting@[k] as nat),
            decreases self.accepting@.len() - i,
        {
            let s = self.accepting[i];
            if self.cur_states[s] {
                return true;
            }
            i += 1;
        }
        false
    }

    /// Feed the characters in order, then report acceptance. No implicit
    /// reset: callers reset before reuse.
    pub fn run(&mut self, chars: &Vec<char>) -> (r: bool)
        requires
            old(self).wf(),
        ensures
            final(self).wf(),
            final(self).table() == old(self).table(),
            final(self).acc() == old(self).acc(),
            final(self).live() == feed_all(old(self).table(), old(self).live(), chars@),
            r == accepts(final(self).live(), final(self).acc()),
    {
        let ghost t = self.table();
        let ghost orig = self.live();
        let mut i: usize = 0;
        while i < chars.len()
            invariant
                self.wf(),
                self.table() == t,
                self.acc() == old(self).acc(),
                i <= chars@.len(),
                self.live() == feed_all(t, orig, chars@.take(i as int)),
            decreases chars@.len() - i,
        {
            let ghost before = chars@.take(i as int);
            self.step(chars[i]);
            proof {
                lemma_feed_all_snoc(t, orig, before, chars@[i as int]);
                assert(chars@.take(i + 1 as int) =~= before.push(chars@[i as int]));
            }
            i += 1;
        }
        proof {
            assert(chars@.take(chars@.len() as int) =~= chars@);
        }
        self.check_accepting()
    }

    /// One consuming step: matching non-epsilon targets, then epsilon closure.
    fn step(&mut self, c: char)
        requires
            old(self).wf(),
        ensures
            final(self).wf(),
            feed_rel(*old(self), *final(self), c),
    {
        let ghost t = self.table();
        let ghost orig = self.live();
        let n = self.transitions.len();
        let mut flags: Vec<bool> = Vec::new();
        while flags.len() < n
            invariant
                flags@.len() <= n,
                forall|i: int| 0 <= i < flags@.len() ==> !flags@[i],
            decreases n - flags@.len(),
        {
            flags.push(false);
        }
        let mut a: usize = 0;
        while a < n
            invariant
                *self == *old(self),
                self.wf(),
                self.table() == t,
                self.live() == orig,
                n == self.transitions@.len(),
                n == t.len(),
                a <= n,
                flags@.len() == n,
                forall|b: nat| live_view(flags@).contains(b) ==> char_step(t, orig, c).contains(b),
                forall|a2: nat, b: nat|
                    a2 < a && orig.contains(a2) && char_edge(t, a2, b, c) ==> live_view(
                        flags@,
                    ).contains(b),
            decreases n - a,
        {
            if self.cur_states[a] {
                let row_len = self.transitions[a].len();
                let mut j: usize = 0;
                while j < row_len
                    invariant
                        *self == *old(self),
                        self.wf(),
                        self.table() == t,
                        self.live() == orig,
                        n == self.transitions@.len(),
                        n == t.len(),
                        a < n,
                        row_len == t[a as int].len(),
                        j <= row_len,
                        flags@.len() == n,
                        orig.contains(a as nat),
                        forall|b: nat|
                            live_view(flags@).contains(b) ==> char_step(t, orig, c).contains(b),
                        forall|a2: nat, b: nat|
                            a2 < a && orig.contains(a2) && char_edge(t, a2, b, c) ==> live_view(
                                flags@,
                            ).contains(b),
                        forall|jj: int|
                            0 <= jj < j && !(#[trigger] t[a as int][jj]).0.eps && t[a as int][jj].0.chars.contains(
                                c,
                            ) ==> live_view(flags@).contains(t[a as int][jj].1 as nat),
                    decreases row_len - j,
                {
                    let is_eps = matches!(&self.transitions[a][j].0, CharSet::Epsilon);
                    let hit = if is_eps {
                        false
                    } else {
                        self.transitions[a][j].0.test(c)
                    };
                    if hit {
                        let to = self.transitions[a][j].1;
                        proof {
                            assert(t[a as int][j as int] == (
                                label_of(self.transitions@[a as int]@[j as int].0),
                                self.transitions@[a as int]@[j as int].1,
                            ));
                            assert(t[a as int][j as int].1 < t.len());
                            assert(char_edge(t, a as nat, to as nat, c));
                        }
                        let ghost flags_before = flags@;
                        flags.set(to, true);
                        proof {
                            assert forall|b: nat| live_view(flags@).contains(b) implies char_step(
                                t,
                                orig,
                                c,
                            ).contains(b) by {
                                if b != to as nat {
                                    assert(live_view(flags_before).contains(b));
                                }
                            }
                        }
                    }
                    j += 1;
                }
            }
            a += 1;
        }
        self.cur_states = flags;
        proof {
            assert forall|b: nat| char_step(t, orig, c).contains(b) implies self.live().contains(
                b,
            ) by {
                let a2 = choose|a2: nat| orig.contains(a2) && char_edge(t, a2, b, c);
                assert(a2 < n);
            }
            assert(self.live() =~= char_step(t, orig, c));
        }
        self.take_epsilons();
    }

    /// Grow the live set to its epsilon closure by a monotonic fixed-point
    /// pass over all epsilon edges.
    fn take_epsilons(&mut self)
        requires
            old(self).wf(),
        ensures
            final(self).wf(),
            final(self).table() == old(self).table(),
            final(self).acc() == old(self).acc(),
            final(self).live() == eps_closure(old(self).table(), old(self).live()),
    {
        let ghost t = self.table();
        let ghost orig = self.live();
        let n = self.transitions.len();
        proof {
            assert forall|b: nat| orig.contains(b) implies eps_closure(t, orig).contains(b) by {
                lemma_closure_base(t, orig, b);
            }
        }
        loop
            invariant
                self.wf(),
                self.table() == t,
                self.transitions@ == old(self).transitions@,
                self.accepting@ == old(self).accepting@,
                self.cur_states@.len() == n,
                n == t.len(),
                forall|b: nat| orig.contains(b) ==> self.live().contains(b),
                forall|b: nat| self.live().contains(b) ==> eps_closure(t, orig).contains(b),
            ensures
                self.wf(),
                self.table() == t,
                self.transitions@ == old(self).transitions@,
                self.accepting@ == old(self).accepting@,
                forall|b: nat| orig.contains(b) ==> self.live().contains(b),
                forall|b: nat| self.live().contains(b) ==> eps_closure(t, orig).contains(b),
                forall|x: nat, y: nat|
                    self.live().contains(x) && eps_edge(t, x, y) ==> self.live().contains(y),
            decreases n - count_true(self.cur_states@),
        {
            let mut changed = false;
            let ghost snap = self.cur_states@;
            let mut a: usize = 0;
            while a < n
                invariant
                    self.wf(),
                    self.table() == t,
                    self.transitions@ == old(self).transitions@,
                    self.accepting@ == old(self).accepting@,
                    self.cur_states@.len() == n,
                    n == t.len(),
                    a <= n,
                    snap.len() == n,
                    changed ==> exists|i: int| 0 <= i < n && !snap[i] && self.cur_states@[i],
                    !changed ==> self.cur_states@ == snap,
                    forall|i: int| 0 <= i < n && snap[i] ==> self.cur_states@[i],
                    forall|b: nat| orig.contains(b) ==> self.live().contains(b),
                    forall|b: nat| self.live().contains(b) ==> eps_closure(t, orig).contains(b),
                    !changed ==> forall|a2: nat, b: nat|
                        a2 < a && self.live().contains(a2) && eps_edge(t, a2, b)
                            ==> self.live().contains(b),
                decreases n - a,
            {
                if self.cur_states[a] {
                    let row_len = self.transitions[a].len();
                    let mut j: usize = 0;
                    while j < row_len
                        invariant
                            self.wf(),
                            self.table() == t,
                            self.transitions@ == old(self).transitions@,
                            self.accepting@ == old(self).accepting@,
                            self.cur_states@.len() == n,
                            n == t.len(),
                            a < n,
                            row_len == t[a as int].len(),
                            j <= row_len,
                            snap.len() == n,
                            self.cur_states@[a as int],
                            changed ==> exists|i: int|
                                0 <= i < n && !snap[i] && self.cur_states@[i],
                            !changed ==> self.cur_states@ == snap,
                            forall|i: int| 0 <= i < n && snap[i] ==> self.cur_states@[i],
                            forall|b: nat| orig.contains(b) ==> self.live().contains(b),
                            forall|b: nat|
                                self.live().contains(b) ==> eps_closure(t, orig).contains(b),
                            !changed ==> forall|a2: nat, b: nat|
                                a2 < a && self.live().contains(a2) && eps_edge(t, a2, b)
                                    ==> self.live().contains(b),
                            !changed ==> forall|jj: int|
                                0 <= jj < j && (#[trigger] t[a as int][jj]).0.eps
                                    ==> self.live().contains(t[a as int][jj].1 as nat),
                        decreases row_len - j,
                    {
                        let is_eps = matches!(&self.transitions[a][j].0, CharSet::Epsilon);
                        if is_eps {
                            let to = self.transitions[a][j].1;
                            proof {
                                assert(t[a as int][j as int] == (
                                    label_of(self.transitions@[a as int]@[j as int].0),
                                    self.transitions@[a as int]@[j as int].1,
                                ));
                                assert(t[a as int][j as int].1 < t.len());
                                assert(eps_edge(t, a as nat, to as nat));
                            }
                            if !self.cur_states[to] {
                                let ghost live_before = self.live();
                                self.cur_states.set(to, true);
                                changed = true;
                                proof {
                                    lemma_closure_step(t, orig, a as nat, to as nat);
                                    assert forall|b: nat| self.live().contains(b) implies
                                        eps_closure(t, orig).contains(b) by {
                                        if b != to as nat {
                                            assert(live_before.contains(b));
                                        }
                                    }
                                }
                            }
                        }
                        j += 1;
                    }
                }
                a += 1;
            }
            if !changed {
                proof {
                    assert forall|x: nat, y: nat|
                        self.live().contains(x) && eps_edge(t, x, y) implies self.live().contains(
                        y,
                    ) by {
                        assert(x < n);
                    }
                }
                break;
            }
            proof {
                let w = choose|i: int| 0 <= i < n && !snap[i] && self.cur_states@[i];
                lemma_count_true_monotone(snap, self.cur_states@, w);
                lemma_count_true_bound(self.cur_states@);
            }
        }
        proof {
            lemma_closure_least(t, orig, self.live());
            assert(self.live() =~= eps_closure(t, orig));
        }
    }
}

/// Feeding one more character is one `feed_step` on the live set that the
/// earlier characters produced.
proof fn lemma_feed_all_snoc(t: TableView, s: Set<nat>, cs: Seq<char>, c: char)
    ensures
        feed_all(t, s, cs.push(c)) == feed_step(t, feed_all(t, s, cs), c),
    decreases cs.len(),
{
    if cs.len() == 0 {
        assert(cs.push(c)[0] == c);
        assert(cs.push(c).drop_first() =~= Seq::<char>::empty());
        assert(feed_all(t, s, cs.push(c)) == feed_all(
            t,
            feed_step(t, s, c),
            cs.push(c).drop_first(),
        ));
        assert(feed_all(t, feed_step(t, s, c), cs.push(c).drop_first()) == feed_step(t, s, c));
    } else {
        assert(cs.push(c)[0] == cs[0]);
        assert(cs.push(c).drop_first() =~= cs.drop_first().push(c));
        assert(feed_all(t, s, cs.push(c)) == feed_all(
            t,
            feed_step(t, s, cs[0]),
            cs.drop_first().push(c),
        ));
        lemma_feed_all_snoc(t, feed_step(t, s, cs[0]), cs.drop_first(), c);
        assert(feed_all(t, s, cs) == feed_all(t, feed_step(t, s, cs[0]), cs.drop_first()));
    }
}

/// Law: resetting twice in a row leaves the automaton exactly as one
/// reset does.
pub proof fn lemma_reset_idempotent(start: NFA, once: NFA, twice: NFA)
    requires
        reset_rel(start, once),
        reset_rel(once, twice),
    ensures
        twice.table() == once.table(),
        twice.acc() == once.acc(),
        twice.live() == once.live(),
{
}

/// Law: consuming input in two parts equals consuming their concatenation,
/// so driving `feed` character by character agrees with one bulk `run`.
pub proof fn lemma_feed_all_append(t: TableView, s: Set<nat>, cs1: Seq<char>, cs2: Seq<char>)
    ensures
        feed_all(t, s, cs1 + cs2) == feed_all(t, feed_all(t, s, cs1), cs2),
    decreases cs1.len(),
{
    if cs1.len() == 0 {
        assert(cs1 + cs2 =~= cs2);
    } else {
        assert((cs1 + cs2)[0] == cs1[0]);
        assert((cs1 + cs2).drop_first() =~= cs1.drop_first() + cs2);
        lemma_feed_all_append(t, feed_step(t, s, cs1[0]), cs1.drop_first(), cs2);
    }
}

/// Law: an empty live set stays empty under any further input sequence, so
/// no acceptance is possible until a reset.
pub proof fn lemma_feed_all_after_dead(t: TableView, cs: Seq<char>, acc: Seq<usize>)
    ensures
        feed_all(t, Set::<nat>::empty(), cs) == Set::<nat>::empty(),
        !accepts(feed_all(t, Set::<nat>::empty(), cs), acc),
    decreases cs.len(),
{
    if cs.len() > 0 {
        assert(char_step(t, Set::<nat>::empty(), cs[0]) =~= Set::<nat>::empty());
        lemma_closure_empty(t);
        lemma_feed_all_after_dead(t, cs.drop_first(), acc);
    }
}

/// Law: once the live set is empty, every further feed leaves it empty and
/// acceptance stays false until a reset.
pub proof fn lemma_feed_after_dead(pre: NFA, post: NFA, c: char)
    requires
        feed_rel(pre, post, c),
        pre.live() == Set::<nat>::empty(),
    ensures
        post.live() == Set::<nat>::empty(),
        !accepts(post.live(), post.acc()),
{
    assert(char_step(pre.table(), pre.live(), c) =~= Set::<nat>::empty());
    lemma_closure_empty(pre.table());
}

} // verus!
