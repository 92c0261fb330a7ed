use vstd::prelude::*;

verus! {

/// A predicate over single characters: the leaf alphabet of the regex AST.
///
/// `Epsilon` is a sentinel used only to label automaton transitions that
/// consume no input; the runtime recognizes it by variant, never through
/// `test`.
pub enum CharSet {
    SingleChar(char),
    Range { lo: char, hi: char },
    AnyChar,
    Diff { base: Box<CharSet>, exclude: Box<CharSet> },
    Union(Vec<CharSet>),
    Epsilon,
}

impl CharSet {
    /// What `test` returns: whether the character `c` belongs to this set.
    pub open spec fn spec_matches(self, c: char) -> bool
        decreases self,
    {
        match self {
            CharSet::SingleChar(c1) => c1 == c,
            CharSet::Range { lo, hi } => lo as u32 <= c as u32 && c as u32 <= hi as u32,
            CharSet::AnyChar => true,
            CharSet::Diff { base, exclude } => (*base).spec_matches(c) && !(
            *exclude).spec_matches(c),
            CharSet::Union(members) => exists|i: int|
                0 <= i < members@.len() && (#[trigger] members@[i]).spec_matches(c),
            CharSet::Epsilon => true,
        }
    }

    /// Decide membership of `c` in this set.
    pub fn test(&self, c: char) -> (r: bool)
        ensures
            r == self.spec_matches(c),
        decreases *self,
    {
        match self {
            CharSet::SingleChar(c1) => *c1 == c,
            CharSet::Range { lo, hi } => (c as u32) >= (*lo as u32) && (c as u32) <= (*hi
                as u32),
            CharSet::AnyChar => true,
            CharSet::Diff { base, exclude } => base.test(c) && !exclude.test(c),
            CharSet::Union(members) => {
                let mut i: usize = 0;
                while i < members.len()
                    invariant
                        *self == CharSet::Union(*members),
                        i <= members@.len(),
                        forall|k: int| 0 <= k < i ==> !(#[trigger] members@[k]).spec_matches(c),
                    decreases members@.len() - i,
                {
                    proof {
                        assert(decreases_to!((*self) => (*self)->Union_0));
                        assert(decreases_to!((*self)->Union_0 => (*self)->Union_0@));
                        assert(decreases_to!((*self)->Union_0@ => (*self)->Union_0@[i as int]));
                    }
                    if members[i].test(c) {
                        return true;
                    }
                    i += 1;
                }
                false
            },
            CharSet::Epsilon => true,
        }
    }
}

impl Clone for CharSet {
    /// The copy accepts exactly the same characters and is `Epsilon`
    /// exactly when the original is.
    fn clone(&self) -> (r: Self)
        ensures
            (r is Epsilon) == (*self is Epsilon),
            forall|c: char| r.spec_matches(c) == self.spec_matches(c),
        decreases *self,
    {
        match self {
            CharSet::SingleChar(c1) => {
                let r = CharSet::SingleChar(*c1);
                proof {
                    assert(r == *self);
                }
                r
            },
            CharSet::Range { lo, hi } => {
                let r = CharSet::Range { lo: *lo, hi: *hi };
                proof {
                    assert(r == *self);
                }
                r
            },
            CharSet::AnyChar => CharSet::AnyChar,
            CharSet::Diff { base, exclude } => {
                let base_copy = (**base).clone();
                let exclude_copy = (**exclude).clone();
                let r = CharSet::Diff { base: Box::new(base_copy), exclude: Box::new(exclude_copy) };
                proof {
                    assert forall|c: char| r.spec_matches(c) == self.spec_matches(c) by {
                        assert(r.spec_matches(c) == (base_copy.spec_matches(c)
                            && !exclude_copy.spec_matches(c)));
                    }
                }
                r
            },
            CharSet::Union(members) => {
                let mut copies: Vec<CharSet> = Vec::new();
                let mut i: usize = 0;
                while i < members.len()
                    invariant
                        *self == CharSet::Union(*members),
                        i <= members@.len(),
                        copies@.len() == i,
                        forall|k: int, c: char|
                            0 <= k < i ==> #[trigger] copies@[k].spec_matches(c)
                                == members@[k].spec_matches(c),
                    decreases members@.len() - i,
                {
                    proof {
                        assert(decreases_to!((*self) => (*self)->Union_0));
                        assert(decreases_to!((*self)->Union_0 => (*self)->Union_0@));
                        assert(decreases_to!((*self)->Union_0@ => (*self)->Union_0@[i as int]));
                    }
                    let member_copy = members[i].clone();
                    copies.push(member_copy);
                    i += 1;
                }
                let r = CharSet::Union(copies);
                proof {
                    assert forall|c: char| r.spec_matches(c) == self.spec_matches(c) by {
                        if r.spec_matches(c) {
                            let k = choose|k: int|
                                0 <= k < copies@.len() && (#[trigger] copies@[k]).spec_matches(c);
                            assert(members@[k].spec_matches(c));
                        }
                        if self.spec_matches(c) {
                            let k = choose|k: int|
                                0 <= k < members@.len() && (#[trigger] members@[k]).spec_matches(c);
                            assert(copies@[k].spec_matches(c));
                        }
                    }
                }
                r
            },
            CharSet::Epsilon => CharSet::Epsilon,
        }
    }
}

/// Law: a two-member union matches a character exactly when either member
/// matches it.
pub proof fn lemma_union_pair_matches(u: CharSet, a: CharSet, b: CharSet, c: char)
    requires
        u matches CharSet::Union(members) && members@ == seq![a, b],
    ensures
        u.spec_matches(c) == (a.spec_matches(c) || b.spec_matches(c)),
{
    let members = u->Union_0;
    assert(members@[0] == a && members@[1] == b);
    if a.spec_matches(c) {
        assert(members@[0].spec_matches(c));
    }
    if b.spec_matches(c) {
        assert(members@[1].spec_matches(c));
    }
}

/// Law: a difference matches a character exactly when the included set
/// matches it and the excluded set does not.
pub proof fn lemma_diff_matches(d: CharSet, a: CharSet, b: CharSet, c: char)
    requires
        d matches CharSet::Diff { base, exclude } && *base == a && *exclude == b,
    ensures
        d.spec_matches(c) == (a.spec_matches(c) && !b.spec_matches(c)),
{
}

} // verus!
