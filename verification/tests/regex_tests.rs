use nfa_regex::{CharSet, NFABuilder, Regex, NFA};

fn chars(s: &str) -> Vec<char> {
    s.chars().collect()
}

#[test]
fn regex_seq() {
    let cs1 = CharSet::SingleChar('a');
    let cs2 = CharSet::SingleChar('b');
    let cs3 = CharSet::SingleChar('c');
    let r1 = Regex::Concat(
        Box::new(Regex::CharSet(cs1)),
        Box::new(Regex::Concat(
            Box::new(Regex::CharSet(cs2)),
            Box::new(Regex::CharSet(cs3)),
        )),
    );

    let mut nfa = NFABuilder::build(&r1);
    assert!(nfa.run(&chars("abc")));

    nfa.reset();
    assert!(!nfa.run(&chars("")));

    nfa.reset();
    assert!(!nfa.run(&chars("a")));

    nfa.reset();
    assert!(!nfa.run(&chars("ab")));

    nfa.reset();
    assert!(!nfa.run(&chars("abcd")));
}

#[test]
fn regex_or() {
    let cs1 = CharSet::SingleChar('a');
    let cs2 = CharSet::SingleChar('b');
    let cs3 = CharSet::SingleChar('c');
    let r1 = Regex::Or(
        Box::new(Regex::CharSet(cs1)),
        Box::new(Regex::Or(
            Box::new(Regex::CharSet(cs2)),
            Box::new(Regex::CharSet(cs3)),
        )),
    );

    let mut nfa = NFABuilder::build(&r1);
    assert!(nfa.run(&chars("a")));

    nfa.reset();
    assert!(nfa.run(&chars("b")));

    nfa.reset();
    assert!(nfa.run(&chars("c")));

    nfa.reset();
    assert!(!nfa.run(&chars("ac")));
}

#[test]
fn regex_eps() {
    let r1 = Regex::Eps;

    let mut nfa = NFABuilder::build(&r1);
    assert!(nfa.run(&chars("")));
}

#[test]
fn regex_star() {
    let cs1 = CharSet::SingleChar('a');
    let r1 = Regex::Star(Box::new(Regex::CharSet(cs1)));

    let mut nfa = NFABuilder::build(&r1);
    assert!(nfa.run(&chars("")));

    nfa.reset();
    assert!(nfa.run(&chars("a")));

    nfa.reset();
    assert!(nfa.run(&chars("aa")));

    nfa.reset();
    assert!(nfa.run(&chars("aaa")));
}

#[test]
fn regex_plus() {
    let cs1 = CharSet::SingleChar('a');
    let r1 = Regex::Plus(Box::new(Regex::CharSet(cs1)));

    let mut nfa = NFABuilder::build(&r1);
    assert!(!nfa.run(&chars("")));

    nfa.reset();
    assert!(nfa.run(&chars("a")));

    nfa.reset();
    assert!(nfa.run(&chars("aa")));

    nfa.reset();
    assert!(nfa.run(&chars("aaa")));
}

#[test]
fn regex_ques() {
    let cs1 = CharSet::SingleChar('a');
    let r1 = Regex::Ques(Box::new(Regex::CharSet(cs1)));

    let mut nfa = NFABuilder::build(&r1);
    assert!(nfa.run(&chars("")));

    nfa.reset();
    assert!(nfa.run(&chars("a")));

    nfa.reset();
    assert!(!nfa.run(&chars("aa")));
}

#[test]
fn regex_complex() {
    let cs1 = CharSet::SingleChar('a');
    let cs2 = CharSet::SingleChar('b');
    let r1 = Regex::Or(
        Box::new(Regex::Ques(Box::new(Regex::CharSet(cs1)))),
        Box::new(Regex::Ques(Box::new(Regex::CharSet(cs2)))),
    );

    let mut nfa = NFABuilder::build(&r1);
    assert!(nfa.run(&chars("")));

    nfa.reset();
    assert!(nfa.run(&chars("a")));

    nfa.reset();
    assert!(nfa.run(&chars("b")));

    nfa.reset();
    assert!(!nfa.run(&chars("c")));

    nfa.reset();
    assert!(!nfa.run(&chars("ab")));
}

#[test]
fn charset_union_matches_either_member() {
    let u = CharSet::Union(vec![
        CharSet::SingleChar('a'),
        CharSet::Range { lo: '0', hi: '9' },
    ]);
    assert!(u.test('a'));
    assert!(u.test('5'));
    assert!(!u.test('z'));
    let empty_union = CharSet::Union(vec![]);
    assert!(!empty_union.test('a'));
}

#[test]
fn charset_diff_matches_base_without_excluded() {
    let d = CharSet::Diff {
        base: Box::new(CharSet::Range { lo: 'a', hi: 'z' }),
        exclude: Box::new(CharSet::SingleChar('q')),
    };
    assert!(d.test('a'));
    assert!(d.test('z'));
    assert!(!d.test('q'));
    assert!(!d.test('A'));
}

#[test]
fn charset_leaves() {
    assert!(CharSet::SingleChar('x').test('x'));
    assert!(!CharSet::SingleChar('x').test('y'));
    assert!(CharSet::Range { lo: 'b', hi: 'd' }.test('c'));
    assert!(!CharSet::Range { lo: 'b', hi: 'd' }.test('a'));
    assert!(!CharSet::Range { lo: 'b', hi: 'd' }.test('e'));
    assert!(CharSet::AnyChar.test('\u{1F600}'));
}

#[test]
fn reset_then_empty_run_accepts_eps() {
    let mut nfa = NFABuilder::build(&Regex::Eps);
    nfa.reset();
    assert!(nfa.run(&chars("")));
}

#[test]
fn reset_twice_behaves_like_once() {
    let r = Regex::Star(Box::new(Regex::CharSet(CharSet::SingleChar('a'))));
    let mut nfa = NFABuilder::build(&r);

    nfa.reset();
    let after_once = nfa.run(&chars("aa"));

    nfa.reset();
    nfa.reset();
    let after_twice = nfa.run(&chars("aa"));

    assert!(after_once);
    assert_eq!(after_once, after_twice);
}

#[test]
fn feeds_after_dead_state_stay_rejecting() {
    let r = Regex::Plus(Box::new(Regex::CharSet(CharSet::SingleChar('a'))));
    let mut nfa = NFABuilder::build(&r);

    nfa.feed('b');
    assert!(!nfa.check_accepting());
    nfa.feed('a');
    assert!(!nfa.check_accepting());
    nfa.feed('a');
    assert!(!nfa.check_accepting());

    nfa.reset();
    assert!(nfa.run(&chars("a")));
}

#[test]
fn nfa_from_explicit_table() {
    let transitions = vec![vec![(CharSet::SingleChar('x'), 1)], vec![]];
    let accepting = vec![1];
    let mut nfa = NFA::new(transitions, accepting);

    assert!(!nfa.check_accepting());
    nfa.feed('x');
    assert!(nfa.check_accepting());

    nfa.reset();
    assert!(!nfa.run(&chars("y")));
}

#[test]
fn epsilon_closure_spans_nested_stars() {
    let inner = Regex::Star(Box::new(Regex::CharSet(CharSet::SingleChar('a'))));
    let outer = Regex::Star(Box::new(inner));
    let mut nfa = NFABuilder::build(&outer);

    assert!(nfa.run(&chars("")));
    nfa.reset();
    assert!(nfa.run(&chars("aaaa")));
    nfa.reset();
    assert!(!nfa.run(&chars("ab")));
}
