use std::collections::HashSet;

use ll1_grammar::dfa::Dfa;
use ll1_grammar::nfa::{Edges, Error, Nfa};
use ll1_grammar::scanner::{scan_token, BinOp, PostfixOp, PrefixOp, Token};

fn abb() -> Nfa<i32, char> {
    // (a|b)*abb
    let states = (1..=11).collect();
    let alphabet = vec!['a', 'b'];

    let mut edges: Edges<i32, char> = Vec::new();
    edges.push(((1, None), vec![2, 8]));
    edges.push(((2, None), vec![3, 5]));
    edges.push(((3, Some('a')), vec![4]));
    edges.push(((4, None), vec![7]));
    edges.push(((5, Some('b')), vec![6]));
    edges.push(((6, None), vec![7]));
    edges.push(((7, None), vec![2, 8]));
    edges.push(((8, Some('a')), vec![9]));
    edges.push(((9, Some('b')), vec![10]));
    edges.push(((10, Some('b')), vec![11]));

    let initial = 1;
    let accepting = vec![11];

    Nfa::new(states, alphabet, edges, initial, accepting).unwrap()
}

fn word(s: &str) -> Vec<char> {
    s.chars().collect()
}

fn set(v: Vec<i32>) -> HashSet<i32> {
    v.into_iter().collect()
}

#[test]
fn lib_test_nfa() {
    let nfa = abb();

    assert_eq!(
        nfa.simulate_nfa(&word("x")).unwrap_err(),
        Error::UnknownSymbol('x')
    );

    // (a|b)*abb
    assert_eq!(set(nfa.simulate_nfa(&word("a")).unwrap()), HashSet::new());
    assert_eq!(set(nfa.simulate_nfa(&word("aabba")).unwrap()), HashSet::new());
    assert_eq!(set(nfa.simulate_nfa(&word("abb")).unwrap()), [11].into());
}

#[test]
fn nfa_edges_and_closure() {
    let nfa = abb();
    assert_eq!(set(nfa.edge(&1, &None)), [2, 8].into());
    assert_eq!(set(nfa.edge(&3, &Some('a'))), [4].into());
    assert_eq!(set(nfa.edge(&3, &Some('b'))), HashSet::new());
    assert_eq!(set(nfa.edge(&12, &None)), HashSet::new());
    assert_eq!(set(nfa.union_edge(&vec![1, 2, 4], &None)), [2, 8, 3, 5, 7].into());
    assert_eq!(set(nfa.union_edge(&vec![3, 8], &Some('a'))), [4, 9].into());
    assert_eq!(set(nfa.e_closure(&vec![1])), [1, 2, 3, 5, 8].into());
    assert_eq!(set(nfa.e_closure(&vec![4])), [4, 7, 2, 8, 3, 5].into());
    assert_eq!(set(nfa.e_closure(&vec![11])), [11].into());
    assert_eq!(set(nfa.e_closure(&vec![])), HashSet::new());
    assert_eq!(set(nfa.dfa_edge(&vec![1, 2, 3, 5, 8], &'a')), [4, 7, 2, 8, 3, 5, 9].into());
    assert_eq!(set(nfa.dfa_edge(&vec![9], &'b')), [10].into());
    assert_eq!(set(nfa.simulate_nfa(&word("")).unwrap()), HashSet::new());
    assert_eq!(set(nfa.simulate_nfa(&word("babb")).unwrap()), [11].into());
    assert_eq!(nfa.simulate_nfa(&word("abxb")).unwrap_err(), Error::UnknownSymbol('x'));
}

#[test]
fn nfa_edges_for_the_same_state_and_symbol_add_up() {
    let nfa = Nfa::new(
        vec![1, 2, 3],
        vec!['a'],
        vec![((1, Some('a')), vec![2]), ((1, Some('a')), vec![3, 2])],
        1,
        vec![3, 3],
    )
    .unwrap();
    assert_eq!(nfa.edge(&1, &Some('a')), vec![2, 3]);
    assert_eq!(nfa.simulate_nfa(&word("a")).unwrap(), vec![3]);
}

#[test]
fn nfa_faults() {
    let make = |edges: Edges<i32, char>, initial: i32, accepting: Vec<i32>| {
        Nfa::new(vec![1, 2], vec!['a'], edges, initial, accepting).err()
    };
    assert_eq!(make(vec![((3, None), vec![1])], 1, vec![2]), Some(Error::UnknownState(3)));
    assert_eq!(
        make(vec![((1, Some('b')), vec![9])], 1, vec![2]),
        Some(Error::UnknownSymbol('b'))
    );
    assert_eq!(make(vec![((1, Some('a')), vec![2, 9])], 1, vec![2]), Some(Error::UnknownState(9)));
    assert_eq!(
        make(vec![((1, Some('a')), vec![2])], 7, vec![2, 5, 6]),
        Some(Error::UnknownAcceptingState(5))
    );
    assert_eq!(
        make(vec![((1, Some('a')), vec![2])], 7, vec![2]),
        Some(Error::UnknownInitialState(7))
    );
    assert_eq!(make(vec![((1, Some('a')), vec![2])], 1, vec![2]), None);
}

fn ab_star() -> Dfa<u8, char> {
    // (ab)*
    Dfa::new(
        vec![0, 1],
        vec!['a', 'b', 'c'],
        vec![((0, 'a'), 1), ((1, 'b'), 0), ((1, 'b'), 1)],
        0,
        vec![0],
    )
    .unwrap()
}

#[test]
fn dfa_edges_and_runs() {
    let dfa = ab_star();
    assert_eq!(dfa.edge(&0, &'a'), Some(1));
    assert_eq!(dfa.edge(&1, &'b'), Some(0));
    assert_eq!(dfa.edge(&0, &'b'), None);
    assert_eq!(dfa.edge(&5, &'a'), None);
    assert_eq!(dfa.simulate_dfa(&word("")), Ok(true));
    assert_eq!(dfa.simulate_dfa(&word("ab")), Ok(true));
    assert_eq!(dfa.simulate_dfa(&word("abab")), Ok(true));
    assert_eq!(dfa.simulate_dfa(&word("aba")), Ok(false));
    assert_eq!(dfa.simulate_dfa(&word("b")), Ok(false));
    assert_eq!(dfa.simulate_dfa(&word("ac")), Ok(false));
    assert_eq!(dfa.simulate_dfa(&word("abx")), Err(Error::UnknownSymbol('x')));
    // the automaton is stuck before it comes to the unknown symbol
    assert_eq!(dfa.simulate_dfa(&word("bx")), Ok(false));
}

#[test]
fn dfa_faults() {
    let make = |edges: Vec<((u8, char), u8)>, initial: u8, accepting: Vec<u8>| {
        Dfa::new(vec![0, 1], vec!['a'], edges, initial, accepting).err()
    };
    assert_eq!(make(vec![((2, 'a'), 0)], 0, vec![]), Some(Error::UnknownState(2)));
    assert_eq!(make(vec![((0, 'b'), 3)], 0, vec![]), Some(Error::UnknownSymbol('b')));
    assert_eq!(make(vec![((0, 'a'), 3)], 0, vec![]), Some(Error::UnknownState(3)));
    assert_eq!(make(vec![((0, 'a'), 1)], 4, vec![1, 3]), Some(Error::UnknownAcceptingState(3)));
    assert_eq!(make(vec![((0, 'a'), 1)], 4, vec![1]), Some(Error::UnknownInitialState(4)));
    assert_eq!(make(vec![((0, 'a'), 1)], 0, vec![1]), None);
}

#[test]
fn regex_tokens() {
    assert_eq!(scan_token('.'), Token::Any);
    assert_eq!(scan_token('^'), Token::PrefixOp(PrefixOp::Not));
    assert_eq!(scan_token('|'), Token::BinOp(BinOp::Or));
    assert_eq!(scan_token('?'), Token::PostfixOp(PostfixOp::Maybe));
    assert_eq!(scan_token('*'), Token::PostfixOp(PostfixOp::Repeating));
    assert_eq!(scan_token('+'), Token::PostfixOp(PostfixOp::AtLeastOne));
    assert_eq!(scan_token('('), Token::LParen);
    assert_eq!(scan_token(')'), Token::RParen);
    assert_eq!(scan_token('['), Token::LBracket);
    assert_eq!(scan_token(']'), Token::RBracket);
    assert_eq!(scan_token('\\'), Token::Escape);
    assert_eq!(scan_token('-'), Token::Through);
    assert_eq!(scan_token('a'), Token::Char('a'));
    assert_eq!(scan_token(' '), Token::Char(' '));
}

#[test]
fn test_dfa1() {
    // (a|b)*abb
    let nfa = abb();

    let dfa = nfa.construct_subsets().unwrap();

    println!("abb accepted: {:?}", dfa.simulate_dfa(&word("abb")));

    assert_eq!(dfa.simulate_dfa(&word("abb")), Ok(true));
    assert_eq!(dfa.simulate_dfa(&word("babb")), Ok(true));
    assert_eq!(dfa.simulate_dfa(&word("aababb")), Ok(true));
    assert_eq!(dfa.simulate_dfa(&word("")), Ok(false));
    assert_eq!(dfa.simulate_dfa(&word("a")), Ok(false));
    assert_eq!(dfa.simulate_dfa(&word("aabba")), Ok(false));
    assert_eq!(dfa.simulate_dfa(&word("abx")), Err(Error::UnknownSymbol('x')));
    for input in ["", "a", "b", "ab", "abb", "abba", "abbabb", "bbbabb", "aaab"] {
        let accepted = !nfa.simulate_nfa(&word(input)).unwrap().is_empty();
        assert_eq!(dfa.simulate_dfa(&word(input)), Ok(accepted));
    }
}

#[test]
fn test_dfa2() {
    // x?(ab)*
    let states = (1..=8).collect();
    let alphabet = vec!['x', 'a', 'b'];

    let mut edges: Edges<i32, char> = Vec::new();
    edges.push(((1, None), vec![2]));
    edges.push(((2, None), vec![3]));
    edges.push(((2, Some('x')), vec![4]));
    edges.push(((3, None), vec![5]));
    edges.push(((4, None), vec![5]));
    edges.push(((5, None), vec![6]));
    edges.push(((6, Some('a')), vec![7]));
    edges.push(((7, Some('b')), vec![8]));
    edges.push(((8, None), vec![6]));

    let initial = 1;
    let accepting = vec![6];

    let nfa = Nfa::new(states, alphabet, edges, initial, accepting).unwrap();

    let dfa = nfa.construct_subsets().unwrap();

    println!("xab accepted: {:?}", dfa.simulate_dfa(&word("xab")));

    assert_eq!(dfa.simulate_dfa(&word("")), Ok(true));
    assert_eq!(dfa.simulate_dfa(&word("x")), Ok(true));
    assert_eq!(dfa.simulate_dfa(&word("xab")), Ok(true));
    assert_eq!(dfa.simulate_dfa(&word("abab")), Ok(true));
    assert_eq!(dfa.simulate_dfa(&word("xx")), Ok(false));
    assert_eq!(dfa.simulate_dfa(&word("xa")), Ok(false));
    assert_eq!(dfa.simulate_dfa(&word("abx")), Ok(false));
    assert_eq!(dfa.edge(&0, &'x').is_some(), true);
    assert_eq!(dfa.edge(&0, &'b'), None);
}
