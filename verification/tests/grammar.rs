use std::collections::HashSet;

use ll1_grammar::cfg::{ContextFreeGrammar, Error, Productions, Symbol};
use ll1_grammar::compute::{
    compute_first, compute_follow, compute_nullable, compute_predict_sets,
};
use ll1_grammar::ll1;
use ll1_grammar::ll1::LL1;
use ll1_grammar::tables::TerminalSets;

type Sym = Symbol<char, &'static str>;

fn t(c: char) -> Sym {
    Symbol::Terminal(c)
}

fn n(name: &'static str) -> Sym {
    Symbol::Nonterminal(name)
}

fn set_of(table: &TerminalSets<char, &'static str>, name: &'static str) -> HashSet<char> {
    table.get(&name).unwrap().into_iter().collect()
}

fn chars(s: &str) -> HashSet<char> {
    s.chars().collect()
}

fn expressions() -> ContextFreeGrammar<char, &'static str> {
    let terminals = vec!['n', '(', ')', '+', '-', '*', '/', '$'];
    let nonterminals = vec!["S", "E0", "E0'", "E1", "E1'", "E2"];
    let productions: Productions<char, &'static str> = vec![
        ("S", vec![vec![n("E0"), t('$')]]),
        ("E0", vec![vec![n("E1"), n("E0'")]]),
        (
            "E0'",
            vec![
                vec![t('+'), n("E1"), n("E0'")],
                vec![t('-'), n("E1"), n("E0'")],
                vec![],
            ],
        ),
        ("E1", vec![vec![n("E2"), n("E1'")]]),
        (
            "E1'",
            vec![
                vec![t('*'), n("E2"), n("E1'")],
                vec![t('/'), n("E2"), n("E1'")],
                vec![],
            ],
        ),
        ("E2", vec![vec![t('n')], vec![t('('), n("E0"), t(')')]]),
    ];
    ContextFreeGrammar::new(terminals, nonterminals, productions).unwrap()
}

#[test]
fn nullable_alternative_and_first() {
    let cfg = ContextFreeGrammar::new(
        vec!['a'],
        vec!["A"],
        vec![("A", vec![vec![], vec![t('a')]])],
    )
    .unwrap();
    let nullable = compute_nullable(&cfg);
    assert_eq!(nullable.get(&"A"), Some(true));
    assert_eq!(nullable.get(&"B"), None);
    let first = compute_first(&cfg);
    assert_eq!(set_of(&first, "A"), chars("a"));
    assert!(first.contains(&"A", &'a'));
    assert!(!first.contains(&"A", &'b'));
    assert!(!first.contains(&"B", &'a'));
    assert!(first.get(&"B").is_none());
}

#[test]
fn mutual_recursion_converges() {
    let cfg = ContextFreeGrammar::new(
        vec!['b'],
        vec!["A", "B"],
        vec![
            ("A", vec![vec![n("B")]]),
            ("B", vec![vec![n("A")], vec![t('b')]]),
        ],
    )
    .unwrap();
    let nullable = compute_nullable(&cfg);
    assert_eq!(nullable.get(&"A"), Some(false));
    assert_eq!(nullable.get(&"B"), Some(false));
    let first = compute_first(&cfg);
    assert_eq!(set_of(&first, "A"), chars("b"));
    assert_eq!(set_of(&first, "B"), chars("b"));
    let follow = compute_follow(&cfg, &first, &nullable);
    assert_eq!(set_of(&follow, "A"), chars(""));
    assert_eq!(set_of(&follow, "B"), chars(""));
    assert_eq!(LL1::new(cfg).err().unwrap(), vec![ll1::Error::Rule1("B")]);
}

#[test]
fn left_recursion_converges() {
    let cfg = ContextFreeGrammar::new(
        vec!['a', '+'],
        vec!["E"],
        vec![("E", vec![vec![n("E"), t('+'), t('a')], vec![t('a')]])],
    )
    .unwrap();
    let nullable = compute_nullable(&cfg);
    let first = compute_first(&cfg);
    let follow = compute_follow(&cfg, &first, &nullable);
    assert_eq!(set_of(&first, "E"), chars("a"));
    assert_eq!(set_of(&follow, "E"), chars("+"));
    assert_eq!(LL1::new(cfg).err().unwrap(), vec![ll1::Error::Rule1("E")]);
}

#[test]
fn expression_grammar_tables() {
    let cfg = expressions();
    let nullable = compute_nullable(&cfg);
    for (name, expected) in [
        ("S", false),
        ("E0", false),
        ("E0'", true),
        ("E1", false),
        ("E1'", true),
        ("E2", false),
    ] {
        assert_eq!(nullable.get(&name), Some(expected));
    }
    let first = compute_first(&cfg);
    assert_eq!(set_of(&first, "S"), chars("n("));
    assert_eq!(set_of(&first, "E0"), chars("n("));
    assert_eq!(set_of(&first, "E0'"), chars("+-"));
    assert_eq!(set_of(&first, "E1"), chars("n("));
    assert_eq!(set_of(&first, "E1'"), chars("*/"));
    assert_eq!(set_of(&first, "E2"), chars("n("));
    let follow = compute_follow(&cfg, &first, &nullable);
    assert_eq!(set_of(&follow, "S"), chars(""));
    assert_eq!(set_of(&follow, "E0"), chars("$)"));
    assert_eq!(set_of(&follow, "E0'"), chars("$)"));
    assert_eq!(set_of(&follow, "E1"), chars("+-$)"));
    assert_eq!(set_of(&follow, "E1'"), chars("+-$)"));
    assert_eq!(set_of(&follow, "E2"), chars("*/+-$)"));
    let predict = compute_predict_sets(&cfg, &first, &follow, &nullable);
    assert_eq!(set_of(&predict, "S"), chars("n("));
    assert_eq!(set_of(&predict, "E0"), chars("n("));
    assert_eq!(set_of(&predict, "E0'"), chars("+-$)"));
    assert_eq!(set_of(&predict, "E1"), chars("n("));
    assert_eq!(set_of(&predict, "E1'"), chars("*/+-$)"));
    assert_eq!(set_of(&predict, "E2"), chars("n("));
}

#[test]
fn expression_grammar_is_ll1() {
    let ll1 = LL1::new(expressions()).unwrap();
    let predict = ll1.get_predict_sets();
    assert_eq!(set_of(predict, "E2"), chars("n("));
    assert_eq!(set_of(predict, "E0'"), chars("+-$)"));
    assert_eq!(set_of(predict, "E1'"), chars("*/+-$)"));
    assert_eq!(set_of(predict, "S"), chars("n("));
    assert_eq!(set_of(ll1.get_first_sets(), "E1'"), chars("*/"));
    assert_eq!(set_of(ll1.get_follow_sets(), "E2"), chars("*/+-$)"));
    assert_eq!(ll1.get_nullable().get(&"E0'"), Some(true));
    assert_eq!(ll1.get_nullable().get(&"E0"), Some(false));
    assert_eq!(ll1.get_terminals(), &vec!['n', '(', ')', '+', '-', '*', '/', '$']);
    assert_eq!(ll1.get_nonterminals(), &vec!["S", "E0", "E0'", "E1", "E1'", "E2"]);
    assert_eq!(ll1.get_productions().len(), 6);
    assert_eq!(ll1.deref().get_nonterminals().len(), 6);
}

#[test]
fn tables_are_the_same_when_computed_twice() {
    let cfg = expressions();
    let nullable = compute_nullable(&cfg);
    let first = compute_first(&cfg);
    let follow = compute_follow(&cfg, &first, &nullable);
    let predict = compute_predict_sets(&cfg, &first, &follow, &nullable);
    let nullable2 = compute_nullable(&cfg);
    let first2 = compute_first(&cfg);
    let follow2 = compute_follow(&cfg, &first2, &nullable2);
    let predict2 = compute_predict_sets(&cfg, &first2, &follow2, &nullable2);
    for name in cfg.get_nonterminals() {
        assert_eq!(nullable.get(name), nullable2.get(name));
        assert_eq!(first.get(name), first2.get(name));
        assert_eq!(follow.get(name), follow2.get(name));
        assert_eq!(predict.get(name), predict2.get(name));
    }
}

#[test]
fn sets_hold_declared_terminals_only() {
    let cfg = expressions();
    let nullable = compute_nullable(&cfg);
    let first = compute_first(&cfg);
    let follow = compute_follow(&cfg, &first, &nullable);
    let terminals: HashSet<char> = cfg.get_terminals().iter().copied().collect();
    for name in cfg.get_nonterminals() {
        assert!(set_of(&first, name).is_subset(&terminals));
        assert!(set_of(&follow, name).is_subset(&terminals));
    }
}

#[test]
fn same_first_in_two_alternatives_violates_rule_1() {
    let cfg = ContextFreeGrammar::new(
        vec!['a'],
        vec!["S", "A", "B"],
        vec![
            ("S", vec![vec![n("A")], vec![n("B")]]),
            ("A", vec![vec![t('a')]]),
            ("B", vec![vec![t('a')]]),
        ],
    )
    .unwrap();
    assert_eq!(LL1::new(cfg).err().unwrap(), vec![ll1::Error::Rule1("S")]);
}

#[test]
fn first_and_follow_in_common_violates_rule_2() {
    let cfg = ContextFreeGrammar::new(
        vec!['a'],
        vec!["A", "B"],
        vec![
            ("A", vec![vec![t('a')], vec![]]),
            ("B", vec![vec![n("A"), t('a')]]),
        ],
    )
    .unwrap();
    let nullable = compute_nullable(&cfg);
    let first = compute_first(&cfg);
    let follow = compute_follow(&cfg, &first, &nullable);
    assert_eq!(nullable.get(&"A"), Some(true));
    assert!(follow.contains(&"A", &'a'));
    assert_eq!(LL1::new(cfg).err().unwrap(), vec![ll1::Error::Rule2("A")]);
}

#[test]
fn every_violation_is_reported_in_order() {
    // A violates both rules, C the first one, B none.
    let cfg = ContextFreeGrammar::new(
        vec!['a', 'b'],
        vec!["A", "B", "C"],
        vec![
            ("A", vec![vec![t('a')], vec![t('a'), t('b')], vec![]]),
            ("B", vec![vec![n("A"), t('a')]]),
            ("C", vec![vec![t('b')], vec![t('b'), t('b')]]),
        ],
    )
    .unwrap();
    assert_eq!(
        LL1::new(cfg).err().unwrap(),
        vec![
            ll1::Error::Rule1("A"),
            ll1::Error::Rule2("A"),
            ll1::Error::Rule1("C"),
        ]
    );
}

#[test]
fn repeated_alternatives_count_once() {
    let cfg = ContextFreeGrammar::new(
        vec!['a', 'a'],
        vec!["A", "A"],
        vec![
            ("A", vec![vec![t('a')], vec![t('a')]]),
            ("A", vec![vec![t('a')]]),
        ],
    )
    .unwrap();
    assert_eq!(cfg.get_terminals(), &vec!['a']);
    assert_eq!(cfg.get_nonterminals(), &vec!["A"]);
    assert_eq!(cfg.get_productions().len(), 2);
    assert!(LL1::new(cfg).is_ok());
}

#[test]
fn unknown_terminal_is_rejected() {
    let r = ContextFreeGrammar::new(vec!['a'], vec!["A"], vec![("A", vec![vec![t('a'), t('b')]])]);
    assert_eq!(r.err().unwrap(), Error::UnknownTerminalInProduction('b'));
}

#[test]
fn unknown_nonterminal_is_rejected() {
    let r = ContextFreeGrammar::new(vec!['a'], vec!["A"], vec![("A", vec![vec![t('a'), n("B")]])]);
    assert_eq!(r.err().unwrap(), Error::UnknownNonterminalInProduction("B"));
}

#[test]
fn unknown_left_hand_side_is_rejected() {
    let r = ContextFreeGrammar::new(
        vec!['a'],
        vec!["A"],
        vec![("A", vec![vec![t('a')]]), ("B", vec![vec![t('z')]])],
    );
    assert_eq!(r.err().unwrap(), Error::UnknownNonterminalInProduction("B"));
}

#[test]
fn missing_productions_are_rejected() {
    let r = ContextFreeGrammar::new(
        vec!['a'],
        vec!["A", "B", "C"],
        vec![("A", vec![vec![t('a')]])],
    );
    assert_eq!(r.err().unwrap(), Error::MissingProductionsForNonterminal("B"));
}

#[test]
fn first_fault_in_order_is_reported() {
    // The unknown terminal comes before the unknown nonterminal, and a fault
    // of a production before a missing entry.
    let r = ContextFreeGrammar::new(
        vec!['a'],
        vec!["A", "B"],
        vec![("A", vec![vec![t('a')], vec![t('x'), n("Z")]])],
    );
    assert_eq!(r.err().unwrap(), Error::UnknownTerminalInProduction('x'));
}

#[test]
fn entry_without_alternatives_counts_as_entry() {
    let cfg = ContextFreeGrammar::new(
        vec!['a'],
        vec!["A", "B"],
        vec![("A", vec![vec![t('a'), n("B")]]), ("B", vec![])],
    )
    .unwrap();
    let nullable = compute_nullable(&cfg);
    let first = compute_first(&cfg);
    let follow = compute_follow(&cfg, &first, &nullable);
    assert_eq!(nullable.get(&"B"), Some(false));
    assert_eq!(set_of(&first, "B"), chars(""));
    assert_eq!(set_of(&follow, "B"), chars(""));
    assert_eq!(set_of(&first, "A"), chars("a"));
    assert!(LL1::new(cfg).is_ok());
}

#[test]
fn validation_steps() {
    type G = ContextFreeGrammar<char, &'static str>;
    let terminals = vec!['a'];
    let nonterminals = vec!["A"];
    assert_eq!(G::validate_terminal(&'a', &terminals), Ok(()));
    assert_eq!(
        G::validate_terminal(&'b', &terminals),
        Err(Error::UnknownTerminalInProduction('b'))
    );
    assert_eq!(G::validate_nonterminal(&"A", &nonterminals), Ok(()));
    assert_eq!(
        G::validate_nonterminal(&"B", &nonterminals),
        Err(Error::UnknownNonterminalInProduction("B"))
    );
    assert_eq!(G::validate_symbol(&t('a'), &terminals, &nonterminals), Ok(()));
    assert_eq!(
        G::validate_symbol(&n("C"), &terminals, &nonterminals),
        Err(Error::UnknownNonterminalInProduction("C"))
    );
    assert_eq!(
        G::validate_production(&terminals, &nonterminals, &"A", &vec![t('a'), n("A")]),
        Ok(())
    );
    assert_eq!(
        G::validate_production(&terminals, &nonterminals, &"Q", &vec![t('z')]),
        Err(Error::UnknownNonterminalInProduction("Q"))
    );
    assert!(G::has_entry(&vec![("A", vec![])], &"A"));
    assert!(!G::has_entry(&vec![("A", vec![])], &"B"));
}

#[test]
fn symbol_against_nonterminal() {
    assert!(n("A").is_nonterminal(&"A"));
    assert!(!n("A").is_nonterminal(&"B"));
    assert!(!t('A').is_nonterminal(&"A"));
    let same: Symbol<u8, u8> = Symbol::Terminal(7);
    assert!(!same.is_nonterminal(&7));
    assert_eq!(same, same.clone());
}
