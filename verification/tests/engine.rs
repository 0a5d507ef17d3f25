// Reduction engine behaviour: annihilation, commutation, cascading wire
// substitution, and preservation of the wire-multiplicity invariant.

use inets::parser::TreeParser;
use inets::store::{WireSlot, WireStore};
use inets::tree::{Net, NodeLabel, Tree};

fn parse_net(text: &str) -> Net {
    let chars: Vec<char> = text.chars().collect();
    let mut p = TreeParser::new(chars);
    p.parse_net().expect("the net text should parse")
}

#[test]
fn annihilation_replaces_one_pair_with_two() {
    // Two equal-labeled agents linked by a redex annihilate into two
    // trivial variable-identity redexes, allocating no wires.
    let mut net = parse_net("(a a) & (a a) = (x x)");
    assert!(net.validate().is_ok());
    let wires_before = net.vars.len();
    assert_eq!(net.redexes.len(), 1);
    net.step();
    assert_eq!(net.redexes.len(), 2);
    assert_eq!(net.vars.len(), wires_before);
    for (a, b) in &net.redexes {
        assert!(matches!(a, Tree::Var { .. }));
        assert!(matches!(b, Tree::Var { .. }));
    }
    assert!(net.validate().is_ok());
}

#[test]
fn annihilation_net_reduces_to_unresolved_root() {
    let mut net = parse_net("(a a) & (a a) = (x x)");
    assert!(net.validate().is_ok());
    let done = net.normal(1000);
    assert!(done);
    assert_eq!(net.redexes.len(), 0);
    assert_eq!(net.display(), "(x0 x0)");
}

#[test]
fn commutation_allocates_four_wires_and_four_pairs() {
    // A constructor against an equality witness: labels differ, so the
    // pair commutes through four fresh wires.
    let mut net = parse_net("(r r) & (a a) = [b b]");
    assert!(net.validate().is_ok());
    let wires_before = net.vars.len();
    assert_eq!(net.redexes.len(), 1);
    net.step();
    assert_eq!(net.redexes.len(), 4);
    assert_eq!(net.vars.len(), wires_before + 4);
    assert!(net.validate().is_ok());
}

#[test]
fn validate_passes_after_every_step() {
    let mut net = parse_net("(r r) & (a a) = [b b]");
    assert!(net.validate().is_ok());
    let mut steps = 0;
    while net.redexes.len() > 0 && steps < 100 {
        net.step();
        assert!(net.validate().is_ok());
        steps += 1;
    }
    assert_eq!(net.redexes.len(), 0);
}

#[test]
fn wire_substitution_cascades() {
    // A wire whose cell already holds a value hands the value on.
    let mut net = parse_net("a & a = (x x)");
    assert!(net.validate().is_ok());
    let done = net.normal(1000);
    assert!(done);
    assert_eq!(net.display(), "(x0 x0)");
}

#[test]
fn validate_rejects_single_use_wire() {
    let chars: Vec<char> = "(a b)".chars().collect();
    let mut p = TreeParser::new(chars);
    assert!(p.parse_net().is_err());
}

#[test]
fn validate_rejects_triple_use_wire() {
    // The same name three times leaves one wire with a single end.
    let chars: Vec<char> = "(a a) & a = (x x)".chars().collect();
    let mut p = TreeParser::new(chars);
    assert!(p.parse_net().is_err());
}

#[test]
fn validate_checks_hand_built_stores() {
    // An open wire referenced once fails; referenced twice passes.
    let mut vars = WireStore::new();
    let id = vars.fresh();
    let bad = Net {
        root: Tree::Var { id },
        redexes: Vec::new(),
        vars,
    };
    assert!(bad.validate().is_err());

    let mut vars = WireStore::new();
    let id = vars.fresh();
    let good = Net {
        root: Tree::Binary {
            label: NodeLabel::con(),
            p1: Box::new(Tree::Var { id }),
            p2: Box::new(Tree::Var { id }),
        },
        redexes: Vec::new(),
        vars,
    };
    assert!(good.validate().is_ok());
}

#[test]
fn resolve_vars_substitutes_stored_values() {
    let mut vars = WireStore::new();
    let inner = vars.fresh();
    let body = Tree::Binary {
        label: NodeLabel::con(),
        p1: Box::new(Tree::Var { id: inner }),
        p2: Box::new(Tree::Var { id: inner }),
    };
    let outer = vars.fresh_full(body);
    let mut net = Net {
        root: Tree::Var { id: outer },
        redexes: Vec::new(),
        vars,
    };
    assert!(net.validate().is_ok());
    net.resolve_vars();
    assert!(matches!(net.root, Tree::Binary { .. }));
    assert_eq!(net.display(), "(x0 x0)");
}

#[test]
fn slots_are_retired_when_consumed() {
    let mut vars = WireStore::new();
    let id = vars.fresh();
    assert!(vars.is_open(id));
    assert!(!vars.is_full(id));
    vars.put(id, Tree::Var { id: 7 });
    assert!(vars.is_full(id));
    let t = vars.take(id);
    assert!(matches!(t, Tree::Var { id: 7 }));
    assert!(!vars.is_full(id));
    assert!(!vars.is_open(id));
    assert!(matches!(vars.slot_ref(id), WireSlot::Vacant));
}
