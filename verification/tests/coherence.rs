// The coherence checker: positive and negative hand-built nets, and
// determinism across independently built copies.

use inets::parser::TreeParser;
use inets::tree::Net;

fn parse_net(text: &str) -> Net {
    let chars: Vec<char> = text.chars().collect();
    let mut p = TreeParser::new(chars);
    p.parse_net().expect("the net text should parse")
}

#[test]
fn single_duplication_is_coherent() {
    // One variable through one constructor: trivially consistent.
    let mut net = parse_net("(x x)");
    assert!(net.validate().is_ok());
    assert!(net.is_coherent());
}

#[test]
fn depth_matched_same_label_net_is_coherent() {
    // Two variables through depth-matched duplications of one label.
    let mut net = parse_net("((x y) (x y))");
    assert!(net.validate().is_ok());
    assert!(net.is_coherent());
}

#[test]
fn mismatched_depth_under_equality_witness_is_incoherent() {
    // Two wires pass through constructor nodes with equal descending
    // runs, but are distinguished only by the equality-witness layer,
    // which is not part of the coherence key; their ascending runs
    // disagree at equal depth, so the net must be rejected.
    let mut net = parse_net("[(u u) ((w w) (y y))]");
    assert!(net.validate().is_ok());
    assert!(!net.is_coherent());
}

#[test]
fn coherence_is_deterministic_across_copies() {
    // Independently parsed copies with identical shape agree.
    let mut a = parse_net("[(u u) ((w w) (y y))]");
    let mut b = parse_net("[(u u) ((w w) (y y))]");
    assert_eq!(a.is_coherent(), b.is_coherent());

    let mut c = parse_net("((x y) (x y))");
    let mut d = parse_net("((x y) (x y))");
    assert_eq!(c.is_coherent(), d.is_coherent());
    assert!(d.is_coherent());
}

#[test]
fn empty_iteration_is_trivially_coherent() {
    // A net whose root mentions each wire once emits nothing; with no
    // emissions there is nothing to collide.
    let mut net = parse_net("(x y) & x = y");
    assert!(net.validate().is_ok());
    assert!(net.is_coherent());
}

#[test]
fn coherence_checks_the_resolved_root() {
    // The checker sees through resolved wires: this net stores the
    // incoherent structure behind a wire before checking it.
    let mut net = parse_net("r & r = [(u u) ((w w) (y y))]");
    assert!(net.validate().is_ok());
    let done = net.normal(1000);
    assert!(done);
    assert!(!net.is_coherent());
}
