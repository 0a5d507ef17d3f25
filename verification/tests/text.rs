// The textual surface: parsing, rendering, round trips, terms, books,
// and the canonical enumerator order.

use inets::enumerate::Enumerator;
use inets::parser::{Book, TreeParser};
use inets::tree::Net;

fn parse_net(text: &str) -> Net {
    let chars: Vec<char> = text.chars().collect();
    let mut p = TreeParser::new(chars);
    p.parse_net().expect("the net text should parse")
}

fn parse_book(text: &str) -> Book {
    let chars: Vec<char> = text.chars().collect();
    let mut p = TreeParser::new(chars);
    p.parse_book().expect("the book text should parse")
}

#[test]
fn display_names_wires_in_order_of_appearance() {
    assert_eq!(parse_net("(a a)").display(), "(x0 x0)");
    assert_eq!(parse_net("(a (b (a b)))").display(), "(x0 (x1 (x0 x1)))");
}

#[test]
fn display_uses_the_reserved_brackets() {
    assert_eq!(parse_net("(a a)").display(), "(x0 x0)");
    assert_eq!(parse_net("[a a]").display(), "[x0 x0]");
    assert_eq!(parse_net("<a a>").display(), "<x0 x0>");
    assert_eq!(parse_net("{1 a a}").display(), "{1 x0 x0}");
    assert_eq!(parse_net("{42 a a}").display(), "{42 x0 x0}");
}

#[test]
fn display_shows_pending_pairs() {
    assert_eq!(
        parse_net("(a a) & (b b) = (c c)").display(),
        "(x0 x0) & (x1 x1) = (x2 x2)"
    );
}

#[test]
fn round_trip_reaches_a_fixed_point() {
    // Rendering, re-parsing, and rendering again is stable: the second
    // render equals the first, for every bracket kind and for pending
    // pairs.
    for text in [
        "(a a)",
        "[a a]",
        "<a a>",
        "{1 a a}",
        "{9 (a b) [a b]}",
        "(a a) & (b b) = (c c)",
        "((p q) (q p))",
    ] {
        let shown = parse_net(text).display();
        let again = parse_net(&shown).display();
        assert_eq!(shown, again);
    }
}

#[test]
fn parser_skips_comments_and_whitespace() {
    let net = parse_net("  ( a // the first port\n a )  ");
    assert_eq!(net.display(), "(x0 x0)");
}

#[test]
fn parser_rejects_malformed_input() {
    for text in ["", "(a", "(a a", ")", "{x a a}", "<a a)"] {
        let chars: Vec<char> = text.chars().collect();
        let mut p = TreeParser::new(chars);
        assert!(p.parse_net().is_err(), "{:?} should be rejected", text);
    }
}

#[test]
fn term_binder_encodes_to_an_agent() {
    let net = parse_net("term λ x x");
    assert_eq!(net.display(), "(x0 x0)");
}

#[test]
fn term_application_encodes_to_a_pending_pair() {
    let net = parse_net("term (f f)");
    assert_eq!(net.display(), "x0 & (x1 x0) = x1");
}

#[test]
fn term_label_prefix_doubles_into_the_agent_label() {
    // Binder labels are numeric label times two.
    let net = parse_net("term #2 λ x x");
    assert_eq!(net.display(), "{4 x0 x0}");
}

#[test]
fn term_superposition_gets_an_odd_label() {
    let net = parse_net("term {x x}");
    assert_eq!(net.display(), "{1 x0 x0}");
}

#[test]
fn term_annotation_swaps_function_and_argument() {
    let net = parse_net("term <x : x>");
    assert_eq!(net.display(), "x0 & <x1 x0> = x1");
}

#[test]
fn term_equality_witness_becomes_a_witness_agent() {
    let net = parse_net("term <x == x>");
    assert_eq!(net.display(), "[x0 x0]");
}

#[test]
fn book_with_definitions_and_tests() {
    let book = parse_book("def id = (a a) def test foo = [b b] id");
    assert_eq!(book.defs.len(), 2);
    assert_eq!(book.tests.len(), 1);
    let foo: String = book.tests[0].iter().collect();
    assert_eq!(foo, "foo");
    assert_eq!(book.root.display(), "(x0 x0)");
}

#[test]
fn definitions_are_spliced_with_fresh_wires() {
    let book = parse_book("def two = ((a a) (b b)) (two two)");
    assert_eq!(book.root.display(), "(((x0 x0) (x1 x1)) ((x2 x2) (x3 x3)))");
    assert!(book.root.validate().is_ok());
}

#[test]
fn test() {
    let mut a = Enumerator { depth: 3, index: 0 };
    a.gen_all();
}

#[test]
fn enumerator_counts_and_first_nets() {
    let mut e = Enumerator { depth: 2, index: 0 };
    assert_eq!(e.bits_amount(), 2);
    assert_eq!(e.wire_amount(), 2);
    assert_eq!(e.index_amount(), 2);
    assert_eq!(Enumerator::factorial(4), 24);
    let all = e.gen_all();
    assert_eq!(all.len(), 2);
    assert_eq!(all[0], "((x0 x1) (x0 x1))");
    assert_eq!(all[1], "((x0 x0) (x1 x1))");
}

#[test]
fn enumerator_output_is_valid_only_on_the_factorial_range() {
    // While the index stays below (depth)!, the permutation is a genuine
    // bit permutation, every leaf path maps to a distinct leaf, and each
    // wire is used exactly twice. From index (depth)! on, the quotient
    // overshoots the remaining bits, leaves collide, and the generated
    // net no longer satisfies the wire-multiplicity invariant — here at
    // depth 3 the seventh net uses two wires four times each.
    let mut e = Enumerator { depth: 3, index: 0 };
    for i in 0..6 {
        let net = e.next();
        assert!(net.validate().is_ok(), "net {} should be valid", i);
    }
    let seventh = e.next();
    assert!(seventh.validate().is_err());
}

#[test]
fn enumerator_depth_three_starts_canonically() {
    let mut e = Enumerator { depth: 3, index: 0 };
    let all = e.gen_all();
    assert_eq!(all.len(), 24);
    assert_eq!(all[0], "(((x0 x1) (x2 x3)) ((x0 x1) (x2 x3)))");
}
