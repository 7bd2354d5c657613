use codeboss::compile::{
    expand_nodes_to_slots, expand_template, find_slot_boundary, slot_counts, total_variations,
    validate_entropy, EntropyTooLow, MAX_VARIATIONS_PER_SLOT, MIN_VARIATIONS,
};
use codeboss::expand::{count_alternatives, count_variations, expand_alternatives, expand_to_strings};
use codeboss::slot::{append_bytes, Slot};
use codeboss::template::{parse_template, Node, ParseError};

fn strings(items: &[&str]) -> Vec<Vec<u8>> {
    items.iter().map(|s| s.as_bytes().to_vec()).collect()
}

fn variations(slot: &Slot) -> Vec<Vec<u8>> {
    let mut all = Vec::new();
    for i in 0..slot.variation_count() {
        let mut one = Vec::new();
        let written = slot.copy_variation(i, &mut one);
        assert_eq!(written, one.len());
        all.push(one);
    }
    all
}

fn groups(sizes: &[usize]) -> String {
    let mut template = String::new();
    for &size in sizes {
        template.push('{');
        for i in 0..size {
            if i > 0 {
                template.push('|');
            }
            template.push_str(&format!("{}", i));
        }
        template.push('}');
    }
    template
}

#[test]
fn plain_template_expands_to_itself() {
    let nodes = parse_template("just \\{text\\}").unwrap();
    assert_eq!(expand_to_strings(&nodes), strings(&["just {text}"]));
    let slots = expand_nodes_to_slots(&nodes);
    assert_eq!(slots.len(), 1);
    assert_eq!(variations(&slots[0]), strings(&["just {text}"]));
    assert_eq!(total_variations(&slots), 1);
}

#[test]
fn no_nodes_expand_to_the_empty_string() {
    assert_eq!(expand_to_strings(&[]), strings(&[""]));
    assert_eq!(count_variations(&[]), 1);
    let slots = expand_nodes_to_slots(&[]);
    assert_eq!(slots.len(), 0);
    assert_eq!(total_variations(&slots), 1);
}

#[test]
fn expansion_is_depth_first() {
    let nodes = parse_template("{fix|Fix}: {the|a} {bug|issue}").unwrap();
    assert_eq!(count_variations(&nodes), 8);
    assert_eq!(
        expand_to_strings(&nodes),
        strings(&[
            "fix: the bug",
            "fix: the issue",
            "fix: a bug",
            "fix: a issue",
            "Fix: the bug",
            "Fix: the issue",
            "Fix: a bug",
            "Fix: a issue",
        ])
    );
}

#[test]
fn nested_groups_expand_in_order() {
    let nodes = parse_template("{a{b|c}|d}e").unwrap();
    assert_eq!(count_variations(&nodes), 3);
    assert_eq!(expand_to_strings(&nodes), strings(&["abe", "ace", "de"]));
}

#[test]
fn alternatives_are_summed() {
    let nodes = parse_template("{a|b{c|d}|}").unwrap();
    match &nodes[0] {
        Node::Choice(alternatives) => {
            assert_eq!(count_alternatives(alternatives), 4);
            assert_eq!(expand_alternatives(alternatives), strings(&["a", "bc", "bd", ""]));
        }
        Node::Literal(_) => panic!("a group was expected"),
    }
}

#[test]
fn group_without_alternatives_expands_to_nothing() {
    let nodes = vec![Node::Literal(b"x".to_vec()), Node::Choice(vec![])];
    assert_eq!(count_variations(&nodes), 0);
    assert_eq!(expand_to_strings(&nodes), Vec::<Vec<u8>>::new());
    assert_eq!(expand_nodes_to_slots(&nodes).len(), 0);
}

#[test]
fn count_saturates() {
    let pair = || Node::Choice(vec![vec![], vec![]]);
    let nodes: Vec<Node> = (0..200).map(|_| pair()).collect();
    assert_eq!(count_variations(&nodes), usize::MAX);
}

#[test]
fn two_groups_in_one_slot_multiply() {
    let slots = expand_template("{a|b}{c|d|e}").unwrap();
    assert_eq!(slots.len(), 1);
    assert_eq!(total_variations(&slots), 6);
    assert_eq!(variations(&slots[0]), strings(&["ac", "ad", "ae", "bc", "bd", "be"]));
}

#[test]
fn two_groups_in_two_slots_multiply() {
    let slots = expand_template(&groups(&[100, 90])).unwrap();
    assert_eq!(slot_counts(&slots), vec![100, 90]);
    assert_eq!(total_variations(&slots), 9000);
}

#[test]
fn boundary_is_greedy() {
    let nodes = parse_template(&groups(&[64, 64, 2, 2])).unwrap();
    assert_eq!(find_slot_boundary(&nodes, 0), 3);
    assert_eq!(find_slot_boundary(&nodes, 1), 4);
    assert_eq!(find_slot_boundary(&nodes, 3), 4);
    let slots = expand_nodes_to_slots(&nodes);
    assert_eq!(slot_counts(&slots), vec![MAX_VARIATIONS_PER_SLOT, 2]);
}

#[test]
fn boundary_past_the_end_is_one_further() {
    let nodes = parse_template("ab").unwrap();
    assert_eq!(find_slot_boundary(&nodes, 0), 1);
    assert_eq!(find_slot_boundary(&nodes, 5), 6);
}

#[test]
fn oversized_group_is_a_slot_of_its_own() {
    let nodes = parse_template(&groups(&[3, 9000, 3])).unwrap();
    assert_eq!(find_slot_boundary(&nodes, 0), 1);
    assert_eq!(find_slot_boundary(&nodes, 1), 2);
    let slots = expand_nodes_to_slots(&nodes);
    assert_eq!(slot_counts(&slots), vec![3, 9000, 3]);
    assert_eq!(total_variations(&slots), 81000);
}

#[test]
fn literals_join_the_slot_of_their_neighbours() {
    let slots = expand_template("x{a|b}y{c|d}z").unwrap();
    assert_eq!(slots.len(), 1);
    assert_eq!(variations(&slots[0]), strings(&["xaycz", "xaydz", "xbycz", "xbydz"]));
}

#[test]
fn unclosed_brace_reaches_the_caller() {
    assert!(matches!(expand_template("{a|b"), Err(ParseError::UnclosedBrace)));
}

#[test]
fn slot_keeps_order_and_contents() {
    let slot = Slot::from_variations(strings(&["", "abc", "de", ""]));
    assert_eq!(slot.variation_count(), 4);
    assert_eq!(variations(&slot), strings(&["", "abc", "de", ""]));
    let mut dest = b"x".to_vec();
    assert_eq!(slot.copy_variation(1, &mut dest), 3);
    assert_eq!(dest, b"xabc".to_vec());
}

#[test]
fn append_bytes_appends() {
    let mut dest = b"ab".to_vec();
    append_bytes(&mut dest, b"cd");
    append_bytes(&mut dest, b"");
    assert_eq!(dest, b"abcd".to_vec());
}

#[test]
fn total_saturates() {
    let slots: Vec<Slot> = (0..129).map(|_| Slot::from_variations(strings(&["a", "b"]))).collect();
    assert_eq!(total_variations(&slots), u128::MAX);
    let slots: Vec<Slot> = (0..127).map(|_| Slot::from_variations(strings(&["a", "b"]))).collect();
    assert_eq!(total_variations(&slots), 1u128 << 127);
}

#[test]
fn entropy_gate_rejects_36_bits() {
    let slots = expand_template(&groups(&[2; 36])).unwrap();
    assert_eq!(total_variations(&slots), 1u128 << 36);
    assert_eq!(validate_entropy(&slots), Err(EntropyTooLow { variations: 1u128 << 36 }));
}

#[test]
fn entropy_gate_accepts_37_bits() {
    let slots = expand_template(&groups(&[2; 37])).unwrap();
    assert_eq!(total_variations(&slots), MIN_VARIATIONS);
    assert_eq!(validate_entropy(&slots), Ok(()));
}

#[test]
fn entropy_gate_is_at_the_threshold() {
    assert_eq!(MIN_VARIATIONS, 1u128 << 37);
    let below = expand_template(&groups(&[8191, 8192, 2048])).unwrap();
    assert_eq!(total_variations(&below), 8191 * 8192 * 2048);
    assert!(validate_entropy(&below).is_err());
    let small = expand_template("{a|b}").unwrap();
    assert_eq!(validate_entropy(&small), Err(EntropyTooLow { variations: 2 }));
}
