//! How many candidates a template describes, whatever the slots it is cut
//! into.

use vstd::prelude::*;
use crate::candidate::{assemble, candidate};
use crate::compile::{
    compiled,
    lemma_slot_end,
    slot_boundary,
    slot_sizes,
    slots_from,
    space_size,
};
use vstd::arithmetic::div_mod::lemma_fundamental_div_mod;
use crate::expand::{
    alternatives_count,
    cross,
    expansions,
    lemma_count_concat,
    lemma_cross_index,
    lemma_cross_len,
    lemma_expansions_concat,
    lemma_expansions_len,
    node_count,
    variation_count,
};
use crate::odometer::{
    digits,
    flat_index,
    lemma_digits_of_flat_index,
    lemma_digits_valid,
    lemma_product_positive,
    positive,
    product,
    valid_selection,
};
use crate::template::{
    alternative_stops,
    alternatives_at,
    brace_free,
    choice_at,
    escape_at,
    sequence_at,
    template_trees,
    unescaped,
    with_leading_text,
    Tree,
    OPEN,
};

verus! {

/// The slots of a template describe as many candidates as the template
/// expands to: the product of the slot sizes is the cross product of the
/// whole, wherever the slot boundaries fall.
pub proof fn lemma_space_of_compiled(nodes: Seq<Tree>)
    requires
        variation_count(nodes) > 0,
    ensures
        space_size(compiled(nodes)) == variation_count(nodes),
{
    assert(nodes.skip(0) =~= nodes);
    lemma_space_from(nodes, 0);
}

/// The slots cut from `start` on describe as many candidates as the nodes
/// from `start` on expand to.
pub proof fn lemma_space_from(nodes: Seq<Tree>, start: int)
    requires
        0 <= start <= nodes.len(),
        variation_count(nodes.skip(start)) > 0,
    ensures
        space_size(slots_from(nodes, start)) == variation_count(nodes.skip(start)),
    decreases nodes.len() - start,
{
    if start < nodes.len() {
        lemma_slot_end(nodes, start, start + 1);
        let end = slot_boundary(nodes, start);
        let run = nodes.subrange(start, end);
        let variations = expansions(run);
        let rest = slots_from(nodes, end);
        assert(nodes.skip(start) =~= run + nodes.skip(end));
        lemma_count_concat(run, nodes.skip(end));
        lemma_expansions_len(run);
        assert(variation_count(run) > 0 && variation_count(nodes.skip(end)) > 0)
            by (nonlinear_arith)
            requires
                variation_count(run) * variation_count(nodes.skip(end)) > 0,
        ;
        lemma_space_from(nodes, end);
        let sizes = slot_sizes(seq![variations] + rest);
        assert(sizes[0] == variations.len());
        assert(sizes.drop_first() =~= slot_sizes(rest));
    } else {
        assert(slot_sizes(Seq::<Seq<Seq<u8>>>::empty()).len() == 0);
    }
}

/// What a sequence parses to expands to at least one byte string: every
/// choice group that the parser builds has an alternative.
pub proof fn lemma_parsed_sequence_expands(s: Seq<u8>, pos: int, stop: Seq<u8>)
    requires
        0 <= pos <= s.len(),
    ensures
        sequence_at(s, pos, stop) matches Some((trees, _)) ==> variation_count(trees) > 0,
    decreases s.len() - pos, 0int,
{
    if pos >= s.len() || (!escape_at(s, pos) && stop.contains(s[pos])) {
    } else if !escape_at(s, pos) && s[pos] == OPEN {
        lemma_parsed_group_expands(s, pos + 1);
        if let Some((group, after)) = choice_at(s, pos + 1) {
            if pos < after <= s.len() {
                lemma_parsed_sequence_expands(s, after, stop);
                if let Some((rest, _)) = sequence_at(s, after, stop) {
                    let trees = seq![group] + rest;
                    assert(trees.drop_first() =~= rest);
                    assert(node_count(group) * variation_count(rest) > 0) by (nonlinear_arith)
                        requires
                            node_count(group) > 0,
                            variation_count(rest) > 0,
                    ;
                }
            }
        }
    } else {
        let step: int = if escape_at(s, pos) {
            2
        } else {
            1
        };
        lemma_parsed_sequence_expands(s, pos + step, stop);
        if let Some((rest, _)) = sequence_at(s, pos + step, stop) {
            lemma_count_with_leading_text(seq![s[pos + step - 1]], rest);
        }
    }
}

/// Literal text in front of a run does not change how many byte strings the
/// run expands to.
pub proof fn lemma_count_with_leading_text(text: Seq<u8>, rest: Seq<Tree>)
    ensures
        variation_count(with_leading_text(text, rest)) == variation_count(rest),
{
    let trees = with_leading_text(text, rest);
    if text.len() > 0 {
        let after = trees.drop_first();
        assert(node_count(trees[0]) == 1);
        assert(variation_count(trees) == node_count(trees[0]) * variation_count(after));
        assert(1 * variation_count(after) == variation_count(after)) by (nonlinear_arith);
        if rest.len() > 0 && rest[0] is Literal {
            assert(after =~= rest.drop_first());
            assert(node_count(rest[0]) == 1);
            assert(variation_count(rest) == node_count(rest[0]) * variation_count(after));
        } else {
            assert(after =~= rest);
        }
    }
}

/// The alternatives that a choice group parses to expand to at least one
/// byte string between them.
pub proof fn lemma_parsed_group_expands(s: Seq<u8>, pos: int)
    requires
        0 <= pos <= s.len(),
    ensures
        alternatives_at(s, pos) matches Some((alternatives, _)) ==> alternatives_count(
            alternatives,
        ) > 0,
        choice_at(s, pos) matches Some((group, _)) ==> node_count(group) > 0,
    decreases s.len() - pos, 1int,
{
    lemma_parsed_sequence_expands(s, pos, alternative_stops());
    if let Some((alternatives, _)) = alternatives_at(s, pos) {
        assert(alternatives_count(alternatives) >= variation_count(alternatives[0]));
    }
}

/// A template that parses describes as many candidates as it expands to
/// byte strings, and at least one.
pub proof fn lemma_space_of_template(s: Seq<u8>)
    ensures
        template_trees(s) matches Some(trees) ==> space_size(compiled(trees)) == expansions(
            trees,
        ).len() && space_size(compiled(trees)) == variation_count(trees) && variation_count(
            trees,
        ) > 0,
{
    lemma_parsed_sequence_expands(s, 0, Seq::empty());
    if let Some(trees) = template_trees(s) {
        lemma_space_of_compiled(trees);
        lemma_expansions_len(trees);
    }
}

/// Two choice groups side by side, of `m` and `n` variations, describe
/// `m * n` candidates.
pub proof fn lemma_two_groups(first: Seq<Seq<Tree>>, second: Seq<Seq<Tree>>)
    requires
        alternatives_count(first) > 0,
        alternatives_count(second) > 0,
    ensures
        space_size(compiled(seq![Tree::Choice(first), Tree::Choice(second)]))
            == alternatives_count(first) * alternatives_count(second),
{
    let nodes = seq![Tree::Choice(first), Tree::Choice(second)];
    let tail = nodes.drop_first();
    assert(tail.drop_first().len() == 0);
    assert(tail[0] == Tree::Choice(second));
    assert(node_count(tail[0]) == alternatives_count(second));
    assert(node_count(nodes[0]) == alternatives_count(first));
    assert(variation_count(tail.drop_first()) == 1);
    assert(variation_count(tail) == alternatives_count(second) * 1);
    assert(variation_count(nodes) == alternatives_count(first) * variation_count(tail));
    assert(variation_count(nodes) == alternatives_count(first) * alternatives_count(second)
        && variation_count(nodes) > 0) by (nonlinear_arith)
        requires
            variation_count(tail) == alternatives_count(second) * 1,
            variation_count(nodes) == alternatives_count(first) * variation_count(tail),
            alternatives_count(first) > 0,
            alternatives_count(second) > 0,
    ;
    lemma_space_of_compiled(nodes);
}

/// A template without a choice group stands for one candidate: its own text
/// with each escape pair replaced by the byte that it escapes.
pub proof fn lemma_plain_template(s: Seq<u8>)
    requires
        brace_free(s, 0),
    ensures
        template_trees(s) == Some(with_leading_text(unescaped(s, 0), Seq::empty())),
        expansions(template_trees(s).unwrap()) == seq![unescaped(s, 0)],
        space_size(compiled(template_trees(s).unwrap())) == 1,
        candidate(compiled(template_trees(s).unwrap()), 0) == unescaped(s, 0),
{
    lemma_plain_sequence(s, 0);
    let text = unescaped(s, 0);
    let trees = with_leading_text(text, Seq::empty());
    if text.len() == 0 {
        assert(expansions(trees) =~= seq![text]);
        assert(slot_sizes(compiled(trees)).len() == 0);
        assert(candidate(compiled(trees), 0) =~= text);
    } else {
        assert(trees.drop_first().len() == 0);
        assert(expansions(trees.drop_first()) =~= seq![Seq::<u8>::empty()]);
        assert(expansions(trees) =~= seq![text]);
        assert(trees.subrange(0, 1) =~= trees);
        assert(slots_from(trees, 1) =~= Seq::<Seq<Seq<u8>>>::empty());
        assert(compiled(trees) =~= seq![seq![text]]);
        let sizes = slot_sizes(compiled(trees));
        assert(sizes =~= seq![1nat]);
        assert(sizes.drop_first().len() == 0);
        assert(product(sizes.drop_first()) == 1);
        assert(product(sizes) == 1);
        let selection = digits(sizes, 0);
        assert(selection[0] == 0);
        assert(compiled(trees).drop_first().len() == 0);
        assert(assemble(compiled(trees).drop_first(), selection.drop_first())
            =~= Seq::<u8>::empty());
        assert(candidate(compiled(trees), 0) =~= text);
    }
}

/// A text without a choice group from `pos` on parses, from there to its
/// end, to its unescaped bytes as one literal.
pub proof fn lemma_plain_sequence(s: Seq<u8>, pos: int)
    requires
        0 <= pos <= s.len(),
        brace_free(s, pos),
    ensures
        sequence_at(s, pos, Seq::empty()) == Some(
            (with_leading_text(unescaped(s, pos), Seq::empty()), s.len() as int),
        ),
    decreases s.len() - pos,
{
    if pos < s.len() {
        let step: int = if escape_at(s, pos) {
            2
        } else {
            1
        };
        let b: u8 = if escape_at(s, pos) {
            s[pos + 1]
        } else {
            s[pos]
        };
        lemma_plain_sequence(s, pos + step);
        let rest = unescaped(s, pos + step);
        assert(with_leading_text(seq![b], with_leading_text(rest, Seq::empty()))
            =~= with_leading_text(seq![b] + rest, Seq::empty()));
    }
}

/// Every way to take one variation from each slot, joined in slot order:
/// all of the first slot's first variation, then all of its second, and so
/// on.
pub open spec fn combinations(slots: Seq<Seq<Seq<u8>>>) -> Seq<Seq<u8>>
    decreases slots.len(),
{
    if slots.len() == 0 {
        seq![Seq::empty()]
    } else {
        cross(slots[0], combinations(slots.drop_first()))
    }
}

/// Where the message of a selection stands among the combinations: the first
/// slot counts most.
pub open spec fn major_index(sizes: Seq<nat>, selection: Seq<nat>) -> nat
    decreases sizes.len(),
{
    if sizes.len() == 0 || selection.len() == 0 {
        0
    } else {
        selection[0] * product(sizes.drop_first()) + major_index(
            sizes.drop_first(),
            selection.drop_first(),
        )
    }
}

/// The selection whose message is combination number `m`.
pub open spec fn selection_of(sizes: Seq<nat>, m: nat) -> Seq<nat>
    decreases sizes.len(),
{
    if sizes.len() == 0 {
        Seq::empty()
    } else {
        let inner = product(sizes.drop_first());
        seq![m / inner] + selection_of(sizes.drop_first(), m % inner)
    }
}

/// Counts whose product is positive are positive.
pub proof fn lemma_positive_of_product(counts: Seq<nat>)
    requires
        product(counts) > 0,
    ensures
        positive(counts),
    decreases counts.len(),
{
    if counts.len() > 0 {
        let rest = counts.drop_first();
        assert(counts[0] > 0 && product(rest) > 0) by (nonlinear_arith)
            requires
                counts[0] * product(rest) > 0,
        ;
        lemma_positive_of_product(rest);
        assert forall|i: int| 0 <= i < counts.len() implies counts[i] > 0 by {
            if i > 0 {
                assert(counts[i] == rest[i - 1]);
            }
        }
    }
}

/// The slots of a template that expands to something combine to exactly what
/// the template expands to, in the same order.
pub proof fn lemma_combinations_of_compiled(nodes: Seq<Tree>)
    requires
        variation_count(nodes) > 0,
    ensures
        combinations(compiled(nodes)) == expansions(nodes),
{
    assert(nodes.skip(0) =~= nodes);
    lemma_combinations_from(nodes, 0);
}

/// The slots cut from `start` on combine to what the nodes from `start` on
/// expand to.
pub proof fn lemma_combinations_from(nodes: Seq<Tree>, start: int)
    requires
        0 <= start <= nodes.len(),
        variation_count(nodes.skip(start)) > 0,
    ensures
        combinations(slots_from(nodes, start)) == expansions(nodes.skip(start)),
    decreases nodes.len() - start,
{
    if start < nodes.len() {
        lemma_slot_end(nodes, start, start + 1);
        let end = slot_boundary(nodes, start);
        let run = nodes.subrange(start, end);
        let rest = slots_from(nodes, end);
        assert(nodes.skip(start) =~= run + nodes.skip(end));
        lemma_count_concat(run, nodes.skip(end));
        lemma_expansions_len(run);
        assert(variation_count(run) > 0 && variation_count(nodes.skip(end)) > 0)
            by (nonlinear_arith)
            requires
                variation_count(run) * variation_count(nodes.skip(end)) > 0,
        ;
        lemma_combinations_from(nodes, end);
        lemma_expansions_concat(run, nodes.skip(end));
        let slots = seq![expansions(run)] + rest;
        assert(slots[0] == expansions(run));
        assert(slots.drop_first() =~= rest);
    } else {
        assert(nodes.skip(start).len() == 0);
        assert(slots_from(nodes, start).len() == 0);
    }
}

/// There are as many combinations as the product of the slot sizes, and the
/// message of a valid selection is the combination at its index.
pub proof fn lemma_message_is_combination(slots: Seq<Seq<Seq<u8>>>, selection: Seq<nat>)
    requires
        valid_selection(slot_sizes(slots), selection),
    ensures
        combinations(slots).len() == space_size(slots),
        major_index(slot_sizes(slots), selection) < combinations(slots).len(),
        combinations(slots)[major_index(slot_sizes(slots), selection) as int] == assemble(
            slots,
            selection,
        ),
    decreases slots.len(),
{
    let sizes = slot_sizes(slots);
    if slots.len() == 0 {
        assert(assemble(slots, selection) =~= Seq::<u8>::empty());
    } else {
        let rest = slots.drop_first();
        let tail = selection.drop_first();
        assert(sizes.drop_first() =~= slot_sizes(rest));
        assert(sizes[0] == slots[0].len());
        assert forall|i: int| 0 <= i < rest.len() implies tail[i] < slot_sizes(rest)[i] by {
            assert(tail[i] == selection[i + 1]);
            assert(slot_sizes(rest)[i] == sizes[i + 1]);
        }
        lemma_message_is_combination(rest, tail);
        let inner = combinations(rest);
        lemma_cross_len(slots[0], inner);
        lemma_cross_index(
            slots[0],
            inner,
            selection[0] as int,
            major_index(slot_sizes(rest), tail) as int,
        );
    }
}

/// Below the product of positive sizes, every number is the index of a valid
/// selection.
pub proof fn lemma_selection_of(sizes: Seq<nat>, m: nat)
    requires
        positive(sizes),
        m < product(sizes),
    ensures
        valid_selection(sizes, selection_of(sizes, m)),
        major_index(sizes, selection_of(sizes, m)) == m,
    decreases sizes.len(),
{
    if sizes.len() > 0 {
        let rest = sizes.drop_first();
        assert(positive(rest)) by {
            assert forall|i: int| 0 <= i < rest.len() implies rest[i] > 0 by {
                assert(rest[i] == sizes[i + 1]);
            }
        }
        lemma_product_positive(rest);
        let inner = product(rest);
        let high = m / inner;
        let low = m % inner;
        lemma_fundamental_div_mod(m as int, inner as int);
        assert(0 <= low < inner && 0 <= high < sizes[0]) by (nonlinear_arith)
            requires
                m == inner * high + low,
                low == m % inner,
                high == m / inner,
                inner > 0,
                m < sizes[0] * inner,
        ;
        lemma_selection_of(rest, low);
        let selection = selection_of(sizes, m);
        assert(selection.drop_first() =~= selection_of(rest, low));
        assert forall|i: int| 0 <= i < sizes.len() implies selection[i] < sizes[i] by {
            if i > 0 {
                assert(selection[i] == selection_of(rest, low)[i - 1]);
                assert(sizes[i] == rest[i - 1]);
            }
        }
        assert(high * inner + low == m) by (nonlinear_arith)
            requires
                m == inner * high + low,
        ;
    }
}

/// Every candidate of a template's slots is one of the byte strings that the
/// template expands to.
pub proof fn lemma_candidates_are_expansions(nodes: Seq<Tree>, k: nat)
    requires
        variation_count(nodes) > 0,
    ensures
        expansions(nodes).contains(candidate(compiled(nodes), k)),
{
    let slots = compiled(nodes);
    let sizes = slot_sizes(slots);
    lemma_space_of_compiled(nodes);
    lemma_positive_of_product(sizes);
    lemma_digits_valid(sizes, k);
    lemma_message_is_combination(slots, digits(sizes, k));
    lemma_combinations_of_compiled(nodes);
    let at = major_index(sizes, digits(sizes, k)) as int;
    assert(expansions(nodes)[at] == candidate(slots, k));
}

/// Every byte string that a template expands to is the candidate at some
/// flat index below the number of candidates.
pub proof fn lemma_expansions_are_candidates(nodes: Seq<Tree>, m: nat)
    requires
        m < expansions(nodes).len(),
    ensures
        exists|k: nat|
            k < space_size(compiled(nodes)) && #[trigger] candidate(compiled(nodes), k)
                == expansions(nodes)[m as int],
{
    let slots = compiled(nodes);
    let sizes = slot_sizes(slots);
    lemma_expansions_len(nodes);
    lemma_space_of_compiled(nodes);
    lemma_positive_of_product(sizes);
    lemma_selection_of(sizes, m);
    let selection = selection_of(sizes, m);
    lemma_message_is_combination(slots, selection);
    lemma_combinations_of_compiled(nodes);
    lemma_digits_of_flat_index(sizes, selection);
    let k = flat_index(sizes, selection);
    assert(candidate(slots, k) == expansions(nodes)[m as int]);
}

} // verus!
