//! Counting and enumerating what a run of template nodes expands to.

use vstd::prelude::*;
use vstd::slice::slice_subrange;
use crate::slot::{append_bytes, rows};
use crate::template::{alternatives_model, models, Node, Tree};

verus! {

/// How many byte strings a run of nodes expands to: the product of what its
/// nodes contribute.
pub open spec fn variation_count(nodes: Seq<Tree>) -> nat
    decreases nodes,
{
    if nodes.len() == 0 {
        1
    } else {
        node_count(nodes[0]) * variation_count(nodes.drop_first())
    }
}

/// What one node contributes: a literal one string, a choice group as many
/// as its alternatives together.
pub open spec fn node_count(node: Tree) -> nat
    decreases node,
{
    match node {
        Tree::Literal(_) => 1,
        Tree::Choice(alternatives) => alternatives_count(alternatives),
    }
}

/// The sum of what the alternatives of a group expand to.
pub open spec fn alternatives_count(alternatives: Seq<Seq<Tree>>) -> nat
    decreases alternatives,
{
    if alternatives.len() == 0 {
        0
    } else {
        variation_count(alternatives[0]) + alternatives_count(alternatives.drop_first())
    }
}

/// Each of `suffixes` with `prefix` in front.
pub open spec fn attach(prefix: Seq<u8>, suffixes: Seq<Seq<u8>>) -> Seq<Seq<u8>> {
    Seq::new(suffixes.len(), |i: int| prefix + suffixes[i])
}

/// Every prefix followed by every suffix: all of the first prefix, then all
/// of the second, and so on.
pub open spec fn cross(prefixes: Seq<Seq<u8>>, suffixes: Seq<Seq<u8>>) -> Seq<Seq<u8>>
    decreases prefixes.len(),
{
    if prefixes.len() == 0 {
        Seq::empty()
    } else {
        attach(prefixes[0], suffixes) + cross(prefixes.drop_first(), suffixes)
    }
}

/// The byte strings that a run of nodes expands to, depth first and with the
/// alternatives of each group from left to right.
pub open spec fn expansions(nodes: Seq<Tree>) -> Seq<Seq<u8>>
    decreases nodes,
{
    if nodes.len() == 0 {
        seq![Seq::empty()]
    } else {
        let rest = expansions(nodes.drop_first());
        match nodes[0] {
            Tree::Literal(text) => attach(text, rest),
            Tree::Choice(alternatives) => cross(alternatives_expansions(alternatives), rest),
        }
    }
}

/// What the alternatives of a group expand to, one alternative after the
/// other.
pub open spec fn alternatives_expansions(alternatives: Seq<Seq<Tree>>) -> Seq<Seq<u8>>
    decreases alternatives,
{
    if alternatives.len() == 0 {
        Seq::empty()
    } else {
        expansions(alternatives[0]) + alternatives_expansions(alternatives.drop_first())
    }
}

/// `n`, or `max` where `n` is larger.
pub open spec fn capped(n: nat, max: nat) -> nat {
    if n > max {
        max
    } else {
        n
    }
}

/// Capping the factors first does not change a capped product.
pub proof fn lemma_capped_product(a: nat, b: nat, max: nat)
    ensures
        capped(capped(a, max) * capped(b, max), max) == capped(a * b, max),
{
    assert(capped(capped(a, max) * capped(b, max), max) == capped(a * b, max))
        by (nonlinear_arith)
        requires
            capped(a, max) == if a > max { max } else { a },
            capped(b, max) == if b > max { max } else { b },
            capped(capped(a, max) * capped(b, max), max) == if capped(a, max) * capped(b, max)
                > max { max } else { capped(a, max) * capped(b, max) },
            capped(a * b, max) == if a * b > max { max } else { a * b },
    ;
}

/// The trees of a part of a run are that part of the run's trees.
pub proof fn lemma_models_subrange(nodes: Seq<Node>, from: int, to: int)
    requires
        0 <= from <= to <= nodes.len(),
    ensures
        models(nodes.subrange(from, to)) == models(nodes).subrange(from, to),
{
    assert(models(nodes.subrange(from, to)) =~= models(nodes).subrange(from, to));
}

/// The count of the nodes from `i` on is what node `i` contributes times the
/// count of the nodes after it.
pub proof fn lemma_count_step(nodes: Seq<Tree>, i: int)
    requires
        0 <= i < nodes.len(),
    ensures
        variation_count(nodes.skip(i)) == node_count(nodes[i]) * variation_count(nodes.skip(i + 1)),
{
    assert(nodes.skip(i).drop_first() =~= nodes.skip(i + 1));
}

/// `a * b`, or `usize::MAX` where that is too large.
fn saturating_product(a: usize, b: usize) -> (p: usize)
    ensures
        p == capped((a * b) as nat, usize::MAX as nat),
{
    match a.checked_mul(b) {
        Some(p) => p,
        None => usize::MAX,
    }
}

/// How many byte strings `nodes` expand to, or `usize::MAX` where the number
/// is larger than that.
pub fn count_variations(nodes: &[Node]) -> (n: usize)
    ensures
        n == capped(variation_count(models(nodes@)), usize::MAX as nat),
    decreases nodes@,
{
    let ghost trees = models(nodes@);
    let ghost mut exact: nat = 1;
    let mut acc: usize = 1;
    let mut i: usize = 0;
    assert(trees.skip(0) =~= trees);
    while i < nodes.len()
        invariant
            i <= nodes.len(),
            trees == models(nodes@),
            acc == capped(exact, usize::MAX as nat),
            variation_count(trees) == exact * variation_count(trees.skip(i as int)),
        decreases nodes.len() - i,
    {
        let multiplier: usize = match &nodes[i] {
            Node::Literal(_) => 1,
            Node::Choice(alternatives) => count_alternatives(alternatives.as_slice()),
        };
        proof {
            let here = node_count(trees[i as int]);
            let after = variation_count(trees.skip(i + 1));
            assert(multiplier == capped(here, usize::MAX as nat));
            lemma_count_step(trees, i as int);
            lemma_capped_product(exact, here, usize::MAX as nat);
            assert(exact * (here * after) == (exact * here) * after) by (nonlinear_arith);
            exact = exact * here;
        }
        acc = saturating_product(acc, multiplier);
        i += 1;
    }
    proof {
        assert(trees.skip(i as int).len() == 0);
        assert(variation_count(trees.skip(i as int)) == 1);
        assert(exact * 1 == exact) by (nonlinear_arith);
    }
    acc
}

/// How many byte strings the alternatives of a group expand to together, or
/// `usize::MAX` where the number is larger than that.
pub fn count_alternatives(alternatives: &[Vec<Node>]) -> (n: usize)
    ensures
        n == capped(
            alternatives_count(alternatives_model(alternatives@)),
            usize::MAX as nat,
        ),
    decreases alternatives@,
{
    let ghost trees = alternatives_model(alternatives@);
    let ghost mut exact: nat = 0;
    let mut acc: usize = 0;
    let mut i: usize = 0;
    assert(trees.skip(0) =~= trees);
    while i < alternatives.len()
        invariant
            i <= alternatives.len(),
            trees == alternatives_model(alternatives@),
            acc == capped(exact, usize::MAX as nat),
            alternatives_count(trees) == exact + alternatives_count(trees.skip(i as int)),
        decreases alternatives.len() - i,
    {
        let part: usize = count_variations(alternatives[i].as_slice());
        proof {
            assert(trees.skip(i as int).drop_first() =~= trees.skip(i + 1));
            exact = exact + variation_count(trees[i as int]);
        }
        acc = acc.saturating_add(part);
        i += 1;
    }
    assert(trees.skip(i as int).len() == 0);
    acc
}

/// Appends to `out` each of `suffixes` with `prefix` in front.
fn attach_to(prefix: &[u8], suffixes: &Vec<Vec<u8>>, out: &mut Vec<Vec<u8>>)
    ensures
        rows(final(out)@) == rows(old(out)@) + attach(prefix@, rows(suffixes@)),
{
    let ghost before = rows(out@);
    let ghost target = attach(prefix@, rows(suffixes@));
    let mut i: usize = 0;
    assert(rows(out@) =~= before + target.take(0));
    while i < suffixes.len()
        invariant
            i <= suffixes.len(),
            target == attach(prefix@, rows(suffixes@)),
            rows(out@) == before + target.take(i as int),
        decreases suffixes.len() - i,
    {
        let mut item: Vec<u8> = Vec::new();
        append_bytes(&mut item, prefix);
        append_bytes(&mut item, suffixes[i].as_slice());
        let ghost grown = rows(out@);
        out.push(item);
        assert(item@ =~= prefix@ + suffixes@[i as int]@);
        assert(rows(out@) =~= grown.push(item@));
        assert(target.take(i + 1) =~= target.take(i as int).push(target[i as int]));
        assert(rows(out@) =~= before + target.take(i + 1));
        i += 1;
    }
    assert(target.take(i as int) =~= target);
}

/// Every prefix followed by every suffix, prefix by prefix.
fn cross_product(prefixes: &Vec<Vec<u8>>, suffixes: &Vec<Vec<u8>>) -> (out: Vec<Vec<u8>>)
    ensures
        rows(out@) == cross(rows(prefixes@), rows(suffixes@)),
{
    let ghost all = rows(prefixes@);
    let mut out: Vec<Vec<u8>> = Vec::new();
    let mut i: usize = 0;
    assert(all.skip(0) =~= all);
    assert(rows(out@) + cross(all, rows(suffixes@)) =~= cross(all, rows(suffixes@)));
    while i < prefixes.len()
        invariant
            i <= prefixes.len(),
            all == rows(prefixes@),
            cross(all, rows(suffixes@)) == rows(out@) + cross(
                all.skip(i as int),
                rows(suffixes@),
            ),
        decreases prefixes.len() - i,
    {
        let ghost grown = rows(out@);
        attach_to(prefixes[i].as_slice(), suffixes, &mut out);
        proof {
            let tail = all.skip(i as int);
            let block = attach(tail[0], rows(suffixes@));
            let after = cross(all.skip(i + 1), rows(suffixes@));
            assert(tail.drop_first() =~= all.skip(i + 1));
            assert(grown + (block + after) =~= (grown + block) + after);
        }
        i += 1;
    }
    assert(all.skip(i as int).len() == 0);
    assert(rows(out@) + Seq::<Seq<u8>>::empty() =~= rows(out@));
    out
}

/// What the alternatives of a group expand to, one alternative after the
/// other.
pub fn expand_alternatives(alternatives: &[Vec<Node>]) -> (out: Vec<Vec<u8>>)
    ensures
        rows(out@) == alternatives_expansions(alternatives_model(alternatives@)),
    decreases alternatives@,
{
    let ghost trees = alternatives_model(alternatives@);
    let mut out: Vec<Vec<u8>> = Vec::new();
    let mut i: usize = 0;
    assert(trees.skip(0) =~= trees);
    assert(rows(out@) + alternatives_expansions(trees) =~= alternatives_expansions(trees));
    while i < alternatives.len()
        invariant
            i <= alternatives.len(),
            trees == alternatives_model(alternatives@),
            alternatives_expansions(trees) == rows(out@) + alternatives_expansions(
                trees.skip(i as int),
            ),
        decreases alternatives.len() - i,
    {
        let mut part: Vec<Vec<u8>> = expand_to_strings(alternatives[i].as_slice());
        let ghost grown = rows(out@);
        let ghost block = rows(part@);
        out.append(&mut part);
        proof {
            let after = alternatives_expansions(trees.skip(i + 1));
            assert(trees.skip(i as int).drop_first() =~= trees.skip(i + 1));
            assert(rows(out@) =~= grown + block);
            assert(grown + (block + after) =~= (grown + block) + after);
        }
        i += 1;
    }
    assert(trees.skip(i as int).len() == 0);
    assert(rows(out@) + Seq::<Seq<u8>>::empty() =~= rows(out@));
    out
}

/// Every byte string that `nodes` can stand for, depth first and with the
/// alternatives of each group from left to right.
pub fn expand_to_strings(nodes: &[Node]) -> (out: Vec<Vec<u8>>)
    ensures
        rows(out@) == expansions(models(nodes@)),
    decreases nodes@,
{
    if nodes.len() == 0 {
        let mut out: Vec<Vec<u8>> = Vec::new();
        out.push(Vec::new());
        assert(rows(out@) =~= seq![Seq::<u8>::empty()]);
        return out;
    }
    let rest: Vec<Vec<u8>> = expand_to_strings(slice_subrange(nodes, 1, nodes.len()));
    proof {
        lemma_models_subrange(nodes@, 1, nodes@.len() as int);
        assert(models(nodes@).drop_first() =~= models(nodes@).subrange(1, nodes@.len() as int));
    }
    match &nodes[0] {
        Node::Literal(text) => {
            let mut out: Vec<Vec<u8>> = Vec::new();
            attach_to(text.as_slice(), &rest, &mut out);
            assert(rows(out@) =~= attach(text@, rows(rest@)));
            out
        },
        Node::Choice(alternatives) => {
            let prefixes: Vec<Vec<u8>> = expand_alternatives(alternatives.as_slice());
            cross_product(&prefixes, &rest)
        },
    }
}

/// Every prefix is followed by every suffix: a cross product has as many
/// members as the product of the two lengths.
pub proof fn lemma_cross_len(prefixes: Seq<Seq<u8>>, suffixes: Seq<Seq<u8>>)
    ensures
        cross(prefixes, suffixes).len() == prefixes.len() * suffixes.len(),
    decreases prefixes.len(),
{
    if prefixes.len() > 0 {
        lemma_cross_len(prefixes.drop_first(), suffixes);
        assert(suffixes.len() + (prefixes.len() - 1) * suffixes.len() == prefixes.len()
            * suffixes.len()) by (nonlinear_arith);
    } else {
        assert(0 * suffixes.len() == 0) by (nonlinear_arith);
    }
}

/// A run of nodes expands to as many byte strings as its count says.
pub proof fn lemma_expansions_len(nodes: Seq<Tree>)
    ensures
        expansions(nodes).len() == variation_count(nodes),
    decreases nodes,
{
    if nodes.len() > 0 {
        let rest = nodes.drop_first();
        lemma_expansions_len(rest);
        match nodes[0] {
            Tree::Literal(text) => {
                assert(expansions(nodes) == attach(text, expansions(rest)));
                assert(node_count(nodes[0]) == 1);
                assert(1 * variation_count(rest) == variation_count(rest)) by (nonlinear_arith);
            },
            Tree::Choice(alternatives) => {
                lemma_alternatives_expansions_len(alternatives);
                lemma_cross_len(alternatives_expansions(alternatives), expansions(rest));
                assert(expansions(nodes) == cross(
                    alternatives_expansions(alternatives),
                    expansions(rest),
                ));
                assert(node_count(nodes[0]) == alternatives_count(alternatives));
            },
        }
    }
}

/// The alternatives of a group expand to as many byte strings as their
/// count says.
pub proof fn lemma_alternatives_expansions_len(alternatives: Seq<Seq<Tree>>)
    ensures
        alternatives_expansions(alternatives).len() == alternatives_count(alternatives),
    decreases alternatives,
{
    if alternatives.len() > 0 {
        lemma_expansions_len(alternatives[0]);
        lemma_alternatives_expansions_len(alternatives.drop_first());
    }
}

/// The count of two runs joined is the product of their counts.
pub proof fn lemma_count_concat(front: Seq<Tree>, back: Seq<Tree>)
    ensures
        variation_count(front + back) == variation_count(front) * variation_count(back),
    decreases front.len(),
{
    if front.len() == 0 {
        assert(front + back =~= back);
        assert(1 * variation_count(back) == variation_count(back)) by (nonlinear_arith);
    } else {
        let rest = front.drop_first();
        assert((front + back).drop_first() =~= rest + back);
        lemma_count_concat(rest, back);
        let first = node_count(front[0]);
        assert(first * (variation_count(rest) * variation_count(back)) == (first
            * variation_count(rest)) * variation_count(back)) by (nonlinear_arith);
    }
}

/// A prefix in front of two lists is the prefix in front of each.
pub proof fn lemma_attach_concat(prefix: Seq<u8>, front: Seq<Seq<u8>>, back: Seq<Seq<u8>>)
    ensures
        attach(prefix, front + back) == attach(prefix, front) + attach(prefix, back),
{
    assert(attach(prefix, front + back) =~= attach(prefix, front) + attach(prefix, back));
}

/// Two prefixes in front, one after the other, are their concatenation in
/// front.
pub proof fn lemma_attach_attach(outer: Seq<u8>, inner: Seq<u8>, suffixes: Seq<Seq<u8>>)
    ensures
        attach(outer, attach(inner, suffixes)) == attach(outer + inner, suffixes),
{
    let left = attach(outer, attach(inner, suffixes));
    let right = attach(outer + inner, suffixes);
    assert forall|i: int| 0 <= i < left.len() implies left[i] == right[i] by {
        assert(outer + (inner + suffixes[i]) =~= (outer + inner) + suffixes[i]);
    }
    assert(left =~= right);
}

/// The cross product of two lists of prefixes, one after the other, is the
/// cross product of the first followed by that of the second.
pub proof fn lemma_cross_concat(front: Seq<Seq<u8>>, back: Seq<Seq<u8>>, suffixes: Seq<Seq<u8>>)
    ensures
        cross(front + back, suffixes) == cross(front, suffixes) + cross(back, suffixes),
    decreases front.len(),
{
    if front.len() == 0 {
        assert(front + back =~= back);
        assert(cross(front, suffixes) + cross(back, suffixes) =~= cross(back, suffixes));
    } else {
        let all = front + back;
        assert(all[0] == front[0]);
        assert(all.drop_first() =~= front.drop_first() + back);
        lemma_cross_concat(front.drop_first(), back, suffixes);
        assert(attach(front[0], suffixes) + (cross(front.drop_first(), suffixes) + cross(
            back,
            suffixes,
        )) =~= (attach(front[0], suffixes) + cross(front.drop_first(), suffixes)) + cross(
            back,
            suffixes,
        ));
    }
}

/// A prefix in front of every member of a cross product can be put in front
/// of the prefixes first.
pub proof fn lemma_cross_attach(prefix: Seq<u8>, middles: Seq<Seq<u8>>, suffixes: Seq<Seq<u8>>)
    ensures
        cross(attach(prefix, middles), suffixes) == attach(prefix, cross(middles, suffixes)),
    decreases middles.len(),
{
    let fronts = attach(prefix, middles);
    if middles.len() == 0 {
        assert(attach(prefix, cross(middles, suffixes)) =~= Seq::<Seq<u8>>::empty());
    } else {
        let rest = middles.drop_first();
        assert(fronts[0] == prefix + middles[0]);
        assert(fronts.drop_first() =~= attach(prefix, rest));
        lemma_cross_attach(prefix, rest, suffixes);
        lemma_attach_attach(prefix, middles[0], suffixes);
        lemma_attach_concat(prefix, attach(middles[0], suffixes), cross(rest, suffixes));
    }
}

/// Cross products can be taken in either grouping.
pub proof fn lemma_cross_assoc(
    prefixes: Seq<Seq<u8>>,
    middles: Seq<Seq<u8>>,
    suffixes: Seq<Seq<u8>>,
)
    ensures
        cross(cross(prefixes, middles), suffixes) == cross(prefixes, cross(middles, suffixes)),
    decreases prefixes.len(),
{
    if prefixes.len() > 0 {
        let rest = prefixes.drop_first();
        lemma_cross_concat(attach(prefixes[0], middles), cross(rest, middles), suffixes);
        lemma_cross_attach(prefixes[0], middles, suffixes);
        lemma_cross_assoc(rest, middles, suffixes);
    }
}

/// Two runs joined expand to every expansion of the first followed by every
/// expansion of the second.
pub proof fn lemma_expansions_concat(front: Seq<Tree>, back: Seq<Tree>)
    ensures
        expansions(front + back) == cross(expansions(front), expansions(back)),
    decreases front.len(),
{
    if front.len() == 0 {
        assert(front + back =~= back);
        let only = expansions(front);
        assert(only.drop_first().len() == 0);
        assert(attach(only[0], expansions(back)) =~= expansions(back)) by {
            assert forall|i: int| 0 <= i < expansions(back).len() implies only[0] + expansions(
                back,
            )[i] == expansions(back)[i] by {
                assert(only[0] + expansions(back)[i] =~= expansions(back)[i]);
            }
        }
        assert(only.len() == 1);
        assert(cross(only.drop_first(), expansions(back)) =~= Seq::<Seq<u8>>::empty());
        assert(cross(only, expansions(back)) == attach(only[0], expansions(back)) + cross(
            only.drop_first(),
            expansions(back),
        ));
        assert(cross(only, expansions(back)) =~= expansions(back));
    } else {
        let rest = front.drop_first();
        let all = front + back;
        assert(all[0] == front[0]);
        assert(all.drop_first() =~= rest + back);
        lemma_expansions_concat(rest, back);
        match front[0] {
            Tree::Literal(text) => {
                lemma_cross_attach(text, expansions(rest), expansions(back));
            },
            Tree::Choice(alternatives) => {
                lemma_cross_assoc(
                    alternatives_expansions(alternatives),
                    expansions(rest),
                    expansions(back),
                );
            },
        }
    }
}

/// Member `i * suffixes.len() + j` of a cross product is prefix `i` followed
/// by suffix `j`.
pub proof fn lemma_cross_index(prefixes: Seq<Seq<u8>>, suffixes: Seq<Seq<u8>>, i: int, j: int)
    requires
        0 <= i < prefixes.len(),
        0 <= j < suffixes.len(),
    ensures
        0 <= i * suffixes.len() + j < cross(prefixes, suffixes).len(),
        cross(prefixes, suffixes)[i * suffixes.len() + j] == prefixes[i] + suffixes[j],
    decreases prefixes.len(),
{
    lemma_cross_len(prefixes, suffixes);
    let width = suffixes.len() as int;
    assert(0 <= i * width + j < prefixes.len() * width) by (nonlinear_arith)
        requires
            0 <= i < prefixes.len(),
            0 <= j < width,
    ;
    if i > 0 {
        lemma_cross_index(prefixes.drop_first(), suffixes, i - 1, j);
        assert((i - 1) * width + j == i * width + j - width) by (nonlinear_arith);
    }
}

} // verus!
