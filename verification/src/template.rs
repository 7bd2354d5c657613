//! The template language: literal text and nested choice groups.
//!
//! `{a|b|c}` is a choice between alternatives, alternatives may hold further
//! groups, and a backslash in front of `{`, `}`, `|` or `\` makes that byte
//! literal.

use vstd::prelude::*;
use vstd::string::StringSliceAdditionalSpecFns;

verus! {

/// `\`
pub const BACKSLASH: u8 = 0x5c;

/// `{`
pub const OPEN: u8 = 0x7b;

/// `|`
pub const BAR: u8 = 0x7c;

/// `}`
pub const CLOSE: u8 = 0x7d;

/// One node of a parsed template.
#[derive(Debug, PartialEq, Eq)]
pub enum Node {
    /// Bytes emitted as they are.
    Literal(Vec<u8>),
    /// Alternatives, of which an instantiation takes exactly one.
    Choice(Vec<Vec<Node>>),
}

/// The mathematical value of a [`Node`].
pub enum Tree {
    Literal(Seq<u8>),
    Choice(Seq<Seq<Tree>>),
}

/// Why a template was rejected.
#[derive(Debug, Clone, Copy, PartialEq, Eq)]
pub enum ParseError {
    /// The input ended inside a choice group.
    UnclosedBrace,
}

impl ParseError {
    /// A one-line description for the user.
    pub fn message(&self) -> (text: &'static str)
        ensures
            text@ == "Unclosed brace in template"@,
    {
        "Unclosed brace in template"
    }
}

impl Node {
    /// The tree this node stands for.
    pub open spec fn model(self) -> Tree
        decreases self,
    {
        match self {
            Node::Literal(text) => Tree::Literal(text@),
            Node::Choice(alternatives) => Tree::Choice(alternatives_model(alternatives@)),
        }
    }
}

/// The trees of a run of nodes.
pub open spec fn models(nodes: Seq<Node>) -> Seq<Tree>
    decreases nodes,
{
    Seq::new(
        nodes.len(),
        |i: int|
            if 0 <= i < nodes.len() {
                nodes[i].model()
            } else {
                arbitrary()
            },
    )
}

/// The trees of the alternatives of a choice group.
pub open spec fn alternatives_model(alternatives: Seq<Vec<Node>>) -> Seq<Seq<Tree>>
    decreases alternatives,
{
    Seq::new(
        alternatives.len(),
        |i: int|
            if 0 <= i < alternatives.len() {
                models(alternatives[i]@)
            } else {
                arbitrary()
            },
    )
}

/// Whether `b` is one of the four bytes that a backslash can escape.
pub open spec fn is_special(b: u8) -> bool {
    b == OPEN || b == CLOSE || b == BAR || b == BACKSLASH
}

/// Whether an escape pair (a backslash and a special byte) starts at `pos`.
pub open spec fn escape_at(s: Seq<u8>, pos: int) -> bool {
    &&& 0 <= pos
    &&& pos + 1 < s.len()
    &&& s[pos] == BACKSLASH
    &&& is_special(s[pos + 1])
}

/// The delimiters that end an alternative inside a choice group.
pub open spec fn alternative_stops() -> Seq<u8> {
    seq![BAR, CLOSE]
}

/// `rest` with the literal bytes `text` in front: they join a literal that
/// `rest` starts with, and are a node of their own otherwise.
pub open spec fn with_leading_text(text: Seq<u8>, rest: Seq<Tree>) -> Seq<Tree> {
    if text.len() == 0 {
        rest
    } else if rest.len() > 0 && rest[0] is Literal {
        seq![Tree::Literal(text + rest[0]->Literal_0)] + rest.drop_first()
    } else {
        seq![Tree::Literal(text)] + rest
    }
}

/// A parse that continues after one literal byte.
pub open spec fn after_byte(b: u8, rest: Option<(Seq<Tree>, int)>) -> Option<(Seq<Tree>, int)> {
    match rest {
        Some((trees, end)) => Some((with_leading_text(seq![b], trees), end)),
        None => None,
    }
}

/// A parse that continues after one finished node.
pub open spec fn after_node(node: Tree, rest: Option<(Seq<Tree>, int)>) -> Option<
    (Seq<Tree>, int),
> {
    match rest {
        Some((trees, end)) => Some((seq![node] + trees, end)),
        None => None,
    }
}

/// The sequence of nodes that starts at `pos` and runs to the end of the
/// input or to the first unescaped byte of `stop`, with the position where it
/// ends. `None` means that a choice group inside it is never closed.
///
/// The comparisons of a position with the one before it never fail (see
/// [`lemma_sequence_bounds`]); they let the definition be seen to terminate.
pub open spec fn sequence_at(s: Seq<u8>, pos: int, stop: Seq<u8>) -> Option<(Seq<Tree>, int)>
    decreases s.len() - pos, 0int,
{
    if pos < 0 || pos >= s.len() {
        Some((Seq::empty(), pos))
    } else if escape_at(s, pos) {
        after_byte(s[pos + 1], sequence_at(s, pos + 2, stop))
    } else if stop.contains(s[pos]) {
        Some((Seq::empty(), pos))
    } else if s[pos] == OPEN {
        match choice_at(s, pos + 1) {
            Some((group, after)) => if pos < after <= s.len() {
                after_node(group, sequence_at(s, after, stop))
            } else {
                None
            },
            None => None,
        }
    } else {
        after_byte(s[pos], sequence_at(s, pos + 1, stop))
    }
}

/// The alternatives of the choice group whose first alternative starts at
/// `pos`, with the position after the closing brace.
pub open spec fn alternatives_at(s: Seq<u8>, pos: int) -> Option<(Seq<Seq<Tree>>, int)>
    decreases s.len() - pos, 1int,
{
    match sequence_at(s, pos, alternative_stops()) {
        Some((first, end)) => if end < pos || end >= s.len() {
            None
        } else if s[end] == CLOSE {
            Some((seq![first], end + 1))
        } else {
            match alternatives_at(s, end + 1) {
                Some((more, after)) => Some((seq![first] + more, after)),
                None => None,
            }
        },
        None => None,
    }
}

/// The choice group whose opening brace stands just before `pos`.
pub open spec fn choice_at(s: Seq<u8>, pos: int) -> Option<(Tree, int)>
    decreases s.len() - pos, 2int,
{
    match alternatives_at(s, pos) {
        Some((alternatives, after)) => Some((Tree::Choice(alternatives), after)),
        None => None,
    }
}

/// The bytes from `pos` on, with each escape pair replaced by the byte that
/// it escapes.
pub open spec fn unescaped(s: Seq<u8>, pos: int) -> Seq<u8>
    decreases s.len() - pos,
{
    if pos < 0 || pos >= s.len() {
        Seq::empty()
    } else if escape_at(s, pos) {
        seq![s[pos + 1]] + unescaped(s, pos + 2)
    } else {
        seq![s[pos]] + unescaped(s, pos + 1)
    }
}

/// Whether no choice group opens from `pos` on: every opening brace there is
/// escaped.
pub open spec fn brace_free(s: Seq<u8>, pos: int) -> bool
    decreases s.len() - pos,
{
    if pos < 0 || pos >= s.len() {
        true
    } else if escape_at(s, pos) {
        brace_free(s, pos + 2)
    } else {
        s[pos] != OPEN && brace_free(s, pos + 1)
    }
}

/// The trees of a whole template, or `None` for an unclosed choice group.
pub open spec fn template_trees(s: Seq<u8>) -> Option<Seq<Tree>> {
    match sequence_at(s, 0, Seq::empty()) {
        Some((trees, _)) => Some(trees),
        None => None,
    }
}

/// Whether a run of trees is in the form that the parser builds: no literal
/// is empty, no two literals stand side by side, and every choice group has
/// an alternative, each in that form too.
pub open spec fn normal(trees: Seq<Tree>) -> bool
    decreases trees,
{
    &&& forall|i: int| 0 <= i < trees.len() ==> node_normal(#[trigger] trees[i])
    &&& forall|i: int|
        #![trigger trees[i]]
        0 <= i < trees.len() - 1 ==> !(trees[i] is Literal && trees[i + 1] is Literal)
}

/// Whether one tree is in the form that the parser builds.
pub open spec fn node_normal(tree: Tree) -> bool
    decreases tree,
{
    match tree {
        Tree::Literal(text) => text.len() > 0,
        Tree::Choice(alternatives) => alternatives.len() > 0 && forall|j: int|
            0 <= j < alternatives.len() ==> normal(#[trigger] alternatives[j]),
    }
}

/// A byte in front of a run in normal form leaves it in normal form.
pub proof fn lemma_leading_byte_normal(b: u8, rest: Seq<Tree>)
    requires
        normal(rest),
    ensures
        normal(with_leading_text(seq![b], rest)),
{
    let trees = with_leading_text(seq![b], rest);
    if rest.len() > 0 && rest[0] is Literal {
        assert forall|i: int| 0 <= i < trees.len() implies node_normal(#[trigger] trees[i]) by {
            if i > 0 {
                assert(trees[i] == rest[i]);
            }
        }
        assert forall|i: int| #![trigger trees[i]] 0 <= i < trees.len() - 1 implies !(trees[i]
            is Literal && trees[i + 1] is Literal) by {
            assert(trees[i + 1] == rest[i + 1]);
            if i > 0 {
                assert(trees[i] == rest[i]);
            } else {
                assert(!(rest[0] is Literal && rest[1] is Literal));
            }
        }
    } else {
        assert forall|i: int| 0 <= i < trees.len() implies node_normal(#[trigger] trees[i]) by {
            if i > 0 {
                assert(trees[i] == rest[i - 1]);
            }
        }
        assert forall|i: int| #![trigger trees[i]] 0 <= i < trees.len() - 1 implies !(trees[i]
            is Literal && trees[i + 1] is Literal) by {
            assert(trees[i + 1] == rest[i]);
            if i > 0 {
                assert(trees[i] == rest[i - 1]);
                assert(!(rest[i - 1] is Literal && rest[i] is Literal));
            }
        }
    }
}

/// What a sequence parses to is in normal form.
pub proof fn lemma_parsed_sequence_normal(s: Seq<u8>, pos: int, stop: Seq<u8>)
    requires
        0 <= pos <= s.len(),
    ensures
        sequence_at(s, pos, stop) matches Some((trees, _)) ==> normal(trees),
    decreases s.len() - pos, 0int,
{
    if pos >= s.len() || (!escape_at(s, pos) && stop.contains(s[pos])) {
    } else if !escape_at(s, pos) && s[pos] == OPEN {
        lemma_parsed_group_normal(s, pos + 1);
        if let Some((group, after)) = choice_at(s, pos + 1) {
            if pos < after <= s.len() {
                lemma_parsed_sequence_normal(s, after, stop);
                if let Some((rest, _)) = sequence_at(s, after, stop) {
                    let trees = seq![group] + rest;
                    assert forall|i: int| 0 <= i < trees.len() implies node_normal(
                        #[trigger] trees[i],
                    ) by {
                        if i > 0 {
                            assert(trees[i] == rest[i - 1]);
                        }
                    }
                    assert forall|i: int|
                        #![trigger trees[i]]
                        0 <= i < trees.len() - 1 implies !(trees[i] is Literal && trees[i + 1]
                        is Literal) by {
                        if i > 0 {
                            assert(trees[i] == rest[i - 1]);
                            assert(trees[i + 1] == rest[i]);
                            assert(!(rest[i - 1] is Literal && rest[i] is Literal));
                        }
                    }
                }
            }
        }
    } else {
        let step: int = if escape_at(s, pos) {
            2
        } else {
            1
        };
        lemma_parsed_sequence_normal(s, pos + step, stop);
        if let Some((rest, _)) = sequence_at(s, pos + step, stop) {
            lemma_leading_byte_normal(s[pos + step - 1], rest);
        }
    }
}

/// The alternatives that a choice group parses to are in normal form, and
/// there is at least one.
pub proof fn lemma_parsed_group_normal(s: Seq<u8>, pos: int)
    requires
        0 <= pos <= s.len(),
    ensures
        alternatives_at(s, pos) matches Some((alternatives, _)) ==> alternatives.len() > 0
            && forall|j: int| 0 <= j < alternatives.len() ==> normal(#[trigger] alternatives[j]),
        choice_at(s, pos) matches Some((group, _)) ==> node_normal(group),
    decreases s.len() - pos, 1int,
{
    lemma_parsed_sequence_normal(s, pos, alternative_stops());
    if let Some((first, end)) = sequence_at(s, pos, alternative_stops()) {
        if pos <= end < s.len() && s[end] != CLOSE {
            lemma_parsed_group_normal(s, end + 1);
            if let Some((more, _)) = alternatives_at(s, end + 1) {
                let all = seq![first] + more;
                assert forall|j: int| 0 <= j < all.len() implies normal(#[trigger] all[j]) by {
                    if j > 0 {
                        assert(all[j] == more[j - 1]);
                    }
                }
            }
        }
    }
}

/// What a template parses to is in normal form.
pub proof fn lemma_parsed_template_normal(s: Seq<u8>)
    ensures
        template_trees(s) matches Some(trees) ==> normal(trees),
{
    lemma_parsed_sequence_normal(s, 0, Seq::empty());
}

/// What a parse amounts to when `done` is finished, the literal bytes
/// `pending` are not yet a node, and `rest` is the parse of what follows.
pub open spec fn resumed(done: Seq<Tree>, pending: Seq<u8>, rest: Option<(Seq<Tree>, int)>) -> Option<
    (Seq<Tree>, int),
> {
    match rest {
        Some((trees, end)) => Some((done + with_leading_text(pending, trees), end)),
        None => None,
    }
}

/// What a group amounts to when the alternatives `done` are finished and
/// `rest` is the parse of the remaining ones.
pub open spec fn resumed_group(done: Seq<Seq<Tree>>, rest: Option<(Seq<Seq<Tree>>, int)>) -> Option<
    (Seq<Seq<Tree>>, int),
> {
    match rest {
        Some((more, end)) => Some((done + more, end)),
        None => None,
    }
}

/// Putting bytes in front one at a time is putting them in front together.
pub proof fn lemma_leading_text_push(text: Seq<u8>, b: u8, rest: Seq<Tree>)
    ensures
        with_leading_text(text, with_leading_text(seq![b], rest)) == with_leading_text(
            text.push(b),
            rest,
        ),
{
    let one = with_leading_text(seq![b], rest);
    if rest.len() > 0 && rest[0] is Literal {
        let tail = rest[0]->Literal_0;
        assert(one.drop_first() =~= rest.drop_first());
        assert(text + (seq![b] + tail) =~= text.push(b) + tail);
        assert(seq![b] + tail =~= Seq::<u8>::empty().push(b) + tail);
    } else {
        assert(one.drop_first() =~= rest);
        assert(text + seq![b] =~= text.push(b));
        assert(seq![b] =~= Seq::<u8>::empty().push(b));
    }
    assert(with_leading_text(text, one) =~= with_leading_text(text.push(b), rest));
}

/// A sequence ends at or after its start and inside the input; a choice
/// group ends after its start.
pub proof fn lemma_sequence_bounds(s: Seq<u8>, pos: int, stop: Seq<u8>)
    requires
        0 <= pos <= s.len(),
    ensures
        sequence_at(s, pos, stop) matches Some((_, end)) ==> pos <= end <= s.len(),
    decreases s.len() - pos, 0int,
{
    if pos >= s.len() {
    } else if escape_at(s, pos) {
        lemma_sequence_bounds(s, pos + 2, stop);
    } else if stop.contains(s[pos]) {
    } else if s[pos] == OPEN {
        match choice_at(s, pos + 1) {
            Some((_, after)) => {
                if pos < after <= s.len() {
                    lemma_sequence_bounds(s, after, stop);
                }
            },
            None => {},
        }
    } else {
        lemma_sequence_bounds(s, pos + 1, stop);
    }
}

/// A choice group that parses ends after its start and inside the input.
pub proof fn lemma_alternatives_bounds(s: Seq<u8>, pos: int)
    requires
        0 <= pos <= s.len(),
    ensures
        alternatives_at(s, pos) matches Some((_, after)) ==> pos < after <= s.len(),
        choice_at(s, pos) matches Some((_, after)) ==> pos < after <= s.len(),
    decreases s.len() - pos, 1int,
{
    lemma_sequence_bounds(s, pos, alternative_stops());
    match sequence_at(s, pos, alternative_stops()) {
        Some((_, end)) => {
            if pos <= end < s.len() && s[end] != CLOSE {
                lemma_alternatives_bounds(s, end + 1);
            }
        },
        None => {},
    }
}

/// Whether `b` occurs in `set`.
fn contains_byte(set: &[u8], b: u8) -> (found: bool)
    ensures
        found == set@.contains(b),
{
    let mut i: usize = 0;
    while i < set.len()
        invariant
            i <= set.len(),
            forall|j: int| 0 <= j < i ==> set@[j] != b,
        decreases set.len() - i,
    {
        if set[i] == b {
            return true;
        }
        i += 1;
    }
    false
}

/// Turns the pending literal bytes, if there are any, into a node at the end
/// of `nodes`.
pub fn flush_literal(literal: &mut Vec<u8>, nodes: &mut Vec<Node>)
    ensures
        final(literal)@.len() == 0,
        models(final(nodes)@) == models(old(nodes)@) + with_leading_text(
            old(literal)@,
            Seq::empty(),
        ),
{
    if literal.len() > 0 {
        let mut text: Vec<u8> = Vec::new();
        core::mem::swap(literal, &mut text);
        let ghost before = nodes@;
        nodes.push(Node::Literal(text));
        assert(models(nodes@) =~= models(before) + seq![Tree::Literal(text@)]);
        assert(with_leading_text(text@, Seq::empty()) =~= seq![Tree::Literal(text@)]);
    } else {
        assert(models(nodes@) =~= models(nodes@) + Seq::<Tree>::empty());
    }
}

/// Parses nodes from `*pos` to the end of the input or to the first
/// unescaped byte of `stop_at`, and leaves `*pos` there.
pub fn parse_sequence(bytes: &[u8], pos: &mut usize, stop_at: &[u8]) -> (r: Result<
    Vec<Node>,
    ParseError,
>)
    requires
        *old(pos) <= bytes.len(),
    ensures
        match sequence_at(bytes@, *old(pos) as int, stop_at@) {
            Some((trees, end)) => r matches Ok(nodes) && models(nodes@) == trees && *final(pos)
                == end,
            None => r == Err::<Vec<Node>, ParseError>(ParseError::UnclosedBrace),
        },
        r is Ok ==> *old(pos) <= *final(pos) <= bytes.len(),
    decreases bytes.len() - *old(pos), 0int,
{
    let mut nodes: Vec<Node> = Vec::new();
    let mut literal: Vec<u8> = Vec::new();
    let ghost start: int = *pos as int;
    assert(with_leading_text(literal@, Seq::empty()) =~= Seq::<Tree>::empty());
    assert(models(nodes@) =~= Seq::<Tree>::empty());
    proof {
        let rest = sequence_at(bytes@, start, stop_at@);
        if let Some((trees, end)) = rest {
            assert(Seq::<Tree>::empty() + with_leading_text(Seq::<u8>::empty(), trees) =~= trees);
        }
    }
    while *pos < bytes.len()
        invariant
            start == *old(pos),
            start <= *pos <= bytes.len(),
            sequence_at(bytes@, start, stop_at@) == resumed(
                models(nodes@),
                literal@,
                sequence_at(bytes@, *pos as int, stop_at@),
            ),
        decreases bytes.len() - *pos,
    {
        let ghost here: int = *pos as int;
        let ghost done = models(nodes@);
        let ghost pending = literal@;
        let ch: u8 = bytes[*pos];
        let escaped: bool = ch == BACKSLASH && *pos + 1 < bytes.len() && is_special_byte(
            bytes[*pos + 1],
        );
        if escaped {
            let next: u8 = bytes[*pos + 1];
            literal.push(next);
            *pos += 2;
            proof {
                if let Some((trees, _)) = sequence_at(bytes@, here + 2, stop_at@) {
                    lemma_leading_text_push(pending, next, trees);
                }
            }
        } else if contains_byte(stop_at, ch) {
            flush_literal(&mut literal, &mut nodes);
            assert(sequence_at(bytes@, here, stop_at@) == Some((Seq::<Tree>::empty(), here)));
            return Ok(nodes);
        } else if ch == OPEN {
            flush_literal(&mut literal, &mut nodes);
            *pos += 1;
            match parse_choice(bytes, pos) {
                Ok(node) => {
                    let ghost flushed = models(nodes@);
                    nodes.push(node);
                    proof {
                        assert(models(nodes@) =~= flushed + seq![node.model()]);
                        if let Some((trees, _)) = sequence_at(bytes@, *pos as int, stop_at@) {
                            let tail = seq![node.model()] + trees;
                            assert(with_leading_text(pending, tail) =~= with_leading_text(
                                pending,
                                Seq::empty(),
                            ) + tail);
                            assert(with_leading_text(literal@, trees) == trees);
                            assert(done + with_leading_text(pending, tail) =~= models(nodes@)
                                + trees);
                        }
                    }
                },
                Err(e) => {
                    return Err(e);
                },
            }
        } else {
            literal.push(ch);
            *pos += 1;
            proof {
                if let Some((trees, _)) = sequence_at(bytes@, here + 1, stop_at@) {
                    lemma_leading_text_push(pending, ch, trees);
                }
            }
        }
    }
    flush_literal(&mut literal, &mut nodes);
    Ok(nodes)
}

/// Whether `b` is one of the four bytes that a backslash can escape.
fn is_special_byte(b: u8) -> (special: bool)
    ensures
        special == is_special(b),
{
    b == OPEN || b == CLOSE || b == BAR || b == BACKSLASH
}

/// Parses the choice group whose opening brace stands just before `*pos`,
/// and leaves `*pos` after its closing brace.
pub fn parse_choice(bytes: &[u8], pos: &mut usize) -> (r: Result<Node, ParseError>)
    requires
        *old(pos) <= bytes.len(),
    ensures
        match choice_at(bytes@, *old(pos) as int) {
            Some((tree, after)) => r matches Ok(node) && node.model() == tree && *final(pos)
                == after,
            None => r == Err::<Node, ParseError>(ParseError::UnclosedBrace),
        },
        r is Ok ==> *old(pos) < *final(pos) <= bytes.len(),
    decreases bytes.len() - *old(pos), 1int,
{
    let mut stops: Vec<u8> = Vec::new();
    stops.push(BAR);
    stops.push(CLOSE);
    assert(stops@ =~= alternative_stops());
    let mut alternatives: Vec<Vec<Node>> = Vec::new();
    let ghost start: int = *pos as int;
    assert(alternatives_model(alternatives@) =~= Seq::<Seq<Tree>>::empty());
    proof {
        if let Some((more, _)) = alternatives_at(bytes@, start) {
            assert(Seq::<Seq<Tree>>::empty() + more =~= more);
        }
    }
    loop
        invariant
            start == *old(pos),
            start <= *pos <= bytes.len(),
            stops@ == alternative_stops(),
            alternatives_at(bytes@, start) == resumed_group(
                alternatives_model(alternatives@),
                alternatives_at(bytes@, *pos as int),
            ),
        decreases bytes.len() - *pos,
    {
        let ghost done = alternatives_model(alternatives@);
        match parse_sequence(bytes, pos, stops.as_slice()) {
            Ok(alternative) => {
                alternatives.push(alternative);
                assert(alternatives_model(alternatives@) =~= done + seq![models(alternative@)]);
            },
            Err(e) => {
                return Err(e);
            },
        }
        if *pos >= bytes.len() {
            return Err(ParseError::UnclosedBrace);
        }
        let ch: u8 = bytes[*pos];
        *pos += 1;
        if ch == CLOSE {
            proof {
                let first = models(alternatives@.last()@);
                assert(done + seq![first] =~= alternatives_model(alternatives@));
                assert(Node::Choice(alternatives).model() == Tree::Choice(
                    alternatives_model(alternatives@),
                ));
            }
            return Ok(Node::Choice(alternatives));
        }
        proof {
            if let Some((more, _)) = alternatives_at(bytes@, *pos as int) {
                let first = models(alternatives@.last()@);
                assert(done + (seq![first] + more) =~= alternatives_model(alternatives@) + more);
            }
        }
    }
}

/// Parses a whole template.
pub fn parse_template(template: &str) -> (r: Result<Vec<Node>, ParseError>)
    ensures
        match template_trees(template.spec_bytes()) {
            Some(trees) => r matches Ok(nodes) && models(nodes@) == trees,
            None => r == Err::<Vec<Node>, ParseError>(ParseError::UnclosedBrace),
        },
{
    let bytes = template.as_bytes();
    let mut pos: usize = 0;
    let stops: Vec<u8> = Vec::new();
    assert(stops@ =~= Seq::<u8>::empty());
    parse_sequence(bytes, &mut pos, stops.as_slice())
}

} // verus!
