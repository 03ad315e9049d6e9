//! The language of a parsed pattern: which strings of characters it matches.
//!
//! Zero-width assertions read as the empty string, and a literal's bytes read
//! as the characters the automaton construction gives them.
use vstd::prelude::*;

use crate::ambiguity::{nonempty_spec, nullable_spec};
use crate::nfa::{in_ranges, lemma_body_decreases, lemma_child_decreases, literal_chars};
use crate::syntax::{occurs_in, Node};

verus! {

/// `parts`, one after the other, spell `w`.
pub open spec fn spells(parts: Seq<Seq<char>>, w: Seq<char>) -> bool {
    parts.flatten() == w
}

/// `node` matches the whole of `w`.
pub open spec fn in_language(node: Node, w: Seq<char>) -> bool
    decreases node,
{
    match node {
        Node::Empty | Node::Look => w.len() == 0,
        Node::Literal(bytes) => w == literal_chars(bytes@),
        Node::Class(r) => w.len() == 1 && in_ranges(r@, w[0]),
        Node::Repeat { min, max, sub } => exists|parts: Seq<Seq<char>>|
            #[trigger] spells(parts, w) && min <= parts.len() && (max matches Some(x) ==> parts.len() <= x) && forall|i: int|
                0 <= i < parts.len() ==> in_language(*sub, #[trigger] parts[i]),
        Node::Group(sub) => in_language(*sub, w),
        Node::Concat(subs) => exists|parts: Seq<Seq<char>>|
            #[trigger] spells(parts, w) && parts.len() == subs.len() && forall|i: int|
                0 <= i < parts.len() ==> in_language(subs@[i], #[trigger] parts[i]),
        Node::Alternation(subs) => exists|i: int| 0 <= i < subs.len() && in_language(#[trigger] subs@[i], w),
    }
}

/// `k` empty pieces spell the empty string.
proof fn lemma_empty_pieces(k: nat)
    ensures
        spells(Seq::new(k, |i: int| Seq::<char>::empty()), Seq::empty()),
    decreases k,
{
    let parts = Seq::new(k, |i: int| Seq::<char>::empty());
    if k > 0 {
        lemma_empty_pieces((k - 1) as nat);
        assert(parts.drop_first() =~= Seq::new((k - 1) as nat, |i: int| Seq::<char>::empty()));
        assert(parts.flatten() == parts.first() + parts.drop_first().flatten());
        assert(parts.flatten() =~= Seq::<char>::empty());
    } else {
        assert(parts.flatten() =~= Seq::<char>::empty());
    }
}

/// Pieces that spell the empty string are all empty.
proof fn lemma_pieces_of_empty(parts: Seq<Seq<char>>)
    requires
        spells(parts, Seq::empty()),
    ensures
        forall|i: int| 0 <= i < parts.len() ==> #[trigger] parts[i] == Seq::<char>::empty(),
    decreases parts.len(),
{
    if parts.len() > 0 {
        assert(parts.flatten() == parts.first() + parts.drop_first().flatten());
        assert(parts.first().len() == 0);
        assert(parts.drop_first().flatten() =~= Seq::<char>::empty());
        lemma_pieces_of_empty(parts.drop_first());
        assert forall|i: int| 0 <= i < parts.len() implies #[trigger] parts[i] == Seq::<char>::empty() by {
            if i == 0 {
                assert(parts[0] =~= Seq::<char>::empty());
            } else {
                assert(parts[i] == parts.drop_first()[i - 1]);
            }
        }
    }
}

/// A pattern is nullable exactly when it matches the empty string.
pub proof fn lemma_nullable_matches_empty(node: Node)
    requires
        node.wf(),
    ensures
        nullable_spec(node) <==> in_language(node, Seq::empty()),
    decreases node,
{
    let e = Seq::<char>::empty();
    match node {
        Node::Literal(bytes) => {
            if bytes@.len() > 0 {
                if vstd::utf8::valid_utf8(bytes@) {
                    assert(literal_chars(bytes@).len() > 0);
                } else {
                    assert(literal_chars(bytes@).len() == bytes@.len());
                }
            } else {
                assert(literal_chars(bytes@) =~= e);
            }
        },
        Node::Repeat { min, max, sub } => {
            lemma_body_decreases(node, min, max, sub);
            lemma_nullable_matches_empty(*sub);
            if min == 0 {
                let parts = Seq::<Seq<char>>::empty();
                assert(parts.flatten() =~= e);
                assert(spells(parts, e));
            } else if nullable_spec(*sub) {
                let parts = Seq::new(min as nat, |i: int| Seq::<char>::empty());
                lemma_empty_pieces(min as nat);
                assert(spells(parts, e));
                assert forall|i: int| 0 <= i < parts.len() implies in_language(*sub, #[trigger] parts[i]) by {}
            }
            if in_language(node, e) {
                let parts = choose|parts: Seq<Seq<char>>|
                    #[trigger] spells(parts, e) && min <= parts.len() && (max matches Some(x) ==> parts.len() <= x) && forall|i: int|
                        0 <= i < parts.len() ==> in_language(*sub, #[trigger] parts[i]);
                lemma_pieces_of_empty(parts);
                if parts.len() > 0 {
                    assert(in_language(*sub, parts[0]));
                }
            }
        },
        Node::Group(sub) => {
            lemma_nullable_matches_empty(*sub);
        },
        Node::Concat(subs) => {
            assert forall|j: int| 0 <= j < subs.len() implies (nullable_spec(#[trigger] subs@[j]) <==> in_language(subs@[j], e)) by {
                lemma_child_decreases(node, subs, j);
                lemma_nullable_matches_empty(subs@[j]);
            }
            if nullable_spec(node) {
                let parts = Seq::new(subs.len() as nat, |i: int| Seq::<char>::empty());
                lemma_empty_pieces(subs.len() as nat);
                assert(spells(parts, e));
                assert forall|i: int| 0 <= i < parts.len() implies in_language(subs@[i], #[trigger] parts[i]) by {
                    assert(nullable_spec(subs@[i]));
                }
            }
            if in_language(node, e) {
                let parts = choose|parts: Seq<Seq<char>>|
                    #[trigger] spells(parts, e) && parts.len() == subs.len() && forall|i: int|
                        0 <= i < parts.len() ==> in_language(subs@[i], #[trigger] parts[i]);
                lemma_pieces_of_empty(parts);
                assert forall|j: int| 0 <= j < subs.len() implies nullable_spec(#[trigger] subs@[j]) by {
                    assert(in_language(subs@[j], parts[j]));
                }
            }
        },
        Node::Alternation(subs) => {
            assert forall|j: int| 0 <= j < subs.len() implies (nullable_spec(#[trigger] subs@[j]) <==> in_language(subs@[j], e)) by {
                lemma_child_decreases(node, subs, j);
                lemma_nullable_matches_empty(subs@[j]);
            }
            if nullable_spec(node) {
                let i = choose|i: int| 0 <= i < subs.len() && #[trigger] nullable_spec(subs@[i]);
                assert(in_language(subs@[i], e));
            }
            if in_language(node, e) {
                let i = choose|i: int| 0 <= i < subs.len() && in_language(#[trigger] subs@[i], e);
                assert(nullable_spec(subs@[i]));
            }
        },
        _ => {},
    }
}

/// Pieces that are all empty spell the empty string.
proof fn lemma_all_empty_pieces(parts: Seq<Seq<char>>)
    requires
        forall|i: int| 0 <= i < parts.len() ==> #[trigger] parts[i].len() == 0,
    ensures
        parts.flatten().len() == 0,
    decreases parts.len(),
{
    if parts.len() > 0 {
        assert(parts.flatten() == parts.first() + parts.drop_first().flatten());
        assert forall|i: int| 0 <= i < parts.drop_first().len() implies #[trigger] parts.drop_first()[i].len() == 0 by {
            assert(parts.drop_first()[i] == parts[i + 1]);
        }
        lemma_all_empty_pieces(parts.drop_first());
    }
}

/// A pattern that matches some non-empty string is one that
/// [`nonempty_spec`] reports as able to.
pub proof fn lemma_nonempty_word(node: Node, w: Seq<char>)
    requires
        node.wf(),
        in_language(node, w),
        w.len() > 0,
    ensures
        nonempty_spec(node),
    decreases node,
{
    match node {
        Node::Literal(bytes) => {
            if bytes@.len() == 0 {
                assert(literal_chars(bytes@) =~= Seq::<char>::empty());
            }
        },
        Node::Repeat { min, max, sub } => {
            lemma_body_decreases(node, min, max, sub);
            let parts = choose|parts: Seq<Seq<char>>|
                #[trigger] spells(parts, w) && min <= parts.len() && (max matches Some(x) ==> parts.len() <= x) && forall|i: int|
                    0 <= i < parts.len() ==> in_language(*sub, #[trigger] parts[i]);
            if forall|i: int| 0 <= i < parts.len() ==> #[trigger] parts[i].len() == 0 {
                lemma_all_empty_pieces(parts);
            }
            let i = choose|i: int| 0 <= i < parts.len() && #[trigger] parts[i].len() != 0;
            lemma_nonempty_word(*sub, parts[i]);
        },
        Node::Group(sub) => {
            lemma_nonempty_word(*sub, w);
        },
        Node::Concat(subs) => {
            let parts = choose|parts: Seq<Seq<char>>|
                #[trigger] spells(parts, w) && parts.len() == subs.len() && forall|i: int|
                    0 <= i < parts.len() ==> in_language(subs@[i], #[trigger] parts[i]);
            if forall|i: int| 0 <= i < parts.len() ==> #[trigger] parts[i].len() == 0 {
                lemma_all_empty_pieces(parts);
            }
            let i = choose|i: int| 0 <= i < parts.len() && #[trigger] parts[i].len() != 0;
            lemma_child_decreases(node, subs, i);
            assert(subs@[i].wf());
            assert(in_language(subs@[i], parts[i]));
            lemma_nonempty_word(subs@[i], parts[i]);
        },
        Node::Alternation(subs) => {
            let i = choose|i: int| 0 <= i < subs.len() && in_language(#[trigger] subs@[i], w);
            lemma_child_decreases(node, subs, i);
            assert(subs@[i].wf());
            lemma_nonempty_word(subs@[i], w);
        },
        _ => {},
    }
}

/// Sub-expressions of a well-formed pattern are well formed.
pub proof fn lemma_occurs_wf(s: Node, node: Node)
    requires
        node.wf(),
        occurs_in(s, node),
    ensures
        s.wf(),
    decreases node,
{
    if s != node {
        match node {
            Node::Repeat { min, max, sub } => {
                lemma_body_decreases(node, min, max, sub);
                lemma_occurs_wf(s, *sub);
            },
            Node::Group(sub) => {
                lemma_occurs_wf(s, *sub);
            },
            Node::Concat(subs) => {
                let i = choose|i: int| 0 <= i < subs.len() && occurs_in(s, #[trigger] subs@[i]);
                lemma_child_decreases(node, subs, i);
                lemma_occurs_wf(s, subs@[i]);
            },
            Node::Alternation(subs) => {
                let i = choose|i: int| 0 <= i < subs.len() && occurs_in(s, #[trigger] subs@[i]);
                lemma_child_decreases(node, subs, i);
                lemma_occurs_wf(s, subs@[i]);
            },
            _ => {},
        }
    }
}

} // verus!
