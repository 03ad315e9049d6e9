//! The parsed form of a pattern.
//!
//! Patterns are parsed by `regex-syntax` (ASCII mode) and copied, node for node,
//! into [`Node`], the tree every analysis of this crate works on.
use vstd::prelude::*;

use regex_syntax::hir::{Class, Hir, HirKind};

verus! {

/// `regex_syntax::hir::Hir`, carried through opaquely.
#[verifier::external_type_specification]
#[verifier::external_body]
pub struct ExHir(Hir);

/// `regex_syntax::hir::Class`, carried through opaquely.
#[verifier::external_type_specification]
#[verifier::external_body]
pub struct ExClass(Class);

/// `regex_syntax::Error`, carried through opaquely in `AnalyzeError::Parse`.
#[verifier::external_type_specification]
#[verifier::external_body]
pub struct ExSyntaxError(regex_syntax::Error);

/// A parsed regular expression.
#[derive(Debug)]
pub enum Node {
    /// Matches only the empty string.
    Empty,
    /// A zero-width assertion (anchor, word boundary); modeled as empty.
    Look,
    /// Exactly these bytes (UTF-8 where they decode as such).
    Literal(Vec<u8>),
    /// One character from a union of inclusive ranges.
    Class(Vec<(char, char)>),
    /// `sub` repeated at least `min` and at most `max` times (`None`: unbounded).
    Repeat { min: u32, max: Option<u32>, sub: Box<Node> },
    /// A capture group.
    Group(Box<Node>),
    /// Each sub-expression after the other.
    Concat(Vec<Node>),
    /// Any one of the sub-expressions.
    Alternation(Vec<Node>),
}

/// Every range has its low end at or below its high end.
pub open spec fn ranges_wf(r: Seq<(char, char)>) -> bool {
    forall|i: int| 0 <= i < r.len() ==> #[trigger] r[i].0 <= r[i].1
}

impl Node {
    /// Every bounded repetition has `min <= max`, and every class range has its
    /// low end at or below its high end.
    pub open spec fn wf(self) -> bool
        decreases self,
    {
        match self {
            Node::Repeat { min, max, sub } => (max matches Some(m) ==> min <= m) && sub.wf(),
            Node::Group(sub) => sub.wf(),
            Node::Concat(subs) => forall|i: int| 0 <= i < subs.len() ==> (#[trigger] subs@[i]).wf(),
            Node::Alternation(subs) => forall|i: int| 0 <= i < subs.len() ==> (#[trigger] subs@[i]).wf(),
            Node::Class(r) => ranges_wf(r@),
            _ => true,
        }
    }
}

/// `s` is a sub-expression of `node` (`node` itself included).
pub open spec fn occurs_in(s: Node, node: Node) -> bool
    decreases node,
{
    s == node || match node {
        Node::Repeat { min, max, sub } => occurs_in(s, *sub),
        Node::Group(sub) => occurs_in(s, *sub),
        Node::Concat(subs) => exists|i: int| 0 <= i < subs.len() && occurs_in(s, #[trigger] subs@[i]),
        Node::Alternation(subs) => exists|i: int| 0 <= i < subs.len() && occurs_in(s, #[trigger] subs@[i]),
        _ => false,
    }
}

/// What regex-syntax's ASCII-mode parser (Unicode and UTF-8 modes off) makes of
/// `pattern`: `None` where it reports an error, else the parsed tree.
pub uninterp spec fn ascii_parse(pattern: Seq<char>) -> Option<Node>;

/// Parses `pattern` with `regex_syntax::ParserBuilder` set to
/// `unicode(false)` and `utf8(false)`, and copies the resulting `Hir` into a
/// [`Node`]. Claimed: the outcome depends on the pattern alone (the parser is a
/// pure function); every bounded repetition in the tree has `min <= max` (the
/// parser rejects `{m,n}` with `m > n`, and `Hir::repetition` only ever lowers
/// both bounds together); every class range has `start <= end` (the class
/// range constructors of regex-syntax canonicalize to that form).
#[verifier::external_body]
pub(crate) fn parse_hir(pattern: &str) -> (r: Result<Node, Box<regex_syntax::Error>>)
    ensures
        r is Ok <==> ascii_parse(pattern@) is Some,
        r matches Ok(node) ==> ascii_parse(pattern@) == Some(node) && node.wf(),
{
    match regex_syntax::ParserBuilder::new().unicode(false).utf8(false).build().parse(pattern) {
        Ok(hir) => Ok(lower_hir(&hir)),
        Err(e) => Err(Box::new(e)),
    }
}

/// The conversion step of [`parse_hir`]: copies a `regex_syntax::hir::Hir`
/// into a [`Node`], variant for variant.
#[verifier::external_body]
fn lower_hir(hir: &Hir) -> Node {
    match hir.kind() {
        HirKind::Empty => Node::Empty,
        HirKind::Look(_) => Node::Look,
        HirKind::Literal(lit) => Node::Literal(lit.0.to_vec()),
        HirKind::Class(class) => Node::Class(class_ranges(class)),
        HirKind::Repetition(rep) => Node::Repeat { min: rep.min, max: rep.max, sub: Box::new(lower_hir(&rep.sub)) },
        HirKind::Capture(cap) => Node::Group(Box::new(lower_hir(&cap.sub))),
        HirKind::Concat(subs) => Node::Concat(subs.iter().map(lower_hir).collect()),
        HirKind::Alternation(subs) => Node::Alternation(subs.iter().map(lower_hir).collect()),
    }
}

/// The class step of [`lower_hir`]: the inclusive character ranges of a
/// `regex_syntax::hir::Class`, in its order (byte ranges read as the characters
/// of the same value).
#[verifier::external_body]
fn class_ranges(class: &Class) -> Vec<(char, char)> {
    match class {
        Class::Unicode(cu) => cu.iter().map(|r| (r.start(), r.end())).collect(),
        Class::Bytes(cb) => cb.iter().map(|r| (r.start() as char, r.end() as char)).collect(),
    }
}

/// `std::str::from_utf8`: the bytes read as a string, where they are valid UTF-8.
#[verifier::external_body]
pub(crate) fn str_from_utf8(bytes: &[u8]) -> (r: Option<&str>)
    ensures
        r is Some <==> vstd::utf8::valid_utf8(bytes@),
        r matches Some(s) ==> s@ == vstd::utf8::decode_utf8(bytes@),
{
    std::str::from_utf8(bytes).ok()
}

} // verus!
