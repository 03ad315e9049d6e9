//! Target regex engine model.
//!
//! The analysis runs on pattern structure under backtracking semantics; the
//! [`Engine`] selects whether the engine backtracks at all, and which
//! mitigations (atomic groups, possessive quantifiers) it offers. Engines that
//! do not backtrack are linear by construction.
use vstd::prelude::*;

verus! {

/// A regex engine a pattern can be analyzed for.
#[derive(Debug, Clone, Copy, PartialEq, Eq, Structural)]
pub enum Engine {
    /// Rust `regex` crate: finite automata, linear time.
    RustRegex,
    /// `fancy-regex`: backtracking; lookaround and backreferences.
    FancyRegex,
    /// PCRE2: backtracking; atomic groups, possessive quantifiers.
    Pcre2,
    /// JavaScript `RegExp`: backtracking.
    JavaScript,
    /// Python `re`: backtracking.
    Python,
    /// Java `java.util.regex`: backtracking.
    Java,
    /// .NET `Regex`: backtracking by default.
    DotNet,
    /// PHP PCRE: backtracking.
    Php,
    /// Ruby Onigmo: backtracking.
    Ruby,
    /// Go `regexp` (RE2): finite automata, linear time.
    Go,
}

/// What a given engine supports.
#[derive(Debug, Clone, Copy, PartialEq, Eq, Structural)]
pub struct EngineCaps {
    /// If false, the engine is linear by construction: no analysis is needed.
    pub backtracks: bool,
    /// `(?>...)` is available as a repair primitive.
    pub atomic_groups: bool,
    /// `a++` (possessive) is available as a repair primitive.
    pub possessive: bool,
    /// Backreferences are supported.
    pub backrefs: bool,
}

/// The capabilities of `e`, as a mathematical function.
pub open spec fn caps_of(e: Engine) -> EngineCaps {
    match e {
        Engine::RustRegex | Engine::Go => EngineCaps {
            backtracks: false, atomic_groups: false, possessive: false, backrefs: false,
        },
        Engine::JavaScript => EngineCaps {
            backtracks: true, atomic_groups: false, possessive: false, backrefs: true,
        },
        Engine::DotNet => EngineCaps {
            backtracks: true, atomic_groups: true, possessive: false, backrefs: true,
        },
        _ => EngineCaps { backtracks: true, atomic_groups: true, possessive: true, backrefs: true },
    }
}

impl Engine {
    /// Capabilities for this engine.
    pub fn caps(self) -> (c: EngineCaps)
        ensures
            c == caps_of(self),
    {
        match self {
            Engine::RustRegex | Engine::Go => EngineCaps {
                backtracks: false,
                atomic_groups: false,
                possessive: false,
                backrefs: false,
            },
            Engine::Pcre2 | Engine::Php => EngineCaps {
                backtracks: true,
                atomic_groups: true,
                possessive: true,
                backrefs: true,
            },
            Engine::FancyRegex => EngineCaps {
                backtracks: true,
                atomic_groups: true,
                possessive: true,
                backrefs: true,
            },
            Engine::JavaScript => EngineCaps {
                backtracks: true,
                atomic_groups: false,
                possessive: false,
                backrefs: true,
            },
            Engine::Python | Engine::Java | Engine::Ruby => EngineCaps {
                backtracks: true,
                atomic_groups: true,
                possessive: true,
                backrefs: true,
            },
            Engine::DotNet => EngineCaps {
                backtracks: true,
                atomic_groups: true,
                possessive: false,
                backrefs: true,
            },
        }
    }
}

} // verus!
