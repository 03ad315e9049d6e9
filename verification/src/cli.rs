//! The command-line program's decisions: option parsing, thresholds, exit codes
//! and messages. Reading input and printing are left to the program.
//!
//! ```text
//! rxray [--engine E] [--max-complexity LEVEL] [--attack] <PATTERN>
//! ```
//!
//! `--max-complexity` (default `linear`): `linear` | `poly` | `poly:K` | `exp`.
//! Exit codes: 0 = within budget, 1 = exceeds (vulnerable), 2 = error/usage.
use vstd::prelude::*;

use crate::ambiguity::rank_spec;
use crate::text::{
    digit_char, lower_char,
    ascii_lower, ascii_lowercase, chars_eq_str, decimal, decimal_string, skip_chars, starts_with_str, str_chars,
    string_from_chars,
};
use crate::engine::caps_of;
use crate::nfa::{est, sat};
use crate::syntax::ascii_parse;
use crate::{analyze, node_report, AnalyzeError, ComplexityClass, Engine, Report, MAX_NFA_STATES};

verus! {

/// The maximum complexity allowed before exit code 1.
#[derive(Debug, Clone, Copy, PartialEq, Eq, Structural)]
pub enum Threshold {
    Linear,
    /// Allow up to O(n^k); `Poly(u32::MAX)` allows every polynomial.
    Poly(u32),
    Exp,
}

/// `c` is worse than the threshold allows.
pub open spec fn exceeds(t: Threshold, c: ComplexityClass) -> bool {
    match t {
        Threshold::Linear => c != ComplexityClass::Linear,
        Threshold::Poly(k) => match c {
            ComplexityClass::Linear => false,
            ComplexityClass::Polynomial(d) => d > k,
            ComplexityClass::Exponential => true,
        },
        Threshold::Exp => false,
    }
}

impl Threshold {
    /// Is `c` worse than this threshold allows?
    pub fn exceeded_by(&self, c: ComplexityClass) -> (r: bool)
        ensures
            r == exceeds(*self, c),
    {
        match (self, c) {
            (Threshold::Linear, ComplexityClass::Linear) => false,
            (Threshold::Linear, _) => true,
            (Threshold::Poly(_), ComplexityClass::Linear) => false,
            (Threshold::Poly(k), ComplexityClass::Polynomial(d)) => d > *k,
            (Threshold::Poly(_), ComplexityClass::Exponential) => true,
            (Threshold::Exp, _) => false,
        }
    }
}

/// A class at least as severe as one that exceeds a threshold exceeds it too.
pub proof fn lemma_exceeds_monotone(t: Threshold, c1: ComplexityClass, c2: ComplexityClass)
    requires
        rank_spec(c1) <= rank_spec(c2),
        exceeds(t, c1),
    ensures
        exceeds(t, c2),
{
}

/// Stricter thresholds are exceeded by more: whatever exceeds `exp` (nothing)
/// exceeds `poly:K`, whatever exceeds `poly:K2` exceeds `poly:K1` for `K1 <= K2`,
/// and whatever exceeds `poly:K` exceeds `linear`.
pub proof fn lemma_threshold_order(c: ComplexityClass, k1: u32, k2: u32)
    requires
        k1 <= k2,
    ensures
        exceeds(Threshold::Exp, c) ==> exceeds(Threshold::Poly(k2), c),
        exceeds(Threshold::Poly(k2), c) ==> exceeds(Threshold::Poly(k1), c),
        exceeds(Threshold::Poly(k1), c) ==> exceeds(Threshold::Linear, c),
        !exceeds(Threshold::Exp, c),
{
}

/// ASCII lowercasing is idempotent.
pub proof fn lemma_ascii_lower_idempotent(s: Seq<char>)
    ensures
        ascii_lower(ascii_lower(s)) == ascii_lower(s),
{
    assert forall|i: int| 0 <= i < s.len() implies #[trigger] lower_char(lower_char(s[i])) == lower_char(s[i]) by {
        let c = s[i];
        if 'A' <= c && c <= 'Z' {
            assert(lower_char(c) as int == c as int + 32);
        }
    }
    assert(ascii_lower(ascii_lower(s)) =~= ascii_lower(s));
}

/// Engine and threshold names are case-insensitive: a name and its ASCII
/// lowercase parse alike.
pub proof fn lemma_names_case_insensitive(s: Seq<char>)
    ensures
        engine_spec(ascii_lower(s)) == engine_spec(s),
        threshold_named(ascii_lower(ascii_lower(s))) == threshold_named(ascii_lower(s)),
{
    lemma_ascii_lower_idempotent(s);
}

// --- Engines and thresholds by name ---

/// The engine named by a lowercased name.
pub open spec fn engine_named(low: Seq<char>) -> Option<Engine> {
    if low == "rust"@ {
        Some(Engine::RustRegex)
    } else if low == "fancy"@ {
        Some(Engine::FancyRegex)
    } else if low == "pcre2"@ || low == "pcre"@ {
        Some(Engine::Pcre2)
    } else if low == "js"@ || low == "javascript"@ {
        Some(Engine::JavaScript)
    } else if low == "python"@ || low == "py"@ {
        Some(Engine::Python)
    } else if low == "java"@ {
        Some(Engine::Java)
    } else if low == "dotnet"@ || low == ".net"@ {
        Some(Engine::DotNet)
    } else if low == "php"@ {
        Some(Engine::Php)
    } else if low == "ruby"@ {
        Some(Engine::Ruby)
    } else if low == "go"@ {
        Some(Engine::Go)
    } else {
        None
    }
}

/// What [`parse_engine`] answers for `s`: the engine named (case-insensitively
/// in ASCII), or the error message.
pub open spec fn engine_spec(s: Seq<char>) -> Result<Engine, Seq<char>> {
    match engine_named(ascii_lower(s)) {
        Some(e) => Ok(e),
        None => Err("unknown engine: "@ + ascii_lower(s)),
    }
}

/// Parse an engine name, case-insensitively.
pub fn parse_engine(s: &str) -> (r: Result<Engine, String>)
    ensures
        r matches Ok(e) ==> engine_spec(s@) == Ok::<Engine, Seq<char>>(e),
        r matches Err(msg) ==> engine_spec(s@) == Err::<Engine, Seq<char>>(msg@),
{
    let low = ascii_lowercase(&str_chars(s));
    if chars_eq_str(&low, "rust") {
        Ok(Engine::RustRegex)
    } else if chars_eq_str(&low, "fancy") {
        Ok(Engine::FancyRegex)
    } else if chars_eq_str(&low, "pcre2") || chars_eq_str(&low, "pcre") {
        Ok(Engine::Pcre2)
    } else if chars_eq_str(&low, "js") || chars_eq_str(&low, "javascript") {
        Ok(Engine::JavaScript)
    } else if chars_eq_str(&low, "python") || chars_eq_str(&low, "py") {
        Ok(Engine::Python)
    } else if chars_eq_str(&low, "java") {
        Ok(Engine::Java)
    } else if chars_eq_str(&low, "dotnet") || chars_eq_str(&low, ".net") {
        Ok(Engine::DotNet)
    } else if chars_eq_str(&low, "php") {
        Ok(Engine::Php)
    } else if chars_eq_str(&low, "ruby") {
        Ok(Engine::Ruby)
    } else if chars_eq_str(&low, "go") {
        Ok(Engine::Go)
    } else {
        let mut msg = String::from_str("unknown engine: ");
        let rest = string_from_chars(&low);
        msg.append(rest.as_str());
        Err(msg)
    }
}

/// The value of a string of decimal digits.
pub open spec fn digits_value(d: Seq<char>) -> int
    decreases d.len(),
{
    if d.len() == 0 {
        0
    } else {
        digits_value(d.drop_last()) * 10 + (d.last() as int - '0' as int)
    }
}

/// Every character is an ASCII digit.
pub open spec fn all_digits(d: Seq<char>) -> bool {
    forall|i: int| 0 <= i < d.len() ==> '0' <= #[trigger] d[i] && d[i] <= '9'
}

/// `u32::from_str`: an optional `+`, then one or more decimal digits whose value
/// fits in a `u32`.
pub open spec fn u32_from_str(k: Seq<char>) -> Option<u32> {
    let d = if k.len() > 0 && k[0] == '+' {
        k.drop_first()
    } else {
        k
    };
    if d.len() == 0 || !all_digits(d) || digits_value(d) > u32::MAX {
        None
    } else {
        Some(digits_value(d) as u32)
    }
}

proof fn lemma_digits_value_grows(d: Seq<char>, i: int)
    requires
        0 <= i <= d.len(),
        all_digits(d),
    ensures
        0 <= digits_value(d.take(i)) <= digits_value(d),
    decreases d.len() - i,
{
    if i < d.len() {
        lemma_digits_value_grows(d, i + 1);
        assert(d.take(i + 1).drop_last() =~= d.take(i));
        assert('0' <= d[i] <= '9');
    } else {
        assert(d.take(i) =~= d);
        lemma_digits_value_nonneg(d);
    }
}

proof fn lemma_digits_value_nonneg(d: Seq<char>)
    requires
        all_digits(d),
    ensures
        digits_value(d) >= 0,
    decreases d.len(),
{
    if d.len() > 0 {
        assert(all_digits(d.drop_last())) by {
            assert forall|i: int| 0 <= i < d.drop_last().len() implies '0' <= #[trigger] d.drop_last()[i] && d.drop_last()[i] <= '9' by {
                assert(d.drop_last()[i] == d[i]);
            }
        }
        lemma_digits_value_nonneg(d.drop_last());
        assert('0' <= d[d.len() - 1] <= '9');
    }
}

/// Parse a degree as `u32::from_str` does.
pub fn parse_u32(k: &Vec<char>) -> (r: Option<u32>)
    ensures
        r == u32_from_str(k@),
{
    let start: usize = if k.len() > 0 && k[0] == '+' {
        1
    } else {
        0
    };
    let ghost d = if k@.len() > 0 && k@[0] == '+' {
        k@.drop_first()
    } else {
        k@
    };
    assert(d =~= k@.skip(start as int));
    if start == k.len() {
        return None;
    }
    let mut acc: u64 = 0;
    let mut i: usize = start;
    while i < k.len()
        invariant
            start <= i <= k@.len(),
            start < k@.len(),
            d == k@.skip(start as int),
            d == (if k@.len() > 0 && k@[0] == '+' {
                k@.drop_first()
            } else {
                k@
            }),
            all_digits(d.take(i - start)),
            acc as int == digits_value(d.take(i - start)),
            acc <= u32::MAX,
        decreases k.len() - i,
    {
        let c = k[i];
        let ghost j = i - start;
        assert(d[j] == c);
        if !('0' <= c && c <= '9') {
            assert(!all_digits(d));
            return None;
        }
        let v = ((c as u32) - ('0' as u32)) as u64;
        assert(d.take(j + 1).drop_last() =~= d.take(j));
        assert(d.take(j + 1).last() == c);
        acc = acc * 10 + v;
        i = i + 1;
        assert(all_digits(d.take(i - start))) by {
            assert forall|x: int| 0 <= x < d.take(i - start).len() implies '0' <= #[trigger] d.take(i - start)[x] && d.take(i - start)[x] <= '9' by {
                if x < j {
                    assert(d.take(i - start)[x] == d.take(j)[x]);
                }
            }
        }
        if acc > 0xFFFF_FFFF {
            proof {
                if all_digits(d) {
                    lemma_digits_value_grows(d, i - start);
                }
            }
            return None;
        }
    }
    assert(d.take(i - start) =~= d);
    Some(acc as u32)
}

/// What [`parse_threshold`] answers for a lowercased name.
pub open spec fn threshold_named(low: Seq<char>) -> Result<Threshold, Seq<char>> {
    if low == "linear"@ || low == "lin"@ {
        Ok(Threshold::Linear)
    } else if low == "exp"@ || low == "exponential"@ {
        Ok(Threshold::Exp)
    } else if low == "poly"@ || low == "polynomial"@ {
        Ok(Threshold::Poly(u32::MAX))
    } else if "poly:"@.len() <= low.len() && low.take("poly:"@.len() as int) == "poly:"@ {
        degree_threshold(low.skip("poly:"@.len() as int))
    } else if "poly"@.len() <= low.len() && low.take("poly"@.len() as int) == "poly"@ {
        degree_threshold(low.skip("poly"@.len() as int))
    } else {
        Err("bad --max-complexity: "@ + low)
    }
}

/// `Poly(k)` for the degree written `k`, or the error message.
pub open spec fn degree_threshold(k: Seq<char>) -> Result<Threshold, Seq<char>> {
    match u32_from_str(k) {
        Some(v) => Ok(Threshold::Poly(v)),
        None => Err("bad poly degree: "@ + k),
    }
}

/// Parse a `--max-complexity` level, case-insensitively.
pub fn parse_threshold(s: &str) -> (r: Result<Threshold, String>)
    ensures
        r matches Ok(t) ==> threshold_named(ascii_lower(s@)) == Ok::<Threshold, Seq<char>>(t),
        r matches Err(msg) ==> threshold_named(ascii_lower(s@)) == Err::<Threshold, Seq<char>>(msg@),
{
    let low = ascii_lowercase(&str_chars(s));
    if chars_eq_str(&low, "linear") || chars_eq_str(&low, "lin") {
        Ok(Threshold::Linear)
    } else if chars_eq_str(&low, "exp") || chars_eq_str(&low, "exponential") {
        Ok(Threshold::Exp)
    } else if chars_eq_str(&low, "poly") || chars_eq_str(&low, "polynomial") {
        Ok(Threshold::Poly(0xFFFF_FFFF))
    } else if starts_with_str(&low, "poly:") {
        let n = "poly:".unicode_len();
        let k = skip_chars(&low, n);
        degree_from(&k)
    } else if starts_with_str(&low, "poly") {
        let n = "poly".unicode_len();
        let k = skip_chars(&low, n);
        degree_from(&k)
    } else {
        let mut msg = String::from_str("bad --max-complexity: ");
        let rest = string_from_chars(&low);
        msg.append(rest.as_str());
        Err(msg)
    }
}

/// `Poly(k)` for the degree written in `k`, or the error message.
fn degree_from(k: &Vec<char>) -> (r: Result<Threshold, String>)
    ensures
        r matches Ok(t) ==> degree_threshold(k@) == Ok::<Threshold, Seq<char>>(t),
        r matches Err(msg) ==> degree_threshold(k@) == Err::<Threshold, Seq<char>>(msg@),
{
    match parse_u32(k) {
        Some(v) => Ok(Threshold::Poly(v)),
        None => {
            let mut msg = String::from_str("bad poly degree: ");
            let rest = string_from_chars(k);
            msg.append(rest.as_str());
            Err(msg)
        },
    }
}

// --- Command line ---

/// What the program was asked to do.
#[derive(Debug, Clone, PartialEq, Eq)]
pub struct Options {
    pub engine: Engine,
    pub threshold: Threshold,
    /// Synthesize an attack of this many pump repetitions when vulnerable.
    pub want_attack: Option<u32>,
    /// The pattern, when given as an argument (else it is read from stdin).
    pub pattern: Option<String>,
}

/// A parsed command line.
#[derive(Debug, Clone, PartialEq, Eq)]
pub enum Command {
    /// Print the usage line and succeed.
    Help,
    /// Analyze a pattern.
    Run(Options),
}

/// The mathematical content of [`Options`].
pub struct OptionsModel {
    pub engine: Engine,
    pub threshold: Threshold,
    pub want_attack: Option<u32>,
    pub pattern: Option<Seq<char>>,
}

pub open spec fn options_view(o: Options) -> OptionsModel {
    OptionsModel {
        engine: o.engine,
        threshold: o.threshold,
        want_attack: o.want_attack,
        pattern: match o.pattern {
            Some(p) => Some(p@),
            None => None,
        },
    }
}

/// The defaults: PCRE2, no complexity above linear, no attack, no pattern.
pub open spec fn default_options() -> OptionsModel {
    OptionsModel { engine: Engine::Pcre2, threshold: Threshold::Linear, want_attack: None, pattern: None }
}

/// The arguments as character sequences.
pub open spec fn args_view(args: Seq<String>) -> Seq<Seq<char>> {
    args.map_values(|a: String| a@)
}

/// Reading the arguments from the `i`-th on, with options `o` so far: the
/// options (`None` for help), or the error message.
pub open spec fn args_from(args: Seq<Seq<char>>, i: int, o: OptionsModel) -> Result<Option<OptionsModel>, Seq<char>>
    decreases args.len() - i,
{
    if i < 0 || i >= args.len() {
        Ok(Some(o))
    } else {
        let a = args[i];
        if a == "--engine"@ || a == "-e"@ {
            if i + 1 >= args.len() {
                Err("--engine needs a value"@)
            } else {
                match engine_spec(args[i + 1]) {
                    Ok(e) => args_from(
                        args,
                        i + 2,
                        OptionsModel { engine: e, threshold: o.threshold, want_attack: o.want_attack, pattern: o.pattern },
                    ),
                    Err(msg) => Err(msg),
                }
            }
        } else if a == "--max-complexity"@ || a == "-m"@ {
            if i + 1 >= args.len() {
                Err("--max-complexity needs a value"@)
            } else {
                match threshold_named(ascii_lower(args[i + 1])) {
                    Ok(t) => args_from(
                        args,
                        i + 2,
                        OptionsModel { engine: o.engine, threshold: t, want_attack: o.want_attack, pattern: o.pattern },
                    ),
                    Err(msg) => Err(msg),
                }
            }
        } else if a == "--attack"@ || a == "-a"@ {
            args_from(
                args,
                i + 1,
                OptionsModel { engine: o.engine, threshold: o.threshold, want_attack: Some(30u32), pattern: o.pattern },
            )
        } else if a == "-h"@ || a == "--help"@ {
            Ok(None)
        } else if a.len() > 0 && a[0] == '-' {
            Err("unknown option: "@ + a)
        } else if o.pattern is Some {
            Err("multiple patterns given"@)
        } else {
            args_from(
                args,
                i + 1,
                OptionsModel { engine: o.engine, threshold: o.threshold, want_attack: o.want_attack, pattern: Some(a) },
            )
        }
    }
}

/// `r` is the outcome `args_from` describes.
pub open spec fn command_matches(r: Result<Command, String>, spec: Result<Option<OptionsModel>, Seq<char>>) -> bool {
    match spec {
        Ok(None) => r matches Ok(Command::Help),
        Ok(Some(o)) => r matches Ok(Command::Run(opts)) && options_view(opts) == o,
        Err(msg) => r matches Err(e) && e@ == msg,
    }
}

/// Parse the command-line arguments (without the program name).
pub fn parse_args(args: &Vec<String>) -> (r: Result<Command, String>)
    ensures
        command_matches(r, args_from(args_view(args@), 0, default_options())),
{
    let ghost av = args_view(args@);
    let mut engine = Engine::Pcre2;
    let mut threshold = Threshold::Linear;
    let mut want_attack: Option<u32> = None;
    let mut pattern: Option<String> = None;
    let mut i: usize = 0;
    while i < args.len()
        invariant
            av == args_view(args@),
            av.len() == args@.len(),
            i <= args.len(),
            args_from(av, i as int, options_view(Options { engine, threshold, want_attack, pattern }))
                == args_from(av, 0, default_options()),
        decreases args.len() - i,
    {
        let ghost o = options_view(Options { engine, threshold, want_attack, pattern });
        let arg = str_chars(args[i].as_str());
        assert(arg@ == av[i as int]);
        if chars_eq_str(&arg, "--engine") || chars_eq_str(&arg, "-e") {
            if i + 1 >= args.len() {
                return Err(String::from_str("--engine needs a value"));
            }
            assert(args[i + 1]@ == av[i + 1]);
            match parse_engine(args[i + 1].as_str()) {
                Ok(e) => {
                    engine = e;
                },
                Err(msg) => {
                    return Err(msg);
                },
            }
            i = i + 2;
        } else if chars_eq_str(&arg, "--max-complexity") || chars_eq_str(&arg, "-m") {
            if i + 1 >= args.len() {
                return Err(String::from_str("--max-complexity needs a value"));
            }
            assert(args[i + 1]@ == av[i + 1]);
            match parse_threshold(args[i + 1].as_str()) {
                Ok(t) => {
                    threshold = t;
                },
                Err(msg) => {
                    return Err(msg);
                },
            }
            i = i + 2;
        } else if chars_eq_str(&arg, "--attack") || chars_eq_str(&arg, "-a") {
            want_attack = Some(30);
            i = i + 1;
        } else if chars_eq_str(&arg, "-h") || chars_eq_str(&arg, "--help") {
            return Ok(Command::Help);
        } else if arg.len() > 0 && arg[0] == '-' {
            let mut msg = String::from_str("unknown option: ");
            msg.append(args[i].as_str());
            return Err(msg);
        } else {
            if pattern.is_some() {
                return Err(String::from_str("multiple patterns given"));
            }
            pattern = Some(args[i].clone());
            i = i + 1;
        }
    }
    let opts = Options { engine, threshold, want_attack, pattern };
    Ok(Command::Run(opts))
}

// --- Outcomes ---

/// The exit code for a report whose worst class is `worst`: 1 when it exceeds
/// the threshold, else 0.
pub fn exit_code(threshold: &Threshold, worst: ComplexityClass) -> (code: u8)
    ensures
        code == (if exceeds(*threshold, worst) {
            1u8
        } else {
            0u8
        }),
{
    if threshold.exceeded_by(worst) {
        1
    } else {
        0
    }
}

/// The exit code for errors and bad usage.
pub const USAGE_EXIT: u8 = 2;

/// How many pump repetitions to synthesize an attack with: the requested
/// count, when an attack was requested and the pattern is not linear.
pub fn attack_request(want_attack: Option<u32>, worst: ComplexityClass) -> (r: Option<u32>)
    ensures
        r == (if worst == ComplexityClass::Linear {
            None
        } else {
            want_attack
        }),
{
    match worst {
        ComplexityClass::Linear => None,
        _ => want_attack,
    }
}

/// The name of a complexity class as the program prints it.
pub open spec fn class_label_spec(c: ComplexityClass) -> Seq<char> {
    match c {
        ComplexityClass::Linear => "Linear"@,
        ComplexityClass::Polynomial(k) => "Polynomial("@ + decimal(k as nat) + ")"@,
        ComplexityClass::Exponential => "Exponential"@,
    }
}

/// The name of a complexity class as the program prints it (`Polynomial(k)` with
/// its degree).
pub fn class_label(c: ComplexityClass) -> (s: String)
    ensures
        s@ == class_label_spec(c),
{
    match c {
        ComplexityClass::Linear => String::from_str("Linear"),
        ComplexityClass::Polynomial(k) => {
            let mut s = String::from_str("Polynomial(");
            let num = decimal_string(k as u64);
            s.append(num.as_str());
            s.append(")");
            s
        },
        ComplexityClass::Exponential => String::from_str("Exponential"),
    }
}

/// The message of a `TooComplex` failure for `n` estimated states.
pub open spec fn too_complex_failure(n: nat) -> Seq<char> {
    "too complex (~"@ + decimal(n) + " states)"@
}

/// The program's message for a failed analysis.
pub fn failure_message(e: &AnalyzeError) -> (s: String)
    ensures
        e matches AnalyzeError::TooComplex { estimated_states } ==> s@ == too_complex_failure(estimated_states as nat),
        e matches AnalyzeError::Parse(err) ==> exists|d: String|
            vstd::string::to_string_from_display_ensures::<Box<regex_syntax::Error>>(&err, d) && s@ == "parse error: "@ + d@,
{
    match e {
        AnalyzeError::Parse(err) => {
            let mut s = String::from_str("parse error: ");
            let detail = err.to_string();
            s.append(detail.as_str());
            assert(vstd::string::to_string_from_display_ensures::<Box<regex_syntax::Error>>(err, detail));
            s
        },
        AnalyzeError::TooComplex { estimated_states } => {
            let mut s = String::from_str("too complex (~");
            let num = decimal_string(*estimated_states as u64);
            s.append(num.as_str());
            s.append(" states)");
            s
        },
    }
}

/// `s` without its trailing newlines.
pub open spec fn trim_newlines(s: Seq<char>) -> Seq<char>
    decreases s.len(),
{
    if s.len() > 0 && s.last() == '\n' {
        trim_newlines(s.drop_last())
    } else {
        s
    }
}

/// The pattern read from standard input: the text without its trailing
/// newlines, or an error when nothing is left.
pub fn pattern_from_input(buf: &str) -> (r: Result<String, String>)
    ensures
        r matches Ok(p) ==> p@ == trim_newlines(buf@) && p@.len() > 0,
        r is Err <==> trim_newlines(buf@).len() == 0,
        r matches Err(m) ==> m@ == no_pattern_spec(),
{
    let chars = str_chars(buf);
    let mut end: usize = chars.len();
    assert(chars@.take(end as int) =~= chars@);
    while end > 0 && chars[end - 1] == '\n'
        invariant
            end <= chars@.len(),
            trim_newlines(chars@.take(end as int)) == trim_newlines(chars@),
        decreases end,
    {
        assert(chars@.take(end as int).drop_last() =~= chars@.take(end - 1));
        end = end - 1;
    }
    proof {
        if end > 0 {
            assert(chars@.take(end as int).last() == chars@[end - 1]);
        }
        assert(trim_newlines(chars@.take(end as int)) == chars@.take(end as int));
    }
    if end == 0 {
        return Err(String::from_str("no pattern (give an argument or pipe via stdin)"));
    }
    let mut kept: Vec<char> = Vec::new();
    let mut i: usize = 0;
    while i < end
        invariant
            i <= end <= chars@.len(),
            kept@ == chars@.take(i as int),
        decreases end - i,
    {
        kept.push(chars[i]);
        i = i + 1;
        assert(kept@ =~= chars@.take(i as int));
    }
    Ok(string_from_chars(&kept))
}

// --- The whole program ---

/// The usage line.
pub open spec fn usage_spec() -> Seq<char> {
    "usage: rxray [--engine E] [--max-complexity linear|poly|poly:K|exp] [--attack] <PATTERN>"@
}

/// The message when standard input holds no pattern.
pub open spec fn no_pattern_spec() -> Seq<char> {
    "no pattern (give an argument or pipe via stdin)"@
}

/// How a run of the program ends: the first line it prints (to standard
/// error for an error, else to standard output), its exit code, and, after a
/// successful analysis, the options, the pattern and the report, from which the
/// remaining lines are printed.
pub struct Outcome {
    pub first_line: String,
    pub to_stderr: bool,
    pub exit: u8,
    pub analysis: Option<(Options, String, Report)>,
}

/// The next thing the program does: end with an outcome, or read the pattern
/// from standard input and run again with it.
pub enum Step {
    Done(Outcome),
    ReadStdin,
}

/// Where the pattern comes from: the argument, else standard input with its
/// trailing newlines removed (an error when nothing is left); `None` while
/// standard input has not been read.
pub open spec fn pattern_source(given: Option<Seq<char>>, stdin: Option<Seq<char>>) -> Option<Result<Seq<char>, Seq<char>>> {
    match given {
        Some(p) => Some(Ok(p)),
        None => match stdin {
            None => None,
            Some(buf) => if trim_newlines(buf).len() == 0 {
                Some(Err(no_pattern_spec()))
            } else {
                Some(Ok(trim_newlines(buf)))
            },
        },
    }
}

pub open spec fn stdin_view(stdin: Option<&str>) -> Option<Seq<char>> {
    match stdin {
        Some(b) => Some(b@),
        None => None,
    }
}

/// An error outcome: `rxray: ` and the message on standard error, exit 2.
pub open spec fn error_outcome(o: Outcome, msg: Seq<char>) -> bool {
    &&& o.to_stderr
    &&& o.exit == USAGE_EXIT
    &&& o.first_line@ == "rxray: "@ + msg
    &&& o.analysis is None
}

/// The program's outcome for a pattern `p` read with options `om`, after the
/// analysis: a report line (the class, a tab, the pattern) and the threshold's
/// exit code, or an error.
pub open spec fn analysis_outcome(o: Outcome, om: OptionsModel, p: Seq<char>) -> bool {
    match ascii_parse(p) {
        None => o.to_stderr && o.exit == USAGE_EXIT && o.analysis is None && (o.first_line@.len() >= 20
            && o.first_line@.take(20) == "rxray: parse error: "@),
        Some(node) => if caps_of(om.engine).backtracks && sat(est(node) as int) > MAX_NFA_STATES {
            error_outcome(o, too_complex_failure(sat(est(node) as int) as nat))
        } else {
            &&& !o.to_stderr
            &&& o.analysis matches Some((opts, pat, rep)) && {
                &&& options_view(opts) == om
                &&& pat@ == p
                &&& node_report(node, om.engine, Ok(rep))
                &&& o.first_line@ == class_label_spec(rep.worst) + "\t"@ + p
                &&& o.exit == (if exceeds(om.threshold, rep.worst) {
                    1u8
                } else {
                    0u8
                })
            }
        },
    }
}

/// The whole program on the arguments `args` (without the program name) and,
/// once it asked for it, the text of standard input: a usage error ends with
/// its message and exit 2; help prints the usage line and exits 0; otherwise
/// the pattern is the argument, or standard input when none was given, and the
/// run ends as [`analysis_outcome`] says.
pub fn run_program(args: &Vec<String>, stdin: Option<&str>) -> (s: Step)
    ensures
        ({
            let a = args_from(args_view(args@), 0, default_options());
            match a {
                Err(msg) => s matches Step::Done(o) && error_outcome(o, msg),
                Ok(None) => s matches Step::Done(o) && !o.to_stderr && o.exit == 0 && o.first_line@ == usage_spec()
                    && o.analysis is None,
                Ok(Some(om)) => match pattern_source(om.pattern, stdin_view(stdin)) {
                    None => s is ReadStdin,
                    Some(Err(msg)) => s matches Step::Done(o) && error_outcome(o, msg),
                    Some(Ok(p)) => s matches Step::Done(o) && analysis_outcome(o, om, p),
                },
            }
        }),
{
    let opts = match parse_args(args) {
        Err(msg) => {
            let mut line = String::from_str("rxray: ");
            line.append(msg.as_str());
            return Step::Done(Outcome { first_line: line, to_stderr: true, exit: USAGE_EXIT, analysis: None });
        },
        Ok(Command::Help) => {
            let line = String::from_str(
                "usage: rxray [--engine E] [--max-complexity linear|poly|poly:K|exp] [--attack] <PATTERN>",
            );
            proof {
                reveal_strlit("usage: rxray [--engine E] [--max-complexity linear|poly|poly:K|exp] [--attack] <PATTERN>");
            }
            return Step::Done(Outcome { first_line: line, to_stderr: false, exit: 0, analysis: None });
        },
        Ok(Command::Run(opts)) => opts,
    };
    let pattern = match &opts.pattern {
        Some(p) => p.clone(),
        None => match stdin {
            None => {
                return Step::ReadStdin;
            },
            Some(buf) => match pattern_from_input(buf) {
                Ok(p) => p,
                Err(msg) => {
                    let mut line = String::from_str("rxray: ");
                    line.append(msg.as_str());
                    proof {
                        reveal_strlit("no pattern (give an argument or pipe via stdin)");
                    }
                    return Step::Done(Outcome { first_line: line, to_stderr: true, exit: USAGE_EXIT, analysis: None });
                },
            },
        },
    };
    match analyze(pattern.as_str(), opts.engine) {
        Ok(report) => {
            let mut line = class_label(report.worst);
            line.append("\t");
            line.append(pattern.as_str());
            let exit = exit_code(&opts.threshold, report.worst);
            Step::Done(Outcome { first_line: line, to_stderr: false, exit, analysis: Some((opts, pattern, report)) })
        },
        Err(e) => {
            let mut line = String::from_str("rxray: ");
            let msg = failure_message(&e);
            line.append(msg.as_str());
            proof {
                if e is Parse {
                    reveal_strlit("rxray: ");
                    reveal_strlit("parse error: ");
                    reveal_strlit("rxray: parse error: ");
                    let d = choose|d: String|
                        vstd::string::to_string_from_display_ensures::<Box<regex_syntax::Error>>(&e->Parse_0, d) && msg@
                            == "parse error: "@ + d@;
                    assert(line@ =~= "rxray: parse error: "@ + d@);
                    assert(line@.take(20) =~= "rxray: parse error: "@);
                }
            }
            Step::Done(Outcome { first_line: line, to_stderr: true, exit: USAGE_EXIT, analysis: None })
        },
    }
}

proof fn lemma_digit_char(d: nat)
    requires
        d < 10,
    ensures
        '0' <= digit_char(d) <= '9',
        digit_char(d) as int - '0' as int == d,
{
    let t = seq!['0', '1', '2', '3', '4', '5', '6', '7', '8', '9'];
    assert(digit_char(d) == t[d as int]);
    if d == 0 {} else if d == 1 {} else if d == 2 {} else if d == 3 {} else if d == 4 {}
    else if d == 5 {} else if d == 6 {} else if d == 7 {} else if d == 8 {} else {}
}

/// Two strings that differ at position `i` differ.
proof fn lemma_differ_at(a: Seq<char>, b: Seq<char>, i: int)
    requires
        0 <= i < a.len(),
        i < b.len(),
        a[i] != b[i],
    ensures
        a != b,
{
}

/// The decimal digits of `n` read back as `n`.
proof fn lemma_decimal_digits(n: nat)
    ensures
        decimal(n).len() > 0,
        all_digits(decimal(n)),
        digits_value(decimal(n)) == n,
    decreases n,
{
    let d = decimal(n);
    if n < 10 {
        lemma_digit_char(n);
        assert(d[0] == digit_char(n));
        assert(d.drop_last() =~= Seq::<char>::empty());
        assert(d.last() == digit_char(n));
        assert(digits_value(d) == digits_value(d.drop_last()) * 10 + (d.last() as int - '0' as int));
        assert(digits_value(Seq::<char>::empty()) == 0);
    } else {
        lemma_digit_char(n % 10);
        lemma_decimal_digits(n / 10);
        assert(n == (n / 10) * 10 + n % 10);
        assert(digits_value(d) == digits_value(d.drop_last()) * 10 + (d.last() as int - '0' as int));
        let p = decimal(n / 10);
        assert(d == p.push(digit_char(n % 10)));
        assert(d.drop_last() =~= p);
        assert(d.last() == digit_char(n % 10));
        assert forall|i: int| 0 <= i < d.len() implies '0' <= #[trigger] d[i] && d[i] <= '9' by {
            if i < p.len() {
                assert(d[i] == p[i]);
            }
        }
    }
}

/// Every documented `--max-complexity` level means what its name says: `linear`
/// (the default) tolerates only linear patterns, `exp` tolerates everything,
/// `poly` tolerates every polynomial degree, and `poly:K`, for every `K`,
/// tolerates degrees up to `K`. Each long name and its short form parse alike.
pub proof fn lemma_level_names(k: u32)
    ensures
        threshold_named("linear"@) == Ok::<Threshold, Seq<char>>(default_options().threshold),
        threshold_named("linear"@) == threshold_named("lin"@),
        threshold_named("exponential"@) == threshold_named("exp"@),
        threshold_named("polynomial"@) == threshold_named("poly"@),
        threshold_named("linear"@) matches Ok(t) && forall|c: ComplexityClass| #[trigger] exceeds(t, c) <==> c != ComplexityClass::Linear,
        threshold_named("exp"@) matches Ok(t) && forall|c: ComplexityClass| !#[trigger] exceeds(t, c),
        threshold_named("poly"@) matches Ok(t) && forall|c: ComplexityClass| #[trigger] exceeds(t, c) <==> c == ComplexityClass::Exponential,
        threshold_named("poly:"@ + decimal(k as nat)) matches Ok(t) && forall|d: u32|
            #[trigger] exceeds(t, ComplexityClass::Polynomial(d)) <==> d > k,
        threshold_named("poly"@ + decimal(k as nat)) == threshold_named("poly:"@ + decimal(k as nat)),
{
    reveal_strlit("linear");
    reveal_strlit("lin");
    reveal_strlit("exp");
    reveal_strlit("exponential");
    reveal_strlit("poly");
    reveal_strlit("polynomial");
    reveal_strlit("poly:");
    assert("lin"@.len() != "linear"@.len());
    lemma_differ_at("exp"@, "linear"@, 0);
    lemma_differ_at("exp"@, "lin"@, 0);
    lemma_differ_at("exponential"@, "linear"@, 0);
    lemma_differ_at("exponential"@, "lin"@, 0);
    assert("exponential"@.len() != "exp"@.len());
    lemma_differ_at("poly"@, "linear"@, 0);
    lemma_differ_at("poly"@, "lin"@, 0);
    lemma_differ_at("poly"@, "exp"@, 0);
    lemma_differ_at("poly"@, "exponential"@, 0);
    lemma_differ_at("polynomial"@, "linear"@, 0);
    lemma_differ_at("polynomial"@, "lin"@, 0);
    lemma_differ_at("polynomial"@, "exp"@, 0);
    lemma_differ_at("polynomial"@, "exponential"@, 0);
    assert("polynomial"@.len() != "poly"@.len());
    let dk = decimal(k as nat);
    lemma_decimal_digits(k as nat);
    let low = "poly:"@ + dk;
    assert(low[4] == ':');
    lemma_differ_at(low, "linear"@, 0);
    lemma_differ_at(low, "exponential"@, 0);
    assert(low != "linear"@ && low != "lin"@ && low != "exp"@ && low != "exponential"@);
    assert(low != "poly"@ && low != "polynomial"@) by {
        assert("polynomial"@[4] == 'n');
    }
    assert(low.take(5) =~= "poly:"@);
    assert(low.skip(5) =~= dk);
    if dk.len() > 0 && dk[0] == '+' {
        assert(!all_digits(dk));
    }
    assert(u32_from_str(dk) == Some(k));
    let low2 = "poly"@ + dk;
    lemma_differ_at(low2, "linear"@, 0);
    lemma_differ_at(low2, "lin"@, 0);
    lemma_differ_at(low2, "exp"@, 0);
    lemma_differ_at(low2, "exponential"@, 0);
    assert('0' <= low2[4] <= '9');
    lemma_differ_at(low2, "polynomial"@, 4);
    assert(low2 != "poly"@);
    assert(!(low2.take(5) =~= "poly:"@)) by {
        assert(low2.take(5)[4] == low2[4]);
    }
    assert(low2.take(4) =~= "poly"@);
    assert(low2.skip(4) =~= dk);
}

/// Every engine has a name, and a name selects an engine that cannot
/// backtrack (so every pattern is linear on it) only when it is `rust` or
/// `go`: a backtracking engine is never mistaken for a linear one.
pub proof fn lemma_engine_names(low: Seq<char>, e: Engine)
    ensures
        exists|name: Seq<char>| #[trigger] engine_named(name) == Some(e),
        engine_named(low) matches Some(f) && !caps_of(f).backtracks ==> low == "rust"@ || low == "go"@,
{
    reveal_strlit("rust");
    reveal_strlit("fancy");
    reveal_strlit("pcre2");
    reveal_strlit("pcre");
    reveal_strlit("js");
    reveal_strlit("javascript");
    reveal_strlit("python");
    reveal_strlit("py");
    reveal_strlit("java");
    reveal_strlit("dotnet");
    reveal_strlit(".net");
    reveal_strlit("php");
    reveal_strlit("ruby");
    reveal_strlit("go");
    let name = match e {
        Engine::RustRegex => "rust"@,
        Engine::FancyRegex => "fancy"@,
        Engine::Pcre2 => "pcre2"@,
        Engine::JavaScript => "js"@,
        Engine::Python => "python"@,
        Engine::Java => "java"@,
        Engine::DotNet => "dotnet"@,
        Engine::Php => "php"@,
        Engine::Ruby => "ruby"@,
        Engine::Go => "go"@,
    };
    lemma_differ_at("fancy"@, "rust"@, 0);
    lemma_differ_at("pcre2"@, "rust"@, 0);
    lemma_differ_at("pcre2"@, "fancy"@, 0);
    lemma_differ_at("pcre"@, "rust"@, 0);
    lemma_differ_at("pcre"@, "fancy"@, 0);
    assert("pcre"@.len() != "pcre2"@.len());
    lemma_differ_at("js"@, "rust"@, 0);
    lemma_differ_at("js"@, "fancy"@, 0);
    lemma_differ_at("js"@, "pcre2"@, 0);
    lemma_differ_at("js"@, "pcre"@, 0);
    lemma_differ_at("javascript"@, "rust"@, 0);
    lemma_differ_at("javascript"@, "fancy"@, 0);
    lemma_differ_at("javascript"@, "pcre2"@, 0);
    lemma_differ_at("javascript"@, "pcre"@, 0);
    lemma_differ_at("javascript"@, "js"@, 1);
    lemma_differ_at("python"@, "rust"@, 0);
    lemma_differ_at("python"@, "fancy"@, 0);
    lemma_differ_at("python"@, "pcre2"@, 1);
    lemma_differ_at("python"@, "pcre"@, 1);
    lemma_differ_at("python"@, "js"@, 0);
    lemma_differ_at("python"@, "javascript"@, 0);
    lemma_differ_at("py"@, "rust"@, 0);
    lemma_differ_at("py"@, "fancy"@, 0);
    lemma_differ_at("py"@, "pcre2"@, 1);
    lemma_differ_at("py"@, "pcre"@, 1);
    lemma_differ_at("py"@, "js"@, 0);
    lemma_differ_at("py"@, "javascript"@, 0);
    assert("py"@.len() != "python"@.len());
    lemma_differ_at("java"@, "rust"@, 0);
    lemma_differ_at("java"@, "fancy"@, 0);
    lemma_differ_at("java"@, "pcre2"@, 0);
    lemma_differ_at("java"@, "pcre"@, 0);
    lemma_differ_at("java"@, "js"@, 1);
    assert("java"@.len() != "javascript"@.len());
    lemma_differ_at("java"@, "python"@, 0);
    lemma_differ_at("java"@, "py"@, 0);
    lemma_differ_at("dotnet"@, "rust"@, 0);
    lemma_differ_at("dotnet"@, "fancy"@, 0);
    lemma_differ_at("dotnet"@, "pcre2"@, 0);
    lemma_differ_at("dotnet"@, "pcre"@, 0);
    lemma_differ_at("dotnet"@, "js"@, 0);
    lemma_differ_at("dotnet"@, "javascript"@, 0);
    lemma_differ_at("dotnet"@, "python"@, 0);
    lemma_differ_at("dotnet"@, "py"@, 0);
    lemma_differ_at("dotnet"@, "java"@, 0);
    lemma_differ_at(".net"@, "rust"@, 0);
    lemma_differ_at(".net"@, "fancy"@, 0);
    lemma_differ_at(".net"@, "pcre2"@, 0);
    lemma_differ_at(".net"@, "pcre"@, 0);
    lemma_differ_at(".net"@, "js"@, 0);
    lemma_differ_at(".net"@, "javascript"@, 0);
    lemma_differ_at(".net"@, "python"@, 0);
    lemma_differ_at(".net"@, "py"@, 0);
    lemma_differ_at(".net"@, "java"@, 0);
    lemma_differ_at(".net"@, "dotnet"@, 0);
    lemma_differ_at("php"@, "rust"@, 0);
    lemma_differ_at("php"@, "fancy"@, 0);
    lemma_differ_at("php"@, "pcre2"@, 1);
    lemma_differ_at("php"@, "pcre"@, 1);
    lemma_differ_at("php"@, "js"@, 0);
    lemma_differ_at("php"@, "javascript"@, 0);
    lemma_differ_at("php"@, "python"@, 1);
    lemma_differ_at("php"@, "py"@, 1);
    lemma_differ_at("php"@, "java"@, 0);
    lemma_differ_at("php"@, "dotnet"@, 0);
    lemma_differ_at("php"@, ".net"@, 0);
    lemma_differ_at("ruby"@, "rust"@, 2);
    lemma_differ_at("ruby"@, "fancy"@, 0);
    lemma_differ_at("ruby"@, "pcre2"@, 0);
    lemma_differ_at("ruby"@, "pcre"@, 0);
    lemma_differ_at("ruby"@, "js"@, 0);
    lemma_differ_at("ruby"@, "javascript"@, 0);
    lemma_differ_at("ruby"@, "python"@, 0);
    lemma_differ_at("ruby"@, "py"@, 0);
    lemma_differ_at("ruby"@, "java"@, 0);
    lemma_differ_at("ruby"@, "dotnet"@, 0);
    lemma_differ_at("ruby"@, ".net"@, 0);
    lemma_differ_at("ruby"@, "php"@, 0);
    lemma_differ_at("go"@, "rust"@, 0);
    lemma_differ_at("go"@, "fancy"@, 0);
    lemma_differ_at("go"@, "pcre2"@, 0);
    lemma_differ_at("go"@, "pcre"@, 0);
    lemma_differ_at("go"@, "js"@, 0);
    lemma_differ_at("go"@, "javascript"@, 0);
    lemma_differ_at("go"@, "python"@, 0);
    lemma_differ_at("go"@, "py"@, 0);
    lemma_differ_at("go"@, "java"@, 0);
    lemma_differ_at("go"@, "dotnet"@, 0);
    lemma_differ_at("go"@, ".net"@, 0);
    lemma_differ_at("go"@, "php"@, 0);
    lemma_differ_at("go"@, "ruby"@, 0);
    assert(engine_named(name) == Some(e));
}

} // verus!
