//! Filtering by pattern: what to keep and what to leave out.

use regex::Regex;
use vstd::prelude::*;

verus! {

/// A compiled regular expression of the `regex` crate. Nothing is known
/// of what is inside one.
#[verifier::external_type_specification]
#[verifier::external_body]
pub struct ExRegex(Regex);

/// Whether `regex::Regex::new` accepts `pattern`: it is well formed and
/// compiles within the size that `Regex::new` allows.
pub uninterp spec fn pattern_compiles(pattern: Seq<char>) -> bool;

/// Whether the regular expression that `regex::Regex::new` makes of
/// `pattern` finds a match somewhere in `value` (`regex::Regex::is_match`).
pub uninterp spec fn pattern_matches(pattern: Seq<char>, value: Seq<char>) -> bool;

/// A pattern together with the regular expression compiled from it. Only
/// `compile` makes one, so the two always belong together.
#[derive(Debug)]
pub struct Matcher {
    source: String,
    compiled: Regex,
}

impl Matcher {
    /// The pattern that the matcher was compiled from.
    pub closed spec fn source(&self) -> Seq<char> {
        self.source@
    }
}

/// Calls `regex::Regex::new` on `pattern` and keeps the pattern beside the
/// regular expression. The contract claims that a matcher comes back
/// exactly where `Regex::new` succeeds, and that it remembers `pattern`.
#[verifier::external_body]
fn compile(pattern: &str) -> (r: Option<Matcher>)
    ensures
        r is Some <==> pattern_compiles(pattern@),
        r matches Some(matcher) ==> matcher.source() == pattern@,
{
    match Regex::new(pattern) {
        Ok(compiled) => Some(Matcher { source: pattern.to_string(), compiled }),
        Err(_) => None,
    }
}

/// Calls `regex::Regex::is_match` on the matcher's regular expression. The
/// contract names the answer by the pattern it was compiled from.
#[verifier::external_body]
fn is_match(matcher: &Matcher, value: &str) -> (b: bool)
    ensures
        b == pattern_matches(matcher.source(), value@),
{
    matcher.compiled.is_match(value)
}

/// Which values pass: those that match the pattern to go by, where there
/// is one, and do not match the pattern to leave out, where there is one.
#[derive(Debug)]
pub struct Criteria {
    included: Option<Matcher>,
    excluded: Option<Matcher>,
}

/// The two patterns of a `Criteria` that are in force.
pub struct CriteriaView {
    pub included: Option<Seq<char>>,
    pub excluded: Option<Seq<char>>,
}

/// The pattern that is in force where `pattern` was asked for: `pattern`
/// itself if it compiles, none if it does not or if none was asked for.
pub open spec fn in_force(pattern: Option<Seq<char>>) -> Option<Seq<char>> {
    match pattern {
        Some(p) => if pattern_compiles(p) {
            Some(p)
        } else {
            None
        },
        None => None,
    }
}

/// Whether `pattern`, if there is one, matches `value`.
pub open spec fn answer(pattern: Option<Seq<char>>, value: Seq<char>) -> Option<bool> {
    match pattern {
        Some(p) => Some(pattern_matches(p, value)),
        None => None,
    }
}

/// What the two answers amount to: the included pattern, if there is one,
/// has to match, and the excluded pattern, if there is one, must not.
pub open spec fn passes(included: Option<bool>, excluded: Option<bool>) -> bool {
    included != Some(false) && excluded != Some(true)
}

impl CriteriaView {
    /// The criteria that come of asking for these two patterns.
    pub open spec fn of(included: Option<Seq<char>>, excluded: Option<Seq<char>>) -> CriteriaView {
        CriteriaView { included: in_force(included), excluded: in_force(excluded) }
    }

    /// Whether `value` passes.
    pub open spec fn allows(self, value: Seq<char>) -> bool {
        passes(answer(self.included, value), answer(self.excluded, value))
    }

    /// Whether every pattern in force compiles.
    pub open spec fn is_sound(self) -> bool {
        in_force(self.included) == self.included && in_force(self.excluded) == self.excluded
    }
}

/// The text of a pattern that a caller may or may not have given.
pub open spec fn asked(pattern: Option<&String>) -> Option<Seq<char>> {
    match pattern {
        Some(p) => Some(p@),
        None => None,
    }
}

impl View for Criteria {
    type V = CriteriaView;

    closed spec fn view(&self) -> CriteriaView {
        CriteriaView {
            included: match self.included {
                Some(matcher) => Some(matcher.source()),
                None => None,
            },
            excluded: match self.excluded {
                Some(matcher) => Some(matcher.source()),
                None => None,
            },
        }
    }
}

impl Default for Criteria {
    /// Criteria without patterns, which let every value pass.
    fn default() -> (r: Self)
        ensures
            r@ == (CriteriaView { included: None, excluded: None }),
    {
        Criteria { included: None, excluded: None }
    }
}

impl Criteria {
    /// A pattern that is in force compiles: a broken pattern is never kept.
    #[verifier::type_invariant]
    spec fn sound(&self) -> bool {
        self@.is_sound()
    }

    /// Makes criteria of the two patterns. A pattern that does not compile
    /// counts as not given; making the criteria never fails.
    #[must_use]
    pub fn new(include_pattern: Option<&String>, exclude_pattern: Option<&String>) -> (r: Self)
        ensures
            r@ == CriteriaView::of(asked(include_pattern), asked(exclude_pattern)),
    {
        let included = match include_pattern {
            Some(pattern) => compile(pattern.as_str()),
            None => None,
        };
        let excluded = match exclude_pattern {
            Some(pattern) => compile(pattern.as_str()),
            None => None,
        };
        Criteria { included, excluded }
    }

    /// Decides from the answers of the two patterns, `None` standing for a
    /// pattern that is not there.
    pub fn verdict(included: Option<bool>, excluded: Option<bool>) -> (b: bool)
        ensures
            b == passes(included, excluded),
            included is None && excluded is None ==> b,
            excluded == Some(true) ==> !b,
            included == Some(false) ==> !b,
    {
        let included = match included {
            Some(found) => found,
            None => true,
        };
        let excluded = match excluded {
            Some(found) => found,
            None => false,
        };
        included && !excluded
    }

    /// Whether `value` passes.
    #[must_use]
    pub fn allow(&self, value: &str) -> (b: bool)
        ensures
            b == self@.allows(value@),
            self@.is_sound(),
    {
        proof {
            use_type_invariant(self);
        }
        let included = match &self.included {
            Some(matcher) => Some(is_match(matcher, value)),
            None => None,
        };
        let excluded = match &self.excluded {
            Some(matcher) => Some(is_match(matcher, value)),
            None => None,
        };
        Criteria::verdict(included, excluded)
    }
}

/// A pattern that does not compile counts for as much as no pattern: the
/// criteria are the same, on the included side as on the excluded side.
pub proof fn lemma_broken_pattern_is_absent(broken: Seq<char>, other: Option<Seq<char>>)
    requires
        !pattern_compiles(broken),
    ensures
        CriteriaView::of(Some(broken), other) == CriteriaView::of(None, other),
        CriteriaView::of(other, Some(broken)) == CriteriaView::of(other, None),
{
}

/// Each of the two patterns is absent, matches or does not match. Of the
/// nine combinations a value passes in four.
pub proof fn lemma_verdicts()
    ensures
        passes(None, None),
        passes(Some(true), None),
        !passes(Some(false), None),
        !passes(None, Some(true)),
        passes(None, Some(false)),
        !passes(Some(true), Some(true)),
        !passes(Some(false), Some(false)),
        passes(Some(true), Some(false)),
        !passes(Some(false), Some(true)),
{
}

/// Criteria without patterns let every value pass.
pub proof fn lemma_no_pattern_allows_all(value: Seq<char>)
    ensures
        CriteriaView::of(None, None).allows(value),
{
}

} // verus!
