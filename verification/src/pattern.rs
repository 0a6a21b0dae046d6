//! The compiled line pattern: a regular expression and the names of its
//! capture groups.
use vstd::prelude::*;
use regex::Regex;

use crate::table::StrMap;
use crate::models::CaptureMap;

verus! {

#[verifier::external_type_specification]
#[verifier::external_body]
pub struct ExRegex(regex::Regex);

/// The outcome of `regex::Regex::new` on `pattern`: `None` when it accepts
/// the pattern (valid and within the default size limit), otherwise the text
/// of the error it returns, as the error's `Display` writes it.
pub uninterp spec fn regex_error(pattern: Seq<char>) -> Option<Seq<char>>;

/// The capture groups of the compiled `pattern`, in the order of their
/// opening parenthesis, each with its name if it has one; the first entry is
/// the unnamed group of the whole match (`regex::Regex::capture_names`).
pub uninterp spec fn regex_group_names(pattern: Seq<char>) -> Seq<Option<Seq<char>>>;

/// The result of `regex::Regex::captures` of the compiled `pattern` on
/// `line`: `None` when the pattern does not match anywhere in `line`,
/// otherwise the text of each capture group of the leftmost-first match, in
/// group order, `None` for a group that did not participate.
pub uninterp spec fn regex_captures(pattern: Seq<char>, line: Seq<char>) -> Option<
    Seq<Option<Seq<char>>>,
>;

/// A regular expression compiled from `source`.
///
/// Its fields are private and it is built only by `compile_regex`, so
/// `regex` is always the regex compiled from `source`.
pub struct CompiledRegex {
    regex: Regex,
    source: String,
}

impl View for CompiledRegex {
    type V = Seq<char>;

    closed spec fn view(&self) -> Seq<char> {
        self.source@
    }
}

/// Compiles `pattern`.
///
/// Trusted: wraps `regex::Regex::new`, which returns `Ok` exactly when the
/// pattern is valid and within the default size limit; the regex is kept
/// together with the pattern it was compiled from, and an error is turned
/// into its `Display` text.
#[verifier::external_body]
fn compile_regex(pattern: &str) -> (r: Result<CompiledRegex, String>)
    ensures
        r is Ok <==> regex_error(pattern@) is None,
        r matches Ok(c) ==> c@ == pattern@,
        r matches Err(m) ==> regex_error(pattern@) == Some(m@),
{
    Regex::new(pattern).map(|regex| CompiledRegex { regex, source: pattern.to_string() }).map_err(
        |e| e.to_string(),
    )
}

/// The capture group names of a compiled regex.
///
/// Trusted: wraps `regex::Regex::capture_names`, converting each name to a
/// `String`.
#[verifier::external_body]
fn group_names_of(c: &CompiledRegex) -> (r: Vec<Option<String>>)
    ensures
        r.deep_view() == regex_group_names(c@),
{
    c.regex.capture_names().map(|n| n.map(|s| s.to_string())).collect()
}

/// The capture groups of the first match of a compiled regex in `line`.
///
/// Trusted: wraps `regex::Regex::captures`, converting the groups yielded
/// by `Captures::iter` to owned strings.
#[verifier::external_body]
fn captures_of(c: &CompiledRegex, line: &str) -> (r: Option<Vec<Option<String>>>)
    ensures
        r.deep_view() == regex_captures(c@, line@),
{
    c.regex.captures(line).map(|caps| caps.iter().map(|m| m.map(|m| m.as_str().to_string())).collect())
}

/// A pattern that was rejected, with the compiler's explanation.
#[derive(Debug)]
pub struct PatternError {
    pub message: String,
}

/// The map from group names to texts for one match: each named group that
/// participated, paired by position with the group texts; among the first
/// `n` positions, a later position wins over an earlier one with the same
/// name.
pub open spec fn named_values(
    names: Seq<Option<Seq<char>>>,
    groups: Seq<Option<Seq<char>>>,
    n: nat,
) -> Map<Seq<char>, Seq<char>>
    decreases n,
{
    if n == 0 {
        Map::empty()
    } else {
        let m = named_values(names, groups, (n - 1) as nat);
        let i = n - 1;
        if i < names.len() && i < groups.len() && names[i] is Some && groups[i] is Some {
            m.insert(names[i]->0, groups[i]->0)
        } else {
            m
        }
    }
}

/// The named capture values of one match.
pub open spec fn capture_values(
    names: Seq<Option<Seq<char>>>,
    groups: Seq<Option<Seq<char>>>,
) -> Map<Seq<char>, Seq<char>> {
    named_values(names, groups, if names.len() < groups.len() { names.len() } else { groups.len() })
}

proof fn lemma_named_values_keys(
    names: Seq<Option<Seq<char>>>,
    groups: Seq<Option<Seq<char>>>,
    n: nat,
    k: Seq<char>,
)
    requires
        n <= names.len(),
        n <= groups.len(),
    ensures
        named_values(names, groups, n).contains_key(k) ==> exists|i: int|
            0 <= i < n && names[i] == Some(k) && groups[i] is Some && named_values(names, groups, n)[k]
                == groups[i]->0,
        (exists|i: int| 0 <= i < n && names[i] == Some(k) && groups[i] is Some) ==> named_values(
            names,
            groups,
            n,
        ).contains_key(k),
    decreases n,
{
    if n > 0 {
        lemma_named_values_keys(names, groups, (n - 1) as nat, k);
        let m = named_values(names, groups, (n - 1) as nat);
        let i = n - 1;
        if exists|j: int| 0 <= j < n && names[j] == Some(k) && groups[j] is Some {
            let j = choose|j: int| 0 <= j < n && names[j] == Some(k) && groups[j] is Some;
            if j < n - 1 {
                assert(m.contains_key(k));
            }
        }
        if named_values(names, groups, n).contains_key(k) {
            if names[i] == Some(k) && groups[i] is Some {
                assert(named_values(names, groups, n)[k] == groups[i]->0);
            } else {
                assert(m.contains_key(k));
                let j = choose|j: int|
                    0 <= j < n - 1 && names[j] == Some(k) && groups[j] is Some && m[k] == groups[j]->0;
                assert(named_values(names, groups, n)[k] == m[k]);
            }
        }
    }
}

/// A group named `k` that participated with text `t`, when no other group
/// bears that name, gives exactly `t` under `k`, the whole text of the group.
pub proof fn lemma_capture_value_is_group_text(
    names: Seq<Option<Seq<char>>>,
    groups: Seq<Option<Seq<char>>>,
    i: int,
    k: Seq<char>,
    t: Seq<char>,
)
    requires
        0 <= i < names.len(),
        i < groups.len(),
        names[i] == Some(k),
        groups[i] == Some(t),
        forall|j: int| 0 <= j < names.len() && j != i ==> names[j] != Some(k),
    ensures
        capture_values(names, groups).contains_key(k),
        capture_values(names, groups)[k] == t,
{
    let n: nat = if names.len() < groups.len() { names.len() } else { groups.len() };
    lemma_named_values_keys(names, groups, n, k);
}

/// Every capture value is the whole text of a participating group that
/// bears its name; no other key appears.
pub proof fn lemma_capture_values_come_from_groups(
    names: Seq<Option<Seq<char>>>,
    groups: Seq<Option<Seq<char>>>,
    k: Seq<char>,
)
    ensures
        capture_values(names, groups).contains_key(k) <==> exists|i: int|
            0 <= i < names.len() && i < groups.len() && names[i] == Some(k) && groups[i] is Some,
        capture_values(names, groups).contains_key(k) ==> exists|i: int|
            0 <= i < names.len() && i < groups.len() && names[i] == Some(k) && groups[i]
                == Some(capture_values(names, groups)[k]),
{
    let n: nat = if names.len() < groups.len() { names.len() } else { groups.len() };
    lemma_named_values_keys(names, groups, n, k);
    if exists|i: int| 0 <= i < names.len() && i < groups.len() && names[i] == Some(k) && groups[i] is Some {
        let i = choose|i: int| 0 <= i < names.len() && i < groups.len() && names[i] == Some(k) && groups[i] is Some;
        assert(0 <= i < n);
    }
    if capture_values(names, groups).contains_key(k) {
        let i = choose|i: int|
            0 <= i < n && names[i] == Some(k) && groups[i] is Some && named_values(names, groups, n)[k]
                == groups[i]->0;
        assert(groups[i] == Some(capture_values(names, groups)[k]));
    }
}

/// A match of a pattern without named groups has no capture values.
pub proof fn lemma_unnamed_groups_capture_nothing(
    names: Seq<Option<Seq<char>>>,
    groups: Seq<Option<Seq<char>>>,
    n: nat,
)
    requires
        forall|i: int| 0 <= i < names.len() ==> #[trigger] names[i] is None,
    ensures
        named_values(names, groups, n) == Map::<Seq<char>, Seq<char>>::empty(),
    decreases n,
{
    if n > 0 {
        lemma_unnamed_groups_capture_nothing(names, groups, (n - 1) as nat);
        if n - 1 < names.len() {
            assert(names[n - 1] is None);
        }
    }
}

/// The named capture values of `line` under `pattern`, or `None` when the
/// pattern does not match the line.
pub open spec fn line_fields(pattern: Seq<char>, line: Seq<char>) -> Option<Map<Seq<char>, Seq<char>>> {
    match regex_captures(pattern, line) {
        Some(groups) => Some(capture_values(regex_group_names(pattern), groups)),
        None => None,
    }
}

/// A line yields capture values exactly when the regex matches it, and then
/// each named group that participated, and whose name no other group bears,
/// gives its whole text under its name.
pub proof fn lemma_line_fields_follow_regex(pattern: Seq<char>, line: Seq<char>)
    ensures
        line_fields(pattern, line) is Some <==> regex_captures(pattern, line) is Some,
        regex_captures(pattern, line) is Some ==> forall|i: int|
            0 <= i < regex_group_names(pattern).len() && i < regex_captures(pattern, line)->0.len()
                && (#[trigger] regex_group_names(pattern)[i]) is Some && regex_captures(pattern, line)->0[i] is Some
                && (forall|j: int|
                0 <= j < regex_group_names(pattern).len() && j != i ==> regex_group_names(pattern)[j]
                    != regex_group_names(pattern)[i]) ==> line_fields(pattern, line)->0.contains_key(
                regex_group_names(pattern)[i]->0,
            ) && line_fields(pattern, line)->0[regex_group_names(pattern)[i]->0] == regex_captures(
                pattern,
                line,
            )->0[i]->0,
{
    if regex_captures(pattern, line) is Some {
        let names = regex_group_names(pattern);
        let groups = regex_captures(pattern, line)->0;
        assert forall|i: int|
            0 <= i < names.len() && i < groups.len() && (#[trigger] names[i]) is Some && groups[i] is Some
                && (forall|j: int| 0 <= j < names.len() && j != i ==> names[j] != names[i]) implies line_fields(
            pattern,
            line,
        )->0.contains_key(names[i]->0) && line_fields(pattern, line)->0[names[i]->0] == groups[i]->0 by {
            lemma_capture_value_is_group_text(names, groups, i, names[i]->0, groups[i]->0);
        }
    }
}

/// Pairs group names with the texts of one match, keeping the named groups
/// that participated.
pub fn named_captures(names: &Vec<Option<String>>, groups: &Vec<Option<String>>) -> (m: CaptureMap)
    ensures
        m@ == capture_values(names.deep_view(), groups.deep_view()),
{
    let ghost nv = names.deep_view();
    let ghost gv = groups.deep_view();
    let n = if names.len() < groups.len() {
        names.len()
    } else {
        groups.len()
    };
    let mut m: CaptureMap = StrMap::new();
    let mut i: usize = 0;
    while i < n
        invariant
            i <= n,
            n <= names.len(),
            n <= groups.len(),
            nv == names.deep_view(),
            gv == groups.deep_view(),
            m@ == named_values(nv, gv, i as nat),
        decreases n - i,
    {
        match (&names[i], &groups[i]) {
            (Some(name), Some(text)) => {
                m.insert(name.clone(), text.clone());
            },
            _ => {},
        }
        i = i + 1;
    }
    m
}

/// A compiled regular expression with the names of its capture groups.
pub struct LinePattern {
    compiled: CompiledRegex,
    names: Vec<Option<String>>,
}

impl View for LinePattern {
    type V = Seq<char>;

    closed spec fn view(&self) -> Seq<char> {
        self.compiled@
    }
}

impl LinePattern {
    /// The group names are those of the compiled pattern.
    #[verifier::type_invariant]
    pub closed spec fn names_match(&self) -> bool {
        self.names.deep_view() == regex_group_names(self.compiled@)
    }

    /// Compiles `pattern`; fails exactly when the regex engine rejects it.
    pub fn new(pattern: &str) -> (r: Result<LinePattern, PatternError>)
        ensures
            r is Ok <==> regex_error(pattern@) is None,
            r matches Ok(p) ==> p@ == pattern@,
            r matches Err(e) ==> regex_error(pattern@) == Some(e.message@),
    {
        match compile_regex(pattern) {
            Ok(compiled) => {
                let names = group_names_of(&compiled);
                Ok(LinePattern { compiled, names })
            },
            Err(message) => Err(PatternError { message }),
        }
    }

    /// The pattern text this regex was compiled from.
    pub fn as_str(&self) -> (s: &str)
        ensures
            s@ == self@,
    {
        self.compiled.source.as_str()
    }

    /// The capture groups, each with its name if it has one.
    pub fn group_names(&self) -> (r: &Vec<Option<String>>)
        ensures
            r.deep_view() == regex_group_names(self@),
    {
        proof {
            use_type_invariant(self);
        }
        &self.names
    }

    /// The named capture values of `line`, or `None` when the pattern does
    /// not match it.
    pub fn match_line(&self, line: &str) -> (r: Option<CaptureMap>)
        ensures
            match r {
                Some(m) => line_fields(self@, line@) == Some(m@),
                None => line_fields(self@, line@) is None,
            },
    {
        proof {
            use_type_invariant(self);
        }
        match captures_of(&self.compiled, line) {
            Some(groups) => Some(named_captures(&self.names, &groups)),
            None => None,
        }
    }
}

} // verus!
