//! Exclusion rules: a glob pattern over paths, optionally narrowed to a set of
//! line numbers.

use std::ops::Range;
use vstd::prelude::*;
use vstd::string::StrSliceExecFns;

use crate::error::ConfigError;
use crate::range_set::{covered, RangeSet, RangeSetBuilder};
use crate::text::{chars_of, decimal_value, fields, fields_from, is_line_number, next_index, parse_line_number};

verus! {

/// Whether glob accepts `pattern` as a pattern.
pub uninterp spec fn glob_pattern_valid(pattern: Seq<char>) -> bool;

/// Whether `path` matches the glob `pattern` under glob's default options.
pub uninterp spec fn glob_match(pattern: Seq<char>, path: Seq<char>) -> bool;

#[verifier::external_type_specification]
#[verifier::external_body]
pub struct ExPattern(glob::Pattern);

#[verifier::external_type_specification]
#[verifier::external_body]
pub struct ExPatternError(glob::PatternError);

/// Relies on glob's `Pattern::new`, which accepts or rejects a pattern
/// according to its text alone.
pub assume_specification[ glob::Pattern::new ](pattern: &str) -> (r: Result<
    glob::Pattern,
    glob::PatternError,
>)
    ensures
        r is Ok <==> glob_pattern_valid(pattern@),
;

/// A compiled glob pattern together with its text.
#[derive(Debug)]
struct GlobPattern {
    text: String,
    compiled: glob::Pattern,
}

impl View for GlobPattern {
    type V = Seq<char>;

    closed spec fn view(&self) -> Seq<char> {
        self.text@
    }
}

/// Relies on glob's `Pattern::matches` with the default options. `compiled` is
/// only ever the value that `Pattern::new` returned for `text`, and that value
/// depends on the text alone, so the answer depends on `text` and `path` alone.
#[verifier::external_body]
fn glob_matches(pattern: &GlobPattern, path: &str) -> (r: bool)
    ensures
        r == glob_match(pattern@, path@),
{
    pattern.compiled.matches(path)
}

/// The pattern of a directive: the text before its first `:`.
pub open spec fn pattern_part(directive: Seq<char>) -> Seq<char> {
    directive.take(next_index(directive, ':', 0))
}

/// The line specification of a directive: the text after its first `:`
/// (empty when there is none).
pub open spec fn line_part(directive: Seq<char>) -> Seq<char> {
    let colon = next_index(directive, ':', 0);
    if colon < directive.len() {
        directive.skip(colon + 1)
    } else {
        Seq::empty()
    }
}

/// The comma-separated tokens of a non-empty line specification.
pub open spec fn line_tokens(directive: Seq<char>) -> Seq<Seq<char>> {
    fields(line_part(directive), ',')
}

/// A token is a line number `n` or an inclusive span `a-b` with `a <= b`.
pub open spec fn token_ok(t: Seq<char>) -> bool {
    let dash = next_index(t, '-', 0);
    if dash < t.len() {
        &&& is_line_number(t.take(dash))
        &&& is_line_number(t.skip(dash + 1))
        &&& decimal_value(t.take(dash)) <= decimal_value(t.skip(dash + 1))
    } else {
        is_line_number(t)
    }
}

/// The half-open range of lines that a well-formed token names.
pub open spec fn token_range(t: Seq<char>) -> (usize, usize) {
    let dash = next_index(t, '-', 0);
    if dash < t.len() {
        (decimal_value(t.take(dash)) as usize, (decimal_value(t.skip(dash + 1)) + 1) as usize)
    } else {
        (decimal_value(t) as usize, (decimal_value(t) + 1) as usize)
    }
}

pub open spec fn all_tokens_ok(tokens: Seq<Seq<char>>) -> bool {
    forall|k: int| 0 <= k < tokens.len() ==> token_ok(#[trigger] tokens[k])
}

/// `t` is the first token of `tokens` that is not well formed.
pub open spec fn first_bad_token(tokens: Seq<Seq<char>>, t: Seq<char>) -> bool {
    exists|k: int|
        0 <= k < tokens.len() && tokens[k] == t && !token_ok(#[trigger] tokens[k])
            && all_tokens_ok(tokens.take(k))
}

/// The lines that a directive with well-formed tokens excludes.
pub open spec fn directive_lines(directive: Seq<char>) -> Set<int> {
    covered(line_tokens(directive).map_values(|t: Seq<char>| token_range(t)))
}

/// The directive's pattern is non-empty and valid, and its line tokens (if
/// any) are well formed.
pub open spec fn directive_ok(directive: Seq<char>) -> bool {
    &&& pattern_part(directive).len() > 0
    &&& glob_pattern_valid(pattern_part(directive))
    &&& line_part(directive).len() > 0 ==> all_tokens_ok(line_tokens(directive))
}

/// `e` is the error that a malformed directive gives: an empty pattern first,
/// then an invalid pattern, then the first malformed line token.
pub open spec fn directive_error(directive: Seq<char>, e: ConfigError) -> bool {
    if pattern_part(directive).len() == 0 {
        e is EmptyPattern
    } else if !glob_pattern_valid(pattern_part(directive)) {
        e matches ConfigError::InvalidPattern(p) && p@ == pattern_part(directive)
    } else {
        e matches ConfigError::InvalidLineSpec(t) && first_bad_token(line_tokens(directive), t@)
    }
}

/// An exclusion rule. Without a line set it excludes whole files; with one it
/// excludes only the listed lines of the files it matches.
#[derive(Debug)]
pub struct FileExclude {
    file_pattern: GlobPattern,
    lines: Option<RangeSet>,
}

/// Reads `chars[start..end]` as a line token.
fn parse_token(chars: &Vec<char>, start: usize, end: usize) -> (r: Option<(usize, usize)>)
    requires
        start <= end <= chars@.len(),
    ensures
        r is Some <==> token_ok(chars@.subrange(start as int, end as int)),
        r is Some ==> r->0 == token_range(chars@.subrange(start as int, end as int)),
{
    let ghost t = chars@.subrange(start as int, end as int);
    let mut j: usize = start;
    while j < end && chars[j] != '-'
        invariant
            start <= j <= end <= chars@.len(),
            t == chars@.subrange(start as int, end as int),
            next_index(t, '-', 0) == next_index(t, '-', j - start),
        decreases end - j,
    {
        j = j + 1;
    }
    if j < end {
        assert(next_index(t, '-', 0) == j - start);
        assert(t.take(j - start) =~= chars@.subrange(start as int, j as int));
        assert(t.skip(j - start + 1) =~= chars@.subrange(j + 1, end as int));
        let first = parse_line_number(chars, start, j);
        let last = parse_line_number(chars, j + 1, end);
        match (first, last) {
            (Some(a), Some(b)) => {
                if a <= b {
                    Some((a, b + 1))
                } else {
                    None
                }
            },
            _ => None,
        }
    } else {
        assert(next_index(t, '-', 0) == t.len());
        match parse_line_number(chars, start, end) {
            Some(a) => Some((a, a + 1)),
            None => None,
        }
    }
}

/// `e` is the rule that a well-formed directive describes.
pub open spec fn rule_from(e: FileExclude, directive: Seq<char>) -> bool {
    &&& e.pattern() == pattern_part(directive)
    &&& e.lines() == if line_part(directive).len() > 0 {
        Some(directive_lines(directive))
    } else {
        None
    }
}

/// Parses a line specification: comma-separated line numbers and inclusive
/// `start-end` spans. The first malformed token is the error.
pub fn parse_lines(spec_text: &str) -> (r: Result<RangeSet, ConfigError>)
    ensures
        r is Ok <==> all_tokens_ok(fields(spec_text@, ',')),
        r is Ok ==> r->Ok_0@ == covered(
            fields(spec_text@, ',').map_values(|t: Seq<char>| token_range(t)),
        ),
        r is Err ==> (r->Err_0 matches ConfigError::InvalidLineSpec(t) && first_bad_token(
            fields(spec_text@, ','),
            t@,
        )),
{
    let spec_chars = chars_of(spec_text);
    let m = spec_chars.len();
    let ghost sp = spec_chars@;
    let ghost mut done: Seq<Seq<char>> = Seq::empty();
    let mut builder = RangeSetBuilder::new();
    let mut tok_start: usize = 0;
    let mut i: usize = 0;
    while i < m
        invariant
            tok_start <= i <= m == sp.len(),
            sp == spec_chars@,
            sp == spec_text@,
            done + fields_from(sp, ',', tok_start as int, i as int) == fields(sp, ','),
            all_tokens_ok(done),
            builder@ == done.map_values(|t: Seq<char>| token_range(t)),
        decreases m - i,
    {
        if spec_chars[i] == ',' {
            let ghost tok = sp.subrange(tok_start as int, i as int);
            assert(fields_from(sp, ',', tok_start as int, i as int) == seq![tok]
                + fields_from(sp, ',', i + 1, i + 1));
            match parse_token(&spec_chars, tok_start, i) {
                Some((lo, hi)) => {
                    builder.add_range(Range { start: lo, end: hi });
                    proof {
                        assert(done.push(tok).map_values(|t: Seq<char>| token_range(t))
                            =~= done.map_values(|t: Seq<char>| token_range(t)).push(
                            token_range(tok),
                        ));
                        assert((done + seq![tok]) + fields_from(sp, ',', i + 1, i + 1)
                            =~= done + (seq![tok] + fields_from(sp, ',', i + 1, i + 1)));
                        assert(done + seq![tok] =~= done.push(tok));
                        done = done.push(tok);
                    }
                    tok_start = i + 1;
                },
                None => {
                    proof {
                        let toks = fields(sp, ',');
                        assert(toks[done.len() as int] == tok);
                        assert(toks.take(done.len() as int) =~= done);
                    }
                    return Err(
                        ConfigError::InvalidLineSpec(
                            spec_text.substring_char(tok_start, i).to_owned(),
                        ),
                    );
                },
            }
        } else {
            assert(fields_from(sp, ',', tok_start as int, i as int) == fields_from(
                sp,
                ',',
                tok_start as int,
                i + 1,
            ));
        }
        i = i + 1;
    }
    let ghost tok = sp.subrange(tok_start as int, m as int);
    assert(fields_from(sp, ',', tok_start as int, m as int) == seq![tok]);
    match parse_token(&spec_chars, tok_start, m) {
        Some((lo, hi)) => {
            builder.add_range(Range { start: lo, end: hi });
            proof {
                assert(done.push(tok).map_values(|t: Seq<char>| token_range(t))
                    =~= done.map_values(|t: Seq<char>| token_range(t)).push(
                    token_range(tok),
                ));
                assert(done + seq![tok] =~= done.push(tok));
                done = done.push(tok);
            }
        },
        None => {
            proof {
                let toks = fields(sp, ',');
                assert(toks[done.len() as int] == tok);
                assert(toks.take(done.len() as int) =~= done);
            }
            return Err(
                ConfigError::InvalidLineSpec(spec_text.substring_char(tok_start, m).to_owned()),
            );
        },
    }
    Ok(builder.build())
}

impl FileExclude {
    /// The glob pattern, as text.
    pub closed spec fn pattern(&self) -> Seq<char> {
        self.file_pattern@
    }

    /// The excluded line numbers, or `None` for a whole-file rule.
    pub closed spec fn lines(&self) -> Option<Set<int>> {
        match self.lines {
            Some(set) => Some(set@),
            None => None,
        }
    }

    /// Whether the rule leaves line `n` out of a fingerprint: every line for a
    /// whole-file rule, the listed lines otherwise.
    pub open spec fn excludes_line(&self, n: int) -> bool {
        match self.lines() {
            Some(set) => set.contains(n),
            None => true,
        }
    }

    /// Parses a directive `PATTERN` or `PATTERN:SPEC`, where `SPEC` is a
    /// comma-separated list of line numbers and inclusive `start-end` spans.
    /// An empty `SPEC` makes a whole-file rule, like a directive without `:`.
    pub fn new(directive: String) -> (r: Result<FileExclude, ConfigError>)
        ensures
            r is Ok <==> directive_ok(directive@),
            r is Ok ==> rule_from(r->Ok_0, directive@),
            r is Err ==> directive_error(directive@, r->Err_0),
    {
        let ghost d = directive@;
        let text = directive.as_str();
        let chars = chars_of(text);
        let n = chars.len();
        let mut colon: usize = 0;
        while colon < n && chars[colon] != ':'
            invariant
                colon <= n == chars@.len(),
                chars@ == d,
                next_index(d, ':', 0) == next_index(d, ':', colon as int),
            decreases n - colon,
        {
            colon = colon + 1;
        }
        assert(next_index(d, ':', 0) == colon);
        if colon == 0 {
            return Err(ConfigError::EmptyPattern);
        }
        let pattern_text = text.substring_char(0, colon);
        let compiled = match glob::Pattern::new(pattern_text) {
            Ok(p) => p,
            Err(_) => {
                return Err(ConfigError::InvalidPattern(pattern_text.to_owned()));
            },
        };
        let file_pattern = GlobPattern { text: pattern_text.to_owned(), compiled };
        assert(pattern_text@ =~= pattern_part(d));
        if n - colon <= 1 {
            assert(line_part(d).len() == 0);
            return Ok(FileExclude { file_pattern, lines: None });
        }
        let spec_text = text.substring_char(colon + 1, n);
        assert(spec_text@ =~= line_part(d));
        let lines = parse_lines(spec_text)?;
        Ok(FileExclude { file_pattern, lines: Some(lines) })
    }

    /// Whether the rule names particular lines (rather than whole files).
    pub fn has_lines(&self) -> (r: bool)
        ensures
            r == self.lines() is Some,
    {
        self.lines.is_some()
    }

    /// Whether line `line` is left out of the fingerprint of a matching file.
    pub fn in_lines(&self, line: usize) -> (r: bool)
        ensures
            r == self.excludes_line(line as int),
    {
        match &self.lines {
            Some(set) => set.contains(line),
            None => true,
        }
    }

    /// Whether the rule's pattern matches `file`, a path in string form.
    pub fn matches_file(&self, file: &str) -> (r: bool)
        ensures
            r == glob_match(self.pattern(), file@),
    {
        glob_matches(&self.file_pattern, file)
    }
}

} // verus!
