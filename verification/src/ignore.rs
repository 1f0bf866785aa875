//! Git-ignore-compatible exclusion rules.
//!
//! - a blank line matches nothing, and `#` starts a comment;
//! - trailing spaces are stripped unless escaped with a backslash;
//! - `!` negates, and the last matching pattern decides;
//! - a trailing `/` matches directories only;
//! - a `/` anywhere but the end anchors the pattern to the directory holding the ignore
//!   file, and a pattern with no such `/` matches at any depth;
//! - `*` and `?` do not cross a `/`, `**` does;
//! - `[abc]`, `[a-z]`, and `[!abc]` are character classes.
//!
//! [`IgnoreStack::excludes`] answers about exactly the path it is given. A scanner never
//! descends into an excluded directory, so a file beneath one is never asked about.

use crate::text::characters;
use vstd::prelude::*;

verus! {

// -- Globs -------------------------------------------------------------------------

/// Reads a character class from `at`, which stands behind the opening bracket and its
/// negation. Yields whether an item holds `candidate`, and where the class ends.
///
/// `first` says that no item was read yet: a `]` there is an ordinary character.
pub open spec fn class_items(
    pattern: Seq<char>,
    at: int,
    first: bool,
    accepts: bool,
    candidate: Option<char>,
) -> Option<(bool, int)>
    decreases pattern.len() - at,
{
    if at >= pattern.len() {
        None
    } else if pattern[at] == ']' && !first {
        Some((accepts, at + 1))
    } else if at + 2 < pattern.len() && pattern[at + 1] == '-' && pattern[at + 2] != ']' {
        let within = candidate is Some && pattern[at] <= candidate->0 && candidate->0 <= pattern[at
            + 2];
        class_items(pattern, at + 3, false, accepts || within, candidate)
    } else {
        class_items(pattern, at + 1, false, accepts || candidate == Some(pattern[at]), candidate)
    }
}

/// Whether the class opened at `p` is negated.
pub open spec fn class_negated(pattern: Seq<char>, p: int) -> bool {
    p + 1 < pattern.len() && (pattern[p + 1] == '!' || pattern[p + 1] == '^')
}

/// Whether the class opened at `p` accepts `candidate`, and where it ends. A class that is
/// never closed yields nothing.
pub open spec fn class_at(pattern: Seq<char>, p: int, candidate: Option<char>) -> Option<
    (bool, int),
> {
    let negated = class_negated(pattern, p);
    let start = if negated {
        p + 2
    } else {
        p + 1
    };
    match class_items(pattern, start, true, false, candidate) {
        None => None,
        Some((accepts, end)) => Some((accepts != negated, end)),
    }
}

/// Whether a double star stands at `p`.
pub open spec fn double_star(pattern: Seq<char>, p: int) -> bool {
    pattern[p] == '*' && p + 1 < pattern.len() && pattern[p + 1] == '*'
}

/// Whether a `/` stands behind the double star at `p`.
pub open spec fn whole_directories(pattern: Seq<char>, p: int) -> bool {
    p + 2 < pattern.len() && pattern[p + 2] == '/'
}

/// Whether a segment of a path starts at `t`.
pub open spec fn starts_segment(path: Seq<char>, t: int) -> bool {
    t == 0 || path[t - 1] == '/'
}

/// What a star stands for.
#[derive(Clone, Copy, Debug, PartialEq, Eq, Structural)]
pub enum Star {
    /// `*`: characters of one segment.
    Within,
    /// `**`: any characters.
    Across,
    /// `**/`: whole directories, or nothing.
    Directories,
}

/// Whether a star that stands before `pattern[after..]` matches `path[t..]` together with it:
/// the star stands for nothing, or for one character and then for more. A single star
/// stands for no separator, and behind whole directories a segment starts.
pub open spec fn star_from(
    pattern: Seq<char>,
    after: int,
    path: Seq<char>,
    t: int,
    star: Star,
) -> bool
    decreases pattern.len() - after, 2 * (path.len() - t) + 1,
    when 0 <= after <= pattern.len() && 0 <= t <= path.len()
{
    ||| (star == Star::Directories ==> starts_segment(path, t)) && glob_from(
        pattern,
        after,
        path,
        t,
    )
    ||| t < path.len() && (star == Star::Within ==> path[t] != '/') && star_from(
        pattern,
        after,
        path,
        t + 1,
        star,
    )
}

/// Whether `pattern[p..]` matches `path[t..]`.
///
/// `**` stands for any characters, and with a `/` behind it for whole directories or nothing.
/// `*` stands for any characters but separators, `?` for one that is no separator, a class
/// for one that it accepts and that is no separator, and a backslash makes the next character
/// ordinary.
pub open spec fn glob_from(pattern: Seq<char>, p: int, path: Seq<char>, t: int) -> bool
    decreases pattern.len() - p, 2 * (path.len() - t),
    when 0 <= p <= pattern.len() && 0 <= t <= path.len()
    via glob_shrinks
{
    if p >= pattern.len() {
        t == path.len()
    } else if double_star(pattern, p) {
        if whole_directories(pattern, p) {
            star_from(pattern, p + 3, path, t, Star::Directories)
        } else {
            star_from(pattern, p + 2, path, t, Star::Across)
        }
    } else if pattern[p] == '*' {
        star_from(pattern, p + 1, path, t, Star::Within)
    } else if pattern[p] == '?' {
        t < path.len() && path[t] != '/' && glob_from(pattern, p + 1, path, t + 1)
    } else if pattern[p] == '[' {
        match class_at(
            pattern,
            p,
            if t < path.len() {
                Some(path[t])
            } else {
                None
            },
        ) {
            None => t < path.len() && path[t] == '[' && glob_from(pattern, p + 1, path, t + 1),
            Some((accepts, end)) => accepts && t < path.len() && path[t] != '/' && glob_from(
                pattern,
                end,
                path,
                t + 1,
            ),
        }
    } else if pattern[p] == '\\' && p + 1 < pattern.len() {
        t < path.len() && path[t] == pattern[p + 1] && glob_from(pattern, p + 2, path, t + 1)
    } else {
        t < path.len() && path[t] == pattern[p] && glob_from(pattern, p + 1, path, t + 1)
    }
}

/// Whether a whole pattern matches a whole path.
pub open spec fn glob_matches(pattern: Seq<char>, path: Seq<char>) -> bool {
    glob_from(pattern, 0, path, 0)
}

proof fn class_items_end(
    pattern: Seq<char>,
    at: int,
    first: bool,
    accepts: bool,
    candidate: Option<char>,
)
    requires
        0 <= at,
    ensures
        class_items(pattern, at, first, accepts, candidate) matches Some((_, end)) ==> at < end
            <= pattern.len(),
    decreases pattern.len() - at,
{
    if at >= pattern.len() {
    } else if pattern[at] == ']' && !first {
    } else if at + 2 < pattern.len() && pattern[at + 1] == '-' && pattern[at + 2] != ']' {
        let within = candidate is Some && pattern[at] <= candidate->0 && candidate->0 <= pattern[at
            + 2];
        class_items_end(pattern, at + 3, false, accepts || within, candidate);
    } else {
        class_items_end(
            pattern,
            at + 1,
            false,
            accepts || candidate == Some(pattern[at]),
            candidate,
        );
    }
}

#[via_fn]
proof fn glob_shrinks(pattern: Seq<char>, p: int, path: Seq<char>, t: int) {
    if p < pattern.len() && pattern[p] == '[' {
        let candidate = if t < path.len() {
            Some(path[t])
        } else {
            None
        };
        let start = if class_negated(pattern, p) {
            p + 2
        } else {
            p + 1
        };
        class_items_end(pattern, start, true, false, candidate);
    }
}

/// Reads `[...]` at `p`, reporting whether it accepts `candidate` and where it ends.
fn character_class(pattern: &Vec<char>, p: usize, candidate: Option<char>) -> (read: Option<
    (bool, usize),
>)
    requires
        p < pattern.len(),
    ensures
        match read {
            None => class_at(pattern@, p as int, candidate) is None,
            Some((accepts, end)) => class_at(pattern@, p as int, candidate) == Some(
                (accepts, end as int),
            ) && p < end <= pattern@.len(),
        },
{
    let mut at: usize = p + 1;
    let negated = at < pattern.len() && (pattern[at] == '!' || pattern[at] == '^');
    if negated {
        at = at + 1;
    }
    let mut accepts = false;
    let mut first = true;
    let ghost start = at as int;
    while at < pattern.len()
        invariant
            p < start <= at <= pattern.len(),
            negated == class_negated(pattern@, p as int),
            start == (if negated {
                p + 2
            } else {
                p + 1
            }),
            class_items(pattern@, start, true, false, candidate) == class_items(
                pattern@,
                at as int,
                first,
                accepts,
                candidate,
            ),
        decreases pattern@.len() - at,
    {
        let low: char = pattern[at];
        if low == ']' && !first {
            return Some((accepts != negated, at + 1));
        }
        first = false;
        if pattern.len() - at > 2 && pattern[at + 1] == '-' && pattern[at + 2] != ']' {
            let high: char = pattern[at + 2];
            if let Some(character) = candidate {
                if character >= low && character <= high {
                    accepts = true;
                }
            }
            at = at + 3;
        } else {
            if let Some(character) = candidate {
                if character == low {
                    accepts = true;
                }
            }
            at = at + 1;
        }
    }
    None
}

/// Matches a star and then `pattern[after..]` against `path[t..]`.
fn star_matches(
    pattern: &Vec<char>,
    after: usize,
    path: &Vec<char>,
    t: usize,
    star: Star,
) -> (answer: bool)
    requires
        after <= pattern.len(),
        t <= path.len(),
    ensures
        answer == star_from(pattern@, after as int, path@, t as int, star),
    decreases pattern.len() - after, 1int,
{
    let mut at: usize = t;
    loop
        invariant
            t <= at <= path.len(),
            after <= pattern.len(),
            star_from(pattern@, after as int, path@, t as int, star) == star_from(
                pattern@,
                after as int,
                path@,
                at as int,
                star,
            ),
        decreases path.len() - at,
    {
        let may_go_on = star != Star::Directories || at == 0 || path[at - 1] == '/';
        if may_go_on && matches_from(pattern, after, path, at) {
            return true;
        }
        if at == path.len() || (star == Star::Within && path[at] == '/') {
            return false;
        }
        at = at + 1;
    }
}

/// Matches `pattern[p..]` against `path[t..]`.
fn matches_from(pattern: &Vec<char>, p: usize, path: &Vec<char>, t: usize) -> (answer: bool)
    requires
        p <= pattern.len(),
        t <= path.len(),
    ensures
        answer == glob_from(pattern@, p as int, path@, t as int),
    decreases pattern.len() - p, 0int,
{
    if p == pattern.len() {
        return t == path.len();
    }
    let wanted: char = pattern[p];
    if wanted == '*' && pattern.len() - p > 1 && pattern[p + 1] == '*' {
        return if pattern.len() - p > 2 && pattern[p + 2] == '/' {
            star_matches(pattern, p + 3, path, t, Star::Directories)
        } else {
            star_matches(pattern, p + 2, path, t, Star::Across)
        };
    }
    if wanted == '*' {
        return star_matches(pattern, p + 1, path, t, Star::Within);
    }
    if wanted == '?' {
        return t < path.len() && path[t] != '/' && matches_from(pattern, p + 1, path, t + 1);
    }
    if wanted == '[' {
        let candidate: Option<char> = if t < path.len() {
            Some(path[t])
        } else {
            None
        };
        return match character_class(pattern, p, candidate) {
            None => t < path.len() && path[t] == '[' && matches_from(pattern, p + 1, path, t + 1),
            Some((accepts, after)) => accepts && t < path.len() && path[t] != '/' && matches_from(
                pattern,
                after,
                path,
                t + 1,
            ),
        };
    }
    if wanted == '\\' && pattern.len() - p > 1 {
        return t < path.len() && path[t] == pattern[p + 1] && matches_from(
            pattern,
            p + 2,
            path,
            t + 1,
        );
    }
    t < path.len() && path[t] == wanted && matches_from(pattern, p + 1, path, t + 1)
}

/// Matches one ignore glob against one path, where `*` and `?` do not cross a `/`.
pub fn glob(pattern: &str, path: &str) -> (answer: bool)
    ensures
        answer == glob_matches(pattern@, path@),
{
    let pattern = characters(pattern);
    let path = characters(path);
    matches_from(&pattern, 0, &path, 0)
}

// -- Rules -------------------------------------------------------------------------

/// What an ignore rule says.
pub struct RuleModel {
    /// The pattern with its `!`, leading `/`, and trailing `/` removed.
    pub pattern: Seq<char>,
    /// Whether a match re-includes rather than excludes.
    pub negated: bool,
    /// Whether this matches directories only.
    pub directory_only: bool,
    /// Whether the pattern is fixed to the ignore file's own directory.
    pub anchored: bool,
}

/// One compiled ignore rule.
#[derive(Clone, Debug, PartialEq, Eq)]
pub struct Rule {
    pattern: Vec<char>,
    negated: bool,
    directory_only: bool,
    anchored: bool,
}

impl View for Rule {
    type V = RuleModel;

    closed spec fn view(&self) -> RuleModel {
        RuleModel {
            pattern: self.pattern@,
            negated: self.negated,
            directory_only: self.directory_only,
            anchored: self.anchored,
        }
    }
}

/// How many backslashes stand directly before `at`.
pub open spec fn backslashes_before(line: Seq<char>, at: int) -> nat
    decreases at,
{
    if at > 0 && line[at - 1] == '\\' {
        backslashes_before(line, at - 1) + 1
    } else {
        0
    }
}

/// Where `line[..end]` ends once the trailing spaces that no backslash protects are gone.
pub open spec fn unspaced_end(line: Seq<char>, end: int) -> int
    decreases end,
{
    if end > 0 && line[end - 1] == ' ' && backslashes_before(line, end - 1) % 2 == 0 {
        unspaced_end(line, end - 1)
    } else {
        end
    }
}

/// Where the run of `c` that ends at `end` starts.
pub open spec fn run_start(line: Seq<char>, end: int, c: char) -> int
    decreases end,
{
    if end > 0 && line[end - 1] == c {
        run_start(line, end - 1, c)
    } else {
        end
    }
}

/// A line without its unprotected trailing spaces.
pub open spec fn stripped(line: Seq<char>) -> Seq<char> {
    line.take(unspaced_end(line, line.len() as int))
}

/// The pattern part of a line: behind `!`, and behind a backslash that makes a leading `#`
/// or `!` an ordinary character.
pub open spec fn pattern_part(line: Seq<char>) -> Seq<char> {
    let rest = if line.len() > 0 && line[0] == '!' {
        line.skip(1)
    } else {
        line
    };
    if rest.len() >= 2 && rest[0] == '\\' && (rest[1] == '#' || rest[1] == '!') {
        rest.skip(1)
    } else {
        rest
    }
}

/// Whether `c` occurs in `text`.
pub open spec fn holds_char(text: Seq<char>, c: char) -> bool {
    exists|i: int| 0 <= i < text.len() && #[trigger] text[i] == c
}

/// The rule a line states, if it states one.
pub open spec fn rule_of(line: Seq<char>) -> Option<RuleModel> {
    let kept = stripped(line);
    if kept.len() == 0 || kept[0] == '#' {
        None
    } else {
        let part = pattern_part(kept);
        let directory_only = part.len() > 0 && part.last() == '/';
        let body = if directory_only {
            part.drop_last()
        } else {
            part
        };
        if body.len() == 0 {
            None
        } else {
            Some(
                RuleModel {
                    pattern: if body[0] == '/' {
                        body.skip(1)
                    } else {
                        body
                    },
                    negated: kept[0] == '!',
                    directory_only,
                    anchored: holds_char(body.take(run_start(body, body.len() as int, '/')), '/'),
                },
            )
        }
    }
}

/// Whether a rule matches a path below its ignore file.
///
/// An anchored pattern is held against the whole path. One that is not anchored may also
/// match what follows any separator.
pub open spec fn rule_matches(rule: RuleModel, path: Seq<char>, is_dir: bool) -> bool {
    &&& rule.directory_only ==> is_dir
    &&& {
        ||| glob_matches(rule.pattern, path)
        ||| !rule.anchored && exists|at: int|
            0 <= at < path.len() && path[at] == '/' && glob_matches(
                rule.pattern,
                #[trigger] path.skip(at + 1),
            )
    }
}

/// The characters `all[from..to]`.
fn slice(all: &Vec<char>, from: usize, to: usize) -> (part: Vec<char>)
    requires
        from <= to <= all@.len(),
    ensures
        part@ == all@.subrange(from as int, to as int),
{
    let mut part: Vec<char> = Vec::new();
    let mut at: usize = from;
    while at < to
        invariant
            from <= at <= to <= all@.len(),
            part@ == all@.subrange(from as int, at as int),
        decreases to - at,
    {
        part.push(all[at]);
        at = at + 1;
        assert(part@ =~= all@.subrange(from as int, at as int));
    }
    part
}

/// Strips trailing spaces that a backslash does not protect.
fn trim_trailing_unescaped_spaces(line: &Vec<char>) -> (kept: Vec<char>)
    ensures
        kept@ == line@.take(unspaced_end(line@, line@.len() as int)),
{
    let mut end: usize = line.len();
    while end > 0 && line[end - 1] == ' '
        invariant_except_break
            end <= line@.len(),
            unspaced_end(line@, line@.len() as int) == unspaced_end(line@, end as int),
        ensures
            end <= line@.len(),
            unspaced_end(line@, line@.len() as int) == end,
        decreases end,
    {
        let mut odd = false;
        let mut at: usize = end - 1;
        while at > 0 && line[at - 1] == '\\'
            invariant
                at < end <= line@.len(),
                backslashes_before(line@, end - 1) % 2 == (if odd {
                    backslashes_before(line@, at as int) + 1
                } else {
                    backslashes_before(line@, at as int)
                }) % 2,
            decreases at,
        {
            odd = !odd;
            at = at - 1;
        }
        if odd {
            break;
        }
        end = end - 1;
    }
    let kept = slice(line, 0, end);
    assert(kept@ =~= line@.take(end as int));
    kept
}

impl Rule {
    /// Compiles one line, or `None` when the line states no rule.
    pub fn parse(line: &str) -> (rule: Option<Self>)
        ensures
            match rule {
                Some(made) => rule_of(line@) == Some(made@),
                None => rule_of(line@) is None,
            },
    {
        let all = characters(line);
        Rule::parse_characters(&all)
    }

    fn parse_characters(line: &Vec<char>) -> (rule: Option<Self>)
        ensures
            match rule {
                Some(made) => rule_of(line@) == Some(made@),
                None => rule_of(line@) is None,
            },
    {
        let kept = trim_trailing_unescaped_spaces(line);
        if kept.len() == 0 || kept[0] == '#' {
            return None;
        }
        let negated = kept[0] == '!';
        let mut start: usize = if negated {
            1
        } else {
            0
        };
        if kept.len() - start >= 2 && kept[start] == '\\' && (kept[start + 1] == '#' || kept[start
            + 1] == '!') {
            start = start + 1;
        }
        let ghost part = pattern_part(kept@);
        assert(part =~= kept@.skip(start as int));
        let directory_only = start < kept.len() && kept[kept.len() - 1] == '/';
        let end: usize = if directory_only {
            kept.len() - 1
        } else {
            kept.len()
        };
        let body = slice(&kept, start, end);
        let ghost wanted = if directory_only {
            part.drop_last()
        } else {
            part
        };
        assert(body@ =~= wanted);
        if body.len() == 0 {
            return None;
        }
        let mut tail: usize = body.len();
        while tail > 0 && body[tail - 1] == '/'
            invariant
                tail <= body@.len(),
                run_start(body@, body@.len() as int, '/') == run_start(body@, tail as int, '/'),
            decreases tail,
        {
            tail = tail - 1;
        }
        let ghost head = body@.take(tail as int);
        let mut anchored = false;
        let mut at: usize = 0;
        while at < tail
            invariant
                at <= tail <= body@.len(),
                head == body@.take(tail as int),
                anchored == exists|i: int| 0 <= i < at && #[trigger] head[i] == '/',
            decreases tail - at,
        {
            if body[at] == '/' {
                assert(head[at as int] == '/');
                anchored = true;
            }
            at = at + 1;
        }
        let pattern = if body[0] == '/' {
            slice(&body, 1, body.len())
        } else {
            slice(&body, 0, body.len())
        };
        assert(pattern@ =~= (if body@[0] == '/' {
            body@.skip(1)
        } else {
            body@
        }));
        Some(Rule { pattern, negated, directory_only, anchored })
    }

    /// Reports whether this rule re-includes rather than excludes.
    pub fn is_negated(&self) -> (answer: bool)
        ensures
            answer == self@.negated,
    {
        self.negated
    }

    /// Reports whether `relative` matches, where `relative` is below the ignore file.
    pub fn matches(&self, relative: &str, is_dir: bool) -> (answer: bool)
        ensures
            answer == rule_matches(self@, relative@, is_dir),
    {
        let path = characters(relative);
        self.matches_characters(&path, is_dir)
    }

    fn matches_characters(&self, path: &Vec<char>, is_dir: bool) -> (answer: bool)
        ensures
            answer == rule_matches(self@, path@, is_dir),
    {
        if self.directory_only && !is_dir {
            return false;
        }
        if matches_from(&self.pattern, 0, path, 0) {
            return true;
        }
        if self.anchored {
            return false;
        }
        let mut at: usize = 0;
        while at < path.len()
            invariant
                at <= path.len(),
                self@.directory_only ==> is_dir,
                !self@.anchored,
                !glob_matches(self@.pattern, path@),
                forall|i: int|
                    0 <= i < at && path@[i] == '/' ==> !glob_matches(
                        self@.pattern,
                        #[trigger] path@.skip(i + 1),
                    ),
            decreases path@.len() - at,
        {
            if path[at] == '/' {
                let tail = slice(path, at + 1, path.len());
                assert(tail@ =~= path@.skip(at + 1));
                if matches_from(&self.pattern, 0, &tail, 0) {
                    return true;
                }
            }
            at = at + 1;
        }
        false
    }
}

// -- Files -------------------------------------------------------------------------

/// What one ignore file says, and where it sits.
pub struct IgnoreFileModel {
    /// The directory holding it, relative to the scan root, with no trailing separator.
    pub base: Seq<char>,
    /// Its rules, in file order.
    pub rules: Seq<RuleModel>,
}

/// The rules from one ignore file, and where that file sits.
#[derive(Clone, Debug)]
pub struct IgnoreFile {
    base: Vec<char>,
    rules: Vec<Rule>,
}

/// The models of a list of rules.
pub open spec fn rule_models(rules: Seq<Rule>) -> Seq<RuleModel> {
    rules.map_values(|rule: Rule| rule@)
}

impl View for IgnoreFile {
    type V = IgnoreFileModel;

    closed spec fn view(&self) -> IgnoreFileModel {
        IgnoreFileModel { base: self.base@, rules: rule_models(self.rules@) }
    }
}

/// Where the line that starts at `at` ends: at a line feed, or at the end of the text.
pub open spec fn line_end(text: Seq<char>, at: int) -> int
    decreases text.len() - at,
{
    if at < text.len() && text[at] != '\n' {
        line_end(text, at + 1)
    } else {
        at
    }
}

/// The line `text[from..end]`, without the carriage return of a `\r\n` ending.
pub open spec fn line_text(text: Seq<char>, from: int, end: int) -> Seq<char> {
    if end < text.len() && from < end && text[end - 1] == '\r' {
        text.subrange(from, end - 1)
    } else {
        text.subrange(from, end)
    }
}

/// The rules that the lines of `text[from..]` state, in order.
pub open spec fn rules_from(text: Seq<char>, from: int) -> Seq<RuleModel>
    decreases text.len() - from,
    when 0 <= from
    via rules_from_shrinks
{
    if from >= text.len() {
        Seq::empty()
    } else {
        let end = line_end(text, from);
        let rest = if end >= text.len() {
            Seq::empty()
        } else {
            rules_from(text, end + 1)
        };
        match rule_of(line_text(text, from, end)) {
            Some(rule) => seq![rule] + rest,
            None => rest,
        }
    }
}

#[via_fn]
proof fn rules_from_shrinks(text: Seq<char>, from: int) {
    line_end_bounds(text, from);
}

proof fn line_end_bounds(text: Seq<char>, at: int)
    ensures
        at <= line_end(text, at),
        at <= text.len() ==> line_end(text, at) <= text.len(),
    decreases text.len() - at,
{
    if at < text.len() && text[at] != '\n' {
        line_end_bounds(text, at + 1);
    }
}

/// A directory path without its trailing separators.
pub open spec fn base_of(base: Seq<char>) -> Seq<char> {
    base.take(run_start(base, base.len() as int, '/'))
}

/// What an ignore file with this text, in this directory, says.
pub open spec fn file_of(text: Seq<char>, base: Seq<char>) -> IgnoreFileModel {
    IgnoreFileModel { base: base_of(base), rules: rules_from(text, 0) }
}

/// The part of `path` below the directory `base`, if it is below it.
pub open spec fn below(base: Seq<char>, path: Seq<char>) -> Option<Seq<char>> {
    if base.len() == 0 {
        Some(path)
    } else if base.len() < path.len() && path.take(base.len() as int) == base && path[base.len() as int]
        == '/' {
        Some(path.skip(base.len() as int + 1))
    } else {
        None
    }
}

/// The last of the first `upto` rules that matches.
pub open spec fn last_match(rules: Seq<RuleModel>, path: Seq<char>, is_dir: bool, upto: int) -> Option<
    RuleModel,
>
    decreases upto,
{
    if upto <= 0 {
        None
    } else if rule_matches(rules[upto - 1], path, is_dir) {
        Some(rules[upto - 1])
    } else {
        last_match(rules, path, is_dir, upto - 1)
    }
}

/// The rule of one file that decides about a path.
pub open spec fn file_decides(file: IgnoreFileModel, path: Seq<char>, is_dir: bool) -> Option<
    RuleModel,
> {
    match below(file.base, path) {
        None => None,
        Some(rest) => last_match(file.rules, rest, is_dir, file.rules.len() as int),
    }
}

impl IgnoreFile {
    /// Compiles the rules in `text`, read from a file in `base`.
    ///
    /// `base` is relative to the scan root and is empty for the root itself.
    pub fn parse(text: &str, base: &str) -> (file: Self)
        ensures
            file@ == file_of(text@, base@),
    {
        let all = characters(text);
        let directory = characters(base);
        let mut kept: usize = directory.len();
        while kept > 0 && directory[kept - 1] == '/'
            invariant
                kept <= directory@.len(),
                run_start(directory@, directory@.len() as int, '/') == run_start(
                    directory@,
                    kept as int,
                    '/',
                ),
            decreases kept,
        {
            kept = kept - 1;
        }
        let mut rules: Vec<Rule> = Vec::new();
        let mut from: usize = 0;
        assert(rule_models(rules@) + rules_from(all@, 0) =~= rules_from(all@, 0));
        while from < all.len()
            invariant
                from <= all@.len(),
                rule_models(rules@) + rules_from(all@, from as int) == rules_from(all@, 0),
            decreases all@.len() - from,
        {
            let mut end: usize = from;
            while end < all.len() && all[end] != '\n'
                invariant
                    from <= end <= all@.len(),
                    line_end(all@, from as int) == line_end(all@, end as int),
                decreases all@.len() - end,
            {
                end = end + 1;
            }
            let stop: usize = if end < all.len() && from < end && all[end - 1] == '\r' {
                end - 1
            } else {
                end
            };
            let line = slice(&all, from, stop);
            assert(line@ == line_text(all@, from as int, end as int));
            let ghost before = rule_models(rules@);
            let ghost rest = if end >= all@.len() {
                Seq::empty()
            } else {
                rules_from(all@, end + 1)
            };
            match Rule::parse_characters(&line) {
                Some(rule) => {
                    let ghost model = rule@;
                    rules.push(rule);
                    assert(rule_models(rules@) =~= before.push(model));
                    assert(before + (seq![model] + rest) =~= before.push(model) + rest);
                }
                None => {}
            }
            if end == all.len() {
                assert(rest =~= Seq::empty());
                assert(rules_from(all@, end as int) =~= Seq::empty());
                from = end;
            } else {
                from = end + 1;
            }
        }
        assert(rules_from(all@, from as int) =~= Seq::empty());
        assert(rule_models(rules@) =~= rules_from(all@, 0));
        let base = slice(&directory, 0, kept);
        assert(base@ =~= base_of(directory@));
        IgnoreFile { base, rules }
    }

    /// Reports whether this file states any rule.
    pub fn is_empty(&self) -> (answer: bool)
        ensures
            answer == (self@.rules.len() == 0),
    {
        self.rules.len() == 0
    }

    /// Whether the rule that decides re-includes, where one decides: the last matching one.
    fn decide(&self, path: &Vec<char>, is_dir: bool) -> (decision: Option<bool>)
        ensures
            match decision {
                Some(negated) => file_decides(self@, path@, is_dir) matches Some(rule)
                    && rule.negated == negated,
                None => file_decides(self@, path@, is_dir) is None,
            },
    {
        let rest: Vec<char>;
        if self.base.len() == 0 {
            rest = slice(path, 0, path.len());
            assert(rest@ =~= path@);
        } else {
            if self.base.len() >= path.len() {
                return None;
            }
            let mut at: usize = 0;
            while at < self.base.len()
                invariant
                    at <= self.base@.len() < path@.len(),
                    forall|i: int| 0 <= i < at ==> #[trigger] self.base@[i] == path@[i],
                decreases self.base@.len() - at,
            {
                if self.base[at] != path[at] {
                    assert(path@.take(self.base@.len() as int)[at as int] != self.base@[at as int]);
                    return None;
                }
                at = at + 1;
            }
            assert(path@.take(self.base@.len() as int) =~= self.base@);
            if path[self.base.len()] != '/' {
                return None;
            }
            rest = slice(path, self.base.len() + 1, path.len());
            assert(rest@ =~= path@.skip(self.base@.len() as int + 1));
        }
        let ghost rules = self@.rules;
        let mut upto: usize = self.rules.len();
        while upto > 0
            invariant
                upto <= self.rules@.len(),
                rules == self@.rules,
                rules == rule_models(self.rules@),
                below(self@.base, path@) == Some(rest@),
                last_match(rules, rest@, is_dir, rules.len() as int) == last_match(
                    rules,
                    rest@,
                    is_dir,
                    upto as int,
                ),
            decreases upto,
        {
            assert(rules[upto - 1] == self.rules@[upto - 1]@);
            if self.rules[upto - 1].matches_characters(&rest, is_dir) {
                return Some(self.rules[upto - 1].negated);
            }
            upto = upto - 1;
        }
        None
    }
}

// -- Stacks ------------------------------------------------------------------------

/// The ignore files in effect, ordered from the scan root downwards.
///
/// A deeper file overrides a shallower one.
#[derive(Clone, Debug)]
pub struct IgnoreStack {
    files: Vec<IgnoreFile>,
}

/// The models of a list of ignore files.
pub open spec fn file_models(files: Seq<IgnoreFile>) -> Seq<IgnoreFileModel> {
    files.map_values(|file: IgnoreFile| file@)
}

impl View for IgnoreStack {
    type V = Seq<IgnoreFileModel>;

    closed spec fn view(&self) -> Seq<IgnoreFileModel> {
        file_models(self.files@)
    }
}

/// The rule that decides about a path: that of the deepest of the first `upto` files that
/// decides at all.
pub open spec fn decides(
    files: Seq<IgnoreFileModel>,
    path: Seq<char>,
    is_dir: bool,
    upto: int,
) -> Option<RuleModel>
    decreases upto,
{
    if upto <= 0 {
        None
    } else if file_decides(files[upto - 1], path, is_dir) is Some {
        file_decides(files[upto - 1], path, is_dir)
    } else {
        decides(files, path, is_dir, upto - 1)
    }
}

/// Whether a path is excluded: the rule that decides does not re-include.
pub open spec fn excluded(files: Seq<IgnoreFileModel>, path: Seq<char>, is_dir: bool) -> bool {
    decides(files, path, is_dir, files.len() as int) matches Some(rule) && !rule.negated
}

impl Default for IgnoreStack {
    fn default() -> (stack: Self)
        ensures
            stack@ == Seq::<IgnoreFileModel>::empty(),
    {
        IgnoreStack::new()
    }
}

impl IgnoreStack {
    /// An empty stack, which excludes nothing.
    pub fn new() -> (stack: Self)
        ensures
            stack@ == Seq::<IgnoreFileModel>::empty(),
    {
        let stack = IgnoreStack { files: Vec::new() };
        assert(stack@ =~= Seq::<IgnoreFileModel>::empty());
        stack
    }

    /// Adds a file, which takes precedence over everything already present. A file that
    /// states no rule is not added.
    pub fn push(&mut self, file: IgnoreFile)
        ensures
            final(self)@ == (if file@.rules.len() == 0 {
                old(self)@
            } else {
                old(self)@.push(file@)
            }),
    {
        if !file.is_empty() {
            let ghost model = file@;
            self.files.push(file);
            assert(self@ =~= old(self)@.push(model));
        }
    }

    /// How many files are in effect, so a caller can restore a prior depth.
    pub fn len(&self) -> (count: usize)
        ensures
            count == self@.len(),
    {
        self.files.len()
    }

    /// Reports whether no file is in effect.
    pub fn is_empty(&self) -> (answer: bool)
        ensures
            answer == (self@.len() == 0),
    {
        self.files.len() == 0
    }

    /// Drops back to `depth` files, undoing what one directory contributed.
    pub fn truncate(&mut self, depth: usize)
        ensures
            final(self)@ == (if depth < old(self)@.len() {
                old(self)@.take(depth as int)
            } else {
                old(self)@
            }),
    {
        self.files.truncate(depth);
        assert(self@ =~= (if depth < old(self)@.len() {
            old(self)@.take(depth as int)
        } else {
            old(self)@
        }));
    }

    /// Reports whether `relative` is excluded.
    ///
    /// The deepest file with a matching rule decides, and within one file the last
    /// matching rule decides. A path nothing matches is not excluded.
    pub fn excludes(&self, relative: &str, is_dir: bool) -> (answer: bool)
        ensures
            answer == excluded(self@, relative@, is_dir),
    {
        let path = characters(relative);
        let ghost files = self@;
        let mut upto: usize = self.files.len();
        while upto > 0
            invariant
                upto <= self.files@.len(),
                files == self@,
                files == file_models(self.files@),
                path@ == relative@,
                decides(files, path@, is_dir, files.len() as int) == decides(
                    files,
                    path@,
                    is_dir,
                    upto as int,
                ),
            decreases upto,
        {
            assert(files[upto - 1] == self.files@[upto - 1]@);
            match self.files[upto - 1].decide(&path, is_dir) {
                Some(negated) => {
                    return !negated;
                }
                None => {}
            }
            upto = upto - 1;
        }
        false
    }
}

// -- Laws --------------------------------------------------------------------------

proof fn decides_prefix(
    files: Seq<IgnoreFileModel>,
    longer: Seq<IgnoreFileModel>,
    path: Seq<char>,
    is_dir: bool,
    upto: int,
)
    requires
        0 <= upto <= files.len() <= longer.len(),
        forall|i: int| 0 <= i < upto ==> #[trigger] files[i] == longer[i],
    ensures
        decides(files, path, is_dir, upto) == decides(longer, path, is_dir, upto),
    decreases upto,
{
    if upto > 0 {
        assert(files[upto - 1] == longer[upto - 1]);
        decides_prefix(files, longer, path, is_dir, upto - 1);
    }
}

/// A file that is added decides where it has a matching rule, and elsewhere the stack
/// answers as before.
pub proof fn deeper_file_overrides(
    files: Seq<IgnoreFileModel>,
    file: IgnoreFileModel,
    path: Seq<char>,
    is_dir: bool,
)
    ensures
        excluded(files.push(file), path, is_dir) == (match file_decides(file, path, is_dir) {
            Some(rule) => !rule.negated,
            None => excluded(files, path, is_dir),
        }),
{
    let longer = files.push(file);
    assert(longer[longer.len() - 1] == file);
    decides_prefix(files, longer, path, is_dir, files.len() as int);
}

/// Truncating to the depth a stack had before a file was added undoes the addition.
pub proof fn truncate_undoes_push(files: Seq<IgnoreFileModel>, file: IgnoreFileModel)
    ensures
        files.push(file).take(files.len() as int) == files,
{
    assert(files.push(file).take(files.len() as int) =~= files);
}

/// The last rule of a file decides wherever it matches, whatever stands before it.
pub proof fn last_rule_decides(
    rules: Seq<RuleModel>,
    rule: RuleModel,
    path: Seq<char>,
    is_dir: bool,
)
    requires
        rule_matches(rule, path, is_dir),
    ensures
        last_match(rules.push(rule), path, is_dir, rules.len() as int + 1) == Some(rule),
{
    assert(rules.push(rule)[rules.len() as int] == rule);
}

/// A path that no rule of any file matches is not excluded.
pub proof fn unmatched_is_kept(files: Seq<IgnoreFileModel>, path: Seq<char>, is_dir: bool)
    requires
        forall|i: int| 0 <= i < files.len() ==> file_decides(#[trigger] files[i], path, is_dir) is None,
    ensures
        !excluded(files, path, is_dir),
{
    unmatched_all(files, path, is_dir, files.len() as int);
}

proof fn unmatched_all(files: Seq<IgnoreFileModel>, path: Seq<char>, is_dir: bool, upto: int)
    requires
        0 <= upto <= files.len(),
        forall|i: int| 0 <= i < files.len() ==> file_decides(#[trigger] files[i], path, is_dir) is None,
    ensures
        decides(files, path, is_dir, upto) is None,
    decreases upto,
{
    if upto > 0 {
        unmatched_all(files, path, is_dir, upto - 1);
    }
}

/// Whether text stands for itself in a pattern, and for one segment of a path.
pub open spec fn is_plain(text: Seq<char>) -> bool {
    forall|i: int|
        0 <= i < text.len() ==> {
            let c = #[trigger] text[i];
            c != '*' && c != '?' && c != '[' && c != '\\' && c != '/'
        }
}

pub proof fn plain_matches_itself(pattern: Seq<char>, p: int, path: Seq<char>, t: int)
    requires
        0 <= p <= pattern.len(),
        0 <= t <= path.len(),
        is_plain(pattern.skip(p)),
    ensures
        glob_from(pattern, p, path, t) == (pattern.skip(p) == path.skip(t)),
    decreases pattern.len() - p,
{
    let wanted = pattern.skip(p);
    let rest = path.skip(t);
    if p < pattern.len() {
        assert(wanted[0] == pattern[p]);
        assert(pattern.skip(p + 1) =~= wanted.skip(1));
        if t < path.len() {
            plain_matches_itself(pattern, p + 1, path, t + 1);
            assert(path.skip(t + 1) =~= rest.skip(1));
            assert(rest[0] == path[t]);
            if pattern[p] == path[t] && wanted.skip(1) == rest.skip(1) {
                assert(wanted =~= seq![pattern[p]] + wanted.skip(1));
                assert(rest =~= seq![path[t]] + rest.skip(1));
            }
        }
    } else if t < path.len() {
        assert(wanted.len() != rest.len());
    } else {
        assert(wanted =~= rest);
    }
}

/// Whether text ends a path as one of its segments.
pub open spec fn ends_in_segment(path: Seq<char>, text: Seq<char>) -> bool {
    path == text || (path.len() > text.len() && path.skip(path.len() - text.len() - 1) == seq!['/']
        + text)
}

proof fn directories_lead_to(pattern: Seq<char>, text: Seq<char>, path: Seq<char>, t: int)
    requires
        pattern == seq!['*', '*', '/'] + text,
        is_plain(text),
        text.len() > 0,
        0 <= t <= path.len(),
    ensures
        star_from(pattern, 3, path, t, Star::Directories) == (t <= path.len() - text.len()
            && ends_in_segment(path, text)),
    decreases path.len() - t,
{
    assert(pattern.skip(3) =~= text);
    plain_matches_itself(pattern, 3, path, t);
    let from = path.len() - text.len();
    if t < path.len() {
        directories_lead_to(pattern, text, path, t + 1);
    }
    if from >= 0 {
        if ends_in_segment(path, text) {
            if path == text {
                assert(path.skip(0) =~= path);
            } else {
                assert(path.skip(from - 1)[0] == path[from - 1]);
                assert((seq!['/'] + text)[0] == '/');
                assert(path.skip(from) =~= path.skip(from - 1).skip(1));
                assert((seq!['/'] + text).skip(1) =~= text);
            }
            assert(starts_segment(path, from) && path.skip(from) == text);
        }
        if starts_segment(path, t) && path.skip(t) == text {
            assert(t == from);
            if t == 0 {
                assert(path.skip(0) =~= path);
            } else {
                assert(path.skip(from - 1) =~= seq!['/'] + text);
            }
        }
    }
}

/// A leading `**/` stands for whole directories or for nothing: with plain text behind it, a
/// pattern matches that text alone, and every path that ends in it as a segment of its own.
pub proof fn directories_come_whole(text: Seq<char>, path: Seq<char>)
    requires
        text.len() > 0,
        is_plain(text),
    ensures
        glob_matches(seq!['*', '*', '/'] + text, path) == ends_in_segment(path, text),
{
    let pattern = seq!['*', '*', '/'] + text;
    assert(pattern[0] == '*' && pattern[1] == '*' && pattern[2] == '/');
    directories_lead_to(pattern, text, path, 0);
}

/// A class stands for no separator.
pub proof fn class_stays_in_its_segment(pattern: Seq<char>, p: int, path: Seq<char>, t: int)
    requires
        0 <= p < pattern.len(),
        0 <= t < path.len(),
        pattern[p] == '[',
        path[t] == '/',
    ensures
        !glob_from(pattern, p, path, t),
{
}

} // verus!
