//! What patterns and rules of ignore files stand for.

use crate::ignore::below;
use crate::ignore::class_at;
use crate::ignore::class_items;
use crate::ignore::double_star;
use crate::ignore::glob_from;
use crate::ignore::glob_matches;
use crate::ignore::is_plain;
use crate::ignore::last_match;
use crate::ignore::plain_matches_itself;
use crate::ignore::rule_matches;
use crate::ignore::rule_of;
use crate::ignore::run_start;
use crate::ignore::star_from;
use crate::ignore::starts_segment;
use crate::ignore::unspaced_end;
use crate::ignore::RuleModel;
use crate::ignore::Star;
use vstd::prelude::*;

verus! {

// -- Patterns ----------------------------------------------------------------------

/// Whether a part of a path holds no separator.
pub open spec fn is_within_a_segment(path: Seq<char>, from: int, to: int) -> bool {
    forall|i: int| from <= i < to ==> #[trigger] path[i] != '/'
}

/// Whether a star that starts at one place of a path may end at another, and what follows it
/// matches from there.
pub open spec fn ends_at(
    pattern: Seq<char>,
    after: int,
    path: Seq<char>,
    t: int,
    star: Star,
    end: int,
) -> bool {
    &&& t <= end <= path.len()
    &&& glob_from(pattern, after, path, end)
    &&& star == Star::Within ==> is_within_a_segment(path, t, end)
    &&& star == Star::Directories ==> starts_segment(path, end)
}

proof fn a_star_ends_somewhere(
    pattern: Seq<char>,
    after: int,
    path: Seq<char>,
    t: int,
    star: Star,
)
    requires
        0 <= after <= pattern.len(),
        0 <= t <= path.len(),
    ensures
        star_from(pattern, after, path, t, star) <==> exists|end: int| #[trigger]
            ends_at(pattern, after, path, t, star, end),
    decreases path.len() - t,
{
    if t < path.len() {
        a_star_ends_somewhere(pattern, after, path, t + 1, star);
    }
    if star_from(pattern, after, path, t, star) {
        if (star == Star::Directories ==> starts_segment(path, t)) && glob_from(
            pattern,
            after,
            path,
            t,
        ) {
            assert(ends_at(pattern, after, path, t, star, t));
        } else {
            let end = choose|end: int| #[trigger]
                ends_at(pattern, after, path, t + 1, star, end);
            assert(ends_at(pattern, after, path, t, star, end));
        }
    }
    if exists|end: int| #[trigger] ends_at(pattern, after, path, t, star, end) {
        let end = choose|end: int| #[trigger] ends_at(pattern, after, path, t, star, end);
        if t < end {
            if star == Star::Within {
                assert(path[t] != '/');
                assert(is_within_a_segment(path, t + 1, end));
            }
            assert(ends_at(pattern, after, path, t + 1, star, end));
        }
    }
}

/// One star stands for any characters of one segment, two for any characters at all, and two
/// with a separator behind them for whole directories. What follows matches the rest.
pub proof fn stars_stand_for_what_is_between(pattern: Seq<char>, p: int, path: Seq<char>, t: int)
    requires
        0 <= p < pattern.len(),
        pattern[p] == '*',
        0 <= t <= path.len(),
    ensures
        p + 1 >= pattern.len() || pattern[p + 1] != '*' ==> (glob_from(pattern, p, path, t)
            <==> exists|end: int| #[trigger]
            ends_at(pattern, p + 1, path, t, Star::Within, end)),
        p + 1 < pattern.len() && pattern[p + 1] == '*' && (p + 2 >= pattern.len() || pattern[p + 2]
            != '/') ==> (glob_from(pattern, p, path, t) <==> exists|end: int| #[trigger]
            ends_at(pattern, p + 2, path, t, Star::Across, end)),
        p + 2 < pattern.len() && pattern[p + 1] == '*' && pattern[p + 2] == '/' ==> (glob_from(
            pattern,
            p,
            path,
            t,
        ) <==> exists|end: int| #[trigger]
            ends_at(pattern, p + 3, path, t, Star::Directories, end)),
{
    a_star_ends_somewhere(pattern, p + 1, path, t, Star::Within);
    if double_star(pattern, p) {
        if p + 2 < pattern.len() && pattern[p + 2] == '/' {
            a_star_ends_somewhere(pattern, p + 3, path, t, Star::Directories);
        } else {
            a_star_ends_somewhere(pattern, p + 2, path, t, Star::Across);
        }
    }
}

/// A question mark stands for one character that is no separator, and a backslash makes the
/// character behind it stand for itself.
pub proof fn single_characters_match(pattern: Seq<char>, p: int, path: Seq<char>, t: int)
    requires
        0 <= p < pattern.len(),
        0 <= t <= path.len(),
    ensures
        pattern[p] == '?' ==> (glob_from(pattern, p, path, t) <==> t < path.len() && path[t] != '/'
            && glob_from(pattern, p + 1, path, t + 1)),
        pattern[p] == '\\' && p + 1 < pattern.len() ==> (glob_from(pattern, p, path, t) <==> t
            < path.len() && path[t] == pattern[p + 1] && glob_from(pattern, p + 2, path, t + 1)),
{
}

/// A text without a sign that means something else matches itself and nothing but itself.
pub proof fn a_plain_text_matches_itself(text: Seq<char>, path: Seq<char>)
    requires
        is_plain(text),
    ensures
        glob_matches(text, path) <==> path == text,
{
    assert(text.skip(0) =~= text);
    assert(path.skip(0) =~= path);
    plain_matches_itself(text, 0, path, 0);
}

/// A class of a range stands for one character of the range, and a negated one for one outside
/// of it, but never for a separator.
pub proof fn a_class_stands_for_its_range(low: char, high: char, c: char)
    requires
        low != ']' && low != '!' && low != '^',
        high != ']',
    ensures
        glob_matches(seq!['[', low, '-', high, ']'], seq![c]) <==> low <= c && c <= high && c != '/',
        glob_matches(seq!['[', '!', low, '-', high, ']'], seq![c]) <==> !(low <= c && c <= high)
            && c != '/',
{
    let plain = seq!['[', low, '-', high, ']'];
    let negated = seq!['[', '!', low, '-', high, ']'];
    let path = seq![c];
    let within = low <= c && c <= high;
    assert(class_items(plain, 4, false, within, Some(c)) == Some((within, 5int)));
    assert(class_items(plain, 1, true, false, Some(c)) == Some((within, 5int)));
    assert(class_at(plain, 0, Some(c)) == Some((within, 5int)));
    assert(glob_from(plain, 5, path, 1));
    assert(class_items(negated, 5, false, within, Some(c)) == Some((within, 6int)));
    assert(class_items(negated, 2, true, false, Some(c)) == Some((within, 6int)));
    assert(class_at(negated, 0, Some(c)) == Some((!within, 6int)));
    assert(glob_from(negated, 6, path, 1));
}

/// A class of single characters stands for each of them.
pub proof fn a_class_stands_for_its_characters(first: char, second: char, c: char)
    requires
        first != ']' && first != '!' && first != '^',
        second != ']' && second != '-',
    ensures
        glob_matches(seq!['[', first, second, ']'], seq![c]) <==> (c == first || c == second) && c
            != '/',
{
    let plain = seq!['[', first, second, ']'];
    let path = seq![c];
    let one = c == first;
    let both = c == first || c == second;
    assert(class_items(plain, 3, false, both, Some(c)) == Some((both, 4int)));
    assert(class_items(plain, 2, false, one, Some(c)) == Some((both, 4int)));
    assert(class_items(plain, 1, true, false, Some(c)) == Some((both, 4int)));
    assert(class_at(plain, 0, Some(c)) == Some((both, 4int)));
    assert(glob_from(plain, 4, path, 1));
}

// -- Rules -------------------------------------------------------------------------

/// Whether a text is a name as a rule may state it: not empty, without signs that mean something
/// else, without a separator, and without a space or a sign that starts something else.
pub open spec fn is_bare(text: Seq<char>) -> bool {
    &&& text.len() > 0
    &&& is_plain(text)
    &&& text[0] != '#' && text[0] != '!'
    &&& text.last() != ' '
}

proof fn nothing_is_stripped(line: Seq<char>)
    requires
        line.len() > 0,
        line.last() != ' ',
    ensures
        crate::ignore::stripped(line) == line,
{
    assert(unspaced_end(line, line.len() as int) == line.len());
    assert(line.take(line.len() as int) =~= line);
}

/// A line with a bare name states a rule for it at any depth. With an exclamation mark before it
/// the rule includes again, with a separator behind it it is for directories alone, and with one
/// before it it is for the directory of the file alone.
pub proof fn a_line_states_its_rule(text: Seq<char>)
    requires
        is_bare(text),
    ensures
        rule_of(text) == Some(
            RuleModel { pattern: text, negated: false, directory_only: false, anchored: false },
        ),
        rule_of(seq!['!'] + text) == Some(
            RuleModel { pattern: text, negated: true, directory_only: false, anchored: false },
        ),
        rule_of(text + seq!['/']) == Some(
            RuleModel { pattern: text, negated: false, directory_only: true, anchored: false },
        ),
        rule_of(seq!['/'] + text) == Some(
            RuleModel { pattern: text, negated: false, directory_only: false, anchored: true },
        ),
        rule_of(seq!['#'] + text) is None,
        rule_of(Seq::empty()) is None,
{
    let n = text.len() as int;
    nothing_is_stripped(text);
    assert(text[n - 1] != '/' && text[0] != '/' && text[0] != '\\');
    assert(run_start(text, n, '/') == n);
    assert(text.take(n) =~= text);
    assert(!crate::ignore::holds_char(text, '/')) by {
        assert forall|i: int| 0 <= i < n implies text[i] != '/' by {}
    }
    let negated = seq!['!'] + text;
    nothing_is_stripped(negated);
    assert(negated.skip(1) =~= text);
    assert(crate::ignore::pattern_part(negated) == text);
    let directory = text + seq!['/'];
    nothing_is_stripped(directory);
    assert(directory[0] == text[0]);
    assert(crate::ignore::pattern_part(directory) == directory);
    assert(directory.drop_last() =~= text);
    let anchored = seq!['/'] + text;
    nothing_is_stripped(anchored);
    assert(crate::ignore::pattern_part(anchored) == anchored);
    assert(anchored.last() == text.last());
    assert(run_start(anchored, n + 1, '/') == n + 1);
    assert(anchored.take(n + 1) =~= anchored);
    assert(anchored[0] == '/');
    assert(crate::ignore::holds_char(anchored, '/'));
    assert(anchored.skip(1) =~= text);
    let comment = seq!['#'] + text;
    nothing_is_stripped(comment);
    assert(comment[0] == '#');
    assert(Seq::<char>::empty().take(0) =~= Seq::empty());
}

/// A rule for a bare name matches it where it stands alone and, unless it is anchored, wherever
/// it stands behind a separator. A rule for directories matches nothing else.
pub proof fn a_rule_matches_its_name(rule: RuleModel, path: Seq<char>, is_dir: bool)
    requires
        is_plain(rule.pattern),
    ensures
        rule_matches(rule, path, is_dir) <==> (rule.directory_only ==> is_dir) && (path
            == rule.pattern || (!rule.anchored && exists|at: int|
            0 <= at < path.len() && path[at] == '/' && #[trigger] path.skip(at + 1)
                == rule.pattern)),
{
    a_plain_text_matches_itself(rule.pattern, path);
    assert forall|at: int| 0 <= at < path.len() implies (glob_matches(
        rule.pattern,
        #[trigger] path.skip(at + 1),
    ) <==> path.skip(at + 1) == rule.pattern) by {
        a_plain_text_matches_itself(rule.pattern, path.skip(at + 1));
    }
}

/// Of the rules of a file the last that matches decides: it matches, and none behind it does.
pub proof fn the_last_match_is_last(
    rules: Seq<RuleModel>,
    path: Seq<char>,
    is_dir: bool,
    upto: int,
)
    requires
        0 <= upto <= rules.len(),
    ensures
        match last_match(rules, path, is_dir, upto) {
            Some(rule) => exists|k: int|
                0 <= k < upto && #[trigger] rules[k] == rule && rule_matches(rule, path, is_dir)
                    && forall|j: int| k < j < upto ==> !rule_matches(#[trigger] rules[j], path, is_dir),
            None => forall|j: int|
                0 <= j < upto ==> !rule_matches(#[trigger] rules[j], path, is_dir),
        },
    decreases upto,
{
    if upto > 0 {
        if rule_matches(rules[upto - 1], path, is_dir) {
            assert(rules[upto - 1] == rules[upto - 1]);
        } else {
            the_last_match_is_last(rules, path, is_dir, upto - 1);
            if let Some(rule) = last_match(rules, path, is_dir, upto - 1) {
                let k = choose|k: int|
                    0 <= k < upto - 1 && #[trigger] rules[k] == rule && rule_matches(
                        rule,
                        path,
                        is_dir,
                    ) && forall|j: int|
                        k < j < upto - 1 ==> !rule_matches(#[trigger] rules[j], path, is_dir);
                assert(rules[k] == rule);
            }
        }
    }
}

/// What is below a directory is what stands behind its name and a separator. Everything is below
/// the root.
pub proof fn below_is_behind_the_name(base: Seq<char>, rest: Seq<char>, path: Seq<char>)
    ensures
        below(Seq::empty(), path) == Some(path),
        base.len() > 0 ==> (below(base, path) == Some(rest) <==> path == base + seq!['/'] + rest),
{
    if base.len() > 0 {
        let whole = base + seq!['/'] + rest;
        let n = base.len() as int;
        if path == whole {
            assert(whole.take(n) =~= base);
            assert(whole[n] == '/');
            assert(whole.skip(n + 1) =~= rest);
        }
        if below(base, path) == Some(rest) {
            assert(path =~= whole) by {
                assert(path.take(n) == base);
                assert forall|i: int| 0 <= i < path.len() implies path[i] == whole[i] by {
                    if i < n {
                        assert(path.take(n)[i] == base[i]);
                    } else if i > n {
                        assert(path.skip(n + 1)[i - n - 1] == path[i]);
                    }
                }
            }
        }
    }
}

} // verus!
