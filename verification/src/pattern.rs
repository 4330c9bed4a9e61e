//! Gitignore-style ignore patterns: `#` comments, `!` negation, a trailing
//! slash for directory-only patterns, slashes for anchoring, and the
//! wildcards `*`, `?` and the `**` component.
//!
//! A rule file is an ordered list of rules; the last rule that matches a path
//! decides whether it is excluded or re-included.

use vstd::prelude::*;
use crate::pathutil::{split_on, split_slash, split_str, str_to_chars, views_of};

verus! {

/// The mathematical model of one compiled rule.
pub struct RuleModel {
    /// A `!` rule: a match re-includes the path instead of excluding it.
    pub negate: bool,
    /// A trailing-slash rule: it matches directories only.
    pub dir_only: bool,
    /// A rule with a slash: matched against the whole path relative to the
    /// rule file's directory, instead of against the final component alone.
    pub anchored: bool,
    /// The slash-separated glob components of the pattern.
    pub comps: Seq<Seq<char>>,
}

/// One compiled rule of an ignore-rule file.
pub struct Rule {
    pub negate: bool,
    pub dir_only: bool,
    pub anchored: bool,
    pub comps: Vec<Vec<char>>,
}

impl View for Rule {
    type V = RuleModel;

    open spec fn view(&self) -> RuleModel {
        RuleModel {
            negate: self.negate,
            dir_only: self.dir_only,
            anchored: self.anchored,
            comps: self.comps@.map_values(|c: Vec<char>| c@),
        }
    }
}

/// A compiled ignore-rule file: its rules, in file order.
pub struct RuleSet {
    pub rules: Vec<Rule>,
}

impl View for RuleSet {
    type V = Seq<RuleModel>;

    open spec fn view(&self) -> Seq<RuleModel> {
        self.rules@.map_values(|r: Rule| r@)
    }
}

/// A rule file that does not compile: a rule whose pattern is empty after
/// its markers are removed.
#[derive(Debug, PartialEq, Eq, Clone, Copy)]
pub enum RuleError {
    EmptyPattern,
}

/// Glob match of one pattern component against one path component:
/// `*` matches any run of characters, `?` any single character.
pub open spec fn glob_match(pat: Seq<char>, name: Seq<char>) -> bool
    decreases pat.len() + name.len(),
{
    if pat.len() == 0 {
        name.len() == 0
    } else if pat[0] == '*' {
        glob_match(pat.drop_first(), name) || (name.len() > 0 && glob_match(
            pat,
            name.drop_first(),
        ))
    } else if name.len() == 0 {
        false
    } else {
        (pat[0] == '?' || pat[0] == name[0]) && glob_match(pat.drop_first(), name.drop_first())
    }
}

/// A `**` pattern component, which matches any run of whole components.
pub open spec fn is_doublestar(c: Seq<char>) -> bool {
    c == seq!['*', '*']
}

/// Match of a sequence of pattern components against a sequence of path
/// components, from the start of both.
pub open spec fn comps_match(pats: Seq<Seq<char>>, comps: Seq<Seq<char>>) -> bool
    decreases pats.len() + comps.len(),
{
    if pats.len() == 0 {
        comps.len() == 0
    } else if is_doublestar(pats[0]) {
        comps_match(pats.drop_first(), comps) || (comps.len() > 0 && comps_match(
            pats,
            comps.drop_first(),
        ))
    } else if comps.len() == 0 {
        false
    } else {
        glob_match(pats[0], comps[0]) && comps_match(pats.drop_first(), comps.drop_first())
    }
}

/// Whether a rule matches a path, given the path's components relative to the
/// rule file's directory and whether the path is a directory. An anchored rule
/// is matched against the whole relative path; an unanchored rule against the
/// final component at any depth. A directory-only rule matches directories
/// only.
pub open spec fn rule_matches(r: RuleModel, comps: Seq<Seq<char>>, is_dir: bool) -> bool {
    &&& (is_dir || !r.dir_only)
    &&& if r.anchored {
        comps_match(r.comps, comps)
    } else {
        comps.len() > 0 && r.comps.len() == 1 && glob_match(r.comps[0], comps.last())
    }
}

/// The verdict of a rule file on a path: `Some(true)` excluded, `Some(false)`
/// re-included by a negation, `None` when no rule matches. The last matching
/// rule in file order decides.
pub open spec fn ruleset_verdict(rules: Seq<RuleModel>, comps: Seq<Seq<char>>, is_dir: bool) -> Option<
    bool,
>
    decreases rules.len(),
{
    if rules.len() == 0 {
        None
    } else if rule_matches(rules.last(), comps, is_dir) {
        Some(!rules.last().negate)
    } else {
        ruleset_verdict(rules.drop_last(), comps, is_dir)
    }
}

/// A directory-only rule (trailing separator) never matches a file, whatever
/// its name.
pub proof fn lemma_dir_only_never_matches_file(r: RuleModel, comps: Seq<Seq<char>>)
    requires
        r.dir_only,
    ensures
        !rule_matches(r, comps, false),
{
}

/// Within one rule file, the last rule that matches a path decides its fate;
/// in particular a later negation re-includes a path that an earlier rule
/// excluded.
pub proof fn lemma_later_match_wins(
    rules: Seq<RuleModel>,
    i: int,
    comps: Seq<Seq<char>>,
    is_dir: bool,
)
    requires
        0 <= i < rules.len(),
        rule_matches(rules[i], comps, is_dir),
        forall|j: int| i < j < rules.len() ==> !rule_matches(rules[j], comps, is_dir),
    ensures
        ruleset_verdict(rules, comps, is_dir) == Some(!rules[i].negate),
    decreases rules.len(),
{
    if i < rules.len() - 1 {
        assert(!rule_matches(rules.last(), comps, is_dir));
        assert(rules.drop_last()[i] == rules[i]);
        lemma_later_match_wins(rules.drop_last(), i, comps, is_dir);
    }
}

/// Glob match of `pat` from index `pi` against `name` from index `ni`.
fn glob_match_at(pat: &Vec<char>, pi: usize, name: &str, ni: usize) -> (r: bool)
    requires
        pi <= pat@.len(),
        ni <= name@.len(),
    ensures
        r == glob_match(pat@.skip(pi as int), name@.skip(ni as int)),
    decreases pat@.len() - pi + name@.len() - ni,
{
    let pn = pat.len();
    let nn = vstd::string::StrSliceExecFns::unicode_len(name);
    if pi == pn {
        proof {
            assert(pat@.skip(pi as int).len() == 0);
        }
        return ni == nn;
    }
    proof {
        assert(pat@.skip(pi as int)[0] == pat@[pi as int]);
        assert(pat@.skip(pi as int).drop_first() =~= pat@.skip(pi as int + 1));
    }
    let pc = pat[pi];
    if pc == '*' {
        if glob_match_at(pat, pi + 1, name, ni) {
            return true;
        }
        if ni < nn {
            proof {
                assert(name@.skip(ni as int).len() > 0);
                assert(name@.skip(ni as int).drop_first() =~= name@.skip(ni as int + 1));
            }
            return glob_match_at(pat, pi, name, ni + 1);
        }
        return false;
    }
    if ni == nn {
        proof {
            assert(name@.skip(ni as int).len() == 0);
        }
        return false;
    }
    proof {
        assert(name@.skip(ni as int)[0] == name@[ni as int]);
        assert(name@.skip(ni as int).drop_first() =~= name@.skip(ni as int + 1));
    }
    let nc = vstd::string::StrSliceExecFns::get_char(name, ni);
    if pc == '?' || pc == nc {
        glob_match_at(pat, pi + 1, name, ni + 1)
    } else {
        false
    }
}

/// Glob match of one whole pattern component against one whole name.
pub fn glob_match_exec(pat: &Vec<char>, name: &str) -> (r: bool)
    ensures
        r == glob_match(pat@, name@),
{
    proof {
        assert(pat@.skip(0) =~= pat@);
        assert(name@.skip(0) =~= name@);
    }
    glob_match_at(pat, 0, name, 0)
}

/// Checks whether a pattern component is the `**` component.
fn is_doublestar_exec(c: &Vec<char>) -> (r: bool)
    ensures
        r == is_doublestar(c@),
{
    if c.len() == 2 && c[0] == '*' && c[1] == '*' {
        proof {
            assert(c@ =~= seq!['*', '*']);
        }
        true
    } else {
        proof {
            if c@ == seq!['*', '*'] {
                assert(c@.len() == 2 && c@[0] == '*' && c@[1] == '*');
            }
        }
        false
    }
}

/// Match of pattern components from index `pi` against path components from
/// index `ci`.
fn comps_match_at(pats: &Vec<Vec<char>>, pi: usize, comps: &Vec<String>, ci: usize) -> (r: bool)
    requires
        pi <= pats@.len(),
        ci <= comps@.len(),
    ensures
        r == comps_match(
            pats@.map_values(|c: Vec<char>| c@).skip(pi as int),
            views_of(comps@).skip(ci as int),
        ),
    decreases pats@.len() - pi + comps@.len() - ci,
{
    let ghost pv = pats@.map_values(|c: Vec<char>| c@);
    let ghost cv = views_of(comps@);
    if pi == pats.len() {
        proof {
            assert(pv.skip(pi as int).len() == 0);
        }
        return ci == comps.len();
    }
    proof {
        assert(pv.skip(pi as int)[0] == pv[pi as int]);
        assert(pv.skip(pi as int).drop_first() =~= pv.skip(pi as int + 1));
    }
    if is_doublestar_exec(&pats[pi]) {
        if comps_match_at(pats, pi + 1, comps, ci) {
            return true;
        }
        if ci < comps.len() {
            proof {
                assert(cv.skip(ci as int).len() > 0);
                assert(cv.skip(ci as int).drop_first() =~= cv.skip(ci as int + 1));
            }
            return comps_match_at(pats, pi, comps, ci + 1);
        }
        return false;
    }
    if ci == comps.len() {
        proof {
            assert(cv.skip(ci as int).len() == 0);
        }
        return false;
    }
    proof {
        assert(cv.skip(ci as int)[0] == cv[ci as int]);
        assert(cv.skip(ci as int).drop_first() =~= cv.skip(ci as int + 1));
    }
    if glob_match_exec(&pats[pi], comps[ci].as_str()) {
        comps_match_at(pats, pi + 1, comps, ci + 1)
    } else {
        false
    }
}

/// Whether a rule matches a path given as components relative to the rule
/// file's directory.
pub fn rule_matches_exec(r: &Rule, comps: &Vec<String>, is_dir: bool) -> (b: bool)
    ensures
        b == rule_matches(r@, views_of(comps@), is_dir),
{
    if !is_dir && r.dir_only {
        return false;
    }
    if r.anchored {
        proof {
            assert(r@.comps.skip(0) =~= r@.comps);
            assert(views_of(comps@).skip(0) =~= views_of(comps@));
        }
        comps_match_at(&r.comps, 0, comps, 0)
    } else {
        if comps.len() == 0 || r.comps.len() != 1 {
            return false;
        }
        let last = &comps[comps.len() - 1];
        proof {
            assert(views_of(comps@).last() == comps@[comps@.len() - 1]@);
        }
        glob_match_exec(&r.comps[0], last.as_str())
    }
}

/// The verdict of a compiled rule file on a path: the last matching rule in
/// file order decides; `None` when no rule matches.
pub fn ruleset_matches(rs: &RuleSet, comps: &Vec<String>, is_dir: bool) -> (v: Option<bool>)
    ensures
        v == ruleset_verdict(rs@, views_of(comps@), is_dir),
{
    let mut i: usize = rs.rules.len();
    proof {
        assert(rs@.subrange(0, i as int) =~= rs@);
    }
    while i > 0
        invariant
            0 <= i <= rs.rules@.len(),
            rs@.len() == rs.rules@.len(),
            ruleset_verdict(rs@, views_of(comps@), is_dir) == ruleset_verdict(
                rs@.subrange(0, i as int),
                views_of(comps@),
                is_dir,
            ),
        decreases i,
    {
        proof {
            assert(rs@.subrange(0, i as int).last() == rs@[i - 1]);
            assert(rs@.subrange(0, i as int).drop_last() =~= rs@.subrange(0, i as int - 1));
        }
        if rule_matches_exec(&rs.rules[i - 1], comps, is_dir) {
            return Some(!rs.rules[i - 1].negate);
        }
        i -= 1;
    }
    proof {
        assert(rs@.subrange(0, 0).len() == 0);
    }
    None
}

/// What one line of a rule file means: nothing (blank or comment), a rule,
/// or a malformed pattern.
pub enum LineOutcome {
    Skip,
    Bad,
    Keep(RuleModel),
}

/// Parses one line of a rule file: empty lines and `#` comments are skipped;
/// a leading `!` negates; a trailing `/` makes the rule directory-only; a
/// leading `/`, or any interior slash, anchors the rule; a pattern that is
/// empty once its markers are removed, or has an empty component, is
/// malformed.
pub open spec fn line_negate(line: Seq<char>) -> bool {
    line[0] == '!'
}

pub open spec fn line_start(line: Seq<char>) -> int {
    if line_negate(line) {
        1int
    } else {
        0int
    }
}

pub open spec fn line_dir_only(line: Seq<char>) -> bool {
    line[line.len() - 1] == '/'
}

pub open spec fn line_end(line: Seq<char>) -> int {
    if line_dir_only(line) {
        line.len() - 1
    } else {
        line.len() as int
    }
}

pub open spec fn line_lead_anchor(line: Seq<char>) -> bool {
    line[line_start(line)] == '/'
}

pub open spec fn line_body_start(line: Seq<char>) -> int {
    if line_lead_anchor(line) {
        line_start(line) + 1
    } else {
        line_start(line)
    }
}

/// The glob components of a rule line, once its markers are removed.
pub open spec fn line_comps(line: Seq<char>) -> Seq<Seq<char>> {
    split_slash(line.subrange(line_body_start(line), line_end(line)))
}

pub open spec fn has_empty_comp(comps: Seq<Seq<char>>) -> bool {
    exists|i: int| 0 <= i < comps.len() && comps[i].len() == 0
}

pub open spec fn parse_line_spec(line: Seq<char>) -> LineOutcome {
    if line.len() == 0 || line[0] == '#' {
        LineOutcome::Skip
    } else if line.len() <= line_start(line) || line_end(line) <= line_body_start(line) {
        LineOutcome::Bad
    } else if has_empty_comp(line_comps(line)) {
        LineOutcome::Bad
    } else {
        LineOutcome::Keep(
            RuleModel {
                negate: line_negate(line),
                dir_only: line_dir_only(line),
                anchored: line_lead_anchor(line) || line_comps(line).len() > 1,
                comps: line_comps(line),
            },
        )
    }
}

/// The views of a sequence of compiled rules.
pub open spec fn rules_views(q: Seq<Rule>) -> Seq<RuleModel> {
    q.map_values(|r: Rule| r@)
}

/// Parses a sequence of rule-file lines into rules, in order; `None` when
/// some line is malformed.
pub open spec fn parse_lines_spec(lines: Seq<Seq<char>>) -> Option<Seq<RuleModel>>
    decreases lines.len(),
{
    if lines.len() == 0 {
        Some(Seq::empty())
    } else {
        match parse_line_spec(lines[0]) {
            LineOutcome::Bad => None,
            LineOutcome::Skip => parse_lines_spec(lines.drop_first()),
            LineOutcome::Keep(m) => match parse_lines_spec(lines.drop_first()) {
                None => None,
                Some(rest) => Some(seq![m] + rest),
            },
        }
    }
}

/// Parses the text of a rule file, split into newline-separated lines.
pub open spec fn parse_rules_spec(text: Seq<char>) -> Option<Seq<RuleModel>> {
    parse_lines_spec(split_on(text, '\n'))
}

/// Parses one line of a rule file.
pub fn parse_line(line: &str) -> (r: Result<Option<Rule>, RuleError>)
    ensures
        match r {
            Ok(None) => parse_line_spec(line@) is Skip,
            Ok(Some(rule)) => parse_line_spec(line@) matches LineOutcome::Keep(m) && rule@ == m,
            Err(_) => parse_line_spec(line@) is Bad,
        },
{
    let n = vstd::string::StrSliceExecFns::unicode_len(line);
    if n == 0 || vstd::string::StrSliceExecFns::get_char(line, 0) == '#' {
        return Ok(None);
    }
    let negate = vstd::string::StrSliceExecFns::get_char(line, 0) == '!';
    let a: usize = if negate {
        1
    } else {
        0
    };
    proof {
        assert(negate == line_negate(line@));
        assert(a as int == line_start(line@));
    }
    if n <= a {
        return Err(RuleError::EmptyPattern);
    }
    let dir_only = vstd::string::StrSliceExecFns::get_char(line, n - 1) == '/';
    let b: usize = if dir_only {
        n - 1
    } else {
        n
    };
    proof {
        assert(dir_only == line_dir_only(line@));
        assert(b as int == line_end(line@));
    }
    if b <= a {
        return Err(RuleError::EmptyPattern);
    }
    let lead = vstd::string::StrSliceExecFns::get_char(line, a) == '/';
    let a2: usize = if lead {
        a + 1
    } else {
        a
    };
    proof {
        assert(lead == line_lead_anchor(line@));
        assert(a2 as int == line_body_start(line@));
    }
    if b <= a2 {
        return Err(RuleError::EmptyPattern);
    }
    let body = vstd::string::StrSliceExecFns::substring_char(line, a2, b);
    let comps_s = split_str(body, '/');
    let ghost comps_spec = line_comps(line@);
    proof {
        assert(line@.subrange(a2 as int, b as int) == line@.subrange(
            line_body_start(line@),
            line_end(line@),
        ));
        assert(views_of(comps_s@) == comps_spec);
    }
    let mut i: usize = 0;
    while i < comps_s.len()
        invariant
            0 <= i <= comps_s@.len(),
            line@.len() > 0,
            line@[0] != '#',
            comps_spec == line_comps(line@),
            views_of(comps_s@) == comps_spec,
            forall|j: int| 0 <= j < i ==> #[trigger] comps_spec[j].len() > 0,
        decreases comps_s@.len() - i,
    {
        if vstd::string::StrSliceExecFns::unicode_len(comps_s[i].as_str()) == 0 {
            proof {
                assert(comps_spec[i as int].len() == 0);
                assert(has_empty_comp(line_comps(line@))) by {
                    assert(0 <= (i as int) && (i as int) < comps_spec.len() && comps_spec[i as int].len() == 0);
                }
                assert(parse_line_spec(line@) is Bad);
            }
            return Err(RuleError::EmptyPattern);
        }
        i += 1;
    }
    let anchored = lead || comps_s.len() > 1;
    let mut comps: Vec<Vec<char>> = Vec::new();
    let mut k: usize = 0;
    while k < comps_s.len()
        invariant
            0 <= k <= comps_s@.len(),
            comps@.len() == k,
            forall|j: int| 0 <= j < k ==> #[trigger] comps@[j]@ == comps_s@[j]@,
        decreases comps_s@.len() - k,
    {
        comps.push(str_to_chars(comps_s[k].as_str()));
        k += 1;
    }
    let rule = Rule { negate, dir_only, anchored, comps };
    proof {
        assert(rule@.comps =~= comps_spec);
        assert(!has_empty_comp(line_comps(line@))) by {
            if has_empty_comp(line_comps(line@)) {
                let j = choose|j: int|
                    0 <= j < line_comps(line@).len() && line_comps(line@)[j].len() == 0;
                assert(comps_spec[j].len() > 0);
            }
        }
    }
    Ok(Some(rule))
}

/// Compiles the text of an ignore-rule file into a rule set; a malformed
/// pattern is a hard error.
pub fn parse_rule_file(text: &str) -> (r: Result<RuleSet, RuleError>)
    ensures
        match r {
            Ok(rs) => parse_rules_spec(text@) == Some(rs@),
            Err(_) => parse_rules_spec(text@) is None,
        },
{
    let lines = split_str(text, '\n');
    let ghost lv = views_of(lines@);
    let mut acc: Vec<Rule> = Vec::new();
    let mut i: usize = 0;
    proof {
        assert(lv.skip(0) =~= lv);
    }
    while i < lines.len()
        invariant
            0 <= i <= lines@.len(),
            lv == views_of(lines@),
            parse_rules_spec(text@) == parse_lines_spec(lv),
            match parse_lines_spec(lv.skip(i as int)) {
                None => parse_lines_spec(lv) is None,
                Some(rest) => parse_lines_spec(lv) == Some(rules_views(acc@) + rest),
            },
        decreases lines@.len() - i,
    {
        proof {
            assert(lv.skip(i as int)[0] == lv[i as int]);
            assert(lv.skip(i as int).drop_first() =~= lv.skip(i as int + 1));
        }
        match parse_line(lines[i].as_str()) {
            Err(e) => {
                return Err(e);
            },
            Ok(None) => {},
            Ok(Some(rule)) => {
                let ghost old_acc = acc@;
                acc.push(rule);
                proof {
                    assert(rules_views(acc@) =~= rules_views(old_acc) + seq![rule@]);
                    match parse_lines_spec(lv.skip(i as int + 1)) {
                        Some(rest) => {
                            assert((rules_views(old_acc) + (seq![rule@] + rest)) =~= (rules_views(
                                acc@,
                            ) + rest));
                        },
                        None => {},
                    }
                }
            },
        }
        i += 1;
    }
    proof {
        assert(lv.skip(i as int).len() == 0);
        assert(rules_views(acc@) + Seq::<RuleModel>::empty() =~= rules_views(acc@));
    }
    Ok(RuleSet { rules: acc })
}

} // verus!
