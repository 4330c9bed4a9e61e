//! The layered ignore-rule store: per directory, an optional compiled rule
//! file; a path is judged against the rule files of its own directory and of
//! every ancestor up to the walk root, the nearest directory with a verdict
//! deciding. Version-control metadata directories, IDE-project directories
//! and the rule files themselves are always excluded, whatever the rules say.

use vstd::prelude::*;
use crate::pathutil::{
    file_name_of, has_component, parent_dir_of, lemma_last_slash_pos, path_file_name, path_parent,
    path_has_component, str_eq, views_of,
};
use crate::pattern::{parse_rule_file, parse_rules_spec, ruleset_matches, ruleset_verdict,
    RuleError, RuleModel, RuleSet};

verus! {

/// The always-excluded directory names: version-control metadata and
/// IDE-project directories.
pub open spec fn globally_excluded(p: Seq<char>) -> bool {
    has_component(p, ".git"@) || has_component(p, ".idea"@) || has_component(p, ".vscode"@)
}

/// The control files of the ignore machinery itself, which are never emitted.
pub open spec fn control_file_name(p: Seq<char>) -> bool {
    file_name_of(p) == ".gitignore"@ || file_name_of(p) == ".apcignore"@
}

/// Checks the unconditional ignore rules: a path is ignored when some
/// component is a version-control or IDE metadata directory, or when its file
/// name is an ignore-rule file.
pub fn should_ignore_path(path: &str) -> (r: bool)
    ensures
        r == (globally_excluded(path@) || control_file_name(path@)),
{
    if path_has_component(path, ".git") || path_has_component(path, ".idea")
        || path_has_component(path, ".vscode") {
        return true;
    }
    let name = path_file_name(path);
    str_eq(name.as_str(), ".gitignore") || str_eq(name.as_str(), ".apcignore")
}

/// One directory's cached rule state: `None` when the directory has no rule
/// file, which is distinct from an empty rule file.
pub struct DirRules {
    pub dir: String,
    pub rules: Option<RuleSet>,
}

/// The per-directory cache of compiled ignore-rule files, keyed by the
/// directory's root-relative path (the root itself is the empty path).
pub struct IgnoreStore {
    entries: Vec<DirRules>,
}

impl IgnoreStore {
    /// Directories are recorded at most once.
    pub closed spec fn wf(self) -> bool {
        forall|i: int, j: int|
            0 <= i < j < self.entries@.len() ==> self.entries@[i].dir@ != self.entries@[j].dir@
    }

    /// Whether some directory has been recorded, with or without a rule file.
    pub closed spec fn has_dir(self, d: Seq<char>) -> bool {
        exists|i: int| 0 <= i < self.entries@.len() && self.entries@[i].dir@ == d
    }

    /// Whether a recorded directory has a compiled rule file.
    pub closed spec fn has_rules_for(self, d: Seq<char>) -> bool {
        exists|i: int|
            0 <= i < self.entries@.len() && self.entries@[i].dir@ == d
                && self.entries@[i].rules is Some
    }

    /// The rules of the directory's rule file, in file order.
    pub closed spec fn rules_for(self, d: Seq<char>) -> Seq<RuleModel> {
        let i = choose|i: int|
            0 <= i < self.entries@.len() && self.entries@[i].dir@ == d
                && self.entries@[i].rules is Some;
        self.entries@[i].rules->0@
    }

    /// An empty store: no directory recorded.
    pub fn new() -> (s: IgnoreStore)
        ensures
            s.wf(),
            forall|d: Seq<char>| !s.has_dir(d),
            forall|d: Seq<char>| !s.has_rules_for(d),
    {
        IgnoreStore { entries: Vec::new() }
    }

    /// Finds the compiled rule file of a directory, if it was recorded with
    /// one.
    fn lookup_rules(&self, d: &str) -> (r: Option<&RuleSet>)
        requires
            self.wf(),
        ensures
            match r {
                Some(rs) => self.has_rules_for(d@) && rs@ == self.rules_for(d@),
                None => !self.has_rules_for(d@),
            },
    {
        let n = self.entries.len();
        let mut i: usize = 0;
        while i < n
            invariant
                0 <= i <= n,
                n == self.entries@.len(),
                self.wf(),
                forall|j: int| 0 <= j < i ==> self.entries@[j].dir@ != d@,
            decreases n - i,
        {
            if str_eq(self.entries[i].dir.as_str(), d) {
                match &self.entries[i].rules {
                    Some(rs) => {
                        proof {
                            let wi = choose|k: int|
                                0 <= k < self.entries@.len() && self.entries@[k].dir@ == d@
                                    && self.entries@[k].rules is Some;
                            assert(self.entries@[i as int].dir@ == d@
                                && self.entries@[i as int].rules is Some);
                            assert(wi == i as int);
                        }
                        return Some(rs);
                    },
                    None => {
                        proof {
                            assert forall|k: int|
                                0 <= k < self.entries@.len() && self.entries@[k].dir@ == d@
                                implies !(self.entries@[k].rules is Some) by {
                                assert(k == i as int);
                            }
                        }
                        return None;
                    },
                }
            }
            i += 1;
        }
        None
    }

    /// Records a directory's rule file once: the text is compiled and cached;
    /// `None` records that the directory has no rule file. A directory
    /// already recorded is left as it is. A malformed rule file is a hard
    /// error and leaves the store unchanged.
    pub fn record_dir(&mut self, dir: &str, text: Option<&str>) -> (r: Result<(), RuleError>)
        requires
            old(self).wf(),
        ensures
            final(self).wf(),
            match r {
                Ok(()) => {
                    &&& old(self).has_dir(dir@) ==> *final(self) == *old(self)
                    &&& !old(self).has_dir(dir@) ==> {
                        &&& final(self).has_dir(dir@)
                        &&& match text {
                            None => !final(self).has_rules_for(dir@),
                            Some(t) => {
                                &&& parse_rules_spec(t@) matches Some(ms)
                                &&& final(self).has_rules_for(dir@)
                                &&& final(self).rules_for(dir@) == ms
                            },
                        }
                    }
                },
                Err(_) => {
                    &&& *final(self) == *old(self)
                    &&& !old(self).has_dir(dir@)
                    &&& text matches Some(t) && parse_rules_spec(t@) is None
                },
            },
            forall|d: Seq<char>|
                d != dir@ ==> #[trigger] final(self).has_rules_for(d) == old(self).has_rules_for(d)
                    && (old(self).has_rules_for(d) ==> final(self).rules_for(d) == old(
                self,
                ).rules_for(d)),
            forall|d: Seq<char>|
                d != dir@ ==> #[trigger] final(self).has_dir(d) == old(self).has_dir(d),
    {
        let n = self.entries.len();
        let mut i: usize = 0;
        while i < n
            invariant
                0 <= i <= n,
                n == self.entries@.len(),
                *self == *old(self),
                self.wf(),
                forall|j: int| 0 <= j < i ==> self.entries@[j].dir@ != dir@,
            decreases n - i,
        {
            if str_eq(self.entries[i].dir.as_str(), dir) {
                proof {
                    assert(old(self).has_dir(dir@));
                }
                return Ok(());
            }
            i += 1;
        }
        proof {
            assert(!old(self).has_dir(dir@));
        }
        let compiled: Option<RuleSet> = match text {
            None => None,
            Some(t) => match parse_rule_file(t) {
                Ok(rs) => Some(rs),
                Err(e) => {
                    return Err(e);
                },
            },
        };
        let ghost old_entries = self.entries@;
        self.entries.push(DirRules { dir: dir.to_owned(), rules: compiled });
        proof {
            let m = old_entries.len() as int;
            assert(self.entries@.len() == m + 1);
            assert(forall|j: int| 0 <= j < m ==> self.entries@[j] == old_entries[j]);
            assert(self.entries@[m].dir@ == dir@);
            assert(self.has_dir(dir@));
            if self.entries@[m].rules is Some {
                let wi = choose|k: int|
                    0 <= k < self.entries@.len() && self.entries@[k].dir@ == dir@
                        && self.entries@[k].rules is Some;
                assert(wi == m);
            }
            assert forall|d: Seq<char>| d != dir@ implies #[trigger] self.has_rules_for(d) == old(
                self,
            ).has_rules_for(d) && (old(self).has_rules_for(d) ==> self.rules_for(d) == old(
                self,
            ).rules_for(d)) by {
                if old(self).has_rules_for(d) {
                    let oi = choose|k: int|
                        0 <= k < old_entries.len() && old_entries[k].dir@ == d
                            && old_entries[k].rules is Some;
                    assert(self.entries@[oi].dir@ == d && self.entries@[oi].rules is Some);
                    assert(self.has_rules_for(d));
                    let ni = choose|k: int|
                        0 <= k < self.entries@.len() && self.entries@[k].dir@ == d
                            && self.entries@[k].rules is Some;
                    assert(ni != m);
                    assert(old_entries[ni].dir@ == d && old_entries[ni].rules is Some);
                    assert(self.entries@[ni].rules->0@ == old_entries[ni].rules->0@);
                    let oj = choose|k: int|
                        0 <= k < old_entries.len() && old_entries[k].dir@ == d
                            && old_entries[k].rules is Some;
                    assert(oj == ni || (old_entries[oj].dir@ == d && old_entries[ni].dir@ == d));
                    assert(old(self).rules_for(d) == old_entries[oj].rules->0@);
                    if oj != ni {
                        assert(old(self).wf());
                        assert(false) by {
                            if oj < ni {
                                assert(old_entries[oj].dir@ != old_entries[ni].dir@);
                            } else {
                                assert(old_entries[ni].dir@ != old_entries[oj].dir@);
                            }
                        }
                    }
                } else {
                    if self.has_rules_for(d) {
                        let ni = choose|k: int|
                            0 <= k < self.entries@.len() && self.entries@[k].dir@ == d
                                && self.entries@[k].rules is Some;
                        assert(ni != m);
                        assert(old_entries[ni].dir@ == d && old_entries[ni].rules is Some);
                        assert(old(self).has_rules_for(d));
                    }
                }
            }
            assert forall|d: Seq<char>| d != dir@ implies #[trigger] self.has_dir(d) == old(
                self,
            ).has_dir(d) by {
                if self.has_dir(d) {
                    let ni = choose|k: int|
                        0 <= k < self.entries@.len() && self.entries@[k].dir@ == d;
                    assert(ni != m);
                    assert(old_entries[ni].dir@ == d);
                    assert(old(self).has_dir(d));
                }
                if old(self).has_dir(d) {
                    let oi = choose|k: int| 0 <= k < old_entries.len() && old_entries[k].dir@ == d;
                    assert(self.entries@[oi].dir@ == d);
                }
            }
        }
        Ok(())
    }
}

/// The verdict of the layered rules on a path, walking from the path's own
/// directory up to the root: the nearest directory whose rule file has a
/// verdict decides; `None` when no rule file anywhere matches. `dir` is the
/// directory under consideration and `rel` the path's components relative to
/// it.
pub open spec fn rule_walk(
    s: IgnoreStore,
    dir: Seq<char>,
    rel: Seq<Seq<char>>,
    is_dir: bool,
) -> Option<bool>
    decreases dir.len(),
{
    let here = if s.has_rules_for(dir) {
        ruleset_verdict(s.rules_for(dir), rel, is_dir)
    } else {
        None
    };
    if here is Some {
        here
    } else if dir.len() == 0 {
        None
    } else {
        proof {
            lemma_last_slash_pos(dir);
        }
        rule_walk(s, parent_dir_of(dir), seq![file_name_of(dir)] + rel, is_dir)
    }
}

/// Whether a path is excluded: unconditionally for metadata components and
/// control files, else when the layered rules exclude it.
pub open spec fn excluded_spec(s: IgnoreStore, p: Seq<char>, is_dir: bool) -> bool {
    ||| globally_excluded(p)
    ||| control_file_name(p)
    ||| rule_walk(s, parent_dir_of(p), seq![file_name_of(p)], is_dir) == Some(true)
}

impl IgnoreStore {
    /// Decides whether a path is excluded: unconditionally for paths with a
    /// version-control or IDE metadata component and for ignore-rule files
    /// themselves; otherwise by the rule files of its ancestor directories,
    /// the nearest verdict (exclusion or negation) deciding.
    pub fn is_excluded(&self, path: &str, is_dir: bool) -> (r: bool)
        requires
            self.wf(),
        ensures
            r == excluded_spec(*self, path@, is_dir),
    {
        if should_ignore_path(path) {
            return true;
        }
        let mut dir: String = path_parent(path);
        let mut rel: Vec<String> = Vec::new();
        rel.push(path_file_name(path));
        proof {
            assert(views_of(rel@) =~= seq![file_name_of(path@)]);
        }
        loop
            invariant
                self.wf(),
                !globally_excluded(path@),
                !control_file_name(path@),
                rule_walk(*self, parent_dir_of(path@), seq![file_name_of(path@)], is_dir)
                    == rule_walk(*self, dir@, views_of(rel@), is_dir),
            decreases dir@.len(),
        {
            match self.lookup_rules(dir.as_str()) {
                Some(rs) => {
                    match ruleset_matches(rs, &rel, is_dir) {
                        Some(v) => {
                            return v;
                        },
                        None => {},
                    }
                },
                None => {},
            }
            if dir.as_str().is_empty() {
                return false;
            }
            let name = path_file_name(dir.as_str());
            let ghost old_dir = dir@;
            let ghost old_rel = rel@;
            proof {
                lemma_last_slash_pos(dir@);
            }
            rel.insert(0, name);
            dir = path_parent(dir.as_str());
            proof {
                assert(views_of(rel@) =~= seq![file_name_of(old_dir)] + views_of(old_rel));
            }
        }
    }
}

/// Whether `d` is one of the directories consulted for a path whose
/// containing directory is `dir`: `dir` itself or any ancestor of it.
pub open spec fn dir_chain_contains(dir: Seq<char>, d: Seq<char>) -> bool
    decreases dir.len(),
{
    dir == d || (dir.len() > 0 && {
        proof {
            lemma_last_slash_pos(dir);
        }
        dir_chain_contains(parent_dir_of(dir), d)
    })
}

proof fn lemma_walk_no_rules(s: IgnoreStore, dir: Seq<char>, rel: Seq<Seq<char>>, is_dir: bool)
    requires
        forall|d: Seq<char>| #[trigger] dir_chain_contains(dir, d) ==> !s.has_rules_for(d),
    ensures
        rule_walk(s, dir, rel, is_dir) is None,
    decreases dir.len(),
{
    assert(dir_chain_contains(dir, dir));
    if dir.len() > 0 {
        lemma_last_slash_pos(dir);
        assert forall|d: Seq<char>| #[trigger] dir_chain_contains(parent_dir_of(dir), d)
            implies !s.has_rules_for(d) by {
            assert(dir_chain_contains(dir, d));
        }
        lemma_walk_no_rules(s, parent_dir_of(dir), seq![file_name_of(dir)] + rel, is_dir);
    }
}

/// A path whose ancestor chain up to the root holds no rule file, whose
/// components avoid the always-excluded directory names, and whose name is
/// not itself a rule file, is not excluded.
pub proof fn lemma_no_rules_not_excluded(s: IgnoreStore, p: Seq<char>, is_dir: bool)
    requires
        forall|d: Seq<char>|
            #[trigger] dir_chain_contains(parent_dir_of(p), d) ==> !s.has_rules_for(d),
        !globally_excluded(p),
        !control_file_name(p),
    ensures
        !excluded_spec(s, p, is_dir),
{
    lemma_walk_no_rules(s, parent_dir_of(p), seq![file_name_of(p)], is_dir);
}

proof fn lemma_walk_frame(
    s1: IgnoreStore,
    s2: IgnoreStore,
    d: Seq<char>,
    dir: Seq<char>,
    rel: Seq<Seq<char>>,
    is_dir: bool,
)
    requires
        forall|e: Seq<char>|
            e != d ==> #[trigger] s1.has_rules_for(e) == s2.has_rules_for(e) && (
            s1.has_rules_for(e) ==> s1.rules_for(e) == s2.rules_for(e)),
        !dir_chain_contains(dir, d),
    ensures
        rule_walk(s1, dir, rel, is_dir) == rule_walk(s2, dir, rel, is_dir),
    decreases dir.len(),
{
    assert(dir != d);
    if dir.len() > 0 {
        lemma_last_slash_pos(dir);
        lemma_walk_frame(s1, s2, d, parent_dir_of(dir), seq![file_name_of(dir)] + rel, is_dir);
    }
}

/// A rule file at directory `d` affects only paths at or beneath `d`: for a
/// path that does not consult `d` (no ancestor of the path is `d`), two
/// stores that agree everywhere but at `d` judge the path alike. In
/// particular a pattern in a subdirectory's rule file cannot affect a sibling
/// subdirectory's paths of the same relative name.
pub proof fn lemma_subdir_rules_scoped(
    s1: IgnoreStore,
    s2: IgnoreStore,
    d: Seq<char>,
    p: Seq<char>,
    is_dir: bool,
)
    requires
        forall|e: Seq<char>|
            e != d ==> #[trigger] s1.has_rules_for(e) == s2.has_rules_for(e) && (
            s1.has_rules_for(e) ==> s1.rules_for(e) == s2.rules_for(e)),
        !dir_chain_contains(parent_dir_of(p), d),
    ensures
        excluded_spec(s1, p, is_dir) == excluded_spec(s2, p, is_dir),
{
    lemma_walk_frame(s1, s2, d, parent_dir_of(p), seq![file_name_of(p)], is_dir);
}

} // verus!
