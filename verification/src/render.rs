//! Deterministic rendering of the accumulated tree: a nested directory
//! listing with box-drawing connectors (directories before files,
//! lexicographic within each group), and the concatenated file contents in
//! sorted path order.

use vstd::prelude::*;
use vstd::relations::sorted_by;
use vstd::multiset::Multiset;
use vstd::seq_lib::lemma_sorted_unique;
use vstd::string::StrSliceExecFns;
use vstd::string::StringExecFns;
use crate::pathutil::{file_name_of, str_le, str_le_fn, str_le_exec, lemma_str_le_total_ordering,
    lemma_str_le_connected, views_of};
use crate::tree::{DirInfo, FileInfo, ProjectContext};

verus! {

/// The one sorted arrangement of a multiset of strings: sortedness and the
/// multiset determine the sequence.
pub open spec fn canon_sort(ms: Multiset<Seq<char>>) -> Seq<Seq<char>> {
    choose|q: Seq<Seq<char>>| sorted_by(q, str_le_fn()) && q.to_multiset() == ms
}

/// Any sorted sequence with the right multiset is the canonical one.
pub proof fn lemma_canon_sort_unique(q: Seq<Seq<char>>, ms: Multiset<Seq<char>>)
    requires
        sorted_by(q, str_le_fn()),
        q.to_multiset() == ms,
    ensures
        canon_sort(ms) == q,
{
    lemma_str_le_total_ordering();
    let w = canon_sort(ms);
    assert(sorted_by(w, str_le_fn()) && w.to_multiset() == ms);
    lemma_sorted_unique(w, q, str_le_fn());
    assert(w =~= q);
}

/// The first position in sorted `r` at which `x` can be inserted: every
/// earlier element is `<= x`, the element there (if any) is not.
fn find_insert_pos(r: &Vec<String>, x: &str) -> (k: usize)
    ensures
        k <= r@.len(),
        forall|j: int| 0 <= j < k ==> str_le(#[trigger] views_of(r@)[j], x@),
        k < r@.len() ==> !str_le(views_of(r@)[k as int], x@),
{
    let mut k: usize = 0;
    loop
        invariant
            0 <= k <= r@.len(),
            forall|j: int| 0 <= j < k ==> str_le(#[trigger] views_of(r@)[j], x@),
        decreases r@.len() - k,
    {
        if k == r.len() {
            return k;
        }
        if !str_le_exec(r[k].as_str(), x) {
            return k;
        }
        k += 1;
    }
}

/// Sorts strings lexicographically; the result is the canonical arrangement
/// of the input's multiset.
pub fn sort_strings(v: &Vec<String>) -> (r: Vec<String>)
    ensures
        views_of(r@).to_multiset() == views_of(v@).to_multiset(),
        sorted_by(views_of(r@), str_le_fn()),
        views_of(r@) == canon_sort(views_of(v@).to_multiset()),
{
    broadcast use vstd::seq_lib::group_to_multiset_ensures;
    broadcast use vstd::multiset::group_multiset_axioms;

    let mut r: Vec<String> = Vec::new();
    let n = v.len();
    let mut i: usize = 0;
    proof {
        assert(views_of(v@.take(0)).to_multiset() =~= views_of(r@).to_multiset());
    }
    while i < n
        invariant
            0 <= i <= n,
            n == v@.len(),
            views_of(r@).to_multiset() == views_of(v@.take(i as int)).to_multiset(),
            sorted_by(views_of(r@), str_le_fn()),
        decreases n - i,
    {
        let x = v[i].clone();
        let k = find_insert_pos(&r, x.as_str());
        let ghost pre = r@;
        let ghost m = r@.len() as int;
        r.insert(k, x);
        proof {
            let kk = k as int;
            let rv = views_of(r@);
            let pv = views_of(pre);
            assert(rv =~= pv.take(kk) + seq![x@] + pv.skip(kk));
            assert(pv =~= pv.take(kk) + pv.skip(kk));
            vstd::seq_lib::lemma_multiset_commutative(pv.take(kk), pv.skip(kk));
            vstd::seq_lib::lemma_multiset_commutative(pv.take(kk) + seq![x@], pv.skip(kk));
            vstd::seq_lib::lemma_multiset_commutative(pv.take(kk), seq![x@]);
            assert(rv.to_multiset() == pv.to_multiset().add(seq![x@].to_multiset()));
            assert(seq![x@] =~= Seq::<Seq<char>>::empty().push(x@));
            Seq::<Seq<char>>::empty().to_multiset_ensures();
            assert(Seq::<Seq<char>>::empty().push(x@).to_multiset() =~= Seq::<
                Seq<char>,
            >::empty().to_multiset().insert(x@));
            assert(pv.to_multiset().add(seq![x@].to_multiset()) =~= pv.to_multiset().insert(x@));
            assert(views_of(v@.take(i as int + 1)) =~= views_of(v@.take(i as int)).push(
                v@[i as int]@,
            ));
            views_of(v@.take(i as int)).to_multiset_ensures();
            assert(views_of(v@.take(i as int)).push(v@[i as int]@).to_multiset() =~= views_of(
                v@.take(i as int),
            ).to_multiset().insert(v@[i as int]@));
            assert(rv.to_multiset() == views_of(v@.take(i as int + 1)).to_multiset());
            // sortedness of the new arrangement
            assert forall|a: int, b: int| 0 <= a < b < rv.len() implies str_le(
                #[trigger] rv[a],
                #[trigger] rv[b],
            ) by {
                if kk < m {
                    assert(!str_le(pv[kk], x@));
                    lemma_str_le_connected(x@, pv[kk]);
                }
                if a < kk {
                    assert(rv[a] == pv[a]);
                    assert(str_le(pv[a], x@));
                }
                if b > kk {
                    assert(rv[b] == pv[b - 1]);
                    if b - 1 > kk {
                        assert(str_le_fn()(pv[kk], pv[b - 1]));
                        crate::pathutil::lemma_str_le_trans(x@, pv[kk], pv[b - 1]);
                    }
                    assert(str_le(x@, pv[b - 1]));
                }
                if a == kk {
                } else if b == kk {
                } else if a < kk && b > kk {
                    crate::pathutil::lemma_str_le_trans(pv[a], x@, pv[b - 1]);
                } else if b < kk {
                    assert(rv[a] == pv[a] && rv[b] == pv[b]);
                    assert(str_le_fn()(pv[a], pv[b]));
                } else {
                    assert(rv[a] == pv[a - 1] && rv[b] == pv[b - 1]);
                    assert(str_le_fn()(pv[a - 1], pv[b - 1]));
                }
            }
            assert(sorted_by(rv, str_le_fn()));
        }
        i += 1;
    }
    proof {
        assert(v@.take(n as int) =~= v@);
        lemma_canon_sort_unique(views_of(r@), views_of(v@).to_multiset());
    }
    r
}


/// Commuting filtering with the passage to multisets: the multiset of a
/// filtered sequence is the filtered multiset.
pub proof fn lemma_filter_to_multiset(s: Seq<Seq<char>>, pred: spec_fn(Seq<char>) -> bool)
    ensures
        s.filter(pred).to_multiset() == s.to_multiset().filter(pred),
    decreases s.len(),
{
    broadcast use vstd::seq_lib::group_to_multiset_ensures;
    broadcast use vstd::multiset::group_multiset_axioms;

    reveal(Seq::filter);
    if s.len() == 0 {
        assert(s.filter(pred) =~= Seq::<Seq<char>>::empty());
        assert(s.to_multiset().len() == 0);
        vstd::multiset::lemma_multiset_empty_len(s.to_multiset());
        assert(s.filter(pred).to_multiset() =~= s.to_multiset().filter(pred));
    } else {
        let q = s.drop_last();
        let c = s.last();
        lemma_filter_to_multiset(q, pred);
        assert(s =~= q.push(c));
        q.to_multiset_ensures();
        q.filter(pred).to_multiset_ensures();
        assert(q.push(c).to_multiset() =~= q.to_multiset().insert(c));
        if pred(c) {
            assert(s.filter(pred) == q.filter(pred).push(c));
            assert(q.filter(pred).push(c).to_multiset() =~= q.filter(pred).to_multiset().insert(
                c,
            ));
            assert forall|x: Seq<char>| #[trigger] s.filter(pred).to_multiset().count(x)
                == s.to_multiset().filter(pred).count(x) by {
                assert(s.to_multiset().filter(pred).count(x) == if pred(x) {
                    s.to_multiset().count(x)
                } else {
                    0
                });
            }
            assert(s.filter(pred).to_multiset() =~= s.to_multiset().filter(pred));
        } else {
            assert(s.filter(pred) == q.filter(pred));
            assert forall|x: Seq<char>| #[trigger] s.filter(pred).to_multiset().count(x)
                == s.to_multiset().filter(pred).count(x) by {
                assert(s.to_multiset().filter(pred).count(x) == if pred(x) {
                    s.to_multiset().count(x)
                } else {
                    0
                });
                assert(q.to_multiset().filter(pred).count(x) == if pred(x) {
                    q.to_multiset().count(x)
                } else {
                    0
                });
            }
            assert(s.filter(pred).to_multiset() =~= s.to_multiset().filter(pred));
        }
    }
}

/// The directory-classification predicate of a context.
pub open spec fn dir_pred(ctx: ProjectContext) -> spec_fn(Seq<char>) -> bool {
    |c: Seq<char>| ctx.is_dir(c)
}

/// The file-classification predicate of a context: a child that is not a
/// known directory.
pub open spec fn file_pred(ctx: ProjectContext) -> spec_fn(Seq<char>) -> bool {
    |c: Seq<char>| !ctx.is_dir(c)
}

/// The children of the directory entry with path `d`.
pub open spec fn dir_children_of(ctx: ProjectContext, d: Seq<char>) -> Seq<Seq<char>> {
    let i = choose|i: int|
        0 <= i < ctx.directories@.len() && ctx.directories@[i].relative_path@ == d;
    views_of(ctx.directories@[i].children@)
}

/// The subdirectory children of `d`, sorted.
pub open spec fn sorted_dir_children(ctx: ProjectContext, d: Seq<char>) -> Seq<Seq<char>> {
    canon_sort(dir_children_of(ctx, d).filter(dir_pred(ctx)).to_multiset())
}

/// The file children of `d`, sorted.
pub open spec fn sorted_file_children(ctx: ProjectContext, d: Seq<char>) -> Seq<Seq<char>> {
    canon_sort(dir_children_of(ctx, d).filter(file_pred(ctx)).to_multiset())
}

/// The greatest directory-path length in the tree; recursion into ever
/// longer child paths must stop there.
pub open spec fn max_dir_path_len(dirs: Seq<DirInfo>) -> int
    decreases dirs.len(),
{
    if dirs.len() == 0 {
        0
    } else {
        let m = max_dir_path_len(dirs.drop_last());
        if dirs.last().relative_path@.len() > m {
            dirs.last().relative_path@.len() as int
        } else {
            m
        }
    }
}

pub proof fn lemma_max_dir_path_len(dirs: Seq<DirInfo>, i: int)
    requires
        0 <= i < dirs.len(),
    ensures
        dirs[i].relative_path@.len() <= max_dir_path_len(dirs),
        max_dir_path_len(dirs) >= 0,
    decreases dirs.len(),
{
    if dirs.len() > 0 {
        if i < dirs.len() - 1 {
            lemma_max_dir_path_len(dirs.drop_last(), i);
            assert(dirs.drop_last()[i] == dirs[i]);
        } else {
            if dirs.len() >= 2 {
                lemma_max_dir_path_len(dirs.drop_last(), 0);
            }
        }
    }
}

/// The rendered lines of the sorted file children from index `i` on, each
/// with its connector and indentation.
pub open spec fn render_file_lines(files: Seq<Seq<char>>, i: int, new_prefix: Seq<char>) -> Seq<
    char,
>
    decreases files.len() - i,
{
    if i < 0 || i >= files.len() {
        Seq::<char>::empty()
    } else {
        let connector = if i == files.len() - 1 {
            "\u{2514}"@
        } else {
            "\u{251c}"@
        };
        new_prefix + connector + "\u{2500}\u{2500} "@ + file_name_of(files[i]) + "\n"@
            + render_file_lines(files, i + 1, new_prefix)
    }
}

/// The rendered lines and subtrees of the sorted subdirectory children from
/// index `i` on.
pub open spec fn render_dir_lines(
    ctx: ProjectContext,
    dirs_sorted: Seq<Seq<char>>,
    i: int,
    new_prefix: Seq<char>,
    no_files: bool,
    fuel: nat,
) -> Seq<char>
    decreases fuel, 0int, dirs_sorted.len() - i,
{
    if i < 0 || i >= dirs_sorted.len() || fuel == 0 {
        Seq::<char>::empty()
    } else {
        let is_last_dir = i == dirs_sorted.len() - 1 && no_files;
        let connector = if is_last_dir {
            "\u{2514}"@
        } else {
            "\u{251c}"@
        };
        let line = new_prefix + connector + "\u{2500}\u{2500} "@ + file_name_of(dirs_sorted[i])
            + "/\n"@;
        let child_prefix = new_prefix + (if is_last_dir {
            "    "@
        } else {
            "\u{2502}   "@
        });
        line + render_branch_spec(ctx, dirs_sorted[i], child_prefix, false, (fuel - 1) as nat)
            + render_dir_lines(ctx, dirs_sorted, i + 1, new_prefix, no_files, fuel)
    }
}

/// One directory's rendered subtree: subdirectories first, then files, each
/// group sorted, with the indentation discipline of the renderer.
pub open spec fn render_branch_spec(
    ctx: ProjectContext,
    d: Seq<char>,
    prefix: Seq<char>,
    is_root: bool,
    fuel: nat,
) -> Seq<char>
    decreases fuel, 1int, 0int,
{
    let new_prefix = if is_root {
        "    "@
    } else {
        prefix + "    "@
    };
    let dirs_sorted = sorted_dir_children(ctx, d);
    let files_sorted = sorted_file_children(ctx, d);
    render_dir_lines(ctx, dirs_sorted, 0, new_prefix, files_sorted.len() == 0, fuel)
        + render_file_lines(files_sorted, 0, new_prefix)
}

/// The whole rendered tree: the root line and the root's subtree.
pub open spec fn render_tree_spec(ctx: ProjectContext, fuel: nat) -> Seq<char> {
    "./\n"@ + render_branch_spec(ctx, Seq::<char>::empty(), Seq::<char>::empty(), true, fuel)
}


/// Recursively renders a branch of the directory tree onto `result`:
/// subdirectory lines (each followed by its own subtree), then file lines,
/// both groups sorted, with box-drawing connectors and accumulated
/// indentation.
pub fn format_directory_branch(
    context: &ProjectContext,
    dir: &DirInfo,
    prefix: &str,
    result: &mut String,
    is_root: bool,
)
    requires
        context.wf(),
        exists|i: int|
            0 <= i < context.directories@.len() && context.directories@[i] == *dir,
    ensures
        forall|fuel: nat|
            fuel + dir.relative_path@.len() > max_dir_path_len(context.directories@) ==> final(result)@ == old(result)@ + render_branch_spec(
                *context,
                dir.relative_path@,
                prefix@,
                is_root,
                fuel,
            ),
    decreases max_dir_path_len(context.directories@) - dir.relative_path@.len(),
{
    let ghost d = dir.relative_path@;
    let ghost maxlen = max_dir_path_len(context.directories@);
    proof {
        let wi = choose|i: int|
            0 <= i < context.directories@.len() && context.directories@[i] == *dir;
        let ci = choose|i: int|
            0 <= i < context.directories@.len() && context.directories@[i].relative_path@ == d;
        assert(context.directories@[wi].relative_path@ == d);
        if ci != wi {
            if ci < wi {
                assert(context.directories@[ci].relative_path@
                    != context.directories@[wi].relative_path@);
            } else {
                assert(context.directories@[wi].relative_path@
                    != context.directories@[ci].relative_path@);
            }
        }
        assert(dir_children_of(*context, d) == views_of(dir.children@));
        lemma_max_dir_path_len(context.directories@, wi);
    }
    let mut new_prefix: String = prefix.to_owned();
    if is_root {
        new_prefix = "    ".to_owned();
    } else {
        new_prefix.append("    ");
    }
    let ghost np = new_prefix@;
    proof {
        if is_root {
            assert(np == "    "@);
        } else {
            assert(np == prefix@ + "    "@);
        }
    }
    // partition the children into subdirectories and files
    let mut dirs_v: Vec<String> = Vec::new();
    let mut files_v: Vec<String> = Vec::new();
    let nc = dir.children.len();
    let mut ci: usize = 0;
    proof {
        reveal(Seq::filter);
        assert(views_of(dir.children@.take(0)) =~= Seq::<Seq<char>>::empty());
        assert(views_of(dirs_v@) =~= Seq::<Seq<char>>::empty().filter(dir_pred(*context)));
        assert(views_of(files_v@) =~= Seq::<Seq<char>>::empty().filter(file_pred(*context)));
    }
    while ci < nc
        invariant
            context.wf(),
            nc == dir.children@.len(),
            views_of(dirs_v@) == views_of(dir.children@.take(ci as int)).filter(
                dir_pred(*context),
            ),
            views_of(files_v@) == views_of(dir.children@.take(ci as int)).filter(
                file_pred(*context),
            ),
            0 <= ci <= nc,
        decreases nc - ci,
    {
        let child = &dir.children[ci];
        let ghost tk = views_of(dir.children@.take(ci as int));
        proof {
            reveal(Seq::filter);
            assert(views_of(dir.children@.take(ci as int + 1)) =~= tk.push(
                dir.children@[ci as int]@,
            ));
            assert(tk.push(dir.children@[ci as int]@).drop_last() =~= tk);
        }
        if context.has_dir(child.as_str()) {
            dirs_v.push(child.clone());
            proof {
                assert(views_of(dirs_v@) =~= tk.filter(dir_pred(*context)).push(child@));
                assert(views_of(files_v@) =~= views_of(dir.children@.take(ci as int + 1)).filter(
                    file_pred(*context),
                ));
            }
        } else {
            files_v.push(child.clone());
            proof {
                assert(views_of(files_v@) =~= tk.filter(file_pred(*context)).push(child@));
                assert(views_of(dirs_v@) =~= views_of(dir.children@.take(ci as int + 1)).filter(
                    dir_pred(*context),
                ));
            }
        }
        ci += 1;
    }
    proof {
        assert(dir.children@.take(nc as int) =~= dir.children@);
        assert(views_of(dir.children@.take(nc as int)) =~= views_of(dir.children@));
    }
    let sd = sort_strings(&dirs_v);
    let sf = sort_strings(&files_v);
    let ghost sdv = views_of(sd@);
    let ghost sfv = views_of(sf@);
    proof {
        assert(sdv == sorted_dir_children(*context, d));
        assert(sfv == sorted_file_children(*context, d));
    }
    let no_files = sf.len() == 0;
    // subdirectory lines, each followed by its subtree
    let nd = sd.len();
    let mut di: usize = 0;
    let ghost base = result@;
    proof {
        broadcast use vstd::seq_lib::group_to_multiset_ensures;
        broadcast use vstd::multiset::group_multiset_axioms;
        let cs = views_of(dir.children@);
        lemma_filter_to_multiset(cs, dir_pred(*context));
        assert forall|j: int|
            0 <= j < sdv.len() implies context.is_dir(#[trigger] sdv[j])
                && crate::pathutil::parent_dir_of(sdv[j]) == d && sdv[j].len() > d.len() by {
            let x = sdv[j];
            assert(sdv.contains(x));
            assert(sdv.to_multiset().count(x) > 0);
            assert(cs.filter(dir_pred(*context)).to_multiset().count(x) > 0);
            assert(cs.to_multiset().filter(dir_pred(*context)).count(x) > 0);
            assert(dir_pred(*context)(x));
            assert(cs.to_multiset().count(x) > 0);
            assert(cs.contains(x));
            let k = choose|k: int| 0 <= k < cs.len() && cs[k] == x;
            let wi = choose|i: int|
                0 <= i < context.directories@.len() && context.directories@[i] == *dir;
            assert(context.directories@[wi].children@[k]@ == x);
            assert(x.len() > 0 && crate::pathutil::parent_dir_of(x)
                == context.directories@[wi].relative_path@);
            crate::pathutil::lemma_last_slash_pos(x);
            assert(x.len() > d.len());
        }
    }
    while di < nd
        invariant
            context.wf(),
            0 <= di <= nd,
            nd == sd@.len(),
            sdv == views_of(sd@),
            sfv == views_of(sf@),
            sdv == sorted_dir_children(*context, d),
            sfv == sorted_file_children(*context, d),
            no_files == (sfv.len() == 0),
            np == new_prefix@,
            d == dir.relative_path@,
            maxlen == max_dir_path_len(context.directories@),
            dir_children_of(*context, d) == views_of(dir.children@),
            exists|i: int|
                0 <= i < context.directories@.len() && context.directories@[i] == *dir,
            forall|j: int|
                0 <= j < sdv.len() ==> context.is_dir(#[trigger] sdv[j]) && crate::pathutil::parent_dir_of(sdv[j]) == d
                    && sdv[j].len() > d.len(),
            forall|fuel: nat|
                fuel + d.len() > maxlen ==> base + render_dir_lines(
                    *context,
                    sdv,
                    0,
                    np,
                    no_files,
                    fuel,
                ) == result@ + render_dir_lines(*context, sdv, di as int, np, no_files, fuel),
        decreases nd - di,
    {
        let is_last_dir = di == nd - 1 && no_files;
        let ghost res0 = result@;
        result.append(new_prefix.as_str());
        if is_last_dir {
            result.append("\u{2514}");
        } else {
            result.append("\u{251c}");
        }
        result.append("\u{2500}\u{2500} ");
        let fname = crate::pathutil::path_file_name(sd[di].as_str());
        result.append(fname.as_str());
        result.append("/\n");
        let ghost connector = if is_last_dir {
            "\u{2514}"@
        } else {
            "\u{251c}"@
        };
        let ghost line = np + connector + "\u{2500}\u{2500} "@ + file_name_of(sdv[di as int])
            + "/\n"@;
        proof {
            assert(result@ =~= res0 + line);
        }
        let mut child_prefix = new_prefix.clone();
        if is_last_dir {
            child_prefix.append("    ");
        } else {
            child_prefix.append("\u{2502}   ");
        }
        let ghost cp = child_prefix@;
        let cidx = match context.find_dir(sd[di].as_str()) {
            Some(i) => i,
            None => {
                proof {
                    assert(false);
                }
                0
            },
        };
        let child_dir = &context.directories[cidx];
        proof {
            lemma_max_dir_path_len(context.directories@, cidx as int);
        }
        let ghost res1 = result@;
        format_directory_branch(context, child_dir, child_prefix.as_str(), result, false);
        proof {
            assert forall|fuel: nat| fuel + d.len() > maxlen implies base + render_dir_lines(
                *context,
                sdv,
                0,
                np,
                no_files,
                fuel,
            ) == result@ + render_dir_lines(*context, sdv, di as int + 1, np, no_files, fuel) by {
                assert(fuel >= 1);
                let f1 = (fuel - 1) as nat;
                assert(f1 + child_dir.relative_path@.len() > maxlen);
                assert(result@ == res1 + render_branch_spec(*context, sdv[di as int], cp, false, f1));
                assert(render_dir_lines(*context, sdv, di as int, np, no_files, fuel) == line
                    + render_branch_spec(*context, sdv[di as int], cp, false, f1)
                    + render_dir_lines(*context, sdv, di as int + 1, np, no_files, fuel));
                assert(res0 + (line + render_branch_spec(*context, sdv[di as int], cp, false, f1)
                    + render_dir_lines(*context, sdv, di as int + 1, np, no_files, fuel)) =~= (res0
                    + line + render_branch_spec(*context, sdv[di as int], cp, false, f1))
                    + render_dir_lines(*context, sdv, di as int + 1, np, no_files, fuel));
                assert(res0 + render_dir_lines(*context, sdv, di as int, np, no_files, fuel) == (
                res0 + line + render_branch_spec(*context, sdv[di as int], cp, false, f1))
                    + render_dir_lines(*context, sdv, di as int + 1, np, no_files, fuel));
            }
        }
        di += 1;
    }
    // file lines
    let nf = sf.len();
    let mut fi: usize = 0;
    let ghost base2 = result@;
    while fi < nf
        invariant
            0 <= fi <= nf,
            nf == sf@.len(),
            sfv == views_of(sf@),
            np == new_prefix@,
            base2 + render_file_lines(sfv, 0, np) == result@ + render_file_lines(
                sfv,
                fi as int,
                np,
            ),
        decreases nf - fi,
    {
        let is_last = fi == nf - 1;
        let ghost res0 = result@;
        result.append(new_prefix.as_str());
        if is_last {
            result.append("\u{2514}");
        } else {
            result.append("\u{251c}");
        }
        result.append("\u{2500}\u{2500} ");
        let fname = crate::pathutil::path_file_name(sf[fi].as_str());
        result.append(fname.as_str());
        result.append("\n");
        proof {
            let connector = if is_last {
                "\u{2514}"@
            } else {
                "\u{251c}"@
            };
            let line = np + connector + "\u{2500}\u{2500} "@ + file_name_of(sfv[fi as int])
                + "\n"@;
            assert(result@ =~= res0 + line);
            assert(render_file_lines(sfv, fi as int, np) == line + render_file_lines(
                sfv,
                fi as int + 1,
                np,
            ));
            assert(res0 + (line + render_file_lines(sfv, fi as int + 1, np)) =~= (res0 + line)
                + render_file_lines(sfv, fi as int + 1, np));
        }
        fi += 1;
    }
    proof {
        assert(render_file_lines(sfv, nf as int, np).len() == 0);
        assert(base2 + render_file_lines(sfv, 0, np) =~= result@);
        assert forall|fuel: nat| fuel + d.len() > maxlen implies result@ == old(result)@
            + render_branch_spec(*context, d, prefix@, is_root, fuel) by {
            assert(render_dir_lines(*context, sdv, nd as int, np, no_files, fuel).len() == 0);
            assert(base + render_dir_lines(*context, sdv, 0, np, no_files, fuel) =~= base2);
            assert(render_branch_spec(*context, d, prefix@, is_root, fuel) == render_dir_lines(
                *context,
                sdv,
                0,
                np,
                no_files,
                fuel,
            ) + render_file_lines(sfv, 0, np));
            assert(base + (render_dir_lines(*context, sdv, 0, np, no_files, fuel)
                + render_file_lines(sfv, 0, np)) =~= (base + render_dir_lines(
                *context,
                sdv,
                0,
                np,
                no_files,
                fuel,
            )) + render_file_lines(sfv, 0, np));
        }
    }
}


/// The paths of the accepted files, in accumulation order.
pub open spec fn file_paths_of(ctx: ProjectContext) -> Seq<Seq<char>> {
    ctx.files@.map_values(|f: FileInfo| f.relative_path@)
}

/// The content recorded for the file at path `p`.
pub open spec fn file_content_of(ctx: ProjectContext, p: Seq<char>) -> Seq<char> {
    let i = choose|i: int| 0 <= i < ctx.files@.len() && ctx.files@[i].relative_path@ == p;
    ctx.files@[i].content@
}

/// One file's block in the content listing: a header line naming the path,
/// the content, and exactly one trailing newline.
pub open spec fn content_entry(ctx: ProjectContext, p: Seq<char>) -> Seq<char> {
    let content = file_content_of(ctx, p);
    "\n--- "@ + p + " ---\n"@ + content + (if content.len() > 0 && content.last() == '\n' {
        Seq::<char>::empty()
    } else {
        "\n"@
    })
}

/// The content blocks of the sorted file paths from index `i` on.
pub open spec fn render_content_lines(ctx: ProjectContext, ps: Seq<Seq<char>>, i: int) -> Seq<char>
    decreases ps.len() - i,
{
    if i < 0 || i >= ps.len() {
        Seq::<char>::empty()
    } else {
        content_entry(ctx, ps[i]) + render_content_lines(ctx, ps, i + 1)
    }
}

/// The whole content listing: every accepted file, in sorted path order.
pub open spec fn render_contents_spec(ctx: ProjectContext) -> Seq<char> {
    render_content_lines(ctx, canon_sort(file_paths_of(ctx).to_multiset()), 0)
}

/// Renders the directory tree: the root line followed by the root's subtree.
pub fn format_directory_tree(context: &ProjectContext) -> (r: String)
    requires
        context.wf(),
    ensures
        forall|fuel: nat|
            fuel > max_dir_path_len(context.directories@) ==> r@ == render_tree_spec(
                *context,
                fuel,
            ),
{
    proof {
        reveal_strlit("");
        assert(""@ =~= Seq::<char>::empty());
    }
    let mut result = String::new();
    let ri = match context.find_dir("") {
        Some(i) => i,
        None => {
            proof {
                assert(false);
            }
            0
        },
    };
    result.append("./\n");
    let ghost header = result@;
    let root = &context.directories[ri];
    format_directory_branch(context, root, "", &mut result, true);
    proof {
        assert(header == "./\n"@);
        assert(root.relative_path@ == Seq::<char>::empty());
        assert forall|fuel: nat| fuel > max_dir_path_len(context.directories@) implies result@
            == render_tree_spec(*context, fuel) by {
            assert(fuel + root.relative_path@.len() > max_dir_path_len(context.directories@));
            assert(result@ == header + render_branch_spec(
                *context,
                Seq::<char>::empty(),
                Seq::<char>::empty(),
                true,
                fuel,
            ));
        }
    }
    result
}

/// Renders the accepted file contents, sorted by path, each with a header
/// line and exactly one trailing newline.
pub fn format_file_contents(context: &ProjectContext) -> (r: String)
    requires
        context.wf(),
    ensures
        r@ == render_contents_spec(*context),
{
    broadcast use vstd::seq_lib::group_to_multiset_ensures;

    let nfiles = context.files.len();
    let mut paths: Vec<String> = Vec::new();
    let mut i: usize = 0;
    proof {
        assert(views_of(paths@) =~= file_paths_of(*context).take(0));
    }
    while i < nfiles
        invariant
            0 <= i <= nfiles,
            nfiles == context.files@.len(),
            views_of(paths@) == file_paths_of(*context).take(i as int),
        decreases nfiles - i,
    {
        let ghost pp = paths@;
        paths.push(context.files[i].relative_path.clone());
        proof {
            assert(views_of(pp).len() == pp.len());
            assert(file_paths_of(*context).len() == context.files@.len());
            assert(pp.len() == i as int);
            assert(paths@.len() == i + 1);
            assert forall|j: int| 0 <= j < paths@.len() implies #[trigger] views_of(paths@)[j]
                == file_paths_of(*context).take(i as int + 1)[j] by {
                if j < pp.len() {
                    assert(paths@[j] == pp[j]);
                    assert(views_of(pp)[j] == file_paths_of(*context).take(i as int)[j]);
                } else {
                    assert(paths@[j].view() == context.files@[i as int].relative_path@);
                    assert(file_paths_of(*context)[i as int]
                        == context.files@[i as int].relative_path@);
                }
            }
            assert(views_of(paths@) =~= file_paths_of(*context).take(i as int + 1));
        }
        i += 1;
    }
    proof {
        assert(views_of(paths@) =~= file_paths_of(*context));
    }
    let sp = sort_strings(&paths);
    let ghost spv = views_of(sp@);
    proof {
        assert(spv == canon_sort(file_paths_of(*context).to_multiset()));
        assert forall|j: int| 0 <= j < spv.len() implies context.is_file(#[trigger] spv[j]) by {
            let x = spv[j];
            assert(spv.contains(x));
            assert(spv.to_multiset().count(x) > 0);
            assert(file_paths_of(*context).to_multiset().count(x) > 0);
            assert(file_paths_of(*context).contains(x));
            let k = choose|k: int|
                0 <= k < file_paths_of(*context).len() && file_paths_of(*context)[k] == x;
            assert(context.files@[k].relative_path@ == x);
        }
    }
    let mut result = String::new();
    let np = sp.len();
    let mut pi: usize = 0;
    while pi < np
        invariant
            context.wf(),
            0 <= pi <= np,
            np == sp@.len(),
            spv == views_of(sp@),
            forall|j: int| 0 <= j < spv.len() ==> context.is_file(#[trigger] spv[j]),
            render_content_lines(*context, spv, 0) == result@ + render_content_lines(
                *context,
                spv,
                pi as int,
            ),
        decreases np - pi,
    {
        let p = &sp[pi];
        let fidx = match context.find_file(p.as_str()) {
            Some(i) => i,
            None => {
                proof {
                    assert(false);
                }
                0
            },
        };
        proof {
            let ci = choose|i: int|
                0 <= i < context.files@.len() && context.files@[i].relative_path@ == p@;
            if ci != fidx {
                if ci < fidx {
                    assert(context.files@[ci].relative_path@
                        != context.files@[fidx as int].relative_path@);
                } else {
                    assert(context.files@[fidx as int].relative_path@
                        != context.files@[ci].relative_path@);
                }
            }
            assert(context.files@[fidx as int].content@ == file_content_of(*context, p@));
        }
        let ghost res0 = result@;
        result.append("\n--- ");
        result.append(p.as_str());
        result.append(" ---\n");
        let content = &context.files[fidx].content;
        result.append(content.as_str());
        let cn = StrSliceExecFns::unicode_len(content.as_str());
        if !(cn > 0 && StrSliceExecFns::get_char(content.as_str(), cn - 1) == '\n') {
            result.append("\n");
        }
        proof {
            assert(result@ =~= res0 + content_entry(*context, spv[pi as int]));
            assert(render_content_lines(*context, spv, pi as int) == content_entry(
                *context,
                spv[pi as int],
            ) + render_content_lines(*context, spv, pi as int + 1));
            assert(res0 + (content_entry(*context, spv[pi as int]) + render_content_lines(
                *context,
                spv,
                pi as int + 1,
            )) =~= (res0 + content_entry(*context, spv[pi as int])) + render_content_lines(
                *context,
                spv,
                pi as int + 1,
            ));
        }
        pi += 1;
    }
    proof {
        assert(render_content_lines(*context, spv, np as int).len() == 0);
        assert(render_content_lines(*context, spv, 0) =~= result@);
    }
    result
}

/// Renders the complete output: the directory structure followed by the
/// file contents.
pub fn format_project_context(context: &ProjectContext) -> (r: String)
    requires
        context.wf(),
    ensures
        forall|fuel: nat|
            fuel > max_dir_path_len(context.directories@) ==> r@ == "Directory Structure:\n"@
                + render_tree_spec(*context, fuel) + "\nFile Contents:"@ + render_contents_spec(
                *context,
            ),
{
    let mut result = "Directory Structure:\n".to_owned();
    let tree = format_directory_tree(context);
    result.append(tree.as_str());
    result.append("\nFile Contents:");
    let contents = format_file_contents(context);
    result.append(contents.as_str());
    proof {
        assert forall|fuel: nat| fuel > max_dir_path_len(context.directories@) implies result@
            == "Directory Structure:\n"@ + render_tree_spec(*context, fuel)
            + "\nFile Contents:"@ + render_contents_spec(*context) by {
            assert(result@ =~= "Directory Structure:\n"@ + render_tree_spec(*context, fuel)
                + "\nFile Contents:"@ + render_contents_spec(*context));
        }
    }
    result
}


/// The hypotheses under which two contexts describe the same tree: the same
/// paths are directories, and each directory has the same children,
/// regardless of the order in which they were accumulated.
pub open spec fn same_shape(c1: ProjectContext, c2: ProjectContext) -> bool {
    &&& forall|p: Seq<char>| #[trigger] c1.is_dir(p) == c2.is_dir(p)
    &&& forall|p: Seq<char>|
        c1.is_dir(p) ==> #[trigger] dir_children_of(c1, p).to_multiset() == dir_children_of(
            c2,
            p,
        ).to_multiset()
}

proof fn lemma_sorted_children_congruent(c1: ProjectContext, c2: ProjectContext, d: Seq<char>)
    requires
        same_shape(c1, c2),
        c1.is_dir(d),
    ensures
        sorted_dir_children(c1, d) == sorted_dir_children(c2, d),
        sorted_file_children(c1, d) == sorted_file_children(c2, d),
        forall|x: Seq<char>|
            sorted_dir_children(c1, d).contains(x) ==> #[trigger] c1.is_dir(x),
{
    broadcast use vstd::seq_lib::group_to_multiset_ensures;
    broadcast use vstd::multiset::group_multiset_axioms;

    let cs1 = dir_children_of(c1, d);
    let cs2 = dir_children_of(c2, d);
    lemma_filter_to_multiset(cs1, dir_pred(c1));
    lemma_filter_to_multiset(cs2, dir_pred(c2));
    lemma_filter_to_multiset(cs1, file_pred(c1));
    lemma_filter_to_multiset(cs2, file_pred(c2));
    assert(cs1.to_multiset().filter(dir_pred(c1)) =~= cs2.to_multiset().filter(dir_pred(c2)))
        by {
        assert forall|x: Seq<char>| #[trigger] cs1.to_multiset().filter(dir_pred(c1)).count(x)
            == cs2.to_multiset().filter(dir_pred(c2)).count(x) by {
            assert(cs1.to_multiset().filter(dir_pred(c1)).count(x) == if dir_pred(c1)(x) {
                cs1.to_multiset().count(x)
            } else {
                0
            });
            assert(cs2.to_multiset().filter(dir_pred(c2)).count(x) == if dir_pred(c2)(x) {
                cs2.to_multiset().count(x)
            } else {
                0
            });
            assert(dir_pred(c1)(x) == dir_pred(c2)(x));
        }
    }
    assert(cs1.to_multiset().filter(file_pred(c1)) =~= cs2.to_multiset().filter(file_pred(c2)))
        by {
        assert forall|x: Seq<char>| #[trigger] cs1.to_multiset().filter(file_pred(c1)).count(x)
            == cs2.to_multiset().filter(file_pred(c2)).count(x) by {
            assert(cs1.to_multiset().filter(file_pred(c1)).count(x) == if file_pred(c1)(x) {
                cs1.to_multiset().count(x)
            } else {
                0
            });
            assert(cs2.to_multiset().filter(file_pred(c2)).count(x) == if file_pred(c2)(x) {
                cs2.to_multiset().count(x)
            } else {
                0
            });
            assert(file_pred(c1)(x) == file_pred(c2)(x));
        }
    }
    let fs1 = cs1.filter(dir_pred(c1));
    lemma_str_le_total_ordering();
    fs1.lemma_sort_by_ensures(str_le_fn());
    lemma_canon_sort_unique(fs1.sort_by(str_le_fn()), fs1.to_multiset());
    assert(sorted_dir_children(c1, d).to_multiset() == fs1.to_multiset());
    assert forall|x: Seq<char>| sorted_dir_children(c1, d).contains(x) implies #[trigger] c1.is_dir(
        x,
    ) by {
        let sdc = sorted_dir_children(c1, d);
        sdc.to_multiset_ensures();
        assert(sdc.to_multiset().count(x) > 0);
        assert(cs1.to_multiset().filter(dir_pred(c1)).count(x) > 0);
        assert(dir_pred(c1)(x));
    }
}

proof fn lemma_dir_lines_congruent(
    c1: ProjectContext,
    c2: ProjectContext,
    ds: Seq<Seq<char>>,
    i: int,
    np: Seq<char>,
    nf: bool,
    fuel: nat,
)
    requires
        same_shape(c1, c2),
        forall|j: int| 0 <= j < ds.len() ==> c1.is_dir(#[trigger] ds[j]),
    ensures
        render_dir_lines(c1, ds, i, np, nf, fuel) == render_dir_lines(c2, ds, i, np, nf, fuel),
    decreases fuel, 0int, ds.len() - i,
{
    if i < 0 || i >= ds.len() || fuel == 0 {
    } else {
        lemma_branch_congruent(
            c1,
            c2,
            ds[i],
            np + (if i == ds.len() - 1 && nf {
                "    "@
            } else {
                "\u{2502}   "@
            }),
            false,
            (fuel - 1) as nat,
        );
        lemma_dir_lines_congruent(c1, c2, ds, i + 1, np, nf, fuel);
    }
}

proof fn lemma_branch_congruent(
    c1: ProjectContext,
    c2: ProjectContext,
    d: Seq<char>,
    prefix: Seq<char>,
    is_root: bool,
    fuel: nat,
)
    requires
        same_shape(c1, c2),
        c1.is_dir(d),
    ensures
        render_branch_spec(c1, d, prefix, is_root, fuel) == render_branch_spec(
            c2,
            d,
            prefix,
            is_root,
            fuel,
        ),
    decreases fuel, 1int, 0int,
{
    lemma_sorted_children_congruent(c1, c2, d);
    let np = if is_root {
        "    "@
    } else {
        prefix + "    "@
    };
    let ds = sorted_dir_children(c1, d);
    assert forall|j: int| 0 <= j < ds.len() implies c1.is_dir(#[trigger] ds[j]) by {
        assert(ds.contains(ds[j]));
    }
    lemma_dir_lines_congruent(
        c1,
        c2,
        ds,
        0,
        np,
        sorted_file_children(c1, d).len() == 0,
        fuel,
    );
}

/// The rendered tree is a function of the tree's shape alone: two
/// well-formed contexts in which the same paths are directories and every
/// directory holds the same children render identically, whatever order the
/// children were accumulated in, since each directory's children are sorted
/// before rendering.
pub proof fn lemma_render_order_invariant(c1: ProjectContext, c2: ProjectContext, fuel: nat)
    requires
        c1.wf(),
        c2.wf(),
        same_shape(c1, c2),
    ensures
        render_tree_spec(c1, fuel) == render_tree_spec(c2, fuel),
{
    lemma_branch_congruent(c1, c2, Seq::<char>::empty(), Seq::<char>::empty(), true, fuel);
}

} // verus!
