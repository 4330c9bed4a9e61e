//! String and path helpers for root-relative, forward-slash paths: equality,
//! lexicographic order, last-component extraction, component splitting.

use vstd::prelude::*;
use vstd::relations::total_ordering;
use vstd::string::StrSliceExecFns;

verus! {

/// The views of a sequence of strings.
pub open spec fn views_of(q: Seq<String>) -> Seq<Seq<char>> {
    q.map_values(|s: String| s@)
}

/// True when no character of `s` is a forward slash.
pub open spec fn no_slash(s: Seq<char>) -> bool {
    forall|i: int| 0 <= i < s.len() ==> s[i] != '/'
}

/// String equality, stated over the character views.
pub fn str_eq(a: &str, b: &str) -> (r: bool)
    ensures
        r == (a@ == b@),
{
    let an = a.unicode_len();
    let bn = b.unicode_len();
    if an != bn {
        return false;
    }
    let mut i: usize = 0;
    while i < an
        invariant
            0 <= i <= an,
            an == a@.len(),
            an == b@.len(),
            forall|j: int| 0 <= j < i ==> a@[j] == b@[j],
        decreases an - i,
    {
        if a.get_char(i) != b.get_char(i) {
            return false;
        }
        i += 1;
    }
    proof {
        assert(a@ =~= b@);
    }
    true
}

/// Lexicographic order on character sequences, by code point, with a prefix
/// ordered before every extension of it.
pub open spec fn str_le(a: Seq<char>, b: Seq<char>) -> bool
    decreases a.len(),
{
    if a.len() == 0 {
        true
    } else if b.len() == 0 {
        false
    } else if a[0] == b[0] {
        str_le(a.drop_first(), b.drop_first())
    } else {
        a[0] < b[0]
    }
}

/// `str_le` as a first-class order, for sorting lemmas.
pub open spec fn str_le_fn() -> spec_fn(Seq<char>, Seq<char>) -> bool {
    |a: Seq<char>, b: Seq<char>| str_le(a, b)
}

pub proof fn lemma_str_le_refl(a: Seq<char>)
    ensures
        str_le(a, a),
    decreases a.len(),
{
    if a.len() > 0 {
        lemma_str_le_refl(a.drop_first());
    }
}

pub proof fn lemma_str_le_connected(a: Seq<char>, b: Seq<char>)
    ensures
        str_le(a, b) || str_le(b, a),
    decreases a.len(),
{
    if a.len() == 0 {
        assert(str_le(a, b));
    } else if b.len() == 0 {
        assert(str_le(b, a));
    } else if a[0] == b[0] {
        lemma_str_le_connected(a.drop_first(), b.drop_first());
    } else {
        assert(a[0] < b[0] || b[0] < a[0]);
    }
}

pub proof fn lemma_str_le_antisym(a: Seq<char>, b: Seq<char>)
    requires
        str_le(a, b),
        str_le(b, a),
    ensures
        a == b,
    decreases a.len(),
{
    if a.len() > 0 && b.len() > 0 && a[0] == b[0] {
        lemma_str_le_antisym(a.drop_first(), b.drop_first());
        assert(a.drop_first() == b.drop_first());
        assert(a =~= seq![a[0]] + a.drop_first());
        assert(b =~= seq![b[0]] + b.drop_first());
        assert(a == b);
    } else {
        assert(a.len() == 0 && b.len() == 0) by {
            if a.len() > 0 && b.len() > 0 {
                assert(a[0] < b[0]);
                assert(b[0] < a[0]);
            }
        }
        assert(a =~= b);
    }
}

pub proof fn lemma_str_le_trans(a: Seq<char>, b: Seq<char>, c: Seq<char>)
    requires
        str_le(a, b),
        str_le(b, c),
    ensures
        str_le(a, c),
    decreases a.len(),
{
    if a.len() > 0 && b.len() > 0 && c.len() > 0 && a[0] == b[0] && b[0] == c[0] {
        lemma_str_le_trans(a.drop_first(), b.drop_first(), c.drop_first());
    }
}

/// `str_le` is a total order on character sequences.
pub proof fn lemma_str_le_total_ordering()
    ensures
        total_ordering(str_le_fn()),
{
    let leq = str_le_fn();
    assert forall|x: Seq<char>| #[trigger] leq(x, x) by {
        lemma_str_le_refl(x);
    }
    assert forall|x: Seq<char>, y: Seq<char>| #[trigger] leq(x, y) && #[trigger] leq(y, x)
        implies x == y by {
        lemma_str_le_antisym(x, y);
    }
    assert forall|x: Seq<char>, y: Seq<char>, z: Seq<char>|
        #[trigger] leq(x, y) && #[trigger] leq(y, z) implies leq(x, z) by {
        lemma_str_le_trans(x, y, z);
    }
    assert forall|x: Seq<char>, y: Seq<char>| #[trigger] leq(x, y) || #[trigger] leq(y, x) by {
        lemma_str_le_connected(x, y);
    }
}

/// Lexicographic comparison of two strings.
pub fn str_le_exec(a: &str, b: &str) -> (r: bool)
    ensures
        r == str_le(a@, b@),
{
    let an = a.unicode_len();
    let bn = b.unicode_len();
    let n = if an < bn {
        an
    } else {
        bn
    };
    proof {
        assert(a@.skip(0) =~= a@);
        assert(b@.skip(0) =~= b@);
    }
    let mut i: usize = 0;
    while i < n
        invariant
            0 <= i <= n,
            an == a@.len(),
            bn == b@.len(),
            n <= an,
            n <= bn,
            n == an || n == bn,
            str_le(a@, b@) == str_le(a@.skip(i as int), b@.skip(i as int)),
        decreases n - i,
    {
        let ca = a.get_char(i);
        let cb = b.get_char(i);
        if ca != cb {
            proof {
                assert(a@.skip(i as int)[0] == ca);
                assert(b@.skip(i as int)[0] == cb);
            }
            return ca < cb;
        }
        proof {
            assert(a@.skip(i as int).drop_first() =~= a@.skip(i as int + 1));
            assert(b@.skip(i as int).drop_first() =~= b@.skip(i as int + 1));
        }
        i += 1;
    }
    proof {
        if an <= bn {
            assert(a@.skip(i as int).len() == 0);
        } else {
            assert(b@.skip(i as int).len() == 0);
            assert(a@.skip(i as int).len() > 0);
        }
    }
    an <= bn
}

/// Index of the last forward slash in `s`, or -1 when there is none.
pub open spec fn last_slash_pos(s: Seq<char>) -> int
    decreases s.len(),
{
    if s.len() == 0 {
        -1
    } else if s[s.len() - 1] == '/' {
        s.len() - 1
    } else {
        last_slash_pos(s.drop_last())
    }
}

pub proof fn lemma_last_slash_pos(s: Seq<char>)
    ensures
        -1 <= last_slash_pos(s) < s.len(),
        last_slash_pos(s) >= 0 ==> s[last_slash_pos(s)] == '/',
        forall|j: int| last_slash_pos(s) < j < s.len() ==> s[j] != '/',
    decreases s.len(),
{
    if s.len() > 0 && s[s.len() - 1] != '/' {
        lemma_last_slash_pos(s.drop_last());
        assert forall|j: int| last_slash_pos(s) < j < s.len() implies s[j] != '/' by {
            if j < s.len() - 1 {
                assert(s.drop_last()[j] == s[j]);
            }
        }
    }
}

/// Everything after the last slash of `s`: the final path component.
pub open spec fn file_name_of(s: Seq<char>) -> Seq<char> {
    s.subrange(last_slash_pos(s) + 1, s.len() as int)
}

/// Everything before the last slash of `s`, or the empty (root) path when `s`
/// has a single component.
pub open spec fn parent_dir_of(s: Seq<char>) -> Seq<char> {
    if last_slash_pos(s) < 0 {
        Seq::<char>::empty()
    } else {
        s.subrange(0, last_slash_pos(s))
    }
}

/// Finds the index just past the last slash: `r == last_slash_pos(p@) + 1`.
fn find_after_last_slash(p: &str) -> (r: usize)
    ensures
        r == last_slash_pos(p@) + 1,
        r <= p@.len(),
{
    let n = p.unicode_len();
    let mut i: usize = n;
    while i > 0
        invariant
            0 <= i <= n,
            n == p@.len(),
            forall|j: int| i <= j < n ==> p@[j] != '/',
        decreases i,
    {
        if p.get_char(i - 1) == '/' {
            proof {
                lemma_last_slash_pos(p@);
                let pos = last_slash_pos(p@);
                if pos > i - 1 {
                    assert(p@[pos] != '/');
                }
                if pos < i - 1 {
                    assert(p@[i - 1] != '/');
                }
            }
            return i;
        }
        i -= 1;
    }
    proof {
        lemma_last_slash_pos(p@);
        let pos = last_slash_pos(p@);
        if pos >= 0 {
            assert(p@[pos] != '/');
        }
    }
    0
}

/// The final component of a path (after the last slash).
pub fn path_file_name(p: &str) -> (r: String)
    ensures
        r@ == file_name_of(p@),
{
    let start = find_after_last_slash(p);
    let n = p.unicode_len();
    p.substring_char(start, n).to_owned()
}

/// The containing directory of a path, as a root-relative string; the empty
/// string for a path with a single component.
pub fn path_parent(p: &str) -> (r: String)
    ensures
        r@ == parent_dir_of(p@),
{
    let start = find_after_last_slash(p);
    if start == 0 {
        String::new()
    } else {
        p.substring_char(0, start - 1).to_owned()
    }
}

/// True when some path component of `s` equals `name`.
pub open spec fn has_component(s: Seq<char>, name: Seq<char>) -> bool
    decreases s.len(),
{
    if file_name_of(s) == name {
        true
    } else if last_slash_pos(s) < 0 {
        false
    } else {
        proof {
            lemma_last_slash_pos(s);
        }
        has_component(parent_dir_of(s), name)
    }
}

/// Checks whether some component of the path `p` equals `name`.
pub fn path_has_component(p: &str, name: &str) -> (r: bool)
    ensures
        r == has_component(p@, name@),
{
    let mut cur: String = p.to_owned();
    loop
        invariant
            has_component(p@, name@) == has_component(cur@, name@),
        decreases cur@.len(),
    {
        let fname = path_file_name(cur.as_str());
        if str_eq(fname.as_str(), name) {
            return true;
        }
        let start = find_after_last_slash(cur.as_str());
        if start == 0 {
            return false;
        }
        proof {
            lemma_last_slash_pos(cur@);
        }
        cur = path_parent(cur.as_str());
    }
}

/// Index of the first occurrence of `ch` in `s`, or -1 when there is none.
pub open spec fn first_pos(s: Seq<char>, ch: char) -> int
    decreases s.len(),
{
    if s.len() == 0 {
        -1
    } else if s[0] == ch {
        0
    } else if first_pos(s.drop_first(), ch) < 0 {
        -1
    } else {
        first_pos(s.drop_first(), ch) + 1
    }
}

pub proof fn lemma_first_pos(s: Seq<char>, ch: char)
    ensures
        -1 <= first_pos(s, ch) < s.len(),
        first_pos(s, ch) >= 0 ==> s[first_pos(s, ch)] == ch,
        forall|j: int| 0 <= j < first_pos(s, ch) ==> s[j] != ch,
        first_pos(s, ch) == -1 ==> forall|j: int| 0 <= j < s.len() ==> s[j] != ch,
    decreases s.len(),
{
    if s.len() > 0 && s[0] != ch {
        lemma_first_pos(s.drop_first(), ch);
        assert forall|j: int| 0 <= j < first_pos(s, ch) implies s[j] != ch by {
            if j > 0 {
                assert(s.drop_first()[j - 1] == s[j]);
            }
        }
        if first_pos(s, ch) == -1 {
            assert forall|j: int| 0 <= j < s.len() implies s[j] != ch by {
                if j > 0 {
                    assert(s.drop_first()[j - 1] == s[j]);
                }
            }
        }
    }
}

/// The pieces of `s` separated by `ch`. The empty sequence splits into one
/// empty piece.
pub open spec fn split_on(s: Seq<char>, ch: char) -> Seq<Seq<char>>
    decreases s.len(),
{
    let p = first_pos(s, ch);
    if p < 0 {
        seq![s]
    } else {
        proof {
            lemma_first_pos(s, ch);
        }
        seq![s.subrange(0, p)] + split_on(s.subrange(p + 1, s.len() as int), ch)
    }
}

/// The components of a path: its pieces separated by forward slashes.
pub open spec fn split_slash(s: Seq<char>) -> Seq<Seq<char>> {
    split_on(s, '/')
}

/// Finds the index of the first occurrence of `ch`: `r == Some(first_pos)`.
fn find_first(p: &str, ch: char) -> (r: Option<usize>)
    ensures
        match r {
            Some(k) => k == first_pos(p@, ch) && k < p@.len(),
            None => first_pos(p@, ch) == -1,
        },
{
    let n = p.unicode_len();
    let mut i: usize = 0;
    while i < n
        invariant
            0 <= i <= n,
            n == p@.len(),
            forall|j: int| 0 <= j < i ==> p@[j] != ch,
        decreases n - i,
    {
        if p.get_char(i) == ch {
            proof {
                lemma_first_pos(p@, ch);
                let pos = first_pos(p@, ch);
                if pos > i {
                    assert(p@[i as int] != ch);
                }
                if 0 <= pos < i {
                    assert(p@[pos] != ch);
                }
            }
            return Some(i);
        }
        i += 1;
    }
    proof {
        lemma_first_pos(p@, ch);
        let pos = first_pos(p@, ch);
        if pos >= 0 {
            assert(p@[pos] != ch);
        }
    }
    None
}

/// Splits a string into its pieces separated by `ch`.
pub fn split_str(p: &str, ch: char) -> (r: Vec<String>)
    ensures
        views_of(r@) == split_on(p@, ch),
        r@.len() >= 1,
    decreases p@.len(),
{
    let n = p.unicode_len();
    match find_first(p, ch) {
        None => {
            let mut r: Vec<String> = Vec::new();
            r.push(p.to_owned());
            proof {
                assert(views_of(r@) =~= split_on(p@, ch));
            }
            r
        },
        Some(k) => {
            let head = p.substring_char(0, k).to_owned();
            let tail = p.substring_char(k + 1, n);
            let mut r = split_str(tail, ch);
            r.insert(0, head);
            proof {
                assert(views_of(r@) =~= split_on(p@, ch));
            }
            r
        },
    }
}

/// The characters of a string as a vector.
pub fn str_to_chars(s: &str) -> (r: Vec<char>)
    ensures
        r@ == s@,
{
    let n = s.unicode_len();
    let mut r: Vec<char> = Vec::new();
    let mut i: usize = 0;
    while i < n
        invariant
            0 <= i <= n,
            n == s@.len(),
            r@ =~= s@.subrange(0, i as int),
        decreases n - i,
    {
        r.push(s.get_char(i));
        i += 1;
    }
    proof {
        assert(r@ =~= s@);
    }
    r
}

} // verus!
