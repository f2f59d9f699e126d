//! Ignore-aware entry planning. The filesystem walk itself is I/O and
//! lives outside this crate; it hands in the full candidate list of a
//! tree in depth-first order (directories before their children). This
//! module decides, purely and verifiably, which candidates are packed:
//! ignore-rule files (regular files named `.packignore`, scoped to their
//! directory) are collected, a candidate whose name matches a rule of an
//! enclosing directory is excluded together with everything below it,
//! and the rule files themselves are not packed. Order is preserved, so
//! the encoder's directories-before-children invariant survives
//! planning, as do unique paths.

use vstd::prelude::*;
use crate::entry::Entry;
use crate::entry::EntryKind;
use crate::entry::EntryModel;
use crate::entry::views;
use crate::safety::SLASH;
use crate::glob::glob_match;
use crate::glob::glob_matches;
use crate::codec::copy_range;

verus! {

/// Newline, the separator between rules in an ignore file.
pub const NEWLINE: u8 = 10;

/// Index of the last separator in `p`, or -1 if it has none.
pub open spec fn last_slash(p: Seq<u8>) -> int
    decreases p.len(),
{
    if p.len() == 0 {
        -1
    } else if p.last() == SLASH {
        p.len() - 1
    } else {
        last_slash(p.drop_last())
    }
}

/// The final path segment of `p`.
pub open spec fn basename(p: Seq<u8>) -> Seq<u8> {
    p.subrange(last_slash(p) + 1, p.len() as int)
}

/// The directory holding `p`: everything before the last separator, or
/// the empty path (the root) if `p` has none.
pub open spec fn dir_of(p: Seq<u8>) -> Seq<u8> {
    if last_slash(p) < 0 {
        Seq::empty()
    } else {
        p.subrange(0, last_slash(p))
    }
}

/// `p` lies strictly inside directory `d` (at any depth). The empty `d`
/// is the pack root, which contains every candidate.
pub open spec fn under_dir(d: Seq<u8>, p: Seq<u8>) -> bool {
    if d.len() == 0 {
        p.len() > 0
    } else {
        d.len() < p.len() && p.subrange(0, d.len() as int) == d && p[d.len() as int] == SLASH
    }
}

/// The file name that carries ignore rules, `.packignore`.
pub open spec fn ignore_name() -> Seq<u8> {
    seq![46u8, 112u8, 97u8, 99u8, 107u8, 105u8, 103u8, 110u8, 111u8, 114u8, 101u8]
}

/// The rule lines of an ignore file body: separator-split with `cur` the
/// partial line carried in, empty lines dropped.
pub open spec fn lines_acc(s: Seq<u8>, cur: Seq<u8>) -> Seq<Seq<u8>>
    decreases s.len(),
{
    if s.len() == 0 {
        if cur.len() > 0 {
            seq![cur]
        } else {
            Seq::empty()
        }
    } else if s[0] == NEWLINE {
        (if cur.len() > 0 {
            seq![cur]
        } else {
            Seq::empty()
        }) + lines_acc(s.skip(1), Seq::empty())
    } else {
        lines_acc(s.skip(1), cur.push(s[0]))
    }
}

/// The rule patterns held in an ignore file body: its non-empty lines.
pub open spec fn rule_lines(s: Seq<u8>) -> Seq<Seq<u8>> {
    lines_acc(s, Seq::empty())
}

/// Rule `j` of candidate `i` (an ignore-rule file whose directory
/// encloses `q`) matches the name of `q`. Only a file can carry rules: a
/// directory or symlink bearing the rule-file name is an ordinary
/// candidate.
pub open spec fn pattern_hits(all: Seq<EntryModel>, q: Seq<u8>, i: int, j: int) -> bool {
    &&& 0 <= i < all.len()
    &&& all[i].kind is File
    &&& basename(all[i].path) == ignore_name()
    &&& under_dir(dir_of(all[i].path), q)
    &&& 0 <= j < rule_lines(all[i].content).len()
    &&& glob_match(rule_lines(all[i].content)[j], basename(q))
}

/// Some ignore rule in scope matches the name of `q` itself.
pub open spec fn matched(all: Seq<EntryModel>, q: Seq<u8>) -> bool {
    exists|i: int, j: int| pattern_hits(all, q, i, j)
}

/// `p` or one of the directories on its way down from the root is
/// matched by a rule in scope, so `p` is pruned.
pub open spec fn excluded(all: Seq<EntryModel>, p: Seq<u8>) -> bool {
    exists|k: int|
        0 < k <= p.len() && (k == p.len() || p[k] == SLASH) && #[trigger] matched(all, p.take(k))
}

/// A candidate survives planning: it is not itself an ignore-rule file,
/// and nothing prunes its path.
pub open spec fn keep(all: Seq<EntryModel>, e: EntryModel) -> bool {
    !(e.kind is File && basename(e.path) == ignore_name()) && !excluded(all, e.path)
}

/// The planned output drawn from the first `n` candidates, in order.
pub open spec fn spec_plan_upto(all: Seq<EntryModel>, n: int) -> Seq<EntryModel>
    decreases n,
{
    if n <= 0 {
        Seq::empty()
    } else {
        spec_plan_upto(all, n - 1) + (if keep(all, all[n - 1]) {
            seq![all[n - 1]]
        } else {
            Seq::<EntryModel>::empty()
        })
    }
}

/// The planned output: the candidates that survive the ignore rules, in
/// their original order.
pub open spec fn spec_plan(all: Seq<EntryModel>) -> Seq<EntryModel> {
    spec_plan_upto(all, all.len() as int)
}

/// The characteristic property of `last_slash`: it names a separator
/// with none after it, or -1 when the path has no separator.
proof fn lemma_last_slash_char(p: Seq<u8>, k: int)
    requires
        -1 <= k < p.len(),
        k >= 0 ==> p[k] == SLASH,
        forall|j: int| k < j < p.len() ==> p[j] != SLASH,
    ensures
        last_slash(p) == k,
    decreases p.len(),
{
    if p.len() == 0 {
    } else if k == p.len() - 1 {
    } else {
        assert(p.last() != SLASH);
        assert(forall|j: int| k < j < p.drop_last().len() ==> p.drop_last()[j] != SLASH);
        lemma_last_slash_char(p.drop_last(), k);
    }
}

/// Whether two byte vectors hold the same bytes.
fn bytes_eq(a: &Vec<u8>, b: &Vec<u8>) -> (r: bool)
    ensures
        r == (a@ == b@),
{
    if a.len() != b.len() {
        return false;
    }
    let n = a.len();
    let mut i: usize = 0;
    while i < n
        invariant
            n == a@.len() == b@.len(),
            0 <= i <= n,
            forall|j: int| 0 <= j < i ==> a@[j] == b@[j],
        decreases n - i,
    {
        if a[i] != b[i] {
            return false;
        }
        i = i + 1;
    }
    proof {
        assert(a@ =~= b@);
    }
    true
}

/// Finds the index just past the last separator of `p`: the start of its
/// final segment.
fn basename_start(p: &Vec<u8>) -> (r: usize)
    ensures
        r == last_slash(p@) + 1,
        0 <= r <= p@.len(),
{
    let n = p.len();
    let mut j = n;
    while j > 0
        invariant
            0 <= j <= n,
            n == p@.len(),
            forall|m: int| j <= m < n ==> p@[m] != SLASH,
        decreases j,
    {
        if p[j - 1] == SLASH {
            proof {
                lemma_last_slash_char(p@, j - 1);
            }
            return j;
        }
        j = j - 1;
    }
    proof {
        lemma_last_slash_char(p@, -1);
    }
    0
}

/// Copies the final path segment of `p`.
pub fn basename_of(p: &Vec<u8>) -> (r: Vec<u8>)
    ensures
        r@ == basename(p@),
{
    let s = basename_start(p);
    copy_range(p, s, p.len())
}

/// Copies the directory part of `p` (empty for a root-level name).
pub fn dir_of_path(p: &Vec<u8>) -> (r: Vec<u8>)
    ensures
        r@ == dir_of(p@),
{
    let s = basename_start(p);
    if s == 0 {
        Vec::new()
    } else {
        copy_range(p, 0, s - 1)
    }
}

/// Decides `under_dir` for concrete paths.
fn under_dir_exec(d: &Vec<u8>, p: &Vec<u8>) -> (r: bool)
    ensures
        r == under_dir(d@, p@),
{
    if d.len() == 0 {
        return p.len() > 0;
    }
    if d.len() >= p.len() {
        return false;
    }
    if p[d.len()] != SLASH {
        return false;
    }
    let pre = copy_range(p, 0, d.len());
    bytes_eq(&pre, d)
}

/// Decides whether `b` is the ignore-rule file name.
fn is_ignore_name(b: &Vec<u8>) -> (r: bool)
    ensures
        r == (b@ == ignore_name()),
{
    let mut exp: Vec<u8> = Vec::new();
    exp.push(46);
    exp.push(112);
    exp.push(97);
    exp.push(99);
    exp.push(107);
    exp.push(105);
    exp.push(103);
    exp.push(110);
    exp.push(111);
    exp.push(114);
    exp.push(101);
    proof {
        assert(exp@ =~= ignore_name());
    }
    bytes_eq(b, &exp)
}

/// The views of a list of byte vectors.
pub open spec fn line_views(v: Seq<Vec<u8>>) -> Seq<Seq<u8>> {
    v.map_values(|x: Vec<u8>| x@)
}

/// Splits an ignore file body into its rule patterns.
fn collect_rules(s: &Vec<u8>) -> (r: Vec<Vec<u8>>)
    ensures
        line_views(r@) == rule_lines(s@),
{
    let n = s.len();
    let mut out: Vec<Vec<u8>> = Vec::new();
    let mut cur: Vec<u8> = Vec::new();
    let mut i: usize = 0;
    proof {
        assert(s@.skip(0) =~= s@);
        assert(line_views(out@) =~= Seq::<Seq<u8>>::empty());
        assert(line_views(out@) + lines_acc(s@, cur@) =~= lines_acc(s@, cur@));
    }
    while i < n
        invariant
            0 <= i <= n,
            n == s@.len(),
            rule_lines(s@) == line_views(out@) + lines_acc(s@.skip(i as int), cur@),
        decreases n - i,
    {
        let ghost suf = s@.skip(i as int);
        proof {
            assert(suf[0] == s@[i as int]);
            assert(suf.skip(1) =~= s@.skip(i + 1));
        }
        let b = s[i];
        if b == NEWLINE {
            proof {
                assert(lines_acc(suf, cur@) == (if cur@.len() > 0 {
                    seq![cur@]
                } else {
                    Seq::<Seq<u8>>::empty()
                }) + lines_acc(s@.skip(i + 1), Seq::<u8>::empty()));
            }
            if cur.len() > 0 {
                let ghost out0 = out@;
                let ghost cur0 = cur@;
                let done = cur;
                cur = Vec::new();
                out.push(done);
                proof {
                    assert(line_views(out@) =~= line_views(out0) + seq![cur0]);
                    assert(line_views(out0) + (seq![cur0] + lines_acc(
                        s@.skip(i + 1),
                        Seq::<u8>::empty(),
                    )) =~= line_views(out@) + lines_acc(s@.skip(i + 1), Seq::<u8>::empty()));
                }
            }
            proof {
                assert(cur@ =~= Seq::<u8>::empty());
            }
        } else {
            let ghost cur0 = cur@;
            cur.push(b);
            proof {
                assert(lines_acc(suf, cur0) == lines_acc(s@.skip(i + 1), cur0.push(b)));
            }
        }
        i = i + 1;
    }
    proof {
        assert(s@.skip(n as int) =~= Seq::<u8>::empty());
    }
    if cur.len() > 0 {
        let ghost out0 = out@;
        let ghost cur0 = cur@;
        out.push(cur);
        proof {
            assert(lines_acc(Seq::<u8>::empty(), cur0) == seq![cur0]);
            assert(line_views(out@) =~= line_views(out0) + seq![cur0]);
        }
    } else {
        proof {
            assert(lines_acc(Seq::<u8>::empty(), cur@) =~= Seq::<Seq<u8>>::empty());
            assert(line_views(out@) + Seq::<Seq<u8>>::empty() =~= line_views(out@));
        }
    }
    out
}

/// Decides `matched` for a concrete candidate list and path.
fn matched_exec(cands: &Vec<Entry>, q: &Vec<u8>) -> (r: bool)
    ensures
        r == matched(views(cands@), q@),
{
    let ghost all = views(cands@);
    let bq = basename_of(q);
    let n = cands.len();
    let mut i: usize = 0;
    while i < n
        invariant
            n == cands@.len(),
            0 <= i <= n,
            all == views(cands@),
            bq@ == basename(q@),
            forall|a: int, c: int| 0 <= a < i ==> !pattern_hits(all, q@, a, c),
        decreases n - i,
    {
        proof {
            assert(all[i as int] == cands@[i as int]@);
        }
        let bn = basename_of(&cands[i].path);
        if matches!(cands[i].kind, EntryKind::File) && is_ignore_name(&bn) {
            let d = dir_of_path(&cands[i].path);
            if under_dir_exec(&d, q) {
                let rules = collect_rules(&cands[i].content);
                let m = rules.len();
                let mut j: usize = 0;
                while j < m
                    invariant
                        m == rules@.len(),
                        0 <= j <= m,
                        n == cands@.len(),
                        i < n,
                        all == views(cands@),
                        bq@ == basename(q@),
                        line_views(rules@) == rule_lines(cands@[i as int]@.content),
                        all[i as int].kind is File,
                        basename(all[i as int].path) == ignore_name(),
                        under_dir(dir_of(all[i as int].path), q@),
                        forall|c: int| 0 <= c < j ==> !pattern_hits(all, q@, i as int, c),
                        forall|a: int, c: int| 0 <= a < i ==> !pattern_hits(all, q@, a, c),
                    decreases m - j,
                {
                    proof {
                        assert(line_views(rules@)[j as int] == rules@[j as int]@);
                        assert(all[i as int] == cands@[i as int]@);
                    }
                    if glob_matches(&rules[j], &bq) {
                        proof {
                            assert(pattern_hits(all, q@, i as int, j as int));
                        }
                        return true;
                    }
                    j = j + 1;
                }
                proof {
                    assert(rule_lines(all[i as int].content).len() == m);
                    assert(forall|c: int| !pattern_hits(all, q@, i as int, c));
                }
            } else {
                proof {
                    assert(forall|c: int| !pattern_hits(all, q@, i as int, c));
                }
            }
        } else {
            proof {
                assert(forall|c: int| !pattern_hits(all, q@, i as int, c));
            }
        }
        i = i + 1;
    }
    proof {
        assert(all.len() == n);
        assert(!matched(all, q@)) by {
            if matched(all, q@) {
                let (a, c) = choose|a: int, c: int| pattern_hits(all, q@, a, c);
                assert(!pattern_hits(all, q@, a, c));
            }
        }
    }
    false
}

/// Decides `excluded` for a concrete candidate list and path.
fn excluded_exec(cands: &Vec<Entry>, p: &Vec<u8>) -> (r: bool)
    ensures
        r == excluded(views(cands@), p@),
{
    let ghost all = views(cands@);
    let n = p.len();
    let mut k: usize = 1;
    while k < n
        invariant
            1 <= k <= n + 1,
            k <= n || n == 0,
            n == p@.len(),
            all == views(cands@),
            forall|t: int|
                0 < t < k ==> !(p@[t] == SLASH && #[trigger] matched(all, p@.take(t))),
        decreases n - k,
    {
        if p[k] == SLASH {
            let q = copy_range(p, 0, k);
            proof {
                assert(q@ =~= p@.take(k as int));
            }
            if matched_exec(cands, &q) {
                proof {
                    assert(matched(all, p@.take(k as int)));
                }
                return true;
            }
        }
        k = k + 1;
    }
    if n > 0 {
        if matched_exec(cands, p) {
            proof {
                assert(p@.take(n as int) =~= p@);
                assert(matched(all, p@.take(n as int)));
            }
            return true;
        }
    }
    proof {
        assert(!excluded(all, p@)) by {
            if excluded(all, p@) {
                let t = choose|t: int|
                    0 < t <= p@.len() && (t == p@.len() || p@[t] == SLASH) && #[trigger] matched(
                        all,
                        p@.take(t),
                    );
                if t == n {
                    assert(p@.take(n as int) =~= p@);
                } else {
                    assert(!(p@[t] == SLASH && matched(all, p@.take(t))));
                }
            }
        }
    }
    false
}

/// Copies one entry.
pub fn clone_entry(e: &Entry) -> (r: Entry)
    ensures
        r@ == e@,
{
    let path = copy_range(&e.path, 0, e.path.len());
    let content = copy_range(&e.content, 0, e.content.len());
    proof {
        assert(e.path@.subrange(0, e.path@.len() as int) =~= e.path@);
        assert(e.content@.subrange(0, e.content@.len() as int) =~= e.content@);
    }
    Entry {
        path,
        kind: e.kind,
        mode: e.mode,
        mtime_sec: e.mtime_sec,
        mtime_nsec: e.mtime_nsec,
        content,
    }
}

/// Plans which candidates are packed: exactly `spec_plan` of the input,
/// in the input's order — ignore-rule files dropped, matched paths and
/// everything below them pruned, everything else kept untouched.
pub fn plan_entries(cands: &Vec<Entry>) -> (r: Vec<Entry>)
    ensures
        views(r@) == spec_plan(views(cands@)),
{
    let ghost all = views(cands@);
    let n = cands.len();
    let mut out: Vec<Entry> = Vec::new();
    let mut i: usize = 0;
    proof {
        assert(views(out@) =~= spec_plan_upto(all, 0));
    }
    while i < n
        invariant
            n == cands@.len(),
            0 <= i <= n,
            all == views(cands@),
            views(out@) == spec_plan_upto(all, i as int),
        decreases n - i,
    {
        proof {
            assert(all[i as int] == cands@[i as int]@);
        }
        let bn = basename_of(&cands[i].path);
        let keep_it = !(matches!(cands[i].kind, EntryKind::File) && is_ignore_name(&bn))
            && !excluded_exec(cands, &cands[i].path);
        proof {
            assert(keep_it == keep(all, all[i as int]));
        }
        if keep_it {
            let e2 = clone_entry(&cands[i]);
            out.push(e2);
            proof {
                assert(views(out@) =~= spec_plan_upto(all, i as int) + seq![all[i as int]]);
                assert(spec_plan_upto(all, i + 1) == spec_plan_upto(all, i as int) + seq![
                    all[i as int],
                ]);
            }
        } else {
            proof {
                assert(spec_plan_upto(all, i + 1) == spec_plan_upto(all, i as int)
                    + Seq::<EntryModel>::empty());
                assert(views(out@) + Seq::<EntryModel>::empty() =~= views(out@));
            }
        }
        i = i + 1;
    }
    out
}

/// Nothing with a pruned path is planned.
proof fn lemma_upto_excludes(all: Seq<EntryModel>, p: Seq<u8>, n: int)
    requires
        excluded(all, p),
    ensures
        forall|t: int|
            0 <= t < spec_plan_upto(all, n).len() ==> #[trigger] spec_plan_upto(all, n)[t].path
                != p,
    decreases n,
{
    if n > 0 {
        lemma_upto_excludes(all, p, n - 1);
        let pre = spec_plan_upto(all, n - 1);
        assert forall|t: int|
            0 <= t < spec_plan_upto(all, n).len() implies #[trigger] spec_plan_upto(
            all,
            n,
        )[t].path != p by {
            if t < pre.len() {
                assert(spec_plan_upto(all, n)[t] == pre[t]);
            } else {
                assert(keep(all, all[n - 1]));
                assert(spec_plan_upto(all, n)[t] == all[n - 1]);
            }
        }
    }
}

/// Ignore correctness, the pruned side: a path that an ignore rule in
/// one of its enclosing directories matches never appears in the planned
/// entry list.
pub proof fn lemma_ignored_path_not_planned(all: Seq<EntryModel>, p: Seq<u8>)
    requires
        p.len() > 0,
        matched(all, p),
    ensures
        forall|t: int|
            0 <= t < spec_plan(all).len() ==> #[trigger] spec_plan(all)[t].path != p,
{
    let k = p.len() as int;
    assert(p.take(k) =~= p);
    assert(matched(all, p.take(k)));
    assert(excluded(all, p));
    lemma_upto_excludes(all, p, all.len() as int);
}

/// Every kept candidate is planned.
proof fn lemma_upto_keeps(all: Seq<EntryModel>, m: int, n: int)
    requires
        0 <= m < n <= all.len(),
        keep(all, all[m]),
    ensures
        spec_plan_upto(all, n).contains(all[m]),
    decreases n,
{
    if n - 1 == m {
        let pre = spec_plan_upto(all, n - 1);
        assert(spec_plan_upto(all, n)[pre.len() as int] == all[m]);
    } else {
        lemma_upto_keeps(all, m, n - 1);
        let pre = spec_plan_upto(all, n - 1);
        let t = choose|t: int| 0 <= t < pre.len() && pre[t] == all[m];
        assert(spec_plan_upto(all, n)[t] == all[m]);
    }
}

/// Ignore correctness, the untouched side: a candidate that no rule
/// prunes (a sibling of an ignored file, say) always appears in the
/// planned entry list.
pub proof fn lemma_kept_candidate_planned(all: Seq<EntryModel>, m: int)
    requires
        0 <= m < all.len(),
        keep(all, all[m]),
    ensures
        spec_plan(all).contains(all[m]),
{
    lemma_upto_keeps(all, m, all.len() as int);
}

/// The keep decision for one entry, scoped to a fixed candidate list.
pub open spec fn keep_pred(all: Seq<EntryModel>) -> spec_fn(EntryModel) -> bool {
    |e: EntryModel| keep(all, e)
}

/// Planning a prefix is filtering that prefix with the keep decision.
proof fn lemma_upto_is_filter(all: Seq<EntryModel>, n: int)
    requires
        0 <= n <= all.len(),
    ensures
        spec_plan_upto(all, n) == all.take(n).filter(keep_pred(all)),
    decreases n,
{
    reveal(Seq::filter);
    if n == 0 {
        assert(all.take(0) =~= Seq::<EntryModel>::empty());
        assert(all.take(0).filter(keep_pred(all)) =~= Seq::<EntryModel>::empty());
    } else {
        lemma_upto_is_filter(all, n - 1);
        let t = all.take(n);
        assert(t.drop_last() =~= all.take(n - 1));
        assert(t.last() == all[n - 1]);
        assert(t.filter(keep_pred(all)) == (if keep_pred(all)(t.last()) {
            t.drop_last().filter(keep_pred(all)).push(t.last())
        } else {
            t.drop_last().filter(keep_pred(all))
        }));
        if keep(all, all[n - 1]) {
            assert(spec_plan_upto(all, n - 1).push(all[n - 1]) =~= spec_plan_upto(all, n - 1)
                + seq![all[n - 1]]);
        } else {
            assert(spec_plan_upto(all, n - 1) + Seq::<EntryModel>::empty() =~= spec_plan_upto(
                all,
                n - 1,
            ));
        }
    }
}

/// Planning is exactly a filter of the candidate list: each candidate
/// either survives unchanged or is dropped, nothing is reordered or
/// invented, so a depth-first input (directories before their children)
/// stays depth-first in the planned output.
pub proof fn lemma_plan_is_filter(all: Seq<EntryModel>)
    ensures
        spec_plan(all) == all.filter(keep_pred(all)),
{
    lemma_upto_is_filter(all, all.len() as int);
    assert(all.take(all.len() as int) =~= all);
}

/// No two entries store the same relative path.
pub open spec fn paths_unique(es: Seq<EntryModel>) -> bool {
    forall|i: int, j: int|
        0 <= i < j < es.len() ==> (#[trigger] es[i].path) != (#[trigger] es[j].path)
}

/// Every entry below a directory is preceded by that directory's own
/// entry: children never come before their parents.
pub open spec fn parents_first(es: Seq<EntryModel>) -> bool {
    forall|j: int|
        0 <= j < es.len() && dir_of(#[trigger] es[j].path).len() > 0 ==> exists|i: int|
            0 <= i < j && es[i].kind is Directory && #[trigger] es[i].path == dir_of(es[j].path)
}

/// `last_slash` stays in range and names a separator when non-negative.
proof fn lemma_last_slash_props(p: Seq<u8>)
    ensures
        -1 <= last_slash(p) < p.len(),
        last_slash(p) >= 0 ==> p[last_slash(p)] == SLASH,
    decreases p.len(),
{
    if p.len() > 0 && p.last() != SLASH {
        lemma_last_slash_props(p.drop_last());
    }
}

/// Pruning is closed downward: a path whose enclosing directory prefix
/// is pruned is pruned itself.
proof fn lemma_excluded_prefix(all: Seq<EntryModel>, p: Seq<u8>, k0: int)
    requires
        0 < k0 < p.len(),
        p[k0] == SLASH,
        excluded(all, p.take(k0)),
    ensures
        excluded(all, p),
{
    let q = p.take(k0);
    let k = choose|k: int|
        0 < k <= q.len() && (k == q.len() || q[k] == SLASH) && #[trigger] matched(all, q.take(k));
    assert(q.take(k) =~= p.take(k));
    assert(matched(all, p.take(k)));
    if k == k0 {
        assert(p[k] == SLASH);
    } else {
        assert(p[k] == q[k]);
    }
    assert(excluded(all, p));
}

/// The planned output of a longer prefix is never shorter.
proof fn lemma_upto_len_monotone(all: Seq<EntryModel>, a: int, b: int)
    requires
        0 <= a <= b,
    ensures
        spec_plan_upto(all, a).len() <= spec_plan_upto(all, b).len(),
    decreases b - a,
{
    if a < b {
        lemma_upto_len_monotone(all, a, b - 1);
    }
}

/// A kept candidate stands in the plan of any longer prefix, at the
/// position counting the kept candidates before it.
proof fn lemma_upto_index(all: Seq<EntryModel>, m: int, n: int)
    requires
        0 <= m < n <= all.len(),
        keep(all, all[m]),
    ensures
        spec_plan_upto(all, m).len() < spec_plan_upto(all, n).len(),
        spec_plan_upto(all, n)[spec_plan_upto(all, m).len() as int] == all[m],
    decreases n,
{
    if n == m + 1 {
        assert(spec_plan_upto(all, n) == spec_plan_upto(all, m) + seq![all[m]]);
    } else {
        lemma_upto_index(all, m, n - 1);
        assert(spec_plan_upto(all, n)[spec_plan_upto(all, m).len() as int] == spec_plan_upto(
            all,
            n - 1,
        )[spec_plan_upto(all, m).len() as int]);
    }
}

/// Every planned element is a kept candidate, standing at the position
/// counting the kept candidates before it.
proof fn lemma_upto_element(all: Seq<EntryModel>, n: int, k: int)
    requires
        0 <= n <= all.len(),
        0 <= k < spec_plan_upto(all, n).len(),
    ensures
        exists|m: int|
            0 <= m < n && keep(all, all[m]) && (#[trigger] spec_plan_upto(all, m).len()) == k
                && spec_plan_upto(all, n)[k] == all[m],
    decreases n,
{
    let pre = spec_plan_upto(all, n - 1);
    if k < pre.len() {
        lemma_upto_element(all, n - 1, k);
        let m = choose|m: int|
            0 <= m < n - 1 && keep(all, all[m]) && (#[trigger] spec_plan_upto(all, m).len()) == k
                && spec_plan_upto(all, n - 1)[k] == all[m];
        assert(spec_plan_upto(all, n)[k] == pre[k]);
        assert(spec_plan_upto(all, m).len() == k && spec_plan_upto(all, n)[k] == all[m]);
    } else {
        assert(keep(all, all[n - 1]));
        assert(pre.len() == k);
        assert(spec_plan_upto(all, n)[k] == all[n - 1]);
    }
}

/// Unique paths survive planning: the plan of a unique-path candidate
/// list never stores one path twice.
pub proof fn lemma_plan_paths_unique(all: Seq<EntryModel>)
    requires
        paths_unique(all),
    ensures
        paths_unique(spec_plan(all)),
{
    let plan = spec_plan(all);
    assert(plan == spec_plan_upto(all, all.len() as int));
    assert forall|k1: int, k2: int|
        0 <= k1 < k2 < plan.len() implies (#[trigger] plan[k1].path) != (
    #[trigger] plan[k2].path) by {
        lemma_upto_element(all, all.len() as int, k1);
        lemma_upto_element(all, all.len() as int, k2);
        let m1 = choose|m: int|
            0 <= m < all.len() && keep(all, all[m]) && (#[trigger] spec_plan_upto(all, m).len())
                == k1 && spec_plan_upto(all, all.len() as int)[k1] == all[m];
        let m2 = choose|m: int|
            0 <= m < all.len() && keep(all, all[m]) && (#[trigger] spec_plan_upto(all, m).len())
                == k2 && spec_plan_upto(all, all.len() as int)[k2] == all[m];
        assert(m1 != m2);
        if m1 < m2 {
            assert(all[m1].path != all[m2].path);
        } else {
            assert(all[m2].path != all[m1].path);
        }
    }
}

/// Parents-first order survives planning: in the plan of a parents-first
/// candidate list, every entry below a directory is still preceded by
/// that directory's entry — pruning takes a directory only together with
/// everything below it.
pub proof fn lemma_plan_parents_first(all: Seq<EntryModel>)
    requires
        parents_first(all),
    ensures
        parents_first(spec_plan(all)),
{
    let plan = spec_plan(all);
    assert(plan == spec_plan_upto(all, all.len() as int));
    assert forall|k2: int|
        0 <= k2 < plan.len() && dir_of(#[trigger] plan[k2].path).len() > 0 implies exists|k1: int|
        0 <= k1 < k2 && plan[k1].kind is Directory && #[trigger] plan[k1].path == dir_of(
        plan[k2].path,
    ) by {
        lemma_upto_element(all, all.len() as int, k2);
        let m2 = choose|m: int|
            0 <= m < all.len() && keep(all, all[m]) && (#[trigger] spec_plan_upto(all, m).len())
                == k2 && spec_plan_upto(all, all.len() as int)[k2] == all[m];
        assert(dir_of(all[m2].path).len() > 0);
        let i = choose|i: int|
            0 <= i < m2 && all[i].kind is Directory && #[trigger] all[i].path == dir_of(
                all[m2].path,
            );
        lemma_last_slash_props(all[m2].path);
        let ls = last_slash(all[m2].path);
        assert(all[i].path =~= all[m2].path.take(ls));
        assert(keep(all, all[i])) by {
            if excluded(all, all[i].path) {
                assert(excluded(all, all[m2].path.take(ls)));
                lemma_excluded_prefix(all, all[m2].path, ls);
            }
        }
        lemma_upto_index(all, i, all.len() as int);
        let k1 = spec_plan_upto(all, i).len() as int;
        assert(plan[k1] == all[i]);
        assert(spec_plan_upto(all, i + 1) == spec_plan_upto(all, i) + seq![all[i]]);
        lemma_upto_len_monotone(all, i + 1, m2);
        assert(k1 < k2);
        assert(plan[k1].kind is Directory && plan[k1].path == dir_of(plan[k2].path));
    }
}

} // verus!
