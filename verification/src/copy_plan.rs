//! The tree copier's plan: which files of a source listing are copied,
//! under an exclusion rule evaluated on every entry and on every
//! ancestor directory, so that an excluded directory takes its whole
//! subtree with it; and the idempotence of applying such a plan to a
//! destination tree.

use vstd::prelude::*;

use crate::bytes::{bytes_eq, views_of};

verus! {

/// Deep view of a relative path: each component as a byte sequence.
pub open spec fn path_view(p: Vec<Vec<u8>>) -> Seq<Seq<u8>> {
    views_of(p@)
}

/// Deep views of a listing of relative paths.
pub open spec fn path_views(v: Seq<Vec<Vec<u8>>>) -> Seq<Seq<Seq<u8>>> {
    v.map_values(|p: Vec<Vec<u8>>| views_of(p@))
}

/// The exclusion rule the build uses: an entry is excluded when its
/// name starts with a dot, when it is the destination directory
/// itself, or when it is a reserved top-level directory.
pub struct CopyRule {
    /// The destination root as a path relative to the source root,
    /// when the destination lies under the source.
    pub dest: Option<Vec<Vec<u8>>>,
    /// The reserved top-level directory names.
    pub reserved: Vec<Vec<u8>>,
}

impl CopyRule {
    pub open spec fn dest_view(&self) -> Option<Seq<Seq<u8>>> {
        match self.dest {
            Some(d) => Some(views_of(d@)),
            None => None,
        }
    }

    /// The predicate on one entry, given as a nonempty relative path.
    pub open spec fn allows(&self, path: Seq<Seq<u8>>) -> bool {
        &&& !(path.last().len() > 0 && path.last()[0] == 46)
        &&& self.dest_view() != Some(path)
        &&& !(path.len() == 1 && views_of(self.reserved@).contains(path[0]))
    }

    /// The rule holds of the entry and of every ancestor directory.
    pub open spec fn allows_deeply(&self, path: Seq<Seq<u8>>) -> bool {
        forall|n: int| 1 <= n <= path.len() ==> self.allows(#[trigger] path.subrange(0, n))
    }
}

/// The predicate a file listing is filtered by.
pub open spec fn allowed_pred(rule: CopyRule) -> spec_fn(Seq<Seq<u8>>) -> bool {
    |p: Seq<Seq<u8>>| rule.allows_deeply(p)
}

fn reserved_contains(rule: &CopyRule, name: &Vec<u8>) -> (r: bool)
    ensures
        r == views_of(rule.reserved@).contains(name@),
{
    let mut i: usize = 0;
    while i < rule.reserved.len()
        invariant
            i <= rule.reserved@.len(),
            forall|m: int| 0 <= m < i ==> views_of(rule.reserved@)[m] != name@,
        decreases rule.reserved@.len() - i,
    {
        proof {
            assert(views_of(rule.reserved@)[i as int] == rule.reserved@[i as int]@);
        }
        if bytes_eq(&rule.reserved[i], name) {
            return true;
        }
        i = i + 1;
    }
    proof {
        if views_of(rule.reserved@).contains(name@) {
            let m = choose|m: int|
                0 <= m < views_of(rule.reserved@).len() && views_of(rule.reserved@)[m] == name@;
            assert(false);
        }
    }
    false
}

fn dest_is(rule: &CopyRule, path: &Vec<Vec<u8>>, n: usize) -> (r: bool)
    requires
        n <= path@.len(),
    ensures
        r == (rule.dest_view() == Some(path_view(*path).subrange(0, n as int))),
{
    let ghost pre = path_view(*path).subrange(0, n as int);
    match &rule.dest {
        None => false,
        Some(d) => {
            if d.len() != n {
                proof {
                    assert(views_of(d@).len() != pre.len());
                }
                return false;
            }
            let mut m: usize = 0;
            while m < n
                invariant
                    m <= n <= path@.len(),
                    d@.len() == n,
                    rule.dest matches Some(dd) && dd@ == d@,
                    pre == path_view(*path).subrange(0, n as int),
                    forall|q: int| 0 <= q < m ==> d@[q]@ == path@[q]@,
                decreases n - m,
            {
                proof {
                    assert(views_of(d@)[m as int] == d@[m as int]@);
                    assert(pre[m as int] == path@[m as int]@);
                }
                if !bytes_eq(&d[m], &path[m]) {
                    return false;
                }
                m = m + 1;
            }
            proof {
                assert(views_of(d@) =~= pre);
            }
            true
        },
    }
}

/// Decide the rule on the length-`n` prefix of `path`.
pub fn rule_allows(rule: &CopyRule, path: &Vec<Vec<u8>>, n: usize) -> (r: bool)
    requires
        1 <= n <= path@.len(),
    ensures
        r == rule.allows(path_view(*path).subrange(0, n as int)),
{
    let ghost pre = path_view(*path).subrange(0, n as int);
    proof {
        assert(pre.len() == n);
        assert(pre.last() == path@[n - 1]@);
        assert(pre[0] == path@[0]@);
    }
    let last = &path[n - 1];
    if last.len() > 0 && last[0] == 46 {
        return false;
    }
    if dest_is(rule, path, n) {
        return false;
    }
    if n == 1 {
        if reserved_contains(rule, &path[0]) {
            return false;
        }
    }
    true
}

/// Decide the rule on `path` and on all its ancestors.
pub fn rule_allows_deeply(rule: &CopyRule, path: &Vec<Vec<u8>>) -> (r: bool)
    requires
        path@.len() >= 1,
    ensures
        r == rule.allows_deeply(path_view(*path)),
{
    let mut m: usize = 0;
    while m < path.len()
        invariant
            m <= path@.len(),
            forall|q: int| 1 <= q <= m ==> rule.allows(#[trigger] path_view(*path).subrange(0, q)),
        decreases path@.len() - m,
    {
        if !rule_allows(rule, path, m + 1) {
            proof {
                assert(!rule.allows(path_view(*path).subrange(0, m + 1)));
            }
            return false;
        }
        m = m + 1;
    }
    proof {
        assert(path_view(*path).len() == path@.len());
    }
    true
}

/// The copy plan: exactly those listed files, in listing order, that
/// the rule allows together with all their ancestors.
#[verifier::loop_isolation(false)]
pub fn plan_copy(files: Vec<Vec<Vec<u8>>>, rule: &CopyRule) -> (r: Vec<Vec<Vec<u8>>>)
    ensures
        path_views(r@) == path_views(files@).filter(allowed_pred(*rule)),
{
    let ghost orig = files@;
    let ghost pr = allowed_pred(*rule);
    let mut fs = files;
    let mut out: Vec<Vec<Vec<u8>>> = Vec::new();
    let ghost mut i: int = 0;
    proof {
        reveal(Seq::filter);
        assert(orig.take(0) =~= Seq::<Vec<Vec<u8>>>::empty());
        assert(path_views(orig.take(0)) =~= Seq::<Seq<Seq<u8>>>::empty());
        assert(path_views(out@) =~= Seq::<Seq<Seq<u8>>>::empty());
    }
    while fs.len() > 0
        invariant
            0 <= i <= orig.len(),
            fs@ == orig.skip(i),
            path_views(out@) == path_views(orig.take(i)).filter(pr),
        decreases fs@.len(),
    {
        let p = fs.remove(0);
        let ghost pv = path_view(p);
        proof {
            assert(orig.skip(i)[0] == orig[i]);
            assert(orig.skip(i).remove(0) =~= orig.skip(i + 1));
        }
        let keep = if p.len() == 0 {
            true
        } else {
            rule_allows_deeply(rule, &p)
        };
        proof {
            reveal(Seq::filter);
            assert(keep == pr(pv));
            assert(orig.take(i + 1) =~= orig.take(i).push(orig[i]));
            assert(path_views(orig.take(i + 1)) =~= path_views(orig.take(i)).push(pv));
            assert(path_views(orig.take(i + 1)).drop_last() =~= path_views(orig.take(i)));
            assert(path_views(orig.take(i + 1)).last() == pv);
        }
        if keep {
            let ghost oldout = out@;
            out.push(p);
            proof {
                assert(path_views(out@) =~= path_views(oldout).push(pv));
            }
        }
        proof {
            i = i + 1;
        }
    }
    proof {
        assert(orig.take(i) =~= orig);
    }
    out
}

/// What a copy writes: a destination tree is a mapping from relative
/// paths to file bytes, and each planned path receives the source's
/// bytes, later entries winning.
pub open spec fn plan_writes(
    src: Map<Seq<Seq<u8>>, Seq<u8>>,
    plan: Seq<Seq<Seq<u8>>>,
) -> Map<Seq<Seq<u8>>, Seq<u8>>
    decreases plan.len(),
{
    if plan.len() == 0 {
        Map::empty()
    } else {
        let rest = plan_writes(src, plan.drop_last());
        if src.dom().contains(plan.last()) {
            rest.insert(plan.last(), src[plan.last()])
        } else {
            rest
        }
    }
}

/// The destination tree after the plan is carried out: every planned
/// write lands on top of what the destination already held.
pub open spec fn apply_plan(
    dest: Map<Seq<Seq<u8>>, Seq<u8>>,
    src: Map<Seq<Seq<u8>>, Seq<u8>>,
    plan: Seq<Seq<Seq<u8>>>,
) -> Map<Seq<Seq<u8>>, Seq<u8>> {
    dest.union_prefer_right(plan_writes(src, plan))
}

/// Running the copy twice with the same source, plan and rule leaves
/// the destination tree identical to running it once: every second
/// write repeats the first.
pub proof fn lemma_copy_idempotent(
    dest: Map<Seq<Seq<u8>>, Seq<u8>>,
    src: Map<Seq<Seq<u8>>, Seq<u8>>,
    plan: Seq<Seq<Seq<u8>>>,
)
    ensures
        apply_plan(apply_plan(dest, src, plan), src, plan) == apply_plan(dest, src, plan),
{
    let w = plan_writes(src, plan);
    assert(dest.union_prefer_right(w).union_prefer_right(w) =~= dest.union_prefer_right(w));
}

} // verus!
