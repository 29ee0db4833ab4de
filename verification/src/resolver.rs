//! The dependency resolver: expands a manifest into an insertion-ordered
//! install set across providers, tolerating dependency cycles.
//!
//! The algorithm is an iterative post-order with cycle breaking.  A popped ref
//! whose unsatisfied dependencies are non-empty is deferred once (marked
//! visited) and re-pushed under them; encountered a second time without
//! progress it is admitted unconditionally, which breaks cycles while keeping
//! the loop iterative and terminating.
//!
//! [`Resolver::step`] performs one pop against dependencies supplied by the
//! caller, so an image build can feed it provider answers as they arrive;
//! [`resolve`] drives it over a closed [`DepUniverse`] and carries the
//! ordering, closure and termination proofs.

use vstd::prelude::*;

use crate::{ParcelRef, RefView};

verus! {

/// The element-wise mathematical value of a sequence of refs.
pub open spec fn refs_view(s: Seq<ParcelRef>) -> Seq<RefView> {
    s.map_values(|r: ParcelRef| r@)
}

/// The subsequence of `deps` whose members are not yet in `inst`, in order of
/// first appearance.
pub open spec fn missing_refs(deps: Seq<ParcelRef>, inst: Seq<RefView>) -> Seq<ParcelRef>
    decreases deps.len(),
{
    if deps.len() == 0 {
        Seq::empty()
    } else {
        let rest = missing_refs(deps.drop_last(), inst);
        if inst.contains(deps.last()@) {
            rest
        } else {
            rest.push(deps.last())
        }
    }
}

proof fn lemma_missing_refs_snoc(deps: Seq<ParcelRef>, inst: Seq<RefView>, i: int)
    requires
        0 <= i < deps.len(),
    ensures
        missing_refs(deps.subrange(0, i + 1), inst) == if inst.contains(deps[i]@) {
            missing_refs(deps.subrange(0, i), inst)
        } else {
            missing_refs(deps.subrange(0, i), inst).push(deps[i])
        },
{
    assert(deps.subrange(0, i + 1).drop_last() =~= deps.subrange(0, i));
    assert(deps.subrange(0, i + 1).last() == deps[i]);
}

/// A missing-set is empty exactly when every dependency is already installed.
pub proof fn lemma_missing_refs_empty(deps: Seq<ParcelRef>, inst: Seq<RefView>)
    ensures
        missing_refs(deps, inst).len() == 0 <==> (forall|i: int|
            0 <= i < deps.len() ==> inst.contains(deps[i]@)),
    decreases deps.len(),
{
    if deps.len() > 0 {
        lemma_missing_refs_empty(deps.drop_last(), inst);
        assert(deps.last() == deps[deps.len() - 1]);
        assert forall|i: int| 0 <= i < deps.len() - 1 implies deps.drop_last()[i] == deps[i] by {}
    }
}

/// Every member of a missing-set is a dependency not yet installed.
pub proof fn lemma_missing_refs_members(deps: Seq<ParcelRef>, inst: Seq<RefView>)
    ensures
        forall|k: int|
            0 <= k < missing_refs(deps, inst).len() ==> refs_view(deps).contains(
                #[trigger] missing_refs(deps, inst)[k]@,
            ) && !inst.contains(missing_refs(deps, inst)[k]@),
    decreases deps.len(),
{
    if deps.len() > 0 {
        lemma_missing_refs_members(deps.drop_last(), inst);
        let m = missing_refs(deps, inst);
        let rest = missing_refs(deps.drop_last(), inst);
        assert forall|k: int| 0 <= k < m.len() implies refs_view(deps).contains(#[trigger] m[k]@)
            && !inst.contains(m[k]@) by {
            if k < rest.len() {
                assert(refs_view(deps.drop_last()).contains(rest[k]@));
                let j = choose|j: int|
                    0 <= j < deps.len() - 1 && refs_view(deps.drop_last())[j] == rest[k]@;
                assert(refs_view(deps)[j] == rest[k]@);
            } else {
                assert(m[k] == deps.last());
                assert(refs_view(deps)[deps.len() - 1] == deps.last()@);
            }
        }
    }
}

/// The two refs are equal exactly when provider and name both match.
pub fn ref_eq(a: &ParcelRef, b: &ParcelRef) -> (r: bool)
    ensures
        r == (a@ == b@),
{
    let r = a.provider == b.provider && a.name == b.name;
    proof {
        if a.provider == b.provider && a.name@ == b.name@ {
            assert(a@ == b@);
        } else {
            assert(a@ != b@);
        }
    }
    r
}

/// Whether `v` holds a ref with the value of `r`.
pub fn contains_ref(v: &Vec<ParcelRef>, r: &ParcelRef) -> (b: bool)
    ensures
        b == refs_view(v@).contains(r@),
{
    let mut i: usize = 0;
    while i < v.len()
        invariant
            0 <= i <= v@.len(),
            forall|j: int| 0 <= j < i ==> v@[j]@ != r@,
        decreases v@.len() - i,
    {
        if ref_eq(&v[i], r) {
            proof {
                assert(refs_view(v@)[i as int] == v@[i as int]@);
            }
            return true;
        }
        i = i + 1;
    }
    proof {
        if refs_view(v@).contains(r@) {
            let j = choose|j: int| 0 <= j < v@.len() && refs_view(v@)[j] == r@;
            assert(v@[j]@ == r@);
        }
    }
    false
}

/// A universe of refs with their (already satisfier-resolved) dependencies,
/// used by [`resolve`] to answer `get_deps` queries.
pub struct DepUniverse {
    pub entries: Vec<(ParcelRef, Vec<ParcelRef>)>,
}

/// Index of the first entry keyed by `k`, or -1.
pub open spec fn find_entry(s: Seq<(ParcelRef, Vec<ParcelRef>)>, k: RefView) -> int
    decreases s.len(),
{
    if s.len() == 0 {
        -1
    } else if s[0].0@ == k {
        0
    } else {
        let r = find_entry(s.subrange(1, s.len() as int), k);
        if r < 0 {
            -1
        } else {
            r + 1
        }
    }
}

proof fn lemma_find_entry(s: Seq<(ParcelRef, Vec<ParcelRef>)>, k: RefView)
    ensures
        find_entry(s, k) == -1 ==> forall|j: int| 0 <= j < s.len() ==> (#[trigger] s[j]).0@ != k,
        find_entry(s, k) != -1 ==> 0 <= find_entry(s, k) < s.len() && s[find_entry(s, k)].0@ == k
            && forall|j: int| 0 <= j < find_entry(s, k) ==> (#[trigger] s[j]).0@ != k,
    decreases s.len(),
{
    if s.len() > 0 && s[0].0@ != k {
        let t = s.subrange(1, s.len() as int);
        lemma_find_entry(t, k);
        assert forall|j: int| 1 <= j < s.len() implies s[j] == t[j - 1] by {}
    }
}

impl DepUniverse {
    /// Whether the universe answers for `k`.
    pub open spec fn contains_key(self, k: RefView) -> bool {
        find_entry(self.entries@, k) >= 0
    }

    /// The dependencies the universe assigns to `k`.
    pub open spec fn deps_of(self, k: RefView) -> Seq<RefView> {
        refs_view(self.entries@[find_entry(self.entries@, k)].1@)
    }

    /// A well-formed universe has one entry per key and is closed under
    /// dependencies, so a resolution that starts inside it stays inside it.
    pub open spec fn wf(self) -> bool {
        &&& forall|i: int, j: int|
            0 <= i < j < self.entries@.len() ==> (#[trigger] self.entries@[i]).0@ != (
            #[trigger] self.entries@[j]).0@
        &&& forall|i: int, d: int|
            0 <= i < self.entries@.len() && 0 <= d < self.entries@[i].1@.len()
                ==> self.contains_key(#[trigger] self.entries@[i].1@[d]@)
    }

    /// The dependencies recorded for `r`, if the universe has an entry for it.
    pub fn lookup_deps<'a>(&'a self, r: &ParcelRef) -> (res: Option<&'a Vec<ParcelRef>>)
        ensures
            match res {
                Some(v) => self.contains_key(r@) && refs_view(v@) == self.deps_of(r@),
                None => !self.contains_key(r@),
            },
    {
        let mut i: usize = 0;
        while i < self.entries.len()
            invariant
                0 <= i <= self.entries@.len(),
                forall|j: int| 0 <= j < i ==> (#[trigger] self.entries@[j]).0@ != r@,
            decreases self.entries@.len() - i,
        {
            if ref_eq(&self.entries[i].0, r) {
                proof {
                    lemma_find_entry(self.entries@, r@);
                    let f = find_entry(self.entries@, r@);
                    if f != i as int {
                        if f == -1 || f > i as int {
                            assert(self.entries@[i as int].0@ != r@);
                        } else {
                            assert(self.entries@[f].0@ != r@);
                        }
                    }
                }
                return Some(&self.entries[i].1);
            }
            i = i + 1;
        }
        proof {
            lemma_find_entry(self.entries@, r@);
            if self.contains_key(r@) {
                assert(self.entries@[find_entry(self.entries@, r@)].0@ != r@);
            }
        }
        None
    }

    /// Keys appearing in a well-formed universe, as a sequence.
    pub open spec fn keys(self) -> Seq<RefView> {
        self.entries@.map_values(|e: (ParcelRef, Vec<ParcelRef>)| e.0@)
    }
}

/// Membership in a universe is membership among its keys.
pub proof fn lemma_contains_key_keys(uni: DepUniverse, k: RefView)
    ensures
        uni.contains_key(k) ==> uni.keys().contains(k),
{
    lemma_find_entry(uni.entries@, k);
    if uni.contains_key(k) {
        let f = find_entry(uni.entries@, k);
        assert(uni.keys()[f] == k);
    }
}

/// Resolution state: the install set under construction, the work stack, and
/// the refs already deferred once (`visited`).  `cycle_broken` records the
/// refs admitted by the cycle escape, for specification purposes only.
pub struct Resolver {
    pub to_install: Vec<ParcelRef>,
    pub stack: Vec<ParcelRef>,
    pub visited: Vec<ParcelRef>,
    pub cycle_broken: Ghost<Set<RefView>>,
}

impl Resolver {
    /// The install set built so far, as mathematical values.
    pub open spec fn installed(self) -> Seq<RefView> {
        refs_view(self.to_install@)
    }

    /// The work stack, as mathematical values.
    pub open spec fn stacked(self) -> Seq<RefView> {
        refs_view(self.stack@)
    }

    /// The deferred refs, as mathematical values.
    pub open spec fn visited_v(self) -> Seq<RefView> {
        refs_view(self.visited@)
    }

    /// An empty resolution.
    pub fn new() -> (r: Resolver)
        ensures
            r.to_install@ =~= Seq::<ParcelRef>::empty(),
            r.stack@ =~= Seq::<ParcelRef>::empty(),
            r.visited@ =~= Seq::<ParcelRef>::empty(),
            r.cycle_broken@ =~= Set::<RefView>::empty(),
    {
        Resolver {
            to_install: Vec::new(),
            stack: Vec::new(),
            visited: Vec::new(),
            cycle_broken: Ghost(Set::empty()),
        }
    }

    /// Pushes one manifest entry onto the work stack.
    pub fn push_root(&mut self, r: ParcelRef)
        ensures
            final(self).stack@ == old(self).stack@.push(r),
            final(self).to_install@ == old(self).to_install@,
            final(self).visited@ == old(self).visited@,
            final(self).cycle_broken@ == old(self).cycle_broken@,
    {
        self.stack.push(r);
    }

    /// The ref the resolver will pop next, for which the caller should supply
    /// dependencies to [`Resolver::step`].
    pub fn current(&self) -> (r: Option<ParcelRef>)
        ensures
            match r {
                Some(p) => self.stack@.len() > 0 && p == self.stack@.last(),
                None => self.stack@.len() == 0,
            },
    {
        if self.stack.len() == 0 {
            None
        } else {
            Some(self.stack[self.stack.len() - 1].duplicate())
        }
    }

    /// One resolution step: pops the top ref and treats `deps` as its
    /// satisfier-resolved dependency list.
    ///
    /// The ensures states the exact transition: an already-installed ref is
    /// dropped; one with no missing dependencies is appended to the install
    /// set; one already deferred is appended anyway (the cycle escape) and its
    /// missing dependencies are re-stacked; otherwise it is deferred below its
    /// missing dependencies and marked visited.
    pub fn step(&mut self, deps: &Vec<ParcelRef>)
        requires
            old(self).stack@.len() > 0,
        ensures
            ({
                let p = old(self).stack@.last();
                let inst0 = old(self).installed();
                let stack0 = old(self).stack@.drop_last();
                let m = missing_refs(deps@, inst0);
                if inst0.contains(p@) {
                    &&& final(self).to_install@ == old(self).to_install@
                    &&& final(self).stack@ == stack0
                    &&& final(self).visited@ == old(self).visited@
                    &&& final(self).cycle_broken@ == old(self).cycle_broken@
                } else if m.len() == 0 {
                    &&& final(self).to_install@ == old(self).to_install@.push(p)
                    &&& final(self).stack@ == stack0
                    &&& final(self).visited@ == old(self).visited@
                    &&& final(self).cycle_broken@ == old(self).cycle_broken@
                } else if old(self).visited_v().contains(p@) {
                    &&& final(self).to_install@ == old(self).to_install@.push(p)
                    &&& final(self).stack@ == stack0 + m
                    &&& final(self).visited@ == old(self).visited@
                    &&& final(self).cycle_broken@ == old(self).cycle_broken@.insert(p@)
                } else {
                    &&& final(self).to_install@ == old(self).to_install@
                    &&& final(self).stack@ == stack0.push(p) + m
                    &&& final(self).visited@ == old(self).visited@.push(p)
                    &&& final(self).cycle_broken@ == old(self).cycle_broken@
                }
            }),
    {
        let ghost inst0 = self.installed();
        let p = self.stack.pop().unwrap();
        if contains_ref(&self.to_install, &p) {
            return ;
        }
        let mut m: Vec<ParcelRef> = Vec::new();
        let mut i: usize = 0;
        while i < deps.len()
            invariant
                0 <= i <= deps@.len(),
                m@ == missing_refs(deps@.subrange(0, i as int), inst0),
                refs_view(self.to_install@) == inst0,
            decreases deps@.len() - i,
        {
            proof {
                lemma_missing_refs_snoc(deps@, inst0, i as int);
            }
            if !contains_ref(&self.to_install, &deps[i]) {
                let d = deps[i].duplicate();
                proof {
                    assert(d == deps@[i as int]);
                }
                m.push(d);
            }
            i = i + 1;
        }
        proof {
            assert(deps@.subrange(0, deps@.len() as int) =~= deps@);
        }
        if m.len() == 0 {
            self.to_install.push(p);
        } else if contains_ref(&self.visited, &p) {
            proof {
                self.cycle_broken@ = self.cycle_broken@.insert(p@);
            }
            self.to_install.push(p);
            self.stack.append(&mut m);
        } else {
            let pv = p.duplicate();
            proof {
                assert(pv == p);
            }
            self.stack.push(p);
            self.stack.append(&mut m);
            self.visited.push(pv);
        }
    }
}

/// Every element of `s` has an entry in the universe.
pub open spec fn all_in_universe(uni: DepUniverse, s: Seq<RefView>) -> bool {
    forall|i: int| 0 <= i < s.len() ==> uni.contains_key(#[trigger] s[i])
}

/// Every dependency of an installed ref is installed or still stacked.
pub open spec fn closure_pending(uni: DepUniverse, inst: Seq<RefView>, stk: Seq<RefView>) -> bool {
    forall|i: int, d: RefView|
        0 <= i < inst.len() && #[trigger] uni.deps_of(inst[i]).contains(d) ==> inst.contains(d)
            || stk.contains(d)
}

/// Unless a ref was admitted by the cycle escape, its dependencies stand
/// earlier in the install set.
pub open spec fn ordered_unless_broken(uni: DepUniverse, inst: Seq<RefView>, cb: Set<RefView>) -> bool {
    forall|i: int, d: RefView|
        0 <= i < inst.len() && !cb.contains(inst[i]) && #[trigger] uni.deps_of(inst[i]).contains(d)
            ==> exists|j: int| 0 <= j < i && inst[j] == d
}

/// `x` is accounted for: it is a manifest root, or a dependency of a ref that
/// is installed or stacked.
pub open spec fn justified(
    uni: DepUniverse,
    roots: Seq<RefView>,
    inst: Seq<RefView>,
    stk: Seq<RefView>,
    x: RefView,
) -> bool {
    roots.contains(x) || exists|q: RefView|
        (inst.contains(q) || stk.contains(q)) && #[trigger] uni.deps_of(q).contains(x)
}

/// Everything installed or stacked is accounted for.
pub open spec fn supported_by(
    uni: DepUniverse,
    roots: Seq<RefView>,
    inst: Seq<RefView>,
    stk: Seq<RefView>,
) -> bool {
    &&& forall|i: int| 0 <= i < inst.len() ==> justified(uni, roots, inst, stk, #[trigger] inst[i])
    &&& forall|i: int| 0 <= i < stk.len() ==> justified(uni, roots, inst, stk, #[trigger] stk[i])
}

/// `x` lies at the end of a dependency path from one of the roots.
pub open spec fn reachable(uni: DepUniverse, roots: Seq<RefView>, x: RefView) -> bool {
    exists|path: Seq<RefView>|
        #![trigger path.len()]
        path.len() > 0 && roots.contains(path[0]) && path[path.len() - 1] == x && (forall|t: int|
            0 <= t < path.len() - 1 ==> uni.deps_of(#[trigger] path[t]).contains(path[t + 1]))
}

/// A root reaches itself.
proof fn lemma_reach_root(uni: DepUniverse, roots: Seq<RefView>, x: RefView)
    requires
        roots.contains(x),
    ensures
        reachable(uni, roots, x),
{
    let path = seq![x];
    assert(path.len() > 0 && roots.contains(path[0]) && path[path.len() - 1] == x && (forall|
        t: int,
    |
        0 <= t < path.len() - 1 ==> uni.deps_of(#[trigger] path[t]).contains(path[t + 1])));
}

/// Reachability extends along a dependency edge.
proof fn lemma_reach_step(uni: DepUniverse, roots: Seq<RefView>, x: RefView, d: RefView)
    requires
        reachable(uni, roots, x),
        uni.deps_of(x).contains(d),
    ensures
        reachable(uni, roots, d),
{
    let path = choose|path: Seq<RefView>|
        #![trigger path.len()]
        path.len() > 0 && roots.contains(path[0]) && path[path.len() - 1] == x && (forall|t: int|
            0 <= t < path.len() - 1 ==> uni.deps_of(#[trigger] path[t]).contains(path[t + 1]));
    let path2 = path.push(d);
    assert(path2[path2.len() - 1] == d);
    assert(path2[0] == path[0]);
    assert forall|t: int| 0 <= t < path2.len() - 1 implies uni.deps_of(
        #[trigger] path2[t],
    ).contains(path2[t + 1]) by {
        if t < path.len() - 1 {
            assert(path2[t] == path[t]);
            assert(path2[t + 1] == path[t + 1]);
        } else {
            assert(path2[t] == x);
            assert(path2[t + 1] == d);
        }
    }
}

/// `b` lies at the end of a dependency path of at least one edge from `a`;
/// `reaches_plus(uni, x, x)` says `x` lies on a dependency cycle.
pub open spec fn reaches_plus(uni: DepUniverse, a: RefView, b: RefView) -> bool {
    exists|path: Seq<RefView>|
        #![trigger path.len()]
        path.len() >= 2 && path[0] == a && path[path.len() - 1] == b && (forall|t: int|
            0 <= t < path.len() - 1 ==> uni.deps_of(#[trigger] path[t]).contains(path[t + 1]))
}

/// A dependency edge is a path of one edge.
proof fn lemma_plus_edge(uni: DepUniverse, a: RefView, b: RefView)
    requires
        uni.deps_of(a).contains(b),
    ensures
        reaches_plus(uni, a, b),
{
    let path = seq![a, b];
    assert(path.len() >= 2 && path[0] == a && path[path.len() - 1] == b && (forall|t: int|
        0 <= t < path.len() - 1 ==> uni.deps_of(#[trigger] path[t]).contains(path[t + 1])));
}

/// A path extends along a further dependency edge.
proof fn lemma_plus_step(uni: DepUniverse, a: RefView, b: RefView, c: RefView)
    requires
        reaches_plus(uni, a, b),
        uni.deps_of(b).contains(c),
    ensures
        reaches_plus(uni, a, c),
{
    let path = choose|path: Seq<RefView>|
        #![trigger path.len()]
        path.len() >= 2 && path[0] == a && path[path.len() - 1] == b && (forall|t: int|
            0 <= t < path.len() - 1 ==> uni.deps_of(#[trigger] path[t]).contains(path[t + 1]));
    let path2 = path.push(c);
    assert(path2[path2.len() - 1] == c);
    assert(path2[0] == path[0]);
    assert forall|t: int| 0 <= t < path2.len() - 1 implies uni.deps_of(
        #[trigger] path2[t],
    ).contains(path2[t + 1]) by {
        if t < path.len() - 1 {
            assert(path2[t] == path[t]);
            assert(path2[t + 1] == path[t + 1]);
        } else {
            assert(path2[t] == b);
            assert(path2[t + 1] == c);
        }
    }
}

/// A deferred-but-unfinished ref dominates the stack above its re-pushed
/// occurrence: everything higher is reachable from it by at least one edge,
/// and each of its dependencies is either installed or still stacked above
/// it.  This is what makes the cycle escape honest: a ref admitted by it is
/// provably on a dependency cycle.
pub open spec fn visited_dominates(uni: DepUniverse, r: Resolver) -> bool {
    forall|v: RefView|
        (#[trigger] r.visited_v().contains(v)) && !r.installed().contains(v) ==> exists|idx: int|
            #![trigger r.stacked()[idx]]
            0 <= idx < r.stacked().len() && r.stacked()[idx] == v && (forall|j: int|
                idx < j < r.stacked().len() ==> reaches_plus(uni, v, #[trigger] r.stacked()[j]))
                && (forall|d: RefView|
                #[trigger] uni.deps_of(v).contains(d) ==> r.installed().contains(d) || exists|
                    j: int,
                |
                    idx < j < r.stacked().len() && r.stacked()[j] == d)
}

/// Every ref the cycle escape admitted has some dependency that is not
/// ordered strictly before it in the install set: the deps-before-node
/// ordering genuinely had to be given up for it.
pub open spec fn broken_not_ordered(uni: DepUniverse, inst: Seq<RefView>, cb: Set<RefView>) -> bool {
    forall|x: RefView| #[trigger] cb.contains(x) ==> exists|i: int, d: RefView|
        #![trigger inst.subrange(0, i), uni.deps_of(x).contains(d)]
        0 <= i < inst.len() && inst[i] == x && uni.deps_of(x).contains(d) && !inst.subrange(
            0,
            i,
        ).contains(d)
}

/// The facts [`resolve`] maintains across every step.
pub open spec fn resolver_invariant(uni: DepUniverse, roots: Seq<RefView>, r: Resolver) -> bool {
    &&& r.installed().no_duplicates()
    &&& r.visited_v().no_duplicates()
    &&& all_in_universe(uni, r.installed())
    &&& all_in_universe(uni, r.stacked())
    &&& all_in_universe(uni, r.visited_v())
    &&& closure_pending(uni, r.installed(), r.stacked())
    &&& ordered_unless_broken(uni, r.installed(), r.cycle_broken@)
    &&& (forall|x: RefView| #[trigger] r.cycle_broken@.contains(x) ==> r.installed().contains(x))
    &&& supported_by(uni, roots, r.installed(), r.stacked())
    &&& (forall|i: int|
        0 <= i < r.installed().len() ==> reachable(uni, roots, #[trigger] r.installed()[i]))
    &&& (forall|i: int|
        0 <= i < r.stacked().len() ==> reachable(uni, roots, #[trigger] r.stacked()[i]))
    &&& broken_not_ordered(uni, r.installed(), r.cycle_broken@)
    &&& visited_dominates(uni, r)
    &&& (forall|x: RefView| #[trigger] r.cycle_broken@.contains(x) ==> reaches_plus(uni, x, x))
}

proof fn lemma_contains_push<A>(s: Seq<A>, x: A, y: A)
    ensures
        s.push(x).contains(y) <==> s.contains(y) || y == x,
{
    if s.push(x).contains(y) {
        let j = choose|j: int| 0 <= j < s.push(x).len() && s.push(x)[j] == y;
        if j < s.len() {
            assert(s[j] == y);
        }
    }
    if s.contains(y) {
        let j = choose|j: int| 0 <= j < s.len() && s[j] == y;
        assert(s.push(x)[j] == y);
    }
    if y == x {
        assert(s.push(x)[s.len() as int] == y);
    }
}

proof fn lemma_contains_concat<A>(a: Seq<A>, b: Seq<A>, y: A)
    ensures
        (a + b).contains(y) <==> a.contains(y) || b.contains(y),
{
    if (a + b).contains(y) {
        let j = choose|j: int| 0 <= j < (a + b).len() && (a + b)[j] == y;
        if j < a.len() {
            assert(a[j] == y);
        } else {
            assert(b[j - a.len()] == y);
        }
    }
    if a.contains(y) {
        let j = choose|j: int| 0 <= j < a.len() && a[j] == y;
        assert((a + b)[j] == y);
    }
    if b.contains(y) {
        let j = choose|j: int| 0 <= j < b.len() && b[j] == y;
        assert((a + b)[j + a.len()] == y);
    }
}

proof fn lemma_refs_view_push(s: Seq<ParcelRef>, x: ParcelRef)
    ensures
        refs_view(s.push(x)) =~= refs_view(s).push(x@),
{
}

proof fn lemma_refs_view_concat(a: Seq<ParcelRef>, b: Seq<ParcelRef>)
    ensures
        refs_view(a + b) =~= refs_view(a) + refs_view(b),
{
}

proof fn lemma_refs_view_drop_last(s: Seq<ParcelRef>)
    requires
        s.len() > 0,
    ensures
        refs_view(s.drop_last()) =~= refs_view(s).drop_last(),
{
}

/// A dependency not yet installed appears among the missing ones.
proof fn lemma_missing_refs_complete(deps: Seq<ParcelRef>, inst: Seq<RefView>)
    ensures
        forall|j: int|
            0 <= j < deps.len() && !inst.contains((#[trigger] deps[j])@) ==> refs_view(
                missing_refs(deps, inst),
            ).contains(deps[j]@),
    decreases deps.len(),
{
    if deps.len() > 0 {
        lemma_missing_refs_complete(deps.drop_last(), inst);
        let m = missing_refs(deps, inst);
        let rest = missing_refs(deps.drop_last(), inst);
        assert forall|j: int|
            0 <= j < deps.len() && !inst.contains((#[trigger] deps[j])@) implies refs_view(
            m,
        ).contains(deps[j]@) by {
            if j < deps.len() - 1 {
                assert(deps.drop_last()[j] == deps[j]);
                let k = choose|k: int|
                    0 <= k < rest.len() && refs_view(rest)[k] == deps[j]@;
                assert(m[k] == rest[k]);
                assert(refs_view(m)[k] == deps[j]@);
            } else {
                assert(deps.last() == deps[j]);
                assert(m[m.len() - 1] == deps.last());
                assert(refs_view(m)[m.len() - 1] == deps[j]@);
            }
        }
    }
}

/// A duplicate-free sequence drawn from the universe's keys is no longer than
/// the key list.
proof fn lemma_installed_bounded(uni: DepUniverse, s: Seq<RefView>)
    requires
        s.no_duplicates(),
        all_in_universe(uni, s),
    ensures
        s.len() <= uni.entries@.len(),
{
    broadcast use vstd::seq_lib::seq_to_set_is_finite;

    assert forall|i: int| 0 <= i < s.len() implies uni.keys().contains(#[trigger] s[i]) by {
        lemma_contains_key_keys(uni, s[i]);
    }
    s.unique_seq_to_set();
    uni.keys().lemma_cardinality_of_set();
    assert(s.to_set().subset_of(uni.keys().to_set()));
    vstd::set_lib::lemma_len_subset(s.to_set(), uni.keys().to_set());
}

/// Expands a manifest into the install set, over a closed finite universe.
///
/// The resolution loop carries a decreasing measure — install set growth,
/// then visited growth, then stack shrinkage, each bounded by the universe —
/// so resolution terminates for every finite universe, dependency cycles
/// included.
///
/// Returns the insertion-ordered install set together with the (ghost) set of
/// refs that were admitted by the cycle escape.  The contract states: the set
/// is duplicate-free; it holds every manifest entry; it is closed under
/// dependencies; every ref not admitted by the cycle escape has all its
/// dependencies ordered strictly before it; every member is a manifest entry
/// or a dependency of a member; and an empty manifest yields an empty set.
pub fn resolve(manifest: &Vec<ParcelRef>, universe: &DepUniverse) -> (res: (
    Vec<ParcelRef>,
    Ghost<Set<RefView>>,
))
    requires
        universe.wf(),
        forall|i: int|
            0 <= i < manifest@.len() ==> universe.contains_key((#[trigger] manifest@[i])@),
    ensures
        ({
            let inst = refs_view(res.0@);
            let cb = res.1@;
            let roots = refs_view(manifest@);
            &&& inst.no_duplicates()
            &&& forall|i: int| 0 <= i < manifest@.len() ==> inst.contains((#[trigger] manifest@[i])@)
            &&& forall|i: int, d: RefView|
                0 <= i < inst.len() && #[trigger] universe.deps_of(inst[i]).contains(d)
                    ==> inst.contains(d)
            &&& ordered_unless_broken(*universe, inst, cb)
            &&& forall|i: int|
                0 <= i < inst.len() ==> roots.contains(#[trigger] inst[i]) || exists|q: RefView|
                    inst.contains(q) && #[trigger] universe.deps_of(q).contains(inst[i])
            &&& manifest@.len() == 0 ==> inst.len() == 0
            &&& forall|x: RefView| #[trigger] cb.contains(x) ==> inst.contains(x)
            &&& all_in_universe(*universe, inst)
            &&& forall|i: int| 0 <= i < inst.len() ==> reachable(*universe, roots, #[trigger] inst[i])
            &&& broken_not_ordered(*universe, inst, cb)
            &&& forall|x: RefView| #[trigger] cb.contains(x) ==> reaches_plus(*universe, x, x)
        }),
{
    let ghost roots = refs_view(manifest@);
    let mut r = Resolver::new();
    let mut k: usize = 0;
    while k < manifest.len()
        invariant
            universe.wf(),
            forall|i: int|
                0 <= i < manifest@.len() ==> universe.contains_key((#[trigger] manifest@[i])@),
            roots == refs_view(manifest@),
            0 <= k <= manifest@.len(),
            r.stack@.len() == 0,
            resolver_invariant(*universe, roots, r),
            forall|j: int| 0 <= j < k ==> r.installed().contains((#[trigger] manifest@[j])@),
            k == 0 ==> r.installed().len() == 0,
        decreases manifest@.len() - k,
    {
        let root = manifest[k].duplicate();
        let ghost before = r;
        r.push_root(root);
        proof {
            lemma_refs_view_push(before.stack@, root);
            assert(roots[k as int] == root@);
            assert(justified(*universe, roots, r.installed(), r.stacked(), root@));
            assert forall|i: int|
                0 <= i < r.stacked().len() implies justified(
                *universe,
                roots,
                r.installed(),
                r.stacked(),
                #[trigger] r.stacked()[i],
            ) by {
                if i < before.stacked().len() {
                    assert(r.stacked()[i] == before.stacked()[i]);
                    lemma_justified_grow(*universe, roots, before, r, before.stacked()[i]);
                } else {
                    assert(r.stacked()[i] == root@);
                }
            }
            assert forall|i: int|
                0 <= i < r.installed().len() implies justified(
                *universe,
                roots,
                r.installed(),
                r.stacked(),
                #[trigger] r.installed()[i],
            ) by {
                lemma_justified_grow(*universe, roots, before, r, r.installed()[i]);
            }
            assert forall|i: int, d: RefView|
                0 <= i < r.installed().len() && #[trigger] universe.deps_of(
                    r.installed()[i],
                ).contains(d) implies r.installed().contains(d) || r.stacked().contains(d) by {
                lemma_contains_push(before.stacked(), root@, d);
            }
            assert(r.stacked()[before.stack@.len() as int] == root@);
            assert(r.stacked().contains(manifest@[k as int]@));
            lemma_reach_root(*universe, roots, root@);
            assert forall|i: int| 0 <= i < r.stacked().len() implies reachable(
                *universe,
                roots,
                #[trigger] r.stacked()[i],
            ) by {
                if i < before.stacked().len() {
                    assert(r.stacked()[i] == before.stacked()[i]);
                } else {
                    assert(r.stacked()[i] == root@);
                }
            }
            lemma_installed_bounded(*universe, r.installed());
            lemma_installed_bounded(*universe, r.visited_v());
        }
        while r.stack.len() > 0
            invariant
                universe.wf(),
                roots == refs_view(manifest@),
                0 <= k < manifest@.len(),
                resolver_invariant(*universe, roots, r),
                forall|j: int| 0 <= j < k ==> r.installed().contains((#[trigger] manifest@[j])@),
                r.installed().contains(manifest@[k as int]@) || r.stacked().contains(
                    manifest@[k as int]@,
                ),
                r.installed().len() <= universe.entries@.len(),
                r.visited_v().len() <= universe.entries@.len(),
            decreases
                    universe.entries@.len() - r.installed().len(),
                    universe.entries@.len() - r.visited_v().len(),
                    r.stack@.len(),
        {
            let n = r.stack.len();
            let p = r.stack[n - 1].duplicate();
            proof {
                assert(r.stacked()[n - 1] == p@);
            }
            let deps = universe.lookup_deps(&p).unwrap();
            let ghost prev = r;
            r.step(deps);
            proof {
                lemma_resolver_step_preserves(*universe, roots, prev, r, deps@, manifest@, k as int);
                lemma_installed_bounded(*universe, r.installed());
                lemma_installed_bounded(*universe, r.visited_v());
            }
        }
        proof {
            assert forall|j: int| 0 <= j < k + 1 implies r.installed().contains(
                (#[trigger] manifest@[j])@,
            ) by {}
        }
        k = k + 1;
    }
    proof {
        let inst = r.installed();
        assert forall|i: int, d: RefView|
            0 <= i < inst.len() && #[trigger] universe.deps_of(inst[i]).contains(d) implies inst
            .contains(d) by {
            assert(closure_pending(*universe, inst, r.stacked()));
        }
        assert forall|i: int|
            0 <= i < inst.len() implies roots.contains(#[trigger] inst[i]) || exists|q: RefView|
            inst.contains(q) && #[trigger] universe.deps_of(q).contains(inst[i]) by {
            assert(justified(*universe, roots, inst, r.stacked(), inst[i]));
            if !roots.contains(inst[i]) {
                let q = choose|q: RefView|
                    (inst.contains(q) || r.stacked().contains(q)) && #[trigger] universe.deps_of(
                        q,
                    ).contains(inst[i]);
                assert(inst.contains(q));
            }
        }
    }
    let cb = Ghost(r.cycle_broken@);
    (r.to_install, cb)
}

/// Law: the install set is closed along dependency paths.  If an install set
/// is dependency-closed (as [`resolve`] ensures) and holds the first ref of a
/// dependency path, it holds every ref on the path.  In particular, when a
/// dependency cycle is reachable from the manifest, every participant of the
/// cycle is in the install set.
pub proof fn lemma_installed_closed_along_path(
    uni: DepUniverse,
    inst: Seq<RefView>,
    path: Seq<RefView>,
)
    requires
        forall|i: int, d: RefView|
            0 <= i < inst.len() && #[trigger] uni.deps_of(inst[i]).contains(d) ==> inst.contains(d),
        path.len() > 0,
        inst.contains(path[0]),
        forall|t: int| 0 <= t < path.len() - 1 ==> uni.deps_of(#[trigger] path[t]).contains(path[t + 1]),
    ensures
        forall|t: int| 0 <= t < path.len() ==> inst.contains(#[trigger] path[t]),
    decreases path.len(),
{
    if path.len() > 1 {
        let i = choose|i: int| 0 <= i < inst.len() && inst[i] == path[0];
        assert(uni.deps_of(inst[i]).contains(path[1]));
        let rest = path.subrange(1, path.len() as int);
        assert forall|t: int| 0 <= t < rest.len() - 1 implies uni.deps_of(
            #[trigger] rest[t],
        ).contains(rest[t + 1]) by {
            assert(rest[t] == path[t + 1]);
            assert(rest[t + 1] == path[t + 2]);
        }
        lemma_installed_closed_along_path(uni, inst, rest);
        assert forall|t: int| 0 <= t < path.len() implies inst.contains(#[trigger] path[t]) by {
            if t > 0 {
                assert(rest[t - 1] == path[t]);
                assert(inst.contains(rest[t - 1]));
            }
        }
    }
}

impl DepUniverse {
    /// Runtime check of [`DepUniverse::wf`]: every key appears once and every
    /// dependency has an entry.  Callers outside the proof boundary use this
    /// before [`resolve`].
    pub fn check_wf(&self) -> (b: bool)
        ensures
            b == self.wf(),
    {
        let n = self.entries.len();
        let mut i: usize = 0;
        while i < n
            invariant
                0 <= i <= n,
                n == self.entries@.len(),
                forall|a: int, b: int|
                    0 <= a < b < self.entries@.len() && b < i ==> (#[trigger] self.entries@[a]).0@
                        != (#[trigger] self.entries@[b]).0@,
                forall|a: int, d: int|
                    0 <= a < i && 0 <= d < self.entries@[a].1@.len() ==> self.contains_key(
                        #[trigger] self.entries@[a].1@[d]@,
                    ),
            decreases n - i,
        {
            let mut j: usize = 0;
            while j < i
                invariant
                    0 <= j <= i < n,
                    n == self.entries@.len(),
                    forall|a: int|
                        0 <= a < j ==> (#[trigger] self.entries@[a]).0@ != self.entries@[
                            i as int
                        ].0@,
                decreases i - j,
            {
                if ref_eq(&self.entries[j].0, &self.entries[i].0) {
                    return false;
                }
                j = j + 1;
            }
            let deps = &self.entries[i].1;
            let mut d: usize = 0;
            while d < deps.len()
                invariant
                    0 <= d <= deps@.len(),
                    deps@ == self.entries@[i as int].1@,
                    i < n,
                    n == self.entries@.len(),
                    forall|e: int|
                        0 <= e < d ==> self.contains_key(
                            #[trigger] self.entries@[i as int].1@[e]@,
                        ),
                decreases deps@.len() - d,
            {
                if self.lookup_deps(&deps[d]).is_none() {
                    return false;
                }
                d = d + 1;
            }
            i = i + 1;
        }
        proof {
            if !self.wf() {
                assert(false);
            }
        }
        true
    }

    /// Runtime check that every ref of `refs` has an entry here.
    pub fn holds_all(&self, refs: &Vec<ParcelRef>) -> (b: bool)
        ensures
            b == (forall|i: int|
                0 <= i < refs@.len() ==> self.contains_key((#[trigger] refs@[i])@)),
    {
        let mut i: usize = 0;
        while i < refs.len()
            invariant
                0 <= i <= refs@.len(),
                forall|j: int| 0 <= j < i ==> self.contains_key((#[trigger] refs@[j])@),
            decreases refs@.len() - i,
        {
            if self.lookup_deps(&refs[i]).is_none() {
                return false;
            }
            i = i + 1;
        }
        true
    }
}

/// Law: for every ref of the install set, all its dependencies appear
/// strictly earlier, or the ref lies on a dependency cycle that is entirely
/// present in the set.  The hypotheses are exactly what [`resolve`] ensures
/// of its result and its cycle-escape record.
pub proof fn lemma_install_order_or_cycle(
    uni: DepUniverse,
    inst: Seq<RefView>,
    cb: Set<RefView>,
    i: int,
)
    requires
        forall|i2: int, d: RefView|
            0 <= i2 < inst.len() && #[trigger] uni.deps_of(inst[i2]).contains(d) ==> inst.contains(
                d,
            ),
        ordered_unless_broken(uni, inst, cb),
        forall|x: RefView| #[trigger] cb.contains(x) ==> reaches_plus(uni, x, x),
        0 <= i < inst.len(),
    ensures
        (forall|d: RefView|
            #[trigger] uni.deps_of(inst[i]).contains(d) ==> exists|j: int|
                0 <= j < i && inst[j] == d) || (exists|path: Seq<RefView>|
            #![trigger path.len()]
            path.len() >= 2 && path[0] == inst[i] && path[path.len() - 1] == inst[i] && (forall|
                t: int,
            |
                0 <= t < path.len() - 1 ==> uni.deps_of(#[trigger] path[t]).contains(path[t + 1]))
                && (forall|t: int| 0 <= t < path.len() ==> inst.contains(#[trigger] path[t]))),
{
    if !cb.contains(inst[i]) {
        assert(forall|d: RefView|
            #[trigger] uni.deps_of(inst[i]).contains(d) ==> exists|j: int|
                0 <= j < i && inst[j] == d);
    } else {
        assert(reaches_plus(uni, inst[i], inst[i]));
        let path = choose|path: Seq<RefView>|
            #![trigger path.len()]
            path.len() >= 2 && path[0] == inst[i] && path[path.len() - 1] == inst[i] && (forall|
                t: int,
            |
                0 <= t < path.len() - 1 ==> uni.deps_of(#[trigger] path[t]).contains(path[t + 1]));
        assert(inst.contains(path[0])) by {
            assert(inst[i] == path[0]);
        }
        lemma_installed_closed_along_path(uni, inst, path);
        assert(path.len() >= 2 && path[0] == inst[i] && path[path.len() - 1] == inst[i] && (forall|
            t: int,
        |
            0 <= t < path.len() - 1 ==> uni.deps_of(#[trigger] path[t]).contains(path[t + 1]))
            && (forall|t: int| 0 <= t < path.len() ==> inst.contains(#[trigger] path[t])));
    }
}

/// Law: on a universe without dependency cycles the escape never fires, so
/// every ref's dependencies stand strictly before it.
pub proof fn lemma_acyclic_escape_empty(uni: DepUniverse, cb: Set<RefView>)
    requires
        forall|x: RefView| #[trigger] cb.contains(x) ==> reaches_plus(uni, x, x),
        forall|x: RefView| #![trigger reaches_plus(uni, x, x)] !reaches_plus(uni, x, x),
    ensures
        cb =~= Set::<RefView>::empty(),
{
}

/// A justification survives any growth of the installed-or-stacked pool.
proof fn lemma_justified_grow(
    uni: DepUniverse,
    roots: Seq<RefView>,
    prev: Resolver,
    next: Resolver,
    x: RefView,
)
    requires
        justified(uni, roots, prev.installed(), prev.stacked(), x),
        forall|q: RefView|
            prev.installed().contains(q) || prev.stacked().contains(q) ==> next.installed()
                .contains(q) || next.stacked().contains(q),
    ensures
        justified(uni, roots, next.installed(), next.stacked(), x),
{
    if !roots.contains(x) {
        let q = choose|q: RefView|
            (prev.installed().contains(q) || prev.stacked().contains(q))
                && #[trigger] uni.deps_of(q).contains(x);
        assert(next.installed().contains(q) || next.stacked().contains(q));
    }
}

/// One [`Resolver::step`] against the universe's own dependency answer
/// preserves the resolver invariant, keeps every previously-present ref
/// present, and makes the termination measure smaller.
proof fn lemma_resolver_step_preserves(
    uni: DepUniverse,
    roots: Seq<RefView>,
    prev: Resolver,
    next: Resolver,
    deps: Seq<ParcelRef>,
    manifest: Seq<ParcelRef>,
    k: int,
)
    requires
        uni.wf(),
        prev.stack@.len() > 0,
        resolver_invariant(uni, roots, prev),
        uni.contains_key(prev.stack@.last()@),
        refs_view(deps) == uni.deps_of(prev.stack@.last()@),
        0 <= k < manifest.len(),
        forall|j: int| 0 <= j < k ==> prev.installed().contains((#[trigger] manifest[j])@),
        prev.installed().contains(manifest[k]@) || prev.stacked().contains(manifest[k]@),
        ({
            let p = prev.stack@.last();
            let inst0 = prev.installed();
            let stack0 = prev.stack@.drop_last();
            let m = missing_refs(deps, inst0);
            if inst0.contains(p@) {
                &&& next.to_install@ == prev.to_install@
                &&& next.stack@ == stack0
                &&& next.visited@ == prev.visited@
                &&& next.cycle_broken@ == prev.cycle_broken@
            } else if m.len() == 0 {
                &&& next.to_install@ == prev.to_install@.push(p)
                &&& next.stack@ == stack0
                &&& next.visited@ == prev.visited@
                &&& next.cycle_broken@ == prev.cycle_broken@
            } else if prev.visited_v().contains(p@) {
                &&& next.to_install@ == prev.to_install@.push(p)
                &&& next.stack@ == stack0 + m
                &&& next.visited@ == prev.visited@
                &&& next.cycle_broken@ == prev.cycle_broken@.insert(p@)
            } else {
                &&& next.to_install@ == prev.to_install@
                &&& next.stack@ == stack0.push(p) + m
                &&& next.visited@ == prev.visited@.push(p)
                &&& next.cycle_broken@ == prev.cycle_broken@
            }
        }),
    ensures
        resolver_invariant(uni, roots, next),
        forall|j: int| 0 <= j < k ==> next.installed().contains((#[trigger] manifest[j])@),
        next.installed().contains(manifest[k]@) || next.stacked().contains(manifest[k]@),
        next.installed() == prev.installed() || next.installed() == prev.installed().push(
            prev.stack@.last()@,
        ),
        ({
            ||| (next.installed() == prev.installed() && next.visited_v() == prev.visited_v()
                && next.stack@.len() < prev.stack@.len())
            ||| next.installed().len() == prev.installed().len() + 1
            ||| (next.installed() == prev.installed() && next.visited_v().len()
                == prev.visited_v().len() + 1)
        }),
{
    let p = prev.stack@.last();
    let pv = p@;
    let inst0 = prev.installed();
    let stk0 = prev.stacked();
    let stack0 = prev.stack@.drop_last();
    let stack0v = refs_view(stack0);
    let m = missing_refs(deps, inst0);
    let mv = refs_view(m);
    lemma_refs_view_drop_last(prev.stack@);
    assert(stk0 == stack0v.push(pv)) by {
        assert(stk0[stk0.len() - 1] == pv);
        assert(stk0 =~= stack0v.push(pv));
    }
    lemma_missing_refs_members(deps, inst0);
    lemma_missing_refs_empty(deps, inst0);
    lemma_missing_refs_complete(deps, inst0);
    // Everything previously present stays present.
    assert forall|q: RefView|
        prev.installed().contains(q) || prev.stacked().contains(q) implies next.installed()
        .contains(q) || next.stacked().contains(q) by {
        lemma_step_shapes(uni, prev, next, deps);
        lemma_contains_push(stack0v, pv, q);
        if inst0.contains(pv) {
            // skip: q in stack0v or q == pv, and pv is installed
        } else if m.len() == 0 {
            lemma_contains_push(inst0, pv, q);
        } else if prev.visited_v().contains(pv) {
            lemma_contains_push(inst0, pv, q);
            lemma_contains_concat(stack0v, mv, q);
        } else {
            lemma_contains_concat(refs_view(stack0.push(p)), mv, q);
            lemma_refs_view_push(stack0, p);
            lemma_contains_push(stack0v, pv, q);
        }
    }
    lemma_step_shapes(uni, prev, next, deps);
    // Install-set well-formedness.
    if !inst0.contains(pv) && (m.len() == 0 || prev.visited_v().contains(pv)) {
        lemma_refs_view_push(prev.to_install@, p);
        assert(next.installed() == inst0.push(pv));
        assert forall|i: int, j: int|
            0 <= i < j < next.installed().len() implies next.installed()[i] != next.installed()[j]
            by {
            if j == inst0.len() {
                if next.installed()[i] == pv {
                    assert(inst0[i] == pv);
                    assert(inst0.contains(pv));
                }
            }
        }
    }
    // Visited well-formedness.
    if !inst0.contains(pv) && m.len() > 0 && !prev.visited_v().contains(pv) {
        lemma_refs_view_push(prev.visited@, p);
        assert(next.visited_v() == prev.visited_v().push(pv));
        assert forall|i: int, j: int|
            0 <= i < j < next.visited_v().len() implies next.visited_v()[i] != next.visited_v()[j]
            by {
            if j == prev.visited_v().len() {
                if next.visited_v()[i] == pv {
                    assert(prev.visited_v()[i] == pv);
                    assert(prev.visited_v().contains(pv));
                }
            }
        }
    }
    // Universe membership of the three sequences.
    assert forall|i: int| 0 <= i < next.installed().len() implies uni.contains_key(
        #[trigger] next.installed()[i],
    ) by {
        if i < inst0.len() {
            assert(next.installed()[i] == inst0[i]);
        } else {
            assert(next.installed()[i] == pv);
        }
    }
    assert forall|i: int| 0 <= i < next.stacked().len() implies uni.contains_key(
        #[trigger] next.stacked()[i],
    ) by {
        lemma_stacked_member_sources(uni, prev, next, deps, i);
    }
    assert forall|i: int| 0 <= i < next.visited_v().len() implies uni.contains_key(
        #[trigger] next.visited_v()[i],
    ) by {
        if i < prev.visited_v().len() {
            assert(next.visited_v()[i] == prev.visited_v()[i]);
        } else {
            assert(next.visited_v()[i] == pv);
        }
    }
    // Closure of installed refs through installed-or-stacked dependencies.
    assert forall|i: int, d: RefView|
        0 <= i < next.installed().len() && #[trigger] uni.deps_of(next.installed()[i]).contains(d)
        implies next.installed().contains(d) || next.stacked().contains(d) by {
        lemma_closure_after_step(uni, prev, next, deps, i, d);
    }
    // Ordering of refs not admitted by the cycle escape.
    assert forall|i: int, d: RefView|
        0 <= i < next.installed().len() && !next.cycle_broken@.contains(next.installed()[i])
            && #[trigger] uni.deps_of(next.installed()[i]).contains(d) implies exists|j: int|
        0 <= j < i && next.installed()[j] == d by {
        lemma_order_after_step(uni, prev, next, deps, i, d);
    }
    // The cycle-escape record stays inside the install set.
    assert forall|x: RefView| #[trigger] next.cycle_broken@.contains(x) implies next.installed()
        .contains(x) by {
        if prev.cycle_broken@.contains(x) {
            assert(inst0.contains(x));
            let j = choose|j: int| 0 <= j < inst0.len() && inst0[j] == x;
            assert(next.installed()[j] == x);
        } else {
            assert(x == pv);
            assert(next.installed()[inst0.len() as int] == pv);
        }
    }
    // Support of every present ref.
    assert forall|i: int| 0 <= i < next.installed().len() implies justified(
        uni,
        roots,
        next.installed(),
        next.stacked(),
        #[trigger] next.installed()[i],
    ) by {
        if i < inst0.len() {
            assert(next.installed()[i] == inst0[i]);
            lemma_justified_grow(uni, roots, prev, next, inst0[i]);
        } else {
            assert(next.installed()[i] == pv);
            assert(prev.stacked()[prev.stacked().len() - 1] == pv);
            assert(justified(uni, roots, prev.installed(), prev.stacked(), pv));
            lemma_justified_grow(uni, roots, prev, next, pv);
        }
    }
    assert forall|i: int| 0 <= i < next.stacked().len() implies justified(
        uni,
        roots,
        next.installed(),
        next.stacked(),
        #[trigger] next.stacked()[i],
    ) by {
        lemma_stacked_member_sources(uni, prev, next, deps, i);
        let x = next.stacked()[i];
        if stack0v.contains(x) || x == pv {
            if x == pv {
                assert(prev.stacked()[prev.stacked().len() - 1] == pv);
                assert(justified(uni, roots, prev.installed(), prev.stacked(), x));
            } else {
                let j = choose|j: int| 0 <= j < stack0v.len() && stack0v[j] == x;
                assert(prev.stacked()[j] == x);
                assert(justified(uni, roots, prev.installed(), prev.stacked(), x));
            }
            lemma_justified_grow(uni, roots, prev, next, x);
        } else {
            // x came from the missing list: it is a dependency of p, which is
            // now installed or stacked.
            assert(uni.deps_of(pv).contains(x));
            if !inst0.contains(pv) && m.len() > 0 && prev.visited_v().contains(pv) {
                assert(next.installed()[inst0.len() as int] == pv);
                assert(next.installed().contains(pv));
            } else {
                assert(!inst0.contains(pv) && m.len() > 0);
                assert(next.stacked()[stack0v.len() as int] == pv);
                assert(next.stacked().contains(pv));
            }
        }
    }
    // Reachability of everything installed or stacked.
    assert forall|i: int| 0 <= i < next.installed().len() implies reachable(
        uni,
        roots,
        #[trigger] next.installed()[i],
    ) by {
        if i < inst0.len() {
            assert(next.installed()[i] == inst0[i]);
        } else {
            assert(next.installed()[i] == pv);
            assert(prev.stacked()[prev.stacked().len() - 1] == pv);
        }
    }
    assert forall|i: int| 0 <= i < next.stacked().len() implies reachable(
        uni,
        roots,
        #[trigger] next.stacked()[i],
    ) by {
        lemma_stacked_member_sources(uni, prev, next, deps, i);
        let x = next.stacked()[i];
        if stack0v.contains(x) {
            let j = choose|j: int| 0 <= j < stack0v.len() && stack0v[j] == x;
            assert(prev.stacked()[j] == x);
        } else if x == pv {
            assert(prev.stacked()[prev.stacked().len() - 1] == pv);
        } else {
            assert(prev.stacked()[prev.stacked().len() - 1] == pv);
            assert(reachable(uni, roots, pv));
            lemma_reach_step(uni, roots, pv, x);
        }
    }
    // The cycle-escape record keeps its unordered-dependency witnesses.
    assert forall|x: RefView| #[trigger] next.cycle_broken@.contains(x) implies exists|
        i: int,
        d: RefView,
    |
        #![trigger next.installed().subrange(0, i), uni.deps_of(x).contains(d)]
        0 <= i < next.installed().len() && next.installed()[i] == x && uni.deps_of(x).contains(d)
            && !next.installed().subrange(0, i).contains(d) by {
        if prev.cycle_broken@.contains(x) {
            let (i0, d0) = choose|i0: int, d0: RefView|
                #![trigger inst0.subrange(0, i0), uni.deps_of(x).contains(d0)]
                0 <= i0 < inst0.len() && inst0[i0] == x && uni.deps_of(x).contains(d0)
                    && !inst0.subrange(0, i0).contains(d0);
            assert(next.installed()[i0] == x);
            assert(next.installed().subrange(0, i0) =~= inst0.subrange(0, i0));
            assert(0 <= i0 < next.installed().len() && next.installed()[i0] == x && uni.deps_of(
                x,
            ).contains(d0) && !next.installed().subrange(0, i0).contains(d0));
        } else {
            // x is the ref the escape just admitted
            assert(x == pv);
            assert(!inst0.contains(pv) && m.len() > 0 && prev.visited_v().contains(pv));
            let d0 = m[0]@;
            assert(refs_view(m)[0] == d0);
            assert(refs_view(deps).contains(d0) && !inst0.contains(d0));
            let i0 = inst0.len() as int;
            assert(next.installed()[i0] == pv);
            assert(next.installed().subrange(0, i0) =~= inst0);
            assert(0 <= i0 < next.installed().len() && next.installed()[i0] == x && uni.deps_of(
                x,
            ).contains(d0) && !next.installed().subrange(0, i0).contains(d0));
        }
    }
    // Domination by deferred-but-unfinished refs, and a cycle for the ref
    // the escape admits.
    let stkP = prev.stacked();
    let stkN = next.stacked();
    assert(stkP[stkP.len() - 1] == pv);
    if !inst0.contains(pv) && m.len() > 0 && prev.visited_v().contains(pv) {
        // the escape fires: the popped ref lies on a dependency cycle
        let idx0 = choose|idx: int|
            #![trigger stkP[idx]]
            0 <= idx < stkP.len() && stkP[idx] == pv && (forall|j: int|
                idx < j < stkP.len() ==> reaches_plus(uni, pv, #[trigger] stkP[j])) && (forall|
                d: RefView,
            |
                #[trigger] uni.deps_of(pv).contains(d) ==> prev.installed().contains(d) || exists|
                    j: int,
                |
                    idx < j < stkP.len() && stkP[j] == d);
        if idx0 == stkP.len() - 1 {
            assert forall|i: int| 0 <= i < deps.len() implies inst0.contains(
                (#[trigger] deps[i])@,
            ) by {
                assert(refs_view(deps)[i] == deps[i]@);
                assert(uni.deps_of(pv).contains(deps[i]@));
                if !inst0.contains(deps[i]@) {
                    let j2 = choose|j2: int| idx0 < j2 < stkP.len() && stkP[j2] == deps[i]@;
                    assert(false);
                }
            }
            lemma_missing_refs_empty(deps, inst0);
            assert(false);
        }
        assert(reaches_plus(uni, pv, stkP[stkP.len() - 1]));
        assert(reaches_plus(uni, pv, pv));
    }
    assert forall|x: RefView| #[trigger] next.cycle_broken@.contains(x) implies reaches_plus(
        uni,
        x,
        x,
    ) by {
        if !prev.cycle_broken@.contains(x) {
            assert(x == pv);
        }
    }
    assert forall|v: RefView|
        (#[trigger] next.visited_v().contains(v)) && !next.installed().contains(v) implies exists|
        idx: int,
    |
        #![trigger stkN[idx]]
        0 <= idx < stkN.len() && stkN[idx] == v && (forall|j: int|
            idx < j < stkN.len() ==> reaches_plus(uni, v, #[trigger] stkN[j])) && (forall|
            d: RefView,
        |
            #[trigger] uni.deps_of(v).contains(d) ==> next.installed().contains(d) || exists|
                j: int,
            |
                idx < j < stkN.len() && stkN[j] == d) by {
        lemma_contains_push(inst0, pv, v);
        if !inst0.contains(pv) && m.len() > 0 && !prev.visited_v().contains(pv) && v == pv {
            // the ref just deferred dominates from its re-pushed occurrence
            let idx = stack0v.len() as int;
            assert(stkN == stack0v.push(pv) + mv);
            assert(stkN[idx] == pv);
            assert forall|j: int| idx < j < stkN.len() implies reaches_plus(
                uni,
                v,
                #[trigger] stkN[j],
            ) by {
                assert(stkN[j] == mv[j - idx - 1]);
                assert(mv[j - idx - 1] == m[j - idx - 1]@);
                assert(refs_view(deps).contains(m[j - idx - 1]@));
                assert(uni.deps_of(pv).contains(stkN[j]));
                lemma_plus_edge(uni, pv, stkN[j]);
            }
            assert forall|d: RefView|
                #[trigger] uni.deps_of(v).contains(d) implies next.installed().contains(d)
                || exists|j: int| idx < j < stkN.len() && stkN[j] == d by {
                if !inst0.contains(d) {
                    let i_d = choose|i_d: int|
                        0 <= i_d < refs_view(deps).len() && refs_view(deps)[i_d] == d;
                    assert(deps[i_d]@ == d);
                    assert(refs_view(m).contains(d));
                    let e = choose|e: int| 0 <= e < mv.len() && mv[e] == d;
                    assert(stkN[idx + 1 + e] == d);
                }
            }
            assert(0 <= idx < stkN.len() && stkN[idx] == v && (forall|j: int|
                idx < j < stkN.len() ==> reaches_plus(uni, v, #[trigger] stkN[j])) && (forall|
                d: RefView,
            |
                #[trigger] uni.deps_of(v).contains(d) ==> next.installed().contains(d) || exists|
                    j: int,
                |
                    idx < j < stkN.len() && stkN[j] == d));
        } else {
            // an already-deferred ref keeps its dominating occurrence
            lemma_contains_push(prev.visited_v(), pv, v);
            assert(prev.visited_v().contains(v) && !inst0.contains(v));
            let idx0 = choose|idx: int|
                #![trigger stkP[idx]]
                0 <= idx < stkP.len() && stkP[idx] == v && (forall|j: int|
                    idx < j < stkP.len() ==> reaches_plus(uni, v, #[trigger] stkP[j])) && (forall|
                    d: RefView,
                |
                    #[trigger] uni.deps_of(v).contains(d) ==> prev.installed().contains(d)
                        || exists|j: int| idx < j < stkP.len() && stkP[j] == d);
            assert(v != pv);
            assert(idx0 < stkP.len() - 1);
            assert(stack0v[idx0] == v);
            assert(stkN[idx0] == v);
            assert forall|j: int| idx0 < j < stkN.len() implies reaches_plus(
                uni,
                v,
                #[trigger] stkN[j],
            ) by {
                if j < stack0v.len() {
                    assert(stkN[j] == stack0v[j]);
                    assert(stkP[j] == stack0v[j]);
                } else {
                    // an element pushed by this step: the popped ref, or one
                    // of its missing dependencies
                    assert(reaches_plus(uni, v, pv));
                    if !inst0.contains(pv) && m.len() > 0 && prev.visited_v().contains(pv) {
                        assert(stkN[j] == mv[j - stack0v.len()]);
                        assert(mv[j - stack0v.len()] == m[j - stack0v.len()]@);
                        assert(refs_view(deps).contains(stkN[j]));
                        assert(uni.deps_of(pv).contains(stkN[j]));
                        lemma_plus_step(uni, v, pv, stkN[j]);
                    } else {
                        assert(!inst0.contains(pv) && m.len() > 0 && !prev.visited_v().contains(
                            pv,
                        ));
                        if j == stack0v.len() {
                            assert(stkN[j] == pv);
                        } else {
                            assert(stkN[j] == mv[j - stack0v.len() - 1]);
                            assert(mv[j - stack0v.len() - 1] == m[j - stack0v.len() - 1]@);
                            assert(refs_view(deps).contains(stkN[j]));
                            assert(uni.deps_of(pv).contains(stkN[j]));
                            lemma_plus_step(uni, v, pv, stkN[j]);
                        }
                    }
                }
            }
            assert forall|d: RefView|
                #[trigger] uni.deps_of(v).contains(d) implies next.installed().contains(d)
                || exists|j: int| idx0 < j < stkN.len() && stkN[j] == d by {
                lemma_contains_push(inst0, pv, d);
                if !prev.installed().contains(d) {
                    let j2 = choose|j2: int| idx0 < j2 < stkP.len() && stkP[j2] == d;
                    if j2 < stack0v.len() {
                        assert(stkN[j2] == stack0v[j2]);
                        assert(stkP[j2] == stack0v[j2]);
                    } else {
                        // the witness was the popped ref itself
                        assert(d == pv);
                        if inst0.contains(pv) {
                            let iw = choose|iw: int| 0 <= iw < inst0.len() && inst0[iw] == pv;
                            assert(next.installed()[iw] == pv);
                        } else if m.len() == 0 || prev.visited_v().contains(pv) {
                            assert(next.installed()[inst0.len() as int] == pv);
                        } else {
                            assert(stkN[stack0v.len() as int] == pv);
                        }
                    }
                }
            }
            assert(0 <= idx0 < stkN.len() && stkN[idx0] == v && (forall|j: int|
                idx0 < j < stkN.len() ==> reaches_plus(uni, v, #[trigger] stkN[j])) && (forall|
                d: RefView,
            |
                #[trigger] uni.deps_of(v).contains(d) ==> next.installed().contains(d) || exists|
                    j: int,
                |
                    idx0 < j < stkN.len() && stkN[j] == d));
        }
    }
    // Presence of the processed manifest prefix.
    assert forall|j: int| 0 <= j < k implies next.installed().contains((#[trigger] manifest[j])@)
        by {
        let i = choose|i: int| 0 <= i < inst0.len() && inst0[i] == manifest[j]@;
        assert(next.installed()[i] == manifest[j]@);
    }
}

/// Shape facts about the post-step state, shared by the preservation proofs:
/// the new install set, stack and visited list as views.
proof fn lemma_step_shapes(uni: DepUniverse, prev: Resolver, next: Resolver, deps: Seq<ParcelRef>)
    requires
        prev.stack@.len() > 0,
        ({
            let p = prev.stack@.last();
            let inst0 = prev.installed();
            let stack0 = prev.stack@.drop_last();
            let m = missing_refs(deps, inst0);
            if inst0.contains(p@) {
                next.to_install@ == prev.to_install@ && next.stack@ == stack0 && next.visited@
                    == prev.visited@ && next.cycle_broken@ == prev.cycle_broken@
            } else if m.len() == 0 {
                next.to_install@ == prev.to_install@.push(p) && next.stack@ == stack0
                    && next.visited@ == prev.visited@ && next.cycle_broken@ == prev.cycle_broken@
            } else if prev.visited_v().contains(p@) {
                next.to_install@ == prev.to_install@.push(p) && next.stack@ == stack0 + m
                    && next.visited@ == prev.visited@ && next.cycle_broken@
                    == prev.cycle_broken@.insert(p@)
            } else {
                next.to_install@ == prev.to_install@ && next.stack@ == stack0.push(p) + m
                    && next.visited@ == prev.visited@.push(p) && next.cycle_broken@
                    == prev.cycle_broken@
            }
        }),
    ensures
        ({
            let p = prev.stack@.last();
            let inst0 = prev.installed();
            let stack0v = refs_view(prev.stack@.drop_last());
            let mv = refs_view(missing_refs(deps, inst0));
            if inst0.contains(p@) {
                next.installed() == inst0 && next.stacked() == stack0v && next.visited_v()
                    == prev.visited_v()
            } else if missing_refs(deps, inst0).len() == 0 {
                next.installed() == inst0.push(p@) && next.stacked() == stack0v && next.visited_v()
                    == prev.visited_v()
            } else if prev.visited_v().contains(p@) {
                next.installed() == inst0.push(p@) && next.stacked() == stack0v + mv
                    && next.visited_v() == prev.visited_v()
            } else {
                next.installed() == inst0 && next.stacked() == stack0v.push(p@) + mv
                    && next.visited_v() == prev.visited_v().push(p@)
            }
        }),
{
    let p = prev.stack@.last();
    let inst0 = prev.installed();
    let stack0 = prev.stack@.drop_last();
    let m = missing_refs(deps, inst0);
    lemma_refs_view_drop_last(prev.stack@);
    lemma_refs_view_push(prev.to_install@, p);
    lemma_refs_view_push(prev.visited@, p);
    lemma_refs_view_push(stack0, p);
    lemma_refs_view_concat(stack0, m);
    lemma_refs_view_concat(stack0.push(p), m);
}

/// Where an element of the post-step stack comes from: the old stack below the
/// popped ref, the popped ref itself, or the missing-dependency list — and in
/// each case it has a universe entry.
proof fn lemma_stacked_member_sources(
    uni: DepUniverse,
    prev: Resolver,
    next: Resolver,
    deps: Seq<ParcelRef>,
    i: int,
)
    requires
        uni.wf(),
        prev.stack@.len() > 0,
        uni.contains_key(prev.stack@.last()@),
        refs_view(deps) == uni.deps_of(prev.stack@.last()@),
        all_in_universe(uni, prev.stacked()),
        0 <= i < next.stacked().len(),
        ({
            let p = prev.stack@.last();
            let inst0 = prev.installed();
            let stack0 = prev.stack@.drop_last();
            let m = missing_refs(deps, inst0);
            if inst0.contains(p@) {
                next.stack@ == stack0
            } else if m.len() == 0 {
                next.stack@ == stack0
            } else if prev.visited_v().contains(p@) {
                next.stack@ == stack0 + m
            } else {
                next.stack@ == stack0.push(p) + m
            }
        }),
    ensures
        refs_view(prev.stack@.drop_last()).contains(next.stacked()[i]) || next.stacked()[i]
            == prev.stack@.last()@ || (uni.deps_of(prev.stack@.last()@).contains(next.stacked()[i])
            && !prev.installed().contains(next.stacked()[i])),
        uni.contains_key(next.stacked()[i]),
{
    let p = prev.stack@.last();
    let pv = p@;
    let inst0 = prev.installed();
    let stack0 = prev.stack@.drop_last();
    let stack0v = refs_view(stack0);
    let m = missing_refs(deps, inst0);
    let mv = refs_view(m);
    let x = next.stacked()[i];
    lemma_refs_view_drop_last(prev.stack@);
    lemma_refs_view_push(stack0, p);
    lemma_refs_view_concat(stack0, m);
    lemma_refs_view_concat(stack0.push(p), m);
    lemma_missing_refs_members(deps, inst0);
    if inst0.contains(pv) || m.len() == 0 {
        assert(stack0v[i] == x);
        assert(stack0v.contains(x));
        assert(prev.stacked()[i] == x);
    } else if prev.visited_v().contains(pv) {
        if i < stack0v.len() {
            assert(stack0v[i] == x);
            assert(stack0v.contains(x));
            assert(prev.stacked()[i] == x);
        } else {
            let j = i - stack0v.len();
            assert(mv[j] == x);
            assert(m[j]@ == x);
            assert(refs_view(deps).contains(x) && !inst0.contains(x));
            lemma_dep_member_in_universe(uni, pv, deps, x);
        }
    } else {
        if i < stack0v.len() + 1 {
            if i < stack0v.len() {
                assert(stack0v[i] == x);
                assert(stack0v.contains(x));
                assert(prev.stacked()[i] == x);
            } else {
                assert(x == pv);
            }
        } else {
            let j = i - stack0v.len() - 1;
            assert(mv[j] == x);
            assert(m[j]@ == x);
            assert(refs_view(deps).contains(x) && !inst0.contains(x));
            lemma_dep_member_in_universe(uni, pv, deps, x);
        }
    }
}

/// A dependency of a key with an entry has an entry itself.
proof fn lemma_dep_member_in_universe(uni: DepUniverse, key: RefView, deps: Seq<ParcelRef>, x: RefView)
    requires
        uni.wf(),
        uni.contains_key(key),
        refs_view(deps) == uni.deps_of(key),
        refs_view(deps).contains(x),
    ensures
        uni.contains_key(x),
{
    lemma_find_entry(uni.entries@, key);
    let f = find_entry(uni.entries@, key);
    let j = choose|j: int| 0 <= j < refs_view(deps).len() && refs_view(deps)[j] == x;
    assert(uni.deps_of(key)[j] == x);
    assert(uni.entries@[f].1@[j]@ == x);
}

/// Closure is preserved by one step.
proof fn lemma_closure_after_step(
    uni: DepUniverse,
    prev: Resolver,
    next: Resolver,
    deps: Seq<ParcelRef>,
    i: int,
    d: RefView,
)
    requires
        uni.wf(),
        prev.stack@.len() > 0,
        closure_pending(uni, prev.installed(), prev.stacked()),
        refs_view(deps) == uni.deps_of(prev.stack@.last()@),
        0 <= i < next.installed().len(),
        uni.deps_of(next.installed()[i]).contains(d),
        ({
            let p = prev.stack@.last();
            let inst0 = prev.installed();
            let stack0v = refs_view(prev.stack@.drop_last());
            let mv = refs_view(missing_refs(deps, inst0));
            if inst0.contains(p@) {
                next.installed() == inst0 && next.stacked() == stack0v
            } else if missing_refs(deps, inst0).len() == 0 {
                next.installed() == inst0.push(p@) && next.stacked() == stack0v
            } else if prev.visited_v().contains(p@) {
                next.installed() == inst0.push(p@) && next.stacked() == stack0v + mv
            } else {
                next.installed() == inst0 && next.stacked() == stack0v.push(p@) + mv
            }
        }),
    ensures
        next.installed().contains(d) || next.stacked().contains(d),
{
    let p = prev.stack@.last();
    let pv = p@;
    let inst0 = prev.installed();
    let stk0 = prev.stacked();
    let stack0v = refs_view(prev.stack@.drop_last());
    let m = missing_refs(deps, inst0);
    let mv = refs_view(m);
    lemma_refs_view_drop_last(prev.stack@);
    assert(stk0 =~= stack0v.push(pv));
    lemma_missing_refs_empty(deps, inst0);
    lemma_missing_refs_complete(deps, inst0);
    if i < inst0.len() {
        assert(next.installed()[i] == inst0[i]);
        assert(inst0.contains(d) || stk0.contains(d));
        if inst0.contains(d) {
            let j = choose|j: int| 0 <= j < inst0.len() && inst0[j] == d;
            assert(next.installed()[j] == d);
        } else {
            lemma_contains_push(stack0v, pv, d);
            if stack0v.contains(d) {
                let j = choose|j: int| 0 <= j < stack0v.len() && stack0v[j] == d;
                if inst0.contains(pv) || m.len() == 0 {
                    assert(next.stacked()[j] == d);
                } else if prev.visited_v().contains(pv) {
                    assert(next.stacked()[j] == d);
                } else {
                    assert(next.stacked()[j] == d);
                }
            } else {
                // d == pv: the popped ref is installed in every case where it
                // leaves the stack, and re-stacked otherwise.
                if inst0.contains(pv) {
                    let j = choose|j: int| 0 <= j < inst0.len() && inst0[j] == pv;
                    assert(next.installed()[j] == d);
                } else if m.len() == 0 || prev.visited_v().contains(pv) {
                    assert(next.installed()[inst0.len() as int] == pv);
                } else {
                    assert(next.stacked()[stack0v.len() as int] == pv);
                }
            }
        }
    } else {
        // A freshly installed ref: every dependency is installed or missing.
        assert(next.installed()[i] == pv);
        assert(uni.deps_of(pv).contains(d));
        let j = choose|j: int| 0 <= j < refs_view(deps).len() && refs_view(deps)[j] == d;
        assert(deps[j]@ == d);
        if inst0.contains(d) {
            let j2 = choose|j2: int| 0 <= j2 < inst0.len() && inst0[j2] == d;
            assert(next.installed()[j2] == d);
        } else {
            assert(mv.contains(d));
            let j3 = choose|j3: int| 0 <= j3 < mv.len() && mv[j3] == d;
            if m.len() == 0 {
                assert(false);
            } else if prev.visited_v().contains(pv) {
                assert(next.stacked()[stack0v.len() + j3] == d);
            } else {
                assert(false);
            }
        }
    }
}

/// Ordering of unbroken refs is preserved by one step.
proof fn lemma_order_after_step(
    uni: DepUniverse,
    prev: Resolver,
    next: Resolver,
    deps: Seq<ParcelRef>,
    i: int,
    d: RefView,
)
    requires
        uni.wf(),
        prev.stack@.len() > 0,
        ordered_unless_broken(uni, prev.installed(), prev.cycle_broken@),
        forall|x: RefView| #[trigger] prev.cycle_broken@.contains(x) ==> prev.installed().contains(x),
        refs_view(deps) == uni.deps_of(prev.stack@.last()@),
        0 <= i < next.installed().len(),
        !next.cycle_broken@.contains(next.installed()[i]),
        uni.deps_of(next.installed()[i]).contains(d),
        ({
            let p = prev.stack@.last();
            let inst0 = prev.installed();
            let m = missing_refs(deps, inst0);
            if inst0.contains(p@) {
                next.installed() == inst0 && next.cycle_broken@ == prev.cycle_broken@
            } else if m.len() == 0 {
                next.installed() == inst0.push(p@) && next.cycle_broken@ == prev.cycle_broken@
            } else if prev.visited_v().contains(p@) {
                next.installed() == inst0.push(p@) && next.cycle_broken@
                    == prev.cycle_broken@.insert(p@)
            } else {
                next.installed() == inst0 && next.cycle_broken@ == prev.cycle_broken@
            }
        }),
    ensures
        exists|j: int| 0 <= j < i && next.installed()[j] == d,
{
    let p = prev.stack@.last();
    let pv = p@;
    let inst0 = prev.installed();
    let m = missing_refs(deps, inst0);
    lemma_missing_refs_empty(deps, inst0);
    if i < inst0.len() {
        assert(next.installed()[i] == inst0[i]);
        assert(!prev.cycle_broken@.contains(inst0[i]));
        let j = choose|j: int| 0 <= j < i && inst0[j] == d;
        assert(next.installed()[j] == d);
    } else {
        // The freshly installed ref is outside the cycle-escape record only in
        // the no-missing case, where every dependency is already installed.
        assert(next.installed()[i] == pv);
        assert(!inst0.contains(pv) && m.len() == 0);
        assert(uni.deps_of(pv).contains(d));
        let j = choose|j: int| 0 <= j < refs_view(deps).len() && refs_view(deps)[j] == d;
        assert(deps[j]@ == d);
        assert(inst0.contains(deps[j]@));
        let j2 = choose|j2: int| 0 <= j2 < inst0.len() && inst0[j2] == d;
        assert(next.installed()[j2] == d);
    }
}

} // verus!
