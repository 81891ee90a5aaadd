//! A dependency provider that holds all dependency information in memory.

use std::cmp::Reverse;
use vstd::prelude::*;

use crate::pairs::{
    distinct_keys, lemma_distinct_push, lemma_lookup_absent, lemma_lookup_at, lemma_lookup_found,
    lemma_lookup_push, lemma_lookup_update, lookup,
};
use crate::range::point;
use crate::solver::{clones, Dependencies, DependencyProvider, PackageResolutionStatistics};
use crate::version_set::VersionSet;
use crate::version_trait::{contains_item, same_as, Ranked};

verus! {

/// The position of the first pair whose key is `k`.
fn find_key<K: Ranked, X>(s: &[(K, X)], k: &K) -> (r: Option<usize>)
    ensures
        match r {
            None => forall|i: int| 0 <= i < s@.len() ==> #[trigger] s@[i].0 != *k,
            Some(i) => i < s@.len() && s@[i as int].0 == *k,
        },
{
    let mut i: usize = 0;
    while i < s.len()
        invariant
            0 <= i <= s@.len(),
            forall|j: int| 0 <= j < i ==> #[trigger] s@[j].0 != *k,
        decreases s@.len() - i,
    {
        if same_as(&s[i].0, k) {
            return Some(i);
        }
        i = i + 1;
    }
    None
}

/// The dependencies as a map: each package named once, with the versions of
/// the last pair naming it.
fn collect_constraints<P: Ranked, VS>(dependencies: Vec<(P, VS)>) -> (r: Vec<(P, VS)>)
    ensures
        distinct_keys(r@),
        forall|q: P| #[trigger] lookup(r@, q) == lookup(dependencies@, q),
{
    let ghost all = dependencies@;
    let mut rest = dependencies;
    let mut out: Vec<(P, VS)> = Vec::new();
    while rest.len() > 0
        invariant
            distinct_keys(out@),
            forall|q: P| #[trigger] lookup(all, q) == if lookup(out@, q) is Some { lookup(out@, q) } else { lookup(rest@, q) },
        decreases rest@.len(),
    {
        let ghost old_rest = rest@;
        let ghost old_out = out@;
        let last = rest.pop().unwrap();
        proof {
            assert(old_rest == rest@.push(last));
        }
        match find_key(out.as_slice(), &last.0) {
            Some(i) => {
                proof {
                    lemma_lookup_at(old_out, i as int);
                    assert forall|q: P| #[trigger] lookup(all, q) == if lookup(out@, q) is Some { lookup(out@, q) } else { lookup(rest@, q) } by {
                        lemma_lookup_push(rest@, last, q);
                    }
                }
            },
            None => {
                out.push(last);
                proof {
                    lemma_distinct_push(old_out, last);
                    lemma_lookup_absent(old_out, last.0);
                    assert forall|q: P| #[trigger] lookup(all, q) == if lookup(out@, q) is Some { lookup(out@, q) } else { lookup(rest@, q) } by {
                        lemma_lookup_push(rest@, last, q);
                        lemma_lookup_push(old_out, last, q);
                    }
                }
            },
        }
    }
    out
}

/// The number of versions of the list that the set holds.
pub open spec fn count_held<VS: VersionSet>(range: VS, versions: Seq<VS::V>) -> nat
    decreases versions.len(),
{
    if versions.len() == 0 {
        0
    } else {
        count_held(range, versions.drop_last()) + if range.has_point(point(versions.last())) { 1nat } else { 0nat }
    }
}

/// Count the versions of the list that are in the range.
///
/// Kept out of `prioritize`, which is inlined into the solver's priority loop, where a second loop
/// costs more registers than the call it saves.
pub fn count_in_range<VS: VersionSet>(range: &VS, versions: &[VS::V]) -> (r: usize)
    ensures
        r == count_held(*range, versions@),
{
    let held = range.contains_many(versions);
    let mut n: usize = 0;
    let mut k: usize = 0;
    while k < held.len()
        invariant
            0 <= k <= held@.len(),
            held@.len() == versions@.len(),
            forall|j: int| 0 <= j < versions@.len() ==> #[trigger] held@[j] == range.has_point(point(versions@[j])),
            n == count_held(*range, versions@.subrange(0, k as int)),
            n <= k,
        decreases held@.len() - k,
    {
        proof {
            assert(versions@.subrange(0, k + 1).drop_last() =~= versions@.subrange(0, k as int));
        }
        if held[k] {
            n = n + 1;
        }
        k = k + 1;
    }
    proof {
        assert(versions@.subrange(0, versions@.len() as int) =~= versions@);
    }
    n
}

/// `std::cmp::Reverse`, which orders the values it wraps the other way round.
#[verifier::external_type_specification]
#[verifier::external_body]
#[verifier::reject_recursive_types(T)]
pub struct ExReverse<T>(std::cmp::Reverse<T>);

/// What `Reverse(n)` gives for a count `n`.
pub uninterp spec fn reversed_count(n: usize) -> Reverse<usize>;

/// Wraps a count in std's `Reverse`, the tuple struct that orders its field the
/// other way round; the result is determined by the count alone.
#[verifier::external_body]
fn reverse_count(n: usize) -> (r: Reverse<usize>)
    ensures
        r == reversed_count(n),
{
    Reverse(n)
}

/// `r` holds the two numbers of the priority of a package with `count` versions in its range
/// and `conflicts` conflicts: `(u32::MAX, 0)` for a package with no version in its range, else
/// its conflict count and the number of its versions in the range.
pub open spec fn priority_parts(r: (u32, usize), count: nat, conflicts: int) -> bool {
    if count == 0 {
        r == (u32::MAX, 0usize)
    } else {
        r.0 == conflicts && r.1 == count
    }
}

/// `r` is the priority of a package with `count` versions in its range and `conflicts`
/// conflicts: packages with the fewest versions in their range come first.
///
/// A package with no version in its range gets `(u32::MAX, Reverse(0))`; any other gets its
/// conflict count and the number of its versions in the range, compared in reverse: the fewer
/// versions, the higher the priority.
pub open spec fn is_priority(r: (u32, Reverse<usize>), count: nat, conflicts: int) -> bool {
    if count == 0 {
        r == (u32::MAX, reversed_count(0))
    } else {
        r.0 == conflicts && r.1 == reversed_count(count as usize)
    }
}

/// The priority of a package whose known versions are `versions`, `None` where nothing is
/// known of it.
fn priority_of_versions<VS: VersionSet>(
    versions: Option<&[VS::V]>,
    range: &VS,
    package_statistics: &PackageResolutionStatistics,
) -> (r: (u32, usize))
    requires
        package_statistics.total() <= u32::MAX,
    ensures
        priority_parts(
            r,
            match versions {
                None => 0,
                Some(vs) => count_held(*range, vs@),
            },
            package_statistics.total(),
        ),
{
    let version_count = match versions {
        None => 0,
        Some(vs) => {
            if vs.len() == 1 {
                // One version is not worth batching.
                let held = range.contains(&vs[0]);
                proof {
                    assert(vs@.drop_last() =~= Seq::<VS::V>::empty());
                    assert(count_held(*range, vs@.drop_last()) == 0);
                }
                if held {
                    1
                } else {
                    0
                }
            } else {
                count_in_range(range, vs)
            }
        },
    };
    if version_count == 0 {
        return (u32::MAX, 0);
    }
    (package_statistics.conflict_count(), version_count)
}

/// Versions in strictly increasing order.
pub open spec fn increasing<V: Ranked>(s: Seq<V>) -> bool {
    forall|i: int, j: int| 0 <= i < j < s.len() ==> s[i].rank() < s[j].rank()
}

/// Inserting a version at its place in increasing versions keeps them
/// increasing, and adds the version to what they hold.
proof fn lemma_increasing_insert<V: Ranked>(s: Seq<V>, k: int, v: V)
    requires
        increasing(s),
        0 <= k <= s.len(),
        forall|j: int| 0 <= j < k ==> #[trigger] s[j].rank() < v.rank(),
        forall|j: int| k <= j < s.len() ==> v.rank() < #[trigger] s[j].rank(),
    ensures
        increasing(s.insert(k, v)),
        forall|w: V| #[trigger] s.insert(k, v).contains(w) <==> (s.contains(w) || w == v),
{
    let t = s.insert(k, v);
    s.insert_ensures(k, v);
    assert forall|a: int, b: int| 0 <= a < b < t.len() implies t[a].rank() < t[b].rank() by {
        if b < k {
        } else if b == k {
        } else if a < k {
            assert(t[b] == s[b - 1]);
        } else if a == k {
            assert(t[b] == s[b - 1]);
        } else {
            assert(t[a] == s[a - 1]);
            assert(t[b] == s[b - 1]);
        }
    }
    assert forall|w: V| #[trigger] t.contains(w) <==> (s.contains(w) || w == v) by {
        if t.contains(w) {
            let m = choose|m: int| 0 <= m < t.len() && t[m] == w;
            if m > k {
                assert(s[m - 1] == w);
            }
        }
        if s.contains(w) {
            let m = choose|m: int| 0 <= m < s.len() && s[m] == w;
            if m >= k {
                assert(t[m + 1] == w);
            } else {
                assert(t[m] == w);
            }
        }
        if w == v {
            assert(t[k] == w);
        }
    }
}

/// Where `v` goes among increasing versions: after those that come before it.
fn insertion_point<V: Ranked>(s: &[V], v: &V) -> (k: usize)
    requires
        increasing(s@),
    ensures
        k <= s@.len(),
        forall|j: int| 0 <= j < k ==> #[trigger] s@[j].rank() <= v.rank(),
        forall|j: int| k <= j < s@.len() ==> v.rank() < #[trigger] s@[j].rank(),
{
    let mut k: usize = 0;
    while k < s.len() && !v.rank_lt(&s[k])
        invariant
            0 <= k <= s@.len(),
            forall|j: int| 0 <= j < k ==> #[trigger] s@[j].rank() <= v.rank(),
        decreases s@.len() - k,
    {
        k = k + 1;
    }
    k
}


/// A basic dependency provider, holding all dependency information in memory.
///
/// Packages are picked with the fewest versions contained in the constraints first, and
/// versions are picked with the newest versions first.
#[derive(Debug, Clone)]
pub struct OfflineDependencyProvider<P, VS: VersionSet> {
    /// Each registered package and version pair, with its dependencies.
    dependencies: Vec<(P, VS::V, Vec<(P, VS)>)>,
}

/// `after` is `before` once the dependencies of the package and version pair were registered:
/// the pair maps each package named to the versions of the last pair naming it, each package
/// once, and every other pair keeps what it had.
pub open spec fn registered<P: Ranked, VS: VersionSet>(
    before: OfflineDependencyProvider<P, VS>,
    after: OfflineDependencyProvider<P, VS>,
    package: P,
    version: VS::V,
    dependencies: Seq<(P, VS)>,
) -> bool {
    &&& after.entry(package, version) is Some
    &&& distinct_keys(after.entry(package, version)->0)
    &&& forall|q: P| #[trigger] lookup(after.entry(package, version)->0, q) == lookup(dependencies, q)
    &&& forall|p: P, v: VS::V| !(p == package && v == version) ==> #[trigger] after.entry(p, v) == before.entry(p, v)
}

impl<P: Ranked, VS: VersionSet> OfflineDependencyProvider<P, VS> {
    /// The registered package and version pairs, each with its dependencies.
    pub closed spec fn records(self) -> Seq<((P, VS::V), Seq<(P, VS)>)> {
        self.dependencies@.map_values(|e: (P, VS::V, Vec<(P, VS)>)| ((e.0, e.1), e.2@))
    }

    /// The dependencies registered for a package and version pair, if any.
    pub closed spec fn entry(self, package: P, version: VS::V) -> Option<Seq<(P, VS)>> {
        lookup(self.records(), (package, version))
    }

    /// Whether some version of the package is registered.
    pub open spec fn known(self, package: P) -> bool {
        exists|v: VS::V| #[trigger] self.entry(package, v) is Some
    }

    /// `versions` lists the registered versions of the package, in increasing order.
    pub open spec fn lists_versions(self, package: P, versions: Seq<VS::V>) -> bool {
        &&& increasing(versions)
        &&& forall|v: VS::V| versions.contains(v) <==> #[trigger] self.entry(package, v) is Some
    }

    /// Each pair is registered once, and names each of its dependencies once.
    pub closed spec fn wf(self) -> bool {
        &&& distinct_keys(self.records())
        &&& forall|i: int| 0 <= i < self.records().len() ==> distinct_keys(#[trigger] self.records()[i].1)
    }

    /// The dependencies registered for a pair name each package once.
    pub proof fn lemma_entry_distinct(self, package: P, version: VS::V)
        requires
            self.wf(),
            self.entry(package, version) is Some,
        ensures
            distinct_keys(self.entry(package, version)->0),
    {
        let i = lemma_lookup_found(self.records(), (package, version));
        assert(distinct_keys(self.records()[i].1));
    }

    /// The registered pair at position `i` has the dependencies stored there.
    proof fn lemma_entry_at(self, i: int)
        requires
            self.wf(),
            0 <= i < self.records().len(),
        ensures
            self.entry(self.records()[i].0.0, self.records()[i].0.1) == Some(self.records()[i].1),
    {
        lemma_lookup_at(self.records(), i);
    }

    /// Creates an empty provider with no dependencies.
    pub fn new() -> (r: Self)
        ensures
            r.wf(),
            forall|p: P, v: VS::V| #[trigger] r.entry(p, v) is None,
    {
        let r = Self { dependencies: Vec::new() };
        proof {
            assert(r.records() =~= Seq::empty());
        }
        r
    }

    /// The position of the record of a package and version pair.
    fn find_record(&self, package: &P, version: &VS::V) -> (r: Option<usize>)
        ensures
            match r {
                None => forall|i: int| 0 <= i < self.records().len() ==> #[trigger] self.records()[i].0 != (*package, *version),
                Some(i) => i < self.records().len() && self.records()[i as int].0 == (*package, *version),
            },
    {
        let mut i: usize = 0;
        while i < self.dependencies.len()
            invariant
                0 <= i <= self.dependencies@.len(),
                forall|j: int| 0 <= j < i ==> #[trigger] self.records()[j].0 != (*package, *version),
            decreases self.dependencies@.len() - i,
        {
            let e = &self.dependencies[i];
            if same_as(&e.0, package) && same_as(&e.1, version) {
                return Some(i);
            }
            i = i + 1;
        }
        None
    }

    /// Registers the dependencies of a package and version pair.
    ///
    /// Dependencies must be added with a single call to `add_dependencies`. All subsequent calls
    /// to `add_dependencies` for a given package version pair will replace the dependencies by
    /// the new ones. A package named twice among the dependencies gets the versions of the last
    /// pair naming it.
    pub fn add_dependencies(&mut self, package: P, version: VS::V, dependencies: Vec<(P, VS)>)
        requires
            old(self).wf(),
        ensures
            final(self).wf(),
            registered(*old(self), *final(self), package, version, dependencies@),
    {
        let ghost input = dependencies@;
        let package_deps = collect_constraints(dependencies);
        let ghost before = self.records();
        let ghost x = ((package, version), package_deps@);
        match self.find_record(&package, &version) {
            Some(i) => {
                self.dependencies.set(i, (package, version, package_deps));
                proof {
                    assert(self.records() =~= before.update(i as int, x));
                    lemma_lookup_update(before, i as int, x);
                    assert forall|k: int| 0 <= k < self.records().len() implies distinct_keys(#[trigger] self.records()[k].1) by {
                        if k != i {
                            assert(self.records()[k] == before[k]);
                        }
                    }
                }
            },
            None => {
                self.dependencies.push((package, version, package_deps));
                proof {
                    assert(self.records() =~= before.push(x));
                    lemma_distinct_push(before, x);
                    assert forall|k: (P, VS::V)| #[trigger] lookup(self.records(), k) == if x.0 == k { Some(x.1) } else { lookup(before, k) } by {
                        lemma_lookup_push(before, x, k);
                    }
                    assert forall|k: int| 0 <= k < self.records().len() implies distinct_keys(#[trigger] self.records()[k].1) by {
                        if k < before.len() {
                            assert(self.records()[k] == before[k]);
                        }
                    }
                }
            },
        }
        proof {
            assert(self.entry(package, version) == Some(package_deps@));
        }
    }

    /// Whether the pair at some position before `i` is the given pair.
    spec fn seen(self, package: P, version: VS::V, i: int) -> bool {
        exists|j: int| 0 <= j < i && #[trigger] self.records()[j].0 == (package, version)
    }

    /// Whether the pair at some position before `i` is for the given package.
    spec fn seen_package(self, package: P, i: int) -> bool {
        exists|j: int| 0 <= j < i && #[trigger] self.records()[j].0.0 == package
    }

    /// A pair has dependencies exactly where it was registered.
    proof fn lemma_entry_iff(self, package: P, version: VS::V)
        requires
            self.wf(),
        ensures
            self.entry(package, version) is Some <==> self.seen(package, version, self.records().len() as int),
    {
        if self.entry(package, version) is Some {
            let i = lemma_lookup_found(self.records(), (package, version));
            assert(self.records()[i].0 == (package, version));
        }
        if self.seen(package, version, self.records().len() as int) {
            let j = choose|j: int| 0 <= j < self.records().len() && #[trigger] self.records()[j].0 == (package, version);
            self.lemma_entry_at(j);
        }
    }

    /// A package is known exactly where some pair for it was registered.
    proof fn lemma_known_iff(self, package: P)
        requires
            self.wf(),
        ensures
            self.known(package) <==> self.seen_package(package, self.records().len() as int),
    {
        if self.known(package) {
            let v = choose|v: VS::V| #[trigger] self.entry(package, v) is Some;
            self.lemma_entry_iff(package, v);
            let j = choose|j: int| 0 <= j < self.records().len() && #[trigger] self.records()[j].0 == (package, v);
            assert(self.records()[j].0.0 == package);
        }
        if self.seen_package(package, self.records().len() as int) {
            let j = choose|j: int| 0 <= j < self.records().len() && #[trigger] self.records()[j].0.0 == package;
            self.lemma_entry_at(j);
            assert(self.entry(package, self.records()[j].0.1) is Some);
        }
    }

    /// Lists packages that have been saved, each once.
    pub fn packages(&self) -> (r: Vec<P>)
        requires
            self.wf(),
        ensures
            forall|i: int, j: int| 0 <= i < j < r@.len() ==> r@[i] != r@[j],
            forall|p: P| #[trigger] r@.contains(p) <==> self.known(p),
    {
        let mut out: Vec<P> = Vec::new();
        let mut i: usize = 0;
        while i < self.dependencies.len()
            invariant
                0 <= i <= self.dependencies@.len(),
                self.records().len() == self.dependencies@.len(),
                forall|a: int, b: int| 0 <= a < b < out@.len() ==> out@[a] != out@[b],
                forall|p: P| #[trigger] out@.contains(p) <==> self.seen_package(p, i as int),
            decreases self.dependencies@.len() - i,
        {
            let p = self.dependencies[i].0;
            let ghost old_out = out@;
            proof {
                assert(self.records()[i as int].0.0 == p);
            }
            if !contains_item(out.as_slice(), &p) {
                out.push(p);
                proof {
                    assert forall|a: int, b: int| 0 <= a < b < out@.len() implies out@[a] != out@[b] by {
                        if b == old_out.len() {
                            assert(out@[a] == old_out[a]);
                            assert(old_out.contains(out@[a]));
                        } else {
                            assert(out@[a] == old_out[a] && out@[b] == old_out[b]);
                        }
                    }
                }
            }
            proof {
                assert forall|q: P| #[trigger] out@.contains(q) <==> self.seen_package(q, i + 1) by {
                    if out@.contains(q) && !old_out.contains(q) {
                        let m = choose|m: int| 0 <= m < out@.len() && out@[m] == q;
                        if m < old_out.len() {
                            assert(old_out[m] == q);
                        }
                        assert(q == p);
                    }
                    if old_out.contains(q) {
                        let m = choose|m: int| 0 <= m < old_out.len() && old_out[m] == q;
                        assert(out@[m] == q);
                    }
                    if q == p && !old_out.contains(q) {
                        assert(out@[out@.len() - 1] == q);
                    }
                    if self.seen_package(q, i + 1) && !self.seen_package(q, i as int) {
                        let j = choose|j: int| 0 <= j < i + 1 && #[trigger] self.records()[j].0.0 == q;
                        assert(j == i);
                    }
                }
            }
            i = i + 1;
        }
        proof {
            assert forall|p: P| #[trigger] out@.contains(p) <==> self.known(p) by {
                self.lemma_known_iff(p);
            }
        }
        out
    }

    /// Lists versions of saved packages in sorted order.
    /// Returns `None` if no information is available regarding that package.
    pub fn versions(&self, package: &P) -> (r: Option<Vec<VS::V>>)
        requires
            self.wf(),
        ensures
            match r {
                None => !self.known(*package),
                Some(vs) => self.known(*package) && self.lists_versions(*package, vs@),
            },
    {
        let mut out: Vec<VS::V> = Vec::new();
        let mut i: usize = 0;
        while i < self.dependencies.len()
            invariant
                0 <= i <= self.dependencies@.len(),
                self.records().len() == self.dependencies@.len(),
                self.wf(),
                increasing(out@),
                forall|v: VS::V| #[trigger] out@.contains(v) <==> self.seen(*package, v, i as int),
            decreases self.dependencies@.len() - i,
        {
            let e = &self.dependencies[i];
            let ghost old_out = out@;
            let ghost key = self.records()[i as int].0;
            proof {
                assert(key == (e.0, e.1));
            }
            if same_as(&e.0, package) {
                let v = e.1;
                proof {
                    if out@.contains(v) {
                        let j = choose|j: int| 0 <= j < i && #[trigger] self.records()[j].0 == (*package, v);
                        assert(self.records()[j].0 != self.records()[i as int].0);
                    }
                }
                let k = insertion_point(out.as_slice(), &v);
                proof {
                    assert forall|j: int| 0 <= j < k implies #[trigger] old_out[j].rank() < v.rank() by {
                        VS::V::lemma_rank_injective(old_out[j], v);
                        assert(old_out.contains(old_out[j]));
                    }
                    lemma_increasing_insert(old_out, k as int, v);
                }
                out.insert(k, v);
            }
            proof {
                assert forall|w: VS::V| #[trigger] out@.contains(w) <==> self.seen(*package, w, i + 1) by {
                    if self.seen(*package, w, i + 1) && !self.seen(*package, w, i as int) {
                        let j = choose|j: int| 0 <= j < i + 1 && #[trigger] self.records()[j].0 == (*package, w);
                        assert(j == i);
                    }
                    if self.seen(*package, w, i as int) {
                        let j = choose|j: int| 0 <= j < i && #[trigger] self.records()[j].0 == (*package, w);
                        assert(self.seen(*package, w, i + 1));
                    }
                    if key == (*package, w) {
                        assert(self.records()[i as int].0 == (*package, w));
                    }
                }
            }
            i = i + 1;
        }
        proof {
            assert forall|v: VS::V| out@.contains(v) <==> #[trigger] self.entry(*package, v) is Some by {
                self.lemma_entry_iff(*package, v);
            }
        }
        if out.len() == 0 {
            proof {
                assert forall|v: VS::V| !(#[trigger] self.entry(*package, v) is Some) by {
                    if self.entry(*package, v) is Some {
                        assert(out@.contains(v));
                    }
                }
            }
            None
        } else {
            proof {
                assert(out@.contains(out@[0]));
                assert(self.entry(*package, out@[0]) is Some);
            }
            Some(out)
        }
    }

    /// Lists dependencies of a given package and version.
    /// Returns `None` if no information is available regarding that package and version pair.
    fn dependencies(&self, package: &P, version: &VS::V) -> (r: Option<Vec<(P, VS)>>)
        requires
            self.wf(),
        ensures
            match r {
                None => self.entry(*package, *version) is None,
                Some(d) => self.entry(*package, *version) is Some && clones(self.entry(*package, *version)->0, d@),
            },
    {
        match self.find_record(package, version) {
            None => {
                proof {
                    lemma_lookup_absent(self.records(), (*package, *version));
                    assert(self.entry(*package, *version) is None);
                }
                None
            },
            Some(i) => {
                let src = &self.dependencies[i].2;
                proof {
                    self.lemma_entry_at(i as int);
                    assert(self.records()[i as int].1 == src@);
                }
                let mut out: Vec<(P, VS)> = Vec::new();
                let mut k: usize = 0;
                while k < src.len()
                    invariant
                        0 <= k <= src@.len(),
                        out@.len() == k,
                        forall|j: int| 0 <= j < k ==> (#[trigger] out@[j]).0 == src@[j].0 && vstd::pervasive::cloned(src@[j].1, out@[j].1),
                    decreases src@.len() - k,
                {
                    let ghost old_out = out@;
                    let item = &src[k];
                    let set = item.1.clone();
                    proof {
                        assert(vstd::pervasive::cloned(item.1, set));
                        assert(*item == src@[k as int]);
                    }
                    out.push((item.0, set));
                    proof {
                        assert forall|j: int| 0 <= j < k + 1 implies (#[trigger] out@[j]).0 == src@[j].0
                            && vstd::pervasive::cloned(src@[j].1, out@[j].1) by {
                            if j < k {
                                assert(out@[j] == old_out[j]);
                                assert(vstd::pervasive::cloned(src@[j].1, old_out[j].1));
                            } else {
                                assert(out@[j] == (item.0, set));
                            }
                        }
                    }
                    k = k + 1;
                }
                Some(out)
            },
        }
    }

    /// The dependencies of a package and version pair, or why they are not known.
    pub fn get_dependencies(&self, package: &P, version: &VS::V) -> (r: Dependencies<P, VS, String>)
        requires
            self.wf(),
        ensures
            match r {
                Dependencies::Unavailable(m) => self.entry(*package, *version) is None
                    && m@ == "its dependencies could not be determined"@,
                Dependencies::Available(d) => self.entry(*package, *version) is Some
                    && clones(self.entry(*package, *version)->0, d@),
            },
    {
        match self.dependencies(package, version) {
            None => Dependencies::Unavailable("its dependencies could not be determined".to_owned()),
            Some(dependencies) => Dependencies::Available(dependencies),
        }
    }

    /// The highest registered version of the package that the range holds, if any.
    pub fn choose_version(&self, package: &P, range: &VS) -> (r: Option<VS::V>)
        requires
            self.wf(),
        ensures
            match r {
                None => forall|v: VS::V| #[trigger] self.entry(*package, v) is Some ==> !range.has_point(point(v)),
                Some(v) => {
                    &&& self.entry(*package, v) is Some
                    &&& range.has_point(point(v))
                    &&& forall|w: VS::V| #[trigger] self.entry(*package, w) is Some && range.has_point(point(w))
                        ==> w.rank() <= v.rank()
                },
            },
    {
        let mut best: Option<VS::V> = None;
        let mut i: usize = 0;
        while i < self.dependencies.len()
            invariant
                0 <= i <= self.dependencies@.len(),
                self.records().len() == self.dependencies@.len(),
                forall|v: VS::V| #[trigger] self.seen(*package, v, i as int) && range.has_point(point(v))
                    ==> best is Some && v.rank() <= best->0.rank(),
                best is Some ==> self.seen(*package, best->0, i as int) && range.has_point(point(best->0)),
            decreases self.dependencies@.len() - i,
        {
            let e = &self.dependencies[i];
            let ghost key = self.records()[i as int].0;
            let ghost old_best = best;
            proof {
                assert(key == (e.0, e.1));
            }
            if same_as(&e.0, package) && range.contains(&e.1) {
                let better = match best {
                    None => true,
                    Some(b) => b.rank_lt(&e.1),
                };
                if better {
                    best = Some(e.1);
                }
            }
            proof {
                assert forall|v: VS::V| #[trigger] self.seen(*package, v, i + 1) && range.has_point(point(v))
                    implies best is Some && v.rank() <= best->0.rank() by {
                    if !self.seen(*package, v, i as int) {
                        let j = choose|j: int| 0 <= j < i + 1 && #[trigger] self.records()[j].0 == (*package, v);
                        assert(j == i);
                    }
                }
                if best is Some {
                    if best == old_best {
                        let j = choose|j: int| 0 <= j < i && #[trigger] self.records()[j].0 == (*package, best->0);
                        assert(self.records()[j].0 == (*package, best->0));
                    } else {
                        assert(self.records()[i as int].0 == (*package, best->0));
                    }
                }
            }
            i = i + 1;
        }
        proof {
            assert forall|w: VS::V| #[trigger] self.entry(*package, w) is Some
                <==> self.seen(*package, w, self.records().len() as int) by {
                self.lemma_entry_iff(*package, w);
            }
        }
        best
    }

    /// The priority of a package: packages with the fewest versions in their range come first.
    ///
    /// A package with no registered version in its range gets `(u32::MAX, Reverse(0))`; any other
    /// gets its conflict count and, in reverse, the number of its versions in the range.
    pub fn prioritize(
        &self,
        package: &P,
        range: &VS,
        package_statistics: &PackageResolutionStatistics,
    ) -> (r: (u32, Reverse<usize>))
        requires
            self.wf(),
            package_statistics.total() <= u32::MAX,
        ensures
            exists|versions: Seq<VS::V>| #[trigger] self.lists_versions(*package, versions)
                && is_priority(r, count_held(*range, versions), package_statistics.total()),
    {
        let parts = match self.versions(package) {
            None => {
                let r = priority_of_versions(None, range, package_statistics);
                proof {
                    assert forall|v: VS::V| !Seq::<VS::V>::empty().contains(v) && !(#[trigger] self.entry(*package, v) is Some) by {
                    }
                    assert(self.lists_versions(*package, Seq::<VS::V>::empty()));
                    assert(count_held(*range, Seq::<VS::V>::empty()) == 0);
                }
                r
            },
            Some(versions) => {
                let r = priority_of_versions(Some(versions.as_slice()), range, package_statistics);
                proof {
                    assert(self.lists_versions(*package, versions@));
                }
                r
            },
        };
        (parts.0, reverse_count(parts.1))
    }
}

/// An implementation of [DependencyProvider] that
/// contains all dependency information available in memory.
/// Currently packages are picked with the fewest versions contained in the constraints first.
/// But, that may change in new versions if better heuristics are found.
/// Versions are picked with the newest versions first.
impl<P: Ranked, VS: VersionSet> DependencyProvider for OfflineDependencyProvider<P, VS> {
    type P = P;

    type VS = VS;

    type Priority = (u32, Reverse<usize>);

    type M = String;

    type Err = core::convert::Infallible;

    open spec fn provider_wf(&self) -> bool {
        self.wf()
    }

    open spec fn deps(&self, package: P, version: VS::V) -> Option<Seq<(P, VS)>> {
        self.entry(package, version)
    }

    fn prioritize(&self, package: &P, range: &VS, package_conflicts_counts: &PackageResolutionStatistics) -> (r: (
        u32,
        Reverse<usize>,
    )) {
        OfflineDependencyProvider::prioritize(self, package, range, package_conflicts_counts)
    }

    fn choose_version(&self, package: &P, range: &VS) -> (r: Result<Option<VS::V>, core::convert::Infallible>) {
        Ok(OfflineDependencyProvider::choose_version(self, package, range))
    }

    fn get_dependencies(&self, package: &P, version: &VS::V) -> (r: Result<
        Dependencies<P, VS, String>,
        core::convert::Infallible,
    >) {
        Ok(OfflineDependencyProvider::get_dependencies(self, package, version))
    }

    fn should_cancel(&self) -> (r: Result<(), core::convert::Infallible>) {
        Ok(())
    }
}

impl<P: Ranked, VS: VersionSet> Default for OfflineDependencyProvider<P, VS> {
    /// An empty provider.
    fn default() -> (r: Self)
        ensures
            r.wf(),
            forall|p: P, v: VS::V| #[trigger] r.entry(p, v) is None,
    {
        Self::new()
    }
}

/// Two lists of the same versions, each in increasing order, are the same list.
pub proof fn lemma_increasing_unique<V: Ranked>(s: Seq<V>, t: Seq<V>)
    requires
        increasing(s),
        increasing(t),
        forall|v: V| s.contains(v) <==> t.contains(v),
    ensures
        s == t,
    decreases s.len(),
{
    if s.len() == 0 {
        if t.len() > 0 {
            assert(t.contains(t[0]));
        }
        assert(s =~= t);
    } else {
        assert(s.contains(s[0]));
        assert(t.len() > 0);
        assert(t.contains(t[0]));
        let i = choose|i: int| 0 <= i < t.len() && t[i] == s[0];
        let j = choose|j: int| 0 <= j < s.len() && s[j] == t[0];
        assert(s[0].rank() <= t[0].rank()) by {
            if j > 0 {
                assert(s[0].rank() < s[j].rank());
            }
        }
        assert(t[0].rank() <= s[0].rank()) by {
            if i > 0 {
                assert(t[0].rank() < t[i].rank());
            }
        }
        V::lemma_rank_injective(s[0], t[0]);
        let s1 = s.drop_first();
        let t1 = t.drop_first();
        assert forall|v: V| s1.contains(v) <==> t1.contains(v) by {
            if s1.contains(v) {
                let a = choose|a: int| 0 <= a < s1.len() && s1[a] == v;
                assert(s[a + 1] == v);
                assert(s[0].rank() < v.rank());
                assert(t.contains(v));
                let b = choose|b: int| 0 <= b < t.len() && t[b] == v;
                assert(b != 0);
                assert(t1[b - 1] == v);
            }
            if t1.contains(v) {
                let a = choose|a: int| 0 <= a < t1.len() && t1[a] == v;
                assert(t[a + 1] == v);
                assert(t[0].rank() < v.rank());
                assert(s.contains(v));
                let b = choose|b: int| 0 <= b < s.len() && s[b] == v;
                assert(b != 0);
                assert(s1[b - 1] == v);
            }
        }
        lemma_increasing_unique(s1, t1);
        assert(s =~= seq![s[0]] + s1);
        assert(t =~= seq![t[0]] + t1);
    }
}

/// The versions of a package are listed in one way only, so that its priority is decided by
/// the registered versions.
pub proof fn law_versions_listed_once<P: Ranked, VS: VersionSet>(
    provider: OfflineDependencyProvider<P, VS>,
    package: P,
    a: Seq<VS::V>,
    b: Seq<VS::V>,
)
    requires
        provider.lists_versions(package, a),
        provider.lists_versions(package, b),
    ensures
        a == b,
{
    assert forall|v: VS::V| a.contains(v) <==> b.contains(v) by {
        assert(a.contains(v) <==> provider.entry(package, v) is Some);
        assert(b.contains(v) <==> provider.entry(package, v) is Some);
    }
    lemma_increasing_unique(a, b);
}

/// What was registered is read back: once the dependencies of a package and version pair are
/// registered, the package is known, the version is among its versions, and each package
/// depended upon maps to the versions of the last pair naming it.
pub proof fn law_registered_read_back<P: Ranked, VS: VersionSet>(
    before: OfflineDependencyProvider<P, VS>,
    after: OfflineDependencyProvider<P, VS>,
    package: P,
    version: VS::V,
    dependencies: Seq<(P, VS)>,
    versions: Seq<VS::V>,
)
    requires
        registered(before, after, package, version, dependencies),
        after.lists_versions(package, versions),
    ensures
        after.known(package),
        versions.contains(version),
        forall|q: P| #[trigger] lookup(after.entry(package, version)->0, q) == lookup(dependencies, q),
{
    assert(after.entry(package, version) is Some);
}

/// Registering the dependencies of a pair a second time replaces the first ones, and leaves
/// every other pair as it was before both.
pub proof fn law_registration_replaces<P: Ranked, VS: VersionSet>(
    a: OfflineDependencyProvider<P, VS>,
    b: OfflineDependencyProvider<P, VS>,
    c: OfflineDependencyProvider<P, VS>,
    package: P,
    version: VS::V,
    first: Seq<(P, VS)>,
    second: Seq<(P, VS)>,
)
    requires
        registered(a, b, package, version, first),
        registered(b, c, package, version, second),
    ensures
        forall|q: P| #[trigger] lookup(c.entry(package, version)->0, q) == lookup(second, q),
        forall|p: P, v: VS::V| !(p == package && v == version) ==> #[trigger] c.entry(p, v) == a.entry(p, v),
{
    assert forall|p: P, v: VS::V| !(p == package && v == version) implies #[trigger] c.entry(p, v) == a.entry(p, v) by {
        assert(c.entry(p, v) == b.entry(p, v));
        assert(b.entry(p, v) == a.entry(p, v));
    }
}

/// Registering the dependencies of a package leaves the versions of every other package as
/// they were.
pub proof fn law_registration_keeps_other_packages<P: Ranked, VS: VersionSet>(
    before: OfflineDependencyProvider<P, VS>,
    after: OfflineDependencyProvider<P, VS>,
    package: P,
    version: VS::V,
    dependencies: Seq<(P, VS)>,
    other: P,
    versions: Seq<VS::V>,
)
    requires
        registered(before, after, package, version, dependencies),
        other != package,
        before.lists_versions(other, versions),
    ensures
        after.lists_versions(other, versions),
        after.known(other) == before.known(other),
{
    assert forall|v: VS::V| #[trigger] after.entry(other, v) == before.entry(other, v) by {
    }
    if before.known(other) {
        let v = choose|v: VS::V| #[trigger] before.entry(other, v) is Some;
        assert(after.entry(other, v) is Some);
    }
    if after.known(other) {
        let v = choose|v: VS::V| #[trigger] after.entry(other, v) is Some;
        assert(before.entry(other, v) is Some);
    }
}

} // verus!
