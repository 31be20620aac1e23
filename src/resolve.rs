//! Resolution of a set of requested package ids into the closure of
//! packages reached through unqualified dependency edges.
use vstd::prelude::*;
use vstd::set_lib::{lemma_int_range, lemma_len_subset, set_int_range};
use crate::model::{Manifest, Package, dependency_at, dependency_count, dependency_entries};

verus! {

/// A character with ASCII upper-case letters mapped to lower case.
pub open spec fn ascii_lower_char(c: char) -> char {
    if 'A' <= c && c <= 'Z' {
        ((c as u32) + 32) as char
    } else {
        c
    }
}

/// An id as the case-insensitive comparison of ids sees it.
pub open spec fn lower_id(s: Seq<char>) -> Seq<char> {
    s.map_values(|c: char| ascii_lower_char(c))
}

/// Relies on str::to_ascii_lowercase: ASCII upper-case letters become lower
/// case, every other character is kept.
#[verifier::external_body]
fn ascii_lowercase(s: &str) -> (r: String)
    ensures
        r@ == lower_id(s@),
{
    s.to_ascii_lowercase()
}

/// `k` is the first package whose id equals the lowered id `id`, ignoring
/// ASCII case.
pub open spec fn is_first_match(pkgs: Seq<Package>, id: Seq<char>, k: int) -> bool {
    &&& 0 <= k < pkgs.len()
    &&& lower_id(pkgs[k].id@) == id
    &&& forall|j: int| 0 <= j < k ==> lower_id(#[trigger] pkgs[j].id@) != id
}

/// Package `k` is what one of the requested ids names.
pub open spec fn is_root(pkgs: Seq<Package>, roots: Seq<String>, k: int) -> bool {
    exists|r: int| 0 <= r < roots.len() && is_first_match(pkgs, lower_id(#[trigger] roots[r]@), k)
}

/// Package `a` has an unqualified dependency edge whose target id names
/// package `b`.
pub open spec fn follows(pkgs: Seq<Package>, a: int, b: int) -> bool {
    let deps = dependency_entries(pkgs[a].dependencies);
    exists|e: int|
        0 <= e < deps.len() && (#[trigger] deps[e]).1.ty is None && is_first_match(pkgs, lower_id(deps[e].0), b)
}

/// `p` is a path of the dependency graph that starts at a requested
/// package: each later package is followed by the one before it.
pub open spec fn is_path(pkgs: Seq<Package>, roots: Seq<String>, p: Seq<int>) -> bool {
    &&& p.len() > 0
    &&& is_root(pkgs, roots, p[0])
    &&& forall|i: int| 0 <= i < p.len() - 1 ==> #[trigger] follows(pkgs, p[i], p[i + 1])
}

/// Package `k` belongs to the closure of the requested ids: some path from a
/// requested package ends at it.
pub open spec fn in_closure(pkgs: Seq<Package>, roots: Seq<String>, k: int) -> bool {
    exists|p: Seq<int>| #[trigger] is_path(pkgs, roots, p) && p.last() == k
}

/// What `choose_packages` returns: the index of each package of the closure,
/// once, and nothing else.
pub open spec fn is_resolution(pkgs: Seq<Package>, roots: Seq<String>, r: Seq<usize>) -> bool {
    &&& forall|i: int| 0 <= i < r.len() ==> r[i] < pkgs.len()
    &&& r.no_duplicates()
    &&& forall|k: int| 0 <= k < pkgs.len() ==> (r.contains(k as usize) <==> in_closure(pkgs, roots, k))
}

/// A sequence of distinct indices below `n` has at most `n` elements.
proof fn lemma_distinct_below(s: Seq<usize>, n: int)
    requires
        s.no_duplicates(),
        forall|i: int| 0 <= i < s.len() ==> s[i] < n,
        0 <= n,
    ensures
        s.len() <= n,
{
    let t = Seq::new(s.len(), |i: int| s[i] as int);
    assert(t.no_duplicates()) by {
        assert forall|i: int, j: int| 0 <= i < t.len() && 0 <= j < t.len() && i != j implies t[i] != t[j] by {
            assert(s[i] != s[j]);
        }
    }
    t.unique_seq_to_set();
    lemma_int_range(0, n);
    assert(t.to_set().subset_of(set_int_range(0, n))) by {
        assert forall|x: int| t.to_set().contains(x) implies set_int_range(0, n).contains(x) by {
            let i = choose|i: int| 0 <= i < t.len() && t[i] == x;
            assert(s[i] < n);
        }
    }
    lemma_len_subset(t.to_set(), set_int_range(0, n));
}


/// Every package that `a` follows is marked in `seen`.
pub open spec fn closed_at(pkgs: Seq<Package>, seen: Seq<bool>, a: int) -> bool {
    forall|b: int| 0 <= b < pkgs.len() && #[trigger] follows(pkgs, a, b) ==> seen[b]
}

/// `seen` marks exactly the packages listed, once each, in `out`.
spec fn marks_agree(n: int, seen: Seq<bool>, out: Seq<usize>) -> bool {
    &&& seen.len() == n
    &&& out.no_duplicates()
    &&& forall|i: int| 0 <= i < out.len() ==> out[i] < n
    &&& forall|k: int| 0 <= k < n ==> (#[trigger] seen[k] <==> out.contains(k as usize))
}

proof fn lemma_closed_grows(pkgs: Seq<Package>, s1: Seq<bool>, s2: Seq<bool>, a: int)
    requires
        closed_at(pkgs, s1, a),
        s1.len() == s2.len(),
        forall|b: int| 0 <= b < s1.len() && #[trigger] s1[b] ==> s2[b],
        s1.len() == pkgs.len(),
    ensures
        closed_at(pkgs, s2, a),
{
}

/// A marking that holds every requested package and is closed under the
/// edges holds the end of every path.
proof fn lemma_closed_holds_path(pkgs: Seq<Package>, roots: Seq<String>, seen: Seq<bool>, p: Seq<int>)
    requires
        seen.len() == pkgs.len(),
        forall|j: int| 0 <= j < pkgs.len() && #[trigger] is_root(pkgs, roots, j) ==> seen[j],
        forall|a: int| 0 <= a < pkgs.len() && #[trigger] seen[a] ==> closed_at(pkgs, seen, a),
        is_path(pkgs, roots, p),
    ensures
        0 <= p.last() < pkgs.len() && seen[p.last()],
    decreases p.len(),
{
    if p.len() == 1 {
        let r = choose|r: int| 0 <= r < roots.len() && is_first_match(pkgs, lower_id(#[trigger] roots[r]@), p[0]);
    } else {
        let q = p.drop_last();
        assert(is_path(pkgs, roots, q)) by {
            assert forall|i: int| 0 <= i < q.len() - 1 implies #[trigger] follows(pkgs, q[i], q[i + 1]) by {
                assert(follows(pkgs, p[i], p[i + 1]));
            }
        }
        lemma_closed_holds_path(pkgs, roots, seen, q);
        let a = q.last();
        let i = p.len() - 2;
        assert(follows(pkgs, p[i], p[i + 1]));
        let deps = dependency_entries(pkgs[a].dependencies);
        let e = choose|e: int|
            0 <= e < deps.len() && (#[trigger] deps[e]).1.ty is None && is_first_match(pkgs, lower_id(deps[e].0), p.last());
        assert(closed_at(pkgs, seen, a));
    }
}

/// A path extended by an edge from its end is a path.
proof fn lemma_path_extends(pkgs: Seq<Package>, roots: Seq<String>, p: Seq<int>, b: int)
    requires
        is_path(pkgs, roots, p),
        follows(pkgs, p.last(), b),
    ensures
        is_path(pkgs, roots, p.push(b)),
        p.push(b).last() == b,
{
    let q = p.push(b);
    assert forall|i: int| 0 <= i < q.len() - 1 implies #[trigger] follows(pkgs, q[i], q[i + 1]) by {
        if i < p.len() - 1 {
            assert(follows(pkgs, p[i], p[i + 1]));
        }
    }
}

/// The index of the first package whose id, ignoring ASCII case, is the
/// lowered id `id`; `lower_ids` holds the lowered id of each package.
fn find_package(pkgs: &Vec<Package>, lower_ids: &Vec<String>, id: &String) -> (r: Option<usize>)
    requires
        lower_ids@.len() == pkgs@.len(),
        forall|j: int| 0 <= j < pkgs@.len() ==> #[trigger] lower_ids@[j]@ == lower_id(pkgs@[j].id@),
    ensures
        r matches Some(k) ==> is_first_match(pkgs@, id@, k as int),
        r is None ==> forall|k: int| 0 <= k < pkgs@.len() ==> lower_id(#[trigger] pkgs@[k].id@) != id@,
{
    let mut j: usize = 0;
    while j < lower_ids.len()
        invariant
            j <= lower_ids@.len(),
            lower_ids@.len() == pkgs@.len(),
            forall|i: int| 0 <= i < pkgs@.len() ==> #[trigger] lower_ids@[i]@ == lower_id(pkgs@[i].id@),
            forall|i: int| 0 <= i < j ==> lower_id(#[trigger] pkgs@[i].id@) != id@,
        decreases lower_ids@.len() - j,
    {
        if lower_ids[j] == *id {
            return Some(j);
        }
        j += 1;
    }
    None
}

/// Marks package `k` as part of the result, unless it already is, and
/// queues it for expansion.
fn visit(k: usize, seen: &mut Vec<bool>, out: &mut Vec<usize>, queue: &mut Vec<usize>)
    requires
        k < old(seen)@.len(),
        marks_agree(old(seen)@.len() as int, old(seen)@, old(out)@),
        old(queue)@.no_duplicates(),
        forall|i: int| 0 <= i < old(queue)@.len() ==> old(out)@.contains(#[trigger] old(queue)@[i]),
    ensures
        final(seen)@ == old(seen)@.update(k as int, true),
        final(out)@ == if old(seen)@[k as int] { old(out)@ } else { old(out)@.push(k) },
        final(queue)@ == if old(seen)@[k as int] { old(queue)@ } else { old(queue)@.push(k) },
        marks_agree(old(seen)@.len() as int, final(seen)@, final(out)@),
        final(queue)@.no_duplicates(),
        forall|i: int| 0 <= i < final(queue)@.len() ==> final(out)@.contains(#[trigger] final(queue)@[i]),
{
    if !seen[k] {
        let n = seen.len();
        seen.set(k, true);
        out.push(k);
        queue.push(k);
        assert forall|j: int| 0 <= j < n implies (#[trigger] seen@[j] <==> out@.contains(j as usize)) by {
            if j != k {
                if old(out)@.contains(j as usize) {
                    let i = choose|i: int| 0 <= i < old(out)@.len() && old(out)@[i] == j as usize;
                    assert(out@[i] == j as usize);
                }
                if out@.contains(j as usize) {
                    let i = choose|i: int| 0 <= i < out@.len() && out@[i] == j as usize;
                    assert(out@ == old(out)@.push(k));
                    if i == old(out)@.len() {
                        assert(out@[i] == k);
                        assert(false);
                    }
                    assert(old(out)@[i] == j as usize);
                }
            } else {
                assert(out@[out@.len() - 1] == k);
            }
        }
        assert forall|i: int| 0 <= i < queue@.len() implies out@.contains(#[trigger] queue@[i]) by {
            if i < queue@.len() - 1 {
                let t = choose|t: int| 0 <= t < old(out)@.len() && old(out)@[t] == queue@[i];
                assert(out@[t] == queue@[i]);
            } else {
                assert(out@[out@.len() - 1] == k);
            }
        }
        assert(!old(queue)@.contains(k)) by {
            if old(queue)@.contains(k) {
                let i = choose|i: int| 0 <= i < old(queue)@.len() && old(queue)@[i] == k;
                assert(old(out)@.contains(old(queue)@[i]));
            }
        }
    } else {
        assert(seen@.update(k as int, true) =~= seen@);
    }
}

/// The packages that the requested ids need: each package named by a
/// requested id, and each package named by an unqualified dependency edge of
/// a package already needed. Ids match the first package whose id is equal
/// ignoring ASCII case; ids that name no package are passed over. The result
/// lists indices into `manifest.packages`, each needed package once.
pub fn choose_packages(manifest: &Manifest, package_ids: &Vec<String>) -> (r: Vec<usize>)
    ensures
        is_resolution(manifest.packages@, package_ids@, r@),
{
    let pkgs = &manifest.packages;
    let n = pkgs.len();
    let ghost roots = package_ids@;
    let mut lower_ids: Vec<String> = Vec::new();
    for k in 0..n
        invariant
            n == pkgs@.len(),
            lower_ids@.len() == k,
            forall|j: int| 0 <= j < k ==> #[trigger] lower_ids@[j]@ == lower_id(pkgs@[j].id@),
    {
        lower_ids.push(ascii_lowercase(pkgs[k].id.as_str()));
    }
    let mut seen: Vec<bool> = Vec::new();
    for k in 0..n
        invariant
            seen@.len() == k,
            forall|j: int| 0 <= j < k ==> !#[trigger] seen@[j],
    {
        seen.push(false);
    }
    let mut out: Vec<usize> = Vec::new();
    let mut queue: Vec<usize> = Vec::new();
    for r in 0..package_ids.len()
        invariant
            n == pkgs@.len(),
            roots == package_ids@,
            lower_ids@.len() == n,
            forall|j: int| 0 <= j < n ==> #[trigger] lower_ids@[j]@ == lower_id(pkgs@[j].id@),
            marks_agree(n as int, seen@, out@),
            queue@ == out@,
            forall|i: int| 0 <= i < out@.len() ==> in_closure(pkgs@, roots, #[trigger] out@[i] as int),
            forall|q: int, k: int|
                0 <= q < r && #[trigger] is_first_match(pkgs@, lower_id(#[trigger] roots[q]@), k) ==> seen@[k],
    {
        let id = ascii_lowercase(package_ids[r].as_str());
        match find_package(pkgs, &lower_ids, &id) {
            Some(k) => {
                let ghost out0 = out@;
                assert(is_path(pkgs@, roots, seq![k as int]));
                visit(k, &mut seen, &mut out, &mut queue);
                assert forall|i: int| 0 <= i < out@.len() implies in_closure(pkgs@, roots, #[trigger] out@[i] as int) by {
                    if i < out0.len() {
                        assert(out@[i] == out0[i]);
                    } else {
                        assert(out@[i] == k);
                    }
                }
            },
            None => {},
        }
    }
    proof {
        assert forall|k: int| 0 <= k < n && seen@[k] && !queue@.contains(k as usize) implies #[trigger] closed_at(pkgs@, seen@, k) by {
            assert(out@.contains(k as usize));
        }
        assert forall|k: int| 0 <= k < n && #[trigger] is_root(pkgs@, roots, k) implies seen@[k] by {
            let q = choose|q: int| 0 <= q < roots.len() && is_first_match(pkgs@, lower_id(#[trigger] roots[q]@), k);
        }
        lemma_distinct_below(out@, n as int);
    }
    while queue.len() > 0
        invariant
            n == pkgs@.len(),
            roots == package_ids@,
            lower_ids@.len() == n,
            forall|j: int| 0 <= j < n ==> #[trigger] lower_ids@[j]@ == lower_id(pkgs@[j].id@),
            marks_agree(n as int, seen@, out@),
            out@.len() <= n,
            queue@.no_duplicates(),
            forall|i: int| 0 <= i < queue@.len() ==> out@.contains(#[trigger] queue@[i]),
            forall|i: int| 0 <= i < out@.len() ==> in_closure(pkgs@, roots, #[trigger] out@[i] as int),
            forall|k: int| 0 <= k < n && #[trigger] is_root(pkgs@, roots, k) ==> seen@[k],
            forall|k: int|
                0 <= k < n && seen@[k] && !queue@.contains(k as usize) ==> #[trigger] closed_at(pkgs@, seen@, k),
        decreases 2 * (n - out@.len()) + queue@.len(),
    {
        let ghost measure0 = 2 * (n - out@.len()) + queue@.len();
        let ghost qpre = queue@;
        let a = queue.pop().unwrap();
        let ghost queue0 = queue@;
        assert(qpre == queue0.push(a));
        assert(out@.contains(a));
        assert(!queue@.contains(a)) by {
            if queue@.contains(a) {
                let i = choose|i: int| 0 <= i < queue@.len() && queue@[i] == a;
                assert(queue0.push(a)[i] == queue0.push(a)[queue0.len() as int]);
            }
        }
        proof {
            assert forall|k: int|
                0 <= k < n && k != a && seen@[k] && !queue@.contains(k as usize) implies #[trigger] closed_at(pkgs@, seen@, k) by {
                if queue0.push(a).contains(k as usize) {
                    let i = choose|i: int| 0 <= i < queue0.push(a).len() && queue0.push(a)[i] == k as usize;
                    assert(queue@[i] == k as usize);
                }
            }
        }
        let deps = &pkgs[a].dependencies;
        let ghost entries = dependency_entries(*deps);
        let m = dependency_count(deps);
        for e in 0..m
            invariant
                n == pkgs@.len(),
                roots == package_ids@,
                a < n,
                deps == &pkgs@[a as int].dependencies,
                entries == dependency_entries(*deps),
                m == entries.len(),
                lower_ids@.len() == n,
                forall|j: int| 0 <= j < n ==> #[trigger] lower_ids@[j]@ == lower_id(pkgs@[j].id@),
                marks_agree(n as int, seen@, out@),
                out@.contains(a),
                in_closure(pkgs@, roots, a as int),
                queue@.no_duplicates(),
                !queue@.contains(a),
                forall|i: int| 0 <= i < queue@.len() ==> out@.contains(#[trigger] queue@[i]),
                forall|i: int| 0 <= i < out@.len() ==> in_closure(pkgs@, roots, #[trigger] out@[i] as int),
                forall|k: int| 0 <= k < n && #[trigger] is_root(pkgs@, roots, k) ==> seen@[k],
                forall|k: int|
                    0 <= k < n && k != a && seen@[k] && !queue@.contains(k as usize) ==> #[trigger] closed_at(pkgs@, seen@, k),
                forall|d: int, b: int|
                    0 <= d < e && entries[d].1.ty is None && #[trigger] is_first_match(pkgs@, lower_id(entries[d].0), b) ==> seen@[b],
                2 * (n - out@.len()) + queue@.len() < measure0,
                2 * (n - out@.len()) + queue@.len() < measure0,
        {
            match dependency_at(deps, e) {
                Some((key, dep)) => {
                    if dep.ty.is_none() {
                        let id = ascii_lowercase(key.as_str());
                        match find_package(pkgs, &lower_ids, &id) {
                            Some(b) => {
                                let ghost seen0 = seen@;
                                let ghost out0 = out@;
                                let ghost q0 = queue@;
                                proof {
                                    lemma_distinct_below(out@, n as int);
                                    let pa = choose|pa: Seq<int>| #[trigger] is_path(pkgs@, roots, pa) && pa.last() == a as int;
                                    assert(follows(pkgs@, a as int, b as int));
                                    lemma_path_extends(pkgs@, roots, pa, b as int);
                                }
                                visit(b, &mut seen, &mut out, &mut queue);
                                proof {
                                    assert forall|i: int| 0 <= i < out@.len() implies in_closure(pkgs@, roots, #[trigger] out@[i] as int) by {
                                        if i < out0.len() {
                                            assert(out@[i] == out0[i]);
                                        } else {
                                            assert(out@[i] == b);
                                        }
                                    }
                                    assert forall|k: int|
                                        0 <= k < n && k != a && seen@[k] && !queue@.contains(k as usize) implies #[trigger] closed_at(pkgs@, seen@, k) by {
                                        if k == b && !seen0[b as int] {
                                            assert(queue@[queue@.len() - 1] == b);
                                        } else {
                                            assert(seen0[k]);
                                            if q0.contains(k as usize) {
                                                let i = choose|i: int| 0 <= i < q0.len() && q0[i] == k as usize;
                                                assert(queue@[i] == q0[i]);
                                            }
                                            assert(closed_at(pkgs@, seen0, k));
                                            lemma_closed_grows(pkgs@, seen0, seen@, k);
                                        }
                                    }
                                    assert(out@.contains(a)) by {
                                        let i = choose|i: int| 0 <= i < out0.len() && out0[i] == a;
                                        assert(out@[i] == a);
                                    }
                                    assert(!queue@.contains(a)) by {
                                        if queue@.contains(a) && !seen0[b as int] {
                                            let i = choose|i: int| 0 <= i < queue@.len() && queue@[i] == a;
                                            if i < q0.len() {
                                                assert(q0[i] == a);
                                            } else {
                                                assert(queue@[i] == b);
                                                assert(out0.contains(a));
                                            }
                                        }
                                    }
                                }
                            },
                            None => {},
                        }
                    }
                },
                None => {},
            }
        }
        proof {
            lemma_distinct_below(out@, n as int);
            assert(closed_at(pkgs@, seen@, a as int)) by {
                assert forall|b: int| 0 <= b < pkgs@.len() && #[trigger] follows(pkgs@, a as int, b) implies seen@[b] by {
                    let d = choose|d: int|
                        0 <= d < entries.len() && (#[trigger] entries[d]).1.ty is None && is_first_match(pkgs@, lower_id(entries[d].0), b);
                }
            }
        }
    }
    proof {
        assert forall|k: int| 0 <= k < n implies (out@.contains(k as usize) <==> in_closure(pkgs@, roots, k)) by {
            if in_closure(pkgs@, roots, k) {
                let p = choose|p: Seq<int>| #[trigger] is_path(pkgs@, roots, p) && p.last() == k;
                assert forall|a: int| 0 <= a < n && #[trigger] seen@[a] implies closed_at(pkgs@, seen@, a) by {
                }
                lemma_closed_holds_path(pkgs@, roots, seen@, p);
            }
            if out@.contains(k as usize) {
                let i = choose|i: int| 0 <= i < out@.len() && out@[i] == k as usize;
            }
        }
    }
    out
}


/// The requested ids as the case-insensitive comparison sees them, with
/// order and repetition forgotten.
pub open spec fn requested_set(roots: Seq<String>) -> Set<Seq<char>> {
    roots.map_values(|s: String| lower_id(s@)).to_set()
}

proof fn lemma_roots_agree(pkgs: Seq<Package>, roots1: Seq<String>, roots2: Seq<String>, k: int)
    requires
        requested_set(roots1) == requested_set(roots2),
        is_root(pkgs, roots1, k),
    ensures
        is_root(pkgs, roots2, k),
{
    let r = choose|r: int| 0 <= r < roots1.len() && is_first_match(pkgs, lower_id(#[trigger] roots1[r]@), k);
    let x = lower_id(roots1[r]@);
    assert(roots1.map_values(|s: String| lower_id(s@))[r] == x);
    assert(requested_set(roots2).contains(x));
    let lowered2 = roots2.map_values(|s: String| lower_id(s@));
    let q = choose|q: int| 0 <= q < lowered2.len() && #[trigger] lowered2[q] == x;
    assert(is_first_match(pkgs, lower_id(roots2[q]@), k));
}

proof fn lemma_closure_agrees(pkgs: Seq<Package>, roots1: Seq<String>, roots2: Seq<String>, k: int)
    requires
        requested_set(roots1) == requested_set(roots2),
        in_closure(pkgs, roots1, k),
    ensures
        in_closure(pkgs, roots2, k),
{
    let p = choose|p: Seq<int>| #[trigger] is_path(pkgs, roots1, p) && p.last() == k;
    lemma_roots_agree(pkgs, roots1, roots2, p[0]);
    assert(is_path(pkgs, roots2, p));
}

/// Resolution determines one set of packages: for one manifest, requested
/// ids that name the same ids ignoring ASCII case, in whatever order and
/// with whatever repetition, give results that hold the same packages,
/// whatever order the traversal visited them in.
pub proof fn lemma_resolution_is_determined(
    pkgs: Seq<Package>,
    roots1: Seq<String>,
    roots2: Seq<String>,
    r1: Seq<usize>,
    r2: Seq<usize>,
)
    requires
        requested_set(roots1) == requested_set(roots2),
        is_resolution(pkgs, roots1, r1),
        is_resolution(pkgs, roots2, r2),
    ensures
        r1.to_set() == r2.to_set(),
{
    assert forall|x: usize| r1.to_set().contains(x) <==> r2.to_set().contains(x) by {
        if r1.contains(x) {
            let i = choose|i: int| 0 <= i < r1.len() && r1[i] == x;
            assert(in_closure(pkgs, roots1, x as int));
            lemma_closure_agrees(pkgs, roots1, roots2, x as int);
            assert(r2.contains(x));
        }
        if r2.contains(x) {
            let i = choose|i: int| 0 <= i < r2.len() && r2[i] == x;
            assert(in_closure(pkgs, roots2, x as int));
            lemma_closure_agrees(pkgs, roots2, roots1, x as int);
            assert(r1.contains(x));
        }
    }
    assert(r1.to_set() =~= r2.to_set());
}

} // verus!
