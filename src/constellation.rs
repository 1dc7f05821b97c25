//! The graph that links draw over stars, and its connected components.
use vstd::prelude::*;
use vstd::set_lib::{lemma_int_range, lemma_len_subset, set_int_range};

use crate::star::Link;

verus! {

broadcast use vstd::seq_lib::group_seq_properties;

/// The link joins stars `a` and `b`, in either direction.
pub open spec fn joins(l: Link, a: int, b: int) -> bool {
    (l.start_idx == a && l.end_idx == b) || (l.start_idx == b && l.end_idx == a)
}

/// Some link joins stars `a` and `b`.
pub open spec fn adjacent(links: Seq<Link>, a: int, b: int) -> bool {
    exists|i: int| #![trigger links[i]] 0 <= i < links.len() && joins(links[i], a, b)
}

/// Star `b` is reached from star `a` by following at most `n` links.
pub open spec fn reachable_within(links: Seq<Link>, a: int, b: int, n: nat) -> bool
    decreases n,
{
    if n == 0 {
        a == b
    } else {
        reachable_within(links, a, b, (n - 1) as nat) || exists|c: int|
            reachable_within(links, a, c, (n - 1) as nat) && adjacent(links, c, b)
    }
}

/// Stars `a` and `b` lie in the same constellation: a path of links leads from one to the other.
pub open spec fn connected(links: Seq<Link>, a: int, b: int) -> bool {
    exists|n: nat| reachable_within(links, a, b, n)
}

/// Every link names two of the first `n` stars.
pub open spec fn links_within(links: Seq<Link>, n: int) -> bool {
    forall|i: int|
        #![trigger links[i]]
        0 <= i < links.len() ==> (links[i].start_idx as int) < n && (links[i].end_idx as int) < n
}

/// A star connected to `a` is connected to each star one link away from it.
pub proof fn lemma_connected_step(links: Seq<Link>, a: int, b: int, c: int)
    requires
        connected(links, a, b),
        adjacent(links, b, c),
    ensures
        connected(links, a, c),
{
    let n = choose|n: nat| reachable_within(links, a, b, n);
    assert(reachable_within(links, a, c, n + 1));
}

/// A set of stars that holds `start` and every neighbour of each of its stars
/// holds every star connected to `start`.
proof fn lemma_closed_holds_reach(links: Seq<Link>, r: Seq<u16>, start: int, v: int, n: nat)
    requires
        0 <= start < 0x1_0000,
        r.contains(start as u16),
        forall|u: u16, w: int|
            #![trigger r.contains(u), adjacent(links, u as int, w)]
            r.contains(u) && adjacent(links, u as int, w) ==> 0 <= w < 0x1_0000 && r.contains(
                w as u16,
            ),
        reachable_within(links, start, v, n),
    ensures
        0 <= v < 0x1_0000,
        r.contains(v as u16),
    decreases n,
{
    if n > 0 {
        if reachable_within(links, start, v, (n - 1) as nat) {
            lemma_closed_holds_reach(links, r, start, v, (n - 1) as nat);
        } else {
            let c = choose|c: int|
                reachable_within(links, start, c, (n - 1) as nat) && adjacent(links, c, v);
            lemma_closed_holds_reach(links, r, start, c, (n - 1) as nat);
            assert(r.contains(c as u16) && adjacent(links, (c as u16) as int, v));
        }
    }
}

/// Distinct values below `n` number at most `n`.
proof fn lemma_distinct_below(s: Seq<u16>, n: int)
    requires
        0 <= n,
        s.no_duplicates(),
        forall|i: int| 0 <= i < s.len() ==> (s[i] as int) < n,
    ensures
        s.len() <= n,
{
    let m = s.map_values(|x: u16| x as int);
    assert(m.no_duplicates()) by {
        assert forall|i: int, j: int| 0 <= i < m.len() && 0 <= j < m.len() && i != j implies m[i]
            != m[j] by {
            assert(s[i] != s[j]);
        }
    }
    m.unique_seq_to_set();
    lemma_int_range(0, n);
    assert(m.to_set().subset_of(set_int_range(0, n))) by {
        assert forall|x: int| m.to_set().contains(x) implies set_int_range(0, n).contains(x) by {
            let i = choose|i: int| 0 <= i < m.len() && m[i] == x;
            assert(s[i] as int == x);
        }
    }
    lemma_len_subset(m.to_set(), set_int_range(0, n));
}

/// The stars of the constellation that holds `start`, each once, `start` first,
/// found by a depth-first walk over the links.
pub fn reachable(links: &Vec<Link>, n_stars: usize, start: u16) -> (r: Vec<u16>)
    requires
        (start as int) < n_stars,
        n_stars <= 0x1_0000,
        links_within(links@, n_stars as int),
    ensures
        r@.no_duplicates(),
        0 < r@.len() <= n_stars,
        r@[0] == start,
        forall|i: int| 0 <= i < r@.len() ==> (r@[i] as int) < n_stars,
        forall|v: u16|
            #![trigger r@.contains(v)]
            r@.contains(v) <==> connected(links@, start as int, v as int),
{
    let mut seen: Vec<bool> = vec![false; n_stars];
    seen[start as usize] = true;
    let mut result: Vec<u16> = vec![start];
    let mut stack: Vec<u16> = vec![start];
    assert(reachable_within(links@, start as int, start as int, 0));
    assert(result@[0] == start);
    while stack.len() > 0
        invariant
            seen@.len() == n_stars,
            (start as int) < n_stars <= 0x1_0000,
            links_within(links@, n_stars as int),
            result@.no_duplicates(),
            result@.len() > 0,
            result@[0] == start,
            forall|i: int| 0 <= i < result@.len() ==> (result@[i] as int) < n_stars,
            forall|v: u16|
                #![trigger result@.contains(v)]
                (v as int) < n_stars ==> (seen@[v as int] <==> result@.contains(v)),
            forall|v: int| #![trigger seen@[v]] 0 <= v < n_stars && seen@[v] ==> result@.contains(v as u16),
            stack@.no_duplicates(),
            forall|i: int|
                #![trigger stack@[i]]
                0 <= i < stack@.len() ==> (stack@[i] as int) < n_stars && seen@[stack@[i] as int],
            forall|v: u16|
                #![trigger result@.contains(v)]
                result@.contains(v) ==> connected(links@, start as int, v as int),
            forall|u: u16, w: int|
                #![trigger result@.contains(u), adjacent(links@, u as int, w)]
                result@.contains(u) && !stack@.contains(u) && adjacent(links@, u as int, w) ==> 0
                    <= w < n_stars && seen@[w],
        decreases 2 * (n_stars - result@.len()) + stack@.len(),
    {
        proof {
            lemma_distinct_below(result@, n_stars as int);
        }
        let ghost before_pop = stack@;
        let v: u16 = stack.pop().unwrap();
        let ghost popped = stack@;
        assert(before_pop == popped.push(v));
        assert(!popped.contains(v)) by {
            if popped.contains(v) {
                let i = choose|i: int| 0 <= i < popped.len() && popped[i] == v;
                assert(popped.push(v)[i] == popped.push(v)[popped.len() as int]);
            }
        }
        assert(result@.contains(v));
        let ghost measure = 2 * (n_stars - result@.len()) + stack@.len();
        let mut k: usize = 0;
        while k < links.len()
            invariant
                seen@.len() == n_stars,
                (start as int) < n_stars <= 0x1_0000,
                (v as int) < n_stars,
                seen@[v as int],
                links_within(links@, n_stars as int),
                result@.no_duplicates(),
                result@.len() > 0,
                result@[0] == start,
                forall|i: int| 0 <= i < result@.len() ==> (result@[i] as int) < n_stars,
                forall|x: u16|
                    #![trigger result@.contains(x)]
                    (x as int) < n_stars ==> (seen@[x as int] <==> result@.contains(x)),
                forall|x: int| #![trigger seen@[x]] 0 <= x < n_stars && seen@[x] ==> result@.contains(x as u16),
                stack@.no_duplicates(),
                !stack@.contains(v),
                forall|i: int|
                    #![trigger stack@[i]]
                    0 <= i < stack@.len() ==> (stack@[i] as int) < n_stars && seen@[stack@[i] as int],
                forall|x: u16|
                    #![trigger result@.contains(x)]
                    result@.contains(x) ==> connected(links@, start as int, x as int),
                forall|u: u16, w: int|
                    #![trigger result@.contains(u), adjacent(links@, u as int, w)]
                    result@.contains(u) && u != v && !stack@.contains(u) && adjacent(
                        links@,
                        u as int,
                        w,
                    ) ==> 0 <= w < n_stars && seen@[w],
                forall|j: int, w: int|
                    #![trigger joins(links@[j], v as int, w)]
                    0 <= j < k && joins(links@[j], v as int, w) ==> 0 <= w < n_stars && seen@[w],
                result@.len() <= n_stars,
                2 * (n_stars - result@.len()) + stack@.len() <= measure,
            decreases links.len() - k,
        {
            let l: Link = links[k];
            let other: Option<u16> = if l.start_idx == v {
                Some(l.end_idx)
            } else if l.end_idx == v {
                Some(l.start_idx)
            } else {
                None
            };
            if let Some(o) = other {
                if !seen[o as usize] {
                    proof {
                        lemma_distinct_below(result@, n_stars as int);
                        assert(adjacent(links@, v as int, o as int)) by {
                            assert(joins(links@[k as int], v as int, o as int));
                        }
                        lemma_connected_step(links@, start as int, v as int, o as int);
                    }
                    assert(!result@.contains(o));
                    assert(!stack@.contains(o)) by {
                        if stack@.contains(o) {
                            let i = choose|i: int| 0 <= i < stack@.len() && stack@[i] == o;
                        }
                    }
                    seen[o as usize] = true;
                    result.push(o);
                    stack.push(o);
                    proof {
                        lemma_distinct_below(result@, n_stars as int);
                    }
                }
            }
            k = k + 1;
        }
        assert forall|u: u16, w: int|
            #![trigger result@.contains(u), adjacent(links@, u as int, w)]
            result@.contains(u) && !stack@.contains(u) && adjacent(links@, u as int, w) implies 0
                <= w < n_stars && seen@[w] by {
            if u == v {
                let i = choose|i: int| 0 <= i < links@.len() && joins(links@[i], v as int, w);
            }
        }
    }
    assert forall|x: u16| #![trigger result@.contains(x)]
        connected(links@, start as int, x as int) implies result@.contains(x) by {
        let n = choose|n: nat| reachable_within(links@, start as int, x as int, n);
        lemma_closed_holds_reach(links@, result@, start as int, x as int, n);
    }
    proof {
        lemma_distinct_below(result@, n_stars as int);
    }
    result
}

/// The stars of the constellation that holds star `e`, among the first `n`.
pub open spec fn constellation(links: Seq<Link>, n: int, e: int) -> Set<int> {
    Set::new(|v: int| 0 <= v < n && connected(links, e, v))
}

/// A list of the stars of a constellation, each once, is as long as the
/// constellation has stars.
pub proof fn lemma_constellation_size(links: Seq<Link>, n: int, e: int, r: Seq<u16>)
    requires
        0 <= n <= 0x1_0000,
        r.no_duplicates(),
        forall|i: int| 0 <= i < r.len() ==> (r[i] as int) < n,
        forall|v: u16| #![trigger r.contains(v)] r.contains(v) <==> connected(links, e, v as int),
    ensures
        constellation(links, n, e).finite(),
        r.len() == constellation(links, n, e).len(),
{
    let m = r.map_values(|x: u16| x as int);
    assert(m.no_duplicates()) by {
        assert forall|i: int, j: int| 0 <= i < m.len() && 0 <= j < m.len() && i != j implies m[i]
            != m[j] by {
            assert(r[i] != r[j]);
        }
    }
    m.unique_seq_to_set();
    assert forall|v: int| m.to_set().contains(v) <==> constellation(links, n, e).contains(v) by {
        if m.to_set().contains(v) {
            let i = choose|i: int| 0 <= i < m.len() && m[i] == v;
            assert(r.contains(r[i]));
        }
        if constellation(links, n, e).contains(v) {
            let u = v as u16;
            assert(u as int == v);
            assert(r.contains(u));
            let i = choose|i: int| 0 <= i < r.len() && r[i] == u;
            assert(m[i] == v);
        }
    }
    assert(m.to_set() =~= constellation(links, n, e));
}

} // verus!
