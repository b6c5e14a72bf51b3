//! The cycle guard: one branch's dependency map, kept as one duplicate-free
//! vector of frontier positions per resolved position. Entry `p` holds every
//! position that position `p` transitively depends on under the choices made
//! so far; a choice that would put a position into its own entry is rejected.

use vstd::prelude::*;
use vstd::relations::injective;
use vstd::seq_lib::group_seq_properties;
use vstd::set_lib::{lemma_int_range, lemma_len_subset, set_int_range};

verus! {

broadcast use group_seq_properties, vstd::seq_lib::seq_to_set_is_finite, vstd::set::group_set_axioms;

/// Every element of `a` also occurs in `b`.
pub open spec fn seq_subset(a: Seq<usize>, b: Seq<usize>) -> bool {
    forall|x: usize| a.contains(x) ==> b.contains(x)
}

/// A well-formed dependency entry for position `p`: duplicate-free positions
/// below `flen`, never containing `p` itself.
pub open spec fn entry_wf(d: Seq<usize>, p: usize, flen: int) -> bool {
    &&& d.no_duplicates()
    &&& forall|x: usize| d.contains(x) ==> (x as int) < flen
    &&& !d.contains(p)
}

/// A well-formed dependency map over `flen` frontier positions, with one entry
/// per already-resolved position. Entries are transitively closed: whenever a
/// resolved position `q` occurs in entry `p`, everything `q` depends on does too.
pub open spec fn deps_wf(deps: Seq<Vec<usize>>, flen: int) -> bool {
    &&& deps.len() <= flen
    &&& forall|p: usize| (p as int) < deps.len() ==> #[trigger] entry_wf(deps[p as int]@, p, flen)
    &&& forall|p: int, q: usize|
        0 <= p < deps.len() && (q as int) < deps.len() && #[trigger] deps[p]@.contains(q)
            ==> seq_subset(deps[q as int]@, deps[p]@)
}

/// Linear membership scan.
pub fn vec_contains(v: &Vec<usize>, x: usize) -> (r: bool)
    ensures
        r == v@.contains(x),
{
    let mut i: usize = 0;
    while i < v.len()
        invariant
            i <= v@.len(),
            forall|j: int| 0 <= j < i ==> v@[j] != x,
        decreases v@.len() - i,
    {
        if v[i] == x {
            return true;
        }
        i = i + 1;
    }
    false
}

pub proof fn lemma_push_no_dup(s: Seq<usize>, c: usize)
    requires
        s.no_duplicates(),
        !s.contains(c),
    ensures
        s.push(c).no_duplicates(),
{
    assert forall|i: int, j: int|
        0 <= i < s.push(c).len() && 0 <= j < s.push(c).len() && i != j implies s.push(c)[i]
        != s.push(c)[j] by {
        if i < s.len() && j < s.len() {
        } else if i < s.len() {
            assert(s[i] == s.push(c)[i]);
        } else {
            assert(s[j] == s.push(c)[j]);
        }
    }
}

/// Adds every element of `src` that `dst` lacks; membership afterwards is the
/// union of the two memberships.
pub fn union_into(dst: &mut Vec<usize>, src: &Vec<usize>)
    requires
        old(dst)@.no_duplicates(),
    ensures
        final(dst)@.no_duplicates(),
        forall|x: usize| #[trigger]
            final(dst)@.contains(x) <==> old(dst)@.contains(x) || src@.contains(x),
{
    let mut k: usize = 0;
    while k < src.len()
        invariant
            k <= src@.len(),
            dst@.no_duplicates(),
            forall|x: usize| #[trigger]
                dst@.contains(x) <==> old(dst)@.contains(x) || src@.take(k as int).contains(x),
        decreases src@.len() - k,
    {
        let c = src[k];
        if !vec_contains(dst, c) {
            proof {
                lemma_push_no_dup(dst@, c);
            }
            dst.push(c);
        }
        proof {
            assert(src@.take(k + 1 as int) =~= src@.take(k as int).push(src@[k as int]));
        }
        k = k + 1;
    }
    proof {
        assert(src@.take(src@.len() as int) =~= src@);
    }
}

/// A duplicate-free sequence of positions all below `n` has at most `n` elements.
pub proof fn lemma_distinct_bounded(s: Seq<usize>, n: int)
    requires
        s.no_duplicates(),
        forall|x: usize| s.contains(x) ==> (x as int) < n,
        n >= 0,
    ensures
        s.len() <= n,
{
    let f = |x: usize| x as int;
    assert(injective(f));
    let t = s.map_values(f);
    s.lemma_no_duplicates_injective(f);
    t.unique_seq_to_set();
    assert(t.to_set().subset_of(set_int_range(0, n))) by {
        assert forall|z: int| t.to_set().contains(z) implies set_int_range(0, n).contains(z) by {
            let i = choose|i: int| 0 <= i < t.len() && t[i] == z;
            assert(s.contains(s[i]));
        }
    }
    lemma_int_range(0, n);
    lemma_len_subset(t.to_set(), set_int_range(0, n));
}

/// ... and if it also avoids one position `p` below `n`, at most `n - 1`.
pub proof fn lemma_distinct_bounded_excluding(s: Seq<usize>, n: int, p: usize)
    requires
        s.no_duplicates(),
        forall|x: usize| s.contains(x) ==> (x as int) < n,
        !s.contains(p),
        (p as int) < n,
        n >= 1,
    ensures
        s.len() <= n - 1,
{
    let f = |x: usize| x as int;
    assert(injective(f));
    let t = s.map_values(f);
    s.lemma_no_duplicates_injective(f);
    t.unique_seq_to_set();
    lemma_int_range(0, n);
    let range = set_int_range(0, n);
    assert(t.to_set().subset_of(range.remove(p as int))) by {
        assert forall|z: int| t.to_set().contains(z) implies range.remove(p as int).contains(z) by {
            let i = choose|i: int| 0 <= i < t.len() && t[i] == z;
            assert(s.contains(s[i]));
            assert(s[i] != p);
        }
    }
    vstd::set::axiom_set_remove_finite(range, p as int);
    lemma_len_subset(t.to_set(), range.remove(p as int));
    vstd::set::axiom_set_remove_len(range, p as int);
}

/// A duplicate-free sequence strictly contained in another (some `x` is in `b`
/// but not `a`) is strictly shorter.
pub proof fn lemma_strict_subset_len(a: Seq<usize>, b: Seq<usize>, x: usize)
    requires
        a.no_duplicates(),
        b.no_duplicates(),
        seq_subset(a, b),
        b.contains(x),
        !a.contains(x),
    ensures
        a.len() < b.len(),
{
    a.unique_seq_to_set();
    b.unique_seq_to_set();
    assert(a.to_set().subset_of(b.to_set().remove(x)));
    vstd::set::axiom_set_remove_finite(b.to_set(), x);
    lemma_len_subset(a.to_set(), b.to_set().remove(x));
    vstd::set::axiom_set_remove_len(b.to_set(), x);
}

/// Tentatively selects, for the next unresolved position (`deps.len()`), a node
/// whose children sit at the frontier positions `children`. Returns whether the
/// choice is acyclic; if so, `deps` gains the new position's transitive
/// dependency set and every entry that depended on the new position absorbs it.
/// On rejection the branch must be discarded, so `deps` is left unspecified.
pub fn record_choice(deps: &mut Vec<Vec<usize>>, children: &Vec<usize>, flen: Ghost<int>) -> (ok:
    bool)
    requires
        deps_wf(old(deps)@, flen@),
        old(deps)@.len() < flen@,
        forall|k: int| 0 <= k < children@.len() ==> (children@[k] as int) < flen@,
    ensures
        children@.len() == 0 ==> ok,
        ok ==> {
            &&& final(deps)@.len() == old(deps)@.len() + 1
            &&& deps_wf(final(deps)@, flen@)
            &&& forall|k: int|
                0 <= k < children@.len() ==> final(deps)@[old(deps)@.len() as int]@.contains(
                    children@[k],
                )
            &&& forall|p: int|
                0 <= p < old(deps)@.len() ==> seq_subset(old(deps)@[p]@, final(deps)@[p]@)
            &&& forall|p: int, k: int|
                0 <= p < old(deps)@.len() && old(deps)@[p]@.contains(
                    old(deps)@.len() as usize,
                ) && 0 <= k < children@.len() ==> final(deps)@[p]@.contains(children@[k])
        },
{
    let ghost deps0 = old(deps)@;
    let pos = deps.len();

    // Gather the direct children, duplicate-free.
    let mut t: Vec<usize> = Vec::new();
    let mut k: usize = 0;
    while k < children.len()
        invariant
            k <= children@.len(),
            t@.no_duplicates(),
            forall|x: usize| #[trigger] t@.contains(x) <==> children@.take(k as int).contains(x),
            forall|k2: int| 0 <= k2 < children@.len() ==> (children@[k2] as int) < flen@,
        decreases children@.len() - k,
    {
        let c = children[k];
        if !vec_contains(&t, c) {
            proof {
                lemma_push_no_dup(t@, c);
            }
            t.push(c);
        }
        proof {
            assert(children@.take(k + 1 as int) =~= children@.take(k as int).push(
                children@[k as int],
            ));
        }
        k = k + 1;
    }
    proof {
        assert(children@.take(children@.len() as int) =~= children@);
    }

    // Absorb the dependency sets of children that are already resolved.
    let ghost tdirect = t@;
    let mut k: usize = 0;
    while k < children.len()
        invariant
            k <= children@.len(),
            pos == deps0.len(),
            deps@ == deps0,
            deps_wf(deps0, flen@),
            t@.no_duplicates(),
            forall|x: usize| t@.contains(x) ==> (x as int) < flen@,
            forall|x: usize| tdirect.contains(x) ==> t@.contains(x),
            forall|k2: int| 0 <= k2 < children@.len() ==> t@.contains(children@[k2]),
            forall|x: usize| #[trigger]
                t@.contains(x) ==> tdirect.contains(x) || exists|k2: int|
                    0 <= k2 < k && (children@[k2] as int) < pos && deps0[children@[k2] as int]@.contains(x),
            forall|k2: int|
                0 <= k2 < k && (children@[k2] as int) < pos ==> seq_subset(
                    deps0[children@[k2] as int]@,
                    t@,
                ),
        decreases children@.len() - k,
    {
        let c = children[k];
        if c < pos {
            proof {
                assert(entry_wf(deps0[c as int]@, c, flen@));
            }
            let centry = &deps[c];
            union_into(&mut t, centry);
        }
        k = k + 1;
    }

    // The closure of the tentative entry: every resolved member's entry is inside it.
    proof {
        assert forall|c: usize| (c as int) < pos && t@.contains(c) implies seq_subset(
            deps0[c as int]@,
            t@,
        ) by {
            if tdirect.contains(c) {
                // a direct child that is already resolved was absorbed above
                let k2 = choose|k2: int|
                    0 <= k2 < children@.len() && children@.take(children@.len() as int)[k2] == c;
                assert(children@[k2] == c);
            } else {
                let k2 = choose|k2: int|
                    0 <= k2 < children@.len() && (children@[k2] as int) < pos
                        && deps0[children@[k2] as int]@.contains(c);
                // entry of children[k2] is closed, so entry of c is inside it
                assert(seq_subset(deps0[c as int]@, deps0[children@[k2] as int]@));
                assert(seq_subset(deps0[children@[k2] as int]@, t@));
            }
        }
    }

    // A choice whose closure reaches the position itself is a cycle.
    if vec_contains(&t, pos) {
        proof {
            if children@.len() == 0 {
                assert(!children@.take(children@.len() as int).contains(pos));
                assert(false);
            }
        }
        return false;
    }

    // Propagate the new entry into every entry that depends on this position.
    let ghost tfinal = t@;
    let mut p: usize = 0;
    while p < pos
        invariant
            p <= pos,
            pos == deps0.len(),
            deps@.len() == deps0.len(),
            t@ == tfinal,
            deps_wf(deps0, flen@),
            t@.no_duplicates(),
            !t@.contains(pos as usize),
            forall|x: usize| t@.contains(x) ==> (x as int) < flen@,
            forall|k2: int| 0 <= k2 < children@.len() ==> t@.contains(children@[k2]),
            forall|c: usize|
                (c as int) < pos && t@.contains(c) ==> seq_subset(deps0[c as int]@, t@),
            forall|p2: int|
                p <= p2 < deps0.len() ==> deps@[p2] == deps0[p2],
            forall|p2: int|
                0 <= p2 < p && deps0[p2]@.contains(pos as usize) ==> {
                    &&& deps@[p2]@.no_duplicates()
                    &&& !deps@[p2]@.contains(p2 as usize)
                    &&& forall|x: usize| #[trigger]
                        deps@[p2]@.contains(x) <==> deps0[p2]@.contains(x) || tfinal.contains(x)
                },
            forall|p2: int|
                0 <= p2 < p && !deps0[p2]@.contains(pos as usize) ==> deps@[p2] == deps0[p2],
        decreases pos - p,
    {
        let needs = vec_contains(&deps[p], pos);
        if needs {
            let mut merged = Vec::new();
            let entry = &deps[p];
            let mut i: usize = 0;
            while i < entry.len()
                invariant
                    i <= entry@.len(),
                    merged@ == entry@.take(i as int),
                decreases entry@.len() - i,
            {
                merged.push(entry[i]);
                proof {
                    assert(entry@.take(i + 1 as int) =~= entry@.take(i as int).push(
                        entry@[i as int],
                    ));
                }
                i = i + 1;
            }
            proof {
                assert(entry@.take(entry@.len() as int) =~= entry@);
                assert(merged@ == deps0[p as int]@);
                assert(entry_wf(deps0[p as int]@, p, flen@));
            }
            union_into(&mut merged, &t);
            if vec_contains(&merged, p) {
                // absorbing the new dependencies would make `p` depend on itself
                proof {
                    if children@.len() == 0 {
                        assert(entry_wf(deps0[p as int]@, p, flen@));
                        assert(!children@.take(children@.len() as int).contains(p));
                        assert(false);
                    }
                }
                return false;
            }
            deps.set(p, merged);
        }
        p = p + 1;
    }

    deps.push(t);

    // Re-establish well-formedness of the grown map.
    proof {
        let d = deps@;
        let n = deps0.len() as int;
        assert(d.len() == n + 1);
        assert(d[n]@ == tfinal);

        // each entry is well-formed
        assert forall|q: usize| (q as int) < d.len() implies #[trigger] entry_wf(
            d[q as int]@,
            q,
            flen@,
        ) by {
            if (q as int) == n {
            } else if deps0[q as int]@.contains(pos as usize) {
                assert(entry_wf(deps0[q as int]@, q, flen@));
            } else {
                assert(d[q as int] == deps0[q as int]);
                assert(entry_wf(deps0[q as int]@, q, flen@));
            }
        }

        // every earlier entry only grew
        assert forall|p2: int| 0 <= p2 < n implies seq_subset(deps0[p2]@, d[p2]@) by {
            if !deps0[p2]@.contains(pos as usize) {
                assert(d[p2] == deps0[p2]);
            }
        }

        // the new entry holds every direct child
        assert forall|k2: int| 0 <= k2 < children@.len() implies d[n]@.contains(
            children@[k2],
        ) by {
            assert(tfinal.contains(children@[k2]));
        }

        // entries stay transitively closed
        assert forall|a: int, b: usize|
            0 <= a < d.len() && (b as int) < d.len() && #[trigger] d[a]@.contains(b) implies
            seq_subset(d[b as int]@, d[a]@) by {
            lemma_record_closure(deps0, d, tfinal, a, b, flen@);
        }
    }
    true
}

/// The case analysis showing that absorbing the new entry keeps the map closed.
proof fn lemma_record_closure(
    deps0: Seq<Vec<usize>>,
    d: Seq<Vec<usize>>,
    t: Seq<usize>,
    a: int,
    b: usize,
    flen: int,
)
    requires
        deps_wf(deps0, flen),
        d.len() == deps0.len() + 1,
        d[deps0.len() as int]@ == t,
        t.no_duplicates(),
        !t.contains(deps0.len() as usize),
        forall|c: usize|
            (c as int) < deps0.len() && t.contains(c) ==> seq_subset(deps0[c as int]@, t),
        forall|p2: int|
            0 <= p2 < deps0.len() && deps0[p2]@.contains(deps0.len() as usize) ==> forall|x: usize| #[trigger]
                d[p2]@.contains(x) <==> deps0[p2]@.contains(x) || t.contains(x),
        forall|p2: int|
            0 <= p2 < deps0.len() && !deps0[p2]@.contains(deps0.len() as usize) ==> d[p2]
                == deps0[p2],
        0 <= a < d.len(),
        (b as int) < d.len(),
        d[a]@.contains(b),
    ensures
        seq_subset(d[b as int]@, d[a]@),
{
    let n = deps0.len() as int;
    let pos = deps0.len() as usize;
    if a == n {
        // the new entry: a resolved member's entry was absorbed and cannot have
        // grown, since growing would have required it to contain `pos`
        assert(t.contains(b));
        if (b as int) == n {
            assert(false);
        } else {
            assert(seq_subset(deps0[b as int]@, t));
            if deps0[b as int]@.contains(pos) {
                assert(t.contains(pos));
                assert(false);
            } else {
                assert(d[b as int] == deps0[b as int]);
            }
        }
    } else {
        if (b as int) == n {
            // `a` names the new position, so `a` absorbed the new entry
            assert(deps0[a]@.contains(pos) || d[a] == deps0[a]);
            if !deps0[a]@.contains(pos) {
                assert(deps0[a]@.contains(pos));
                assert(false);
            }
            assert forall|x: usize| d[b as int]@.contains(x) implies d[a]@.contains(x) by {
                assert(t.contains(x));
            }
        } else {
            // two old entries
            if deps0[a]@.contains(b) {
                assert(seq_subset(deps0[b as int]@, deps0[a]@));
                assert forall|x: usize| d[b as int]@.contains(x) implies d[a]@.contains(x) by {
                    if deps0[b as int]@.contains(x) {
                        assert(deps0[a]@.contains(x));
                        if deps0[a]@.contains(pos) {
                        } else {
                            assert(d[a] == deps0[a]);
                        }
                    } else {
                        // entry `b` grew, so it contained `pos`, hence so did `a`
                        assert(deps0[b as int]@.contains(pos));
                        assert(t.contains(x));
                        assert(deps0[a]@.contains(pos));
                    }
                }
            } else {
                // `b` is new in entry `a`: it came from the absorbed `t`
                assert(deps0[a]@.contains(pos));
                assert(t.contains(b));
                assert(seq_subset(deps0[b as int]@, t));
                if deps0[b as int]@.contains(pos) {
                    assert(t.contains(pos));
                    assert(false);
                }
                assert(d[b as int] == deps0[b as int]);
                assert forall|x: usize| d[b as int]@.contains(x) implies d[a]@.contains(x) by {
                    assert(t.contains(x));
                }
            }
        }
    }
}

} // verus!
