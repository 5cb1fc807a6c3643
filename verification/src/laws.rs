//! Laws of the engine, proved once and for all: the slug round-trip, the
//! identity invariant of the store, and the idempotence of reconciliation.

use vstd::prelude::*;

use crate::manager::all_synced;
use crate::manager::catch_up_extras;
use crate::manager::changed_wrt;
use crate::manager::contains_identity;
use crate::manager::dispatch_list;
use crate::manager::find_identity;
use crate::manager::needs_push;
use crate::manager::should_notify;
use crate::manager::upsert;
use crate::manager::upsert_all;
use crate::model::AssignmentView;
use crate::model::char_match;
use crate::model::identity_eq;
use crate::model::link_matches;
use crate::model::slug_char;
use crate::model::slug_of;
use crate::model::with_synced_true;

verus! {

/// No two stored assignments share an identity.
pub open spec fn identity_unique(s: Seq<AssignmentView>) -> bool {
    forall|i: int, j: int| 0 <= i < j < s.len() ==> !identity_eq(s[i], s[j])
}

/// A link name has exactly the length of the name it derives from: slug
/// derivation substitutes character for character.
pub proof fn lemma_slug_length(n: Seq<char>)
    ensures
        slug_of(n).len() == n.len(),
{
}

/// Slug round-trip: a name always matches its own derived link name under
/// the fuzzy rule, so resolving `slug_of(n)` can recover the assignment
/// named `n`, whatever spaces, dots or slashes the name holds.
pub proof fn lemma_slug_round_trip(n: Seq<char>)
    ensures
        link_matches(n, slug_of(n)),
{
    assert forall|i: int| 0 <= i < n.len() implies char_match(n[i], slug_of(n)[i]) by {
        assert(slug_of(n)[i] == slug_char(n[i]));
    }
}

/// Every element of a filtered sequence is an element of the original.
proof fn lemma_filter_elem(s: Seq<AssignmentView>, p: spec_fn(AssignmentView) -> bool, i: int)
    requires
        0 <= i < s.filter(p).len(),
    ensures
        s.contains(s.filter(p)[i]),
    decreases s.len(),
{
    reveal(Seq::filter);
    if s.len() == 0 {
    } else {
        let d = s.drop_last();
        if p(s.last()) && i == s.filter(p).len() - 1 {
            assert(s.filter(p)[i] == s.last());
            assert(s[s.len() - 1] == s.filter(p)[i]);
        } else {
            lemma_filter_elem(d, p, i);
            let u = choose|u: int| 0 <= u < d.len() && d[u] == d.filter(p)[i];
            assert(s[u] == s.filter(p)[i]);
        }
    }
}

/// Filtering keeps distinct positions distinct, so it cannot create a
/// duplicate identity.
proof fn lemma_filter_identity_unique(s: Seq<AssignmentView>, p: spec_fn(AssignmentView) -> bool)
    requires
        identity_unique(s),
    ensures
        identity_unique(s.filter(p)),
    decreases s.len(),
{
    reveal(Seq::filter);
    if s.len() == 0 {
    } else {
        let d = s.drop_last();
        assert(identity_unique(d)) by {
            assert(forall|i: int| 0 <= i < d.len() ==> d[i] == s[i]);
        }
        lemma_filter_identity_unique(d, p);
        if p(s.last()) {
            let f = s.filter(p);
            assert forall|i: int, j: int| 0 <= i < j < f.len() implies !identity_eq(
                f[i],
                f[j],
            ) by {
                if j < f.len() - 1 {
                    assert(f[i] == d.filter(p)[i]);
                    assert(f[j] == d.filter(p)[j]);
                } else {
                    assert(f[i] == d.filter(p)[i]);
                    lemma_filter_elem(d, p, i);
                    let u = choose|u: int| 0 <= u < d.len() && d[u] == d.filter(p)[i];
                    assert(s[u] == f[i]);
                    assert(!identity_eq(s[u], s[s.len() - 1]));
                    assert(f[j] == s.last());
                }
            }
        }
    }
}

/// Identity invariant, one upsert: upserting into a store with no duplicate
/// identities leaves no duplicate identities.
pub proof fn lemma_upsert_identity_unique(s: Seq<AssignmentView>, a: AssignmentView)
    requires
        identity_unique(s),
    ensures
        identity_unique(upsert(s, a)),
{
    broadcast use vstd::seq_lib::group_filter_ensures;

    let p = |x: AssignmentView| !identity_eq(x, a);
    lemma_filter_identity_unique(s, p);
    let f = s.filter(p);
    assert forall|i: int, j: int| 0 <= i < j < f.push(a).len() implies !identity_eq(
        f.push(a)[i],
        f.push(a)[j],
    ) by {
        if j < f.len() {
            assert(f.push(a)[i] == f[i]);
            assert(f.push(a)[j] == f[j]);
        } else {
            assert(f.push(a)[j] == a);
            assert(f.push(a)[i] == f[i]);
            assert(p(f[i]));
        }
    }
}

/// Identity invariant, a whole merge: upserting any list of candidates
/// leaves no duplicate identities.
pub proof fn lemma_upsert_all_identity_unique(s: Seq<AssignmentView>, cs: Seq<AssignmentView>)
    requires
        identity_unique(s),
    ensures
        identity_unique(upsert_all(s, cs)),
    decreases cs.len(),
{
    if cs.len() == 0 {
    } else {
        lemma_upsert_identity_unique(s, cs.first());
        lemma_upsert_all_identity_unique(upsert(s, cs.first()), cs.drop_first());
    }
}

/// The catch-up pass only touches the synced flag, never an identity, so it
/// keeps the identity invariant too.
pub proof fn lemma_all_synced_identity_unique(s: Seq<AssignmentView>)
    requires
        identity_unique(s),
    ensures
        identity_unique(all_synced(s)),
{
    assert forall|i: int, j: int| 0 <= i < j < all_synced(s).len() implies !identity_eq(
        all_synced(s)[i],
        all_synced(s)[j],
    ) by {
        assert(all_synced(s)[i] == with_synced_true(s[i]));
        assert(all_synced(s)[j] == with_synced_true(s[j]));
        assert(!identity_eq(s[i], s[j]));
    }
}

/// Identity invariant, full pass: a whole reconcile (merge plus catch-up)
/// never creates a duplicate identity in the store.
pub proof fn lemma_reconcile_identity_unique(s0: Seq<AssignmentView>, cs: Seq<AssignmentView>)
    requires
        identity_unique(s0),
    ensures
        identity_unique(all_synced(upsert_all(s0, cs))),
{
    lemma_upsert_all_identity_unique(s0, cs);
    lemma_all_synced_identity_unique(upsert_all(s0, cs));
}

/// A filter whose predicate holds of no element keeps nothing.
proof fn lemma_filter_all_false(s: Seq<AssignmentView>, p: spec_fn(AssignmentView) -> bool)
    requires
        forall|i: int| 0 <= i < s.len() ==> !p(#[trigger] s[i]),
    ensures
        s.filter(p) == Seq::<AssignmentView>::empty(),
    decreases s.len(),
{
    reveal(Seq::filter);
    if s.len() == 0 {
        assert(s.filter(p) =~= Seq::<AssignmentView>::empty());
    } else {
        let d = s.drop_last();
        assert(forall|i: int| 0 <= i < d.len() ==> d[i] == s[i]);
        lemma_filter_all_false(d, p);
        assert(!p(s.last()));
    }
}

/// Idempotence, settled store: once every stored assignment is marked
/// synced and none is done, a cycle with no candidates leaves the store
/// unchanged and its catch-up pass re-queues nothing.
pub proof fn lemma_quiescent_cycle(store: Seq<AssignmentView>)
    requires
        forall|i: int|
            0 <= i < store.len() ==> (#[trigger] store[i]).synced == Option::Some(true)
                && !store[i].done,
    ensures
        upsert_all(store, Seq::<AssignmentView>::empty()) == store,
        all_synced(store) == store,
        catch_up_extras(store) == Seq::<AssignmentView>::empty(),
{
    assert(all_synced(store) =~= store) by {
        assert forall|i: int| 0 <= i < store.len() implies all_synced(store)[i] == store[i] by {
            assert(all_synced(store)[i] == with_synced_true(store[i]));
        }
    }
    lemma_filter_all_false(store, |a: AssignmentView| needs_push(a));
    assert(catch_up_extras(store) =~= Seq::<AssignmentView>::empty());
}

/// Unfolding a filter at the front instead of the back.
proof fn lemma_filter_cons(s: Seq<AssignmentView>, p: spec_fn(AssignmentView) -> bool)
    requires
        s.len() > 0,
    ensures
        s.filter(p) == (if p(s.first()) {
            seq![s.first()] + s.drop_first().filter(p)
        } else {
            s.drop_first().filter(p)
        }),
    decreases s.len(),
{
    reveal(Seq::filter);
    if s.len() == 1 {
        assert(s.drop_last() =~= Seq::<AssignmentView>::empty());
        assert(s.drop_first() =~= Seq::<AssignmentView>::empty());
        assert(s.first() == s.last());
        if p(s.first()) {
            assert(s.filter(p) =~= seq![s.first()] + s.drop_first().filter(p));
        }
    } else {
        let d = s.drop_last();
        let ddf = d.drop_first().filter(p);
        lemma_filter_cons(d, p);
        assert(d.first() == s.first());
        assert(s.drop_first() =~= d.drop_first().push(s.last()));
        crate::manager::lemma_filter_push(d.drop_first(), s.last(), p);
        if p(s.last()) {
            if p(s.first()) {
                assert(s.filter(p) =~= seq![s.first()] + s.drop_first().filter(p));
            } else {
                assert(s.filter(p) =~= s.drop_first().filter(p));
            }
        } else {
            if p(s.first()) {
                assert(s.filter(p) =~= seq![s.first()] + s.drop_first().filter(p));
            } else {
                assert(s.filter(p) =~= s.drop_first().filter(p));
            }
        }
    }
}

/// The identity search only looks at a candidate's identity, never its
/// other fields.
proof fn lemma_find_identity_congruent(
    s: Seq<AssignmentView>,
    c1: AssignmentView,
    c2: AssignmentView,
)
    requires
        identity_eq(c1, c2),
    ensures
        find_identity(s, c1) == find_identity(s, c2),
    decreases s.len(),
{
    if s.len() == 0 {
    } else {
        lemma_find_identity_congruent(s.drop_first(), c1, c2);
    }
}

/// A store with no identity match for `c` yields no identity match.
proof fn lemma_find_identity_none(s: Seq<AssignmentView>, c: AssignmentView)
    requires
        forall|u: int| 0 <= u < s.len() ==> !identity_eq(#[trigger] s[u], c),
    ensures
        find_identity(s, c) is None,
    decreases s.len(),
{
    if s.len() == 0 {
    } else {
        assert(forall|u: int| 0 <= u < s.drop_first().len() ==> s.drop_first()[u] == s[u + 1]);
        lemma_find_identity_none(s.drop_first(), c);
    }
}

/// Appending one assignment only matters to the identity search when
/// nothing matched before it.
proof fn lemma_find_identity_push(s: Seq<AssignmentView>, x: AssignmentView, c: AssignmentView)
    ensures
        find_identity(s.push(x), c) == (match find_identity(s, c) {
            Option::Some(r) => Option::Some(r),
            Option::None => if identity_eq(x, c) {
                Option::Some(x)
            } else {
                Option::None
            },
        }),
    decreases s.len(),
{
    if s.len() == 0 {
        assert(s.push(x).first() == x);
        assert(s.push(x).drop_first() =~= Seq::<AssignmentView>::empty());
    } else {
        assert(s.push(x).first() == s.first());
        assert(s.push(x).drop_first() =~= s.drop_first().push(x));
        lemma_find_identity_push(s.drop_first(), x, c);
    }
}

/// Dropping the identity class of `a` does not disturb the identity search
/// for anything outside that class.
proof fn lemma_find_identity_filter(s: Seq<AssignmentView>, a: AssignmentView, c: AssignmentView)
    requires
        !identity_eq(a, c),
    ensures
        find_identity(s.filter((|x: AssignmentView| !identity_eq(x, a))), c) == find_identity(s, c),
    decreases s.len(),
{
    let p = |x: AssignmentView| !identity_eq(x, a);
    if s.len() == 0 {
        reveal(Seq::filter);
    } else {
        lemma_filter_cons(s, p);
        let t = s.drop_first();
        lemma_find_identity_filter(t, a, c);
        if p(s.first()) {
            let f = seq![s.first()] + t.filter(p);
            assert(f.first() == s.first());
            assert(f.drop_first() =~= t.filter(p));
        } else {
            assert(!identity_eq(s.first(), c));
        }
    }
}

/// An upsert of a different identity does not disturb the identity search.
proof fn lemma_find_identity_upsert_other(
    s: Seq<AssignmentView>,
    a: AssignmentView,
    c: AssignmentView,
)
    requires
        !identity_eq(a, c),
    ensures
        find_identity(upsert(s, a), c) == find_identity(s, c),
{
    lemma_find_identity_filter(s, a, c);
    lemma_find_identity_push(s.filter((|x: AssignmentView| !identity_eq(x, a))), a, c);
}

/// Upserting a list with no identity match for `c` does not disturb the
/// identity search for `c`.
proof fn lemma_find_identity_upsert_all_other(
    s: Seq<AssignmentView>,
    cs: Seq<AssignmentView>,
    c: AssignmentView,
)
    requires
        forall|k: int| 0 <= k < cs.len() ==> !identity_eq(#[trigger] cs[k], c),
    ensures
        find_identity(upsert_all(s, cs), c) == find_identity(s, c),
    decreases cs.len(),
{
    if cs.len() == 0 {
    } else {
        assert(forall|k: int|
            0 <= k < cs.drop_first().len() ==> cs.drop_first()[k] == cs[k + 1]);
        lemma_find_identity_upsert_other(s, cs.first(), c);
        lemma_find_identity_upsert_all_other(upsert(s, cs.first()), cs.drop_first(), c);
    }
}

/// After upserting a list that holds the identity of `c`, always at the due
/// date the list gives it, the identity search finds that due date.
proof fn lemma_find_identity_upsert_all_match(
    s: Seq<AssignmentView>,
    cs: Seq<AssignmentView>,
    c: AssignmentView,
)
    requires
        exists|k: int| 0 <= k < cs.len() && identity_eq(#[trigger] cs[k], c),
        forall|k: int|
            0 <= k < cs.len() && identity_eq(#[trigger] cs[k], c) ==> cs[k].due == c.due,
    ensures
        match find_identity(upsert_all(s, cs), c) {
            Option::Some(x) => x.due == c.due,
            Option::None => false,
        },
    decreases cs.len(),
{
    broadcast use vstd::seq_lib::group_filter_ensures;

    let h = cs.first();
    let t = cs.drop_first();
    assert(forall|k: int| 0 <= k < t.len() ==> t[k] == cs[k + 1]);
    if exists|k: int| 0 <= k < t.len() && identity_eq(#[trigger] t[k], c) {
        lemma_find_identity_upsert_all_match(upsert(s, h), t, c);
    } else {
        let k = choose|k: int| 0 <= k < cs.len() && identity_eq(#[trigger] cs[k], c);
        if k >= 1 {
            assert(identity_eq(t[k - 1], c));
            assert(false);
        }
        assert(identity_eq(h, c));
        assert(h.due == c.due);
        lemma_find_identity_upsert_all_other(upsert(s, h), t, c);
        let px = |x: AssignmentView| !identity_eq(x, h);
        let f = s.filter(px);
        assert(forall|u: int| 0 <= u < f.len() ==> !identity_eq(#[trigger] f[u], c));
        lemma_find_identity_none(f, c);
        lemma_find_identity_push(f, h, c);
    }
}

/// Marking everything synced does not disturb the identity search, beyond
/// setting the flag on what it finds.
proof fn lemma_find_identity_all_synced(s: Seq<AssignmentView>, c: AssignmentView)
    ensures
        find_identity(all_synced(s), c) == (match find_identity(s, c) {
            Option::None => Option::None,
            Option::Some(x) => Option::Some(with_synced_true(x)),
        }),
    decreases s.len(),
{
    if s.len() == 0 {
        assert(all_synced(s) =~= Seq::<AssignmentView>::empty());
    } else {
        assert(all_synced(s).first() == with_synced_true(s.first()));
        assert(all_synced(s).drop_first() =~= all_synced(s.drop_first()));
        lemma_find_identity_all_synced(s.drop_first(), c);
    }
}

/// After any reconcile pass, every stored assignment is marked synced.
pub proof fn lemma_reconcile_all_synced(s: Seq<AssignmentView>)
    ensures
        forall|i: int|
            0 <= i < all_synced(s).len() ==> (#[trigger] all_synced(s)[i]).synced == Option::Some(
                true,
            ),
{
    assert forall|i: int| 0 <= i < all_synced(s).len() implies (#[trigger] all_synced(
        s,
    )[i]).synced == Option::Some(true) by {
        assert(all_synced(s)[i] == with_synced_true(s[i]));
    }
}

/// Idempotence: merging a candidate set and then reconciling the very same
/// set against the merged store finds nothing changed the second time: the
/// second changed set is empty before the catch-up pass. Candidates that
/// repeat an identity must agree on its due date; with two due dates for
/// one identity the later one wins the merge and the earlier one would
/// count as changed again.
pub proof fn lemma_reconcile_idempotent(store: Seq<AssignmentView>, cands: Seq<AssignmentView>)
    requires
        forall|i: int, j: int|
            0 <= i < cands.len() && 0 <= j < cands.len() && identity_eq(
                #[trigger] cands[i],
                #[trigger] cands[j],
            ) ==> cands[i].due == cands[j].due,
    ensures
        ({
            let ch0 = cands.filter((|c: AssignmentView| changed_wrt(store, c)));
            let store1 = all_synced(upsert_all(store, ch0));
            cands.filter((|c: AssignmentView| changed_wrt(store1, c))) == Seq::<
                AssignmentView,
            >::empty()
        }),
{
    broadcast use vstd::seq_lib::group_filter_ensures;

    let pred0 = |c: AssignmentView| changed_wrt(store, c);
    let ch0 = cands.filter(pred0);
    let merged = upsert_all(store, ch0);
    let store1 = all_synced(merged);
    assert forall|v: int| 0 <= v < cands.len() implies !changed_wrt(
        store1,
        #[trigger] cands[v],
    ) by {
        let c = cands[v];
        if changed_wrt(store, c) {
            assert(ch0.contains(c));
            assert(exists|k: int| 0 <= k < ch0.len() && identity_eq(#[trigger] ch0[k], c)) by {
                let k = choose|k: int| 0 <= k < ch0.len() && ch0[k] == c;
                assert(identity_eq(ch0[k], c));
            }
            assert forall|k: int|
                0 <= k < ch0.len() && identity_eq(#[trigger] ch0[k], c) implies ch0[k].due
                == c.due by {
                lemma_filter_elem(cands, pred0, k);
                let u = choose|u: int| 0 <= u < cands.len() && cands[u] == ch0[k];
                assert(identity_eq(cands[u], cands[v]));
            }
            lemma_find_identity_upsert_all_match(store, ch0, c);
            lemma_find_identity_all_synced(merged, c);
        } else {
            assert forall|k: int| 0 <= k < ch0.len() implies !identity_eq(
                #[trigger] ch0[k],
                c,
            ) by {
                if identity_eq(ch0[k], c) {
                    lemma_filter_elem(cands, pred0, k);
                    let u = choose|u: int| 0 <= u < cands.len() && cands[u] == ch0[k];
                    assert(identity_eq(cands[u], cands[v]));
                    assert(cands[u].due == cands[v].due);
                    assert(pred0(ch0[k]));
                    lemma_find_identity_congruent(store, ch0[k], c);
                    assert(false);
                }
            }
            lemma_find_identity_upsert_all_other(store, ch0, c);
            lemma_find_identity_all_synced(merged, c);
        }
    }
    lemma_filter_all_false(cands, |c: AssignmentView| changed_wrt(store1, c));
}

/// At most once: one cycle never dispatches two assignments of the same
/// identity, whatever the changed set holds.
pub proof fn lemma_dispatch_once_per_identity(jobs: Seq<crate::model::JobView>, s: Seq<AssignmentView>)
    ensures
        identity_unique(dispatch_list(jobs, s)),
    decreases s.len(),
{
    if s.len() == 0 {
    } else {
        let rest = dispatch_list(jobs, s.drop_last());
        lemma_dispatch_once_per_identity(jobs, s.drop_last());
        if should_notify(jobs, s.last()) && !contains_identity(rest, s.last()) {
            assert forall|i: int, j: int|
                0 <= i < j < rest.push(s.last()).len() implies !identity_eq(
                rest.push(s.last())[i],
                rest.push(s.last())[j],
            ) by {
                if j < rest.len() {
                    assert(rest.push(s.last())[i] == rest[i]);
                    assert(rest.push(s.last())[j] == rest[j]);
                } else {
                    assert(rest.push(s.last())[i] == rest[i]);
                    assert(rest.push(s.last())[j] == s.last());
                    assert(!identity_eq(rest[i], s.last()));
                }
            }
        }
    }
}

/// At least once: every changed assignment that qualifies for dispatch has
/// an identity-equal entry in what the cycle dispatches, so a never-notified
/// or completed item the catch-up pass re-queues is delivered.
pub proof fn lemma_dispatch_covers_qualifying(
    jobs: Seq<crate::model::JobView>,
    s: Seq<AssignmentView>,
)
    ensures
        forall|i: int|
            0 <= i < s.len() && should_notify(jobs, #[trigger] s[i]) ==> contains_identity(
                dispatch_list(jobs, s),
                s[i],
            ),
    decreases s.len(),
{
    if s.len() == 0 {
    } else {
        let d = s.drop_last();
        let rest = dispatch_list(jobs, d);
        lemma_dispatch_covers_qualifying(jobs, d);
        assert forall|i: int|
            0 <= i < s.len() && should_notify(jobs, #[trigger] s[i]) implies contains_identity(
            dispatch_list(jobs, s),
            s[i],
        ) by {
            if i < s.len() - 1 {
                assert(d[i] == s[i]);
                assert(contains_identity(rest, s[i]));
                let k = choose|k: int| 0 <= k < rest.len() && identity_eq(#[trigger] rest[k], s[i]);
                assert(dispatch_list(jobs, s)[k] == rest[k]);
            } else {
                if contains_identity(rest, s.last()) {
                    let k = choose|k: int|
                        0 <= k < rest.len() && identity_eq(#[trigger] rest[k], s.last());
                    assert(dispatch_list(jobs, s)[k] == rest[k]);
                } else {
                    assert(dispatch_list(jobs, s) == rest.push(s.last()));
                    assert(identity_eq(dispatch_list(jobs, s)[rest.len() as int], s.last()));
                }
            }
        }
    }
}

} // verus!
