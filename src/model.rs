//! The mathematical model of a chain arena: a map from the identity of each
//! live handle to what its link holds, and the effect of each operation on it.

use vstd::prelude::*;

verus! {

/// Identity of a live handle: the arena slot of its link and that slot's
/// generation.
pub type LinkId = (usize, u64);

/// What the arena records for one live link.
pub ghost struct Link<T> {
    /// The chain the link belongs to: links made from one `Pass::new` share it.
    pub lineage: nat,
    /// Position in the chain; grows along `next`.
    pub order: nat,
    pub previous: Option<LinkId>,
    pub next: Option<LinkId>,
    pub data: Option<T>,
}

pub type Links<T> = Map<LinkId, Link<T>>;

/// `c` is a live link of `a`'s chain strictly between `a` and `b`.
pub open spec fn between<T>(m: Links<T>, a: LinkId, c: LinkId, b: LinkId) -> bool {
    &&& m.contains_key(c)
    &&& m[c].lineage == m[a].lineage
    &&& m[a].order < m[c].order
    &&& m[c].order < m[b].order
}

/// `a` comes right before `b` among the live links of one chain.
pub open spec fn adjacent<T>(m: Links<T>, a: LinkId, b: LinkId) -> bool {
    &&& m.contains_key(a)
    &&& m.contains_key(b)
    &&& m[a].lineage == m[b].lineage
    &&& m[a].order < m[b].order
    &&& forall|c: LinkId| !#[trigger] between(m, a, c, b)
}

/// No live link of `k`'s chain comes before `k`.
pub open spec fn is_first<T>(m: Links<T>, k: LinkId) -> bool {
    forall|c: LinkId|
        #[trigger] m.contains_key(c) && m[c].lineage == m[k].lineage ==> m[k].order <= m[c].order
}

/// No live link of `k`'s chain comes after `k`.
pub open spec fn is_last<T>(m: Links<T>, k: LinkId) -> bool {
    forall|c: LinkId|
        #[trigger] m.contains_key(c) && m[c].lineage == m[k].lineage ==> m[c].order <= m[k].order
}

/// The links of `k` agree with the order of its chain, and `k` holds the
/// value exactly when nothing follows it.
pub open spec fn link_ok<T>(m: Links<T>, k: LinkId) -> bool {
    &&& match m[k].previous {
        Some(p) => adjacent(m, p, k) && m[p].next == Some(k),
        None => is_first(m, k),
    }
    &&& match m[k].next {
        Some(n) => adjacent(m, k, n) && m[n].previous == Some(k),
        None => is_last(m, k),
    }
    &&& (m[k].data is Some <==> m[k].next is None)
}

/// Every chain is a simple doubly linked list, ordered by `order`, whose last
/// link alone holds the value.
pub open spec fn well_linked<T>(m: Links<T>) -> bool {
    &&& forall|k: LinkId| #[trigger] m.contains_key(k) ==> link_ok(m, k)
    &&& forall|a: LinkId, b: LinkId|
        #![trigger m[a].order, m[b].order]
        m.contains_key(a) && m.contains_key(b) && m[a].lineage == m[b].lineage && m[a].order
            == m[b].order ==> a == b
}

/// No live link belongs to chain `lineage`.
pub open spec fn unused_lineage<T>(m: Links<T>, lineage: nat) -> bool {
    forall|c: LinkId| #[trigger] m.contains_key(c) ==> m[c].lineage != lineage
}

/// The value `k` holds, if any.
pub open spec fn peek<T>(m: Links<T>, k: LinkId) -> Option<T> {
    m[k].data
}

/// A new chain `lineage` whose one link `k` holds `v`.
pub open spec fn created<T>(m: Links<T>, k: LinkId, lineage: nat, v: T) -> Links<T> {
    m.insert(k, Link { lineage, order: 0, previous: None, next: None, data: Some(v) })
}

/// The value of `k` replaced by `v`.
pub open spec fn updated<T>(m: Links<T>, k: LinkId, v: T) -> Links<T> {
    m.insert(k, Link { data: Some(v), ..m[k] })
}

/// The value of `k` moved into a new link `j` that follows `k`.
pub open spec fn transferred<T>(m: Links<T>, k: LinkId, j: LinkId) -> Links<T> {
    m.insert(k, Link { next: Some(j), data: None, ..m[k] }).insert(
        j,
        Link {
            lineage: m[k].lineage,
            order: m[k].order + 1,
            previous: Some(k),
            next: None,
            data: m[k].data,
        },
    )
}

/// `k` removed: a held value goes back to the link before `k`, or is
/// destroyed where there is none; an empty `k` is spliced out between its
/// neighbours.
pub open spec fn discarded<T>(m: Links<T>, k: LinkId) -> Links<T> {
    let l = m[k];
    match l.data {
        Some(v) => match l.previous {
            Some(p) => m.remove(k).insert(p, Link { next: None, data: Some(v), ..m[p] }),
            None => m.remove(k),
        },
        None => {
            let n = l.next.unwrap();
            let spliced = m.remove(k).insert(n, Link { previous: l.previous, ..m[n] });
            match l.previous {
                Some(p) => spliced.insert(p, Link { next: Some(n), ..m[p] }),
                None => spliced,
            }
        },
    }
}

/// Starting a new chain keeps the arena well linked.
pub proof fn lemma_created_well_linked<T>(m: Links<T>, k: LinkId, lineage: nat, v: T)
    requires
        well_linked(m),
        !m.contains_key(k),
        unused_lineage(m, lineage),
    ensures
        well_linked(created(m, k, lineage, v)),
{
    let m2 = created(m, k, lineage, v);
    assert(m2[k].lineage == lineage);
    assert forall|x: LinkId| #[trigger] m2.contains_key(x) implies link_ok(m2, x) by {
        if x != k {
            assert(link_ok(m, x));
            assert(m[x].lineage != lineage);
            if let Some(p) = m[x].previous {
                assert forall|c: LinkId| !#[trigger] between(m2, p, c, x) by {
                    assert(!between(m, p, c, x));
                }
            }
            if let Some(n) = m[x].next {
                assert forall|c: LinkId| !#[trigger] between(m2, x, c, n) by {
                    assert(!between(m, x, c, n));
                }
            }
        }
    }
}

/// Replacing the held value keeps the arena well linked.
pub proof fn lemma_updated_well_linked<T>(m: Links<T>, k: LinkId, v: T)
    requires
        well_linked(m),
        m.contains_key(k),
        m[k].data is Some,
    ensures
        well_linked(updated(m, k, v)),
{
    let m2 = updated(m, k, v);
    assert forall|x: LinkId| #[trigger] m2.contains_key(x) implies link_ok(m2, x) by {
        assert(link_ok(m, x));
        if let Some(p) = m[x].previous {
            assert forall|c: LinkId| !#[trigger] between(m2, p, c, x) by {
                assert(!between(m, p, c, x));
            }
        }
        if let Some(n) = m[x].next {
            assert forall|c: LinkId| !#[trigger] between(m2, x, c, n) by {
                assert(!between(m, x, c, n));
            }
        }
    }
}

/// Moving the value forward into a fresh link keeps the arena well linked.
pub proof fn lemma_transferred_well_linked<T>(m: Links<T>, k: LinkId, j: LinkId)
    requires
        well_linked(m),
        m.contains_key(k),
        m[k].data is Some,
        !m.contains_key(j),
    ensures
        well_linked(transferred(m, k, j)),
{
    let m2 = transferred(m, k, j);
    assert(link_ok(m, k));
    assert(m2[j].order == m[k].order + 1 && m2[j].lineage == m[k].lineage);
    assert(m2[k].order == m[k].order && m2[k].lineage == m[k].lineage);
    assert forall|x: LinkId| #[trigger] m2.contains_key(x) implies link_ok(m2, x) by {
        if x == j {
            assert forall|c: LinkId| !#[trigger] between(m2, k, c, j) by {
                if m2.contains_key(c) && c != j && c != k {
                    assert(m.contains_key(c));
                }
            }
            assert forall|c: LinkId|
                #[trigger] m2.contains_key(c) && m2[c].lineage == m2[j].lineage implies m2[c].order
                <= m2[j].order by {
                if c != j && c != k {
                    assert(m.contains_key(c));
                }
            }
        } else {
            assert(link_ok(m, x));
            if x != k && m[x].next is None {
                assert(m[x].lineage != m[k].lineage) by {
                    if m[x].lineage == m[k].lineage {
                        assert(m[x].order == m[k].order);
                    }
                }
            }
            if let Some(p) = m2[x].previous {
                assert(p != k && p != j) by {
                    if p == k {
                        assert(m[k].next == Some(x));
                    }
                }
                assert forall|c: LinkId| !#[trigger] between(m2, p, c, x) by {
                    assert(!between(m, p, c, x));
                    if c == j && m[x].lineage == m[k].lineage {
                        assert(m[x].order <= m[k].order);
                    }
                }
            } else {
                assert forall|c: LinkId|
                    #[trigger] m2.contains_key(c) && m2[c].lineage == m2[x].lineage implies m2[x].order
                    <= m2[c].order by {
                    if c == j {
                        assert(m[x].order <= m[k].order);
                    } else if c != k {
                        assert(m.contains_key(c));
                    }
                }
            }
            if let Some(n) = m2[x].next {
                if x != k {
                    assert(n != j);
                    assert forall|c: LinkId| !#[trigger] between(m2, x, c, n) by {
                        assert(!between(m, x, c, n));
                        if c == j && m[x].lineage == m[k].lineage {
                            assert(m[n].order <= m[k].order);
                        }
                    }
                }
            } else {
                assert forall|c: LinkId|
                    #[trigger] m2.contains_key(c) && m2[c].lineage == m2[x].lineage implies m2[c].order
                    <= m2[x].order by {
                    if c != j && c != k {
                        assert(m.contains_key(c));
                    }
                }
            }
        }
    }
    assert forall|a: LinkId, b: LinkId|
        m2.contains_key(a) && m2.contains_key(b) && m2[a].lineage == m2[b].lineage && #[trigger] m2[a].order
            == #[trigger] m2[b].order implies a == b by {
        if a == j && b != j {
            assert(m.contains_key(b));
        } else if b == j && a != j {
            assert(m.contains_key(a));
        } else if a != j && b != j {
            assert(m[a].order == m2[a].order && m[b].order == m2[b].order);
        }
    }
}

/// Removing a link keeps the arena well linked.
pub proof fn lemma_discarded_well_linked<T>(m: Links<T>, k: LinkId)
    requires
        well_linked(m),
        m.contains_key(k),
    ensures
        well_linked(discarded(m, k)),
{
    if m[k].data is Some {
        lemma_reclaimed_well_linked(m, k);
    } else {
        lemma_spliced_well_linked(m, k);
    }
    let m2 = discarded(m, k);
    assert forall|a: LinkId, b: LinkId|
        m2.contains_key(a) && m2.contains_key(b) && m2[a].lineage == m2[b].lineage && #[trigger] m2[a].order
            == #[trigger] m2[b].order implies a == b by {
        assert(m[a].order == m2[a].order && m[b].order == m2[b].order);
    }
}

proof fn lemma_discarded_keeps_rest<T>(m: Links<T>, k: LinkId)
    requires
        well_linked(m),
        m.contains_key(k),
    ensures
        forall|x: LinkId| #[trigger] discarded(m, k).contains_key(x) ==> {
            &&& m.contains_key(x)
            &&& x != k
            &&& discarded(m, k)[x].lineage == m[x].lineage
            &&& discarded(m, k)[x].order == m[x].order
        },
{
    assert(link_ok(m, k));
}

proof fn lemma_reclaimed_well_linked<T>(m: Links<T>, k: LinkId)
    requires
        well_linked(m),
        m.contains_key(k),
        m[k].data is Some,
    ensures
        forall|x: LinkId| #[trigger] discarded(m, k).contains_key(x) ==> link_ok(discarded(m, k), x),
{
    let m2 = discarded(m, k);
    assert(link_ok(m, k));
    lemma_discarded_keeps_rest(m, k);
    assert forall|x: LinkId| #[trigger] m2.contains_key(x) implies link_ok(m2, x) by {
        assert(link_ok(m, x));
        if let Some(q) = m[x].previous {
            assert(q != k) by {
                if q == k {
                    assert(m[k].next == Some(x));
                }
            }
            if Some(q) == m[k].previous {
                assert(m[q].next == Some(k));
            }
            assert(m2.contains_key(q));
            assert(m2[q].next == Some(x));
        }
        if let Some(r) = m[x].next {
            assert(r != k || m[k].previous == Some(x)) by {
                if r == k {
                    assert(m[k].previous == Some(x));
                }
            }
        }
        if m[k].previous == Some(x) {
            assert forall|c: LinkId|
                #[trigger] m2.contains_key(c) && m2[c].lineage == m2[x].lineage implies m2[c].order
                <= m2[x].order by {
                assert(m[c].order <= m[k].order);
                assert(!between(m, x, c, k));
                if m[c].order == m[k].order {
                    assert(c == k);
                }
            }
        }
        if let Some(q) = m2[x].previous {
            assert forall|c: LinkId| !#[trigger] between(m2, q, c, x) by {
                assert(!between(m, q, c, x));
            }
        }
        if let Some(r) = m2[x].next {
            assert forall|c: LinkId| !#[trigger] between(m2, x, c, r) by {
                assert(!between(m, x, c, r));
            }
        }
    }
}

proof fn lemma_spliced_well_linked<T>(m: Links<T>, k: LinkId)
    requires
        well_linked(m),
        m.contains_key(k),
        m[k].data is None,
    ensures
        forall|x: LinkId| #[trigger] discarded(m, k).contains_key(x) ==> link_ok(discarded(m, k), x),
{
    let m2 = discarded(m, k);
    assert(link_ok(m, k));
    let n = m[k].next.unwrap();
    assert(link_ok(m, n));
    if let Some(p) = m[k].previous {
        assert(link_ok(m, p));
        assert(p != n);
    }
    assert(m2[n] == Link { previous: m[k].previous, ..m[n] });
    assert forall|y: LinkId| #[trigger] m2.contains_key(y) <==> m.contains_key(y) && y != k by {}
    assert forall|y: LinkId|
        #[trigger] m2.contains_key(y) && y != n && Some(y) != m[k].previous implies m2[y] == m[y] by {}
    assert forall|x: LinkId| #[trigger] m2.contains_key(x) implies link_ok(m2, x) by {
        lemma_spliced_link_ok(m, m2, k, n, x);
    }
}

/// Links that keep their chain and position see the same links between
/// them once `k` is gone.
proof fn lemma_between_without<T>(m: Links<T>, m2: Links<T>, k: LinkId)
    requires
        forall|y: LinkId| #[trigger] m2.contains_key(y) <==> m.contains_key(y) && y != k,
        forall|y: LinkId| #[trigger] m2.contains_key(y) ==> m2[y].lineage == m[y].lineage
            && m2[y].order == m[y].order,
    ensures
        forall|a: LinkId, c: LinkId, b: LinkId|
            m2.contains_key(a) && m2.contains_key(b) ==> (#[trigger] between(m2, a, c, b) <==> (
            between(m, a, c, b) && c != k)),
{
    assert forall|a: LinkId, c: LinkId, b: LinkId|
        m2.contains_key(a) && m2.contains_key(b) implies (#[trigger] between(m2, a, c, b) <==> (
        between(m, a, c, b) && c != k)) by {
        if m2.contains_key(c) {
            assert(m2[c].lineage == m[c].lineage && m2[c].order == m[c].order);
        }
    }
}

proof fn lemma_spliced_link_ok<T>(m: Links<T>, m2: Links<T>, k: LinkId, n: LinkId, x: LinkId)
    requires
        well_linked(m),
        m.contains_key(k),
        m[k].data is None,
        m[k].next == Some(n),
        m2.contains_key(x),
        forall|y: LinkId| #[trigger] m2.contains_key(y) <==> m.contains_key(y) && y != k,
        m2[n] == (Link { previous: m[k].previous, ..m[n] }),
        m[k].previous matches Some(p) ==> m2[p] == (Link { next: Some(n), ..m[p] }),
        forall|y: LinkId|
            #[trigger] m2.contains_key(y) && y != n && Some(y) != m[k].previous ==> m2[y] == m[y],
    ensures
        link_ok(m2, x),
{
    assert(link_ok(m, k));
    assert(link_ok(m, n));
    if let Some(p) = m[k].previous {
        assert(link_ok(m, p));
    }
    assert(link_ok(m, x));
    assert forall|y: LinkId| #[trigger] m2.contains_key(y) implies m2[y].lineage == m[y].lineage
        && m2[y].order == m[y].order by {
        if let Some(p) = m[k].previous {
            if y == p {
            }
        }
    }
    lemma_between_without(m, m2, k);
    if x == n {
        lemma_spliced_successor(m, m2, k, n);
    } else {
        if let Some(q) = m[x].previous {
            assert(q != k) by {
                if q == k {
                    assert(m[k].next == Some(x));
                }
            }
            if Some(q) == m[k].previous {
                assert(m[q].next == Some(k));
            }
            assert(m2.contains_key(q));
            assert(m2[q].next == Some(x));
            assert forall|c: LinkId| !#[trigger] between(m2, q, c, x) by {
                assert(!between(m, q, c, x));
            }
        }
        if let Some(r) = m2[x].next {
            assert(m.contains_key(r) && r != k);
            if r == n {
                assert forall|c: LinkId| !#[trigger] between(m2, x, c, r) by {
                    assert(!between(m, x, c, k));
                    assert(!between(m, k, c, n));
                    if m2.contains_key(c) && m[c].lineage == m[k].lineage && m[c].order == m[k].order {
                        assert(c == k);
                    }
                }
            } else {
                assert(m2.contains_key(r));
                assert(m2[r].previous == Some(x));
                assert forall|c: LinkId| !#[trigger] between(m2, x, c, r) by {
                    assert(!between(m, x, c, r));
                }
            }
        } else {
            assert forall|c: LinkId|
                #[trigger] m2.contains_key(c) && m2[c].lineage == m2[x].lineage implies m2[c].order
                <= m2[x].order by {
                assert(m.contains_key(c));
            }
        }
        if m2[x].previous is None {
            assert forall|c: LinkId|
                #[trigger] m2.contains_key(c) && m2[c].lineage == m2[x].lineage implies m2[x].order
                <= m2[c].order by {
                assert(m.contains_key(c));
            }
        }
    }
}

proof fn lemma_spliced_successor<T>(m: Links<T>, m2: Links<T>, k: LinkId, n: LinkId)
    requires
        well_linked(m),
        m.contains_key(k),
        m[k].data is None,
        m[k].next == Some(n),
        forall|y: LinkId| #[trigger] m2.contains_key(y) <==> m.contains_key(y) && y != k,
        m2[n] == (Link { previous: m[k].previous, ..m[n] }),
        m[k].previous matches Some(p) ==> m2[p] == (Link { next: Some(n), ..m[p] }),
        forall|y: LinkId|
            #[trigger] m2.contains_key(y) && y != n && Some(y) != m[k].previous ==> m2[y] == m[y],
        forall|y: LinkId| #[trigger] m2.contains_key(y) ==> m2[y].lineage == m[y].lineage
            && m2[y].order == m[y].order,
        forall|a: LinkId, c: LinkId, b: LinkId|
            m2.contains_key(a) && m2.contains_key(b) ==> (#[trigger] between(m2, a, c, b) <==> (
            between(m, a, c, b) && c != k)),
    ensures
        link_ok(m2, n),
{
    assert(link_ok(m, k));
    assert(link_ok(m, n));
    if let Some(q) = m[k].previous {
        assert(link_ok(m, q));
        assert forall|c: LinkId| !#[trigger] between(m2, q, c, n) by {
            assert(!between(m, q, c, k));
            assert(!between(m, k, c, n));
            if m2.contains_key(c) && m[c].lineage == m[k].lineage && m[c].order == m[k].order {
                assert(c == k);
            }
        }
    } else {
        assert forall|c: LinkId|
            #[trigger] m2.contains_key(c) && m2[c].lineage == m2[n].lineage implies m2[n].order
            <= m2[c].order by {
            assert(m[k].order <= m[c].order);
            assert(!between(m, k, c, n));
            if m[c].order == m[k].order {
                assert(c == k);
            }
        }
    }
    if let Some(r) = m[n].next {
        assert(r != k && r != n && Some(r) != m[k].previous);
        assert(m2.contains_key(r));
        assert(m2[r] == m[r]);
        assert forall|c: LinkId| !#[trigger] between(m2, n, c, r) by {
            assert(!between(m, n, c, r));
        }
    } else {
        assert forall|c: LinkId|
            #[trigger] m2.contains_key(c) && m2[c].lineage == m2[n].lineage implies m2[c].order
            <= m2[n].order by {
            assert(m.contains_key(c));
        }
    }
}

/// A new chain shows the value it was made with.
pub proof fn lemma_create_then_peek<T>(m: Links<T>, k: LinkId, lineage: nat, v: T)
    ensures
        peek(created(m, k, lineage, v), k) == Some(v),
{
}

/// A value written through the holding link is the one read back.
pub proof fn lemma_update_then_peek<T>(m: Links<T>, k: LinkId, lineage: nat, v: T, w: T)
    ensures
        peek(updated(created(m, k, lineage, v), k, w), k) == Some(w),
{
}

/// After a transfer the source holds nothing and the new link holds what
/// the source held; a second transfer from the source is therefore refused.
pub proof fn lemma_transfer_moves_value<T>(m: Links<T>, a: LinkId, b: LinkId)
    requires
        well_linked(m),
        m.contains_key(a),
        m[a].data is Some,
        !m.contains_key(b),
    ensures
        peek(transferred(m, a, b), a) is None,
        peek(transferred(m, a, b), b) == peek(m, a),
{
}

/// Transferring and then discarding the new link gives back exactly the
/// arena that was there before: the source holds the value again, and each
/// such round leaves the same state.
pub proof fn lemma_transfer_then_discard_restores<T>(m: Links<T>, a: LinkId, b: LinkId)
    requires
        well_linked(m),
        m.contains_key(a),
        m[a].data is Some,
        !m.contains_key(b),
    ensures
        discarded(transferred(m, a, b), b) == m,
        peek(discarded(transferred(m, a, b), b), a) == peek(m, a),
{
    assert(link_ok(m, a));
    assert(discarded(transferred(m, a, b), b) =~= m);
}

/// Discarding the emptied source of a transfer leaves the new link holding
/// the value untouched.
pub proof fn lemma_discard_source_keeps_value<T>(m: Links<T>, a: LinkId, b: LinkId)
    requires
        well_linked(m),
        m.contains_key(a),
        m[a].data is Some,
        !m.contains_key(b),
    ensures
        discarded(transferred(m, a, b), a).contains_key(b),
        !discarded(transferred(m, a, b), a).contains_key(a),
        peek(discarded(transferred(m, a, b), a), b) == peek(m, a),
{
}

/// Splicing out an empty link between `p` and `n` links them to each other,
/// so that discarding `n` while it holds the value hands it back to `p`.
pub proof fn lemma_splice_keeps_neighbours<T>(m: Links<T>, k: LinkId, p: LinkId)
    requires
        well_linked(m),
        m.contains_key(k),
        m[k].data is None,
        m[k].previous == Some(p),
    ensures
        ({
            let n = m[k].next.unwrap();
            let m2 = discarded(m, k);
            &&& well_linked(m2)
            &&& m2.contains_key(p) && m2.contains_key(n)
            &&& m2[p].next == Some(n)
            &&& m2[n].previous == Some(p)
            &&& m[n].data is Some ==> peek(discarded(m2, n), p) == m[n].data
        }),
{
    assert(link_ok(m, k));
    lemma_discarded_well_linked(m, k);
}

/// At most one link of a chain holds the value.
pub proof fn lemma_single_holder<T>(m: Links<T>, a: LinkId, b: LinkId)
    requires
        well_linked(m),
        m.contains_key(a),
        m.contains_key(b),
        m[a].lineage == m[b].lineage,
        m[a].data is Some,
        m[b].data is Some,
    ensures
        a == b,
{
    assert(link_ok(m, a));
    assert(link_ok(m, b));
    assert(m[a].order == m[b].order);
}

/// A holding link with no link before it is the only live link of its chain:
/// discarding it destroys the value while no other handle can reach it.
pub proof fn lemma_last_holder_is_alone<T>(m: Links<T>, k: LinkId, c: LinkId)
    requires
        well_linked(m),
        m.contains_key(k),
        m[k].data is Some,
        m[k].previous is None,
        m.contains_key(c),
        m[c].lineage == m[k].lineage,
    ensures
        c == k,
        !discarded(m, k).contains_key(c),
{
    assert(link_ok(m, k));
    assert(m[c].order == m[k].order);
}

} // verus!
