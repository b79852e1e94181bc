//! The mathematical model of the arena's link structure.
//!
//! A tree's records are modelled as a sequence of [`NodeData`] values
//! together with a ghost map `m` giving, for every position, the ordered
//! sequence of its children's positions. [`wf`] states the five-link
//! invariants: child links and sibling links mirror each other exactly
//! because both are forced to agree with the per-parent child chains.
//!
//! The structural operations are modelled by spec-level transformers
//! ([`detach`], [`attach_at`]) that mirror the executable surgery update by
//! update; the lemmas here prove that each transformer preserves [`wf`].

use vstd::prelude::*;

use crate::arena::NodeData;
use crate::arena::NodeIdx;

verus! {

/// A record with no parent and no siblings and no children: the state of a
/// freshly created node.
pub open spec fn detached<T>(d: NodeData<T>) -> bool {
    &&& d.parent@ is None
    &&& d.first_child@ is None
    &&& d.last_child@ is None
    &&& d.prev_sibling@ is None
    &&& d.next_sibling@ is None
}

/// All five links of `d` that are present address positions below `len`.
pub open spec fn links_bounded<T>(d: NodeData<T>, len: int) -> bool {
    &&& (d.parent@ is Some ==> d.parent@.unwrap() < len)
    &&& (d.first_child@ is Some ==> d.first_child@.unwrap() < len)
    &&& (d.last_child@ is Some ==> d.last_child@.unwrap() < len)
    &&& (d.prev_sibling@ is Some ==> d.prev_sibling@.unwrap() < len)
    &&& (d.next_sibling@ is Some ==> d.next_sibling@.unwrap() < len)
}

/// The record at chain position `q` of `cs` (the child chain of `p`) has
/// `p` as parent, its previous-sibling link addresses the chain element
/// before it (absent at the front), and its next-sibling link the element
/// after it (absent at the back).
pub open spec fn chain_entry_ok<T>(s: Seq<NodeData<T>>, p: int, cs: Seq<int>, q: int) -> bool {
    let k = cs[q];
    &&& 0 <= k < s.len()
    &&& s[k].parent@ == Some(p)
    &&& s[k].prev_sibling@ == if q == 0 {
        None::<int>
    } else {
        Some(cs[q - 1])
    }
    &&& s[k].next_sibling@ == if q == cs.len() - 1 {
        None::<int>
    } else {
        Some(cs[q + 1])
    }
}

/// `cs` is a well-formed child chain for `p`: duplicate-free, doubly linked
/// in order, and `p`'s first/last-child links are its two ends (both absent
/// when the chain is empty).
pub open spec fn chain_ok<T>(s: Seq<NodeData<T>>, p: int, cs: Seq<int>) -> bool {
    &&& cs.no_duplicates()
    &&& forall|q: int| 0 <= q < cs.len() ==> #[trigger] chain_entry_ok(s, p, cs, q)
    &&& s[p].first_child@ == if cs.len() == 0 {
        None::<int>
    } else {
        Some(cs[0])
    }
    &&& s[p].last_child@ == if cs.len() == 0 {
        None::<int>
    } else {
        Some(cs[cs.len() - 1])
    }
}

/// Per-record conditions: links are bounded, a record with a parent appears
/// in that parent's chain, and a record without a parent has no siblings.
pub open spec fn rec_ok<T>(s: Seq<NodeData<T>>, m: Map<int, Seq<int>>, k: int) -> bool {
    &&& links_bounded(s[k], s.len() as int)
    &&& (s[k].parent@ is Some ==> m[s[k].parent@.unwrap()].contains(k))
    &&& (s[k].parent@ is None ==> s[k].prev_sibling@ is None && s[k].next_sibling@ is None)
}

/// The five-link invariant set: every position has a child chain in `m`,
/// every chain is well formed, and every record is consistent with the
/// chains. A record's parent link is present exactly when the record occurs
/// (exactly once) on that parent's child chain.
pub open spec fn wf<T>(s: Seq<NodeData<T>>, m: Map<int, Seq<int>>) -> bool {
    &&& forall|p: int| m.dom().contains(p) <==> 0 <= p < s.len()
    &&& forall|p: int| 0 <= p < s.len() ==> chain_ok(s, p, #[trigger] m[p])
    &&& forall|k: int| 0 <= k < s.len() ==> #[trigger] rec_ok(s, m, k)
}

/// `d` with its parent and sibling links replaced.
pub open spec fn with_rel<T>(d: NodeData<T>, parent: NodeIdx, prev: NodeIdx, next: NodeIdx) -> NodeData<T> {
    NodeData {
        value: d.value,
        parent,
        first_child: d.first_child,
        last_child: d.last_child,
        prev_sibling: prev,
        next_sibling: next,
    }
}

/// `d` with its payload replaced.
pub open spec fn with_value<T>(d: NodeData<T>, value: T) -> NodeData<T> {
    NodeData {
        value,
        parent: d.parent,
        first_child: d.first_child,
        last_child: d.last_child,
        prev_sibling: d.prev_sibling,
        next_sibling: d.next_sibling,
    }
}

/// `d` with its child links replaced.
pub open spec fn with_children<T>(d: NodeData<T>, first_child: NodeIdx, last_child: NodeIdx) -> NodeData<T> {
    NodeData {
        value: d.value,
        parent: d.parent,
        first_child,
        last_child,
        prev_sibling: d.prev_sibling,
        next_sibling: d.next_sibling,
    }
}

/// `d` with its next-sibling link replaced.
pub open spec fn with_next<T>(d: NodeData<T>, next: NodeIdx) -> NodeData<T> {
    NodeData {
        value: d.value,
        parent: d.parent,
        first_child: d.first_child,
        last_child: d.last_child,
        prev_sibling: d.prev_sibling,
        next_sibling: next,
    }
}

/// `d` with its previous-sibling link replaced.
pub open spec fn with_prev<T>(d: NodeData<T>, prev: NodeIdx) -> NodeData<T> {
    NodeData {
        value: d.value,
        parent: d.parent,
        first_child: d.first_child,
        last_child: d.last_child,
        prev_sibling: prev,
        next_sibling: d.next_sibling,
    }
}

/// The record surgery performed by `remove`, update for update: if `i` has
/// no parent nothing changes; otherwise `i`'s relational links are cleared,
/// the former parent's child links skip `i`, and the former neighbours are
/// linked to each other.
pub open spec fn detach<T>(s: Seq<NodeData<T>>, i: int) -> Seq<NodeData<T>> {
    if s[i].parent@ is None {
        s
    } else {
        let p = s[i].parent@.unwrap();
        let pr = s[i].prev_sibling;
        let nx = s[i].next_sibling;
        let s1 = s.update(i, with_rel(s[i], NodeIdx::spec_none(), NodeIdx::spec_none(), NodeIdx::spec_none()));
        let s2 = s1.update(
            p,
            with_children(
                s1[p],
                if s1[p].first_child@ == Some(i) {
                    nx
                } else {
                    s1[p].first_child
                },
                if s1[p].last_child@ == Some(i) {
                    pr
                } else {
                    s1[p].last_child
                },
            ),
        );
        let s3 = if pr@ is Some {
            s2.update(pr@.unwrap(), with_next(s2[pr@.unwrap()], nx))
        } else {
            s2
        };
        if nx@ is Some {
            s3.update(nx@.unwrap(), with_prev(s3[nx@.unwrap()], pr))
        } else {
            s3
        }
    }
}

/// The effect of `remove` on the child chains: `i` leaves its former
/// parent's chain.
pub open spec fn detach_kids<T>(s: Seq<NodeData<T>>, m: Map<int, Seq<int>>, i: int) -> Map<int, Seq<int>> {
    if s[i].parent@ is None {
        m
    } else {
        let p = s[i].parent@.unwrap();
        m.insert(p, m[p].remove(m[p].index_of(i)))
    }
}

/// The link to the chain element left of insertion position `q` in `p`'s
/// chain, absent when inserting at the front.
pub open spec fn attach_left(m: Map<int, Seq<int>>, p: int, q: int) -> NodeIdx {
    if q == 0 {
        NodeIdx::spec_none()
    } else {
        NodeIdx::spec_at(m[p][q - 1])
    }
}

/// The link to the chain element right of insertion position `q` in `p`'s
/// chain, absent when inserting at the back.
pub open spec fn attach_right(m: Map<int, Seq<int>>, p: int, q: int) -> NodeIdx {
    if q == m[p].len() {
        NodeIdx::spec_none()
    } else {
        NodeIdx::spec_at(m[p][q])
    }
}

/// The record surgery that links a (relationally detached) record `c` into
/// `p`'s child chain between neighbours `l` and `r`: `c` gains parent `p`
/// and siblings `l`/`r`, the neighbours are relinked to `c`, and `p`'s
/// first/last-child links are set to `c` where the respective neighbour is
/// absent. All placement operations (append, prepend, both sibling
/// insertions) are instances of this with the appropriate neighbours.
pub open spec fn attach_at<T>(s: Seq<NodeData<T>>, p: int, c: int, l: NodeIdx, r: NodeIdx) -> Seq<
    NodeData<T>,
> {
    let s1 = s.update(c, with_rel(s[c], NodeIdx::spec_at(p), l, r));
    let s2 = if l@ is Some {
        s1.update(l@.unwrap(), with_next(s1[l@.unwrap()], NodeIdx::spec_at(c)))
    } else {
        s1
    };
    let s3 = if r@ is Some {
        s2.update(r@.unwrap(), with_prev(s2[r@.unwrap()], NodeIdx::spec_at(c)))
    } else {
        s2
    };
    s3.update(
        p,
        with_children(
            s3[p],
            if l@ is None {
                NodeIdx::spec_at(c)
            } else {
                s3[p].first_child
            },
            if r@ is None {
                NodeIdx::spec_at(c)
            } else {
                s3[p].last_child
            },
        ),
    )
}

/// The effect of a placement on the child chains: `c` enters `p`'s chain at
/// position `q`.
pub open spec fn attach_kids(m: Map<int, Seq<int>>, p: int, c: int, q: int) -> Map<int, Seq<int>> {
    m.insert(p, m[p].insert(q, c))
}

/// Linking a relationally detached record into a chain preserves the
/// five-link invariants; no payload changes, and no parent link other than
/// the attached node's own, so the attached node's subtree moves with it.
#[verifier::rlimit(100)]
pub proof fn lemma_attach_wf<T>(s: Seq<NodeData<T>>, m: Map<int, Seq<int>>, p: int, c: int, q: int)
    requires
        wf(s, m),
        s.len() <= usize::MAX,
        0 <= p < s.len(),
        0 <= c < s.len(),
        s[c].parent@ is None,
        s[c].prev_sibling@ is None,
        s[c].next_sibling@ is None,
        0 <= q <= m[p].len(),
    ensures
        ({
            let l = attach_left(m, p, q);
            let r = attach_right(m, p, q);
            let s2 = attach_at(s, p, c, l, r);
            let m2 = attach_kids(m, p, c, q);
            &&& wf(s2, m2)
            &&& s2.len() == s.len()
            &&& m2[p] == m[p].insert(q, c)
            &&& s2[c].parent@ == Some(p)
            &&& s2[c].prev_sibling == l
            &&& s2[c].next_sibling == r
            &&& forall|k: int| 0 <= k < s.len() ==> (#[trigger] s2[k]).value == s[k].value
            &&& forall|k: int|
                0 <= k < s.len() && k != c ==> (#[trigger] s2[k]).parent == s[k].parent
            &&& forall|k: int|
                0 <= k < s.len() && k != p ==> (#[trigger] s2[k]).first_child == s[k].first_child
                    && s2[k].last_child == s[k].last_child
            &&& forall|k: int|
                0 <= k < s.len() && k != c && l@ != Some(k) ==> (#[trigger] s2[k]).next_sibling
                    == s[k].next_sibling
            &&& forall|k: int|
                0 <= k < s.len() && k != c && r@ != Some(k) ==> (#[trigger] s2[k]).prev_sibling
                    == s[k].prev_sibling
        }),
{
    let l = attach_left(m, p, q);
    let r = attach_right(m, p, q);
    let s2 = attach_at(s, p, c, l, r);
    let m2 = attach_kids(m, p, c, q);
    let cs = m[p];
    let cs2 = cs.insert(q, c);
    cs.insert_ensures(q, c);
    assert(chain_ok(s, p, cs));
    assert(rec_ok(s, m, c));
    // c is on no chain: its parent link is absent
    assert forall|pp: int, a: int|
        0 <= pp < s.len() && 0 <= a < m[pp].len() implies #[trigger] m[pp][a] != c by {
        assert(chain_entry_ok(s, pp, m[pp], a));
    }
    if q > 0 {
        assert(chain_entry_ok(s, p, cs, q - 1));
    }
    if q < cs.len() {
        assert(chain_entry_ok(s, p, cs, q));
    }
    assert(cs2.no_duplicates()) by {
        assert forall|a: int, b: int| 0 <= a < cs2.len() && 0 <= b < cs2.len() && a != b
            implies cs2[a] != cs2[b] by {
            if a != q && b != q {
                let a0 = if a < q {
                    a
                } else {
                    a - 1
                };
                let b0 = if b < q {
                    b
                } else {
                    b - 1
                };
                assert(cs2[a] == cs[a0] && cs2[b] == cs[b0] && a0 != b0);
            }
        }
    }
    assert forall|pp: int| 0 <= pp < s2.len() implies chain_ok(s2, pp, #[trigger] m2[pp]) by {
        assert(chain_ok(s, pp, m[pp]));
        if pp == p {
            assert forall|a: int| 0 <= a < cs2.len() implies #[trigger] chain_entry_ok(
                s2,
                p,
                cs2,
                a,
            ) by {
                if a == q {
                    assert(cs2[a] == c);
                } else {
                    let a0 = if a < q {
                        a
                    } else {
                        a - 1
                    };
                    assert(cs2[a] == cs[a0]);
                    assert(chain_entry_ok(s, p, cs, a0));
                    if a0 > 0 {
                        assert(chain_entry_ok(s, p, cs, a0 - 1));
                    }
                    if a0 < cs.len() - 1 {
                        assert(chain_entry_ok(s, p, cs, a0 + 1));
                    }
                }
            }
        } else {
            assert(m2[pp] == m[pp]);
            let csp = m[pp];
            assert forall|a: int| 0 <= a < csp.len() implies #[trigger] chain_entry_ok(
                s2,
                pp,
                csp,
                a,
            ) by {
                assert(chain_entry_ok(s, pp, csp, a));
                let k = csp[a];
                assert(s[k].parent@ == Some(pp));
                assert(k != c);
            }
        }
    }
    assert forall|k: int| 0 <= k < s2.len() implies #[trigger] rec_ok(s2, m2, k) by {
        assert(rec_ok(s, m, k));
        if k == c {
            assert(cs2[q] == c);
            assert(cs2.contains(c));
        } else if s2[k].parent@ is Some {
            let pk = s2[k].parent@.unwrap();
            assert(s[k].parent@ == Some(pk));
            assert(m[pk].contains(k));
            if pk == p {
                let a0 = choose|a0: int| 0 <= a0 < cs.len() && cs[a0] == k;
                if a0 < q {
                    assert(cs2[a0] == k);
                } else {
                    assert(cs2[a0 + 1] == k);
                }
                assert(cs2.contains(k));
            }
        }
    }
    assert forall|k: int| 0 <= k < s.len() implies (#[trigger] s2[k]).value == s[k].value by {}
    assert forall|k: int| 0 <= k < s.len() && k != c implies (#[trigger] s2[k]).parent == s[
        k
    ].parent by {}
    assert forall|k: int| 0 <= k < s.len() && k != p implies (#[trigger] s2[k]).first_child == s[
        k
    ].first_child && s2[k].last_child == s[k].last_child by {}
    assert forall|k: int| 0 <= k < s.len() && k != c && l@ != Some(k) implies (
    #[trigger] s2[k]).next_sibling == s[k].next_sibling by {}
    assert forall|k: int| 0 <= k < s.len() && k != c && r@ != Some(k) implies (
    #[trigger] s2[k]).prev_sibling == s[k].prev_sibling by {}
}

/// A record without a parent is its own root.
pub proof fn lemma_parentless_rooted<T>(s: Seq<NodeData<T>>, k: int)
    requires
        0 <= k < s.len(),
        s[k].parent@ is None,
    ensures
        rooted(s, k),
{
    assert(is_root_at(s, k, 0));
}

/// A record whose parent has a terminating ancestor chain has one too.
pub proof fn lemma_rooted_from_parent<T>(s: Seq<NodeData<T>>, k: int, p: int)
    requires
        0 <= k < s.len(),
        s[k].parent@ == Some(p),
        rooted(s, p),
    ensures
        rooted(s, k),
{
    let kp = dist_to_root(s, p);
    assert(is_root_at(s, p, kp));
    lemma_up_shift(s, k, p, kp);
    assert(is_root_at(s, k, (kp + 1) as nat));
}

/// Ancestor chains survive a surgery that, outside one position `e`,
/// either keeps every parent link or clears it — provided a chain that
/// reaches `e` ends there (because `e`'s parent is now absent, or because
/// no parent link addressed `e` in the first place).
pub proof fn lemma_rooted_parents_agree<T>(
    s: Seq<NodeData<T>>,
    m: Map<int, Seq<int>>,
    s2: Seq<NodeData<T>>,
    e: int,
    k: int,
)
    requires
        wf(s, m),
        s.len() <= s2.len(),
        0 <= k < s.len(),
        rooted(s, k),
        forall|j: int|
            0 <= j < s.len() && j != e ==> (#[trigger] s2[j]).parent == s[j].parent || s2[
                j
            ].parent@ is None,
        (0 <= e < s.len() && s2[e].parent@ is None) || (forall|j: int|
            0 <= j < s.len() ==> (#[trigger] s[j]).parent@ != Some(e)),
        k != e || (0 <= e < s.len() && s2[e].parent@ is None),
    ensures
        rooted(s2, k),
    decreases dist_to_root(s, k),
{
    if k == e || s[k].parent@ is None || s2[k].parent@ is None {
        if s2[k].parent@ is None {
            lemma_parentless_rooted(s2, k);
        } else {
            // k == e is excluded unless e's parent is cleared, and a
            // parentless record keeps an absent or cleared parent link
            assert(s2[k].parent == s[k].parent || s2[k].parent@ is None);
            lemma_parentless_rooted(s2, k);
        }
    } else {
        let p = s[k].parent@.unwrap();
        assert(rec_ok(s, m, k));
        assert(p != e || (0 <= e < s.len() && s2[e].parent@ is None));
        lemma_parent_step_to_root(s, k, p);
        lemma_rooted_parents_agree(s, m, s2, e, p);
        assert(s2[k].parent@ == Some(p));
        lemma_rooted_from_parent(s2, k, p);
    }
}

/// `remove` is idempotent: detaching an already-detached record changes
/// nothing, because the first detach leaves the record without a parent.
pub proof fn lemma_detach_idempotent<T>(s: Seq<NodeData<T>>, m: Map<int, Seq<int>>, i: int)
    requires
        wf(s, m),
        0 <= i < s.len(),
    ensures
        detach(detach(s, i), i) == detach(s, i),
        detach_kids(detach(s, i), detach_kids(s, m, i), i) == detach_kids(s, m, i),
{
    if s[i].parent@ is Some {
        assert(rec_ok(s, m, i));
        assert(links_bounded(s[i], s.len() as int));
    }
    assert(detach(s, i)[i].parent@ is None);
}

/// A record with a parent sits on that parent's chain at the position
/// `index_of` reports, and the chain has no duplicates, so the position is
/// the only one.
pub proof fn lemma_chain_position<T>(s: Seq<NodeData<T>>, m: Map<int, Seq<int>>, k: int)
    requires
        wf(s, m),
        0 <= k < s.len(),
        s[k].parent@ is Some,
    ensures
        ({
            let p = s[k].parent@.unwrap();
            let q = m[p].index_of(k);
            &&& 0 <= p < s.len()
            &&& m[p].contains(k)
            &&& 0 <= q < m[p].len()
            &&& m[p][q] == k
            &&& chain_entry_ok(s, p, m[p], q)
            &&& (s[p].first_child@ == Some(k) <==> q == 0)
            &&& (s[p].last_child@ == Some(k) <==> q == m[p].len() - 1)
        }),
{
    let p = s[k].parent@.unwrap();
    assert(rec_ok(s, m, k));
    assert(chain_ok(s, p, m[p]));
    let q = m[p].index_of(k);
    assert(0 <= q < m[p].len() && m[p][q] == k);
    assert(chain_entry_ok(s, p, m[p], q));
    if m[p].len() > 0 {
        assert(chain_entry_ok(s, p, m[p], 0));
        assert(chain_entry_ok(s, p, m[p], m[p].len() - 1));
    }
}

/// Inserting a new sibling after the last child of a parent places it at
/// the end of the chain: the insertion position that `insert_next_sibling`
/// uses equals the one `append_child` uses, so the two leave identical
/// stores and chains behind (the two operations are behaviourally the
/// same on a last child).
pub proof fn lemma_insert_after_last_is_append<T>(
    s: Seq<NodeData<T>>,
    m: Map<int, Seq<int>>,
    i: int,
    c: int,
)
    requires
        wf(s, m),
        0 <= i < s.len(),
        0 <= c < s.len(),
        c != i,
        s[i].parent@ is Some,
        s[s[i].parent@.unwrap()].last_child@ == Some(i),
    ensures
        ({
            let p = s[i].parent@.unwrap();
            let dm = detach_kids(s, m, c);
            dm[p].index_of(i) + 1 == dm[p].len()
        }),
{
    let p = s[i].parent@.unwrap();
    lemma_chain_position(s, m, i);
    let cs = m[p];
    let q0 = cs.index_of(i);
    assert(q0 == cs.len() - 1);
    let dm = detach_kids(s, m, c);
    if s[c].parent@ is Some && s[c].parent@.unwrap() == p {
        // c leaves the same chain; i, still last, moves one slot left
        lemma_chain_position(s, m, c);
        let qc = cs.index_of(c);
        cs.remove_ensures(qc);
        assert(qc != q0);
        assert(dm[p] == cs.remove(qc));
        assert(dm[p][q0 - 1] == i);
        assert(dm[p].contains(i));
        let q1 = dm[p].index_of(i);
        assert(dm[p][q1] == i);
        assert(cs.no_duplicates());
        assert forall|a: int, b: int|
            0 <= a < dm[p].len() && 0 <= b < dm[p].len() && a != b implies dm[p][a] != dm[
            p
        ][b] by {
            let a0 = if a < qc {
                a
            } else {
                a + 1
            };
            let b0 = if b < qc {
                b
            } else {
                b + 1
            };
            assert(dm[p][a] == cs[a0] && dm[p][b] == cs[b0] && a0 != b0);
        }
        assert(q1 == q0 - 1);
    } else {
        assert(dm[p] == cs);
        assert(dm[p].index_of(i) == q0);
    }
}

/// The position reached from `i` after following `k` parent links, or
/// `None` once the chain has ended (by an absent parent or an out-of-range
/// link).
pub open spec fn up<T>(s: Seq<NodeData<T>>, i: int, k: nat) -> Option<int>
    decreases k,
{
    if k == 0 {
        Some(i)
    } else {
        match up(s, i, (k - 1) as nat) {
            None => None,
            Some(j) => if 0 <= j < s.len() {
                s[j].parent@
            } else {
                None
            },
        }
    }
}

/// Following `k` parent links from `i` lands on a record without a parent:
/// the ancestor chain of `i` ends at a root after exactly `k` steps.
pub open spec fn is_root_at<T>(s: Seq<NodeData<T>>, i: int, k: nat) -> bool {
    &&& up(s, i, k) is Some
    &&& 0 <= up(s, i, k).unwrap() < s.len()
    &&& s[up(s, i, k).unwrap()].parent@ is None
}

/// `i`'s ancestor chain ends at a root (it neither cycles nor leaves the
/// store): the condition under which walking parent links terminates.
pub open spec fn rooted<T>(s: Seq<NodeData<T>>, i: int) -> bool {
    exists|k: nat| is_root_at(s, i, k)
}

/// The number of parent links between `i` and its root.
pub open spec fn dist_to_root<T>(s: Seq<NodeData<T>>, i: int) -> nat {
    choose|k: nat| is_root_at(s, i, k)
}

/// Walking `k + 1` links from `i` is walking `k` links from `i`'s parent.
pub proof fn lemma_up_shift<T>(s: Seq<NodeData<T>>, i: int, p: int, k: nat)
    requires
        0 <= i < s.len(),
        s[i].parent@ == Some(p),
    ensures
        up(s, i, (k + 1) as nat) == up(s, p, k),
    decreases k,
{
    if k == 0 {
        assert(up(s, i, 0) == Some(i));
        assert(up(s, p, 0) == Some(p));
        assert(up(s, i, 1) == s[i].parent@);
    } else {
        lemma_up_shift(s, i, p, (k - 1) as nat);
        assert(up(s, i, (k + 1) as nat) == match up(s, i, k) {
            None => None,
            Some(j) => if 0 <= j < s.len() {
                s[j].parent@
            } else {
                None
            },
        });
    }
}

/// Once an ancestor chain has ended, it stays ended.
pub proof fn lemma_up_none_stays<T>(s: Seq<NodeData<T>>, i: int, k1: nat, k2: nat)
    requires
        up(s, i, k1) is None,
        k1 <= k2,
    ensures
        up(s, i, k2) is None,
    decreases k2 - k1,
{
    if k1 < k2 {
        lemma_up_none_stays(s, i, (k1 + 1) as nat, k2);
    }
}

/// An ancestor chain reaches a root after exactly one number of steps.
pub proof fn lemma_root_at_unique<T>(s: Seq<NodeData<T>>, i: int, k1: nat, k2: nat)
    requires
        is_root_at(s, i, k1),
        is_root_at(s, i, k2),
    ensures
        k1 == k2,
{
    if k1 < k2 {
        assert(up(s, i, (k1 + 1) as nat) is None);
        lemma_up_none_stays(s, i, (k1 + 1) as nat, k2);
    } else if k2 < k1 {
        assert(up(s, i, (k2 + 1) as nat) is None);
        lemma_up_none_stays(s, i, (k2 + 1) as nat, k1);
    }
}

/// Stepping to the parent takes one step off the distance to the root.
pub proof fn lemma_parent_step_to_root<T>(s: Seq<NodeData<T>>, i: int, p: int)
    requires
        rooted(s, i),
        0 <= i < s.len(),
        s[i].parent@ == Some(p),
    ensures
        rooted(s, p),
        dist_to_root(s, p) < dist_to_root(s, i),
{
    let k = dist_to_root(s, i);
    assert(is_root_at(s, i, k));
    assert(k != 0) by {
        if k == 0 {
            assert(up(s, i, 0) == Some(i));
        }
    }
    lemma_up_shift(s, i, p, (k - 1) as nat);
    assert(is_root_at(s, p, (k - 1) as nat));
    assert(rooted(s, p));
    let k2 = dist_to_root(s, p);
    assert(is_root_at(s, p, k2));
    lemma_root_at_unique(s, p, k2, (k - 1) as nat);
}

/// The empty store is well formed.
pub proof fn lemma_wf_empty<T>()
    ensures
        wf(Seq::<NodeData<T>>::empty(), Map::<int, Seq<int>>::empty()),
{
}

/// Appending a fresh, detached record (with an empty chain of its own)
/// preserves well-formedness.
pub proof fn lemma_wf_extend<T>(s: Seq<NodeData<T>>, m: Map<int, Seq<int>>, d: NodeData<T>)
    requires
        wf(s, m),
        detached(d),
    ensures
        wf(s.push(d), m.insert(s.len() as int, Seq::<int>::empty())),
{
    let s2 = s.push(d);
    let m2 = m.insert(s.len() as int, Seq::<int>::empty());
    assert forall|p: int| 0 <= p < s2.len() implies chain_ok(s2, p, #[trigger] m2[p]) by {
        if p < s.len() {
            assert(chain_ok(s, p, m[p]));
            assert forall|q: int| 0 <= q < m2[p].len() implies #[trigger] chain_entry_ok(
                s2,
                p,
                m2[p],
                q,
            ) by {
                assert(chain_entry_ok(s, p, m[p], q));
            }
        }
    }
    assert forall|k: int| 0 <= k < s2.len() implies #[trigger] rec_ok(s2, m2, k) by {
        if k < s.len() {
            assert(rec_ok(s, m, k));
        }
    }
}

/// `remove` preserves the five-link invariants, changes no payload and no
/// parent link other than the removed node's own, and leaves the removed
/// node fully detached from its former parent and siblings (its own child
/// links are kept, so its subtree moves with it).
#[verifier::rlimit(100)]
pub proof fn lemma_detach_wf<T>(s: Seq<NodeData<T>>, m: Map<int, Seq<int>>, i: int)
    requires
        wf(s, m),
        0 <= i < s.len(),
    ensures
        ({
            let s2 = detach(s, i);
            let m2 = detach_kids(s, m, i);
            &&& wf(s2, m2)
            &&& s2.len() == s.len()
            &&& s2[i].parent@ is None
            &&& s2[i].prev_sibling@ is None
            &&& s2[i].next_sibling@ is None
            &&& forall|k: int| 0 <= k < s.len() ==> (#[trigger] s2[k]).value == s[k].value
            &&& forall|k: int|
                0 <= k < s.len() && k != i ==> (#[trigger] s2[k]).parent == s[k].parent
            &&& forall|k: int|
                0 <= k < s.len() && s[i].parent@ != Some(k) ==> (#[trigger] s2[k]).first_child
                    == s[k].first_child && s2[k].last_child == s[k].last_child
            &&& forall|k: int|
                0 <= k < s.len() && k != i && s[i].prev_sibling@ != Some(k) ==> (
                #[trigger] s2[k]).next_sibling == s[k].next_sibling
            &&& forall|k: int|
                0 <= k < s.len() && k != i && s[i].next_sibling@ != Some(k) ==> (
                #[trigger] s2[k]).prev_sibling == s[k].prev_sibling
        }),
{
    let s2 = detach(s, i);
    let m2 = detach_kids(s, m, i);
    if s[i].parent@ is None {
        assert(rec_ok(s, m, i));
    } else {
        let p = s[i].parent@.unwrap();
        assert(rec_ok(s, m, i));
        let cs = m[p];
        assert(chain_ok(s, p, cs));
        assert(cs.contains(i));
        let q = cs.index_of(i);
        assert(0 <= q < cs.len() && cs[q] == i);
        assert(chain_entry_ok(s, p, cs, q));
        let cs2 = cs.remove(q);
        cs.remove_ensures(q);
        assert(m2 == m.insert(p, cs2));
        // where each neighbour of i sits in the chain
        assert(s[i].prev_sibling@ == if q == 0 {
            None::<int>
        } else {
            Some(cs[q - 1])
        });
        assert(s[i].next_sibling@ == if q == cs.len() - 1 {
            None::<int>
        } else {
            Some(cs[q + 1])
        });
        if q > 0 {
            assert(chain_entry_ok(s, p, cs, q - 1));
        }
        if q < cs.len() - 1 {
            assert(chain_entry_ok(s, p, cs, q + 1));
        }
        // the first/last-child links of p identify the chain ends
        assert(s[p].first_child@ == Some(i) <==> q == 0);
        assert(s[p].last_child@ == Some(i) <==> q == cs.len() - 1);
        // cs2 is duplicate-free
        assert(cs2.no_duplicates()) by {
            assert forall|a: int, b: int| 0 <= a < cs2.len() && 0 <= b < cs2.len() && a != b
                implies cs2[a] != cs2[b] by {
                let a0 = if a < q {
                    a
                } else {
                    a + 1
                };
                let b0 = if b < q {
                    b
                } else {
                    b + 1
                };
                assert(cs2[a] == cs[a0] && cs2[b] == cs[b0] && a0 != b0);
            }
        }
        // chains of all parents are still well formed
        assert forall|pp: int| 0 <= pp < s2.len() implies chain_ok(s2, pp, #[trigger] m2[pp]) by {
            assert(chain_ok(s, pp, m[pp]));
            if pp == p {
                assert forall|a: int| 0 <= a < cs2.len() implies #[trigger] chain_entry_ok(
                    s2,
                    p,
                    cs2,
                    a,
                ) by {
                    let a0 = if a < q {
                        a
                    } else {
                        a + 1
                    };
                    assert(cs2[a] == cs[a0]);
                    assert(chain_entry_ok(s, p, cs, a0));
                    if a0 > 0 {
                        assert(chain_entry_ok(s, p, cs, a0 - 1));
                    }
                    if a0 < cs.len() - 1 {
                        assert(chain_entry_ok(s, p, cs, a0 + 1));
                    }
                    if a > 0 {
                        assert(cs2[a - 1] == cs[if a - 1 < q {
                            a - 1
                        } else {
                            a
                        }]);
                    }
                    if a < cs2.len() - 1 {
                        assert(cs2[a + 1] == cs[if a + 1 < q {
                            a + 1
                        } else {
                            a + 2
                        }]);
                    }
                }
            } else {
                assert(m2[pp] == m[pp]);
                let csp = m[pp];
                assert forall|a: int| 0 <= a < csp.len() implies #[trigger] chain_entry_ok(
                    s2,
                    pp,
                    csp,
                    a,
                ) by {
                    assert(chain_entry_ok(s, pp, csp, a));
                    let k = csp[a];
                    // k's parent is pp, not p, so k is neither i nor one of
                    // i's chain neighbours; its relational links survive
                    assert(s[k].parent@ == Some(pp));
                    assert(k != i);
                    if q > 0 {
                        assert(s[cs[q - 1]].parent@ == Some(p));
                    }
                    if q < cs.len() - 1 {
                        assert(s[cs[q + 1]].parent@ == Some(p));
                    }
                }
            }
        }
        // every record is still consistent with the chains
        assert forall|k: int| 0 <= k < s2.len() implies #[trigger] rec_ok(s2, m2, k) by {
            assert(rec_ok(s, m, k));
            if q > 0 {
                assert(s[cs[q - 1]].parent@ == Some(p));
            }
            if q < cs.len() - 1 {
                assert(s[cs[q + 1]].parent@ == Some(p));
            }
            if k != i && s2[k].parent@ is Some {
                let pk = s2[k].parent@.unwrap();
                assert(s[k].parent@ == Some(pk));
                assert(m[pk].contains(k));
                if pk == p {
                    let a0 = choose|a0: int| 0 <= a0 < cs.len() && cs[a0] == k;
                    assert(a0 != q);
                    if a0 < q {
                        assert(cs2[a0] == k);
                    } else {
                        assert(cs2[a0 - 1] == k);
                    }
                    assert(cs2.contains(k));
                }
            }
        }
        // frame facts: which fields changed where
        assert forall|k: int| 0 <= k < s.len() implies (#[trigger] s2[k]).value == s[k].value by {}
        assert forall|k: int| 0 <= k < s.len() && k != i implies (#[trigger] s2[k]).parent == s[
            k
        ].parent by {}
        assert forall|k: int| 0 <= k < s.len() && s[i].parent@ != Some(k) implies (
        #[trigger] s2[k]).first_child == s[k].first_child && s2[k].last_child == s[
            k
        ].last_child by {}
        assert forall|k: int| 0 <= k < s.len() && k != i && s[i].prev_sibling@ != Some(k) implies (
        #[trigger] s2[k]).next_sibling == s[k].next_sibling by {}
        assert forall|k: int| 0 <= k < s.len() && k != i && s[i].next_sibling@ != Some(k) implies (
        #[trigger] s2[k]).prev_sibling == s[k].prev_sibling by {}
    }
}

} // verus!
