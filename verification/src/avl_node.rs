//! The AVL engine for bucket trees.
//!
//! A bucket holds entries ordered by the pair `(hash, key)`: the hash is
//! the primary key, the user key's total order breaks ties. Every tree
//! keeps the AVL shape: stored heights are exact and the two subtrees of
//! any node differ in height by at most one.
//!
//! The model of a tree is a `Map<(u64, K), V>` from `(hash, key)` pairs
//! to values; every operation is specified against that map.

use vstd::prelude::*;
use crate::key::HashKey;
use core::mem;

verus! {

/// One entry of a bucket tree, carrying its subtree links and height.
pub struct HashNode<K, V> {
    pub hash_val: u64,
    pub key: K,
    pub value: V,
    pub height: usize,
    pub left: Link<K, V>,
    pub right: Link<K, V>,
}

/// A possibly empty subtree.
pub type Link<K, V> = Option<Box<HashNode<K, V>>>;

/// The bucket order: `(h1, m1)` before `(h2, m2)` lexicographically.
pub open spec fn lex_lt(h1: u64, m1: int, h2: u64, m2: int) -> bool {
    h1 < h2 || (h1 == h2 && m1 < m2)
}

/// The entries of a subtree, as a map from `(hash, key)` to value.
pub open spec fn link_map<K, V>(link: Link<K, V>) -> Map<(u64, K), V>
    decreases link,
{
    match link {
        None => Map::empty(),
        Some(n) => link_map(n.left).union_prefer_right(link_map(n.right)).insert(
            (n.hash_val, n.key),
            n.value,
        ),
    }
}

/// The height of a subtree: empty is 0, a leaf is 1.
pub open spec fn link_height<K, V>(link: Link<K, V>) -> nat
    decreases link,
{
    match link {
        None => 0nat,
        Some(n) => 1 + if link_height(n.left) >= link_height(n.right) {
            link_height(n.left)
        } else {
            link_height(n.right)
        },
    }
}

/// The number of entries in a subtree.
pub open spec fn link_size<K, V>(link: Link<K, V>) -> nat
    decreases link,
{
    match link {
        None => 0nat,
        Some(n) => 1 + link_size(n.left) + link_size(n.right),
    }
}

/// The larger of two heights.
pub open spec fn spec_max(a: nat, b: nat) -> nat {
    if a >= b {
        a
    } else {
        b
    }
}

/// Whether a pair sits strictly before a node in the bucket order.
pub open spec fn pair_below<K: HashKey, V>(p: (u64, K), n: HashNode<K, V>) -> bool {
    lex_lt(p.0, p.1.model(), n.hash_val, n.key.model())
}

/// Whether a pair sits strictly after a node in the bucket order.
pub open spec fn pair_above<K: HashKey, V>(p: (u64, K), n: HashNode<K, V>) -> bool {
    lex_lt(n.hash_val, n.key.model(), p.0, p.1.model())
}

/// Well-formedness of a subtree: search order over `(hash, key)`, exact
/// stored heights, and the AVL balance bound at every node.
pub open spec fn link_wf<K: HashKey, V>(link: Link<K, V>) -> bool
    decreases link,
{
    match link {
        None => true,
        Some(n) => {
            &&& (forall|p: (u64, K)| #[trigger]
                link_map(n.left).contains_key(p) ==> pair_below(p, *n))
            &&& (forall|p: (u64, K)| #[trigger]
                link_map(n.right).contains_key(p) ==> pair_above(p, *n))
            &&& link_wf(n.left)
            &&& link_wf(n.right)
            &&& link_height(n.left) <= link_height(n.right) + 1
            &&& link_height(n.right) <= link_height(n.left) + 1
            &&& n.height == link_height(link)
        },
    }
}

/// Whether two subtrees have the same nodes in the same places, values
/// aside: equal hashes, keys and stored heights throughout.
pub open spec fn same_shape<K, V>(a: Link<K, V>, b: Link<K, V>) -> bool
    decreases a,
{
    match (a, b) {
        (None, None) => true,
        (Some(x), Some(y)) => x.hash_val == y.hash_val && x.key == y.key && x.height == y.height
            && same_shape(x.left, y.left) && same_shape(x.right, y.right),
        _ => false,
    }
}

/// The entries of a subtree in search order: left subtree, node, right
/// subtree.
pub open spec fn link_seq<K, V>(link: Link<K, V>) -> Seq<((u64, K), V)>
    decreases link,
{
    match link {
        None => Seq::empty(),
        Some(n) => link_seq(n.left) + seq![((n.hash_val, n.key), n.value)] + link_seq(n.right),
    }
}

/// The in-order sequence of a well-formed subtree enumerates its map:
/// one element per entry, strictly ascending in the bucket order.
pub proof fn lemma_link_seq<K: HashKey, V>(link: Link<K, V>)
    requires
        link_wf(link),
    ensures
        link_seq(link).len() == link_size(link),
        forall|i: int|
            0 <= i < link_seq(link).len() ==> #[trigger] link_map(link).contains_key(
                link_seq(link)[i].0,
            ) && link_map(link)[link_seq(link)[i].0] == link_seq(link)[i].1,
        forall|i: int, j: int|
            0 <= i < j < link_seq(link).len() ==> lex_lt(
                link_seq(link)[i].0.0,
                link_seq(link)[i].0.1.model(),
                link_seq(link)[j].0.0,
                link_seq(link)[j].0.1.model(),
            ),
        forall|p: (u64, K)| #[trigger]
            link_map(link).contains_key(p) ==> exists|i: int|
                0 <= i < link_seq(link).len() && link_seq(link)[i].0 == p,
    decreases link,
{
    match link {
        None => {
            assert(link_seq(link) =~= Seq::<((u64, K), V)>::empty());
        },
        Some(n) => {
            lemma_link_seq(n.left);
            lemma_link_seq(n.right);
            let ls = link_seq(n.left);
            let rs = link_seq(n.right);
            let s = link_seq(link);
            let mid = ((n.hash_val, n.key), n.value);
            let lm = link_map(n.left);
            let rm = link_map(n.right);
            assert forall|i: int| 0 <= i < s.len() implies #[trigger] link_map(link).contains_key(
                s[i].0,
            ) && link_map(link)[s[i].0] == s[i].1 by {
                if i < ls.len() {
                    assert(s[i] == ls[i]);
                    assert(lm.contains_key(ls[i].0));
                    assert(pair_below(ls[i].0, *n));
                    assert(!rm.contains_key(ls[i].0));
                } else if i == ls.len() {
                    assert(s[i] == mid);
                } else {
                    assert(s[i] == rs[i - ls.len() - 1]);
                    assert(rm.contains_key(s[i].0));
                    assert(pair_above(s[i].0, *n));
                }
            }
            assert forall|i: int, j: int| 0 <= i < j < s.len() implies lex_lt(
                s[i].0.0,
                s[i].0.1.model(),
                s[j].0.0,
                s[j].0.1.model(),
            ) by {
                if i < ls.len() {
                    assert(s[i] == ls[i]);
                    assert(lm.contains_key(ls[i].0));
                    assert(pair_below(ls[i].0, *n));
                }
                if j < ls.len() {
                    assert(s[j] == ls[j]);
                }
                if i > ls.len() {
                    assert(s[i] == rs[i - ls.len() - 1]);
                }
                if j > ls.len() {
                    assert(s[j] == rs[j - ls.len() - 1]);
                    assert(rm.contains_key(rs[j - ls.len() - 1].0));
                    assert(pair_above(s[j].0, *n));
                }
            }
            assert forall|p: (u64, K)| #[trigger] link_map(link).contains_key(p) implies exists|
                i: int,
            | 0 <= i < s.len() && s[i].0 == p by {
                if p == (n.hash_val, n.key) {
                    assert(s[ls.len() as int].0 == p);
                } else if lm.contains_key(p) {
                    let i = choose|i: int| 0 <= i < ls.len() && ls[i].0 == p;
                    assert(s[i].0 == p);
                } else {
                    assert(rm.contains_key(p));
                    let i = choose|i: int| 0 <= i < rs.len() && rs[i].0 == p;
                    assert(s[ls.len() + 1 + i].0 == p);
                }
            }
        },
    }
}

/// A well-formed subtree's map is finite, has as many entries as the
/// tree has nodes, and the tree is no taller than its size.
pub proof fn lemma_link_counts<K: HashKey, V>(link: Link<K, V>)
    requires
        link_wf(link),
    ensures
        link_map(link).dom().finite(),
        link_map(link).dom().len() == link_size(link),
        link_height(link) <= link_size(link),
    decreases link,
{
    match link {
        None => {
            assert(link_map(link) =~= Map::<(u64, K), V>::empty());
        },
        Some(n) => {
            lemma_link_counts(n.left);
            lemma_link_counts(n.right);
            let lm = link_map(n.left);
            let rm = link_map(n.right);
            let u = lm.union_prefer_right(rm);
            assert(u.dom() =~= lm.dom() + rm.dom());
            assert(lm.dom().disjoint(rm.dom())) by {
                assert forall|p: (u64, K)| !(lm.dom().contains(p) && rm.dom().contains(p)) by {
                    if lm.contains_key(p) && rm.contains_key(p) {
                        assert(pair_below(p, *n));
                        assert(pair_above(p, *n));
                    }
                }
            }
            vstd::set_lib::lemma_set_disjoint_lens(lm.dom(), rm.dom());
            assert(!u.dom().contains((n.hash_val, n.key))) by {
                if lm.contains_key((n.hash_val, n.key)) {
                    assert(pair_below((n.hash_val, n.key), *n));
                }
                if rm.contains_key((n.hash_val, n.key)) {
                    assert(pair_above((n.hash_val, n.key), *n));
                }
            }
            assert(link_map(link).dom() =~= u.dom().insert((n.hash_val, n.key)));
        },
    }
}

/// Reads the stored height of a subtree.
fn height_of<K: HashKey, V>(link: &Link<K, V>) -> (h: usize)
    requires
        link_wf(*link),
    ensures
        h == link_height(*link),
{
    match link {
        None => 0,
        Some(n) => n.height,
    }
}

/// The larger of two lengths.
fn max_usize(a: usize, b: usize) -> (r: usize)
    ensures
        r == if a >= b {
            a
        } else {
            b
        },
{
    if a >= b {
        a
    } else {
        b
    }
}

impl<K: HashKey, V> HashNode<K, V> {
    /// Builds a node over two subtrees, recomputing the stored height.
    fn join(left: Link<K, V>, hash_val: u64, key: K, value: V, right: Link<K, V>) -> (r: Box<
        HashNode<K, V>,
    >)
        requires
            link_wf(left),
            link_wf(right),
            forall|p: (u64, K)| #[trigger]
                link_map(left).contains_key(p) ==> lex_lt(p.0, p.1.model(), hash_val, key.model()),
            forall|p: (u64, K)| #[trigger]
                link_map(right).contains_key(p) ==> lex_lt(hash_val, key.model(), p.0, p.1.model()),
            link_height(left) <= link_height(right) + 1,
            link_height(right) <= link_height(left) + 1,
            link_height(left) < usize::MAX,
            link_height(right) < usize::MAX,
        ensures
            link_wf(Some(r)),
            link_map(Some(r)) == link_map(left).union_prefer_right(link_map(right)).insert(
                (hash_val, key),
                value,
            ),
            link_height(Some(r)) == 1 + if link_height(left) >= link_height(right) {
                link_height(left)
            } else {
                link_height(right)
            },
            link_size(Some(r)) == link_size(left) + link_size(right) + 1,
            r.hash_val == hash_val,
            r.key == key,
    {
        let lh: usize = height_of(&left);
        let rh: usize = height_of(&right);
        let height: usize = 1 + max_usize(lh, rh);
        Box::new(HashNode { hash_val, key, value, height, left, right })
    }

    /// Rebuilds a node whose left subtree has become exactly two levels
    /// taller than its right one: a single or double right rotation.
    fn rebuild_left_heavy(l: Box<HashNode<K, V>>, ph: u64, pk: K, pv: V, pr: Link<K, V>) -> (r:
        Box<HashNode<K, V>>)
        requires
            link_wf(Some(l)),
            link_wf(pr),
            forall|p: (u64, K)| #[trigger]
                link_map(Some(l)).contains_key(p) ==> lex_lt(p.0, p.1.model(), ph, pk.model()),
            forall|p: (u64, K)| #[trigger]
                link_map(pr).contains_key(p) ==> lex_lt(ph, pk.model(), p.0, p.1.model()),
            link_height(Some(l)) == link_height(pr) + 2,
            link_height(Some(l)) < usize::MAX,
        ensures
            link_wf(Some(r)),
            link_map(Some(r)) == link_map(Some(l)).union_prefer_right(link_map(pr)).insert(
                (ph, pk),
                pv,
            ),
            link_size(Some(r)) == link_size(Some(l)) + link_size(pr) + 1,
            link_height(Some(r)) == link_height(Some(l)) || link_height(Some(r)) == link_height(
                Some(l),
            ) + 1,
    {
        let ghost orig_map = link_map(Some(l)).union_prefer_right(link_map(pr)).insert(
            (ph, pk),
            pv,
        );
        proof {
            assert(link_map(Some(l)).contains_key((l.hash_val, l.key)));
        }
        let HashNode { hash_val: lhh, key: lk, value: lv, height: _, left: ll, right: lr } = *l;
        let llh = height_of(&ll);
        let lrh = height_of(&lr);
        proof {
            assert(link_size(Some(l)) == 1 + link_size(ll) + link_size(lr));
            assert(link_height(Some(l)) == 1 + spec_max(link_height(ll), link_height(lr)));
            assert forall|p: (u64, K)| #[trigger]
                link_map(lr).contains_key(p) implies lex_lt(p.0, p.1.model(), ph, pk.model()) by {
                assert(link_map(Some(l)).contains_key(p));
            }
        }
        if llh >= lrh {
            let newp = Self::join(lr, ph, pk, pv, pr);
            let res = Self::join(ll, lhh, lk, lv, Some(newp));
            proof {
                assert(link_map(Some(res)) =~= orig_map);
            }
            res
        } else {
            let c = lr.unwrap();
            proof {
                assert(lr == Some(c));
                assert(link_wf(Some(c)));
                assert(link_wf(c.left));
                assert(link_wf(c.right));
                assert(link_map(lr).contains_key((c.hash_val, c.key)));
                assert(link_map(Some(l)).contains_key((c.hash_val, c.key)));
            }
            let HashNode { hash_val: ch, key: ck, value: cv, height: _, left: cl, right: cr } = *c;
            proof {
                assert(lex_lt(lhh, lk.model(), ch, ck.model()));
                assert(lex_lt(ch, ck.model(), ph, pk.model()));
                assert forall|p: (u64, K)| #[trigger]
                    link_map(cl).contains_key(p) implies lex_lt(p.0, p.1.model(), ch, ck.model())
                    && lex_lt(lhh, lk.model(), p.0, p.1.model()) by {
                    assert(link_map(lr).contains_key(p));
                }
                assert forall|p: (u64, K)| #[trigger]
                    link_map(cr).contains_key(p) implies lex_lt(ch, ck.model(), p.0, p.1.model())
                    && lex_lt(p.0, p.1.model(), ph, pk.model()) by {
                    assert(link_map(lr).contains_key(p));
                }
            }
            let newl = Self::join(ll, lhh, lk, lv, cl);
            let newp = Self::join(cr, ph, pk, pv, pr);
            proof {
                assert forall|p: (u64, K)| #[trigger]
                    link_map(Some(newl)).contains_key(p) implies lex_lt(
                    p.0,
                    p.1.model(),
                    ch,
                    ck.model(),
                ) by {
                    if link_map(ll).contains_key(p) {
                        assert(lex_lt(p.0, p.1.model(), lhh, lk.model()));
                    }
                }
                assert forall|p: (u64, K)| #[trigger]
                    link_map(Some(newp)).contains_key(p) implies lex_lt(
                    ch,
                    ck.model(),
                    p.0,
                    p.1.model(),
                ) by {
                    if link_map(pr).contains_key(p) {
                        assert(lex_lt(ph, pk.model(), p.0, p.1.model()));
                    }
                }
            }
            let res = Self::join(Some(newl), ch, ck, cv, Some(newp));
            proof {
                assert(link_map(Some(res)) =~= orig_map);
            }
            res
        }
    }

    /// Rebuilds a node whose right subtree has become exactly two
    /// levels taller than its left one: the mirror rotations.
    fn rebuild_right_heavy(pl: Link<K, V>, ph: u64, pk: K, pv: V, r0: Box<HashNode<K, V>>) -> (r:
        Box<HashNode<K, V>>)
        requires
            link_wf(pl),
            link_wf(Some(r0)),
            forall|p: (u64, K)| #[trigger]
                link_map(pl).contains_key(p) ==> lex_lt(p.0, p.1.model(), ph, pk.model()),
            forall|p: (u64, K)| #[trigger]
                link_map(Some(r0)).contains_key(p) ==> lex_lt(ph, pk.model(), p.0, p.1.model()),
            link_height(Some(r0)) == link_height(pl) + 2,
            link_height(Some(r0)) < usize::MAX,
        ensures
            link_wf(Some(r)),
            link_map(Some(r)) == link_map(pl).union_prefer_right(link_map(Some(r0))).insert(
                (ph, pk),
                pv,
            ),
            link_size(Some(r)) == link_size(pl) + link_size(Some(r0)) + 1,
            link_height(Some(r)) == link_height(Some(r0)) || link_height(Some(r)) == link_height(
                Some(r0),
            ) + 1,
    {
        let ghost orig_map = link_map(pl).union_prefer_right(link_map(Some(r0))).insert(
            (ph, pk),
            pv,
        );
        proof {
            assert(link_map(Some(r0)).contains_key((r0.hash_val, r0.key)));
        }
        let HashNode { hash_val: rhh, key: rk, value: rv, height: _, left: rl, right: rr } = *r0;
        let rlh = height_of(&rl);
        let rrh = height_of(&rr);
        proof {
            assert(link_size(Some(r0)) == 1 + link_size(rl) + link_size(rr));
            assert(link_height(Some(r0)) == 1 + spec_max(link_height(rl), link_height(rr)));
            assert forall|p: (u64, K)| #[trigger]
                link_map(rl).contains_key(p) implies lex_lt(ph, pk.model(), p.0, p.1.model()) by {
                assert(link_map(Some(r0)).contains_key(p));
            }
        }
        if rrh >= rlh {
            let newp = Self::join(pl, ph, pk, pv, rl);
            let res = Self::join(Some(newp), rhh, rk, rv, rr);
            proof {
                assert(link_map(Some(res)) =~= orig_map);
            }
            res
        } else {
            let c = rl.unwrap();
            proof {
                assert(rl == Some(c));
                assert(link_wf(Some(c)));
                assert(link_wf(c.left));
                assert(link_wf(c.right));
                assert(link_map(rl).contains_key((c.hash_val, c.key)));
                assert(link_map(Some(r0)).contains_key((c.hash_val, c.key)));
            }
            let HashNode { hash_val: ch, key: ck, value: cv, height: _, left: cl, right: cr } = *c;
            proof {
                assert(lex_lt(ch, ck.model(), rhh, rk.model()));
                assert(lex_lt(ph, pk.model(), ch, ck.model()));
                assert forall|p: (u64, K)| #[trigger]
                    link_map(cl).contains_key(p) implies lex_lt(p.0, p.1.model(), ch, ck.model())
                    && lex_lt(ph, pk.model(), p.0, p.1.model()) by {
                    assert(link_map(rl).contains_key(p));
                }
                assert forall|p: (u64, K)| #[trigger]
                    link_map(cr).contains_key(p) implies lex_lt(ch, ck.model(), p.0, p.1.model())
                    && lex_lt(p.0, p.1.model(), rhh, rk.model()) by {
                    assert(link_map(rl).contains_key(p));
                }
            }
            let newp = Self::join(pl, ph, pk, pv, cl);
            let newr = Self::join(cr, rhh, rk, rv, rr);
            proof {
                assert forall|p: (u64, K)| #[trigger]
                    link_map(Some(newp)).contains_key(p) implies lex_lt(
                    p.0,
                    p.1.model(),
                    ch,
                    ck.model(),
                ) by {
                    if link_map(pl).contains_key(p) {
                        assert(lex_lt(p.0, p.1.model(), ph, pk.model()));
                    }
                }
                assert forall|p: (u64, K)| #[trigger]
                    link_map(Some(newr)).contains_key(p) implies lex_lt(
                    ch,
                    ck.model(),
                    p.0,
                    p.1.model(),
                ) by {
                    if link_map(rr).contains_key(p) {
                        assert(lex_lt(rhh, rk.model(), p.0, p.1.model()));
                    }
                }
            }
            let res = Self::join(Some(newp), ch, ck, cv, Some(newr));
            proof {
                assert(link_map(Some(res)) =~= orig_map);
            }
            res
        }
    }

    /// Restores the AVL shape at a node whose subtrees are well formed
    /// and differ in height by at most two, as after one insertion or
    /// one removal below it. The stored height of `node` itself may be
    /// stale; everything is recomputed.
    fn fix(node: Box<HashNode<K, V>>) -> (r: Box<HashNode<K, V>>)
        requires
            link_wf(node.left),
            link_wf(node.right),
            forall|p: (u64, K)| #[trigger]
                link_map(node.left).contains_key(p) ==> pair_below(p, *node),
            forall|p: (u64, K)| #[trigger]
                link_map(node.right).contains_key(p) ==> pair_above(p, *node),
            link_height(node.left) <= link_height(node.right) + 2,
            link_height(node.right) <= link_height(node.left) + 2,
            link_height(node.left) < usize::MAX,
            link_height(node.right) < usize::MAX,
        ensures
            link_wf(Some(r)),
            link_map(Some(r)) == link_map(node.left).union_prefer_right(
                link_map(node.right),
            ).insert((node.hash_val, node.key), node.value),
            link_size(Some(r)) == link_size(node.left) + link_size(node.right) + 1,
            link_height(Some(r)) <= 1 + spec_max(link_height(node.left), link_height(node.right)),
            link_height(Some(r)) + 1 >= 1 + spec_max(
                link_height(node.left),
                link_height(node.right),
            ),
            (link_height(node.left) <= link_height(node.right) + 1 && link_height(node.right)
                <= link_height(node.left) + 1) ==> link_height(Some(r)) == 1 + spec_max(
                link_height(node.left),
                link_height(node.right),
            ),
    {
        let lh = height_of(&node.left);
        let rh = height_of(&node.right);
        let HashNode { hash_val: ph, key: pk, value: pv, height: _, left: pl, right: pr } = *node;
        if lh > rh + 1 {
            Self::rebuild_left_heavy(pl.unwrap(), ph, pk, pv, pr)
        } else if rh > lh + 1 {
            Self::rebuild_right_heavy(pl, ph, pk, pv, pr.unwrap())
        } else {
            Self::join(pl, ph, pk, pv, pr)
        }
    }

    /// Inserts `(hash, key) -> value` into a subtree, rebalancing on the
    /// way back up. On a collision the new key and value replace the old
    /// ones in place and the old pair comes back out.
    pub fn link_insert(link: &mut Link<K, V>, h: u64, key: K, value: V) -> (r: Option<(K, V)>)
        requires
            link_wf(*old(link)),
            link_height(*old(link)) < usize::MAX,
        ensures
            link_wf(*final(link)),
            link_map(*final(link)) == link_map(*old(link)).insert((h, key), value),
            r == (if link_map(*old(link)).contains_key((h, key)) {
                Some((key, link_map(*old(link))[(h, key)]))
            } else {
                None::<(K, V)>
            }),
            link_map(*old(link)).contains_key((h, key)) ==> link_size(*final(link)) == link_size(
                *old(link),
            ) && link_height(*final(link)) == link_height(*old(link)),
            !link_map(*old(link)).contains_key((h, key)) ==> link_size(*final(link)) == link_size(
                *old(link),
            ) + 1 && (link_height(*final(link)) == link_height(*old(link)) || link_height(
                *final(link),
            ) == link_height(*old(link)) + 1),
        decreases *old(link),
    {
        match link.take() {
            None => {
                *link = Some(
                    Box::new(HashNode { hash_val: h, key, value, height: 1, left: None, right: None }),
                );
                proof {
                    assert(link_map(*link) =~= link_map(*old(link)).insert((h, key), value));
                }
                None
            },
            Some(mut node) => {
                proof {
                    assert(*old(link) == Some(node));
                }
                if h < node.hash_val || (h == node.hash_val && key.key_lt(&node.key)) {
                    proof {
                        assert(!link_map(node.right).contains_key((h, key)));
                        assert((h, key) != (node.hash_val, node.key));
                        assert(link_map(*old(link)).contains_key((h, key)) == link_map(
                            node.left,
                        ).contains_key((h, key)));
                    }
                    let r = Self::link_insert(&mut node.left, h, key, value);
                    let fixed = Self::fix(node);
                    *link = Some(fixed);
                    proof {
                        assert(link_map(*link) =~= link_map(*old(link)).insert((h, key), value));
                    }
                    r
                } else if h == node.hash_val && key.key_eq(&node.key) {
                    proof {
                        K::lemma_model_injective(key, node.key);
                        assert(key == node.key);
                        assert(link_map(*old(link)).contains_key((h, key)));
                    }
                    let mut old_key = key;
                    let mut old_value = value;
                    mem::swap(&mut old_key, &mut node.key);
                    mem::swap(&mut old_value, &mut node.value);
                    *link = Some(node);
                    proof {
                        assert(!link_map(node.left).contains_key((h, key)));
                        assert(!link_map(node.right).contains_key((h, key)));
                        assert(link_map(*link) =~= link_map(*old(link)).insert((h, key), value));
                        assert(link_map(*old(link))[(h, key)] == old_value);
                    }
                    Some((old_key, old_value))
                } else {
                    proof {
                        assert(!link_map(node.left).contains_key((h, key)));
                        if (h, key) == (node.hash_val, node.key) {
                            assert(key.model() == node.key.model());
                        }
                        assert((h, key) != (node.hash_val, node.key));
                        assert(lex_lt(node.hash_val, node.key.model(), h, key.model()));
                        assert(link_map(*old(link)).contains_key((h, key)) == link_map(
                            node.right,
                        ).contains_key((h, key)));
                    }
                    let r = Self::link_insert(&mut node.right, h, key, value);
                    let fixed = Self::fix(node);
                    *link = Some(fixed);
                    proof {
                        assert(link_map(*link) =~= link_map(*old(link)).insert((h, key), value));
                    }
                    r
                }
            },
        }
    }

    /// Detaches the least entry of a non-empty subtree.
    pub fn link_remove_min(link: &mut Link<K, V>) -> (min: (u64, K, V))
        requires
            link_wf(*old(link)),
            *old(link) is Some,
        ensures
            link_wf(*final(link)),
            link_map(*old(link)).contains_key((min.0, min.1)),
            link_map(*old(link))[(min.0, min.1)] == min.2,
            link_map(*final(link)) == link_map(*old(link)).remove((min.0, min.1)),
            forall|p: (u64, K)| #[trigger]
                link_map(*final(link)).contains_key(p) ==> lex_lt(min.0, min.1.model(), p.0, p.1.model()),
            link_size(*final(link)) + 1 == link_size(*old(link)),
            link_height(*final(link)) == link_height(*old(link)) || link_height(*final(link)) + 1
                == link_height(*old(link)),
        decreases *old(link),
    {
        let node = link.take().unwrap();
        proof {
            assert(*old(link) == Some(node));
        }
        let HashNode { hash_val: ph, key: pk, value: pv, height: _, left: mut pl, right: pr } =
            *node;
        if pl.is_some() {
            let min = Self::link_remove_min(&mut pl);
            proof {
                assert(!link_map(pr).contains_key((min.0, min.1)));
                assert((min.0, min.1) != (ph, pk));
            }
            let fixed = Self::fix(Box::new(HashNode {
                hash_val: ph,
                key: pk,
                value: pv,
                height: 0,
                left: pl,
                right: pr,
            }));
            *link = Some(fixed);
            proof {
                assert(link_map(*link) =~= link_map(*old(link)).remove((min.0, min.1)));
            }
            min
        } else {
            *link = pr;
            proof {
                assert(link_map(pl) =~= Map::<(u64, K), V>::empty());
                assert(!link_map(pr).contains_key((ph, pk)));
                assert(link_map(*link) =~= link_map(*old(link)).remove((ph, pk)));
            }
            (ph, pk, pv)
        }
    }

    /// Removes the entry at `(hash, key)` from a subtree, if present,
    /// and returns the stored key and value.
    pub fn link_remove(link: &mut Link<K, V>, h: u64, key: &K) -> (r: Option<(K, V)>)
        requires
            link_wf(*old(link)),
        ensures
            link_wf(*final(link)),
            link_map(*final(link)) == link_map(*old(link)).remove((h, *key)),
            r == (if link_map(*old(link)).contains_key((h, *key)) {
                Some((*key, link_map(*old(link))[(h, *key)]))
            } else {
                None::<(K, V)>
            }),
            link_map(*old(link)).contains_key((h, *key)) ==> link_size(*final(link)) + 1
                == link_size(*old(link)),
            !link_map(*old(link)).contains_key((h, *key)) ==> link_size(*final(link)) == link_size(
                *old(link),
            ),
            link_height(*final(link)) == link_height(*old(link)) || link_height(*final(link)) + 1
                == link_height(*old(link)),
        decreases *old(link),
    {
        match link.take() {
            None => {
                proof {
                    assert(link_map(*link) =~= link_map(*old(link)).remove((h, *key)));
                }
                None
            },
            Some(node) => {
                proof {
                    assert(*old(link) == Some(node));
                }
                let HashNode {
                    hash_val: ph,
                    key: pk,
                    value: pv,
                    height: _,
                    left: mut pl,
                    right: mut pr,
                } = *node;
                let ghost n0 = *old(link);
                if h < ph || (h == ph && key.key_lt(&pk)) {
                    proof {
                        assert(!link_map(pr).contains_key((h, *key)));
                        assert((h, *key) != (ph, pk));
                    }
                    let r = Self::link_remove(&mut pl, h, key);
                    let fixed = Self::fix(Box::new(HashNode {
                        hash_val: ph,
                        key: pk,
                        value: pv,
                        height: 0,
                        left: pl,
                        right: pr,
                    }));
                    *link = Some(fixed);
                    proof {
                        assert(link_map(*link) =~= link_map(n0).remove((h, *key)));
                    }
                    r
                } else if h == ph && key.key_eq(&pk) {
                    proof {
                        K::lemma_model_injective(*key, pk);
                        assert(*key == pk);
                        assert(link_map(n0).contains_key((h, *key)));
                        assert(!link_map(pl).contains_key((h, *key)));
                        assert(!link_map(pr).contains_key((h, *key)));
                    }
                    if pr.is_none() {
                        *link = pl;
                        proof {
                            assert(link_map(pr) =~= Map::<(u64, K), V>::empty());
                            assert(link_map(*link) =~= link_map(n0).remove((h, *key)));
                        }
                        Some((pk, pv))
                    } else if pl.is_none() {
                        *link = pr;
                        proof {
                            assert(link_map(pl) =~= Map::<(u64, K), V>::empty());
                            assert(link_map(*link) =~= link_map(n0).remove((h, *key)));
                        }
                        Some((pk, pv))
                    } else {
                        let (mh, mk, mv) = Self::link_remove_min(&mut pr);
                        proof {
                            assert(lex_lt(ph, pk.model(), mh, mk.model()));
                            assert(!link_map(pl).contains_key((mh, mk)));
                            assert forall|p: (u64, K)| #[trigger]
                                link_map(pl).contains_key(p) implies lex_lt(
                                p.0,
                                p.1.model(),
                                mh,
                                mk.model(),
                            ) by {
                                assert(lex_lt(p.0, p.1.model(), ph, pk.model()));
                            }
                        }
                        let fixed = Self::fix(Box::new(HashNode {
                            hash_val: mh,
                            key: mk,
                            value: mv,
                            height: 0,
                            left: pl,
                            right: pr,
                        }));
                        *link = Some(fixed);
                        proof {
                            assert(link_map(*link) =~= link_map(n0).remove((h, *key)));
                        }
                        Some((pk, pv))
                    }
                } else {
                    proof {
                        assert(!link_map(pl).contains_key((h, *key)));
                        if (h, *key) == (ph, pk) {
                            assert(key.model() == pk.model());
                        }
                        assert((h, *key) != (ph, pk));
                        assert(lex_lt(ph, pk.model(), h, key.model()));
                    }
                    let r = Self::link_remove(&mut pr, h, key);
                    let fixed = Self::fix(Box::new(HashNode {
                        hash_val: ph,
                        key: pk,
                        value: pv,
                        height: 0,
                        left: pl,
                        right: pr,
                    }));
                    *link = Some(fixed);
                    proof {
                        assert(link_map(*link) =~= link_map(n0).remove((h, *key)));
                    }
                    r
                }
            },
        }
    }

    /// Appends the subtree's entries to `out` in search order.
    pub fn link_collect<'a>(link: &'a Link<K, V>, out: &mut Vec<(u64, &'a K, &'a V)>)
        ensures
            final(out)@.len() == old(out)@.len() + link_seq(*link).len(),
            forall|i: int| 0 <= i < old(out)@.len() ==> final(out)@[i] == old(out)@[i],
            forall|i: int|
                0 <= i < link_seq(*link).len() ==> final(out)@[old(out)@.len() + i] == (
                    link_seq(*link)[i].0.0,
                    &link_seq(*link)[i].0.1,
                    &link_seq(*link)[i].1,
                ),
        decreases *link,
    {
        match link {
            None => {
            },
            Some(n) => {
                Self::link_collect(&n.left, out);
                out.push((n.hash_val, &n.key, &n.value));
                Self::link_collect(&n.right, out);
            },
        }
    }

    /// Appends mutable borrows of the subtree's values to `out`, in
    /// search order, together with each entry's hash and key. The
    /// subtree keeps its shape: only the values can change, through the
    /// borrows handed out.
    pub fn link_collect_mut<'a>(link: &'a mut Link<K, V>, out: &mut Vec<(u64, &'a K, &'a mut V)>)
        ensures
            final(out)@.len() == old(out)@.len() + link_seq(*old(link)).len(),
            forall|i: int| 0 <= i < old(out)@.len() ==> final(out)@[i] == old(out)@[i],
            forall|i: int|
                #![trigger link_seq(*old(link))[i]]
                0 <= i < link_seq(*old(link)).len() ==> ({
                    let e = final(out)@[old(out)@.len() + i];
                    e.0 == link_seq(*old(link))[i].0.0 && e.1 == &link_seq(*old(link))[i].0.1
                        && *e.2 == link_seq(*old(link))[i].1
                }),
            same_shape(*old(link), *final(link)),
            link_wf(*old(link)) ==> link_wf(*final(link)),
            link_map(*final(link)).dom() =~= link_map(*old(link)).dom(),
            link_height(*final(link)) == link_height(*old(link)),
            link_size(*final(link)) == link_size(*old(link)),
            link_seq(*final(link)).len() == link_seq(*old(link)).len(),
            forall|i: int|
                #![trigger link_seq(*final(link))[i]]
                0 <= i < link_seq(*old(link)).len() ==> link_seq(*final(link))[i].0 == link_seq(
                    *old(link),
                )[i].0 && link_seq(*final(link))[i].1 == *final(final(out)@[old(out)@.len() + i].2),
            forall|p: (u64, K)| #[trigger]
                link_map(*old(link)).contains_key(p) ==> exists|i: int|
                    0 <= i < link_seq(*old(link)).len() && (#[trigger] link_seq(*old(link))[i]).0
                        == p && link_map(*final(link))[p] == *final(final(out)@[old(out)@.len() + i].2),
        decreases *old(link),
    {
        match link {
            None => {
                proof {
                    assert(link_map(*link) =~= Map::<(u64, K), V>::empty());
                }
            },
            Some(n) => {
                Self::link_collect_mut(&mut n.left, out);
                out.push((n.hash_val, &n.key, &mut n.value));
                Self::link_collect_mut(&mut n.right, out);
                proof {
                    let l0 = *old(link);
                    let lf = after_borrow(*link);
                    let base = old(out)@.len() as int;
                    let ls = link_seq(l0);
                    assert forall|p: (u64, K)| #[trigger] link_map(l0).contains_key(p) implies exists|
                        i: int,
                    |
                        0 <= i < ls.len() && (#[trigger] ls[i]).0 == p && link_map(lf)[p]
                            == *final(final(out)@[base + i].2) by {
                        let n0 = l0.unwrap();
                        let nf = lf.unwrap();
                        let la = link_seq(n0.left);
                        if p == (n0.hash_val, n0.key) {
                            assert(ls[la.len() as int].0 == p);
                            assert(link_map(lf)[p] == nf.value);
                            assert(nf.value == *final(final(out)@[base + la.len()].2));
                        } else if link_map(n0.right).contains_key(p) {
                            let i0 = choose|i0: int|
                                0 <= i0 < link_seq(n0.right).len() && (#[trigger] link_seq(
                                    n0.right,
                                )[i0]).0 == p && link_map(nf.right)[p]
                                    == *final(final(out)@[base + la.len() + 1 + i0].2);
                            assert(ls[la.len() + 1 + i0].0 == p);
                            assert(link_map(nf.right).contains_key(p));
                            assert(link_map(lf)[p] == link_map(nf.right)[p]);
                        } else {
                            assert(link_map(n0.left).contains_key(p));
                            let i0 = choose|i0: int|
                                0 <= i0 < la.len() && (#[trigger] la[i0]).0 == p && link_map(
                                    nf.left,
                                )[p] == *final(final(out)@[base + i0].2);
                            assert(ls[i0].0 == p);
                            assert(!link_map(nf.right).contains_key(p));
                            assert(link_map(lf)[p] == link_map(nf.left)[p]);
                        }
                    }
                }
            },
        }
    }

    /// Looks a `(hash, key)` pair up in a subtree and hands out a
    /// mutable borrow of its value; only that value can change.
    pub fn link_find_mut<'a>(link: &'a mut Link<K, V>, h: u64, key: &K) -> (r: Option<&'a mut V>)
        requires
            link_wf(*old(link)),
        ensures
            link_wf(*final(link)),
            link_height(*final(link)) == link_height(*old(link)),
            link_size(*final(link)) == link_size(*old(link)),
            r is Some <==> link_map(*old(link)).contains_key((h, *key)),
            r is Some ==> *r.unwrap() == link_map(*old(link))[(h, *key)] && link_map(*final(link))
                =~= link_map(*old(link)).insert((h, *key), *final(r.unwrap())),
            r is None ==> *final(link) == *old(link),
        decreases *old(link),
    {
        match link {
            None => None,
            Some(n) => {
                if h < n.hash_val || (h == n.hash_val && key.key_lt(&n.key)) {
                    proof {
                        assert(!link_map(n.right).contains_key((h, *key)));
                        assert((h, *key) != (n.hash_val, n.key));
                    }
                    Self::link_find_mut(&mut n.left, h, key)
                } else if h == n.hash_val && key.key_eq(&n.key) {
                    proof {
                        K::lemma_model_injective(*key, n.key);
                        assert((h, *key) == (n.hash_val, n.key));
                        assert(!link_map(n.left).contains_key((h, *key)));
                        assert(!link_map(n.right).contains_key((h, *key)));
                    }
                    Some(&mut n.value)
                } else {
                    proof {
                        assert(!link_map(n.left).contains_key((h, *key)));
                        if (h, *key) == (n.hash_val, n.key) {
                            assert(key.model() == n.key.model());
                        }
                        assert((h, *key) != (n.hash_val, n.key));
                    }
                    Self::link_find_mut(&mut n.right, h, key)
                }
            },
        }
    }

    /// Consumes a subtree, appending its entries to `out` in search
    /// order.
    pub fn link_into_entries(link: Link<K, V>, out: &mut Vec<(u64, K, V)>)
        ensures
            final(out)@.len() == old(out)@.len() + link_seq(link).len(),
            forall|i: int| 0 <= i < old(out)@.len() ==> final(out)@[i] == old(out)@[i],
            forall|i: int|
                #![trigger link_seq(link)[i]]
                0 <= i < link_seq(link).len() ==> final(out)@[old(out)@.len() + i] == (
                    link_seq(link)[i].0.0,
                    link_seq(link)[i].0.1,
                    link_seq(link)[i].1,
                ),
        decreases link,
    {
        match link {
            None => {
            },
            Some(b) => {
                let HashNode { hash_val, key, value, height: _, left, right } = *b;
                Self::link_into_entries(left, out);
                out.push((hash_val, key, value));
                Self::link_into_entries(right, out);
            },
        }
    }

    /// Counts the nodes of a subtree.
    pub fn link_node_num(link: &Link<K, V>) -> (n: usize)
        requires
            link_size(*link) <= usize::MAX,
        ensures
            n == link_size(*link),
        decreases *link,
    {
        match link {
            None => 0,
            Some(b) => 1 + Self::link_node_num(&b.left) + Self::link_node_num(&b.right),
        }
    }

    /// The least entry of a subtree, or nothing if it is empty.
    pub fn link_first<'a>(link: &'a Link<K, V>) -> (r: Option<(u64, &'a K, &'a V)>)
        requires
            link_wf(*link),
        ensures
            r is Some <==> link_seq(*link).len() > 0,
            r is Some ==> r.unwrap() == (
                link_seq(*link)[0].0.0,
                &link_seq(*link)[0].0.1,
                &link_seq(*link)[0].1,
            ),
        decreases *link,
    {
        match link {
            None => None,
            Some(n) => {
                match Self::link_first(&n.left) {
                    Some(m) => Some(m),
                    None => Some((n.hash_val, &n.key, &n.value)),
                }
            },
        }
    }

    /// The greatest entry of a subtree, or nothing if it is empty.
    pub fn link_last<'a>(link: &'a Link<K, V>) -> (r: Option<(u64, &'a K, &'a V)>)
        requires
            link_wf(*link),
        ensures
            r is Some <==> link_seq(*link).len() > 0,
            r is Some ==> r.unwrap() == (
                link_seq(*link).last().0.0,
                &link_seq(*link).last().0.1,
                &link_seq(*link).last().1,
            ),
        decreases *link,
    {
        match link {
            None => None,
            Some(n) => {
                match Self::link_last(&n.right) {
                    Some(m) => Some(m),
                    None => Some((n.hash_val, &n.key, &n.value)),
                }
            },
        }
    }

    /// Looks a `(hash, key)` pair up in a subtree.
    pub fn link_find<'a>(link: &'a Link<K, V>, h: u64, key: &K) -> (r: Option<&'a V>)
        requires
            link_wf(*link),
        ensures
            r == (if link_map(*link).contains_key((h, *key)) {
                Some(&link_map(*link)[(h, *key)])
            } else {
                None::<&'a V>
            }),
        decreases *link,
    {
        match link {
            None => None,
            Some(n) => {
                if h < n.hash_val || (h == n.hash_val && key.key_lt(&n.key)) {
                    proof {
                        assert(!link_map(n.right).contains_key((h, *key)));
                        assert((h, *key) != (n.hash_val, n.key));
                    }
                    Self::link_find(&n.left, h, key)
                } else if h == n.hash_val && key.key_eq(&n.key) {
                    proof {
                        K::lemma_model_injective(*key, n.key);
                    }
                    Some(&n.value)
                } else {
                    proof {
                        assert(!link_map(n.left).contains_key((h, *key)));
                        if (h, *key) == (n.hash_val, n.key) {
                            assert(key.model() == n.key.model());
                        }
                    }
                    Self::link_find(&n.right, h, key)
                }
            },
        }
    }
}

} // verus!
