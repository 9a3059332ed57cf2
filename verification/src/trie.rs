//! The insert-only trie engine: a binary Merkle-Patricia trie with path
//! compression, whose contents are a map from 251-bit paths to values and
//! whose digest is a pure function of those contents.

use vstd::prelude::*;
use crate::felt::Felt;
use crate::bytes::{key_bits, bits_val};
use crate::hashing::{binary_hash, edge_hash};
use crate::err::TrieError;

verus! {

/// An in-memory, pre-commit trie node. A leaf reached through a compressed
/// path is an `Edge` whose child is a `Leaf`.
pub enum TrieNode {
    Binary { left: Box<TrieNode>, right: Box<TrieNode> },
    Edge { path: Vec<bool>, child: Box<TrieNode> },
    Leaf { value: Felt },
}

/// The value stored under the remaining path `q` below `n`, if any.
/// A `Binary` node consumes one bit (false = left), an `Edge` node consumes
/// its whole compressed path.
pub open spec fn lookup(n: TrieNode, q: Seq<bool>) -> Option<nat>
    decreases n,
{
    match n {
        TrieNode::Leaf { value } => if q.len() == 0 {
            Some(value.val())
        } else {
            None
        },
        TrieNode::Binary { left, right } => if q.len() == 0 {
            None
        } else if q[0] {
            lookup(*right, q.skip(1))
        } else {
            lookup(*left, q.skip(1))
        },
        TrieNode::Edge { path, child } => if path@.len() <= q.len()
            && q.take(path@.len() as int) == path@ {
            lookup(*child, q.skip(path@.len() as int))
        } else {
            None
        },
    }
}

/// Structural well-formedness of a node standing `h` bit-levels above the
/// leaves: binary nodes consume one level, edge paths are nonempty, never
/// longer than the remaining height, never chained, and leaves sit exactly
/// at the bottom.
pub open spec fn wf_node(n: TrieNode, h: nat) -> bool
    decreases n,
{
    match n {
        TrieNode::Leaf { value } => h == 0 && value.wf(),
        TrieNode::Binary { left, right } => h >= 1
            && wf_node(*left, (h - 1) as nat)
            && wf_node(*right, (h - 1) as nat),
        TrieNode::Edge { path, child } => {
            &&& 1 <= path@.len() <= h
            &&& wf_node(*child, (h - path@.len()) as nat)
            &&& !((*child) is Edge)
        },
    }
}

/// The digest of a node, per node kind.
pub open spec fn hash_of(n: TrieNode) -> nat
    decreases n,
{
    match n {
        TrieNode::Leaf { value } => value.val(),
        TrieNode::Binary { left, right } => binary_hash(hash_of(*left), hash_of(*right)),
        TrieNode::Edge { path, child } => edge_hash(hash_of(*child), path@),
    }
}

/// One key that is always present under a node.
spec fn witness_key(n: TrieNode) -> Seq<bool>
    decreases n,
{
    match n {
        TrieNode::Leaf { value } => Seq::empty(),
        TrieNode::Binary { left, right } => seq![false] + witness_key(*left),
        TrieNode::Edge { path, child } => path@ + witness_key(*child),
    }
}

/// A well-formed node holds at least one key.
proof fn lemma_witness(n: TrieNode, h: nat)
    requires
        wf_node(n, h),
    ensures
        lookup(n, witness_key(n)) is Some,
    decreases n,
{
    match n {
        TrieNode::Leaf { value } => {},
        TrieNode::Binary { left, right } => {
            lemma_witness(*left, (h - 1) as nat);
            let q = seq![false] + witness_key(*left);
            assert(q.len() >= 1 && !q[0]);
            assert(q.skip(1) =~= witness_key(*left));
        },
        TrieNode::Edge { path, child } => {
            lemma_witness(*child, (h - path@.len()) as nat);
            let q = path@ + witness_key(*child);
            assert(q.take(path@.len() as int) =~= path@);
            assert(q.skip(path@.len() as int) =~= witness_key(*child));
        },
    }
}


/// A copy of `path[a..b]`.
pub(crate) fn sub_bits(path: &Vec<bool>, a: usize, b: usize) -> (r: Vec<bool>)
    requires
        a <= b <= path@.len(),
    ensures
        r@ == path@.subrange(a as int, b as int),
{
    let mut r: Vec<bool> = Vec::new();
    let mut i: usize = a;
    while i < b
        invariant
            a <= i <= b <= path@.len(),
            r@.len() == i - a,
            forall|j: int| 0 <= j < i - a ==> r@[j] == path@[a + j],
        decreases b - i,
    {
        r.push(path[i]);
        i = i + 1;
    }
    proof {
        assert(r@ =~= path@.subrange(a as int, b as int));
    }
    r
}

/// Length of the longest common prefix of `ep` and `path[pos..]`.
fn common_prefix_len(ep: &Vec<bool>, path: &Vec<bool>, pos: usize) -> (k: usize)
    requires
        pos <= path@.len(),
    ensures
        k <= ep@.len(),
        pos + k <= path@.len(),
        forall|j: int| 0 <= j < k ==> ep@[j] == path@[pos + j],
        k < ep@.len() && pos + k < path@.len() ==> ep@[k as int] != path@[pos + k],
    decreases ep@.len(),
{
    let plen: usize = path.len();
    let mut k: usize = 0;
    while k < ep.len() && pos + k < plen && ep[k] == path[pos + k]
        invariant
            plen == path@.len(),
            pos <= path@.len(),
            k <= ep@.len(),
            pos + k <= path@.len(),
            forall|j: int| 0 <= j < k ==> ep@[j] == path@[pos + j],
        decreases ep@.len() - k,
    {
        k = k + 1;
    }
    k
}

/// Inserts `value` at the remaining path `path[pos..]` below the owned node
/// `n`, returning the rebuilt node. Exactly the inserted key changes; every
/// other key keeps its prior value.
#[verifier::rlimit(100)]
#[verifier::spinoff_prover]
fn insert_node(n: TrieNode, path: &Vec<bool>, pos: usize, value: &Felt) -> (r: TrieNode)
    requires
        pos <= path@.len(),
        wf_node(n, (path@.len() - pos) as nat),
        value.wf(),
    ensures
        wf_node(r, (path@.len() - pos) as nat),
        n is Binary ==> r is Binary,
        n is Leaf ==> r is Leaf,
        forall|q: Seq<bool>|
            lookup(r, q) == (if q == path@.skip(pos as int) {
                Some(value.val())
            } else {
                lookup(n, q)
            }),
    decreases path@.len() - pos,
{
    let plen: usize = path.len();
    let ghost tail = path@.skip(pos as int);
    let ghost h = (path@.len() - pos) as nat;
    match n {
        TrieNode::Leaf { value: old_value } => {
            let r = TrieNode::Leaf { value: value.clone() };
            proof {
                assert(tail.len() == 0);
                assert forall|q: Seq<bool>|
                    lookup(r, q) == (if q == tail {
                        Some(value.val())
                    } else {
                        lookup(TrieNode::Leaf { value: old_value }, q)
                    }) by {
                    if q.len() == 0 {
                        assert(q =~= tail);
                    }
                }
            }
            r
        },
        TrieNode::Binary { left, right } => {
            let ghost n0 = TrieNode::Binary { left, right };
            let bit = path[pos];
            let r: TrieNode;
            let ghost ncg: TrieNode;
            let ghost oldc: TrieNode;
            if bit {
                let nc = insert_node(*right, path, pos + 1, value);
                proof {
                    ncg = nc;
                    oldc = *right;
                }
                r = TrieNode::Binary { left, right: Box::new(nc) };
            } else {
                let nc = insert_node(*left, path, pos + 1, value);
                proof {
                    ncg = nc;
                    oldc = *left;
                }
                r = TrieNode::Binary { left: Box::new(nc), right };
            }
            proof {
                let tail1 = path@.skip(pos + 1);
                assert(tail.len() == h);
                assert(tail[0] == path@[pos as int]);
                assert(tail.skip(1) =~= tail1);
                assert forall|q: Seq<bool>|
                    lookup(r, q) == (if q == tail {
                        Some(value.val())
                    } else {
                        lookup(n0, q)
                    }) by {
                    if q.len() == 0 {
                        assert(q != tail);
                        assert(lookup(r, q) is None);
                        assert(lookup(n0, q) is None);
                    } else {
                        if q[0] == bit {
                            assert(lookup(r, q) == lookup(ncg, q.skip(1)));
                            assert(lookup(n0, q) == lookup(oldc, q.skip(1)));
                            assert(lookup(ncg, q.skip(1)) == (if q.skip(1) == tail1 {
                                Some(value.val())
                            } else {
                                lookup(oldc, q.skip(1))
                            }));
                            if q == tail {
                                assert(q.skip(1) == tail1);
                            } else {
                                if q.skip(1) == tail1 {
                                    assert forall|j: int| 0 <= j < q.len() implies q[j] == tail[j] by {
                                        if j >= 1 {
                                            assert(q[j] == q.skip(1)[j - 1]);
                                            assert(tail[j] == tail.skip(1)[j - 1]);
                                        }
                                    }
                                    assert(q =~= tail);
                                }
                                assert(q.skip(1) != tail1);
                            }
                        } else {
                            assert(q != tail);
                            assert(lookup(r, q) == lookup(n0, q));
                        }
                    }
                }
            }
            r
        },
        TrieNode::Edge { path: ep, child } => {
            let k = common_prefix_len(&ep, path, pos);
            let ghost el = ep@.len() as int;
            if k == ep.len() {
                let nc = insert_node(*child, path, pos + k, value);
                let ghost ncg = nc;
                let ghost cg = child;
                let r = TrieNode::Edge { path: ep, child: Box::new(nc) };
                proof {
                    let n0 = TrieNode::Edge { path: ep, child: cg };
                    assert(tail.take(el) =~= ep@);
                    assert(tail.skip(el) =~= path@.skip(pos + el));
                    assert forall|q: Seq<bool>|
                        lookup(r, q) == (if q == tail {
                            Some(value.val())
                        } else {
                            lookup(n0, q)
                        }) by {
                        if el <= q.len() && q.take(el) == ep@ {
                            assert(lookup(r, q) == lookup(ncg, q.skip(el)));
                            assert(lookup(n0, q) == lookup(*cg, q.skip(el)));
                            if q.skip(el) == path@.skip(pos + el) {
                                assert forall|j: int| 0 <= j < q.len() implies q[j] == tail[j] by {
                                    if j < el {
                                        assert(q.take(el)[j] == q[j]);
                                        assert(tail.take(el)[j] == tail[j]);
                                    } else {
                                        assert(q.skip(el)[j - el] == q[j]);
                                        assert(tail.skip(el)[j - el] == tail[j]);
                                    }
                                }
                                assert(q =~= tail);
                            } else {
                                assert(q != tail);
                            }
                        } else {
                            assert(lookup(r, q) is None);
                            assert(lookup(n0, q) is None);
                            assert(q != tail);
                        }
                    }
                }
                r
            } else {
                // the paths diverge inside the compressed path: split the edge
                proof {
                    assert(1 <= ep@.len() <= h);
                    assert(pos + k < path@.len());
                }
                split_edge(ep, child, path, pos, k, value)
            }
        },
    }
}

/// Seq-level core of the edge split: with the two sides of the new binary
/// node characterised, the rebuilt node holds exactly the inserted key plus
/// everything the edge held before the split.
#[verifier::rlimit(100)]
#[verifier::spinoff_prover]
proof fn lemma_split_lookup(
    r: TrieNode,
    brg: TrieNode,
    nsd: TrieNode,
    osg: TrieNode,
    cgn: TrieNode,
    n0: TrieNode,
    ep: Seq<bool>,
    path: Seq<bool>,
    pos: int,
    k: int,
    bit_new: bool,
    v: nat,
)
    requires
        0 <= pos,
        0 <= k < ep.len(),
        pos + ep.len() <= path.len(),
        forall|j: int| 0 <= j < k ==> ep[j] == path[pos + j],
        ep[k] != path[pos + k],
        bit_new == path[pos + k],
        forall|w: Seq<bool>| #[trigger] lookup(nsd, w) == (if w == path.subrange(pos + k + 1, path.len() as int) {
            Some(v)
        } else {
            None::<nat>
        }),
        forall|w: Seq<bool>| #[trigger] lookup(osg, w) == (if ep.len() - k - 1 <= w.len()
            && w.take(ep.len() - k - 1) == ep.subrange(k + 1, ep.len() as int) {
            lookup(cgn, w.skip(ep.len() - k - 1))
        } else {
            None::<nat>
        }),
        forall|w: Seq<bool>| #[trigger] lookup(brg, w) == (if w.len() == 0 {
            None::<nat>
        } else if w[0] == bit_new {
            lookup(nsd, w.skip(1))
        } else {
            lookup(osg, w.skip(1))
        }),
        forall|q: Seq<bool>| #[trigger] lookup(r, q) == (if k <= q.len() && q.take(k) == ep.take(k) {
            lookup(brg, q.skip(k))
        } else {
            None::<nat>
        }),
        forall|q: Seq<bool>| #[trigger] lookup(n0, q) == (if ep.len() <= q.len() && q.take(ep.len() as int) == ep {
            lookup(cgn, q.skip(ep.len() as int))
        } else {
            None::<nat>
        }),
    ensures
        forall|q: Seq<bool>|
            #[trigger] lookup(r, q) == (if q == path.skip(pos) {
                Some(v)
            } else {
                lookup(n0, q)
            }),
{
    let tail = path.skip(pos);
    let el = ep.len() as int;
    let tn = path.subrange(pos + k + 1, path.len() as int);
    let to = ep.subrange(k + 1, el);
    assert forall|q: Seq<bool>|
        #[trigger] lookup(r, q) == (if q == tail {
            Some(v)
        } else {
            lookup(n0, q)
        }) by {
        if k <= q.len() && q.take(k) == ep.take(k) {
            assert forall|j: int| 0 <= j < k implies q[j] == ep[j] by {
                assert(q.take(k)[j] == q[j]);
                assert(ep.take(k)[j] == ep[j]);
            }
            let w = q.skip(k);
            assert(lookup(r, q) == lookup(brg, w));
            if w.len() == 0 {
                assert(q.len() == k);
                assert(q != tail);
                assert(lookup(n0, q) is None);
            } else if w[0] == bit_new {
                assert(q[k] == w[0]);
                assert(lookup(brg, w) == lookup(nsd, w.skip(1)));
                assert(w.skip(1) =~= q.skip(k + 1));
                if q == tail {
                    assert(q.skip(k + 1) =~= tn);
                    assert(lookup(r, q) == Some(v));
                } else {
                    if q.skip(k + 1) == tn {
                        assert forall|j: int| 0 <= j < q.len() implies q[j] == tail[j] by {
                            if j < k {
                                assert(tail[j] == path[pos + j]);
                            } else if j == k {
                                assert(tail[j] == path[pos + k]);
                            } else {
                                assert(q[j] == q.skip(k + 1)[j - k - 1]);
                                assert(tail[j] == path[pos + j]);
                                assert(tn[j - k - 1] == path[pos + j]);
                            }
                        }
                        assert(q =~= tail);
                        assert(false);
                    }
                    assert(lookup(nsd, w.skip(1)) is None);
                    if el <= q.len() && q.take(el) == ep {
                        assert(q.take(el)[k] == q[k]);
                        assert(false);
                    }
                    assert(lookup(n0, q) is None);
                }
            } else {
                assert(q[k] == w[0]);
                assert(q[k] != bit_new);
                assert(q != tail) by {
                    if q == tail {
                        assert(tail[k] == path[pos + k]);
                    }
                }
                assert(lookup(brg, w) == lookup(osg, w.skip(1)));
                let w1 = w.skip(1);
                assert(w1 =~= q.skip(k + 1));
                if el <= q.len() && q.take(el) == ep {
                    assert forall|j: int| 0 <= j < el implies q[j] == ep[j] by {
                        assert(q.take(el)[j] == q[j]);
                    }
                    assert(to.len() <= w1.len());
                    assert(w1.take(to.len() as int) =~= to);
                    assert(w1.skip(to.len() as int) =~= q.skip(el));
                    assert(lookup(osg, w1) == lookup(cgn, q.skip(el)));
                    assert(lookup(n0, q) == lookup(cgn, q.skip(el)));
                } else {
                    if to.len() <= w1.len() && w1.take(to.len() as int) == to {
                        assert forall|j: int| 0 <= j < el implies j < q.len() && q[j] == ep[j] by {
                            if j == k {
                            } else if j > k {
                                assert(w1.take(to.len() as int)[j - k - 1] == w1[j - k - 1]);
                                assert(to[j - k - 1] == ep[j]);
                                assert(w1[j - k - 1] == q[j]);
                            }
                        }
                        assert(el <= q.len());
                        assert(q.take(el) =~= ep);
                        assert(false);
                    }
                    assert(lookup(osg, w1) is None);
                    assert(lookup(n0, q) is None);
                }
            }
        } else {
            assert(lookup(r, q) is None);
            assert(q != tail) by {
                if q == tail {
                    assert(tail.len() == path.len() - pos);
                    assert forall|j: int| 0 <= j < k implies tail[j] == ep[j] by {
                        assert(tail[j] == path[pos + j]);
                    }
                    assert(tail.take(k) =~= ep.take(k));
                }
            }
            if el <= q.len() && q.take(el) == ep {
                assert forall|j: int| 0 <= j < k implies q[j] == ep.take(k)[j] by {
                    assert(q.take(el)[j] == q[j]);
                }
                assert(q.take(k) =~= ep.take(k));
                assert(false);
            }
            assert(lookup(n0, q) is None);
        }
    }
}

/// Splits the edge `ep -> child` at offset `k`, where the inserted key's
/// path diverges from the compressed path, into a binary node holding the
/// old remainder on one side and the new leaf on the other.
#[verifier::rlimit(100)]
#[verifier::spinoff_prover]
fn split_edge(ep: Vec<bool>, child: Box<TrieNode>, path: &Vec<bool>, pos: usize, k: usize, value: &Felt) -> (r: TrieNode)
    requires
        pos <= path@.len(),
        wf_node((TrieNode::Edge { path: ep, child }), (path@.len() - pos) as nat),
        value.wf(),
        k < ep@.len(),
        pos + k < path@.len(),
        forall|j: int| 0 <= j < k ==> ep@[j] == path@[pos + j],
        ep@[k as int] != path@[pos + k],
    ensures
        wf_node(r, (path@.len() - pos) as nat),
        !(r is Leaf),
        forall|q: Seq<bool>|
            lookup(r, q) == (if q == path@.skip(pos as int) {
                Some(value.val())
            } else {
                lookup((TrieNode::Edge { path: ep, child }), q)
            }),
{
    let plen: usize = path.len();
    let ghost h = (path@.len() - pos) as nat;
    let ghost el = ep@.len() as int;
    let ghost n0 = TrieNode::Edge { path: ep, child };
    let ghost cg = child;
    proof {
        assert(wf_node(n0, h));
        assert(1 <= ep@.len() <= h);
    }
    let bit_new = path[pos + k];
    let tail_new = sub_bits(path, pos + k + 1, path.len());
    let new_side: TrieNode = if tail_new.len() == 0 {
        TrieNode::Leaf { value: value.clone() }
    } else {
        TrieNode::Edge {
            path: tail_new,
            child: Box::new(TrieNode::Leaf { value: value.clone() }),
        }
    };
    let ghost nsd = new_side;
    let ghost tn = path@.subrange(pos + k + 1, path@.len() as int);
    let ghost hb = (h - k) as nat;
    proof {
        reveal_with_fuel(wf_node, 4);
        reveal_with_fuel(lookup, 4);
        assert(hb >= 1);
        assert(tail_new@ =~= tn);
        assert(tn.len() == hb - 1);
        assert(wf_node(nsd, (hb - 1) as nat));
        assert forall|w: Seq<bool>|
            #[trigger] lookup(nsd, w) == (if w == tn {
                Some(value.val())
            } else {
                None::<nat>
            }) by {
            if tn.len() == 0 {
                if w.len() == 0 {
                    assert(w =~= tn);
                }
            } else {
                if tn.len() <= w.len() && w.take(tn.len() as int) == tn {
                    if w.len() == tn.len() {
                        assert forall|j: int| 0 <= j < w.len() implies w[j] == tn[j] by {
                            assert(w.take(tn.len() as int)[j] == w[j]);
                        }
                        assert(w =~= tn);
                        assert(w.skip(tn.len() as int).len() == 0);
                    } else {
                        assert(w != tn);
                        assert(w.skip(tn.len() as int).len() > 0);
                    }
                } else {
                    if w == tn {
                        assert(w.take(tn.len() as int) =~= tn);
                    }
                    assert(w != tn);
                }
            }
        }
    }
    let old_side: TrieNode;
    let ghost to = ep@.subrange(k as int + 1, el);
    if k + 1 == ep.len() {
        old_side = *child;
        proof {
            assert(to.len() == 0);
        }
    } else {
        let tail_old = sub_bits(&ep, k + 1, ep.len());
        old_side = TrieNode::Edge { path: tail_old, child };
    }
    let ghost osg = old_side;
    proof {
        assert(wf_node(osg, (hb - 1) as nat));
        assert forall|w: Seq<bool>|
            #[trigger] lookup(osg, w) == (if to.len() <= w.len() && w.take(to.len() as int) == to {
                lookup(*cg, w.skip(to.len() as int))
            } else {
                None::<nat>
            }) by {
            if to.len() == 0 {
                assert(w.take(0) =~= to);
                assert(w.skip(0) =~= w);
            }
        }
    }
    let branch: TrieNode = if bit_new {
        TrieNode::Binary { left: Box::new(old_side), right: Box::new(new_side) }
    } else {
        TrieNode::Binary { left: Box::new(new_side), right: Box::new(old_side) }
    };
    let ghost brg = branch;
    proof {
        assert(wf_node(brg, hb));
        assert forall|w: Seq<bool>|
            #[trigger] lookup(brg, w) == (if w.len() == 0 {
                None::<nat>
            } else if w[0] == bit_new {
                lookup(nsd, w.skip(1))
            } else {
                lookup(osg, w.skip(1))
            }) by {}
    }
    let r: TrieNode;
    if k == 0 {
        r = branch;
    } else {
        let top = sub_bits(&ep, 0, k);
        r = TrieNode::Edge { path: top, child: Box::new(branch) };
    }
    proof {
        let kk = k as int;
        assert(wf_node(r, h));
        assert forall|q: Seq<bool>|
            #[trigger] lookup(r, q) == (if kk <= q.len() && q.take(kk) == ep@.take(kk) {
                lookup(brg, q.skip(kk))
            } else {
                None::<nat>
            }) by {
            if k == 0 {
                assert(q.take(0) =~= ep@.take(0));
                assert(q.skip(0) =~= q);
            }
        }
        assert forall|q: Seq<bool>|
            #[trigger] lookup(n0, q) == (if el <= q.len() && q.take(el) == ep@ {
                lookup(*cg, q.skip(el))
            } else {
                None::<nat>
            }) by {}
        lemma_split_lookup(
            r,
            brg,
            nsd,
            osg,
            *cg,
            n0,
            ep@,
            path@,
            pos as int,
            k as int,
            bit_new,
            value.val(),
        );
    }
    r
}


/// A minimal chain holding exactly the key `path[pos..]`: a bare leaf when
/// nothing of the path remains, else one compressed edge down to the leaf.
fn leaf_chain(path: &Vec<bool>, pos: usize, value: &Felt) -> (r: TrieNode)
    requires
        pos <= path@.len(),
        value.wf(),
    ensures
        wf_node(r, (path@.len() - pos) as nat),
        forall|q: Seq<bool>|
            lookup(r, q) == (if q == path@.skip(pos as int) {
                Some(value.val())
            } else {
                None::<nat>
            }),
{
    let ghost tn = path@.skip(pos as int);
    let vc = value.clone();
    let r: TrieNode;
    if pos == path.len() {
        r = TrieNode::Leaf { value: vc };
    } else {
        let tail = sub_bits(path, pos, path.len());
        r = TrieNode::Edge { path: tail, child: Box::new(TrieNode::Leaf { value: vc }) };
    }
    proof {
        reveal_with_fuel(wf_node, 3);
        reveal_with_fuel(lookup, 3);
        assert(wf_node(r, (path@.len() - pos) as nat));
        assert forall|q: Seq<bool>|
            lookup(r, q) == (if q == tn {
                Some(value.val())
            } else {
                None::<nat>
            }) by {
            if tn.len() == 0 {
                if q.len() == 0 {
                    assert(q =~= tn);
                }
            } else {
                if tn.len() <= q.len() && q.take(tn.len() as int) == tn {
                    if q.len() == tn.len() {
                        assert forall|j: int| 0 <= j < q.len() implies q[j] == tn[j] by {
                            assert(q.take(tn.len() as int)[j] == q[j]);
                        }
                        assert(q =~= tn);
                        assert(q.skip(tn.len() as int).len() == 0);
                    } else {
                        assert(q != tn);
                        assert(q.skip(tn.len() as int).len() > 0);
                    }
                } else {
                    if q == tn {
                        assert(q.take(tn.len() as int) =~= tn);
                    }
                    assert(q != tn);
                }
            }
        }
    }
    r
}

/// The key/value pairs a sequence of writes denotes, later writes
/// superseding earlier ones.
pub open spec fn pairs_map(s: Seq<(Felt, Felt)>) -> Map<nat, nat>
    decreases s.len(),
{
    if s.len() == 0 {
        Map::empty()
    } else {
        pairs_map(s.drop_last()).insert(s.last().0.val(), s.last().1.val())
    }
}

/// The value stored at a path below an optional root.
pub open spec fn root_lookup(root: Option<TrieNode>, q: Seq<bool>) -> Option<nat> {
    match root {
        None => None,
        Some(n) => lookup(n, q),
    }
}

/// The insert-only trie engine: an owned node graph addressed by 251-bit
/// paths, plus the log of leaf writes that a commit persists.
pub struct Trie {
    pub(crate) root: Option<TrieNode>,
    pub(crate) leaves: Vec<(Felt, Felt)>,
}

impl View for Trie {
    type V = Map<Seq<bool>, nat>;

    /// The contents: the map from inserted paths to their current values.
    closed spec fn view(&self) -> Map<Seq<bool>, nat> {
        Map::new(
            |q: Seq<bool>| root_lookup(self.root, q) is Some,
            |q: Seq<bool>| root_lookup(self.root, q)->Some_0,
        )
    }
}

impl Trie {
    pub closed spec fn wf(self) -> bool {
        &&& (self.root matches Some(n) ==> wf_node(n, 251))
        &&& forall|i: int| 0 <= i < self.leaves@.len()
            ==> (#[trigger] self.leaves@[i]).0.wf() && self.leaves@[i].1.wf()
    }

    /// The leaf writes recorded so far, as a key/value map.
    pub closed spec fn leaves_map(self) -> Map<nat, nat> {
        pairs_map(self.leaves@)
    }

    /// The root digest: zero for the empty trie, the root node's hash
    /// otherwise.
    pub closed spec fn root_hash_spec(self) -> nat {
        match self.root {
            None => 0,
            Some(n) => hash_of(n),
        }
    }

    pub closed spec fn is_empty_spec(self) -> bool {
        self.root is None
    }

    pub fn new() -> (t: Trie)
        ensures
            t.wf(),
            t@ == Map::<Seq<bool>, nat>::empty(),
            t.leaves_map() == Map::<nat, nat>::empty(),
            t.is_empty_spec(),
    {
        let t = Trie { root: None, leaves: Vec::new() };
        proof {
            assert(t@ =~= Map::<Seq<bool>, nat>::empty());
        }
        t
    }

    /// Writes `value` under an explicit 251-bit path. Exactly that path's
    /// entry changes; a path of any other length is rejected untouched.
    pub fn insert_path(&mut self, path: &Vec<bool>, value: &Felt) -> (res: Result<(), TrieError>)
        requires
            old(self).wf(),
            value.wf(),
        ensures
            final(self).wf(),
            path@.len() == 251 ==> res is Ok,
            path@.len() != 251 ==> res == Err::<(), TrieError>(TrieError::InvalidKeyLength)
                && *final(self) == *old(self),
            res is Ok ==> final(self)@ == old(self)@.insert(path@, value.val()),
            res is Ok ==> final(self).leaves_map()
                == old(self).leaves_map().insert(bits_val(path@), value.val()),
            res is Ok ==> !final(self).is_empty_spec(),
    {
        if path.len() != 251 {
            return Err(TrieError::InvalidKeyLength);
        }
        let ghost oldroot = self.root;
        let node = match self.root.take() {
            None => leaf_chain(path, 0, value),
            Some(n) => insert_node(n, path, 0, value),
        };
        proof {
            assert(path@.skip(0) =~= path@);
        }
        self.root = Some(node);
        let kf = Felt::from_bits(path);
        let vc = value.clone();
        let ghost oldleaves = self.leaves@;
        self.leaves.push((kf, vc));
        proof {
            assert(self.leaves@.drop_last() =~= oldleaves);
            assert(Map::new(
                |q: Seq<bool>| root_lookup(Some(node), q) is Some,
                |q: Seq<bool>| root_lookup(Some(node), q)->Some_0,
            ) =~= Map::new(
                |q: Seq<bool>| root_lookup(oldroot, q) is Some,
                |q: Seq<bool>| root_lookup(oldroot, q)->Some_0,
            ).insert(path@, value.val()));
        }
        Ok(())
    }

    /// Writes `value` under `key`, encoded through the path encoder (the
    /// five high-order bits of the key are dropped).
    pub fn insert(&mut self, key: &Felt, value: &Felt)
        requires
            old(self).wf(),
            key.wf(),
            value.wf(),
        ensures
            final(self).wf(),
            final(self)@ == old(self)@.insert(key_bits(key@), value.val()),
            final(self).leaves_map()
                == old(self).leaves_map().insert(bits_val(key_bits(key@)), value.val()),
            !final(self).is_empty_spec(),
    {
        let path = key.key_path();
        let res = self.insert_path(&path, value);
        proof {
            assert(res is Ok);
        }
    }
}


/// Below an edge node that stops short of the leaves, keys continue with
/// both possible next bits: the child is a binary node, and each of its
/// sides holds a key.
proof fn lemma_edge_continuations(a: TrieNode, h: nat)
    requires
        a is Edge,
        wf_node(a, h),
        a->Edge_path@.len() < h,
    ensures
        exists|q: Seq<bool>|
            #[trigger] lookup(a, q) is Some && q.len() > a->Edge_path@.len()
                && !q[a->Edge_path@.len() as int],
        exists|q: Seq<bool>|
            #[trigger] lookup(a, q) is Some && q.len() > a->Edge_path@.len()
                && q[a->Edge_path@.len() as int],
{
    match a {
        TrieNode::Edge { path: pa, child: ca } => {
            let ela = pa@.len() as int;
            let hc = (h - pa@.len()) as nat;
            assert(hc >= 1);
            assert(wf_node(*ca, hc));
            match *ca {
                TrieNode::Binary { left: l2, right: r2 } => {
                    assert(wf_node(*ca, hc) == (hc >= 1 && wf_node(*l2, (hc - 1) as nat)
                        && wf_node(*r2, (hc - 1) as nat)));
                    lemma_witness(*l2, (hc - 1) as nat);
                    lemma_witness(*r2, (hc - 1) as nat);
                    let w1 = seq![false] + witness_key(*l2);
                    let w2 = seq![true] + witness_key(*r2);
                    assert(w1.skip(1) =~= witness_key(*l2));
                    assert(w2.skip(1) =~= witness_key(*r2));
                    assert(lookup(*ca, w1) is Some);
                    assert(lookup(*ca, w2) is Some);
                    let q1 = pa@ + w1;
                    let q2 = pa@ + w2;
                    assert(q1.take(ela) =~= pa@);
                    assert(q1.skip(ela) =~= w1);
                    assert(q2.take(ela) =~= pa@);
                    assert(q2.skip(ela) =~= w2);
                    assert(lookup(a, q1) is Some && q1.len() > ela && !q1[ela]);
                    assert(lookup(a, q2) is Some && q2.len() > ela && q2[ela]);
                },
                TrieNode::Leaf { value } => {},
                TrieNode::Edge { path, child } => {},
            }
        },
        _ => {},
    }
}

/// The central canonicity law: two well-formed tries of the same height
/// holding exactly the same key/value map have the same digest. The root
/// hash is therefore a pure function of the contents — independent of the
/// order or batching of the inserts that produced them, and the same for
/// any two conforming implementations.
pub proof fn lemma_node_hash_determined(a: TrieNode, b: TrieNode, h: nat)
    requires
        wf_node(a, h),
        wf_node(b, h),
        forall|q: Seq<bool>| #[trigger] lookup(a, q) == lookup(b, q),
    ensures
        hash_of(a) == hash_of(b),
    decreases a,
{
    match (a, b) {
        (TrieNode::Leaf { value: va }, TrieNode::Leaf { value: vb }) => {
            assert(lookup(a, Seq::<bool>::empty()) == lookup(b, Seq::<bool>::empty()));
        },
        (TrieNode::Binary { left: la, right: ra }, TrieNode::Binary { left: lb, right: rb }) => {
            assert forall|q: Seq<bool>| #[trigger] lookup(*la, q) == lookup(*lb, q) by {
                let q0 = seq![false] + q;
                assert(q0.skip(1) =~= q);
                assert(q0.len() >= 1 && !q0[0]);
                assert(lookup(a, q0) == lookup(b, q0));
            }
            assert forall|q: Seq<bool>| #[trigger] lookup(*ra, q) == lookup(*rb, q) by {
                let q0 = seq![true] + q;
                assert(q0.skip(1) =~= q);
                assert(q0.len() >= 1 && q0[0]);
                assert(lookup(a, q0) == lookup(b, q0));
            }
            lemma_node_hash_determined(*la, *lb, (h - 1) as nat);
            lemma_node_hash_determined(*ra, *rb, (h - 1) as nat);
        },
        (TrieNode::Edge { path: pa, child: ca }, TrieNode::Edge { path: pb, child: cb }) => {
            if pa@.len() != pb@.len() {
                // one path would be a strict prefix of the other; below the
                // shorter one the keys split, above the longer one they agree
                let (s, l, els, ell): (TrieNode, TrieNode, int, int) = if pa@.len() < pb@.len() {
                    (a, b, pa@.len() as int, pb@.len() as int)
                } else {
                    (b, a, pb@.len() as int, pa@.len() as int)
                };
                assert(forall|q: Seq<bool>| #[trigger] lookup(s, q) == lookup(l, q));
                assert(ell <= h);
                lemma_edge_continuations(s, h);
                let q1 = choose|q: Seq<bool>|
                    #[trigger] lookup(s, q) is Some && q.len() > els && !q[els];
                let q2 = choose|q: Seq<bool>|
                    #[trigger] lookup(s, q) is Some && q.len() > els && q[els];
                assert(lookup(l, q1) is Some);
                assert(lookup(l, q2) is Some);
                let pl = l->Edge_path@;
                assert(q1.take(ell) == pl && q2.take(ell) == pl);
                assert(q1.take(ell)[els] == q1[els]);
                assert(q2.take(ell)[els] == q2[els]);
                assert(false);
            } else {
                let el = pa@.len() as int;
                lemma_witness(*ca, (h - pa@.len()) as nat);
                let wa = witness_key(*ca);
                let qa = pa@ + wa;
                assert(qa.take(el) =~= pa@);
                assert(qa.skip(el) =~= wa);
                assert(lookup(a, qa) is Some);
                assert(lookup(b, qa) is Some);
                assert(qa.take(el) == pb@);
                assert(pa@ == pb@);
                assert forall|q: Seq<bool>| #[trigger] lookup(*ca, q) == lookup(*cb, q) by {
                    let q0 = pa@ + q;
                    assert(q0.take(el) =~= pa@);
                    assert(q0.skip(el) =~= q);
                    assert(lookup(a, q0) == lookup(*ca, q));
                    assert(lookup(b, q0) == lookup(*cb, q));
                }
                lemma_node_hash_determined(*ca, *cb, (h - pa@.len()) as nat);
            }
        },
        (TrieNode::Binary { left, right }, TrieNode::Edge { path: pb, child: cb }) => {
            // a binary node holds keys through both sides; an edge node only
            // keys that begin with its path, whose first bit is fixed
            let elb = pb@.len() as int;
            lemma_witness(*left, (h - 1) as nat);
            lemma_witness(*right, (h - 1) as nat);
            let ql = seq![false] + witness_key(*left);
            let qr = seq![true] + witness_key(*right);
            assert(ql.skip(1) =~= witness_key(*left));
            assert(qr.skip(1) =~= witness_key(*right));
            assert(!ql[0] && qr[0]);
            assert(lookup(a, ql) is Some);
            assert(lookup(a, qr) is Some);
            assert(lookup(b, ql) is Some);
            assert(lookup(b, qr) is Some);
            assert(ql.take(elb) == pb@ && qr.take(elb) == pb@);
            assert(ql.take(elb)[0] == ql[0]);
            assert(qr.take(elb)[0] == qr[0]);
            assert(false);
        },
        (TrieNode::Edge { path: pa, child: ca }, TrieNode::Binary { left, right }) => {
            let ela = pa@.len() as int;
            lemma_witness(*left, (h - 1) as nat);
            lemma_witness(*right, (h - 1) as nat);
            let ql = seq![false] + witness_key(*left);
            let qr = seq![true] + witness_key(*right);
            assert(ql.skip(1) =~= witness_key(*left));
            assert(qr.skip(1) =~= witness_key(*right));
            assert(!ql[0] && qr[0]);
            assert(lookup(b, ql) is Some);
            assert(lookup(b, qr) is Some);
            assert(lookup(a, ql) is Some);
            assert(lookup(a, qr) is Some);
            assert(ql.take(ela) == pa@ && qr.take(ela) == pa@);
            assert(ql.take(ela)[0] == ql[0]);
            assert(qr.take(ela)[0] == qr[0]);
            assert(false);
        },
        _ => {
            assert(a is Leaf || b is Leaf);
        },
    }
}

/// Order independence and cross-implementation agreement, at the level of
/// whole tries: the root hash depends only on the final key/value map, not
/// on how it was built.
pub proof fn lemma_root_hash_determined_by_contents(a: Trie, b: Trie)
    requires
        a.wf(),
        b.wf(),
        a@ == b@,
    ensures
        a.root_hash_spec() == b.root_hash_spec(),
{
    let ma = Map::new(
        |q: Seq<bool>| root_lookup(a.root, q) is Some,
        |q: Seq<bool>| root_lookup(a.root, q)->Some_0,
    );
    let mb = Map::new(
        |q: Seq<bool>| root_lookup(b.root, q) is Some,
        |q: Seq<bool>| root_lookup(b.root, q)->Some_0,
    );
    assert(a@ == ma);
    assert(b@ == mb);
    assert forall|q: Seq<bool>| #[trigger] root_lookup(a.root, q) == root_lookup(b.root, q) by {
        assert(ma.dom().contains(q) == root_lookup(a.root, q) is Some);
        assert(mb.dom().contains(q) == root_lookup(b.root, q) is Some);
        if root_lookup(a.root, q) is Some {
            assert(mb.dom().contains(q));
            assert(ma[q] == root_lookup(a.root, q)->Some_0);
            assert(mb[q] == root_lookup(b.root, q)->Some_0);
        }
    }
    match (a.root, b.root) {
        (None, None) => {
            assert(a.root_hash_spec() == 0 && b.root_hash_spec() == 0);
        },
        (Some(na), Some(nb)) => {
            assert forall|q: Seq<bool>| #[trigger] lookup(na, q) == lookup(nb, q) by {
                assert(root_lookup(a.root, q) == root_lookup(b.root, q));
            }
            assert(wf_node(na, 251));
            assert(wf_node(nb, 251));
            lemma_node_hash_determined(na, nb, 251);
            assert(a.root_hash_spec() == hash_of(na));
            assert(b.root_hash_spec() == hash_of(nb));
        },
        (Some(na), None) => {
            assert(wf_node(na, 251));
            lemma_witness(na, 251);
            assert(root_lookup(a.root, witness_key(na)) is Some);
            assert(root_lookup(b.root, witness_key(na)) is None);
            assert(false);
        },
        (None, Some(nb)) => {
            assert(wf_node(nb, 251));
            lemma_witness(nb, 251);
            assert(root_lookup(b.root, witness_key(nb)) is Some);
            assert(root_lookup(a.root, witness_key(nb)) is None);
            assert(false);
        },
    }
}

/// Overwrite correctness at the level of contents: writing value `x` and
/// then value `y` under one key leaves exactly the contents that writing
/// `y` alone leaves. With the canonicity law above, the two tries then
/// share one root hash.
pub proof fn lemma_overwrite_contents(m: Map<Seq<bool>, nat>, k: Seq<bool>, x: nat, y: nat)
    ensures
        m.insert(k, x).insert(k, y) == m.insert(k, y),
{
    assert(m.insert(k, x).insert(k, y) =~= m.insert(k, y));
}

/// Inserts of distinct keys commute on the contents; with the canonicity
/// law, any permutation of a set of writes commits to one root hash.
pub proof fn lemma_insert_commutes(m: Map<Seq<bool>, nat>, k1: Seq<bool>, v1: nat, k2: Seq<bool>, v2: nat)
    requires
        k1 != k2,
    ensures
        m.insert(k1, v1).insert(k2, v2) == m.insert(k2, v2).insert(k1, v1),
{
    assert(m.insert(k1, v1).insert(k2, v2) =~= m.insert(k2, v2).insert(k1, v1));
}


/// What well-formedness of a trie gives its crate-internal users.
pub(crate) proof fn lemma_trie_parts(t: Trie)
    requires
        t.wf(),
    ensures
        t.root matches Some(n) ==> wf_node(n, 251) && t.root_hash_spec() == hash_of(n),
        t.root is None ==> t.root_hash_spec() == 0,
        t.is_empty_spec() == (t.root is None),
        t.leaves_map() == pairs_map(t.leaves@),
        forall|i: int| 0 <= i < t.leaves@.len()
            ==> (#[trigger] t.leaves@[i]).0.wf() && t.leaves@[i].1.wf(),
{
}

} // verus!
