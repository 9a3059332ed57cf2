//! The commit engine and the content-addressed store: dirty nodes are hashed
//! bottom-up into a pending update, deduplicated by hash against the store,
//! then every child reference is resolved to a storage index and the new
//! entries are persisted append-only.

use vstd::prelude::*;
use crate::felt::Felt;
use crate::hashing::{binary_hash, edge_hash};
use crate::trie::{Trie, TrieNode, wf_node, hash_of, pairs_map, sub_bits, lemma_trie_parts};
use crate::bytes::key_bits;
use crate::err::TrieError;

verus! {

/// A pre-resolution reference to a child subtree: by content hash for nodes
/// first seen in this commit, by storage index for subtrees already
/// persisted by an earlier commit.
pub enum ChildRef {
    ByHash(Felt),
    ByIndex(u64),
}

/// A node of the pending commit update, children still unresolved.
pub enum PendingNode {
    Binary { left: ChildRef, right: ChildRef },
    Edge { path: Vec<bool>, child: ChildRef },
    LeafBinary,
    LeafEdge { path: Vec<bool> },
}

/// A node as durably stored: children are storage indices.
pub enum StoredNode {
    Binary { left: u64, right: u64 },
    Edge { path: Vec<bool>, child: u64 },
    LeafBinary,
    LeafEdge { path: Vec<bool> },
}

pub struct StoredEntry {
    pub hash: Felt,
    pub node: StoredNode,
}

/// The durable state: `nodes[i]` is the entry at storage index `i`
/// (append-only, hashes unique), plus the full key-to-value store.
pub struct StoredTrie {
    pub nodes: Vec<StoredEntry>,
    pub leaves: Vec<(Felt, Felt)>,
}

/// What one commit returns: the root digest, and the root's storage index
/// (absent for the empty trie, whose root is the zero sentinel).
pub struct CommitOutcome {
    pub root_hash: Felt,
    pub root_index: Option<u64>,
}

/// Whether some stored entry carries the hash value `h`.
pub open spec fn has_hash(s: Seq<StoredEntry>, h: nat) -> bool {
    exists|i: int| 0 <= i < s.len() && (#[trigger] s[i]).hash.val() == h
}

/// Whether some pending entry carries the hash value `h`.
pub open spec fn uhas(u: Seq<(Felt, PendingNode)>, h: nat) -> bool {
    exists|i: int| 0 <= i < u.len() && (#[trigger] u[i]).0.val() == h
}

/// The hash value a child reference stands for.
pub open spec fn cref_hash(s: Seq<StoredEntry>, c: ChildRef) -> nat {
    match c {
        ChildRef::ByHash(f) => f.val(),
        ChildRef::ByIndex(ix) => s[ix as int].hash.val(),
    }
}

/// A child reference is resolvable: an index points into the store, a hash
/// is carried by the store or by an earlier pending entry.
pub open spec fn cref_ok(s: Seq<StoredEntry>, upfx: Seq<(Felt, PendingNode)>, c: ChildRef) -> bool {
    match c {
        ChildRef::ByHash(f) => f.wf() && (has_hash(s, f.val()) || uhas(upfx, f.val())),
        ChildRef::ByIndex(ix) => 0 <= ix < s.len(),
    }
}

/// Entry `i` of a pending update is coherent: its children are resolvable
/// using only earlier entries, and its hash is the digest of its content.
pub open spec fn pending_ok(s: Seq<StoredEntry>, u: Seq<(Felt, PendingNode)>, i: int) -> bool {
    match u[i].1 {
        PendingNode::Binary { left, right } => {
            &&& cref_ok(s, u.take(i), left)
            &&& cref_ok(s, u.take(i), right)
            &&& u[i].0.val() == binary_hash(cref_hash(s, left), cref_hash(s, right))
        },
        PendingNode::Edge { path, child } => {
            &&& cref_ok(s, u.take(i), child)
            &&& 1 <= path@.len() <= 251
            &&& u[i].0.val() == edge_hash(cref_hash(s, child), path@)
        },
        PendingNode::LeafBinary => true,
        PendingNode::LeafEdge { path } => 1 <= path@.len() <= 251,
    }
}

/// A coherent pending update against the store `s`: every entry coherent,
/// canonical, new to the store, and no hash pending twice.
pub open spec fn update_wf(s: Seq<StoredEntry>, u: Seq<(Felt, PendingNode)>) -> bool {
    &&& forall|i: int| 0 <= i < u.len() ==> pending_ok(s, u, i)
    &&& forall|i: int| 0 <= i < u.len() ==> (#[trigger] u[i]).0.wf()
    &&& forall|i: int| 0 <= i < u.len() ==> !has_hash(s, (#[trigger] u[i]).0.val())
    &&& forall|i: int, j: int| 0 <= i < j < u.len() ==> u[i].0.val() != u[j].0.val()
}

/// Entry `i` of the store is coherent: children point at earlier indices
/// and the entry's hash is the digest of its content.
pub open spec fn entry_ok(s: Seq<StoredEntry>, i: int) -> bool {
    match s[i].node {
        StoredNode::Binary { left, right } => {
            &&& 0 <= left < i
            &&& 0 <= right < i
            &&& s[i].hash.val() == binary_hash(s[left as int].hash.val(), s[right as int].hash.val())
        },
        StoredNode::Edge { path, child } => {
            &&& 0 <= child < i
            &&& 1 <= path@.len() <= 251
            &&& s[i].hash.val() == edge_hash(s[child as int].hash.val(), path@)
        },
        StoredNode::LeafBinary => true,
        StoredNode::LeafEdge { path } => 1 <= path@.len() <= 251,
    }
}

impl StoredTrie {
    /// Content addressing holds: entries are coherent, every hash has
    /// exactly one index, everything is canonical.
    pub open spec fn wf(self) -> bool {
        &&& forall|i: int| 0 <= i < self.nodes@.len() ==> entry_ok(self.nodes@, i)
        &&& forall|i: int| 0 <= i < self.nodes@.len() ==> (#[trigger] self.nodes@[i]).hash.wf()
        &&& forall|i: int, j: int| 0 <= i < j < self.nodes@.len()
            ==> self.nodes@[i].hash.val() != self.nodes@[j].hash.val()
        &&& forall|i: int| 0 <= i < self.leaves@.len()
            ==> (#[trigger] self.leaves@[i]).0.wf() && self.leaves@[i].1.wf()
    }

    /// The key-to-value store, later writes superseding earlier ones.
    pub open spec fn leaves_map(self) -> Map<nat, nat> {
        pairs_map(self.leaves@)
    }

    pub fn new() -> (s: StoredTrie)
        ensures
            s.wf(),
            s.nodes@.len() == 0,
            s.leaves_map() == Map::<nat, nat>::empty(),
    {
        StoredTrie { nodes: Vec::new(), leaves: Vec::new() }
    }
}

/// Every hash of the subtree rooted at `n` is carried by the store or the
/// update; a leaf under an edge is part of its parent's stored entry.
pub open spec fn covered(n: TrieNode, s: Seq<StoredEntry>, u: Seq<(Felt, PendingNode)>) -> bool
    decreases n,
{
    &&& (has_hash(s, hash_of(n)) || uhas(u, hash_of(n)))
    &&& match n {
        TrieNode::Binary { left, right } => covered(*left, s, u) && covered(*right, s, u),
        TrieNode::Edge { path, child } => if *child is Leaf {
            true
        } else {
            covered(*child, s, u)
        },
        TrieNode::Leaf { value } => true,
    }
}

proof fn lemma_covered_extend(n: TrieNode, s: Seq<StoredEntry>, u1: Seq<(Felt, PendingNode)>, u2: Seq<(Felt, PendingNode)>)
    requires
        covered(n, s, u1),
        forall|h: nat| uhas(u1, h) ==> uhas(u2, h),
    ensures
        covered(n, s, u2),
    decreases n,
{
    match n {
        TrieNode::Binary { left, right } => {
            lemma_covered_extend(*left, s, u1, u2);
            lemma_covered_extend(*right, s, u1, u2);
        },
        TrieNode::Edge { path, child } => {
            if !(*child is Leaf) {
                lemma_covered_extend(*child, s, u1, u2);
            }
        },
        TrieNode::Leaf { value } => {},
    }
}

proof fn lemma_uhas_push(u: Seq<(Felt, PendingNode)>, e: (Felt, PendingNode))
    ensures
        forall|h: nat| uhas(u, h) ==> uhas(u.push(e), h),
        uhas(u.push(e), e.0.val()),
{
    assert forall|h: nat| uhas(u, h) implies uhas(u.push(e), h) by {
        let i = choose|i: int| 0 <= i < u.len() && (#[trigger] u[i]).0.val() == h;
        assert(u.push(e)[i].0.val() == h);
    }
    assert(u.push(e)[u.len() as int].0.val() == e.0.val());
}

/// Pushing a coherent new entry keeps the whole update coherent.
proof fn lemma_update_push(s: Seq<StoredEntry>, u: Seq<(Felt, PendingNode)>, e: (Felt, PendingNode))
    requires
        update_wf(s, u),
        e.0.wf(),
        !has_hash(s, e.0.val()),
        !uhas(u, e.0.val()),
        pending_ok(s, u.push(e), u.len() as int),
    ensures
        update_wf(s, u.push(e)),
{
    let u2 = u.push(e);
    assert forall|i: int| 0 <= i < u2.len() implies pending_ok(s, u2, i) by {
        if i < u.len() {
            assert(pending_ok(s, u, i));
            assert(u2.take(i) =~= u.take(i));
            assert(u2[i] == u[i]);
        }
    }
    assert forall|i: int, j: int| 0 <= i < j < u2.len() implies u2[i].0.val() != u2[j].0.val() by {
        if j < u.len() {
        } else {
            assert(u2[j] == e);
            if u2[i].0.val() == e.0.val() {
                assert(uhas(u, e.0.val()));
            }
        }
    }
}

/// Looks the hash up in the store, returning its index if it is present.
fn find_hash(storage: &StoredTrie, h: &Felt) -> (r: Option<usize>)
    requires
        storage.wf(),
        h.wf(),
    ensures
        r matches Some(i) ==> i < storage.nodes@.len()
            && storage.nodes@[i as int].hash.val() == h.val(),
        r is None ==> !has_hash(storage.nodes@, h.val()),
{
    let mut i: usize = 0;
    let n = storage.nodes.len();
    while i < n
        invariant
            storage.wf(),
            h.wf(),
            n == storage.nodes@.len(),
            i <= n,
            forall|j: int| 0 <= j < i ==> (#[trigger] storage.nodes@[j]).hash.val() != h.val(),
        decreases n - i,
    {
        if storage.nodes[i].hash.eq_val(h) {
            return Some(i);
        }
        i = i + 1;
    }
    None
}

/// Looks the hash up among the pending entries.
fn find_pending(update: &Vec<(Felt, PendingNode)>, h: &Felt) -> (r: bool)
    requires
        forall|i: int| 0 <= i < update@.len() ==> (#[trigger] update@[i]).0.wf(),
        h.wf(),
    ensures
        r == uhas(update@, h.val()),
{
    let mut i: usize = 0;
    let n = update.len();
    while i < n
        invariant
            forall|j: int| 0 <= j < update@.len() ==> (#[trigger] update@[j]).0.wf(),
            h.wf(),
            n == update@.len(),
            i <= n,
            forall|j: int| 0 <= j < i ==> (#[trigger] update@[j]).0.val() != h.val(),
        decreases n - i,
    {
        if update[i].0.eq_val(h) {
            return true;
        }
        i = i + 1;
    }
    false
}

/// Builds the reference a parent entry records for a child of hash `h`: the
/// child's index where the store already holds it, its content hash where
/// it is pending in this update.
fn make_ref(storage: &StoredTrie, h: &Felt, update: &Vec<(Felt, PendingNode)>) -> (r: ChildRef)
    requires
        storage.wf(),
        h.wf(),
        has_hash(storage.nodes@, h.val()) || uhas(update@, h.val()),
    ensures
        cref_ok(storage.nodes@, update@, r),
        cref_hash(storage.nodes@, r) == h.val(),
{
    match find_hash(storage, h) {
        Some(i) => ChildRef::ByIndex(i as u64),
        None => ChildRef::ByHash(h.clone()),
    }
}


/// Extending a pending update never loses a pending hash.
proof fn lemma_uhas_prefix(u1: Seq<(Felt, PendingNode)>, u2: Seq<(Felt, PendingNode)>)
    requires
        u1.len() <= u2.len(),
        u2.take(u1.len() as int) == u1,
    ensures
        forall|h: nat| uhas(u1, h) ==> uhas(u2, h),
{
    assert forall|h: nat| uhas(u1, h) implies uhas(u2, h) by {
        let i = choose|i: int| 0 <= i < u1.len() && (#[trigger] u1[i]).0.val() == h;
        assert(u2.take(u1.len() as int)[i] == u2[i]);
        assert(u2[i].0.val() == h);
    }
}

/// Hashes the subtree at `n` bottom-up and collects into `update` every
/// node whose hash neither the store nor the update knows yet, children
/// referenced by index where stored, by hash where pending.
#[verifier::rlimit(100)]
#[verifier::spinoff_prover]
fn hash_and_collect(
    n: &TrieNode,
    storage: &StoredTrie,
    update: &mut Vec<(Felt, PendingNode)>,
    height: Ghost<nat>,
) -> (h: Felt)
    requires
        wf_node(*n, height@),
        height@ <= 251,
        storage.wf(),
        update_wf(storage.nodes@, old(update)@),
    ensures
        h.wf(),
        h.val() == hash_of(*n),
        update_wf(storage.nodes@, final(update)@),
        old(update)@.len() <= final(update)@.len(),
        final(update)@.take(old(update)@.len() as int) == old(update)@,
        covered(*n, storage.nodes@, final(update)@),
        covered(*n, storage.nodes@, old(update)@) ==> final(update)@ == old(update)@,
    decreases *n,
{
    let ghost u0 = update@;
    let h: Felt;
    let pend: PendingNode;
    match n {
        TrieNode::Leaf { value } => {
            h = value.clone();
            pend = PendingNode::LeafBinary;
        },
        TrieNode::Binary { left, right } => {
            let hl = hash_and_collect(&**left, storage, update, Ghost((height@ - 1) as nat));
            let ghost u1 = update@;
            let hr = hash_and_collect(&**right, storage, update, Ghost((height@ - 1) as nat));
            let ghost u2 = update@;
            proof {
                lemma_uhas_prefix(u1, u2);
                lemma_covered_extend(**left, storage.nodes@, u1, u2);
                assert forall|j: int| 0 <= j < u0.len() implies u2[j] == u0[j] by {
                    assert(u2.take(u1.len() as int)[j] == u2[j]);
                    assert(u1.take(u0.len() as int)[j] == u1[j]);
                }
                assert(u2.take(u0.len() as int) =~= u0);
            }
            let cl = make_ref(storage, &hl, update);
            let cr = make_ref(storage, &hr, update);
            h = crate::hashing::binary_node_hash(&hl, &hr);
            proof {
                assert(cref_ok(storage.nodes@, update@, cl));
                assert(cref_ok(storage.nodes@, update@, cr));
                assert(h.val() == binary_hash(cref_hash(storage.nodes@, cl), cref_hash(storage.nodes@, cr)));
            }
            pend = PendingNode::Binary { left: cl, right: cr };
        },
        TrieNode::Edge { path, child } => {
            proof {
                assert(wf_node(*n, height@));
                assert(1 <= path@.len() <= height@);
            }
            match &**child {
                TrieNode::Leaf { value } => {
                    proof {
                        assert(wf_node(**child, (height@ - path@.len()) as nat));
                        assert(value.wf());
                        assert(hash_of(**child) == value.val());
                        assert(hash_of(*n) == edge_hash(value.val(), path@));
                    }
                    let hv = value.clone();
                    h = crate::hashing::edge_node_hash(&hv, path);
                    let ps = sub_bits(path, 0, path.len());
                    proof {
                        assert(ps@ =~= path@);
                    }
                    pend = PendingNode::LeafEdge { path: ps };
                },
                _ => {
                    let hc = hash_and_collect(
                        &**child,
                        storage,
                        update,
                        Ghost((height@ - path@.len()) as nat),
                    );
                    let cc = make_ref(storage, &hc, update);
                    h = crate::hashing::edge_node_hash(&hc, path);
                    proof {
                        assert(cref_ok(storage.nodes@, update@, cc));
                        assert(h.val() == edge_hash(cref_hash(storage.nodes@, cc), path@));
                    }
                    let ps = sub_bits(path, 0, path.len());
                    proof {
                        assert(ps@ =~= path@);
                    }
                    pend = PendingNode::Edge { path: ps, child: cc };
                },
            }
        },
    }
    let ghost umid = update@;
    let fh = find_hash(storage, &h);
    let in_store = fh.is_some();
    proof {
        match fh {
            Some(i) => {
                assert(storage.nodes@[i as int].hash.val() == h.val());
                assert(has_hash(storage.nodes@, h.val()));
            },
            None => {},
        }
    }
    let in_pending = find_pending(update, &h);
    let keep: Felt;
    if !in_store && !in_pending {
        proof {
            assert(update@.push((h, pend)).take(update@.len() as int) =~= update@);
            assert(update@.push((h, pend))[update@.len() as int] == (h, pend));
            assert(pending_ok(storage.nodes@, update@.push((h, pend)), update@.len() as int));
            lemma_uhas_push(update@, (h, pend));
            lemma_update_push(storage.nodes@, update@, (h, pend));
        }
        keep = h.clone();
        update.push((h, pend));
        proof {
            assert(uhas(update@, keep.val()));
        }
    } else {
        keep = h;
    }
    proof {
        let uf = update@;
        assert(umid.len() <= uf.len());
        assert(uf.take(umid.len() as int) =~= umid);
        lemma_uhas_prefix(umid, uf);
        assert(uf.take(u0.len() as int) =~= u0);
        assert(has_hash(storage.nodes@, keep.val()) || uhas(uf, keep.val()));
        match n {
            TrieNode::Binary { left, right } => {
                lemma_covered_extend(**left, storage.nodes@, umid, uf);
                lemma_covered_extend(**right, storage.nodes@, umid, uf);
            },
            TrieNode::Edge { path, child } => {
                if !(**child is Leaf) {
                    lemma_covered_extend(**child, storage.nodes@, umid, uf);
                }
            },
            TrieNode::Leaf { value } => {},
        }
        assert(covered(*n, storage.nodes@, uf));
        if covered(*n, storage.nodes@, u0) {
            assert(uf =~= u0);
        }
    }
    keep
}


/// Resolves one child reference against the store: an index stands as it
/// is, a hash must already have an assigned index. A hash never assigned
/// one is reported as `UnresolvedChildReference`, never a panic.
fn resolve_ref(storage: &StoredTrie, c: &ChildRef) -> (r: Result<u64, TrieError>)
    requires
        storage.wf(),
        c matches ChildRef::ByHash(f) ==> f.wf(),
        c matches ChildRef::ByIndex(ix) ==> ix < storage.nodes@.len(),
    ensures
        forall|f: Felt| *c == ChildRef::ByHash(f) && has_hash(storage.nodes@, f.val())
            ==> (r matches Ok(ix) && ix < storage.nodes@.len()
                && storage.nodes@[ix as int].hash.val() == f.val()),
        forall|f: Felt| *c == ChildRef::ByHash(f) && !has_hash(storage.nodes@, f.val())
            ==> r == Err::<u64, TrieError>(TrieError::UnresolvedChildReference),
        forall|ix: u64| *c == ChildRef::ByIndex(ix) ==> r == Ok::<u64, TrieError>(ix),
{
    match c {
        ChildRef::ByIndex(ix) => Ok(*ix),
        ChildRef::ByHash(f) => {
            match find_hash(storage, f) {
                Some(i) => Ok(i as u64),
                None => Err(TrieError::UnresolvedChildReference),
            }
        },
    }
}

/// Persists a coherent pending update: each entry in order gets the next
/// index, its children resolved to indices. The store stays append-only,
/// content-addressed and duplicate-free.
#[verifier::rlimit(100)]
#[verifier::spinoff_prover]
fn persist_update(update: Vec<(Felt, PendingNode)>, storage: &mut StoredTrie) -> (res: Result<(), TrieError>)
    requires
        old(storage).wf(),
        update_wf(old(storage).nodes@, update@),
    ensures
        res is Ok,
        final(storage).wf(),
        final(storage).nodes@.len() == old(storage).nodes@.len() + update@.len(),
        final(storage).nodes@.take(old(storage).nodes@.len() as int) == old(storage).nodes@,
        forall|j: int| 0 <= j < update@.len()
            ==> final(storage).nodes@[old(storage).nodes@.len() + j].hash.val()
                == (#[trigger] update@[j]).0.val(),
        final(storage).leaves@ == old(storage).leaves@,
{
    let ghost s0 = old(storage).nodes@;
    let ghost n0 = old(storage).nodes@.len() as int;
    let n = update.len();
    let mut i: usize = 0;
    while i < n
        invariant
            n == update@.len(),
            i <= n,
            update_wf(s0, update@),
            storage.wf(),
            storage.nodes@.len() == n0 + i,
            storage.nodes@.take(n0) == s0,
            forall|j: int| 0 <= j < i
                ==> (#[trigger] storage.nodes@[n0 + j]).hash.val() == update@[j].0.val(),
            storage.leaves@ == old(storage).leaves@,
            n0 == s0.len(),
        decreases n - i,
    {
        let ghost scur = storage.nodes@;
        proof {
            assert(pending_ok(s0, update@, i as int));
            assert forall|j: int| 0 <= j < n0 implies storage.nodes@[j] == s0[j] by {
                assert(storage.nodes@.take(n0)[j] == storage.nodes@[j]);
            }
            assert forall|hv: nat| has_hash(s0, hv) || uhas(update@.take(i as int), hv)
                implies has_hash(storage.nodes@, hv) by {
                if has_hash(s0, hv) {
                    let j = choose|j: int| 0 <= j < s0.len() && (#[trigger] s0[j]).hash.val() == hv;
                    assert(storage.nodes@[j].hash.val() == hv);
                } else {
                    let j = choose|j: int| 0 <= j < update@.take(i as int).len()
                        && (#[trigger] update@.take(i as int)[j]).0.val() == hv;
                    assert(update@[j].0.val() == hv);
                    assert(storage.nodes@[n0 + j].hash.val() == hv);
                }
            }
        }
        let entry = &update[i];
        let node: StoredNode;
        match &entry.1 {
            PendingNode::LeafBinary => {
                node = StoredNode::LeafBinary;
            },
            PendingNode::LeafEdge { path } => {
                node = StoredNode::LeafEdge { path: sub_bits(path, 0, path.len()) };
                proof {
                    assert(node->LeafEdge_path@ =~= entry.1->LeafEdge_path@);
                }
            },
            PendingNode::Binary { left, right } => {
                let li = match resolve_ref(storage, left) {
                    Ok(ix) => ix,
                    Err(e) => {
                        proof {
                            assert(false);
                        }
                        return Err(e);
                    },
                };
                let ri = match resolve_ref(storage, right) {
                    Ok(ix) => ix,
                    Err(e) => {
                        proof {
                            assert(false);
                        }
                        return Err(e);
                    },
                };
                node = StoredNode::Binary { left: li, right: ri };
                proof {
                    assert(storage.nodes@[li as int].hash.val() == cref_hash(s0, *left));
                    assert(storage.nodes@[ri as int].hash.val() == cref_hash(s0, *right));
                }
            },
            PendingNode::Edge { path, child } => {
                let ci = match resolve_ref(storage, child) {
                    Ok(ix) => ix,
                    Err(e) => {
                        proof {
                            assert(false);
                        }
                        return Err(e);
                    },
                };
                let ps = sub_bits(path, 0, path.len());
                proof {
                    assert(ps@ =~= path@);
                    assert(storage.nodes@[ci as int].hash.val() == cref_hash(s0, *child));
                }
                node = StoredNode::Edge { path: ps, child: ci };
            },
        }
        let hcopy = update[i].0.clone();
        let ghost newentry = StoredEntry { hash: hcopy, node };
        storage.nodes.push(StoredEntry { hash: hcopy, node });
        proof {
            assert(storage.nodes@ =~= scur.push(newentry));
            assert(storage.nodes@.take(n0) =~= s0);
            assert(entry_ok(storage.nodes@, n0 + i));
            assert forall|j: int| 0 <= j < storage.nodes@.len() implies entry_ok(storage.nodes@, j)
                && (#[trigger] storage.nodes@[j]).hash.wf() by {
                if j < storage.nodes@.len() - 1 {
                    assert(storage.nodes@[j] == scur[j]);
                    assert(entry_ok(scur, j));
                    match scur[j].node {
                        StoredNode::Binary { left, right } => {
                            assert(storage.nodes@[left as int] == scur[left as int]);
                            assert(storage.nodes@[right as int] == scur[right as int]);
                        },
                        StoredNode::Edge { path, child } => {
                            assert(storage.nodes@[child as int] == scur[child as int]);
                        },
                        StoredNode::LeafBinary => {},
                        StoredNode::LeafEdge { path } => {},
                    }
                }
            }
            assert forall|j: int, j2: int| 0 <= j < j2 < storage.nodes@.len()
                implies storage.nodes@[j].hash.val() != storage.nodes@[j2].hash.val() by {
                if j2 == storage.nodes@.len() - 1 {
                    if j < n0 {
                        assert(storage.nodes@[j] == s0[j]);
                        if s0[j].hash.val() == update@[i as int].0.val() {
                            assert(has_hash(s0, update@[i as int].0.val()));
                        }
                    } else {
                        assert(storage.nodes@[j] == scur[j]);
                        assert(scur[n0 + (j - n0)].hash.val() == update@[j - n0].0.val());
                        assert(scur[j].hash.val() == update@[j - n0].0.val());
                        assert(storage.nodes@[j2].hash.val() == update@[i as int].0.val());
                    }
                } else {
                    assert(storage.nodes@[j] == scur[j]);
                    assert(storage.nodes@[j2] == scur[j2]);
                }
            }
        }
        i = i + 1;
    }
    proof {
        assert(storage.nodes@.take(n0) == s0);
    }
    Ok(())
}


/// Once the update is persisted, everything it or the old store carried is
/// in the store, so the whole subtree is stored.
proof fn lemma_covered_transfer(
    n: TrieNode,
    s1: Seq<StoredEntry>,
    u: Seq<(Felt, PendingNode)>,
    s2: Seq<StoredEntry>,
)
    requires
        covered(n, s1, u),
        forall|h: nat| has_hash(s1, h) ==> has_hash(s2, h),
        forall|h: nat| uhas(u, h) ==> has_hash(s2, h),
    ensures
        covered(n, s2, Seq::<(Felt, PendingNode)>::empty()),
    decreases n,
{
    match n {
        TrieNode::Binary { left, right } => {
            lemma_covered_transfer(*left, s1, u, s2);
            lemma_covered_transfer(*right, s1, u, s2);
        },
        TrieNode::Edge { path, child } => {
            if !(*child is Leaf) {
                lemma_covered_transfer(*child, s1, u, s2);
            }
        },
        TrieNode::Leaf { value } => {},
    }
}

/// The whole node graph of the trie is already content-addressed in the
/// store.
pub closed spec fn all_nodes_stored(t: Trie, s: StoredTrie) -> bool {
    match t.root {
        None => true,
        Some(n) => covered(n, s.nodes@, Seq::<(Felt, PendingNode)>::empty()),
    }
}

/// Commits the trie: hashes every node bottom-up, assigns a fresh index to
/// each hash the store does not know, resolves all child references, and
/// persists nodes and leaf writes. Returns the root hash (zero for the
/// empty trie) and the root's index. Re-committing a trie whose nodes are
/// all stored assigns nothing new.
#[verifier::rlimit(100)]
#[verifier::spinoff_prover]
pub fn commit(trie: &Trie, storage: &mut StoredTrie) -> (res: Result<CommitOutcome, TrieError>)
    requires
        trie.wf(),
        old(storage).wf(),
    ensures
        final(storage).wf(),
        res matches Ok(out) && out.root_hash.wf()
            && out.root_hash.val() == trie.root_hash_spec(),
        old(storage).nodes@.len() <= final(storage).nodes@.len(),
        final(storage).nodes@.take(old(storage).nodes@.len() as int) == old(storage).nodes@,
        final(storage).leaves_map()
            == old(storage).leaves_map().union_prefer_right(trie.leaves_map()),
        trie.is_empty_spec() ==> (res matches Ok(out) && out.root_index is None
            && out.root_hash.val() == 0)
            && final(storage).nodes@ == old(storage).nodes@,
        !trie.is_empty_spec() ==> (res matches Ok(out) && out.root_index matches Some(ix)
            && ix < final(storage).nodes@.len()
            && final(storage).nodes@[ix as int].hash.val() == trie.root_hash_spec()),
        all_nodes_stored(*trie, *final(storage)),
        all_nodes_stored(*trie, *old(storage))
            ==> final(storage).nodes@ == old(storage).nodes@,
{
    proof {
        lemma_trie_parts(*trie);
    }
    // persist the leaf writes of this commit into the value store
    let ln = trie.leaves.len();
    let mut i: usize = 0;
    let ghost l0 = storage.leaves@;
    while i < ln
        invariant
            ln == trie.leaves@.len(),
            i <= ln,
            forall|j: int| 0 <= j < trie.leaves@.len()
                ==> (#[trigger] trie.leaves@[j]).0.wf() && trie.leaves@[j].1.wf(),
            forall|j: int| 0 <= j < storage.leaves@.len()
                ==> (#[trigger] storage.leaves@[j]).0.wf() && storage.leaves@[j].1.wf(),
            pairs_map(storage.leaves@)
                == pairs_map(l0).union_prefer_right(pairs_map(trie.leaves@.take(i as int))),
            storage.nodes@ == old(storage).nodes@,
            storage.wf(),
        decreases ln - i,
    {
        let p = &trie.leaves[i];
        let kc = p.0.clone();
        let vc = p.1.clone();
        let ghost lcur = storage.leaves@;
        storage.leaves.push((kc, vc));
        proof {
            assert(storage.leaves@.drop_last() =~= lcur);
            assert(trie.leaves@.take(i + 1).drop_last() =~= trie.leaves@.take(i as int));
            assert(trie.leaves@.take(i + 1).last() == trie.leaves@[i as int]);
            assert(pairs_map(storage.leaves@)
                == pairs_map(lcur).insert(kc.val(), vc.val()));
            assert(pairs_map(l0).union_prefer_right(pairs_map(trie.leaves@.take(i + 1)))
                =~= pairs_map(l0).union_prefer_right(pairs_map(trie.leaves@.take(i as int)))
                    .insert(trie.leaves@[i as int].0.val(), trie.leaves@[i as int].1.val()));
        }
        i = i + 1;
    }
    proof {
        assert(trie.leaves@.take(ln as int) =~= trie.leaves@);
    }
    match &trie.root {
        None => {
            Ok(CommitOutcome { root_hash: Felt::from_u64(0), root_index: None })
        },
        Some(node) => {
            let ghost s_old = storage.nodes@;
            let mut update: Vec<(Felt, PendingNode)> = Vec::new();
            let h = hash_and_collect(node, storage, &mut update, Ghost(251nat));
            let ghost ufinal = update@;
            proof {
                assert(ufinal.take(0) =~= Seq::<(Felt, PendingNode)>::empty());
                if all_nodes_stored(*trie, *old(storage)) {
                    assert(ufinal =~= Seq::<(Felt, PendingNode)>::empty());
                }
            }
            let ghost nodes_before = storage.nodes@;
            match persist_update(update, storage) {
                Err(e) => {
                    proof {
                        assert(false);
                    }
                    Err(e)
                },
                Ok(()) => {
                    proof {
                        let n0 = nodes_before.len() as int;
                        assert forall|hv: nat| has_hash(nodes_before, hv)
                            implies has_hash(storage.nodes@, hv) by {
                            let j = choose|j: int| 0 <= j < nodes_before.len()
                                && (#[trigger] nodes_before[j]).hash.val() == hv;
                            assert(storage.nodes@.take(n0)[j] == storage.nodes@[j]);
                            assert(storage.nodes@[j].hash.val() == hv);
                        }
                        assert forall|hv: nat| uhas(ufinal, hv)
                            implies has_hash(storage.nodes@, hv) by {
                            let j = choose|j: int| 0 <= j < ufinal.len()
                                && (#[trigger] ufinal[j]).0.val() == hv;
                            assert(storage.nodes@[n0 + j].hash.val() == hv);
                        }
                        lemma_covered_transfer(*node, nodes_before, ufinal, storage.nodes@);
                        assert(has_hash(storage.nodes@, h.val()));
                    }
                    match find_hash(storage, &h) {
                        Some(ix) => {
                            Ok(CommitOutcome { root_hash: h, root_index: Some(ix as u64) })
                        },
                        None => {
                            proof {
                                assert(false);
                            }
                            Err(TrieError::UnresolvedChildReference)
                        },
                    }
                },
            }
        },
    }
}

/// The contents that a sequence of raw key/value writes builds: each key is
/// encoded to its 251-bit path, later writes superseding earlier ones.
pub open spec fn pairs_trie_map(s: Seq<(Felt, Felt)>) -> Map<Seq<bool>, nat>
    decreases s.len(),
{
    if s.len() == 0 {
        Map::empty()
    } else {
        pairs_trie_map(s.drop_last()).insert(key_bits(s.last().0@), s.last().1.val())
    }
}

/// Builds a fresh trie from the key/value pairs (in order, later writes
/// winning), commits it against the store, and returns the root hash: the
/// digest of the well-formed trie holding exactly those contents.
pub fn storage_root(pairs: &Vec<(Felt, Felt)>, storage: &mut StoredTrie) -> (res: Result<Felt, TrieError>)
    requires
        old(storage).wf(),
        forall|i: int| 0 <= i < pairs@.len()
            ==> (#[trigger] pairs@[i]).0.wf() && pairs@[i].1.wf(),
    ensures
        final(storage).wf(),
        res matches Ok(r) && r.wf(),
        exists|t: Trie| t.wf() && t@ == pairs_trie_map(pairs@)
            && (res matches Ok(r) && r.val() == #[trigger] t.root_hash_spec()),
{
    let mut t = crate::trie::Trie::new();
    let n = pairs.len();
    let mut i: usize = 0;
    while i < n
        invariant
            n == pairs@.len(),
            i <= n,
            forall|j: int| 0 <= j < pairs@.len()
                ==> (#[trigger] pairs@[j]).0.wf() && pairs@[j].1.wf(),
            t.wf(),
            t@ == pairs_trie_map(pairs@.take(i as int)),
        decreases n - i,
    {
        let p = &pairs[i];
        t.insert(&p.0, &p.1);
        proof {
            assert(pairs@.take(i + 1).drop_last() =~= pairs@.take(i as int));
            assert(pairs@.take(i + 1).last() == pairs@[i as int]);
        }
        i = i + 1;
    }
    proof {
        assert(pairs@.take(n as int) =~= pairs@);
    }
    match commit(&t, storage) {
        Ok(out) => {
            proof {
                assert(t.wf() && t@ == pairs_trie_map(pairs@)
                    && out.root_hash.val() == t.root_hash_spec());
            }
            Ok(out.root_hash)
        },
        Err(e) => {
            proof {
                assert(false);
            }
            Err(e)
        },
    }
}


/// No two writes in the sequence address the same trie path.
pub open spec fn distinct_keys(s: Seq<(Felt, Felt)>) -> bool {
    forall|i: int, j: int| 0 <= i < j < s.len()
        ==> key_bits(s[i].0@) != key_bits(s[j].0@)
}

/// With distinct keys, a write anywhere in the sequence can be read off
/// last: the contents are the rest's contents plus that binding.
proof fn lemma_pairs_trie_map_remove(s: Seq<(Felt, Felt)>, i: int)
    requires
        0 <= i < s.len(),
        distinct_keys(s),
    ensures
        pairs_trie_map(s)
            == pairs_trie_map(s.remove(i)).insert(key_bits(s[i].0@), s[i].1.val()),
    decreases s.len(),
{
    if i == s.len() - 1 {
        assert(s.remove(i) =~= s.drop_last());
    } else {
        let sdl = s.drop_last();
        assert(distinct_keys(sdl));
        lemma_pairs_trie_map_remove(sdl, i);
        crate::trie::lemma_insert_commutes(
            pairs_trie_map(sdl.remove(i)),
            key_bits(s[i].0@),
            s[i].1.val(),
            key_bits(s.last().0@),
            s.last().1.val(),
        );
        assert(s.remove(i).drop_last() =~= sdl.remove(i));
        assert(s.remove(i).last() == s.last());
        assert(pairs_trie_map(s.remove(i))
            == pairs_trie_map(sdl.remove(i)).insert(key_bits(s.last().0@), s.last().1.val()));
    }
}

/// Order independence of the contents: two sequences of writes that are
/// permutations of one another, no two writes addressing one path, build
/// exactly the same contents — and so, by the canonicity law, tries that
/// commit to one root hash.
pub proof fn lemma_order_independence(p1: Seq<(Felt, Felt)>, p2: Seq<(Felt, Felt)>)
    requires
        p1.to_multiset() == p2.to_multiset(),
        distinct_keys(p1),
    ensures
        pairs_trie_map(p1) == pairs_trie_map(p2),
    decreases p1.len(),
{
    broadcast use vstd::seq_lib::group_to_multiset_ensures;

    p1.to_multiset_ensures();
    p2.to_multiset_ensures();
    assert(p1.to_multiset().len() == p2.to_multiset().len());
    assert(p1.len() == p2.len());
    if p2.len() == 0 {
        assert(p1 =~= Seq::<(Felt, Felt)>::empty());
    } else {
        let e = p2.last();
        assert(p2.contains(e));
        assert(p1.to_multiset().count(e) > 0);
        assert(p1.contains(e));
        let i = choose|i: int| 0 <= i < p1.len() && p1[i] == e;
        assert(p2.remove(p2.len() - 1) =~= p2.drop_last());
        assert(p1.remove(i).to_multiset() =~= p1.to_multiset().remove(e));
        assert(p2.drop_last().to_multiset() =~= p2.to_multiset().remove(e));
        assert forall|a: int, b: int| 0 <= a < b < p1.remove(i).len()
            implies key_bits(p1.remove(i)[a].0@) != key_bits(p1.remove(i)[b].0@) by {
            let a0 = if a < i { a } else { a + 1 };
            let b0 = if b < i { b } else { b + 1 };
            assert(p1.remove(i)[a] == p1[a0]);
            assert(p1.remove(i)[b] == p1[b0]);
        }
        lemma_order_independence(p1.remove(i), p2.drop_last());
        lemma_pairs_trie_map_remove(p1, i);
    }
}

} // verus!
