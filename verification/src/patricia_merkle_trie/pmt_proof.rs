use vstd::prelude::*;
use crate::block::Block;
use crate::hashing::{sha_hex, sha256_hex};
use crate::text::str_eq;
use crate::wallets::{Wallets, ledger_get, ledger_has, lemma_get_at_index, lemma_get_absent};
use crate::patricia_merkle_trie::state_root::{compute, leaf_hash, leaves_of, parent_level,
    state_root_of, tree_wf, tree_view, lemma_tree_root, lemma_parent_level_len,
    lemma_parent_level_concat, compute_leaf};

verus! {

/// Fold a Merkle proof upward from a leaf: at each step the sibling joins
/// on its side and the pair hashes to the parent.
pub open spec fn fold_proof(start: Seq<char>, elems: Seq<(Seq<char>, bool)>) -> Seq<char>
    decreases elems.len(),
{
    if elems.len() == 0 {
        start
    } else {
        fold_proof(
            sha_hex(
                if elems[0].1 {
                    start + elems[0].0
                } else {
                    elems[0].0 + start
                },
            ),
            elems.skip(1),
        )
    }
}

/// View of a stored proof as (sibling hash, leaf-was-left) steps.
pub open spec fn proof_view(p: Seq<(String, bool)>) -> Seq<(Seq<char>, bool)> {
    Seq::new(p.len(), |i: int| (p[i].0@, p[i].1))
}

/// In a level of two or more nodes, each node's parent hashes it with its
/// sibling, or promotes a lone last node unchanged.
proof fn lemma_parent_level_index(l: Seq<Seq<char>>, k: int)
    requires
        0 <= k < l.len(),
        l.len() >= 2,
    ensures
        k / 2 < parent_level(l).len(),
        k % 2 == 0 && k + 1 < l.len() ==> parent_level(l)[k / 2] == sha_hex(l[k] + l[k + 1]),
        k % 2 == 0 && k + 1 == l.len() ==> parent_level(l)[k / 2] == l[k],
        k % 2 == 1 ==> parent_level(l)[k / 2] == sha_hex(l[k - 1] + l[k]),
    decreases k,
{
    lemma_parent_level_len(l);
    if k < 2 {
        if l.len() == 2 {
            assert(parent_level(l) =~= seq![sha_hex(l[0] + l[1])]);
        } else {
            assert(parent_level(l)[0] == sha_hex(l[0] + l[1]));
        }
    } else {
        let ls = l.skip(2);
        lemma_parent_level_len(ls);
        if ls.len() >= 2 {
            lemma_parent_level_index(ls, k - 2);
        } else {
            assert(ls.len() == 1 && k == 2);
        }
        assert(parent_level(l)[k / 2] == parent_level(ls)[k / 2 - 1]);
        assert(ls[k - 2] == l[k]);
        if k % 2 == 0 && k + 1 < l.len() {
            assert(ls[k - 1] == l[k + 1]);
        }
        if k % 2 == 1 {
            assert(ls[k - 3] == l[k - 1]);
        }
    }
}

/// First ledger index of `user`, the index of its leaf.
fn find_user_index(wallets: &Wallets, user: &str) -> (r: Option<usize>)
    ensures
        (match r {
            Some(i) => i < wallets@.len() && wallets@[i as int].0 == user@ && ledger_get(
                wallets@,
                user@,
            ) == Some(wallets@[i as int].1),
            None => !ledger_has(wallets@, user@),
        }),
{
    let n = wallets.len();
    let mut i: usize = 0;
    while i < n
        invariant
            i <= n,
            n == wallets@.len(),
            forall|j: int| 0 <= j < i ==> (#[trigger] wallets@[j].0) != user@,
        decreases n - i,
    {
        let (entry_user, _) = wallets.entry_at(i);
        if str_eq(entry_user.as_str(), user) {
            proof {
                lemma_get_at_index(wallets@, user@, i as int);
            }
            return Some(i);
        }
        i = i + 1;
    }
    proof {
        lemma_get_absent(wallets@, user@);
    }
    None
}

/// Build the Merkle proof for `user`: walk up the tree from its leaf,
/// collecting each sibling with the side the leaf's branch is on.  The
/// proof folds back to the state root.
pub fn get_merkle_proof(wallets: &Wallets, user: &str) -> (r: Option<Vec<(String, bool)>>)
    ensures
        (match r {
            Some(p) => ledger_get(wallets@, user@) matches Some(w) && fold_proof(
                leaf_hash(user@, w),
                proof_view(p@),
            ) == state_root_of(wallets@),
            None => wallets@.len() == 0 || !ledger_has(wallets@, user@),
        }),
{
    let (_, tree) = compute(wallets);
    if tree.len() == 0 {
        return None;
    }
    let ghost tv = tree_view(tree@);
    let ghost lvs = leaves_of(wallets@);
    let ghost w = (match ledger_get(wallets@, user@) {
        Some(w) => w,
        None => arbitrary(),
    });
    // Locate the user's leaf index: leaves follow ledger order.
    let idx = (match find_user_index(wallets, user) {
        Some(i) => i,
        None => {
            return None;
        },
    });
    let mut proof_elems: Vec<(String, bool)> = Vec::new();
    let mut level: usize = 0;
    let mut pos: usize = idx;
    proof {
        assert(tv[0] == lvs);
        assert(lvs[idx as int] == leaf_hash(user@, w));
    }
    while tree[level].len() > 1
        invariant
            tree_wf(tv, lvs),
            tv == tree_view(tree@),
            lvs.len() > 0,
            level < tv.len(),
            tv[level as int].len() == tree@[level as int]@.len(),
            pos < tv[level as int].len(),
            fold_proof(leaf_hash(user@, w), proof_view(proof_elems@)) == tv[level as int][pos as int],
        decreases tv.len() - level,
    {
        let m = tree[level].len();
        let ghost cur = tv[level as int];
        let ghost start = leaf_hash(user@, w);
        let ghost fp = fold_proof(start, proof_view(proof_elems@));
        proof {
            assert(level < tv.len() - 1) by {
                if level == tv.len() - 1 {
                    assert(tv[level as int].len() == 1);
                }
            }
            assert(tv[level as int + 1] == parent_level(cur));
            lemma_parent_level_index(cur, pos as int);
        }
        let is_left = pos % 2 == 0;
        let sibling_idx = if is_left {
            pos + 1
        } else {
            pos - 1
        };
        if sibling_idx < m {
            let ghost pe0 = proof_view(proof_elems@);
            let sibling = tree[level][sibling_idx].clone();
            proof {
                lemma_fold_proof_push(start, pe0, (sibling@, is_left));
            }
            proof_elems.push((sibling, is_left));
            proof {
                assert(proof_view(proof_elems@) =~= pe0.push(
                    (cur[sibling_idx as int], is_left),
                ));
                if is_left {
                    assert(fold_proof(start, proof_view(proof_elems@)) == sha_hex(
                        cur[pos as int] + cur[pos + 1],
                    ));
                } else {
                    assert(fold_proof(start, proof_view(proof_elems@)) == sha_hex(
                        cur[pos - 1] + cur[pos as int],
                    ));
                }
            }
        } else {
            proof {
                assert(is_left && pos + 1 == m);
                assert(parent_level(cur)[pos as int / 2] == cur[pos as int]);
            }
        }
        let levels = tree.len();
        proof {
            assert(level < levels);
        }
        pos = pos / 2;
        level = level + 1;
        proof {
            assert(tv[level as int].len() == tree@[level as int]@.len());
            assert(fold_proof(start, proof_view(proof_elems@)) == tv[level as int][pos as int]);
        }
    }
    proof {
        assert(level == tv.len() - 1) by {
            if level < tv.len() - 1 {
                assert(tv[level as int].len() >= 2);
            }
        }
        assert(pos == 0);
        lemma_tree_root(tv, lvs);
        assert(fold_proof(leaf_hash(user@, w), proof_view(proof_elems@)) == state_root_of(
            wallets@,
        ));
    }
    Some(proof_elems)
}

/// Extending a proof by one step folds one level higher.
proof fn lemma_fold_proof_push(start: Seq<char>, elems: Seq<(Seq<char>, bool)>, e: (Seq<char>, bool))
    ensures
        fold_proof(start, elems.push(e)) == (if e.1 {
            sha_hex(fold_proof(start, elems) + e.0)
        } else {
            sha_hex(e.0 + fold_proof(start, elems))
        }),
    decreases elems.len(),
{
    if elems.len() == 0 {
        assert(elems.push(e)[0] == e);
        assert(elems.push(e).skip(1) =~= Seq::<(Seq<char>, bool)>::empty());
        reveal_with_fuel(fold_proof, 3);
    } else {
        assert(elems.push(e)[0] == elems[0]);
        assert(elems.push(e).skip(1) =~= elems.skip(1).push(e));
        lemma_fold_proof_push(
            sha_hex(
                if elems[0].1 {
                    start + elems[0].0
                } else {
                    elems[0].0 + start
                },
            ),
            elems.skip(1),
            e,
        );
    }
}

/// Check a Merkle proof: rehash the user's wallet leaf, fold the proof, and
/// compare the outcome with the block's state root.
pub fn verify_merkle_proof(wallets: &Wallets, block: &Block, user: &str, merkle_proof: &Vec<
    (String, bool),
>) -> (r: bool)
    ensures
        (match ledger_get(wallets@, user@) {
            Some(w) => r == (fold_proof(leaf_hash(user@, w), proof_view(merkle_proof@))
                == block.state_root@),
            None => r == false,
        }),
{
    let wallet = (match wallets.get_wallet(user) {
        Some(w) => w,
        None => {
            return false;
        },
    });
    let mut current = compute_leaf(user, wallet);
    let ghost w = wallet@;
    let ghost pv = proof_view(merkle_proof@);
    let n = merkle_proof.len();
    let mut i: usize = 0;
    proof {
        assert(pv.skip(0) =~= pv);
    }
    while i < n
        invariant
            i <= n,
            n == pv.len(),
            pv == proof_view(merkle_proof@),
            fold_proof(leaf_hash(user@, w), pv) == fold_proof(current@, pv.skip(i as int)),
        decreases n - i,
    {
        let (sibling, is_left) = (&merkle_proof[i].0, merkle_proof[i].1);
        let combined = (if is_left {
            let mut s = current;
            s.append(sibling.as_str());
            s
        } else {
            let mut s = sibling.clone();
            s.append(current.as_str());
            s
        });
        proof {
            assert(pv.skip(i as int)[0] == pv[i as int]);
            assert(pv.skip(i as int).skip(1) =~= pv.skip(i + 1));
        }
        current = sha256_hex(combined.as_str());
        i = i + 1;
    }
    proof {
        assert(pv.skip(i as int) =~= Seq::<(Seq<char>, bool)>::empty());
    }
    str_eq(current.as_str(), block.state_root.as_str())
}

/// Merkle round trip: a proof built for any user present in the ledger
/// passes verification against a block sealing that ledger's state root.
pub fn merkle_proof_round_trip(wallets: &Wallets, block: &Block, user: &str) -> (ok: bool)
    requires
        ledger_has(wallets@, user@),
        block.state_root@ == state_root_of(wallets@),
    ensures
        ok,
{
    let p = get_merkle_proof(wallets, user);
    match p {
        Some(elems) => verify_merkle_proof(wallets, block, user, &elems),
        None => {
            proof {
                assert(wallets@.len() > 0) by {
                    if wallets@.len() == 0 {
                        assert(!ledger_has(wallets@, user@));
                    }
                }
                assert(false);
            }
            false
        },
    }
}

} // verus!
