use vstd::prelude::*;
use crate::hashing::{sha_hex, sha256_hex};
use crate::text::{dec_str, push_dec, strs_view};
use crate::wallets::{Wallet, WalletModel, Wallets, LedgerModel, PendingUnstake};

verus! {

// ---------------------------------------------------------------------------
// Canonical wallet leaves.
// ---------------------------------------------------------------------------

/// Canonical JSON of one pending withdrawal.
pub open spec fn pu_json(p: PendingUnstake) -> Seq<char> {
    "{\"amount\":"@ + dec_str(p.amount as int) + ",\"effective_epoch\":"@ + dec_str(
        p.effective_epoch as int,
    ) + "}"@
}

/// Comma-separated canonical JSON of a withdrawal queue.
pub open spec fn pu_items(ps: Seq<PendingUnstake>) -> Seq<char>
    decreases ps.len(),
{
    if ps.len() == 0 {
        Seq::empty()
    } else if ps.len() == 1 {
        pu_json(ps[0])
    } else {
        pu_json(ps[0]) + seq![','] + pu_items(ps.skip(1))
    }
}

/// Canonical JSON of one wallet, fields in declaration order.
pub open spec fn wallet_json(w: WalletModel) -> Seq<char> {
    "{\"balance\":"@ + dec_str(w.balance as int) + ",\"staked\":"@ + dec_str(w.staked as int)
        + ",\"pending_unstakes\":["@ + pu_items(w.pending) + "]}"@
}

/// Hashing input of one leaf: the user id followed by its wallet's JSON.
pub open spec fn leaf_input(user: Seq<char>, w: WalletModel) -> Seq<char> {
    user + wallet_json(w)
}

/// Hash of one leaf.
pub open spec fn leaf_hash(user: Seq<char>, w: WalletModel) -> Seq<char> {
    sha_hex(leaf_input(user, w))
}

/// Leaves of the Merkle tree, one per ledger entry, in ledger order.
pub open spec fn leaves_of(l: LedgerModel) -> Seq<Seq<char>> {
    Seq::new(l.len(), |i: int| leaf_hash(l[i].0, l[i].1))
}

// ---------------------------------------------------------------------------
// The binary Merkle tree.
// ---------------------------------------------------------------------------

/// One level up the tree: each pair hashes to its parent, and a lone last
/// node is promoted unchanged.
pub open spec fn parent_level(level: Seq<Seq<char>>) -> Seq<Seq<char>>
    decreases level.len(),
{
    if level.len() == 0 {
        Seq::empty()
    } else if level.len() == 1 {
        seq![level[0]]
    } else {
        seq![sha_hex(level[0] + level[1])] + parent_level(level.skip(2))
    }
}

pub proof fn lemma_parent_level_len(level: Seq<Seq<char>>)
    ensures
        level.len() >= 2 ==> parent_level(level).len() == (level.len() + 1) / 2,
        level.len() <= 1 ==> parent_level(level).len() == level.len(),
    decreases level.len(),
{
    if level.len() >= 2 {
        lemma_parent_level_len(level.skip(2));
    }
}

#[via_fn]
proof fn root_of_decreases(level: Seq<Seq<char>>) {
    lemma_parent_level_len(level);
}

/// Root of a nonempty level: fold levels upward until one node is left.
pub open spec fn root_of(level: Seq<Seq<char>>) -> Seq<char>
    decreases level.len(),
    when level.len() >= 1
    via root_of_decreases
{
    if level.len() == 1 {
        level[0]
    } else {
        root_of(parent_level(level))
    }
}

/// State root of a ledger: the hash of the empty input if it has no
/// wallets, else the Merkle root of its leaves.
pub open spec fn state_root_of(l: LedgerModel) -> Seq<char> {
    if l.len() == 0 {
        sha_hex(Seq::empty())
    } else {
        root_of(leaves_of(l))
    }
}

/// Shape of a stored tree over the given leaves: levels leaves-first, each
/// level the parent of the one before, narrowing to a single root.
pub open spec fn tree_wf(t: Seq<Seq<Seq<char>>>, leaves: Seq<Seq<char>>) -> bool {
    &&& t.len() >= 1
    &&& t[0] == leaves
    &&& forall|i: int| 0 <= i < t.len() - 1 ==> #[trigger] t[i + 1] == parent_level(t[i])
    &&& forall|i: int| 0 <= i < t.len() - 1 ==> #[trigger] t[i].len() >= 2
    &&& t[t.len() - 1].len() == 1
}

/// The last level of a well-shaped tree holds the Merkle root.
pub proof fn lemma_tree_root(t: Seq<Seq<Seq<char>>>, leaves: Seq<Seq<char>>)
    requires
        tree_wf(t, leaves),
        leaves.len() >= 1,
    ensures
        t[t.len() - 1][0] == root_of(leaves),
    decreases t.len(),
{
    if t.len() == 1 {
    } else {
        let ts = t.skip(1);
        let pl = parent_level(leaves);
        assert(t[1] == parent_level(t[0]));
        assert(t[0].len() >= 2);
        lemma_parent_level_len(leaves);
        assert forall|i: int| 0 <= i < ts.len() - 1 implies #[trigger] ts[i + 1] == parent_level(
            ts[i],
        ) && ts[i].len() >= 2 by {
            assert(ts[i] == t[i + 1]);
            assert(ts[i + 1] == t[i + 2]);
        }
        assert(ts[ts.len() - 1] == t[t.len() - 1]);
        assert(tree_wf(ts, pl));
        lemma_tree_root(ts, pl);
        assert(root_of(leaves) == root_of(pl));
    }
}

/// Splitting a level at an even boundary splits its parent level.
pub proof fn lemma_parent_level_concat(a: Seq<Seq<char>>, b: Seq<Seq<char>>)
    requires
        a.len() % 2 == 0,
    ensures
        parent_level(a + b) == parent_level(a) + parent_level(b),
    decreases a.len(),
{
    if a.len() == 0 {
        assert(a + b =~= b);
        assert(parent_level(a) + parent_level(b) =~= parent_level(b));
    } else {
        let ab = a + b;
        assert(ab.len() >= 2);
        assert(ab[0] == a[0]);
        assert(ab[1] == a[1]);
        assert(ab.skip(2) =~= a.skip(2) + b);
        lemma_parent_level_concat(a.skip(2), b);
        assert(parent_level(a + b) =~= parent_level(a) + parent_level(b));
    }
}

// ---------------------------------------------------------------------------
// Executable leaf and tree construction.
// ---------------------------------------------------------------------------

/// Appending one withdrawal extends the comma-separated item list.
proof fn lemma_pu_items_take(ps: Seq<PendingUnstake>, i: int)
    requires
        0 <= i < ps.len(),
    ensures
        i > 0 ==> pu_items(ps.take(i)) + seq![','] + pu_json(ps[i]) == pu_items(ps.take(i + 1)),
        i == 0 ==> pu_items(ps.take(1)) == pu_json(ps[0]),
    decreases i,
{
    if i == 0 {
        assert(ps.take(1).len() == 1);
        assert(ps.take(1)[0] == ps[0]);
    } else {
        lemma_pu_items_take(ps.skip(1), i - 1);
        assert(ps.take(i).skip(1) =~= ps.skip(1).take(i - 1));
        assert(ps.take(i + 1).skip(1) =~= ps.skip(1).take(i));
        assert(ps.take(i)[0] == ps[0]);
        assert(ps.take(i + 1)[0] == ps[0]);
        assert(ps.skip(1)[i - 1] == ps[i]);
        assert(pu_items(ps.take(i)) + seq![','] + pu_json(ps[i]) =~= pu_items(ps.take(i + 1)));
    }
}

/// Append the canonical JSON of one wallet to `out`.
pub fn push_wallet_json(out: &mut String, w: &Wallet)
    ensures
        final(out)@ == old(out)@ + wallet_json(w@),
{
    out.append("{\"balance\":");
    push_dec(out, w.balance);
    out.append(",\"staked\":");
    push_dec(out, w.staked);
    out.append(",\"pending_unstakes\":[");
    let ghost head = old(out)@ + "{\"balance\":"@ + dec_str(w.balance as int) + ",\"staked\":"@
        + dec_str(w.staked as int) + ",\"pending_unstakes\":["@;
    assert(out@ =~= head);
    let n = w.pending_unstakes.len();
    let mut i: usize = 0;
    while i < n
        invariant
            i <= n,
            n == w.pending_unstakes@.len(),
            out@ == head + pu_items(w.pending_unstakes@.take(i as int)) + (
            if 0 < i < n {
                seq![',']
            } else {
                Seq::<char>::empty()
            }),
        decreases n - i,
    {
        let p = w.pending_unstakes[i];
        out.append("{\"amount\":");
        push_dec(out, p.amount);
        out.append(",\"effective_epoch\":");
        push_dec(out, p.effective_epoch as u64);
        out.append("}");
        if i + 1 < n {
            out.append(",");
            proof {
                reveal_strlit(",");
            }
        }
        proof {
            lemma_pu_items_take(w.pending_unstakes@, i as int);
            assert(out@ =~= head + pu_items(w.pending_unstakes@.take(i + 1)) + (
            if i + 1 < n {
                seq![',']
            } else {
                Seq::<char>::empty()
            }));
        }
        i = i + 1;
    }
    out.append("]}");
    proof {
        assert(w.pending_unstakes@.take(i as int) =~= w.pending_unstakes@);
        assert(out@ =~= old(out)@ + wallet_json(w@));
    }
}

/// Hash of the leaf for one ledger entry.
pub fn compute_leaf(user: &str, wallet: &Wallet) -> (r: String)
    ensures
        r@ == leaf_hash(user@, wallet@),
{
    let mut input = user.to_owned();
    push_wallet_json(&mut input, wallet);
    proof {
        assert(input@ =~= leaf_input(user@, wallet@));
    }
    sha256_hex(input.as_str())
}

/// Compute the state root of the ledger, and the full Merkle tree, levels
/// leaves-first, for proof generation.  The leaves follow the ledger's own
/// deterministic user order.
pub fn compute(wallets: &Wallets) -> (r: (String, Vec<Vec<String>>))
    ensures
        r.0@ == state_root_of(wallets@),
        wallets@.len() == 0 ==> r.1@.len() == 0,
        wallets@.len() > 0 ==> tree_wf(tree_view(r.1@), leaves_of(wallets@)),
{
    let n = wallets.len();
    if n == 0 {
        proof {
            reveal_strlit("");
            assert(""@ =~= Seq::<char>::empty());
        }
        return (sha256_hex(""), Vec::new());
    }
    let mut leaves: Vec<String> = Vec::new();
    let mut i: usize = 0;
    while i < n
        invariant
            i <= n,
            n == wallets@.len(),
            strs_view(leaves@) =~= leaves_of(wallets@).take(i as int),
        decreases n - i,
    {
        let (user, wallet) = wallets.entry_at(i);
        let h = compute_leaf(user.as_str(), wallet);
        let ghost prev = leaves@;
        let ghost hh = h@;
        leaves.push(h);
        proof {
            let lv = leaves_of(wallets@);
            assert(lv[i as int] == leaf_hash(wallets@[i as int].0, wallets@[i as int].1));
            assert(hh == lv[i as int]);
            assert(prev.len() == strs_view(prev).len());
            assert(prev.len() == i);
            assert(leaves@ == prev.push(leaves@.last()));
            assert(leaves@.last()@ == hh);
            assert forall|j: int| 0 <= j < i + 1 implies strs_view(leaves@)[j] == lv.take(i + 1)[j]
                by {
                assert(strs_view(leaves@)[j] == leaves@[j]@);
                if j < i {
                    assert(leaves@[j] == prev[j]);
                    assert(strs_view(prev)[j] == prev[j]@);
                    assert(strs_view(prev)[j] == lv.take(i as int)[j]);
                } else {
                    assert(leaves@[j] == leaves@.last());
                }
            }
            assert(strs_view(leaves@) =~= lv.take(i + 1));
        }
        i = i + 1;
    }
    proof {
        assert(leaves_of(wallets@).take(n as int) =~= leaves_of(wallets@));
    }
    let ghost lvs = leaves_of(wallets@);
    let mut tree: Vec<Vec<String>> = Vec::new();
    tree.push(leaves);
    while tree[tree.len() - 1].len() > 1
        invariant
            tree@.len() >= 1,
            strs_view(tree@[0]@) == lvs,
            lvs.len() == n > 0,
            forall|k: int|
                0 <= k < tree@.len() - 1 ==> #[trigger] strs_view(tree@[k + 1]@) == parent_level(
                    strs_view(tree@[k]@),
                ),
            forall|k: int| 0 <= k < tree@.len() - 1 ==> #[trigger] strs_view(tree@[k]@).len() >= 2,
            strs_view(tree@[tree@.len() - 1]@).len() >= 1,
        decreases tree@[tree@.len() - 1]@.len(),
    {
        let current: &Vec<String> = &tree[tree.len() - 1];
        let m = current.len();
        let ghost cur = strs_view(current@);
        let mut next: Vec<String> = Vec::new();
        let mut j: usize = 0;
        while j < m
            invariant
                j <= m,
                j % 2 == 0 || j == m,
                m == cur.len(),
                cur == strs_view(current@),
                m == current@.len(),
                strs_view(next@) == parent_level(cur.take(j as int)),
            decreases m - j,
        {
            if j + 1 < m {
                let mut combined = current[j].clone();
                combined.append(current[j + 1].as_str());
                let h = sha256_hex(combined.as_str());
                next.push(h);
                proof {
                    reveal_with_fuel(parent_level, 3);
                    assert(cur.take(j as int).len() % 2 == 0);
                    assert(cur.take(j + 2) =~= cur.take(j as int) + seq![cur[j as int], cur[j + 1]]);
                    lemma_parent_level_concat(
                        cur.take(j as int),
                        seq![cur[j as int], cur[j + 1]],
                    );
                    assert(seq![cur[j as int], cur[j + 1]].skip(2) =~= Seq::<Seq<char>>::empty());
                    assert(parent_level(seq![cur[j as int], cur[j + 1]]) =~= seq![
                        sha_hex(cur[j as int] + cur[j + 1]),
                    ]);
                    assert(combined@ == cur[j as int] + cur[j + 1]);
                    assert(strs_view(next@) =~= parent_level(cur.take(j + 2)));
                }
                j = j + 2;
            } else {
                let lone = current[j].clone();
                next.push(lone);
                proof {
                    assert(cur.take(j as int).len() % 2 == 0);
                    assert(cur.take(j + 1) =~= cur.take(j as int) + seq![cur[j as int]]);
                    lemma_parent_level_concat(cur.take(j as int), seq![cur[j as int]]);
                    assert(parent_level(seq![cur[j as int]]) =~= seq![cur[j as int]]);
                    assert(strs_view(next@) =~= parent_level(cur.take(j + 1)));
                }
                j = j + 1;
            }
        }
        proof {
            assert(cur.take(j as int) =~= cur);
            lemma_parent_level_len(cur);
        }
        tree.push(next);
        proof {
            assert forall|k: int| 0 <= k < tree@.len() - 1 implies #[trigger] strs_view(
                tree@[k + 1]@,
            ) == parent_level(strs_view(tree@[k]@)) by {}
        }
    }
    let ghost tv = tree_view(tree@);
    proof {
        assert(tv.len() == tree@.len());
        assert(tv[0] == strs_view(tree@[0]@));
        assert forall|k: int| 0 <= k < tv.len() - 1 implies #[trigger] tv[k + 1] == parent_level(
            tv[k],
        ) && tv[k].len() >= 2 by {
            assert(tv[k] == strs_view(tree@[k]@));
            assert(tv[k + 1] == strs_view(tree@[k + 1]@));
        }
        assert(tv[tv.len() - 1] == strs_view(tree@[tree@.len() - 1]@));
        assert(tree_wf(tv, lvs));
        lemma_tree_root(tv, lvs);
    }
    let root = tree[tree.len() - 1][0].clone();
    (root, tree)
}

/// View of a stored tree as a sequence of levels of hashes.
pub open spec fn tree_view(t: Seq<Vec<String>>) -> Seq<Seq<Seq<char>>> {
    Seq::new(t.len(), |i: int| strs_view(t[i]@))
}

/// The state root is a pure function of the ledger's contents: two sorted
/// ledgers holding the same user-to-wallet mapping have the same root,
/// whatever order their wallets were created in.
pub proof fn lemma_state_root_pure(l1: LedgerModel, l2: LedgerModel)
    requires
        crate::wallets::ledger_wf(l1),
        crate::wallets::ledger_wf(l2),
        crate::wallets::ledger_map_of(l1) == crate::wallets::ledger_map_of(l2),
    ensures
        state_root_of(l1) == state_root_of(l2),
{
    crate::wallets::lemma_wf_ledger_map_injective(l1, l2);
}

} // verus!
