use vstd::prelude::*;
use crate::text::{dec_str, push_dec, str_eq};

verus! {

// ---------------------------------------------------------------------------
// Contract registry and per-contract storage, as association vectors in
// insertion order.  Lookups find the first match; since addresses and keys
// are written once and then updated in place, keys stay unique.
// ---------------------------------------------------------------------------

/// One deployed contract: its address and bytecode.
#[derive(Debug)]
pub struct ContractEntry {
    pub address: String,
    pub code: Vec<u8>,
}

/// One stored key with its bytes, inside one contract's storage.
#[derive(Debug)]
pub struct StorageCell {
    pub key: String,
    pub value: Vec<u8>,
}

/// Storage of one contract.
#[derive(Debug)]
pub struct StorageEntry {
    pub address: String,
    pub cells: Vec<StorageCell>,
}

/// First value at `k` in an association sequence.
pub open spec fn assoc_get<V>(s: Seq<(Seq<char>, V)>, k: Seq<char>) -> Option<V>
    decreases s.len(),
{
    if s.len() == 0 {
        None
    } else if s[0].0 == k {
        Some(s[0].1)
    } else {
        assoc_get(s.skip(1), k)
    }
}

/// The association sequence with the first entry at `k` replaced by `v`, or
/// `(k, v)` appended if `k` is absent.
pub open spec fn assoc_set<V>(s: Seq<(Seq<char>, V)>, k: Seq<char>, v: V) -> Seq<(Seq<char>, V)>
    decreases s.len(),
{
    if s.len() == 0 {
        seq![(k, v)]
    } else if s[0].0 == k {
        seq![(k, v)] + s.skip(1)
    } else {
        seq![s[0]] + assoc_set(s.skip(1), k, v)
    }
}

/// At a first-match index, `assoc_set` is an in-place update.
pub proof fn lemma_assoc_set_is_update<V>(s: Seq<(Seq<char>, V)>, k: Seq<char>, v: V, i: int)
    requires
        0 <= i < s.len(),
        s[i].0 == k,
        forall|j: int| 0 <= j < i ==> (#[trigger] s[j].0) != k,
    ensures
        assoc_set(s, k, v) == s.update(i, (k, v)),
    decreases i,
{
    if i == 0 {
        assert(assoc_set(s, k, v) =~= s.update(0, (k, v)));
    } else {
        assert forall|j: int| 0 <= j < i - 1 implies (#[trigger] s.skip(1)[j].0) != k by {
            assert(s.skip(1)[j] == s[j + 1]);
        }
        assert(s.skip(1)[i - 1] == s[i]);
        lemma_assoc_set_is_update(s.skip(1), k, v, i - 1);
        assert(assoc_set(s, k, v) =~= s.update(i, (k, v))) by {
            assert(assoc_set(s, k, v) == seq![s[0]] + s.skip(1).update(i - 1, (k, v)));
            assert forall|m: int| 0 <= m < s.len() implies (seq![s[0]] + s.skip(1).update(
                i - 1,
                (k, v),
            ))[m] == s.update(i, (k, v))[m] by {
                if m > 0 {
                    assert(s.skip(1).update(i - 1, (k, v))[m - 1] == (if m == i {
                        (k, v)
                    } else {
                        s.skip(1)[m - 1]
                    }));
                }
            }
        }
    }
}

/// When `k` is absent, `assoc_set` appends at the end.
pub proof fn lemma_assoc_set_is_push<V>(s: Seq<(Seq<char>, V)>, k: Seq<char>, v: V)
    requires
        forall|j: int| 0 <= j < s.len() ==> (#[trigger] s[j].0) != k,
    ensures
        assoc_set(s, k, v) == s.push((k, v)),
    decreases s.len(),
{
    if s.len() == 0 {
        assert(assoc_set(s, k, v) =~= s.push((k, v)));
    } else {
        assert forall|j: int| 0 <= j < s.skip(1).len() implies (#[trigger] s.skip(1)[j].0) != k by {
            assert(s.skip(1)[j] == s[j + 1]);
        }
        lemma_assoc_set_is_push(s.skip(1), k, v);
        assert(assoc_set(s, k, v) =~= s.push((k, v)));
    }
}

/// At a first-match index, `assoc_get` finds that entry.
pub proof fn lemma_assoc_get_at_index<V>(s: Seq<(Seq<char>, V)>, k: Seq<char>, i: int)
    requires
        0 <= i < s.len(),
        s[i].0 == k,
        forall|j: int| 0 <= j < i ==> (#[trigger] s[j].0) != k,
    ensures
        assoc_get(s, k) == Some(s[i].1),
    decreases i,
{
    if i > 0 {
        assert forall|j: int| 0 <= j < i - 1 implies (#[trigger] s.skip(1)[j].0) != k by {
            assert(s.skip(1)[j] == s[j + 1]);
        }
        assert(s.skip(1)[i - 1] == s[i]);
        lemma_assoc_get_at_index(s.skip(1), k, i - 1);
    }
}

/// When no entry is at `k`, `assoc_get` finds nothing.
pub proof fn lemma_assoc_get_absent<V>(s: Seq<(Seq<char>, V)>, k: Seq<char>)
    requires
        forall|j: int| 0 <= j < s.len() ==> (#[trigger] s[j].0) != k,
    ensures
        assoc_get(s, k) is None,
    decreases s.len(),
{
    if s.len() > 0 {
        assert forall|j: int| 0 <= j < s.skip(1).len() implies (#[trigger] s.skip(1)[j].0) != k by {
            assert(s.skip(1)[j] == s[j + 1]);
        }
        lemma_assoc_get_absent(s.skip(1), k);
    }
}

/// When `assoc_get` finds nothing, no entry is at `k`.
pub proof fn lemma_assoc_get_none_all<V>(s: Seq<(Seq<char>, V)>, k: Seq<char>)
    requires
        assoc_get(s, k) is None,
    ensures
        forall|j: int| 0 <= j < s.len() ==> (#[trigger] s[j].0) != k,
    decreases s.len(),
{
    if s.len() > 0 {
        lemma_assoc_get_none_all(s.skip(1), k);
        assert forall|j: int| 0 <= j < s.len() implies (#[trigger] s[j].0) != k by {
            if j > 0 {
                assert(s.skip(1)[j - 1] == s[j]);
            }
        }
    }
}

// ---------------------------------------------------------------------------
// Views.
// ---------------------------------------------------------------------------

/// View of the contract registry: (address, bytecode) in deployment order.
pub open spec fn contracts_view(s: Seq<ContractEntry>) -> Seq<(Seq<char>, Seq<u8>)> {
    Seq::new(s.len(), |i: int| (s[i].address@, s[i].code@))
}

/// View of one contract's storage: (key, bytes) in insertion order.
pub open spec fn cells_view(s: Seq<StorageCell>) -> Seq<(Seq<char>, Seq<u8>)> {
    Seq::new(s.len(), |i: int| (s[i].key@, s[i].value@))
}

/// View of all contract storage: (address, cells) in creation order.
pub open spec fn storage_view(s: Seq<StorageEntry>) -> Seq<
    (Seq<char>, Seq<(Seq<char>, Seq<u8>)>),
> {
    Seq::new(s.len(), |i: int| (s[i].address@, cells_view(s[i].cells@)))
}

/// Address assigned to the `n`-th deployed contract.
pub open spec fn contract_address_str(n: int) -> Seq<char> {
    "contract_"@ + dec_str(n)
}

/// Build the address of the `n`-th deployed contract.
pub fn make_contract_address(n: u64) -> (s: String)
    ensures
        s@ == contract_address_str(n as int),
{
    let mut s = "contract_".to_owned();
    push_dec(&mut s, n);
    s
}

/// Effect of a guest `store`: write `value` under `key` in the contract's
/// storage, creating the contract's store on first write.
pub open spec fn spec_store(
    st: Seq<(Seq<char>, Seq<(Seq<char>, Seq<u8>)>)>,
    addr: Seq<char>,
    key: Seq<char>,
    value: Seq<u8>,
) -> Seq<(Seq<char>, Seq<(Seq<char>, Seq<u8>)>)> {
    match assoc_get(st, addr) {
        None => st.push((addr, seq![(key, value)])),
        Some(cells) => assoc_set(st, addr, assoc_set(cells, key, value)),
    }
}

/// Effect of a guest `load`: the bytes under `key` in the contract's
/// storage, if the contract has a store holding that key.
pub open spec fn spec_load(
    st: Seq<(Seq<char>, Seq<(Seq<char>, Seq<u8>)>)>,
    addr: Seq<char>,
    key: Seq<char>,
) -> Option<Seq<u8>> {
    match assoc_get(st, addr) {
        None => None,
        Some(cells) => assoc_get(cells, key),
    }
}

// ---------------------------------------------------------------------------
// Executable registry and storage operations, used by the kernel.
// ---------------------------------------------------------------------------

/// First index of `key` among the cells, if present.
fn find_cell(cells: &Vec<StorageCell>, key: &str) -> (r: Option<usize>)
    ensures
        (match r {
            Some(i) => i < cells@.len() && cells@[i as int].key@ == key@ && assoc_get(
                cells_view(cells@),
                key@,
            ) == Some(cells@[i as int].value@) && (forall|j: int|
                0 <= j < i ==> (#[trigger] cells_view(cells@)[j].0) != key@),
            None => assoc_get(cells_view(cells@), key@) is None,
        }),
{
    let n = cells.len();
    let mut i: usize = 0;
    while i < n
        invariant
            i <= n,
            n == cells@.len(),
            forall|j: int| 0 <= j < i ==> (#[trigger] cells_view(cells@)[j].0) != key@,
        decreases n - i,
    {
        if str_eq(cells[i].key.as_str(), key) {
            proof {
                lemma_assoc_get_at_index(cells_view(cells@), key@, i as int);
            }
            return Some(i);
        }
        proof {
            assert(cells_view(cells@)[i as int].0 == cells@[i as int].key@);
        }
        i = i + 1;
    }
    proof {
        lemma_assoc_get_absent(cells_view(cells@), key@);
    }
    None
}

/// Write `value` under `key` in the cells, first match updated in place.
pub fn set_cell(cells: &mut Vec<StorageCell>, key: &str, value: Vec<u8>)
    ensures
        cells_view(final(cells)@) == assoc_set(cells_view(old(cells)@), key@, value@),
{
    let ghost cv = cells_view(cells@);
    let ghost vv = value@;
    match find_cell(cells, key) {
        Some(i) => {
            let _ = cells.remove(i);
            cells.insert(i, StorageCell { key: key.to_owned(), value });
            proof {
                assert(cells_view(cells@) =~= cv.update(i as int, (key@, vv)));
                lemma_assoc_set_is_update(cv, key@, vv, i as int);
            }
        },
        None => {
            cells.push(StorageCell { key: key.to_owned(), value });
            proof {
                lemma_assoc_get_none_all(cv, key@);
                lemma_assoc_set_is_push(cv, key@, vv);
                assert(cells_view(cells@) =~= cv.push((key@, vv)));
            }
        },
    }
}

} // verus!
