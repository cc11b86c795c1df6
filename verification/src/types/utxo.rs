//! The unspent-transaction-output index: outputs keyed by their own hash,
//! each carrying a mempool-reservation mark.
use crate::types::transaction::{TransactionOutput, TxOutV};
use vstd::prelude::*;

verus! {

/// Ghost form of one UTXO entry.
pub ghost struct UtxoEntryV {
    /// The output's own hash, 32 bytes.
    pub hash: Seq<u8>,
    /// Whether a mempool transaction has reserved this output.
    pub marked: bool,
    pub output: TxOutV,
}

/// One unspent output with its key and reservation mark.
pub struct UtxoEntry {
    pub hash: crate::hash::Hash,
    pub marked: bool,
    pub output: TransactionOutput,
}

impl View for UtxoEntry {
    type V = UtxoEntryV;

    open spec fn view(&self) -> UtxoEntryV {
        UtxoEntryV { hash: self.hash@, marked: self.marked, output: self.output@ }
    }
}

impl Clone for UtxoEntry {
    fn clone(&self) -> (r: Self)
        ensures
            r@ == self@,
    {
        UtxoEntry { hash: self.hash.clone(), marked: self.marked, output: self.output.clone() }
    }
}

/// The first position of a key in a sequence of entries, or -1.
pub open spec fn find_key(s: Seq<UtxoEntryV>, k: Seq<u8>) -> int
    decreases s.len(),
{
    if s.len() == 0 {
        -1
    } else if s.first().hash == k {
        0
    } else {
        let r = find_key(s.drop_first(), k);
        if r < 0 {
            -1
        } else {
            r + 1
        }
    }
}

/// Whether a key is present.
pub open spec fn has_key(s: Seq<UtxoEntryV>, k: Seq<u8>) -> bool {
    find_key(s, k) >= 0
}

/// The entry stored under a key; meaningful only when the key is present.
pub open spec fn entry_of(s: Seq<UtxoEntryV>, k: Seq<u8>) -> UtxoEntryV {
    s[find_key(s, k)]
}

/// Insertion as the map operation: replace in place or append.
pub open spec fn spec_insert(s: Seq<UtxoEntryV>, e: UtxoEntryV) -> Seq<UtxoEntryV> {
    if has_key(s, e.hash) {
        s.update(find_key(s, e.hash), e)
    } else {
        s.push(e)
    }
}

/// Removal as the map operation: drop the entry if present.
pub open spec fn spec_remove(s: Seq<UtxoEntryV>, k: Seq<u8>) -> Seq<UtxoEntryV> {
    if has_key(s, k) {
        s.remove(find_key(s, k))
    } else {
        s
    }
}

/// Setting the reservation mark of a present key.
pub open spec fn spec_set_marked(s: Seq<UtxoEntryV>, k: Seq<u8>, m: bool) -> Seq<UtxoEntryV> {
    if has_key(s, k) {
        s.update(
            find_key(s, k),
            UtxoEntryV { hash: k, marked: m, output: entry_of(s, k).output },
        )
    } else {
        s
    }
}

/// What `find_key` says about indices: it is the first match.
pub proof fn lemma_find_key(s: Seq<UtxoEntryV>, k: Seq<u8>)
    ensures
        find_key(s, k) >= 0 ==> 0 <= find_key(s, k) < s.len() && s[find_key(s, k)].hash == k,
        find_key(s, k) < 0 ==> forall|i: int| 0 <= i < s.len() ==> (#[trigger] s[i]).hash != k,
        forall|i: int| 0 <= i < find_key(s, k) ==> (#[trigger] s[i]).hash != k,
    decreases s.len(),
{
    if s.len() > 0 {
        lemma_find_key(s.drop_first(), k);
        if s.first().hash != k {
            assert forall|i: int| 1 <= i < s.len() implies s[i] == s.drop_first()[i - 1] by {}
        }
    }
}

/// Uniqueness of keys.
pub open spec fn unique_keys(s: Seq<UtxoEntryV>) -> bool {
    forall|i: int, j: int|
        0 <= i < j < s.len() ==> (#[trigger] s[i]).hash != (#[trigger] s[j]).hash
}

/// Well-formedness: unique 32-byte keys.
pub open spec fn wf_utxo_seq(s: Seq<UtxoEntryV>) -> bool {
    unique_keys(s) && forall|i: int| 0 <= i < s.len() ==> (#[trigger] s[i]).hash.len() == 32
}

/// The unspent-output index of a blockchain.
pub struct UtxoSet {
    entries: Vec<UtxoEntry>,
}

impl View for UtxoSet {
    type V = Seq<UtxoEntryV>;

    closed spec fn view(&self) -> Seq<UtxoEntryV> {
        self.entries@.map_values(|e: UtxoEntry| e@)
    }
}

impl UtxoSet {
    pub open spec fn wf(&self) -> bool {
        wf_utxo_seq(self@)
    }

    /// An empty index.
    pub fn new() -> (r: UtxoSet)
        ensures
            r@ =~= Seq::<UtxoEntryV>::empty(),
            r.wf(),
    {
        let r = UtxoSet { entries: Vec::new() };
        proof {
            assert(r@ =~= Seq::<UtxoEntryV>::empty());
        }
        r
    }

    /// Number of entries.
    pub fn len(&self) -> (r: usize)
        ensures
            r == self@.len(),
    {
        self.entries.len()
    }

    /// The entry at a position, for iteration.
    pub fn entry_at(&self, i: usize) -> (r: &UtxoEntry)
        requires
            i < self@.len(),
        ensures
            r@ == self@[i as int],
    {
        &self.entries[i]
    }

    /// The position of a key, if present.
    pub fn find(&self, key: &crate::hash::Hash) -> (r: Option<usize>)
        ensures
            match r {
                Some(i) => i == find_key(self@, key@) && i < self@.len() && self@[i as int].hash
                    == key@,
                None => !has_key(self@, key@),
            },
    {
        let mut i: usize = 0;
        proof {
            assert(self@.skip(0) =~= self@);
        }
        while i < self.entries.len()
            invariant
                i <= self@.len(),
                self@.len() == self.entries@.len(),
                forall|j: int| 0 <= j < i ==> (#[trigger] self@[j]).hash != key@,
                find_key(self@.skip(i as int), key@) == if find_key(self@, key@) >= 0 {
                    find_key(self@, key@) - i
                } else {
                    -1
                },
            decreases self@.len() - i,
        {
            proof {
                lemma_find_key(self@, key@);
                assert(self@.skip(i as int).first() == self@[i as int]);
                assert(self@.skip(i as int).drop_first() =~= self@.skip(i + 1));
            }
            if self.entries[i].hash.equals(key) {
                return Some(i);
            }
            i = i + 1;
        }
        proof {
            lemma_find_key(self@, key@);
            assert(self@.skip(self@.len() as int) =~= Seq::<UtxoEntryV>::empty());
        }
        None
    }

    /// Whether a key is present.
    pub fn contains(&self, key: &crate::hash::Hash) -> (r: bool)
        ensures
            r == has_key(self@, key@),
    {
        proof {
            lemma_find_key(self@, key@);
        }
        match self.find(key) {
            Some(_) => true,
            None => false,
        }
    }

    /// The mark and value stored under a key.
    pub fn get(&self, key: &crate::hash::Hash) -> (r: Option<&UtxoEntry>)
        ensures
            match r {
                Some(e) => has_key(self@, key@) && e@ == entry_of(self@, key@),
                None => !has_key(self@, key@),
            },
    {
        match self.find(key) {
            Some(i) => Some(&self.entries[i]),
            None => None,
        }
    }

    /// Inserts or replaces the output stored under a key.
    pub fn insert(&mut self, key: crate::hash::Hash, marked: bool, output: TransactionOutput)
        ensures
            final(self)@ == spec_insert(
                old(self)@,
                UtxoEntryV { hash: key@, marked, output: output@ },
            ),
    {
        let ghost e = UtxoEntryV { hash: key@, marked, output: output@ };
        match self.find(&key) {
            Some(i) => {
                let entry = UtxoEntry { hash: key, marked, output };
                self.entries.set(i, entry);
                proof {
                    assert(self@ =~= spec_insert(old(self)@, e));
                }
            },
            None => {
                let entry = UtxoEntry { hash: key, marked, output };
                self.entries.push(entry);
                proof {
                    assert(self@ =~= spec_insert(old(self)@, e));
                }
            },
        }
    }

    /// Removes the entry under a key, if present.
    pub fn remove(&mut self, key: &crate::hash::Hash)
        ensures
            final(self)@ == spec_remove(old(self)@, key@),
    {
        match self.find(key) {
            Some(i) => {
                self.entries.remove(i);
                proof {
                    assert(self@ =~= spec_remove(old(self)@, key@));
                }
            },
            None => {
                proof {
                    assert(self@ =~= spec_remove(old(self)@, key@));
                }
            },
        }
    }

    /// Sets the reservation mark of a present key; does nothing otherwise.
    pub fn set_marked(&mut self, key: &crate::hash::Hash, m: bool)
        ensures
            final(self)@ == spec_set_marked(old(self)@, key@, m),
    {
        match self.find(key) {
            Some(i) => {
                let output = self.entries[i].output.clone();
                let hash = self.entries[i].hash.clone();
                let entry = UtxoEntry { hash, marked: m, output };
                self.entries.set(i, entry);
                proof {
                    assert(self@ =~= spec_set_marked(old(self)@, key@, m));
                }
            },
            None => {
                proof {
                    assert(self@ =~= spec_set_marked(old(self)@, key@, m));
                }
            },
        }
    }
}

impl UtxoSet {
    /// Puts an unmarked entry at the front of the entry list; used when
    /// entries are rebuilt front to back.
    pub fn prepend(self, hash: crate::hash::Hash, output: TransactionOutput) -> (r: UtxoSet)
        ensures
            r@ == self@.insert(0, UtxoEntryV { hash: hash@, marked: false, output: output@ }),
    {
        let ghost pre = self@;
        let entry = UtxoEntry { hash, marked: false, output };
        let ghost ev = entry@;
        let mut entries = self.entries;
        entries.insert(0, entry);
        let r = UtxoSet { entries };
        proof {
            assert(r@ =~= pre.insert(0, ev));
        }
        r
    }
}

impl Clone for UtxoSet {
    fn clone(&self) -> (r: Self)
        ensures
            r@ == self@,
    {
        let mut entries: Vec<UtxoEntry> = Vec::new();
        let mut i: usize = 0;
        proof {
            assert(self@.skip(0) =~= self@);
        }
        while i < self.entries.len()
            invariant
                i <= self.entries@.len(),
                entries@.len() == i,
                forall|j: int| 0 <= j < i ==> (#[trigger] entries@[j])@ == self.entries@[j]@,
            decreases self.entries@.len() - i,
        {
            entries.push(self.entries[i].clone());
            i = i + 1;
        }
        let r = UtxoSet { entries };
        proof {
            assert(r@ =~= self@);
        }
        r
    }
}

/// If a key occurs first at a position, `find_key` returns that position.
pub proof fn lemma_find_key_at(s: Seq<UtxoEntryV>, k: Seq<u8>, i: int)
    requires
        0 <= i < s.len(),
        s[i].hash == k,
        forall|j: int| 0 <= j < i ==> (#[trigger] s[j]).hash != k,
    ensures
        find_key(s, k) == i,
    decreases i,
{
    if i == 0 {
    } else {
        assert(s.first().hash != k);
        lemma_find_key_at(s.drop_first(), k, i - 1);
        assert forall|j: int| 0 <= j < i - 1 implies (#[trigger] s.drop_first()[j]).hash != k by {
            assert(s.drop_first()[j] == s[j + 1]);
        }
    }
}

/// Sequences whose entries match a key at the same positions find it at the
/// same position.
pub proof fn lemma_find_key_same(s: Seq<UtxoEntryV>, t: Seq<UtxoEntryV>, k: Seq<u8>)
    requires
        s.len() == t.len(),
        forall|i: int| 0 <= i < s.len() ==> (((#[trigger] s[i]).hash == k) <==> ((#[trigger] t[i]).hash == k)),
    ensures
        find_key(s, k) == find_key(t, k),
    decreases s.len(),
{
    if s.len() > 0 {
        lemma_find_key_same(s.drop_first(), t.drop_first(), k);
        assert forall|i: int| 0 <= i < s.len() - 1 implies (((#[trigger] s.drop_first()[i]).hash
            == k) <==> ((#[trigger] t.drop_first()[i]).hash == k)) by {
            assert(s.drop_first()[i] == s[i + 1]);
            assert(t.drop_first()[i] == t[i + 1]);
        }
    }
}

/// Finding a key after appending an entry.
pub proof fn lemma_find_key_push(s: Seq<UtxoEntryV>, e: UtxoEntryV, k: Seq<u8>)
    ensures
        find_key(s.push(e), k) == if find_key(s, k) >= 0 {
            find_key(s, k)
        } else if e.hash == k {
            s.len() as int
        } else {
            -1
        },
    decreases s.len(),
{
    lemma_find_key(s, k);
    if find_key(s, k) >= 0 {
        lemma_find_key_at(s.push(e), k, find_key(s, k));
        assert forall|j: int| 0 <= j < find_key(s, k) implies (#[trigger] s.push(e)[j]).hash
            != k by {
            assert(s.push(e)[j] == s[j]);
        }
    } else if e.hash == k {
        lemma_find_key_at(s.push(e), k, s.len() as int);
        assert forall|j: int| 0 <= j < s.len() implies (#[trigger] s.push(e)[j]).hash != k by {
            assert(s.push(e)[j] == s[j]);
        }
    } else {
        lemma_find_key_none(s.push(e), k);
    }
}

/// A key matching no entry is not found.
pub proof fn lemma_find_key_none(s: Seq<UtxoEntryV>, k: Seq<u8>)
    requires
        forall|i: int| 0 <= i < s.len() ==> (#[trigger] s[i]).hash != k,
    ensures
        find_key(s, k) == -1,
    decreases s.len(),
{
    if s.len() > 0 {
        lemma_find_key_none(s.drop_first(), k);
    }
}

/// Insertion acts as a map update: the new key is bound to the new entry,
/// every other binding is kept, and well-formedness is preserved.
pub proof fn lemma_insert_wf(s: Seq<UtxoEntryV>, e: UtxoEntryV)
    requires
        wf_utxo_seq(s),
        e.hash.len() == 32,
    ensures
        wf_utxo_seq(spec_insert(s, e)),
        forall|k: Seq<u8>|
            #[trigger] has_key(spec_insert(s, e), k) <==> (has_key(s, k) || k == e.hash),
        has_key(spec_insert(s, e), e.hash) && entry_of(spec_insert(s, e), e.hash) == e,
        forall|k: Seq<u8>|
            has_key(s, k) && k != e.hash ==> #[trigger] entry_of(spec_insert(s, e), k) == entry_of(
                s,
                k,
            ),
{
    lemma_find_key(s, e.hash);
    let t = spec_insert(s, e);
    let fi = find_key(s, e.hash);
    if has_key(s, e.hash) {
        assert forall|k: Seq<u8>| true implies (#[trigger] has_key(t, k) <==> (has_key(s, k) || k
            == e.hash)) && (has_key(s, k) && k != e.hash ==> entry_of(t, k) == entry_of(s, k)) && (k
            == e.hash ==> has_key(t, k) && entry_of(t, k) == e) by {
            lemma_find_key(s, k);
            lemma_find_key_same(s, t, k);
        }
        assert(unique_keys(t)) by {
            assert forall|i: int, j: int| 0 <= i < j < t.len() implies (#[trigger] t[i]).hash != (
            #[trigger] t[j]).hash by {
                assert(s[i].hash == t[i].hash);
                assert(s[j].hash == t[j].hash);
            }
        }
        assert forall|i: int| 0 <= i < t.len() implies (#[trigger] t[i]).hash.len() == 32 by {
            assert(s[i].hash == t[i].hash);
        }
    } else {
        assert forall|k: Seq<u8>| true implies (#[trigger] has_key(t, k) <==> (has_key(s, k) || k
            == e.hash)) && (has_key(s, k) && k != e.hash ==> entry_of(t, k) == entry_of(s, k)) && (k
            == e.hash ==> has_key(t, k) && entry_of(t, k) == e) by {
            lemma_find_key(s, k);
            lemma_find_key_push(s, e, k);
        }
        assert(unique_keys(t)) by {
            assert forall|i: int, j: int| 0 <= i < j < t.len() implies (#[trigger] t[i]).hash != (
            #[trigger] t[j]).hash by {
                lemma_find_key(s, e.hash);
                if j < s.len() {
                    assert(t[i] == s[i] && t[j] == s[j]);
                } else {
                    assert(t[i] == s[i] && t[j] == e);
                }
            }
        }
    }
    assert forall|k: Seq<u8>| has_key(s, k) && k != e.hash implies #[trigger] entry_of(t, k)
        == entry_of(s, k) by {
        lemma_find_key(s, k);
        lemma_find_key(t, k);
        if has_key(s, e.hash) {
            lemma_find_key_same(s, t, k);
        } else {
            lemma_find_key_push(s, e, k);
        }
    }
    assert forall|k: Seq<u8>| true implies (#[trigger] has_key(t, k) <==> (has_key(s, k) || k
        == e.hash)) by {
        lemma_find_key(s, k);
        lemma_find_key(t, k);
        if has_key(s, e.hash) {
            lemma_find_key_same(s, t, k);
        } else {
            lemma_find_key_push(s, e, k);
        }
    }
}

/// Removal acts as a map removal: the key is gone, every other binding is
/// kept, and well-formedness is preserved.
pub proof fn lemma_remove_wf(s: Seq<UtxoEntryV>, k0: Seq<u8>)
    requires
        wf_utxo_seq(s),
    ensures
        wf_utxo_seq(spec_remove(s, k0)),
        forall|k: Seq<u8>|
            #[trigger] has_key(spec_remove(s, k0), k) <==> (has_key(s, k) && k != k0),
        forall|k: Seq<u8>|
            has_key(s, k) && k != k0 ==> #[trigger] entry_of(spec_remove(s, k0), k) == entry_of(
                s,
                k,
            ),
{
    lemma_find_key(s, k0);
    let t = spec_remove(s, k0);
    let fi = find_key(s, k0);
    if has_key(s, k0) {
        assert(unique_keys(t)) by {
            assert forall|i: int, j: int| 0 <= i < j < t.len() implies (#[trigger] t[i]).hash != (
            #[trigger] t[j]).hash by {
                let si = if i < fi {
                    i
                } else {
                    i + 1
                };
                let sj = if j < fi {
                    j
                } else {
                    j + 1
                };
                assert(t[i] == s[si]);
                assert(t[j] == s[sj]);
            }
        }
        assert forall|i: int| 0 <= i < t.len() implies (#[trigger] t[i]).hash.len() == 32 by {
            if i < fi {
                assert(t[i] == s[i]);
            } else {
                assert(t[i] == s[i + 1]);
            }
        }
    }
    assert forall|k: Seq<u8>| true implies (#[trigger] has_key(t, k) <==> (has_key(s, k) && k
        != k0)) by {
        lemma_remove_find(s, k0, k);
    }
    assert forall|k: Seq<u8>| has_key(s, k) && k != k0 implies #[trigger] entry_of(t, k)
        == entry_of(s, k) by {
        lemma_remove_find(s, k0, k);
    }
}

/// Where a key is found after removing another key.
proof fn lemma_remove_find(s: Seq<UtxoEntryV>, k0: Seq<u8>, k: Seq<u8>)
    requires
        wf_utxo_seq(s),
    ensures
        has_key(spec_remove(s, k0), k) <==> (has_key(s, k) && k != k0),
        has_key(s, k) && k != k0 ==> entry_of(spec_remove(s, k0), k) == entry_of(s, k),
{
    lemma_find_key(s, k0);
    lemma_find_key(s, k);
    let t = spec_remove(s, k0);
    let fi = find_key(s, k0);
    if !has_key(s, k0) {
        if k == k0 && has_key(s, k) {
            assert(false);
        }
    } else {
        if k == k0 {
            lemma_find_key(t, k);
            if has_key(t, k) {
                let i = find_key(t, k);
                if i < fi {
                    assert(t[i] == s[i]);
                } else {
                    assert(t[i] == s[i + 1]);
                }
                assert(false);
            }
        } else {
            if has_key(s, k) {
                let i = find_key(s, k);
                assert(i != fi);
                if i < fi {
                    assert(t[i] == s[i]);
                    assert forall|j: int| 0 <= j < i implies (#[trigger] t[j]).hash != k by {
                        assert(t[j] == s[j]);
                    }
                    lemma_find_key_at(t, k, i);
                } else {
                    assert(t[i - 1] == s[i]);
                    assert forall|j: int| 0 <= j < i - 1 implies (#[trigger] t[j]).hash != k by {
                        if j < fi {
                            assert(t[j] == s[j]);
                        } else {
                            assert(t[j] == s[j + 1]);
                        }
                    }
                    lemma_find_key_at(t, k, i - 1);
                }
            } else {
                lemma_find_key(t, k);
                if has_key(t, k) {
                    let i = find_key(t, k);
                    if i < fi {
                        assert(t[i] == s[i]);
                    } else {
                        assert(t[i] == s[i + 1]);
                    }
                    assert(false);
                }
            }
        }
    }
}

/// Setting a mark changes no keys and no stored outputs except the mark.
pub proof fn lemma_set_marked_wf(s: Seq<UtxoEntryV>, k0: Seq<u8>, m: bool)
    requires
        wf_utxo_seq(s),
    ensures
        wf_utxo_seq(spec_set_marked(s, k0, m)),
        forall|k: Seq<u8>|
            #[trigger] has_key(spec_set_marked(s, k0, m), k) <==> has_key(s, k),
        has_key(s, k0) ==> entry_of(spec_set_marked(s, k0, m), k0) == (UtxoEntryV {
            hash: k0,
            marked: m,
            output: entry_of(s, k0).output,
        }),
        forall|k: Seq<u8>|
            has_key(s, k) && k != k0 ==> #[trigger] entry_of(spec_set_marked(s, k0, m), k)
                == entry_of(s, k),
        spec_set_marked(s, k0, m).len() == s.len(),
{
    lemma_find_key(s, k0);
    let t = spec_set_marked(s, k0, m);
    if has_key(s, k0) {
        assert forall|k: Seq<u8>| true implies (#[trigger] has_key(t, k) <==> has_key(s, k)) && (
        has_key(s, k) ==> entry_of(t, k) == if k == k0 {
            UtxoEntryV { hash: k0, marked: m, output: entry_of(s, k0).output }
        } else {
            entry_of(s, k)
        }) by {
            lemma_find_key(s, k);
            lemma_find_key_same(s, t, k);
        }
        assert(unique_keys(t)) by {
            assert forall|i: int, j: int| 0 <= i < j < t.len() implies (#[trigger] t[i]).hash != (
            #[trigger] t[j]).hash by {
                assert(s[i].hash == t[i].hash);
                assert(s[j].hash == t[j].hash);
            }
        }
        assert forall|i: int| 0 <= i < t.len() implies (#[trigger] t[i]).hash.len() == 32 by {
            assert(s[i].hash == t[i].hash);
        }
    }
    assert forall|k: Seq<u8>| true implies (#[trigger] has_key(t, k) <==> has_key(s, k)) by {
        if has_key(s, k0) {
            lemma_find_key(s, k);
            lemma_find_key_same(s, t, k);
        }
    }
    assert forall|k: Seq<u8>| has_key(s, k) && k != k0 implies #[trigger] entry_of(t, k)
        == entry_of(s, k) by {
        if has_key(s, k0) {
            lemma_find_key(s, k);
            lemma_find_key_same(s, t, k);
        }
    }
    if has_key(s, k0) {
        lemma_find_key(s, k0);
        lemma_find_key_same(s, t, k0);
        assert(entry_of(t, k0) == (UtxoEntryV {
            hash: k0,
            marked: m,
            output: entry_of(s, k0).output,
        }));
    }
}

} // verus!
