//! The mathematical model: what deduplication and resolution return, stated
//! over sequences of account views, and the structural lemmas about it.

use crate::accounts::{AccountMeta, AccountView, InstructionAccount, ResolvedView};
use vstd::prelude::*;

verus! {

/// The views of a sequence of account references, in order.
pub open spec fn views_of(s: Seq<AccountMeta>) -> Seq<AccountView> {
    s.map_values(|m: AccountMeta| m@)
}

/// The views of a sequence of resolution results, in order.
pub open spec fn resolved_views_of(s: Seq<InstructionAccount>) -> Seq<ResolvedView> {
    s.map_values(|a: InstructionAccount| a@)
}

/// Whether some entry of `s` carries the key `k`.
pub open spec fn contains_key(s: Seq<AccountView>, k: Seq<char>) -> bool {
    exists|i: int| 0 <= i < s.len() && s[i].key == k
}

/// The index of the entry of `s` carrying the key `k`; meaningful only where
/// `contains_key(s, k)` holds and the keys of `s` are unique.
pub open spec fn key_index(s: Seq<AccountView>, k: Seq<char>) -> int {
    choose|i: int| 0 <= i < s.len() && s[i].key == k
}

/// Whether the keys of `s` are pairwise distinct.
pub open spec fn unique_keys(s: Seq<AccountView>) -> bool {
    forall|i: int, j: int| 0 <= i < j < s.len() ==> s[i].key != s[j].key
}

/// The conservative widening of a canonical record `a` by a further
/// reference `b` to the same account: flags merge by logical OR, the key
/// stays.
pub open spec fn merge(a: AccountView, b: AccountView) -> AccountView {
    AccountView {
        key: a.key,
        is_signer: a.is_signer || b.is_signer,
        is_writable: a.is_writable || b.is_writable,
    }
}

/// The deduplicated canonical records of `s`, in first-seen key order: a
/// reference with a fresh key appends a record, a repeated key widens the
/// record already assigned to it.
pub open spec fn dedup_spec(s: Seq<AccountView>) -> Seq<AccountView>
    decreases s.len(),
{
    if s.len() == 0 {
        Seq::empty()
    } else {
        let prev = dedup_spec(s.drop_last());
        let m = s.last();
        if contains_key(prev, m.key) {
            let i = key_index(prev, m.key);
            prev.update(i, merge(prev[i], m))
        } else {
            prev.push(m)
        }
    }
}

/// Whether any reference in `s` requests signer access to the key `k`.
pub open spec fn has_signer(s: Seq<AccountView>, k: Seq<char>) -> bool {
    exists|i: int| 0 <= i < s.len() && s[i].key == k && s[i].is_signer
}

/// Whether any reference in `s` requests writable access to the key `k`.
pub open spec fn has_writable(s: Seq<AccountView>, k: Seq<char>) -> bool {
    exists|i: int| 0 <= i < s.len() && s[i].key == k && s[i].is_writable
}

/// The position of the first reference in `s` carrying the key `k`;
/// meaningful only where `contains_key(s, k)` holds.
pub open spec fn first_occurrence(s: Seq<AccountView>, k: Seq<char>) -> int
    decreases s.len(),
{
    if s.len() == 0 {
        0
    } else if contains_key(s.drop_last(), k) {
        first_occurrence(s.drop_last(), k)
    } else {
        s.len() - 1
    }
}

/// The resolution of the reference at position `i` of `s`: its canonical
/// slot index (in both the transaction and the caller index spaces), its
/// original position, and the canonical flags as merged over the prefix
/// processed so far.
pub open spec fn resolve_at(s: Seq<AccountView>, i: int) -> ResolvedView {
    let d = dedup_spec(s.take(i + 1));
    let t = key_index(d, s[i].key);
    ResolvedView {
        index_in_transaction: t,
        index_in_caller: t,
        index_in_callee: i,
        is_signer: d[t].is_signer,
        is_writable: d[t].is_writable,
    }
}

/// The full resolution of `s`: one result per reference, in input order.
pub open spec fn resolve_spec(s: Seq<AccountView>) -> Seq<ResolvedView> {
    Seq::new(s.len(), |i: int| resolve_at(s, i))
}

/// Whether resolution of `s` assigns the canonical index `t` to some
/// reference.
pub open spec fn index_assigned(s: Seq<AccountView>, t: int) -> bool {
    exists|i: int| 0 <= i < s.len() && resolve_spec(s)[i].index_in_transaction == t
}

/// The canonical records of `s` as resolution results, in first-seen key
/// order: slot `t` carries its own index in both canonical index spaces, the
/// position of the key's first reference, and the fully merged flags.
pub open spec fn canonical_resolved_spec(s: Seq<AccountView>) -> Seq<ResolvedView> {
    let d = dedup_spec(s);
    Seq::new(
        d.len(),
        |t: int|
            ResolvedView {
                index_in_transaction: t,
                index_in_caller: t,
                index_in_callee: first_occurrence(s, d[t].key),
                is_signer: d[t].is_signer,
                is_writable: d[t].is_writable,
            },
    )
}

/// The keys of a sequence of references, in order.
pub open spec fn keys_of(s: Seq<AccountView>) -> Seq<Seq<char>> {
    s.map_values(|m: AccountView| m.key)
}

/// A key occurs in a non-empty sequence exactly where it occurs before the
/// last reference or is the last reference's own key.
pub proof fn lemma_contains_key_decompose(s: Seq<AccountView>, k: Seq<char>)
    requires
        s.len() > 0,
    ensures
        contains_key(s, k) <==> (contains_key(s.drop_last(), k) || s.last().key == k),
{
    if contains_key(s, k) {
        let w = choose|i: int| 0 <= i < s.len() && s[i].key == k;
        if w < s.len() - 1 {
            assert(s.drop_last()[w].key == k);
            assert(contains_key(s.drop_last(), k));
        }
    }
    if contains_key(s.drop_last(), k) {
        let w = choose|i: int| 0 <= i < s.drop_last().len() && s.drop_last()[i].key == k;
        assert(s[w].key == k);
        assert(contains_key(s, k));
    }
    if s.last().key == k {
        assert(s[s.len() - 1].key == k);
        assert(contains_key(s, k));
    }
}

/// A key that occurs nowhere carries no flag.
pub proof fn lemma_absent_key_no_flags(s: Seq<AccountView>, k: Seq<char>)
    requires
        !contains_key(s, k),
    ensures
        !has_signer(s, k),
        !has_writable(s, k),
{
    if has_signer(s, k) {
        let w = choose|i: int| 0 <= i < s.len() && s[i].key == k && s[i].is_signer;
        assert(contains_key(s, k));
    }
    if has_writable(s, k) {
        let w = choose|i: int| 0 <= i < s.len() && s[i].key == k && s[i].is_writable;
        assert(contains_key(s, k));
    }
}

/// A flag is requested for `k` in a non-empty sequence exactly where it is
/// requested before the last reference or by the last reference itself.
pub proof fn lemma_has_flags_decompose(s: Seq<AccountView>, k: Seq<char>)
    requires
        s.len() > 0,
    ensures
        has_signer(s, k) <==> (has_signer(s.drop_last(), k) || (s.last().key == k
            && s.last().is_signer)),
        has_writable(s, k) <==> (has_writable(s.drop_last(), k) || (s.last().key == k
            && s.last().is_writable)),
{
    let rest = s.drop_last();
    if has_signer(s, k) {
        let w = choose|i: int| 0 <= i < s.len() && s[i].key == k && s[i].is_signer;
        if w < s.len() - 1 {
            assert(rest[w].key == k && rest[w].is_signer);
            assert(has_signer(rest, k));
        }
    }
    if has_signer(rest, k) {
        let w = choose|i: int| 0 <= i < rest.len() && rest[i].key == k && rest[i].is_signer;
        assert(s[w].key == k && s[w].is_signer);
        assert(has_signer(s, k));
    }
    if s.last().key == k && s.last().is_signer {
        assert(s[s.len() - 1].key == k && s[s.len() - 1].is_signer);
        assert(has_signer(s, k));
    }
    if has_writable(s, k) {
        let w = choose|i: int| 0 <= i < s.len() && s[i].key == k && s[i].is_writable;
        if w < s.len() - 1 {
            assert(rest[w].key == k && rest[w].is_writable);
            assert(has_writable(rest, k));
        }
    }
    if has_writable(rest, k) {
        let w = choose|i: int| 0 <= i < rest.len() && rest[i].key == k && rest[i].is_writable;
        assert(s[w].key == k && s[w].is_writable);
        assert(has_writable(s, k));
    }
    if s.last().key == k && s.last().is_writable {
        assert(s[s.len() - 1].key == k && s[s.len() - 1].is_writable);
        assert(has_writable(s, k));
    }
}

/// A sequence whose keys are already pairwise distinct deduplicates to
/// itself.
pub proof fn lemma_unique_dedup_identity(d: Seq<AccountView>)
    requires
        unique_keys(d),
    ensures
        dedup_spec(d) == d,
    decreases d.len(),
{
    if d.len() > 0 {
        let rest = d.drop_last();
        lemma_unique_dedup_identity(rest);
        if contains_key(rest, d.last().key) {
            let w = choose|i: int| 0 <= i < rest.len() && rest[i].key == d.last().key;
            assert(d[w].key == d[d.len() - 1].key);
            assert(false);
        }
        assert(rest.push(d.last()) =~= d);
    }
}

/// The first occurrence of a contained key is a position of the sequence
/// that carries the key, and no earlier position does.
pub proof fn lemma_first_occurrence_props(s: Seq<AccountView>, k: Seq<char>)
    requires
        contains_key(s, k),
    ensures
        0 <= first_occurrence(s, k) < s.len(),
        s[first_occurrence(s, k)].key == k,
        !contains_key(s.take(first_occurrence(s, k)), k),
    decreases s.len(),
{
    lemma_contains_key_decompose(s, k);
    let rest = s.drop_last();
    if contains_key(rest, k) {
        lemma_first_occurrence_props(rest, k);
        let f = first_occurrence(rest, k);
        assert(s[f] == rest[f]);
        assert(s.take(f) =~= rest.take(f));
    } else {
        assert(s.last().key == k);
        assert(s.take(s.len() - 1) =~= rest);
    }
}

/// Extending the references by one keeps the canonical index of every key
/// already present.
pub proof fn lemma_key_index_extend(s: Seq<AccountView>, i: int, k: Seq<char>)
    requires
        0 <= i < s.len(),
        contains_key(s.take(i), k),
    ensures
        contains_key(s.take(i + 1), k),
        key_index(dedup_spec(s.take(i + 1)), k) == key_index(dedup_spec(s.take(i)), k),
{
    let prev = dedup_spec(s.take(i));
    let d1 = dedup_spec(s.take(i + 1));
    assert(s.take(i + 1).drop_last() =~= s.take(i));
    assert(s.take(i + 1).last() == s[i]);
    lemma_dedup_key_membership(s.take(i), k);
    lemma_dedup_unique_keys(s.take(i));
    lemma_dedup_unique_keys(s.take(i + 1));
    let p = key_index(prev, k);
    assert(0 <= p < prev.len() && prev[p].key == k);
    assert(contains_key(s.take(i + 1), k)) by {
        let w = choose|q: int| 0 <= q < s.take(i).len() && s.take(i)[q].key == k;
        assert(s.take(i + 1)[w].key == k);
    }
    if contains_key(prev, s[i].key) {
        let j = key_index(prev, s[i].key);
        assert(0 <= j < prev.len() && prev[j].key == s[i].key);
        assert(d1 == prev.update(j, merge(prev[j], s[i])));
        assert(d1[p].key == k);
        lemma_key_index_unique(d1, k, p);
    } else {
        assert(d1 == prev.push(s[i]));
        assert(d1[p].key == k);
        lemma_key_index_unique(d1, k, p);
    }
}

/// The canonical index a key receives when first processed is its index
/// among the canonical records of the whole input.
pub proof fn lemma_key_index_stable(s: Seq<AccountView>, i: int, k: Seq<char>)
    requires
        0 <= i <= s.len(),
        contains_key(s.take(i), k),
    ensures
        contains_key(s, k),
        key_index(dedup_spec(s.take(i)), k) == key_index(dedup_spec(s), k),
    decreases s.len() - i,
{
    if i == s.len() {
        assert(s.take(i) =~= s);
    } else {
        lemma_key_index_extend(s, i, k);
        lemma_key_index_stable(s, i + 1, k);
    }
}

/// Mapping to views distributes over appending one resolution record.
pub proof fn lemma_resolved_views_push(r: Seq<InstructionAccount>, a: InstructionAccount)
    ensures
        resolved_views_of(r.push(a)) =~= resolved_views_of(r).push(a@),
{
    assert forall|p: int| 0 <= p < r.len() + 1 implies resolved_views_of(r.push(a))[p]
        == resolved_views_of(r).push(a@)[p] by {
        if p < r.len() {
            assert(r.push(a)[p] == r[p]);
        } else {
            assert(r.push(a)[p] == a);
        }
    }
}

/// One further reference extends a resolution by exactly its own record.
pub proof fn lemma_resolve_spec_snoc(s: Seq<AccountView>, i: int)
    requires
        0 <= i < s.len(),
    ensures
        resolve_spec(s).take(i + 1) =~= resolve_spec(s).take(i).push(resolve_at(s, i)),
{
}

/// A key already present in a prefix keeps its first occurrence when the
/// prefix grows by one reference.
pub proof fn lemma_first_occurrence_extend(s: Seq<AccountView>, i: int, k: Seq<char>)
    requires
        0 <= i < s.len(),
        contains_key(s.take(i), k),
    ensures
        first_occurrence(s.take(i + 1), k) == first_occurrence(s.take(i), k),
{
    assert(s.take(i + 1).drop_last() =~= s.take(i));
}

/// A key absent from a prefix first occurs, once the prefix grows by one
/// reference carrying it, at exactly that reference's position.
pub proof fn lemma_first_occurrence_new(s: Seq<AccountView>, i: int)
    requires
        0 <= i < s.len(),
        !contains_key(s.take(i), s[i].key),
    ensures
        first_occurrence(s.take(i + 1), s[i].key) == i,
{
    assert(s.take(i + 1).drop_last() =~= s.take(i));
    assert(s.take(i + 1).len() == i + 1);
}

/// Deduplication never grows a sequence: there is at most one canonical
/// record per reference.
pub proof fn lemma_dedup_len(s: Seq<AccountView>)
    ensures
        dedup_spec(s).len() <= s.len(),
    decreases s.len(),
{
    if s.len() > 0 {
        lemma_dedup_len(s.drop_last());
    }
}

/// The keys of the canonical records are pairwise distinct.
pub proof fn lemma_dedup_unique_keys(s: Seq<AccountView>)
    ensures
        unique_keys(dedup_spec(s)),
    decreases s.len(),
{
    if s.len() > 0 {
        lemma_dedup_unique_keys(s.drop_last());
        let prev = dedup_spec(s.drop_last());
        let m = s.last();
        if contains_key(prev, m.key) {
            let i = key_index(prev, m.key);
            assert(0 <= i < prev.len() && prev[i].key == m.key);
            let d = prev.update(i, merge(prev[i], m));
            assert forall|a: int, b: int| 0 <= a < b < d.len() implies d[a].key != d[b].key by {
                assert(d[a].key == prev[a].key);
                assert(d[b].key == prev[b].key);
            }
        } else {
            let d = prev.push(m);
            assert forall|a: int, b: int| 0 <= a < b < d.len() implies d[a].key != d[b].key by {
                if b == d.len() - 1 {
                    assert(d[a] == prev[a]);
                    if d[a].key == m.key {
                        assert(contains_key(prev, m.key));
                    }
                }
            }
        }
    }
}

/// Where the keys of `s` are unique, `key_index` is the one index of `s`
/// carrying `k`.
pub proof fn lemma_key_index_unique(s: Seq<AccountView>, k: Seq<char>, j: int)
    requires
        unique_keys(s),
        0 <= j < s.len(),
        s[j].key == k,
    ensures
        key_index(s, k) == j,
{
    assert(contains_key(s, k));
    let i = key_index(s, k);
    assert(0 <= i < s.len() && s[i].key == k);
}

/// A key occurs among the canonical records exactly where it occurs among
/// the references.
pub proof fn lemma_dedup_key_membership(s: Seq<AccountView>, k: Seq<char>)
    ensures
        contains_key(dedup_spec(s), k) <==> contains_key(s, k),
    decreases s.len(),
{
    if s.len() == 0 {
        assert(!contains_key(s, k));
    } else {
        lemma_dedup_key_membership(s.drop_last(), k);
        let rest = s.drop_last();
        let prev = dedup_spec(rest);
        let m = s.last();
        assert(contains_key(s, k) <==> (contains_key(rest, k) || m.key == k)) by {
            if contains_key(s, k) {
                let w = choose|i: int| 0 <= i < s.len() && s[i].key == k;
                if w < s.len() - 1 {
                    assert(rest[w].key == k);
                    assert(contains_key(rest, k));
                }
            }
            if contains_key(rest, k) {
                let w = choose|i: int| 0 <= i < rest.len() && rest[i].key == k;
                assert(s[w].key == k);
                assert(contains_key(s, k));
            }
            if m.key == k {
                assert(s[s.len() - 1].key == k);
                assert(contains_key(s, k));
            }
        }
        if contains_key(prev, m.key) {
            let i = key_index(prev, m.key);
            assert(0 <= i < prev.len() && prev[i].key == m.key);
            let d = prev.update(i, merge(prev[i], m));
            assert(contains_key(d, k) <==> contains_key(prev, k)) by {
                if contains_key(d, k) {
                    let w = choose|p: int| 0 <= p < d.len() && d[p].key == k;
                    assert(prev[w].key == k || (w == i && k == m.key));
                    assert(contains_key(prev, k));
                }
                if contains_key(prev, k) {
                    let w = choose|p: int| 0 <= p < prev.len() && prev[p].key == k;
                    if w == i {
                        assert(d[i].key == k);
                    } else {
                        assert(d[w].key == k);
                    }
                    assert(contains_key(d, k));
                }
            }
        } else {
            let d = prev.push(m);
            assert(contains_key(d, k) <==> (contains_key(prev, k) || m.key == k)) by {
                if contains_key(d, k) {
                    let w = choose|p: int| 0 <= p < d.len() && d[p].key == k;
                    if w < d.len() - 1 {
                        assert(prev[w].key == k);
                        assert(contains_key(prev, k));
                    }
                }
                if contains_key(prev, k) {
                    let w = choose|p: int| 0 <= p < prev.len() && prev[p].key == k;
                    assert(d[w].key == k);
                    assert(contains_key(d, k));
                }
                if m.key == k {
                    assert(d[d.len() - 1].key == k);
                    assert(contains_key(d, k));
                }
            }
        }
    }
}

} // verus!
