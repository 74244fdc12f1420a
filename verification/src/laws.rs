//! The laws of resolution, stated and proved over the model: determinism,
//! cardinality, flag monotonicity, index density, callee-index fidelity,
//! idempotence of re-resolution, and the special cases of all-distinct and
//! all-equal keys.

use crate::accounts::{AccountView, ResolvedView};
use crate::model::{
    contains_key, dedup_spec, first_occurrence, has_signer, has_writable, index_assigned, key_index,
    keys_of,
    lemma_absent_key_no_flags, lemma_contains_key_decompose, lemma_dedup_key_membership,
    lemma_dedup_unique_keys, lemma_first_occurrence_props, lemma_has_flags_decompose,
    lemma_key_index_stable, lemma_key_index_unique, lemma_unique_dedup_identity, merge,
    resolve_spec, unique_keys,
};
use vstd::prelude::*;

verus! {

/// Determinism: two resolutions of the same input sequence are identical.
pub proof fn lemma_resolve_deterministic(
    s: Seq<AccountView>,
    r1: Seq<ResolvedView>,
    r2: Seq<ResolvedView>,
)
    requires
        r1 == resolve_spec(s),
        r2 == resolve_spec(s),
    ensures
        r1 == r2,
{
}

/// Cardinality: there is one resolution record per reference, and one
/// canonical record per distinct key.
pub proof fn lemma_cardinality(s: Seq<AccountView>)
    ensures
        resolve_spec(s).len() == s.len(),
        dedup_spec(s).len() == keys_of(s).to_set().len(),
{
    lemma_dedup_unique_keys(s);
    let d = dedup_spec(s);
    assert(keys_of(d).no_duplicates()) by {
        assert forall|a: int, b: int|
            0 <= a < keys_of(d).len() && 0 <= b < keys_of(d).len() && a != b implies keys_of(d)[a]
            != keys_of(d)[b] by {
            assert(keys_of(d)[a] == d[a].key);
            assert(keys_of(d)[b] == d[b].key);
        }
    }
    keys_of(d).unique_seq_to_set();
    assert(keys_of(d).to_set() =~= keys_of(s).to_set()) by {
        assert forall|k: Seq<char>| #[trigger]
            keys_of(d).to_set().contains(k) implies keys_of(s).to_set().contains(k) by {
            let w = choose|i: int| 0 <= i < keys_of(d).len() && keys_of(d)[i] == k;
            assert(d[w].key == k);
            assert(contains_key(d, k));
            lemma_dedup_key_membership(s, k);
            let v = choose|i: int| 0 <= i < s.len() && s[i].key == k;
            assert(keys_of(s)[v] == k);
            assert(keys_of(s).contains(k));
        }
        assert forall|k: Seq<char>| #[trigger]
            keys_of(s).to_set().contains(k) implies keys_of(d).to_set().contains(k) by {
            let w = choose|i: int| 0 <= i < keys_of(s).len() && keys_of(s)[i] == k;
            assert(s[w].key == k);
            assert(contains_key(s, k));
            lemma_dedup_key_membership(s, k);
            let v = choose|i: int| 0 <= i < d.len() && d[i].key == k;
            assert(keys_of(d)[v] == k);
            assert(keys_of(d).contains(k));
        }
    }
}

/// Flag monotonicity: however the references are ordered, the canonical
/// record of a key carries a flag exactly where some reference with that key
/// requested it.
pub proof fn lemma_flag_monotonicity(s: Seq<AccountView>, k: Seq<char>)
    requires
        contains_key(s, k),
    ensures
        ({
            let d = dedup_spec(s);
            let t = key_index(d, k);
            &&& contains_key(d, k)
            &&& 0 <= t < d.len()
            &&& d[t].key == k
            &&& d[t].is_signer == has_signer(s, k)
            &&& d[t].is_writable == has_writable(s, k)
        }),
    decreases s.len(),
{
    lemma_dedup_key_membership(s, k);
    lemma_dedup_unique_keys(s);
    let d = dedup_spec(s);
    let t = key_index(d, k);
    assert(0 <= t < d.len() && d[t].key == k);
    let rest = s.drop_last();
    let prev = dedup_spec(rest);
    let m = s.last();
    lemma_contains_key_decompose(s, k);
    lemma_has_flags_decompose(s, k);
    lemma_dedup_key_membership(rest, k);
    lemma_dedup_unique_keys(rest);
    if contains_key(prev, m.key) {
        let i = key_index(prev, m.key);
        assert(0 <= i < prev.len() && prev[i].key == m.key);
        assert(d == prev.update(i, merge(prev[i], m)));
        if m.key == k {
            assert(contains_key(rest, k));
            lemma_flag_monotonicity(rest, k);
            lemma_key_index_unique(prev, k, key_index(prev, k));
            assert(key_index(prev, k) == i);
            assert(d[i].key == k);
            lemma_key_index_unique(d, k, i);
        } else {
            assert(contains_key(rest, k));
            lemma_flag_monotonicity(rest, k);
            let p = key_index(prev, k);
            assert(p != i);
            assert(d[p] == prev[p]);
            lemma_key_index_unique(d, k, p);
        }
    } else {
        assert(d == prev.push(m));
        if m.key == k {
            assert(!contains_key(rest, k));
            lemma_absent_key_no_flags(rest, k);
            assert(d[prev.len() as int].key == k);
            lemma_key_index_unique(d, k, prev.len() as int);
        } else {
            assert(contains_key(rest, k));
            lemma_flag_monotonicity(rest, k);
            let p = key_index(prev, k);
            assert(d[p] == prev[p]);
            lemma_key_index_unique(d, k, p);
        }
    }
}

/// Index density: the canonical indices that resolution assigns are exactly
/// the integers from zero up to, excluded, the distinct key count.
pub proof fn lemma_index_density(s: Seq<AccountView>)
    ensures
        forall|i: int|
            0 <= i < s.len() ==> 0 <= #[trigger] resolve_spec(s)[i].index_in_transaction
                < dedup_spec(s).len(),
        forall|t: int| #[trigger] index_assigned(s, t) <==> 0 <= t < dedup_spec(s).len(),
{
    let d = dedup_spec(s);
    lemma_dedup_unique_keys(s);
    assert forall|i: int| 0 <= i < s.len() implies 0 <= #[trigger] resolve_spec(
        s,
    )[i].index_in_transaction < d.len() by {
        let k = s[i].key;
        assert(contains_key(s.take(i + 1), k)) by {
            assert(s.take(i + 1)[i].key == k);
        }
        lemma_dedup_key_membership(s.take(i + 1), k);
        lemma_dedup_unique_keys(s.take(i + 1));
        let di = dedup_spec(s.take(i + 1));
        let p = key_index(di, k);
        assert(0 <= p < di.len() && di[p].key == k);
        lemma_key_index_stable(s, i + 1, k);
        lemma_dedup_key_membership(s, k);
        let q = key_index(d, k);
        assert(0 <= q < d.len() && d[q].key == k);
    }
    assert forall|t: int| #[trigger] index_assigned(s, t) implies 0 <= t < d.len() by {
        let w = choose|i: int|
            0 <= i < s.len() && resolve_spec(s)[i].index_in_transaction == t;
        assert(0 <= resolve_spec(s)[w].index_in_transaction < d.len());
    }
    assert forall|t: int| 0 <= t < d.len() implies #[trigger] index_assigned(s, t) by {
        let k = d[t].key;
        assert(contains_key(d, k));
        lemma_dedup_key_membership(s, k);
        lemma_first_occurrence_props(s, k);
        let f = first_occurrence(s, k);
        assert(contains_key(s.take(f + 1), k)) by {
            assert(s.take(f + 1)[f].key == k);
        }
        lemma_key_index_stable(s, f + 1, k);
        lemma_key_index_unique(d, k, t);
        lemma_dedup_unique_keys(s.take(f + 1));
        assert(resolve_spec(s)[f].index_in_transaction == key_index(dedup_spec(s.take(f + 1)), k));
        assert(resolve_spec(s)[f].index_in_transaction == t);
    }
}

/// Callee-index fidelity: each resolution record carries its reference's
/// original position, deduplication notwithstanding.
pub proof fn lemma_callee_index_fidelity(s: Seq<AccountView>)
    ensures
        forall|i: int| 0 <= i < s.len() ==> #[trigger] resolve_spec(s)[i].index_in_callee == i,
{
}

/// Idempotence of re-resolution: deduplicating the canonical records again
/// returns them unchanged; the canonical set is a fixed point.
pub proof fn lemma_dedup_idempotent(s: Seq<AccountView>)
    ensures
        dedup_spec(dedup_spec(s)) == dedup_spec(s),
{
    lemma_dedup_unique_keys(s);
    lemma_unique_dedup_identity(dedup_spec(s));
}

/// All keys distinct: every reference founds its own canonical record, and
/// all three indices of each resolution record coincide.
pub proof fn lemma_all_unique_keys(s: Seq<AccountView>)
    requires
        unique_keys(s),
    ensures
        dedup_spec(s) == s,
        forall|i: int|
            0 <= i < s.len() ==> {
                let r = #[trigger] resolve_spec(s)[i];
                &&& r.index_in_transaction == i
                &&& r.index_in_caller == i
                &&& r.index_in_callee == i
            },
{
    lemma_unique_dedup_identity(s);
    assert forall|i: int| 0 <= i < s.len() implies {
        let r = #[trigger] resolve_spec(s)[i];
        &&& r.index_in_transaction == i
        &&& r.index_in_caller == i
        &&& r.index_in_callee == i
    } by {
        let pfx = s.take(i + 1);
        assert(unique_keys(pfx)) by {
            assert(forall|a: int, b: int|
                0 <= a < b < pfx.len() ==> s[a].key != s[b].key && pfx[a] == s[a] && pfx[b]
                    == s[b]);
        }
        lemma_unique_dedup_identity(pfx);
        lemma_key_index_unique(pfx, s[i].key, i);
    }
}

/// A single key throughout: exactly one canonical record comes out, and each
/// of its flags is set exactly where some occurrence requested it.
pub proof fn lemma_single_key(s: Seq<AccountView>)
    requires
        s.len() > 0,
        forall|i: int| 0 <= i < s.len() ==> #[trigger] s[i].key == s[0].key,
    ensures
        ({
            let d = dedup_spec(s);
            &&& d.len() == 1
            &&& d[0].key == s[0].key
            &&& d[0].is_signer == has_signer(s, s[0].key)
            &&& d[0].is_writable == has_writable(s, s[0].key)
        }),
{
    let k = s[0].key;
    let d = dedup_spec(s);
    lemma_dedup_unique_keys(s);
    assert(contains_key(s, k)) by {
        assert(s[0].key == k);
    }
    lemma_dedup_key_membership(s, k);
    assert(d.len() >= 1) by {
        let w = choose|i: int| 0 <= i < d.len() && d[i].key == k;
    }
    assert forall|t: int| 0 <= t < d.len() implies d[t].key == k by {
        assert(contains_key(d, d[t].key));
        lemma_dedup_key_membership(s, d[t].key);
        let w = choose|i: int| 0 <= i < s.len() && s[i].key == d[t].key;
        assert(s[w].key == k);
    }
    assert(d.len() == 1) by {
        if d.len() > 1 {
            assert(d[0].key == k && d[1].key == k);
            assert(false);
        }
    }
    lemma_flag_monotonicity(s, k);
    assert(key_index(d, k) == 0) by {
        lemma_key_index_unique(d, k, 0);
    }
}

} // verus!
