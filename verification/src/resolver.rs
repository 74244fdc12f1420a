//! The executable resolver: deduplication of account references and
//! per-reference index resolution, each proved against the model.

use crate::accounts::{AccountMeta, IndexOfAccount, InstructionAccount, PubKey, ResolutionError};
use crate::model::{
    canonical_resolved_spec, contains_key, dedup_spec, lemma_dedup_key_membership,
    lemma_dedup_len, lemma_dedup_unique_keys, lemma_first_occurrence_extend,
    lemma_first_occurrence_new, lemma_key_index_unique, lemma_resolve_spec_snoc,
    lemma_resolved_views_push, merge, resolve_at, resolve_spec, resolved_views_of, views_of,
};
use vstd::prelude::*;

verus! {

/// The position of the first canonical record in `accounts` carrying `key`,
/// or `None` where no record does.
fn find_key(accounts: &Vec<AccountMeta>, key: &PubKey) -> (r: Option<usize>)
    ensures
        match r {
            Some(j) => {
                &&& j < accounts@.len()
                &&& views_of(accounts@)[j as int].key == key@
                &&& forall|m: int| 0 <= m < j ==> views_of(accounts@)[m].key != key@
            },
            None => !contains_key(views_of(accounts@), key@),
        },
{
    let mut j: usize = 0;
    while j < accounts.len()
        invariant
            j <= accounts@.len(),
            forall|m: int| 0 <= m < j ==> views_of(accounts@)[m].key != key@,
        decreases accounts@.len() - j,
    {
        if accounts[j].pubkey == *key {
            return Some(j);
        }
        j = j + 1;
    }
    None
}

/// Deduplicates the references by scanning, for each reference, the records
/// collected so far: a repeated key widens its record's flags by logical OR,
/// a fresh key appends a record. Canonical records come out in first-seen
/// key order.
pub fn deduplicate_accounts_nested(accounts: Vec<AccountMeta>) -> (r: Vec<AccountMeta>)
    ensures
        views_of(r@) == dedup_spec(views_of(accounts@)),
{
    let ghost s = views_of(accounts@);
    let mut deduplicated: Vec<AccountMeta> = Vec::new();
    let n = accounts.len();
    let mut i: usize = 0;
    while i < n
        invariant
            n == accounts@.len(),
            i <= n,
            s == views_of(accounts@),
            views_of(deduplicated@) == dedup_spec(s.take(i as int)),
        decreases n - i,
    {
        let ghost prev = dedup_spec(s.take(i as int));
        proof {
            lemma_dedup_unique_keys(s.take(i as int));
            assert(s.take(i as int + 1).drop_last() =~= s.take(i as int));
            assert(s.take(i as int + 1).last() == s[i as int]);
        }
        let account_meta = accounts[i].clone();
        match find_key(&deduplicated, &account_meta.pubkey) {
            Some(j) => {
                proof {
                    lemma_key_index_unique(prev, account_meta@.key, j as int);
                }
                let new_signer = deduplicated[j].is_signer || account_meta.is_signer;
                let new_writable = deduplicated[j].is_writable || account_meta.is_writable;
                deduplicated[j].is_signer = new_signer;
                deduplicated[j].is_writable = new_writable;
                proof {
                    assert(views_of(deduplicated@) =~= prev.update(
                        j as int,
                        merge(prev[j as int], s[i as int]),
                    ));
                }
            },
            None => {
                deduplicated.push(account_meta);
                proof {
                    assert(views_of(deduplicated@) =~= prev.push(s[i as int]));
                }
            },
        }
        i = i + 1;
    }
    proof {
        assert(s.take(n as int) =~= s);
    }
    deduplicated
}

/// Deduplicates the references through a key-to-record lookup: the lookup is
/// held as a vector of records with pairwise-distinct keys, searched by key.
/// The result equals that of the nested scan, canonical records in
/// first-seen key order.
pub fn deduplicate_accounts_hashmap(accounts: Vec<AccountMeta>) -> (r: Vec<AccountMeta>)
    ensures
        views_of(r@) == dedup_spec(views_of(accounts@)),
{
    let ghost s = views_of(accounts@);
    let mut account_index_map: Vec<AccountMeta> = Vec::new();
    let n = accounts.len();
    let mut i: usize = 0;
    while i < n
        invariant
            n == accounts@.len(),
            i <= n,
            s == views_of(accounts@),
            views_of(account_index_map@) == dedup_spec(s.take(i as int)),
        decreases n - i,
    {
        let ghost prev = dedup_spec(s.take(i as int));
        proof {
            lemma_dedup_unique_keys(s.take(i as int));
            assert(s.take(i as int + 1).drop_last() =~= s.take(i as int));
            assert(s.take(i as int + 1).last() == s[i as int]);
        }
        let account_meta = accounts[i].clone();
        match find_key(&account_index_map, &account_meta.pubkey) {
            Some(j) => {
                proof {
                    lemma_key_index_unique(prev, account_meta@.key, j as int);
                }
                let new_signer = account_index_map[j].is_signer || account_meta.is_signer;
                let new_writable = account_index_map[j].is_writable || account_meta.is_writable;
                account_index_map[j].is_signer = new_signer;
                account_index_map[j].is_writable = new_writable;
                proof {
                    assert(views_of(account_index_map@) =~= prev.update(
                        j as int,
                        merge(prev[j as int], s[i as int]),
                    ));
                }
            },
            None => {
                account_index_map.push(account_meta);
                proof {
                    assert(views_of(account_index_map@) =~= prev.push(s[i as int]));
                }
            },
        }
        i = i + 1;
    }
    proof {
        assert(s.take(n as int) =~= s);
    }
    account_index_map
}

/// Deduplicates the references through the same key lookup, widening a
/// repeated key's record only where the new reference requests some access
/// at all; widening by a reference with both flags false changes nothing, so
/// the result again equals the nested scan's.
pub fn deduplicate_accounts_hashmap_as_tuple(instruction_accounts: Vec<AccountMeta>) -> (r: Vec<
    AccountMeta,
>)
    ensures
        views_of(r@) == dedup_spec(views_of(instruction_accounts@)),
{
    let ghost s = views_of(instruction_accounts@);
    let mut results: Vec<AccountMeta> = Vec::new();
    let n = instruction_accounts.len();
    let mut index: usize = 0;
    while index < n
        invariant
            n == instruction_accounts@.len(),
            index <= n,
            s == views_of(instruction_accounts@),
            views_of(results@) == dedup_spec(s.take(index as int)),
        decreases n - index,
    {
        let ghost prev = dedup_spec(s.take(index as int));
        proof {
            lemma_dedup_unique_keys(s.take(index as int));
            assert(s.take(index as int + 1).drop_last() =~= s.take(index as int));
            assert(s.take(index as int + 1).last() == s[index as int]);
        }
        let account_meta = instruction_accounts[index].clone();
        match find_key(&results, &account_meta.pubkey) {
            Some(j) => {
                proof {
                    lemma_key_index_unique(prev, account_meta@.key, j as int);
                }
                if account_meta.is_signer || account_meta.is_writable {
                    let new_signer = results[j].is_signer || account_meta.is_signer;
                    let new_writable = results[j].is_writable || account_meta.is_writable;
                    results[j].is_signer = new_signer;
                    results[j].is_writable = new_writable;
                }
                proof {
                    assert(views_of(results@) =~= prev.update(
                        j as int,
                        merge(prev[j as int], s[index as int]),
                    ));
                }
            },
            None => {
                results.push(account_meta);
                proof {
                    assert(views_of(results@) =~= prev.push(s[index as int]));
                }
            },
        }
        index = index + 1;
    }
    proof {
        assert(s.take(n as int) =~= s);
    }
    results
}

/// Resolves every reference to its canonical slot: the result holds, in
/// input order, one record per reference, carrying the canonical slot index
/// in the transaction and caller index spaces, the reference's original
/// position, and the canonical flags as merged up to that reference.
/// Resolution is all-or-nothing and, for every input, succeeds.
pub fn resolve(references: &Vec<AccountMeta>) -> (r: Result<
    Vec<InstructionAccount>,
    ResolutionError,
>)
    requires
        references@.len() <= u16::MAX as usize,
    ensures
        r is Ok,
        r matches Ok(out) ==> resolved_views_of(out@) == resolve_spec(views_of(references@)),
{
    let ghost s = views_of(references@);
    let mut canonical: Vec<AccountMeta> = Vec::new();
    let mut resolved: Vec<InstructionAccount> = Vec::new();
    let n = references.len();
    let mut i: usize = 0;
    while i < n
        invariant
            n == references@.len(),
            n <= u16::MAX as usize,
            i <= n,
            s == views_of(references@),
            views_of(canonical@) == dedup_spec(s.take(i as int)),
            resolved_views_of(resolved@) == resolve_spec(s).take(i as int),
        decreases n - i,
    {
        let ghost prev = dedup_spec(s.take(i as int));
        proof {
            lemma_dedup_unique_keys(s.take(i as int));
            lemma_dedup_len(s.take(i as int));
            assert(s.take(i as int + 1).drop_last() =~= s.take(i as int));
            assert(s.take(i as int + 1).last() == s[i as int]);
        }
        let account_meta = references[i].clone();
        match find_key(&canonical, &account_meta.pubkey) {
            Some(j) => {
                proof {
                    lemma_key_index_unique(prev, account_meta@.key, j as int);
                }
                let new_signer = canonical[j].is_signer || account_meta.is_signer;
                let new_writable = canonical[j].is_writable || account_meta.is_writable;
                canonical[j].is_signer = new_signer;
                canonical[j].is_writable = new_writable;
                proof {
                    assert(views_of(canonical@) =~= prev.update(
                        j as int,
                        merge(prev[j as int], s[i as int]),
                    ));
                    lemma_dedup_unique_keys(s.take(i as int + 1));
                    lemma_key_index_unique(
                        dedup_spec(s.take(i as int + 1)),
                        s[i as int].key,
                        j as int,
                    );
                }
                let ghost r_old = resolved@;
                let elem = InstructionAccount {
                    index_in_transaction: j as IndexOfAccount,
                    index_in_caller: j as IndexOfAccount,
                    index_in_callee: i as IndexOfAccount,
                    is_signer: new_signer,
                    is_writable: new_writable,
                };
                resolved.push(elem);
                proof {
                    assert(elem@ == resolve_at(s, i as int));
                    lemma_resolved_views_push(r_old, elem);
                    lemma_resolve_spec_snoc(s, i as int);
                }
            },
            None => {
                let new_index = canonical.len();
                canonical.push(account_meta.clone());
                proof {
                    assert(views_of(canonical@) =~= prev.push(s[i as int]));
                    lemma_dedup_unique_keys(s.take(i as int + 1));
                    lemma_key_index_unique(
                        dedup_spec(s.take(i as int + 1)),
                        s[i as int].key,
                        new_index as int,
                    );
                }
                let ghost r_old = resolved@;
                let elem = InstructionAccount {
                    index_in_transaction: new_index as IndexOfAccount,
                    index_in_caller: new_index as IndexOfAccount,
                    index_in_callee: i as IndexOfAccount,
                    is_signer: account_meta.is_signer,
                    is_writable: account_meta.is_writable,
                };
                resolved.push(elem);
                proof {
                    assert(elem@ == resolve_at(s, i as int));
                    lemma_resolved_views_push(r_old, elem);
                    lemma_resolve_spec_snoc(s, i as int);
                }
            },
        }
        i = i + 1;
    }
    proof {
        assert(s.take(n as int) =~= s);
        assert(resolve_spec(s).take(n as int) =~= resolve_spec(s));
    }
    Ok(resolved)
}

/// Resolves the references to the deduplicated canonical records alone, one
/// per distinct key in first-seen order: slot `t` carries its own index in
/// both canonical index spaces, the position of the key's first reference,
/// and the fully merged flags. Resolution is all-or-nothing and, for every
/// input, succeeds.
pub fn prepare_instruction_new(instruction_accounts: &Vec<AccountMeta>) -> (r: Result<
    Vec<InstructionAccount>,
    ResolutionError,
>)
    requires
        instruction_accounts@.len() <= u16::MAX as usize,
    ensures
        r is Ok,
        r matches Ok(out) ==> resolved_views_of(out@) == canonical_resolved_spec(
            views_of(instruction_accounts@),
        ),
{
    let ghost s = views_of(instruction_accounts@);
    let mut pubkey_to_index: Vec<AccountMeta> = Vec::new();
    let mut deduplicated: Vec<InstructionAccount> = Vec::new();
    let n = instruction_accounts.len();
    let mut i: usize = 0;
    while i < n
        invariant
            n == instruction_accounts@.len(),
            n <= u16::MAX as usize,
            i <= n,
            s == views_of(instruction_accounts@),
            views_of(pubkey_to_index@) == dedup_spec(s.take(i as int)),
            resolved_views_of(deduplicated@) == canonical_resolved_spec(s.take(i as int)),
            deduplicated@.len() == pubkey_to_index@.len(),
        decreases n - i,
    {
        let ghost prev = dedup_spec(s.take(i as int));
        let ghost r_old = deduplicated@;
        proof {
            lemma_dedup_unique_keys(s.take(i as int));
            lemma_dedup_len(s.take(i as int));
            assert(s.take(i as int + 1).drop_last() =~= s.take(i as int));
            assert(s.take(i as int + 1).last() == s[i as int]);
        }
        let account_meta = instruction_accounts[i].clone();
        match find_key(&pubkey_to_index, &account_meta.pubkey) {
            Some(j) => {
                proof {
                    lemma_key_index_unique(prev, account_meta@.key, j as int);
                }
                let new_signer = pubkey_to_index[j].is_signer || account_meta.is_signer;
                let new_writable = pubkey_to_index[j].is_writable || account_meta.is_writable;
                pubkey_to_index[j].is_signer = new_signer;
                pubkey_to_index[j].is_writable = new_writable;
                deduplicated[j].is_signer = new_signer;
                deduplicated[j].is_writable = new_writable;
                proof {
                    assert(views_of(pubkey_to_index@) =~= prev.update(
                        j as int,
                        merge(prev[j as int], s[i as int]),
                    ));
                    let d1 = dedup_spec(s.take(i as int + 1));
                    assert forall|t: int| 0 <= t < d1.len() implies resolved_views_of(
                        deduplicated@,
                    )[t] == canonical_resolved_spec(s.take(i as int + 1))[t] by {
                        assert(d1[t].key == prev[t].key);
                        assert(contains_key(prev, prev[t].key));
                        lemma_dedup_key_membership(s.take(i as int), prev[t].key);
                        lemma_first_occurrence_extend(s, i as int, prev[t].key);
                        assert(resolved_views_of(r_old)[t] == canonical_resolved_spec(
                            s.take(i as int),
                        )[t]);
                        if t != j as int {
                            assert(deduplicated@[t] == r_old[t]);
                        }
                    }
                    assert(resolved_views_of(deduplicated@) =~= canonical_resolved_spec(
                        s.take(i as int + 1),
                    ));
                }
            },
            None => {
                let new_index = pubkey_to_index.len();
                pubkey_to_index.push(account_meta.clone());
                let elem = InstructionAccount {
                    index_in_transaction: new_index as IndexOfAccount,
                    index_in_caller: new_index as IndexOfAccount,
                    index_in_callee: i as IndexOfAccount,
                    is_signer: account_meta.is_signer,
                    is_writable: account_meta.is_writable,
                };
                deduplicated.push(elem);
                proof {
                    assert(views_of(pubkey_to_index@) =~= prev.push(s[i as int]));
                    lemma_dedup_key_membership(s.take(i as int), s[i as int].key);
                    lemma_first_occurrence_new(s, i as int);
                    let d1 = dedup_spec(s.take(i as int + 1));
                    assert forall|t: int| 0 <= t < d1.len() implies resolved_views_of(
                        deduplicated@,
                    )[t] == canonical_resolved_spec(s.take(i as int + 1))[t] by {
                        if t < new_index as int {
                            assert(d1[t] == prev[t]);
                            assert(contains_key(prev, prev[t].key));
                            lemma_dedup_key_membership(s.take(i as int), prev[t].key);
                            lemma_first_occurrence_extend(s, i as int, prev[t].key);
                            assert(deduplicated@[t] == r_old[t]);
                            assert(resolved_views_of(r_old)[t] == canonical_resolved_spec(
                                s.take(i as int),
                            )[t]);
                        } else {
                            assert(deduplicated@[t] == elem);
                            assert(d1[t] == s[i as int]);
                        }
                    }
                    assert(resolved_views_of(deduplicated@) =~= canonical_resolved_spec(
                        s.take(i as int + 1),
                    ));
                }
            },
        }
        i = i + 1;
    }
    proof {
        assert(s.take(n as int) =~= s);
    }
    Ok(deduplicated)
}

/// The canonical slot index assigned to `key` among the deduplicated
/// records `accounts`: the position of the first record carrying the key,
/// or, where no record does, the typed failure naming the key.
pub fn canonical_index_of(accounts: &Vec<AccountMeta>, key: &PubKey) -> (r: Result<
    IndexOfAccount,
    ResolutionError,
>)
    requires
        accounts@.len() <= u16::MAX as usize,
    ensures
        r is Ok <==> contains_key(views_of(accounts@), key@),
        r matches Ok(j) ==> {
            &&& (j as int) < accounts@.len()
            &&& views_of(accounts@)[j as int].key == key@
            &&& forall|m: int| 0 <= m < j as int ==> views_of(accounts@)[m].key != key@
        },
        r matches Err(e) ==> (e matches ResolutionError::UnknownAccount(k) && k@ == key@),
{
    match find_key(accounts, key) {
        Some(j) => {
            proof {
                assert(contains_key(views_of(accounts@), key@));
            }
            Ok(j as IndexOfAccount)
        },
        None => Err(ResolutionError::UnknownAccount(key.clone())),
    }
}

} // verus!
