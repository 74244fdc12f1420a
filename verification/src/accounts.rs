//! The data types: account keys, account references, canonical records, and
//! the per-reference resolution result, together with their mathematical
//! views.

use vstd::prelude::*;

verus! {

/// An opaque account identifier. Equality of two keys is equality of their
/// textual encodings; no other structure is assumed.
#[derive(Debug)]
pub struct PubKey(pub String);

impl View for PubKey {
    type V = Seq<char>;

    open spec fn view(&self) -> Seq<char> {
        self.0@
    }
}

impl Clone for PubKey {
    fn clone(&self) -> (r: Self)
        ensures
            r@ == self@,
    {
        PubKey(self.0.clone())
    }
}

impl PartialEq for PubKey {
    fn eq(&self, other: &Self) -> (r: bool) {
        self.0 == other.0
    }
}

impl vstd::std_specs::cmp::PartialEqSpecImpl for PubKey {
    open spec fn obeys_eq_spec() -> bool {
        true
    }

    open spec fn eq_spec(&self, other: &Self) -> bool {
        self@ == other@
    }
}

/// One account reference: a request, in input order, for access to the
/// account named by `pubkey` with the given permissions. The same struct is
/// used for the deduplicated canonical records, whose flags are the merged
/// (logical OR) flags of every reference sharing the key.
#[derive(Debug)]
pub struct AccountMeta {
    pub pubkey: PubKey,
    pub is_signer: bool,
    pub is_writable: bool,
}

/// The mathematical content of an `AccountMeta`: the key as a character
/// sequence plus the two permission flags.
#[verifier::ext_equal]
pub struct AccountView {
    pub key: Seq<char>,
    pub is_signer: bool,
    pub is_writable: bool,
}

impl View for AccountMeta {
    type V = AccountView;

    open spec fn view(&self) -> AccountView {
        AccountView { key: self.pubkey@, is_signer: self.is_signer, is_writable: self.is_writable }
    }
}

impl Clone for AccountMeta {
    fn clone(&self) -> (r: Self)
        ensures
            r@ == self@,
    {
        AccountMeta {
            pubkey: self.pubkey.clone(),
            is_signer: self.is_signer,
            is_writable: self.is_writable,
        }
    }
}

impl PartialEq for AccountMeta {
    fn eq(&self, other: &Self) -> (r: bool) {
        self.pubkey == other.pubkey && self.is_signer == other.is_signer && self.is_writable
            == other.is_writable
    }
}

impl vstd::std_specs::cmp::PartialEqSpecImpl for AccountMeta {
    open spec fn obeys_eq_spec() -> bool {
        true
    }

    open spec fn eq_spec(&self, other: &Self) -> bool {
        self@ == other@
    }
}

/// The integer type of every index space: canonical slots and callee-local
/// positions both fit in sixteen bits.
pub type IndexOfAccount = u16;

/// The per-reference resolution result: the canonical slot index in the
/// transaction-level and caller-level index spaces (equal while only one
/// caller context is modelled), the reference's original position, and the
/// canonical flags as merged up to the point of processing.
#[derive(Clone, Copy, PartialEq, Eq, Structural, Debug)]
pub struct InstructionAccount {
    pub index_in_transaction: IndexOfAccount,
    pub index_in_caller: IndexOfAccount,
    pub index_in_callee: IndexOfAccount,
    pub is_signer: bool,
    pub is_writable: bool,
}

/// The mathematical content of an `InstructionAccount`, with unbounded
/// integer indices.
#[verifier::ext_equal]
pub struct ResolvedView {
    pub index_in_transaction: int,
    pub index_in_caller: int,
    pub index_in_callee: int,
    pub is_signer: bool,
    pub is_writable: bool,
}

impl View for InstructionAccount {
    type V = ResolvedView;

    open spec fn view(&self) -> ResolvedView {
        ResolvedView {
            index_in_transaction: self.index_in_transaction as int,
            index_in_caller: self.index_in_caller as int,
            index_in_callee: self.index_in_callee as int,
            is_signer: self.is_signer,
            is_writable: self.is_writable,
        }
    }
}

/// The failure signal of resolution: a key that cannot be associated with a
/// canonical slot.
#[derive(Debug)]
pub enum ResolutionError {
    UnknownAccount(PubKey),
}

} // verus!
