//! Plain-value identities and asset keys.
//!
//! The runtime's managed address and token-identifier handles are modelled
//! as byte strings, and an asset is a (token identifier, nonce) pair. The
//! ledger only ever compares and copies these values.

use vstd::prelude::*;
use crate::amount::Amount;

verus! {

/// An account identity, as an opaque byte string.
pub struct Address {
    pub bytes: Vec<u8>,
}

impl View for Address {
    type V = Seq<u8>;

    open spec fn view(&self) -> Seq<u8> {
        self.bytes@
    }
}

/// A token identifier, as an opaque byte string. The native coin can be
/// represented by a reserved identifier such as the empty string.
pub struct TokenId {
    pub bytes: Vec<u8>,
}

impl View for TokenId {
    type V = Seq<u8>;

    open spec fn view(&self) -> Seq<u8> {
        self.bytes@
    }
}

/// The mathematical content of an asset key.
pub struct AssetKeyView {
    pub token_id: Seq<u8>,
    pub token_nonce: u64,
}

/// An asset: a token identifier together with a sub-id / nonce.
pub struct AssetKey {
    pub token_id: TokenId,
    pub token_nonce: u64,
}

impl View for AssetKey {
    type V = AssetKeyView;

    open spec fn view(&self) -> AssetKeyView {
        AssetKeyView { token_id: self.token_id@, token_nonce: self.token_nonce }
    }
}

/// The mathematical content of a payment.
pub struct PaymentView {
    pub token_id: Seq<u8>,
    pub token_nonce: u64,
    pub amount: nat,
}

/// A concrete quantity of one asset: a deposit on the way in, or an owed
/// outbound transfer on the way out.
pub struct Payment {
    pub token_id: TokenId,
    pub token_nonce: u64,
    pub amount: Amount,
}

impl View for Payment {
    type V = PaymentView;

    open spec fn view(&self) -> PaymentView {
        PaymentView {
            token_id: self.token_id@,
            token_nonce: self.token_nonce,
            amount: self.amount@,
        }
    }
}

impl Payment {
    /// The stored amount is canonical.
    pub open spec fn wf(&self) -> bool {
        self.amount.wf()
    }
}

/// The views of a sequence of asset keys.
pub open spec fn asset_keys_view(s: Seq<AssetKey>) -> Seq<AssetKeyView> {
    s.map_values(|k: AssetKey| k@)
}

/// Whether two byte strings are equal.
#[verifier::loop_isolation(false)]
pub fn bytes_equal(a: &Vec<u8>, b: &Vec<u8>) -> (r: bool)
    ensures
        r <==> a@ == b@,
{
    if a.len() != b.len() {
        return false;
    }
    let n = a.len();
    let mut i: usize = 0;
    while i < n
        invariant
            0 <= i <= n,
            forall|j: int| 0 <= j < i ==> a@[j] == b@[j],
        decreases n - i,
    {
        if a[i] != b[i] {
            return false;
        }
        i = i + 1;
    }
    proof {
        assert(a@ =~= b@);
    }
    true
}

/// A byte-for-byte copy of a byte string.
#[verifier::loop_isolation(false)]
pub fn bytes_copy(a: &Vec<u8>) -> (r: Vec<u8>)
    ensures
        r@ == a@,
{
    let n = a.len();
    let mut out: Vec<u8> = Vec::new();
    let mut i: usize = 0;
    while i < n
        invariant
            0 <= i <= n,
            out@ =~= a@.take(i as int),
        decreases n - i,
    {
        out.push(a[i]);
        i = i + 1;
    }
    proof {
        assert(out@ =~= a@);
    }
    out
}

impl Address {
    /// An address over the given raw bytes.
    pub fn new(bytes: Vec<u8>) -> (r: Address)
        ensures
            r@ == bytes@,
    {
        Address { bytes }
    }

    /// An identical copy of the address.
    pub fn duplicate(&self) -> (r: Address)
        ensures
            r@ == self@,
    {
        Address { bytes: bytes_copy(&self.bytes) }
    }

    /// Whether two addresses denote the same identity.
    pub fn equals(&self, other: &Address) -> (r: bool)
        ensures
            r <==> self@ == other@,
    {
        bytes_equal(&self.bytes, &other.bytes)
    }
}

impl TokenId {
    /// A token identifier over the given raw bytes.
    pub fn new(bytes: Vec<u8>) -> (r: TokenId)
        ensures
            r@ == bytes@,
    {
        TokenId { bytes }
    }

    /// An identical copy of the token identifier.
    pub fn duplicate(&self) -> (r: TokenId)
        ensures
            r@ == self@,
    {
        TokenId { bytes: bytes_copy(&self.bytes) }
    }

    /// Whether two token identifiers are equal.
    pub fn equals(&self, other: &TokenId) -> (r: bool)
        ensures
            r <==> self@ == other@,
    {
        bytes_equal(&self.bytes, &other.bytes)
    }
}

} // verus!
