use vstd::prelude::*;

use crate::indexed_map::{IndexedMap, IndexedRecord};

verus! {

/// When an approval stops being valid.
#[derive(Debug, Clone, Copy, PartialEq, Eq, Structural)]
pub enum Expiration {
    /// Expires once the block height reaches this value.
    AtHeight(u64),
    /// Expires once the block time, in nanoseconds since the epoch, reaches
    /// this value.
    AtTime(u64),
    /// Never expires.
    Never,
}

/// Permission for `spender` to transfer or send a token.
#[derive(Debug, Clone, PartialEq, Eq)]
pub struct Approval {
    /// Canonical address of the account that may transfer the token.
    pub spender: Vec<u8>,
    pub expires: Expiration,
}

pub struct ApprovalView {
    pub spender: Seq<u8>,
    pub expires: Expiration,
}

impl View for Approval {
    type V = ApprovalView;

    open spec fn view(&self) -> ApprovalView {
        ApprovalView { spender: self.spender@, expires: self.expires }
    }
}

/// One NFT.
#[derive(Debug, Clone, PartialEq, Eq)]
pub struct TokenInfo {
    /// Canonical address of the token's owner.
    pub owner: Vec<u8>,
    /// Cleared on every transfer, so the list stays short.
    pub approvals: Vec<Approval>,
    /// Identifies the asset that the token represents.
    pub name: String,
    pub level: u64,
    /// Describes the asset that the token represents.
    pub description: String,
    /// A URI pointing to an image of the asset.
    pub image: Option<String>,
}

pub struct TokenInfoView {
    pub owner: Seq<u8>,
    pub approvals: Seq<ApprovalView>,
    pub name: Seq<char>,
    pub level: u64,
    pub description: Seq<char>,
    pub image: Option<Seq<char>>,
}

pub open spec fn option_string_view(s: Option<String>) -> Option<Seq<char>> {
    match s {
        Some(t) => Some(t@),
        None => None,
    }
}

impl View for TokenInfo {
    type V = TokenInfoView;

    open spec fn view(&self) -> TokenInfoView {
        TokenInfoView {
            owner: self.owner@,
            approvals: self.approvals@.map_values(|a: Approval| a@),
            name: self.name@,
            level: self.level,
            description: self.description@,
            image: option_string_view(self.image),
        }
    }
}

/// One request to an AI service and its outcome.
#[derive(Debug, Clone, PartialEq, Eq)]
pub struct TransactionInfo {
    /// Canonical address of the requesting user.
    pub user_id: Vec<u8>,
    pub ai_provider_id: String,
    pub ai_service_id: String,
    pub input_data: String,
    pub ai_output_data: String,
    pub experts_output_data: String,
    pub status: u8,
}

pub struct TransactionInfoView {
    pub user_id: Seq<u8>,
    pub ai_provider_id: Seq<char>,
    pub ai_service_id: Seq<char>,
    pub input_data: Seq<char>,
    pub ai_output_data: Seq<char>,
    pub experts_output_data: Seq<char>,
    pub status: u8,
}

impl View for TransactionInfo {
    type V = TransactionInfoView;

    open spec fn view(&self) -> TransactionInfoView {
        TransactionInfoView {
            user_id: self.user_id@,
            ai_provider_id: self.ai_provider_id@,
            ai_service_id: self.ai_service_id@,
            input_data: self.input_data@,
            ai_output_data: self.ai_output_data@,
            experts_output_data: self.experts_output_data@,
            status: self.status,
        }
    }
}

fn copy_bytes(b: &Vec<u8>) -> (r: Vec<u8>)
    ensures
        r@ == b@,
{
    let mut r: Vec<u8> = Vec::new();
    let mut i: usize = 0;
    while i < b.len()
        invariant
            i <= b@.len(),
            r@ == b@.subrange(0, i as int),
        decreases b@.len() - i,
    {
        r.push(b[i]);
        i = i + 1;
    }
    assert(r@ =~= b@);
    r
}

fn copy_string(s: &String) -> (r: String)
    ensures
        r@ == s@,
{
    s.clone()
}

impl Approval {
    pub fn duplicate(&self) -> (r: Approval)
        ensures
            r@ == self@,
    {
        Approval { spender: copy_bytes(&self.spender), expires: self.expires }
    }
}

impl IndexedRecord for TokenInfo {
    /// Tokens are indexed by the owner's address.
    open spec fn index_key_spec(v: TokenInfoView, idx: int) -> Seq<u8> {
        v.owner
    }

    fn index_key(&self, idx: usize) -> (r: Vec<u8>) {
        copy_bytes(&self.owner)
    }

    open spec fn index_count() -> nat {
        1
    }

    fn num_indexes() -> (r: usize) {
        1
    }

    fn duplicate(&self) -> (r: TokenInfo) {
        let mut approvals: Vec<Approval> = Vec::new();
        let mut i: usize = 0;
        while i < self.approvals.len()
            invariant
                i <= self.approvals@.len(),
                approvals@.len() == i,
                forall|j: int| 0 <= j < i ==> #[trigger] approvals@[j]@ == self.approvals@[j]@,
            decreases self.approvals@.len() - i,
        {
            approvals.push(self.approvals[i].duplicate());
            i = i + 1;
        }
        assert(approvals@.map_values(|a: Approval| a@) =~= self.approvals@.map_values(
            |a: Approval| a@,
        ));
        let image = match &self.image {
            Some(s) => Some(copy_string(s)),
            None => None,
        };
        TokenInfo {
            owner: copy_bytes(&self.owner),
            approvals,
            name: copy_string(&self.name),
            level: self.level,
            description: copy_string(&self.description),
            image,
        }
    }
}

impl IndexedRecord for TransactionInfo {
    /// Transactions are indexed by the UTF-8 bytes of their input data.
    open spec fn index_key_spec(v: TransactionInfoView, idx: int) -> Seq<u8> {
        vstd::utf8::encode_utf8(v.input_data)
    }

    fn index_key(&self, idx: usize) -> (r: Vec<u8>) {
        self.input_data.as_str().as_bytes_vec()
    }

    open spec fn index_count() -> nat {
        1
    }

    fn num_indexes() -> (r: usize) {
        1
    }

    fn duplicate(&self) -> (r: TransactionInfo) {
        TransactionInfo {
            user_id: copy_bytes(&self.user_id),
            ai_provider_id: copy_string(&self.ai_provider_id),
            ai_service_id: copy_string(&self.ai_service_id),
            input_data: copy_string(&self.input_data),
            ai_output_data: copy_string(&self.ai_output_data),
            experts_output_data: copy_string(&self.experts_output_data),
            status: self.status,
        }
    }
}

/// The secondary indexes of the token map.
pub struct TokenIndexes {
    /// Name of the index over owner addresses.
    pub owner: String,
}

impl TokenIndexes {
    /// The index names, in index order.
    pub fn get_indexes(&self) -> (r: Vec<String>)
        ensures
            r@.map_values(|s: String| s@) == seq![self.owner@],
    {
        let r = vec![copy_string(&self.owner)];
        assert(r@.map_values(|s: String| s@) =~= seq![self.owner@]);
        r
    }
}

/// The secondary indexes of the transaction map.
pub struct TransactionIndexes {
    /// Name of the index over input data.
    pub input_data: String,
}

impl TransactionIndexes {
    /// The index names, in index order.
    pub fn get_indexes(&self) -> (r: Vec<String>)
        ensures
            r@.map_values(|s: String| s@) == seq![self.input_data@],
    {
        let r = vec![copy_string(&self.input_data)];
        assert(r@.map_values(|s: String| s@) =~= seq![self.input_data@]);
        r
    }
}

/// The token map: namespace `tokens`, indexed by owner under the index name
/// `owner`.
pub fn tokens() -> (r: IndexedMap)
    ensures
        r.namespace_view() == "tokens"@,
        r.index_names_view() == seq!["owner"@],
{
    let indexes = TokenIndexes { owner: "owner".to_owned() };
    IndexedMap::new("tokens".to_owned(), indexes.get_indexes())
}

/// The transaction map: namespace `transactions`, indexed by input data
/// under the index name `input_data`.
pub fn transactions() -> (r: IndexedMap)
    ensures
        r.namespace_view() == "transactions"@,
        r.index_names_view() == seq!["input_data"@],
{
    let indexes = TransactionIndexes { input_data: "input_data".to_owned() };
    IndexedMap::new("transactions".to_owned(), indexes.get_indexes())
}

} // verus!
