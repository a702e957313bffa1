use vstd::prelude::*;

verus! {

/// Which token program an asset belongs to.
#[derive(PartialEq, Eq, Structural, Clone, Copy, Debug)]
pub enum TokenProgramVersion {
    Original,
    Token2022,
}

/// A creator of an asset; `share` is a percentage, not basis points.
#[derive(PartialEq, Eq, Clone, Copy, Debug)]
pub struct Creator {
    pub address: [u8; 32],
    pub verified: bool,
    pub share: u8,
}

#[derive(PartialEq, Eq, Structural, Clone, Copy, Debug)]
pub enum TokenStandard {
    NonFungible,
    FungibleAsset,
    Fungible,
    NonFungibleEdition,
}

#[derive(PartialEq, Eq, Structural, Clone, Copy, Debug)]
pub enum UseMethod {
    Burn,
    Multiple,
    Single,
}

#[derive(PartialEq, Eq, Structural, Clone, Copy, Debug)]
pub struct Uses {
    pub use_method: UseMethod,
    pub remaining: u64,
    pub total: u64,
}

#[derive(PartialEq, Eq, Clone, Copy, Debug)]
pub struct Collection {
    pub verified: bool,
    pub key: [u8; 32],
}

/// The metadata that an asset is minted with.
#[derive(PartialEq, Clone, Debug)]
pub struct MetadataArgs {
    pub mint: Option<[u8; 32]>,
    pub name: String,
    pub symbol: String,
    pub uri: String,
    /// Royalty in basis points (0 to 10000) paid to creators on secondary sales.
    pub seller_fee_basis_points: u16,
    pub primary_sale_happened: bool,
    pub is_mutable: bool,
    pub edition_nonce: Option<u8>,
    pub token_standard: Option<TokenStandard>,
    pub collection: Option<Collection>,
    pub uses: Option<Uses>,
    pub token_program_version: TokenProgramVersion,
    pub creators: Vec<Creator>,
}

} // verus!
