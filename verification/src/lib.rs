//! A verified inventory and trading ledger for collectible emoji tokens.
//!
//! Users hold a multiset of emoji tokens, organise them into named, ordered
//! groups, trade them bilaterally through a confirmation protocol, and
//! recycle sets of three tokens for a random new one.  The ledger state and
//! every operation on it are specified and verified; randomness and grapheme
//! segmentation come from outside crates through trusted wrappers.

mod emoji;
mod emojis_with_counts;
mod inventory;
mod laws;
mod ledger;
mod parse;
mod trade_offer;
mod trading;

pub use emoji::Emoji;
pub use emoji::EmojiMap;
pub use emoji::make_emoji_map;
pub use emojis_with_counts::EmojisWithCounts;
pub use inventory::GroupData;
pub use inventory::RenameGroupError;
pub use inventory::RepositionOutcome;
pub use inventory::UserInventory;
pub use laws::lemma_at_most_one_offer;
pub use laws::lemma_counts_nonnegative;
pub use laws::lemma_gap_free_ranks;
pub use laws::lemma_group_round_trip;
pub use laws::lemma_no_empty_groups;
pub use ledger::LedgerState;
pub use parse::parse_emoji_input;
pub use trade_offer::Counterparty;
pub use trade_offer::TradeLogEntry;
pub use trade_offer::TradeOffer;
pub use trading::ConfirmTradeError;
pub use trading::ConfirmationOutcome;
pub use trading::ConfirmationResponse;
pub use trading::RecycleError;
pub use trading::TradeError;
pub use trading::TradeOfferValidation;
pub use trading::has_trading_role;
