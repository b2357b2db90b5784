//! Resolution of IPv4 addresses to ownership metadata (network block, ISP
//! name, ASN) over a set of CIDR ranges, with longest-prefix-match semantics.

mod buckets;
mod cidr;
mod configs;
mod dataset;
mod direct;
mod errors;
mod range;
mod reload;
mod strategy;

pub use buckets::bucket_entry_matches;
pub use buckets::bucket_search_model;
pub use buckets::first_hit;
pub use buckets::lemma_disjoint_exact;
pub use buckets::lemma_longest_prefix_wins;
pub use buckets::lemma_search_characterization;
pub use buckets::search_from;
pub use buckets::uniform_buckets;
pub use buckets::IPRangeHashMap;
pub use cidr::cidr_model;
pub use cidr::ipv4_model;
pub use cidr::parse_cidr;
pub use cidr::parse_ipv4;
pub use configs::Config;
pub use configs::ServerConfig;
pub use configs::SingleIpParam;
pub use dataset::dataset_entries;
pub use dataset::insert_dataset_line;
pub use dataset::line_entry;
pub use dataset::line_fields;
pub use dataset::load_dataset;
pub use dataset::parse_dataset_line;
pub use dataset::rebuild_generation;
pub use direct::covers;
pub use direct::entry_first_slot;
pub use direct::entry_last_slot;
pub use direct::lemma_build_deterministic;
pub use direct::lemma_full_index_exact;
pub use direct::lemma_winner_longest_prefix;
pub use direct::slot_content;
pub use direct::slot_of;
pub use direct::table_len;
pub use direct::winner;
pub use direct::IPRangeDirectLookup;
pub use errors::Error;
pub use errors::MalformedCidr;
pub use range::entry_matches;
pub use range::mask_for;
pub use range::prefix_mask;
pub use range::IPRange;
pub use range::IPRangeEntry;
pub use buckets::appended_bucket;
pub use direct::appended_entry;
pub use reload::HotReloadState;
pub use reload::ReloadAction;
pub use strategy::RangeIndex;
