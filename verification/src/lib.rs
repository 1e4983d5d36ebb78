//! Natural ("alphanumeric") ordering for strings and raw byte identifiers.
//!
//! The heart of the crate is a comparator that treats maximal runs of ASCII
//! decimal digits as numbers, so that `"shot-2"` sorts before `"shot-11"`.
//! On top of it sit sorting routines for string slices and for slices keyed
//! by strings or by raw, possibly non-decodable, byte identifiers.

mod compare;
mod keysort;
mod laws;
mod raw;
mod sortspec;

pub use compare::char_cmp;
pub use compare::compare_str;
pub use compare::is_digit;
pub use compare::lex_cmp;
pub use compare::natural_cmp;
pub use compare::natural_cmp_from;
pub use compare::num_cmp;
pub use compare::run_len;
pub use compare::zeros_len;

pub use laws::lemma_natural_cmp_antisymmetric;
pub use laws::lemma_natural_cmp_equal_iff;
pub use laws::lemma_natural_cmp_reflexive;
pub use laws::lemma_natural_cmp_transitive;
pub use laws::mirror_ord;

pub use sortspec::lemma_sort_idempotent;
pub use sortspec::lemma_stable_sorted_all;
pub use sortspec::lemma_stable_sorted_idempotent;
pub use sortspec::lemma_stable_sorted_multiset;
pub use sortspec::lemma_stable_sorted_sorted;
pub use sortspec::pair_item;
pub use sortspec::sorted_under;
pub use sortspec::stable_insert_pos;
pub use sortspec::stable_sorted;
pub use sortspec::total_relation;
pub use sortspec::transitive_relation;

pub use keysort::has_key;
pub use keysort::key_fn_deterministic;
pub use keysort::key_fn_total;
pub use keysort::key_seq;
pub use keysort::keyed;
pub use keysort::keyed_le;
pub use keysort::returns_key;
pub use keysort::sort_slice_by_str_key;
pub use keysort::sort_slice_rev_by_str_key;
pub use keysort::sort_slice_rev_unstable_by_str_key;
pub use keysort::sort_slice_unstable_by_str_key;
pub use keysort::sort_str_slice;
pub use keysort::sort_str_slice_rev;
pub use keysort::sorted_by_keys;
pub use keysort::text_le;

pub use raw::all_keys_text;
pub use raw::bytes_cmp;
pub use raw::bytes_keyed_le;
pub use raw::bytes_le;
pub use raw::compare_path;
pub use raw::has_raw_key;
pub use raw::lemma_bytes_cmp_antisymmetric;
pub use raw::lemma_bytes_cmp_reflexive;
pub use raw::lemma_bytes_cmp_transitive;
pub use raw::raw_cmp;
pub use raw::raw_key_fn_deterministic;
pub use raw::raw_key_fn_total;
pub use raw::raw_key_le;
pub use raw::raw_key_seq;
pub use raw::raw_keyed_bytes;
pub use raw::raw_keyed_text;
pub use raw::returns_raw_key;
pub use raw::sort_path_slice;
pub use raw::sort_path_slice_rev;
pub use raw::sort_slice_by_path_key;
pub use raw::sort_slice_rev_by_path_key;
pub use raw::sort_slice_rev_unstable_by_path_key;
pub use raw::sort_slice_unstable_by_path_key;
pub use raw::sorted_by_raw_keys;
pub use raw::RawPath;
