//! Post-processing of recognised text lines.
pub mod page_rules;
pub mod rule_pack;
pub mod dict;
pub mod morph_correction;
