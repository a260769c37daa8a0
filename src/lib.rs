//! Address-to-parcel record linkage: match records, priority rules, the
//! decision logic of the three-stage matcher, quality-assessment tallies and
//! batch bookkeeping.
pub mod analysis;
pub mod laws;
pub mod directory;
pub mod links;
pub mod matcher;
pub mod national;
pub mod outcome;
pub mod quality;
pub mod records;
pub mod sql;
pub mod state;
pub mod text;
