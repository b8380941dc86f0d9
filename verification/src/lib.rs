use vstd::prelude::*;

pub mod models;
pub mod text;
pub mod fileops;
pub mod search;
pub mod paths;
pub mod phash;
pub mod grouping_score;
pub mod thumbnail_queue;
pub mod folder_tree;
pub mod exif;
pub mod exif_read;
pub mod apple;
pub mod layout;
pub mod addon;
pub mod events;
pub mod xmp;
pub mod xml;
pub mod xmp_read;
pub mod xmp_doc;
pub mod query_sql;
pub mod sync_plan;
pub mod watch;
pub mod clusters;

verus! {

} // verus!
