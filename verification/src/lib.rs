//! Item data of the Backpack Hero wiki: the item database, the infobox text
//! of each item page, and the rewriting of existing pages.
pub mod text;
pub mod backpack_db;
pub mod wikiparse;
pub mod botto;
pub mod navbox;
pub mod version;

use vstd::prelude::*;

verus! {

} // verus!
