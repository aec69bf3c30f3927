//! Search tables and plans.

pub mod agreement;
pub mod cat_index_lmr;
pub mod lmr_json;
pub mod lmr_viz;
pub mod planlaws;
pub mod rootscores;
pub mod tt;
pub mod uci;
pub mod v16_lmr;
