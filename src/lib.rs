pub mod text;
pub mod colorize;
pub mod button;
pub mod declutter;
pub mod indexing;
pub mod urls;
pub mod frontier;
pub mod ranker;
pub mod robots;
pub mod links;
pub mod paging;
pub mod store;
