pub mod args;
pub mod complete;
pub mod dispatch;
pub mod line;
pub mod pager;
pub mod pathext;
pub mod strutil;
pub mod token;

pub use args::expects_num_arguments;
pub use args::opt_part;
pub use args::parse_bool;
pub use args::parse_int;
pub use args::usize_to_string;
pub use complete::Candidate;
pub use complete::CommandCompleter;
pub use complete::KeywordExpander;
pub use dispatch::dispatch;
pub use line::CommandLine;
pub use line::CommandLineIterator;
pub use line::tokenize;
pub use pager::PageLayout;
pub use pager::PagerAction;
pub use pager::PagerKey;
pub use pager::render_page;
pub use pathext::filter_entries;
pub use pathext::split_path;
pub use token::CommandPart;
