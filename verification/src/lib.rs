pub mod errors;
pub mod external;
pub mod text;
pub mod assoc;
pub mod compressor;
pub mod pack_file;
pub mod pkt_line;
pub mod object_type;
pub mod git_object;
pub mod hash;
pub mod diff;
pub mod merge;
pub mod cat_file;
pub mod paths;
pub mod user;
pub mod blob;
pub mod config;
pub mod index_file_info;
pub mod index;
pub mod tree;
pub mod commit;
pub mod remote;
pub mod branch;
pub mod refs;
pub mod pull_request;
pub mod http_response;
pub mod json;
pub mod http_protocol;
pub mod network;
pub mod utils;
pub mod ui_event;
pub mod ignore;
pub mod repository_access_permission;
pub mod log_file;
pub mod tag;
pub mod show_ref;
pub mod ls_file;
pub mod ls_tree;
pub mod rebase;
pub mod cli;
pub mod init;
pub mod daemon;
