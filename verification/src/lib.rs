//! Makes a subset of a repository: a history whose commits hold only the
//! paths that a filter keeps.
//!
//! A [`filter::Filter`] says which paths are kept. A [`rewrite::Rewriter`]
//! goes through the commits, parents first; for each of them a
//! [`tree::TreeWalk`] rewrites the tree, and a commit that is empty
//! afterwards is discarded. The [`map::OidMap`] remembers what each tree and
//! each commit was rewritten to, so that nothing is rewritten twice, in this
//! run or the next.
//!
//! The library neither reads nor writes a repository. It says what is to be
//! read or written, and goes on with what the caller hands back.

pub mod bytes;
pub mod commit;
pub mod filter;
pub mod history;
pub mod map;
pub mod oid;
pub mod path;
pub mod rewrite;
pub mod run;
pub mod store;
pub mod tree;
