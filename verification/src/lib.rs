//! Route matching for site migrations: collect the internal links of an old
//! and a new site, reduce each link to a logical route, and propose for every
//! old route the lexically closest new route.

pub mod collect;
pub mod domain;
pub mod laws;
pub mod matcher;
pub mod route;
pub mod score;
pub mod strkit;
pub mod tokens;
