//! Washes Clash subscriptions: of the nodes that several subscriptions list, it keeps those that
//! answer, cuts each subscription down to its limit, gives the nodes new names, and puts them
//! into groups.
//!
//! - `model`: subscriptions, nodes and groups
//! - `text`, `number`, `rounding`, `calendar`, `yaml`: the pieces that the rest is made of
//! - `region`, `atlas`: where a node stands, by its name
//! - `latency`, `pick`, `select`: which nodes a subscription keeps
//! - `rename`: new names for the nodes that are kept
//! - `groups`: the groups of proxies
//! - `traffic`: what a subscription has used up
//! - `probe`: what a probe says of a node
//! - `pipeline`: all of it, from what was fetched to what is handed out
//! - `cache`, `settings`: how it is served
pub mod atlas;
pub mod cache;
pub mod calendar;
pub mod groups;
pub mod latency;
pub mod model;
pub mod number;
pub mod pick;
pub mod pipeline;
pub mod probe;
pub mod region;
pub mod rename;
pub mod rounding;
pub mod select;
pub mod settings;
pub mod text;
pub mod traffic;
pub mod yaml;
