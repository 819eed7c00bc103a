//! Subgraph mining over financial correlation networks: graph structure,
//! pattern discovery (triangles, stars, cliques, chains), pattern
//! matching and the decision rules that turn patterns into trading signals.

pub mod algorithms;
pub mod backtest;
pub mod builder;
pub mod canonical;
pub mod chains;
pub mod cliques;
pub mod components;
pub mod config;
pub mod graph_store;
pub mod matcher;
pub mod gspan;
pub mod pattern;
pub mod signals;
pub mod sort;
pub mod strategy;
pub mod text;
pub mod types;
