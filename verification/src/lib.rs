//! Analysis of finite precedence relations (directed acyclic graphs of
//! "must happen before" constraints): classification against the
//! quasi-interval order class, and construction of priority lists for
//! scheduling unit-cost tasks under the precedence constraints.

pub mod create_graph;
pub mod node;
pub mod precedence_graph;
