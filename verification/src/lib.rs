//! Boolean inference over constraint networks: satisfiability, exact and weighted
//! model counting, variable elimination and cube generation.

pub mod adapter;
pub mod api;
pub mod args;
pub mod audit;
pub mod bits;
pub mod blockmerge;
pub mod canonicalize;
pub mod cdcl;
pub mod circuit;
pub mod cli;
mod clock;
pub mod components;
pub mod conquer;
pub mod contract;
pub mod counting;
pub mod countve;
pub mod csp;
pub mod ct;
pub mod cube;
pub mod cubetree;
pub mod dimacs;
pub mod dnf;
pub mod domain;
pub mod formats;
pub mod gammacover;
pub mod instance;
pub mod laws;
pub mod localsum;
pub mod measure;
pub mod minfill;
pub mod models;
pub mod network;
pub mod order;
pub mod problem;
pub mod propagate;
pub mod region;
pub mod residual;
pub mod scc;
pub mod searchtree;
pub mod selector;
pub mod semiring;
pub mod seqs;
pub mod sliced;
pub mod solver;
pub mod sums;
pub mod table;
pub mod tail_greedy;
pub mod termination;
pub mod text;
pub mod trail;
pub mod twosat;
pub mod util;
pub mod vegraph;
pub mod wcanonicalize;
pub mod weighted;
