//! A kanban board kept in Arrow tables: the rules of the board, verified.
#![allow(unused_imports)]

pub mod blocked;
pub mod columns;
pub mod config;
pub mod critical_path;
pub mod critical_path_laws;
pub mod declarations;
pub mod dispatch;
pub mod edges;
pub mod embedding;
pub mod export_pages;
pub mod flow;
pub mod flow_render;
pub mod graph;
pub mod item_type;
pub mod items;
pub mod keyed;
pub mod listing;
pub mod materialize;
pub mod moves;
pub mod ontology;
pub mod ontology_laws;
pub mod parquet_store;
pub mod persist;
pub mod ratification;
pub mod reading;
pub mod relation_vocab;
pub mod relations;
pub mod render;
pub mod reports;
pub mod request;
pub mod response;
pub mod roadmap;
pub mod roadmap_laws;
pub mod semantic;
pub mod setup;
pub mod sorting;
pub mod state_machine;
pub mod state_model;
pub mod tally;
pub mod text;
pub mod traversal;
pub mod turtle;
pub mod validate;
pub mod worklist;
