//! The decisions of the ChatGPT Bridge service: what it parses, checks, plans
//! and answers. Every input and output operation is performed by the caller,
//! which hands the replies back as plain values.

pub mod atomic;
pub mod auth;
pub mod checkpoint;
pub mod cli;
pub mod command;
pub mod config;
pub mod config_text;
pub mod digest;
pub mod disk;
pub mod error;
pub mod history;
pub mod operations;
pub mod order;
pub mod outside;
pub mod path;
pub mod program;
pub mod recording;
pub mod repository;
pub mod restore;
pub mod rollback;
pub mod routes;
pub mod safety;
pub mod sequence;
pub mod service;
pub mod snapshot;
pub mod text;
pub mod tree;
pub mod updater;
pub mod workspace;
