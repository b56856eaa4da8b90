//! Chaff: a framework for website fingerprinting defences built on queue machines, with the
//! trace formats, simulator and dataset handling around it.

pub mod accounting;
pub mod action;
pub mod errors;
pub mod capture;
pub mod cli;
pub mod dataset;
pub mod decimal;
pub mod event;
pub mod fmt;
pub mod framework;
pub mod machine;
pub mod queue;
pub mod sim;
pub mod stats;
pub mod trace;
pub mod tiktok;
pub mod unpacked;
