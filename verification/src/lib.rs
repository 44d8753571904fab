//! Weather measurements by the billion: a generator of synthetic
//! `name;temperature` lines and an aggregator that folds such lines into the
//! minimum, mean and maximum of each station.
//!
//! Temperatures are held as integers, in tenths of a degree, from the moment
//! a line is read to the moment a figure is written, so that every rule of
//! rounding and formatting is exact and stands in a contract.
//!
//! - [`decimal`] reads and writes temperatures, [`measurement`] whole lines.
//! - [`summary`] keeps the running figures of one station, [`station`] adds
//!   its name, [`order`] orders the names.
//! - [`aggregate`] folds lines into the summaries of all stations and
//!   [`report`] writes them out.
//! - [`build_input`] reads the station catalogue and generates measurements.
//!
//! Nothing here touches a file: lines come in and go out as byte strings.

pub mod aggregate;
pub mod build_input;
pub mod bytes;
pub mod decimal;
pub mod error;
pub mod measurement;
pub mod order;
pub mod report;
pub mod station;
pub mod summary;
