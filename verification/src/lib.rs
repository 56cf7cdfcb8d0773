//! Configuration sanity checking for a data-ingestion server.
//!
//! The [`Input`] record holds the options that matter to validation: an
//! optional group of `host:port` endpoints and an optional map center.
//! [`Input::check_config_option_sanity`] runs every check and reports either
//! success or how many of the top-level checks failed.

use vstd::prelude::*;

pub mod address;
pub mod sanity_check;

verus! {

/// A geographic coordinate held as an integer number of micro-degrees,
/// so that range checks are exact: `90_000_000` stands for 90 degrees.
#[derive(Clone, Copy, PartialEq, Eq, Structural, Debug)]
pub struct Coordinate {
    pub micro_degrees: i64,
}

/// The configuration record produced by the command-line layer.
///
/// Only `adsb_address`, `map_latitude` and `map_longitude` take part in
/// validation; the remaining fields are carried through unchanged.
pub struct Input {
    /// Log verbosity step count.
    pub verbose: u8,
    /// Whether VDLM reception is enabled.
    pub enable_vdlm: bool,
    /// Whether ACARS reception is enabled.
    pub enable_acars: bool,
    /// Endpoints to listen on for ADSB messages; `None` means not configured.
    pub adsb_address: Option<Vec<String>>,
    /// Days of data the database retains.
    pub db_retention_days: u64,
    /// Whether range rings are disabled on the web map.
    pub disable_range_rings: bool,
    /// Latitude of the map center, if one was configured.
    pub map_latitude: Option<Coordinate>,
    /// Longitude of the map center, if one was configured.
    pub map_longitude: Option<Coordinate>,
}

impl Default for Input {
    fn default() -> (d: Self)
        ensures
            d.verbose == 0,
            !d.enable_vdlm,
            !d.enable_acars,
            d.adsb_address is None,
            d.db_retention_days == 0,
            !d.disable_range_rings,
            d.map_latitude is None,
            d.map_longitude is None,
    {
        Input {
            verbose: 0,
            enable_vdlm: false,
            enable_acars: false,
            adsb_address: None,
            db_retention_days: 0,
            disable_range_rings: false,
            map_latitude: None,
            map_longitude: None,
        }
    }
}

/// The failed outcome of a full sanity check: how many of the three
/// top-level checks rejected the configuration.
#[derive(Clone, Copy, PartialEq, Eq, Structural, Debug)]
pub struct SanityError {
    pub failure_count: u32,
}

} // verus!
