//! The duplicate detector, the geo-coordinate validator, and the aggregator
//! that folds every check into one verdict on an [`Input`].

use crate::address::{check_host_is_valid, host_group_valid};
use crate::{Coordinate, Input, SanityError};
use vstd::prelude::*;
use vstd::seq_lib::group_to_multiset_ensures;

verus! {

// ------------------------------------------------------------------
// Result folding
// ------------------------------------------------------------------

/// True iff every recorded check result is `true`.
pub fn validate_results(results: &Vec<bool>) -> (r: bool)
    ensures
        r == (forall|i: int| 0 <= i < results@.len() ==> results@[i]),
        !r ==> exists|i: int| 0 <= i < results@.len() && !results@[i],
{
    let mut i: usize = 0;
    while i < results.len()
        invariant
            i <= results@.len(),
            forall|j: int| 0 <= j < i ==> results@[j],
        decreases results@.len() - i,
    {
        if !results[i] {
            return false;
        }
        i += 1;
    }
    true
}

// ------------------------------------------------------------------
// Duplicate detection
// ------------------------------------------------------------------

/// No string occurs twice in the sequence, comparing by contents.
pub open spec fn no_duplicate_views(v: Seq<String>) -> bool {
    forall|i: int, j: int| 0 <= i < j < v.len() ==> v[i]@ != v[j]@
}

/// A duplicate-free optional group: an absent group trivially has none.
pub open spec fn dup_free(g: Option<Vec<String>>) -> bool {
    match g {
        None => true,
        Some(v) => no_duplicate_views(v@),
    }
}

/// The entries of an optional group, an absent group holding none.
pub open spec fn group_entries(g: Option<Vec<String>>) -> Seq<String> {
    match g {
        None => Seq::empty(),
        Some(v) => v@,
    }
}

/// The contents of each string in the sequence.
pub open spec fn views_of(v: Seq<String>) -> Seq<Seq<char>> {
    v.map_values(|s: String| s@)
}

/// True iff no string occurs twice in `items` (strings compare by contents).
pub fn has_unique_elements(items: &Vec<String>) -> (r: bool)
    ensures
        r == no_duplicate_views(items@),
{
    let n = items.len();
    let mut i: usize = 0;
    while i < n
        invariant
            n == items@.len(),
            i <= n,
            forall|p: int, q: int| 0 <= p < q < i ==> items@[p]@ != items@[q]@,
        decreases n - i,
    {
        let mut j: usize = 0;
        while j < i
            invariant
                i < n,
                n == items@.len(),
                j <= i,
                forall|p: int, q: int| 0 <= p < q < i ==> items@[p]@ != items@[q]@,
                forall|q: int| 0 <= q < j ==> items@[q]@ != items@[i as int]@,
            decreases i - j,
        {
            if items[j].eq(&items[i]) {
                return false;
            }
            j += 1;
        }
        i += 1;
    }
    true
}

/// Append every entry of a present group to `all_hosts`, so that several
/// groups can be pooled before a combined duplicate check.
pub fn get_all_hosts(all_hosts: &mut Vec<String>, hosts_group: &Option<Vec<String>>)
    ensures
        final(all_hosts)@ == old(all_hosts)@ + group_entries(*hosts_group),
{
    if let Some(config_hosts) = hosts_group {
        let mut i: usize = 0;
        while i < config_hosts.len()
            invariant
                i <= config_hosts@.len(),
                all_hosts@ == old(all_hosts)@ + config_hosts@.subrange(0, i as int),
            decreases config_hosts@.len() - i,
        {
            all_hosts.push(config_hosts[i].clone());
            proof {
                assert(old(all_hosts)@ + config_hosts@.subrange(0, i + 1) =~= (old(all_hosts)@
                    + config_hosts@.subrange(0, i as int)).push(config_hosts@[i as int]));
            }
            i += 1;
        }
        proof {
            assert(config_hosts@.subrange(0, config_hosts@.len() as int) =~= config_hosts@);
        }
    } else {
        proof {
            assert(old(all_hosts)@ + Seq::<String>::empty() =~= old(all_hosts)@);
        }
    }
}

/// Report whether one named group is free of repeated entries. The label
/// only names the group in the caller's diagnostics.
pub fn check_host(hosts: &Vec<String>, _check_type: &str) -> (r: bool)
    ensures
        r == no_duplicate_views(hosts@),
{
    has_unique_elements(hosts)
}

/// Law: the duplicate detector accepts a sequence of entries exactly when
/// the multiset of their contents holds no element more than once.
pub proof fn lemma_unique_iff_multiset(hosts: Seq<String>)
    ensures
        no_duplicate_views(hosts) <==> (forall|e: Seq<char>|
            views_of(hosts).to_multiset().count(e) <= 1),
{
    broadcast use group_to_multiset_ensures;

    let m = views_of(hosts);
    assert(forall|i: int| 0 <= i < hosts.len() ==> m[i] == #[trigger] hosts[i]@);
    if no_duplicate_views(hosts) {
        assert(m.no_duplicates());
        m.lemma_multiset_has_no_duplicates();
        assert forall|e: Seq<char>| m.to_multiset().count(e) <= 1 by {
            if m.to_multiset().count(e) > 0 {
                assert(m.to_multiset().contains(e));
            }
        }
    }
    if forall|e: Seq<char>| m.to_multiset().count(e) <= 1 {
        assert forall|e: Seq<char>| m.to_multiset().contains(e) implies m.to_multiset().count(e)
            == 1 by {
            assert(m.to_multiset().count(e) <= 1);
        }
        m.lemma_multiset_has_no_duplicates_conv();
        assert forall|i: int, j: int| 0 <= i < j < hosts.len() implies hosts[i]@ != hosts[j]@ by {
            assert(m[i] != m[j]);
        }
    }
}

// ------------------------------------------------------------------
// Geo-coordinate validation
// ------------------------------------------------------------------

pub open spec fn latitude_in_range(c: Coordinate) -> bool {
    -90_000_000 <= c.micro_degrees <= 90_000_000
}

pub open spec fn longitude_in_range(c: Coordinate) -> bool {
    -180_000_000 <= c.micro_degrees <= 180_000_000
}

pub open spec fn latitude_ok(lat: Option<Coordinate>) -> bool {
    match lat {
        Some(c) => latitude_in_range(c),
        None => false,
    }
}

pub open spec fn longitude_ok(lon: Option<Coordinate>) -> bool {
    match lon {
        Some(c) => longitude_in_range(c),
        None => false,
    }
}

/// A valid map center: either wholly absent, or both coordinates present
/// and each within its range. A lone coordinate is never valid.
pub open spec fn coords_valid(lat: Option<Coordinate>, lon: Option<Coordinate>) -> bool {
    match (lat, lon) {
        (None, None) => true,
        (Some(la), Some(lo)) => latitude_in_range(la) && longitude_in_range(lo),
        _ => false,
    }
}

/// A latitude must be present and lie within [-90, 90] degrees. The label
/// only names the option in the caller's diagnostics.
pub fn check_latitude(latitude: &Option<Coordinate>, _name: &str) -> (r: bool)
    ensures
        r == latitude_ok(*latitude),
{
    if let Some(lat) = latitude {
        -90_000_000 <= lat.micro_degrees && lat.micro_degrees <= 90_000_000
    } else {
        false
    }
}

/// A longitude must be present and lie within [-180, 180] degrees. The
/// label only names the option in the caller's diagnostics.
pub fn check_longitude(longitude: &Option<Coordinate>, _name: &str) -> (r: bool)
    ensures
        r == longitude_ok(*longitude),
{
    if let Some(lon) = longitude {
        -180_000_000 <= lon.micro_degrees && lon.micro_degrees <= 180_000_000
    } else {
        false
    }
}

/// Law: a wholly absent map center is valid, and a lone latitude or a lone
/// longitude is invalid whatever its value.
pub proof fn lemma_partial_coordinates_invalid(lat: Coordinate, lon: Coordinate)
    ensures
        coords_valid(None::<Coordinate>, None::<Coordinate>),
        !coords_valid(Some(lat), None::<Coordinate>),
        !coords_valid(None::<Coordinate>, Some(lon)),
{
}

// ------------------------------------------------------------------
// The aggregator
// ------------------------------------------------------------------

/// How many of the three top-level checks reject the configuration.
pub open spec fn failure_count(c: Input) -> int {
    (if host_group_valid(c.adsb_address) {
        0int
    } else {
        1int
    }) + (if dup_free(c.adsb_address) {
        0int
    } else {
        1int
    }) + (if coords_valid(c.map_latitude, c.map_longitude) {
        0int
    } else {
        1int
    })
}

impl Input {
    /// All configured hosts are well-formed `host:port` endpoints.
    pub fn check_host_validity(&self) -> (r: bool)
        ensures
            r == host_group_valid(self.adsb_address),
    {
        let mut input_test_results: Vec<bool> = Vec::new();
        input_test_results.push(
            check_host_is_valid(&self.adsb_address, "AH_ADSB_ADDRESS/--adsb-address"),
        );
        let r = validate_results(&input_test_results);
        proof {
            if r {
                assert(input_test_results@[0]);
            } else {
                let i = choose|i: int|
                    0 <= i < input_test_results@.len() && !input_test_results@[i];
                assert(!input_test_results@[0]);
            }
        }
        r
    }

    /// No host is configured twice, pooled across every group and checked
    /// again per group.
    pub fn check_no_duplicate_hosts(&self) -> (r: bool)
        ensures
            r == dup_free(self.adsb_address),
    {
        let mut input_test_results: Vec<bool> = Vec::new();
        let mut all_hosts: Vec<String> = Vec::new();

        get_all_hosts(&mut all_hosts, &self.adsb_address);
        proof {
            assert(all_hosts@ =~= group_entries(self.adsb_address));
        }
        input_test_results.push(has_unique_elements(&all_hosts));

        if let Some(config_hosts) = &self.adsb_address {
            input_test_results.push(check_host(config_hosts, "AH_ADSB_ADDRESS/--adsb-address"));
        }

        let r = validate_results(&input_test_results);
        proof {
            if r {
                assert(input_test_results@[0]);
                if input_test_results@.len() > 1 {
                    assert(input_test_results@[1]);
                }
            } else {
                let i = choose|i: int|
                    0 <= i < input_test_results@.len() && !input_test_results@[i];
                assert(!dup_free(self.adsb_address));
            }
        }
        r
    }

    /// The map center is either wholly absent or within range. A configured
    /// address group with no map center only centers the map on the origin;
    /// that is the caller's warning to give, not a failure.
    pub fn check_latitude_and_longitude(&self) -> (r: bool)
        ensures
            r == coords_valid(self.map_latitude, self.map_longitude),
    {
        if self.map_latitude.is_none() && self.map_longitude.is_none() {
            return true;
        }
        if (self.map_latitude.is_some() && self.map_longitude.is_none()) || (
        self.map_latitude.is_none() && self.map_longitude.is_some()) {
            return false;
        }
        let mut input_test_results: Vec<bool> = Vec::new();
        input_test_results.push(
            check_latitude(&self.map_latitude, "AH_MAP_LATITUDE/--map-latitude"),
        );
        input_test_results.push(
            check_longitude(&self.map_longitude, "AH_MAP_LONGITUDE/--map-longitude"),
        );
        let r = validate_results(&input_test_results);
        proof {
            if r {
                assert(input_test_results@[0]);
                assert(input_test_results@[1]);
            } else {
                let i = choose|i: int|
                    0 <= i < input_test_results@.len() && !input_test_results@[i];
                assert(!(latitude_ok(self.map_latitude) && longitude_ok(self.map_longitude)));
            }
        }
        r
    }

    /// Run the three top-level checks in a fixed order and fold their
    /// outcomes: success when every check passes, otherwise the number of
    /// failing checks.
    pub fn check_config_option_sanity(&self) -> (r: Result<(), SanityError>)
        ensures
            r is Ok <==> failure_count(*self) == 0,
            r is Err ==> r->Err_0.failure_count as int == failure_count(*self),
            r is Err ==> 1 <= r->Err_0.failure_count <= 3,
    {
        let host_ok = self.check_host_validity();
        let dup_ok = self.check_no_duplicate_hosts();
        let coords_ok = self.check_latitude_and_longitude();

        let mut is_input_sane: Vec<bool> = Vec::new();
        is_input_sane.push(host_ok);
        is_input_sane.push(dup_ok);
        is_input_sane.push(coords_ok);

        let all_ok = validate_results(&is_input_sane);
        proof {
            if all_ok {
                assert(is_input_sane@[0]);
                assert(is_input_sane@[1]);
                assert(is_input_sane@[2]);
            } else {
                let i = choose|i: int| 0 <= i < is_input_sane@.len() && !is_input_sane@[i];
                assert(!(host_ok && dup_ok && coords_ok));
            }
        }
        if all_ok {
            Ok(())
        } else {
            let mut failures: u32 = 0;
            if !host_ok {
                failures += 1;
            }
            if !dup_ok {
                failures += 1;
            }
            if !coords_ok {
                failures += 1;
            }
            Err(SanityError { failure_count: failures })
        }
    }
}

} // verus!
