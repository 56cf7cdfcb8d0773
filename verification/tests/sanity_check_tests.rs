use acarshub_options::sanity_check::{
    check_host, check_latitude, check_longitude, get_all_hosts, has_unique_elements,
    validate_results,
};
use acarshub_options::{Coordinate, Input};

#[test]
fn test_check_no_duplicate_hosts() {
    let mut hosts: Input = Input::default();
    // Generate clean input
    hosts.adsb_address = Some(vec![
        "test.com:8080".to_string(),
        "192.168.1.1:8080".to_string(),
    ]);

    let valid_hosts_test: bool = hosts.check_no_duplicate_hosts();

    hosts.adsb_address = Some(vec![
        "test.com:8087".to_string(),
        "192.168.1.1:8087".to_string(),
        "test.com:8087".to_string(),
    ]);
    let invalid_hosts_test: bool = hosts.check_no_duplicate_hosts();

    assert_eq!(
        valid_hosts_test, true,
        "Expected there to be no duplicates for this check"
    );
    assert_eq!(
        invalid_hosts_test, false,
        "Expected there to be duplicates for this check"
    );
}

#[test]
fn test_adsb_lat_lon() {
    let mut positions: Input = Input::default();
    // Generate clean input
    positions.map_longitude = Some(Coordinate { micro_degrees: 0 });
    positions.map_latitude = Some(Coordinate { micro_degrees: 0 });

    let valid_lat_lon_test: bool = positions.check_latitude_and_longitude();

    positions.map_latitude = Some(Coordinate {
        micro_degrees: 90_100_000,
    });
    positions.map_longitude = Some(Coordinate {
        micro_degrees: 180_100_000,
    });
    let invalid_lat_lon_test: bool = positions.check_latitude_and_longitude();

    assert_eq!(
        valid_lat_lon_test, true,
        "Expected there to be valid lat/lon for this check"
    );
    assert_eq!(
        invalid_lat_lon_test, false,
        "Expected there to be invalid lat/lon for this check"
    );
}

#[test]
fn lat_lon_boundaries_inclusive() {
    let mut positions: Input = Input::default();
    positions.map_latitude = Some(Coordinate {
        micro_degrees: 90_000_000,
    });
    positions.map_longitude = Some(Coordinate {
        micro_degrees: 180_000_000,
    });
    assert!(positions.check_latitude_and_longitude());

    positions.map_latitude = Some(Coordinate {
        micro_degrees: -90_000_000,
    });
    positions.map_longitude = Some(Coordinate {
        micro_degrees: -180_000_000,
    });
    assert!(positions.check_latitude_and_longitude());

    positions.map_latitude = Some(Coordinate {
        micro_degrees: -90_000_001,
    });
    assert!(!positions.check_latitude_and_longitude());
}

#[test]
fn lat_lon_partial_pair_is_invalid() {
    let mut positions: Input = Input::default();
    assert!(positions.check_latitude_and_longitude());

    positions.map_latitude = Some(Coordinate { micro_degrees: 0 });
    positions.map_longitude = None;
    assert!(!positions.check_latitude_and_longitude());

    positions.map_latitude = None;
    positions.map_longitude = Some(Coordinate { micro_degrees: 0 });
    assert!(!positions.check_latitude_and_longitude());
}

#[test]
fn lat_lon_individual_checks() {
    assert!(!check_latitude(&None, "lat"));
    assert!(!check_longitude(&None, "lon"));
    assert!(check_latitude(
        &Some(Coordinate {
            micro_degrees: 45_500_000
        }),
        "lat"
    ));
    assert!(!check_latitude(
        &Some(Coordinate {
            micro_degrees: 90_000_001
        }),
        "lat"
    ));
    assert!(check_longitude(
        &Some(Coordinate {
            micro_degrees: -179_999_999
        }),
        "lon"
    ));
    assert!(!check_longitude(
        &Some(Coordinate {
            micro_degrees: 180_000_001
        }),
        "lon"
    ));
}

#[test]
fn unique_elements_detects_repeats() {
    let unique = vec!["a:1".to_string(), "b:2".to_string(), "c:3".to_string()];
    assert!(has_unique_elements(&unique));
    assert!(check_host(&unique, "group"));

    let repeated = vec!["a:1".to_string(), "b:2".to_string(), "a:1".to_string()];
    assert!(!has_unique_elements(&repeated));
    assert!(!check_host(&repeated, "group"));

    let empty: Vec<String> = Vec::new();
    assert!(has_unique_elements(&empty));
}

#[test]
fn get_all_hosts_flattens_present_groups() {
    let mut all_hosts: Vec<String> = Vec::new();
    get_all_hosts(&mut all_hosts, &None);
    assert!(all_hosts.is_empty());

    let group = Some(vec!["x:1".to_string(), "y:2".to_string()]);
    get_all_hosts(&mut all_hosts, &group);
    let second = Some(vec!["x:1".to_string()]);
    get_all_hosts(&mut all_hosts, &second);
    assert_eq!(all_hosts, vec!["x:1".to_string(), "y:2".to_string(), "x:1".to_string()]);
    assert!(!has_unique_elements(&all_hosts));
}

#[test]
fn validate_results_requires_every_pass() {
    assert!(validate_results(&Vec::new()));
    assert!(validate_results(&vec![true, true, true]));
    assert!(!validate_results(&vec![true, false, true]));
    assert!(!validate_results(&vec![false]));
}

#[test]
fn aggregator_counts_each_failing_check() {
    // Every check passing yields success.
    let mut config: Input = Input::default();
    assert!(config.check_config_option_sanity().is_ok());

    // One failure: an incomplete coordinate pair.
    config.map_latitude = Some(Coordinate { micro_degrees: 0 });
    let one = config.check_config_option_sanity().unwrap_err();
    assert_eq!(one.failure_count, 1);

    // Two failures: malformed hosts and an incomplete coordinate pair.
    config.adsb_address = Some(vec!["nohostport".to_string()]);
    let two = config.check_config_option_sanity().unwrap_err();
    assert_eq!(two.failure_count, 2);

    // Three failures: malformed and duplicated hosts, bad coordinates.
    config.adsb_address = Some(vec!["nohostport".to_string(), "nohostport".to_string()]);
    let three = config.check_config_option_sanity().unwrap_err();
    assert_eq!(three.failure_count, 3);
}

#[test]
fn end_to_end_valid_configuration() {
    let mut config: Input = Input::default();
    config.adsb_address = Some(vec!["127.0.0.1:8008".to_string(), "10.0.0.1:12345".to_string()]);
    config.map_latitude = Some(Coordinate { micro_degrees: 0 });
    config.map_longitude = Some(Coordinate { micro_degrees: 0 });
    assert!(config.check_config_option_sanity().is_ok());
}

#[test]
fn end_to_end_duplicate_hosts_rejected() {
    let mut config: Input = Input::default();
    config.adsb_address = Some(vec![
        "test.com:8087".to_string(),
        "192.168.1.1:8087".to_string(),
        "test.com:8087".to_string(),
    ]);
    let err = config.check_config_option_sanity().unwrap_err();
    assert!(err.failure_count >= 1);
    assert_eq!(err.failure_count, 1);
}

#[test]
fn end_to_end_out_of_range_map_center_rejected() {
    let mut config: Input = Input::default();
    config.adsb_address = None;
    config.map_latitude = Some(Coordinate {
        micro_degrees: 90_100_000,
    });
    config.map_longitude = Some(Coordinate {
        micro_degrees: 180_100_000,
    });
    let err = config.check_config_option_sanity().unwrap_err();
    assert_eq!(err.failure_count, 1);
}
