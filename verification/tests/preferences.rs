use daybook::prefs::{load_dark_mode_preference, save_dark_mode_preference};
use daybook::zoom::{get_zoom_limits, load_zoom_preference, save_zoom_preference};

fn save_zoom(value: f64) -> Result<String, daybook::StoreError> {
    save_zoom_preference(&value.to_string())
}

fn load_zoom(content: Option<&str>) -> f64 {
    load_zoom_preference(content).unwrap().parse().unwrap()
}

#[test]
fn test_save_and_load_zoom_preference() {
    let zoom_level = 1.5;
    let content = save_zoom(zoom_level).unwrap();
    let loaded_zoom = load_zoom(Some(&content));
    assert_eq!(loaded_zoom, zoom_level);
}

#[test]
fn test_zoom_preference_default_value() {
    // no backing file: the default
    let default_zoom = load_zoom(None);
    assert_eq!(default_zoom, 1.0);
}

#[test]
fn test_zoom_preference_boundary_values() {
    let content = save_zoom(0.5).unwrap();
    assert_eq!(load_zoom(Some(&content)), 0.5);

    let content = save_zoom(3.0).unwrap();
    assert_eq!(load_zoom(Some(&content)), 3.0);

    let content = save_zoom(1.0).unwrap();
    assert_eq!(load_zoom(Some(&content)), 1.0);
}

#[test]
fn test_zoom_preference_validation() {
    // non-finite values are rejected
    assert!(save_zoom(f64::NAN).is_err());
    assert!(save_zoom(f64::INFINITY).is_err());
    assert!(save_zoom(f64::NEG_INFINITY).is_err());

    // finite out-of-range values are clamped
    let content = save_zoom(10.0).unwrap();
    assert_eq!(load_zoom(Some(&content)), 3.0);

    let content = save_zoom(-1.0).unwrap();
    assert_eq!(load_zoom(Some(&content)), 0.5);

    let content = save_zoom(0.4).unwrap();
    assert_eq!(load_zoom(Some(&content)), 0.5);

    let content = save_zoom(3.1).unwrap();
    assert_eq!(load_zoom(Some(&content)), 3.0);

    // boundary values pass as they are
    assert!(save_zoom(0.5).is_ok());
    assert!(save_zoom(3.0).is_ok());
}

#[test]
fn test_zoom_preference_persistence() {
    for zoom in [0.5, 0.8, 1.0, 1.5, 2.0, 3.0] {
        let content = save_zoom(zoom).unwrap();
        let loaded = load_zoom(Some(&content));
        assert_eq!(loaded, zoom);
    }
}

#[test]
fn test_zoom_extreme_magnitudes_clamp() {
    // extreme magnitudes still classify correctly
    let content = save_zoom(1.0e300).unwrap();
    assert_eq!(load_zoom(Some(&content)), 3.0);
    let content = save_zoom(1.0e-300).unwrap();
    assert_eq!(load_zoom(Some(&content)), 0.5);
    let content = save_zoom(0.0).unwrap();
    assert_eq!(load_zoom(Some(&content)), 0.5);
    let content = save_zoom(-0.0).unwrap();
    assert_eq!(load_zoom(Some(&content)), 0.5);
    // near-boundary values
    let content = save_zoom(2.9999999999).unwrap();
    assert_eq!(load_zoom(Some(&content)), 2.9999999999);
    let content = save_zoom(3.0000000001).unwrap();
    assert_eq!(load_zoom(Some(&content)), 3.0);
    let content = save_zoom(0.4999999).unwrap();
    assert_eq!(load_zoom(Some(&content)), 0.5);
    let content = save_zoom(0.5000001).unwrap();
    assert_eq!(load_zoom(Some(&content)), 0.5000001);
}

#[test]
fn test_zoom_stored_out_of_range_reads_default() {
    // a stored out-of-range or unusable value is coerced, not an error
    assert_eq!(load_zoom(Some("{\"zoom_level\": 99.0}")), 1.0);
    assert_eq!(load_zoom(Some("{\"zoom_level\": -2}")), 1.0);
    assert_eq!(load_zoom(Some("{\"zoom_level\": \"big\"}")), 1.0);
    assert_eq!(load_zoom(Some("{}")), 1.0);
    assert_eq!(load_zoom(Some("{\"zoom_level\": 2.5e0}")), 2.5);
    assert_eq!(load_zoom(Some("{\"zoom_level\": 25e-1}")), 2.5);
    // only a file that is not JSON at all is an error
    assert!(load_zoom_preference(Some("not json")).is_err());
}

#[test]
fn test_zoom_limits_expose_range() {
    let limits = get_zoom_limits();
    assert_eq!(limits.min_zoom.parse::<f64>().unwrap(), 0.5);
    assert_eq!(limits.max_zoom.parse::<f64>().unwrap(), 3.0);
}

#[test]
fn test_dark_mode_default_and_roundtrip() {
    // missing file: light mode
    assert_eq!(load_dark_mode_preference(None).unwrap(), false);

    // saving true then loading returns true
    let content = save_dark_mode_preference(true);
    assert_eq!(load_dark_mode_preference(Some(&content)).unwrap(), true);

    let content = save_dark_mode_preference(false);
    assert_eq!(load_dark_mode_preference(Some(&content)).unwrap(), false);
}

#[test]
fn test_dark_mode_rejects_wrong_shape() {
    // a present file must hold the expected shape: anything else is
    // corrupt, never a silent default
    assert!(load_dark_mode_preference(Some("{}")).is_err());
    assert!(load_dark_mode_preference(Some("{\"dark_mode\": 3}")).is_err());
    assert!(load_dark_mode_preference(Some("[true]")).is_err());
    assert!(load_dark_mode_preference(Some("###")).is_err());
    // extra members around a boolean flag still read fine
    let r = load_dark_mode_preference(Some("{\"x\": 1, \"dark_mode\": true}"));
    assert_eq!(r.unwrap(), true);
}
