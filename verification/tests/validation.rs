use fictionary::model::check_length_range;
use fictionary::model::CharCounter;
use fictionary::model::LengthRangeError;
use fictionary::naming::bundle_id;

#[test]
fn length_range_accepts_the_documented_bounds() {
    assert!(check_length_range(3, 5).is_ok());
    assert!(check_length_range(4, 10).is_ok());
    assert!(check_length_range(5, 5).is_ok());
}

#[test]
fn length_range_rejects_small_minimum() {
    assert_eq!(check_length_range(2, 10).unwrap_err(), LengthRangeError::MinTooSmall);
    assert_eq!(check_length_range(0, 4).unwrap_err(), LengthRangeError::MinTooSmall);
}

#[test]
fn length_range_rejects_small_maximum() {
    assert_eq!(check_length_range(3, 4).unwrap_err(), LengthRangeError::MaxTooSmall);
}

#[test]
fn length_range_rejects_inverted_bounds() {
    assert_eq!(check_length_range(8, 6).unwrap_err(), LengthRangeError::MinAboveMax);
}

#[test]
fn bundle_id_joins_the_parts() {
    assert_eq!(bundle_id("uk.co", "judy", "fictionary"), "uk.co.judy.fictionary");
}

#[test]
fn bundle_id_dashes_spaces() {
    assert_eq!(bundle_id("org", "My Corp", "An App"), "org.My-Corp.An-App");
}

#[test]
fn bundle_id_drops_empty_parts() {
    assert_eq!(bundle_id("", "judy", "fictionary"), "judy.fictionary");
    assert_eq!(bundle_id("uk.co", "", ""), "uk.co");
    assert_eq!(bundle_id("", "", ""), "");
}

#[test]
fn sampler_limit_holds_for_small_training_sets() {
    let mut cc = CharCounter::new();
    for w in ["alpha", "beta", "gamma", "delta"] {
        cc.feed_word(w);
    }
    assert!(cc.within_sampler_limit());
}
