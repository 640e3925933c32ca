use mangodisk::models::{CleanupActionStatus, CleanupCategory, CleanupGroup};

#[test]
fn multiword_category_keeps_the_camel_case_wire_value() {
    let encoded = serde_json::to_string(CleanupCategory::ApplicationOptimization.as_str())
        .expect("cleanup category must serialize");

    assert_eq!(encoded, r#""applicationOptimization""#);
    assert_eq!(
        CleanupCategory::try_from("applicationOptimization"),
        Ok(CleanupCategory::ApplicationOptimization)
    );
}

#[test]
fn result_group_keeps_the_camel_case_wire_value() {
    let encoded = serde_json::to_string(CleanupGroup::UserCache.as_str()).expect("cleanup result group must serialize");

    assert_eq!(encoded, r#""userCache""#);
    assert_eq!(CleanupGroup::UserCache.as_str(), "userCache");
}

#[test]
fn unknown_category_is_rejected_by_name() {
    assert_eq!(
        CleanupCategory::try_from("applications"),
        Err("unsupported cleanup category: applications".to_string())
    );
    for category in [
        CleanupCategory::Custom,
        CleanupCategory::System,
        CleanupCategory::Browser,
        CleanupCategory::Application,
        CleanupCategory::Development,
        CleanupCategory::Project,
        CleanupCategory::Xcode,
        CleanupCategory::ApplicationOptimization,
        CleanupCategory::Ai,
        CleanupCategory::Container,
    ] {
        assert_eq!(CleanupCategory::try_from(category.as_str()), Ok(category));
    }
}

#[test]
fn category_maps_to_its_own_group() {
    assert_eq!(CleanupGroup::from(CleanupCategory::Browser), CleanupGroup::Browser);
    assert_eq!(CleanupGroup::from(CleanupCategory::ApplicationOptimization), CleanupGroup::ApplicationOptimization);
    assert_eq!(CleanupActionStatus::Previewed.as_str(), "previewed");
    assert_eq!(CleanupActionStatus::Partial.as_str(), "partial");
}
