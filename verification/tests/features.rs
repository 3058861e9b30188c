use krates::features::{Feature, ParsedFeature};

#[test]
fn parses_features() {
    assert_eq!(
        ParsedFeature::from("simple").feat(),
        Feature::Simple("simple".to_string()),
    );

    assert_eq!(
        ParsedFeature::from("dep:krate-name-here").feat(),
        Feature::Krate("krate-name-here".to_string()),
    );

    assert_eq!(
        ParsedFeature::from("krate-name-here?/feature-name-here").feat(),
        Feature::Weak {
            krate: "krate-name-here".to_string(),
            feature: "feature-name-here".to_string()
        },
    );

    assert_eq!(
        ParsedFeature::from("name/feat").feat(),
        Feature::Strong {
            krate: "name".to_string(),
            feature: "feat".to_string()
        },
    );
}

#[test]
fn weak_before_strong_separator() {
    // the first `?/` decides, even with a `/` before it
    assert_eq!(
        ParsedFeature::from("a/b?/c").feat(),
        Feature::Weak {
            krate: "a/b".to_string(),
            feature: "c".to_string()
        },
    );
    assert_eq!(
        ParsedFeature::from("dep:x/y").feat(),
        Feature::Krate("x/y".to_string()),
    );
    assert_eq!(
        ParsedFeature::from("").feat(),
        Feature::Simple(String::new()),
    );
}
