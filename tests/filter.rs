use osmptparser::filter::{TagFilter, ADMIN_AREA_FILTER, PTV2_FILTER};

fn tags(pairs: &[(&str, &str)]) -> Vec<(String, String)> {
    pairs.iter().map(|(k, v)| (k.to_string(), v.to_string())).collect()
}

#[test]
fn ptv2_filter_compiles_to_three_conditions() {
    let f = TagFilter::parse(PTV2_FILTER).unwrap();
    assert_eq!(f.conditions.len(), 3);
    assert_eq!(f.conditions[0].key, "name");
    assert!(f.conditions[0].values.is_none());
    assert_eq!(f.conditions[1].key, "route_master");
    assert_eq!(f.conditions[2].key, "route");
    assert_eq!(
        f.conditions[2].values.clone().unwrap(),
        vec!["bus", "tram", "train", "subway", "light_rail", "monorail", "trolleybus"]
    );
}

#[test]
fn ptv2_filter_asks_for_route_master_tag() {
    let f = TagFilter::parse(PTV2_FILTER).unwrap();
    let route = tags(&[("name", "B6"), ("route", "bus")]);
    assert!(!f.matches(&route));
    let with_master = tags(&[("name", "B6"), ("route_master", "bus"), ("route", "bus")]);
    assert!(f.matches(&with_master));
    let ferry = tags(&[("name", "F"), ("route_master", "x"), ("route", "ferry")]);
    assert!(!f.matches(&ferry));
}

#[test]
fn value_list_is_a_disjunction() {
    let f = TagFilter::parse("name&admin_level=1,2,3&boundary=administrative").unwrap();
    assert!(f.matches(&tags(&[("boundary", "administrative"), ("admin_level", "2"), ("name", "X")])));
    assert!(!f.matches(&tags(&[("boundary", "administrative"), ("admin_level", "4"), ("name", "X")])));
    assert!(!f.matches(&tags(&[("boundary", "administrative"), ("admin_level", "2")])));
}

#[test]
fn first_tag_with_the_key_decides() {
    let f = TagFilter::parse("natural=beach").unwrap();
    assert!(!f.matches(&tags(&[("natural", "wood"), ("natural", "beach")])));
    assert!(f.matches(&tags(&[("natural", "beach"), ("natural", "wood")])));
}

#[test]
fn matching_is_case_sensitive() {
    let f = TagFilter::parse("natural=beach").unwrap();
    assert!(!f.matches(&tags(&[("natural", "Beach")])));
    assert!(!f.matches(&tags(&[("Natural", "beach")])));
}

#[test]
fn empty_filter_matches_everything() {
    let f = TagFilter::parse("").unwrap();
    assert!(f.conditions.is_empty());
    assert!(f.matches(&tags(&[])));
    assert!(f.matches(&tags(&[("a", "b")])));
}

#[test]
fn empty_key_is_rejected() {
    assert!(TagFilter::parse("name&&route").is_err());
    assert!(TagFilter::parse("=bus").is_err());
    assert!(TagFilter::parse("name&").is_err());
}

#[test]
fn empty_value_matches_empty_tag_value() {
    let f = TagFilter::parse("ref=").unwrap();
    assert!(f.matches(&tags(&[("ref", "")])));
    assert!(!f.matches(&tags(&[("ref", "1")])));
}

#[test]
fn admin_area_filter_compiles() {
    let f = TagFilter::parse(ADMIN_AREA_FILTER).unwrap();
    assert_eq!(f.conditions.len(), 3);
    assert_eq!(f.conditions[2].values.clone().unwrap(), vec!["administrative"]);
}
