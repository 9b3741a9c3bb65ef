use rwkv_router::RouteClass;

#[test]
fn route_class_roundtrip() {
    for rc in RouteClass::ALL {
        let idx = rc.index();
        assert_eq!(RouteClass::from_index(idx), Some(rc));
        assert_eq!(RouteClass::parse_from_str(rc.as_str()), Some(rc));
    }
}

#[test]
fn order_and_upgrade() {
    assert!(RouteClass::R0 < RouteClass::R3);
    assert_eq!(RouteClass::R1.upgrade(), RouteClass::R2);
    assert_eq!(RouteClass::R3.upgrade(), RouteClass::R3);
    assert_eq!(RouteClass::parse_from_str("R4"), None);
    assert_eq!(RouteClass::from_index(9), None);
}

#[test]
fn tiers_are_named_and_ordered() {
    let names: Vec<String> = RouteClass::ALL.iter().map(|t| t.to_string()).collect();
    assert_eq!(names, ["R0", "R1", "R2", "R3"]);
    for pair in RouteClass::ALL.windows(2) {
        assert!(pair[0] < pair[1]);
        assert!(pair[0] != pair[1]);
        assert_eq!(pair[0].upgrade(), pair[1]);
    }
    assert_eq!(RouteClass::parse_from_str("r0"), None);
    assert_eq!(RouteClass::parse_from_str(""), None);
}
