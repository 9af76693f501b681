use lib::report::StopReason;

#[test]
fn stop_reason_clones_its_payload() {
    let r: StopReason = StopReason::Other(String::from("custom"));
    match r.clone() {
        StopReason::Other(s) => assert_eq!(s, "custom"),
        _ => panic!("wrong variant"),
    }
    let s: StopReason<u32> = StopReason::Saturated;
    assert!(matches!(s.clone(), StopReason::Saturated));
}
