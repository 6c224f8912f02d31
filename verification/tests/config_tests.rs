use toymc::config::SimConfig;
use toymc::event::add_charge;
use toymc::rows::schema_field_names;
use toymc::select::Writer;

#[test]
fn overrides_apply_only_given_values() {
    let base = SimConfig { n_events: 10, output: "out".to_owned() };
    let c = base.clone().overrides(None, None);
    assert_eq!(c.n_events, 10);
    assert_eq!(c.output, "out".to_owned());
    let c = base.clone().overrides(Some(99), None);
    assert_eq!(c.n_events, 99);
    assert_eq!(c.output, "out".to_owned());
    let c = base.clone().overrides(None, Some("other".to_owned()));
    assert_eq!(c.n_events, 10);
    assert_eq!(c.output, "other".to_owned());
    let c = base.overrides(Some(5), Some("both".to_owned()));
    assert_eq!(c.n_events, 5);
    assert_eq!(c.output, "both".to_owned());
}

#[test]
fn writer_extensions() {
    assert_eq!(Writer::Csv.extension(), "csv");
    assert_eq!(Writer::Feather.extension(), "feather");
    assert!(Writer::Csv != Writer::Feather);
}

#[test]
fn schema_names_in_order() {
    let names = schema_field_names(2, 2);
    let expected: Vec<String> = vec![
        "event", "x", "y", "wire_0", "wire_1", "img_0_0", "img_0_1", "img_1_0", "img_1_1",
    ]
    .into_iter()
    .map(|s: &str| s.to_owned())
    .collect();
    assert_eq!(names, expected);
}

#[test]
fn add_charge_increments_one_wire() {
    let mut q = vec![0u64, 3, 7];
    add_charge(&mut q, 1);
    assert_eq!(q, vec![0, 4, 7]);
    add_charge(&mut q, 0);
    assert_eq!(q, vec![1, 4, 7]);
}
