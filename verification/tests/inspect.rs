use pf_vis::diagram::render::{bus_caption, highlight_for, Highlight, Options, Pick};
use pf_vis::diagram::Orientation;
use pf_vis::inspect::{bus_type, filter_match, in_service, row, FilterOutcome};
use pf_vis::model::ElemId;
use pf_vis::summary::skipped_text;

/// The filter box as the case panel applies it: the library matches the text, the voltage is
/// compared here.
fn matches_filter(number: i32, name: &str, base_kv: f64, filter: &str) -> bool {
    match filter_match(number, name, filter) {
        FilterOutcome::Match => true,
        FilterOutcome::Voltage(text) => match text.parse::<f64>() {
            Ok(kv) => (base_kv - kv).abs() < 0.05,
            Err(_) => false,
        },
    }
}

#[test]
fn the_filter_box_matches_number_name_and_voltage() {
    assert!(matches_filter(2, "Greers Fer~1", 138.0, ""));
    assert!(matches_filter(2, "Greers Fer~1", 138.0, "greers"));
    assert!(matches_filter(2, "Greers Fer~1", 138.0, "138 kV"));
    assert!(matches_filter(722, "Marion", 69.0, "72"));
    assert!(!matches_filter(2, "Greers Fer~1", 138.0, "marion"));
    assert!(!matches_filter(2, "Greers Fer~1", 138.0, "345"));
}

#[test]
fn the_filter_hands_back_the_voltage_text() {
    assert!(matches!(filter_match(2, "A", "  "), FilterOutcome::Match));
    match filter_match(2, "Greers", " 138 KVkv ") {
        FilterOutcome::Voltage(t) => assert_eq!(t, "138"),
        FilterOutcome::Match => panic!("no text should match"),
    }
    assert!(matches!(filter_match(-45, "x", "-4"), FilterOutcome::Match));
    assert!(matches!(filter_match(2, "GREERS", "eer"), FilterOutcome::Match));
}

#[test]
fn record_rows_read_plainly() {
    assert_eq!(
        row("Status", in_service(0)),
        ("Status".to_string(), "out of service".to_string())
    );
    assert_eq!(in_service(1), "in service");
    assert_eq!(in_service(-3), "in service");
    assert_eq!(bus_type(1), "load (PQ)");
    assert_eq!(bus_type(2), "generator (PV)");
    assert_eq!(bus_type(3), "swing");
    assert_eq!(bus_type(4), "isolated");
    assert_eq!(bus_type(9), "load (PQ)");
}

#[test]
fn the_selection_outranks_the_hover() {
    let both = Options {
        show_grid: true,
        show_labels: true,
        selected: Some(Pick::Bus(2)),
        hovered: Some(Pick::Bus(2)),
    };
    assert_eq!(highlight_for(&both, Pick::Bus(2)), Some(Highlight::Selected));
    let hover = Options {
        show_grid: true,
        show_labels: true,
        selected: Some(Pick::Element(ElemId::Branch(0))),
        hovered: Some(Pick::Bus(2)),
    };
    assert_eq!(highlight_for(&hover, Pick::Bus(2)), Some(Highlight::Hovered));
    assert_eq!(highlight_for(&hover, Pick::Bus(3)), None);
    assert_eq!(
        highlight_for(&hover, Pick::Element(ElemId::Branch(0))),
        Some(Highlight::Selected)
    );
}

#[test]
fn bus_captions_carry_number_and_name() {
    assert_eq!(bus_caption(2, "Greers Fer~1"), "2 Greers Fer~1");
    assert_eq!(bus_caption(-17, ""), "-17");
}

#[test]
fn orientation_flips_both_ways() {
    assert_eq!(Orientation::Horizontal.flipped(), Orientation::Vertical);
    assert_eq!(Orientation::Vertical.flipped(), Orientation::Horizontal);
    assert_eq!(Orientation::default(), Orientation::Horizontal);
}

#[test]
fn skipped_sections_are_listed_with_counts() {
    let skipped = vec![
        ("FACTS DEVICE".to_string(), 1),
        ("SYSTEM-WIDE".to_string(), 14),
    ];
    assert_eq!(skipped_text(&skipped), "FACTS DEVICE (1), SYSTEM-WIDE (14)");
    assert_eq!(skipped_text(&[]), "");
}
