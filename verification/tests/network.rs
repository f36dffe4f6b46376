use pf_vis::diagram::layout::{
    collect_equipment, find_free_slot, free_cell_near, EquipSource, Equipment, Tier,
};
use pf_vis::diagram::{elem_key, BusNode, Diagram, ElemKey, Orientation};
use pf_vis::model::{Attached, ElemId, Network};
use pf_vis::psse::raw::{parse, RawCase};
use pf_vis::psse::scan::decode_latin1;

/// A small revision-35 case: a 138 kV line from bus 2 to 722, two parallel circuits from 722 to
/// 808, a 138/69 kV transformer from 2 to 3, a load on 3, a generator on 808 and a switched
/// shunt on 5.
const SAMPLE: &str = "0,   100.00, 35, 0, 0, 60.00     / small sample
SMALL SAMPLE CASE
FOR THE TESTS
GENERAL, THRSHZ=0.0001, PQBRAK=0.7
RATING, 1, \"      \", \"        \"
0 / END OF SYSTEM-WIDE DATA, BEGIN BUS DATA
    2,'Greers Fer~1', 138.0000,1,   2,   1,   1,1.01770,  -2.1000
    3,'Greers Fer69',  69.0000,1,   2,   1,   1,1.00000,   0.0000
    5,'Cap Bank',      69.0000,1,   2,   1,   1,1.00000,   0.0000
  722,'Marion',       138.0000,1,   2,   1,   1,1.00000,   0.0000
  808,'Plant',        138.0000,2,   2,   1,   1,1.02000,   0.0000
0 / END OF BUS DATA, BEGIN LOAD DATA
    3,'1 ',1,   2,   1,    10.000,     5.000,     0.000,     0.000,     0.000,     0.000,   1,1,0
0 / END OF LOAD DATA, BEGIN FIXED SHUNT DATA
0 / END OF FIXED SHUNT DATA, BEGIN GENERATOR DATA
  808,'1 ',    48.000,     5.000,    30.000,   -20.000,1.02000,     0,     0,    53.300, 0.00000E+0, 1.00000E+0, 0.00000E+0, 0.00000E+0,1.00000,1,  100.0,    60.000,     0.000,   1,1.0000
0 / END OF GENERATOR DATA, BEGIN BRANCH DATA
    2,   722,'1 ', 8.55000E-3, 5.29370E-2,   0.00000,'            ',   187.10,     0.00,     0.00,     0.00,     0.00,     0.00,     0.00,     0.00,     0.00,     0.00,     0.00,     0.00,  0.00000,  0.00000,  0.00000,  0.00000,1,1,   0.00,   1,1.0000
  722,   808,'1 ', 1.00000E-3, 1.00000E-2,   0.00000,'            ',   100.00,     0.00,     0.00,     0.00,     0.00,     0.00,     0.00,     0.00,     0.00,     0.00,     0.00,     0.00,  0.00000,  0.00000,  0.00000,  0.00000,1,1,   0.00,   1,1.0000
  722,   808,'2 ', 1.00000E-3, 1.00000E-2,   0.00000,'            ',   100.00,     0.00,     0.00,     0.00,     0.00,     0.00,     0.00,     0.00,     0.00,     0.00,     0.00,     0.00,  0.00000,  0.00000,  0.00000,  0.00000,1,1,   0.00,   1,1.0000
0 / END OF BRANCH DATA, BEGIN SYSTEM SWITCHING DEVICE DATA
0 / END OF SYSTEM SWITCHING DEVICE DATA, BEGIN TRANSFORMER DATA
    2,     3,     0,'1 ',1,1,1,   0.00000E+0,   0.00000E+0,2,'XF 2-3      ',1,   1,1.0000
 0.00000E+0, 1.12620E-1,   100.00
1.00000,   138.000,   0.000,   100.00,   100.00,   100.00
1.00000,    69.000
0 / END OF TRANSFORMER DATA, BEGIN AREA DATA
0 / END OF AREA DATA, BEGIN TWO-TERMINAL DC DATA
0 / END OF TWO-TERMINAL DC DATA, BEGIN VSC DC LINE DATA
0 / END OF VSC DC LINE DATA, BEGIN IMPEDANCE CORRECTION DATA
0 / END OF IMPEDANCE CORRECTION DATA, BEGIN MULTI-TERMINAL DC DATA
0 / END OF MULTI-TERMINAL DC DATA, BEGIN MULTI-SECTION LINE DATA
0 / END OF MULTI-SECTION LINE DATA, BEGIN ZONE DATA
0 / END OF ZONE DATA, BEGIN INTER-AREA TRANSFER DATA
0 / END OF INTER-AREA TRANSFER DATA, BEGIN OWNER DATA
0 / END OF OWNER DATA, BEGIN FACTS DEVICE DATA
0 / END OF FACTS DEVICE DATA, BEGIN SWITCHED SHUNT DATA
    5,'1 ',1,0,1,1.05000,0.95000,     0,     0,100.0,'            ',    61.05,1,    61.05
0 / END OF SWITCHED SHUNT DATA, BEGIN GNE DEVICE DATA
0 / END OF GNE DEVICE DATA, BEGIN INDUCTION MACHINE DATA
0 / END OF INDUCTION MACHINE DATA, BEGIN SUBSTATION DATA
0 / END OF SUBSTATION DATA
Q
";

fn sample_net() -> Network {
    let case = parse(&decode_latin1(SAMPLE.as_bytes())).expect("sample case parses");
    Network::from_raw(case)
}

fn kv(net: &Network, bus: i32) -> f64 {
    net.bus(bus).map_or(0.0, |b| b.base_kv.parse::<f64>().unwrap_or(0.0))
}

/// The side of `from` each terminal of `id` goes on, as the drawing tool decides it.
fn tiers(net: &Network, from: i32, id: ElemId) -> Vec<Tier> {
    let parent = kv(net, from);
    net.element(id)
        .terminals()
        .into_iter()
        .map(|bus| {
            let new = kv(net, bus);
            if new > parent * 1.05 {
                Tier::Above
            } else if new < parent * 0.95 {
                Tier::Below
            } else {
                Tier::Alongside
            }
        })
        .collect()
}

fn label(net: &Network, id: ElemId) -> String {
    net.label(id, false)
}

#[test]
fn indexes_every_element_against_both_terminals() {
    let net = sample_net();
    let total: usize = net.buses.keys().map(|b| net.incident(*b).len()).sum();
    assert_eq!(total, 2 * (net.branches.len() + net.transformers.len()));
    assert_eq!(net.dangling, 0);
}

#[test]
fn incidence_finds_both_a_line_and_a_transformer() {
    let net = sample_net();
    let labels: Vec<String> = net.incident(2).iter().map(|id| label(&net, *id)).collect();
    assert!(labels.iter().any(|l| l == "2-722 line 1"), "{labels:?}");
    assert!(labels.iter().any(|l| l == "2-3 xfmr 1"), "{labels:?}");
}

#[test]
fn finds_equipment_hanging_off_a_bus() {
    let net = sample_net();
    let attached = net.attached(808).expect("bus 808 carries a generator");
    assert_eq!(attached.generators.len(), 1);
    assert_eq!(net.generators[attached.generators[0]].bus, 808);
    // Every generator, load and shunt in the case lands on some bus.
    let indexed: usize = net
        .buses
        .keys()
        .filter_map(|b| net.attached(*b))
        .map(Attached::count)
        .sum();
    let expected = net.generators.len() + net.loads.len() + net.switched_shunts.len();
    assert_eq!(indexed, expected);
}

#[test]
fn flags_only_buses_with_more_than_one_circuit() {
    let net = sample_net();
    let parallel = (0..net.branches.len())
        .filter(|i| net.has_parallel(ElemId::Branch(*i)))
        .count();
    assert!(parallel < net.branches.len(), "not every branch is parallel");
}

#[test]
fn an_element_appears_once_both_ends_are_placed() {
    let net = sample_net();
    let mut diagram = Diagram::default();
    diagram.place(2, 0, 0);
    assert!(diagram.visible_elements(&net).is_empty());
    diagram.place(3, 0, 4);
    let visible: Vec<String> = diagram
        .visible_elements(&net)
        .iter()
        .map(|id| label(&net, *id))
        .collect();
    assert_eq!(visible, vec!["2-3 xfmr 1"]);
}

#[test]
fn growing_places_the_far_bus_clear_of_the_near_one() {
    let net = sample_net();
    let mut diagram = Diagram::default();
    diagram.place(2, 0, 0);
    let (id, unplaced) = diagram
        .growth_options(&net, 2)
        .into_iter()
        .find(|(id, _)| label(&net, *id) == "2-722 line 1")
        .expect("bus 2 has a line to 722");
    assert_eq!(unplaced, vec![722]);
    let t = tiers(&net, 2, id);
    diagram.grow(&net, 2, id, &t);
    let node = diagram.placed[&722];
    assert!((node.gx, node.gy) != (0, 0));
    assert_eq!(diagram.visible_elements(&net).len(), 1);
}

#[test]
fn hidden_elements_stay_off_the_drawing() {
    let net = sample_net();
    let mut diagram = Diagram::default();
    diagram.place(2, 0, 0);
    diagram.place(3, 0, 4);
    let id = diagram.visible_elements(&net)[0];
    diagram.suppress(elem_key(&net, id));
    assert!(diagram.visible_elements(&net).is_empty());
}

#[test]
fn a_new_bus_lands_clear_of_the_one_it_grew_from() {
    let net = sample_net();
    let mut diagram = Diagram::default();
    diagram.place(2, 0, 0);
    // Bus 3 is the 69 kV side of the transformer, so it belongs below the 138 kV bus.
    let xfmr = ElemId::Transformer(0);
    let tier = tiers(&net, 2, xfmr)[1];
    let (gx, gy) = find_free_slot(&diagram, 2, tier);
    assert!(gy > 0, "lower voltage should sit below");
    assert!(gx.abs() >= 7 || gy.abs() >= 3, "must clear the existing bar");
}

#[test]
fn grown_buses_never_land_on_top_of_each_other() {
    let net = sample_net();
    let mut diagram = Diagram::default();
    diagram.place(2, 0, 0);
    for (id, _) in diagram.growth_options(&net, 2) {
        let t = tiers(&net, 2, id);
        diagram.grow(&net, 2, id, &t);
    }
    for bus in diagram.placed.keys().copied().collect::<Vec<_>>() {
        for (id, _) in diagram.growth_options(&net, bus) {
            let t = tiers(&net, bus, id);
            diagram.grow(&net, bus, id, &t);
        }
    }
    let cells: Vec<(i32, i32)> = diagram.placed.values().map(|n| (n.gx, n.gy)).collect();
    let unique: std::collections::BTreeSet<(i32, i32)> = cells.iter().copied().collect();
    assert_eq!(cells.len(), unique.len(), "two buses share a grid cell");
}

#[test]
fn sample_case_reads_as_expected() {
    let net = sample_net();
    assert_eq!(net.buses.len(), 5);
    assert_eq!(net.branches.len(), 3);
    assert_eq!(net.transformers.len(), 1);
    assert_eq!(net.loads.len(), 1);
    assert_eq!(net.generators.len(), 1);
    assert_eq!(net.switched_shunts.len(), 1);
    assert_eq!(net.rev, 35);
    assert!(!net.change_case);
    assert_eq!(net.skipped, vec![("SYSTEM-WIDE".to_string(), 2)]);
}

#[test]
fn each_element_is_listed_once_per_terminal_at_its_bus() {
    let net = sample_net();
    assert_eq!(
        net.incident(722),
        &[ElemId::Branch(0), ElemId::Branch(1), ElemId::Branch(2)]
    );
    assert_eq!(net.incident(2), &[ElemId::Branch(0), ElemId::Transformer(0)]);
    assert!(net.incident(999).is_empty());
}

#[test]
fn only_the_doubled_circuits_are_parallel() {
    let net = sample_net();
    assert!(!net.has_parallel(ElemId::Branch(0)));
    assert!(net.has_parallel(ElemId::Branch(1)));
    assert!(net.has_parallel(ElemId::Branch(2)));
    assert!(!net.has_parallel(ElemId::Transformer(0)));
}

#[test]
fn labels_name_buses_kind_and_circuit() {
    let net = sample_net();
    assert_eq!(net.label(ElemId::Branch(2), false), "722-808 line 2");
    assert_eq!(net.label(ElemId::Transformer(0), true), "2-3 phase shifter 1");
}

#[test]
fn records_on_undefined_buses_are_dropped_and_counted() {
    let text = SAMPLE.replace(
        "    2,   722,'1 ', 8.55000E-3",
        "    2,   999,'1 ', 8.55000E-3",
    );
    let net = Network::from_raw(parse(&decode_latin1(text.as_bytes())).unwrap());
    assert_eq!(net.branches.len(), 2);
    assert_eq!(net.dangling, 1);
    assert_eq!(net.incident(2), &[ElemId::Transformer(0)]);
}

#[test]
fn visible_elements_come_in_bus_then_list_order() {
    let net = sample_net();
    let mut diagram = Diagram::default();
    for (bus, x) in [(808, 0), (722, 10), (2, 20), (3, 30)] {
        diagram.place(bus, x, 0);
    }
    assert_eq!(
        diagram.visible_elements(&net),
        vec![
            ElemId::Branch(0),
            ElemId::Transformer(0),
            ElemId::Branch(1),
            ElemId::Branch(2)
        ]
    );
}

#[test]
fn growing_unsuppresses_the_element() {
    let net = sample_net();
    let mut diagram = Diagram::default();
    diagram.place(2, 0, 0);
    diagram.place(722, 8, 0);
    diagram.suppress(elem_key(&net, ElemId::Branch(0)));
    assert!(diagram.visible_elements(&net).is_empty());
    let t = tiers(&net, 2, ElemId::Branch(0));
    diagram.grow(&net, 2, ElemId::Branch(0), &t);
    assert_eq!(diagram.visible_elements(&net), vec![ElemId::Branch(0)]);
    assert_eq!(diagram.placed.len(), 2);
    assert!(diagram.hidden.is_empty());
}

#[test]
fn growth_options_list_only_elements_that_bring_new_buses() {
    let net = sample_net();
    let mut diagram = Diagram::default();
    diagram.place(722, 0, 0);
    diagram.place(2, 8, 0);
    let options = diagram.growth_options(&net, 722);
    assert_eq!(
        options,
        vec![(ElemId::Branch(1), vec![808]), (ElemId::Branch(2), vec![808])]
    );
}

#[test]
fn keys_identify_elements_by_what_they_connect() {
    let net = sample_net();
    let key = elem_key(&net, ElemId::Transformer(0));
    assert!(key.transformer);
    assert_eq!(key.buses, vec![2, 3]);
    assert_eq!(key.ckt, "1");
    let same = ElemKey {
        transformer: true,
        buses: vec![2, 3],
        ckt: "1".to_string(),
    };
    assert!(key.same_as(&same));
    assert!(!key.same_as(&elem_key(&net, ElemId::Branch(0))));
}

#[test]
fn suppressing_twice_keeps_one_entry_and_unsuppressing_clears_it() {
    let net = sample_net();
    let mut diagram = Diagram::default();
    let key = elem_key(&net, ElemId::Branch(1));
    diagram.suppress(key.clone_key());
    diagram.suppress(key.clone_key());
    assert_eq!(diagram.hidden.len(), 1);
    assert!(diagram.is_hidden(&key));
    diagram.unsuppress(&key);
    assert!(!diagram.is_hidden(&key));
}

#[test]
fn placing_a_bus_twice_keeps_the_first_position() {
    let mut diagram = Diagram::default();
    diagram.place(2, 4, -1);
    diagram.place(2, 9, 9);
    assert_eq!(
        diagram.placed[&2],
        BusNode {
            gx: 4,
            gy: -1,
            orient: Orientation::Horizontal
        }
    );
    diagram.remove(2);
    assert!(!diagram.is_placed(2));
    diagram.place(7, 1, 1);
    diagram.clear();
    assert!(diagram.placed.is_empty() && diagram.hidden.is_empty());
}

#[test]
fn the_search_takes_the_first_free_cell_in_spiral_order() {
    let mut diagram = Diagram::default();
    assert_eq!(free_cell_near(&diagram, (3, 4)), (3, 4));
    diagram.place(1, 0, 0);
    // The anchor itself is crowded; the ring around it is walked from its top row, left first,
    // and every cell within six across and two down is still crowded.
    assert_eq!(free_cell_near(&diagram, (0, 0)), (-3, -3));
}

#[test]
fn a_higher_voltage_bus_goes_above_and_an_equal_one_alongside() {
    let mut diagram = Diagram::default();
    diagram.place(2, 10, 10);
    assert_eq!(find_free_slot(&diagram, 2, Tier::Above), (10, 5));
    assert_eq!(find_free_slot(&diagram, 2, Tier::Alongside), (18, 10));
    assert_eq!(find_free_slot(&diagram, 2, Tier::Below), (10, 15));
    // An unplaced parent searches from the origin.
    assert_eq!(find_free_slot(&diagram, 99, Tier::Alongside), (8, 0));
}

#[test]
fn equipment_is_listed_bus_by_bus() {
    let net = sample_net();
    let mut diagram = Diagram::default();
    diagram.place(808, 0, 0);
    diagram.place(3, 0, 6);
    diagram.place(5, 8, 6);
    let all = collect_equipment(&net, &diagram, true);
    assert_eq!(
        all,
        vec![
            Equipment {
                bus: 3,
                source: EquipSource::Load(0),
                in_service: true
            },
            Equipment {
                bus: 5,
                source: EquipSource::SwitchedShunt(0),
                in_service: true
            },
            Equipment {
                bus: 808,
                source: EquipSource::Generator(0),
                in_service: true
            },
        ]
    );
    assert!(collect_equipment(&net, &diagram, false).is_empty());
}

fn sample() -> RawCase {
    parse(&decode_latin1(SAMPLE.as_bytes())).expect("sample case parses")
}

fn value(text: &str) -> f64 {
    text.parse::<f64>().expect("a number")
}

#[test]
fn reads_case_header() {
    let case = sample();
    assert_eq!(case.header.rev, 35);
    assert_eq!(value(&case.header.sbase), 100.0);
    assert_eq!(value(&case.header.basfrq), 60.0);
}

#[test]
fn reads_bus_fields() {
    let case = sample();
    let bus = case.buses.iter().find(|b| b.number == 2).unwrap();
    assert_eq!(bus.name, "Greers Fer~1");
    assert_eq!(value(&bus.base_kv), 138.0);
    assert_eq!(bus.area, 2);
    assert!((value(&bus.vm) - 1.0177).abs() < 1e-9);
}

#[test]
fn reads_branch_fields_with_v35_name_column() {
    let case = sample();
    let br = case
        .branches
        .iter()
        .find(|b| b.from == 2 && b.to == 722)
        .unwrap();
    assert_eq!(br.ckt, "1");
    assert!((value(&br.r) - 8.55e-3).abs() < 1e-12);
    assert!((value(&br.x) - 5.2937e-2).abs() < 1e-12);
    assert!((value(&br.rate_a) - 187.10).abs() < 1e-9);
    assert_eq!(br.status, 1);
}

#[test]
fn reads_two_winding_transformer_across_its_four_lines() {
    let case = sample();
    let xf = case
        .transformers
        .iter()
        .find(|t| t.i == 2 && t.j == 3)
        .unwrap();
    assert!(!xf.is_three_winding());
    assert!((value(&xf.x12) - 1.1262e-1).abs() < 1e-12);
    assert_eq!(xf.windings.len(), 2);
    assert_eq!(value(&xf.windings[0].nomv), 138.0);
    assert_eq!(value(&xf.windings[1].nomv), 69.0);
    assert!(xf.windings.iter().all(|w| value(&w.ang).abs() <= 1e-6));
}

#[test]
fn reads_generator_status_past_the_v35_nreg_column() {
    let case = sample();
    let machine = case.generators.iter().find(|g| g.bus == 808).unwrap();
    assert_eq!(machine.status, 1);
    assert!((value(&machine.mbase) - 53.3).abs() < 1e-9);
    assert!((value(&machine.pg) - 48.0).abs() < 1e-9);
    assert!(case.generators.iter().all(|g| matches!(g.status, 0 | 1)));
}

#[test]
fn locates_switched_shunt_binit_by_its_rmidnt_anchor() {
    let case = sample();
    let sh = case.switched_shunts.iter().find(|s| s.bus == 5).unwrap();
    assert_eq!(sh.status, 1);
    assert!((value(&sh.binit) - 61.05).abs() < 1e-9);
}

#[test]
fn reports_sections_it_does_not_read() {
    let case = sample();
    // The sample carries solver settings and a rating record before the bus data.
    assert!(case.skipped.iter().any(|(name, _)| name == "SYSTEM-WIDE"));
    assert!(!case.skipped.iter().any(|(name, _)| name == "BUS"));
}

#[test]
fn the_header_keeps_its_two_comment_lines() {
    let case = sample();
    assert_eq!(case.header.ic, 0);
    assert_eq!(
        case.header.comments,
        vec!["SMALL SAMPLE CASE".to_string(), "FOR THE TESTS".to_string()]
    );
}

#[test]
fn an_unsupported_revision_is_refused() {
    let text = SAMPLE.replacen("100.00, 35,", "100.00, 31,", 1);
    match parse(&text) {
        Err(e) => assert_eq!(e.message(), "unsupported PSS/E revision 31 (supported: 32-35)"),
        Ok(_) => panic!("revision 31 was read"),
    }
}

#[test]
fn a_transformer_cut_short_is_truncated() {
    let cut = SAMPLE
        .split("1.00000,    69.000\n")
        .next()
        .unwrap()
        .to_string();
    let text = cut + "0 / END OF TRANSFORMER DATA, BEGIN AREA DATA\nQ\n";
    match parse(&text) {
        Err(e) => assert!(e.message().contains("file ended in the middle of a transformer record")),
        Ok(_) => panic!("a three-line transformer was read"),
    }
}

#[test]
fn equipment_on_undefined_buses_counts_as_dangling() {
    let text = SAMPLE
        .replace("    3,'1 ',1,   2,   1,    10.000", "  999,'1 ',1,   2,   1,    10.000")
        .replace("    5,'1 ',1,0,1,1.05000", "  998,'1 ',1,0,1,1.05000");
    let net = Network::from_raw(parse(&decode_latin1(text.as_bytes())).unwrap());
    // The records stay in the lists but hang off no bus, and each is counted.
    assert_eq!(net.loads.len(), 1);
    assert_eq!(net.switched_shunts.len(), 1);
    assert!(net.attached(999).is_none());
    assert!(net.attached(3).is_none());
    assert_eq!(net.dangling, 2);
    assert_eq!(sample_net().dangling, 0);
}

#[test]
fn incidence_lists_sum_to_the_terminal_count() {
    let net = sample_net();
    let total: usize = [2, 3, 5, 722, 808].iter().map(|b| net.incident(*b).len()).sum();
    assert_eq!(total, 2 * 3 + 2);
}

#[test]
fn the_search_prefers_nearer_rings_then_upper_rows() {
    let mut diagram = Diagram::default();
    diagram.place(1, 0, 0);
    diagram.place(2, 0, -3);
    // Bus 2 now crowds the top row of ring three, so the first free cell is its bottom row.
    let (gx, gy) = free_cell_near(&diagram, (0, 0));
    assert_eq!((gx, gy), (-3, 3));
}
