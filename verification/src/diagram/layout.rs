//! Where a bus goes when it is brought onto the drawing.
//!
//! Higher voltages go above their neighbour and lower voltages below, which is how a one-line
//! is normally arranged; equal voltages go alongside. From there the search spirals outward
//! until it finds a cell clear of every bus already placed.

use std::collections::BTreeMap;

use vstd::prelude::*;

use super::{ascending_keys, cell_free, placed_keys, BusNode, Diagram, Orientation};
use crate::model::{attached_spec, lemma_equip_at_len, Network};
use crate::psse::raw::{FixedShunt, Generator, Load, SwitchedShunt};

verus! {

/// What a generator, load or shunt is drawn as.
#[derive(Debug, Clone, Copy, PartialEq, Eq, Structural)]
pub enum EquipKind {
    Generator,
    Load,
    Capacitor,
    Reactor,
}

/// Where a bus goes relative to the one it is grown from, by comparing their nominal voltages.
#[derive(Debug, Clone, Copy, PartialEq, Eq, Structural)]
pub enum Tier {
    /// A higher voltage: above.
    Above,
    /// A lower voltage: below.
    Below,
    /// About the same voltage: alongside.
    Alongside,
}

/// The grid offset a tier prefers.
pub open spec fn tier_offset(t: Tier) -> (int, int) {
    match t {
        Tier::Above => (0, -5),
        Tier::Below => (0, 5),
        Tier::Alongside => (8, 0),
    }
}

/// How many rings the search walks out from its starting cell.
pub const SEARCH_RADIUS: i64 = 32;

/// Which ring around the start an offset lies on.
pub open spec fn ring(d: (int, int)) -> int {
    let ax = if d.0 < 0 { -d.0 } else { d.0 };
    let ay = if d.1 < 0 { -d.1 } else { d.1 };
    if ax < ay { ay } else { ax }
}

/// Whether offset `a` is visited before offset `b`: inner rings first, and within a ring, row
/// by row from the top, each row from the left.
pub open spec fn spiral_before(a: (int, int), b: (int, int)) -> bool {
    ||| ring(a) < ring(b)
    ||| ring(a) == ring(b) && a.1 < b.1
    ||| ring(a) == ring(b) && a.1 == b.1 && a.0 < b.0
}

/// Whether offset `d` is within the search.
pub open spec fn in_window(d: (int, int)) -> bool {
    -SEARCH_RADIUS <= d.0 <= SEARCH_RADIUS && -SEARCH_RADIUS <= d.1 <= SEARCH_RADIUS
}

/// Whether the cell at offset `d` from `anchor` is free.
pub open spec fn free_off(placed: Map<i32, BusNode>, anchor: (i32, i32), d: (int, int)) -> bool {
    cell_free(placed, anchor.0 + d.0, anchor.1 + d.1)
}

/// Whether offset `d` from `anchor` is the first free cell of the search.
pub open spec fn first_free(placed: Map<i32, BusNode>, anchor: (i32, i32), d: (int, int)) -> bool {
    &&& in_window(d)
    &&& free_off(placed, anchor, d)
    &&& forall|e: (int, int)|
        in_window(e) && spiral_before(e, d) ==> !#[trigger] free_off(placed, anchor, e)
}

/// The cell the search settles on: the first free one, or the anchor itself when every cell
/// within reach is crowded.
pub open spec fn free_cell_spec(placed: Map<i32, BusNode>, anchor: (i32, i32)) -> (i32, i32) {
    if exists|d: (int, int)| first_free(placed, anchor, d) {
        let d = choose|d: (int, int)| first_free(placed, anchor, d);
        ((anchor.0 + d.0) as i32, (anchor.1 + d.1) as i32)
    } else {
        anchor
    }
}

/// Whether a column leaves room for a search started up to eight cells to its right.
pub open spec fn roomy_x(v: int) -> bool {
    i32::MIN + SEARCH_RADIUS <= v <= i32::MAX - SEARCH_RADIUS - 8
}

/// Whether a row leaves room for a search started up to five cells above or below it.
pub open spec fn roomy_y(v: int) -> bool {
    i32::MIN + SEARCH_RADIUS + 5 <= v <= i32::MAX - SEARCH_RADIUS - 5
}

/// The node a search starts from: the bus grown from, or the origin when it is not placed.
pub open spec fn parent_node(placed: Map<i32, BusNode>, from: i32) -> BusNode {
    if placed.contains_key(from) {
        placed[from]
    } else {
        BusNode { gx: 0, gy: 0, orient: Orientation::Horizontal }
    }
}

/// Where the search for a bus grown from `from` starts.
pub open spec fn slot_anchor(placed: Map<i32, BusNode>, from: i32, tier: Tier) -> (i32, i32) {
    let p = parent_node(placed, from);
    ((p.gx + tier_offset(tier).0) as i32, (p.gy + tier_offset(tier).1) as i32)
}

/// Where a bus grown from `from` is placed.
pub open spec fn slot_spec(placed: Map<i32, BusNode>, from: i32, tier: Tier) -> (i32, i32) {
    free_cell_spec(placed, slot_anchor(placed, from, tier))
}

proof fn lemma_spiral_total(a: (int, int), b: (int, int))
    requires
        a != b,
    ensures
        spiral_before(a, b) || spiral_before(b, a),
{
}

proof fn lemma_first_free_unique(placed: Map<i32, BusNode>, anchor: (i32, i32), d: (int, int))
    requires
        first_free(placed, anchor, d),
    ensures
        free_cell_spec(placed, anchor) == ((anchor.0 + d.0) as i32, (anchor.1 + d.1) as i32),
{
    let c = choose|c: (int, int)| first_free(placed, anchor, c);
    if c != d {
        lemma_spiral_total(c, d);
        if spiral_before(c, d) {
            assert(!free_off(placed, anchor, c));
        } else {
            assert(!free_off(placed, anchor, d));
        }
    }
}

/// The nodes on the drawing, one per placed bus.
fn placed_nodes(placed: &BTreeMap<i32, BusNode>) -> (nodes: Vec<BusNode>)
    ensures
        forall|b: i32| #[trigger] placed@.contains_key(b) ==> nodes@.contains(placed@[b]),
        forall|i: int| 0 <= i < nodes@.len() ==> placed@.values().contains(#[trigger] nodes@[i]),
{
    let keys = placed_keys(placed);
    let mut nodes: Vec<BusNode> = Vec::new();
    let mut k: usize = 0;
    while k < keys.len()
        invariant
            k <= keys@.len(),
            keys@.to_set() == placed@.dom(),
            nodes@.len() == k,
            forall|i: int|
                0 <= i < k ==> placed@.contains_key(keys@[i]) && nodes@[i] == placed@[#[trigger] keys@[i]],
        decreases keys@.len() - k,
    {
        let node = match placed.get(&keys[k]) {
            Some(n) => *n,
            None => BusNode { gx: 0, gy: 0, orient: Orientation::Horizontal },
        };
        proof {
            assert(keys@.to_set().contains(keys@[k as int]));
        }
        nodes.push(node);
        k = k + 1;
    }
    proof {
        assert forall|b: i32| #[trigger] placed@.contains_key(b) implies nodes@.contains(placed@[b]) by {
            assert(keys@.to_set().contains(b));
            let i = choose|i: int| 0 <= i < keys@.len() && keys@[i] == b;
            assert(nodes@[i] == placed@[b]);
        }
        assert forall|i: int| 0 <= i < nodes@.len() implies placed@.values().contains(#[trigger] nodes@[i]) by {
            assert(placed@.contains_key(keys@[i]));
            assert(placed@[keys@[i]] == nodes@[i]);
        }
    }
    nodes
}

/// Whether no node of `nodes` crowds (`gx`, `gy`).
fn clear_of(nodes: &Vec<BusNode>, gx: i64, gy: i64) -> (r: bool)
    requires
        -0x1_0000_0000 <= gx <= 0x1_0000_0000,
        -0x1_0000_0000 <= gy <= 0x1_0000_0000,
    ensures
        r == forall|i: int|
            0 <= i < nodes@.len() ==> {
                let n = #[trigger] nodes@[i];
                ||| n.gx - gx >= 7
                ||| gx - n.gx >= 7
                ||| n.gy - gy >= 3
                ||| gy - n.gy >= 3
            },
{
    let mut i: usize = 0;
    while i < nodes.len()
        invariant
            i <= nodes@.len(),
            -0x1_0000_0000 <= gx <= 0x1_0000_0000,
            -0x1_0000_0000 <= gy <= 0x1_0000_0000,
            forall|m: int|
                0 <= m < i ==> {
                    let n = #[trigger] nodes@[m];
                    ||| n.gx - gx >= 7
                    ||| gx - n.gx >= 7
                    ||| n.gy - gy >= 3
                    ||| gy - n.gy >= 3
                },
        decreases nodes@.len() - i,
    {
        let n = nodes[i];
        let ddx: i64 = n.gx as i64 - gx;
        let ddy: i64 = n.gy as i64 - gy;
        let wide = ddx >= 7 || ddx <= -7;
        let tall = ddy >= 3 || ddy <= -3;
        if !(wide || tall) {
            return false;
        }
        i = i + 1;
    }
    true
}


proof fn lemma_clear_is_free(placed: Map<i32, BusNode>, nodes: Seq<BusNode>, gx: int, gy: int)
    requires
        forall|b: i32| #[trigger] placed.contains_key(b) ==> nodes.contains(placed[b]),
        forall|i: int| 0 <= i < nodes.len() ==> placed.values().contains(#[trigger] nodes[i]),
    ensures
        cell_free(placed, gx, gy) == forall|i: int|
            0 <= i < nodes.len() ==> {
                let n = #[trigger] nodes[i];
                ||| n.gx - gx >= 7
                ||| gx - n.gx >= 7
                ||| n.gy - gy >= 3
                ||| gy - n.gy >= 3
            },
{
    if cell_free(placed, gx, gy) {
        assert forall|i: int| 0 <= i < nodes.len() implies {
            let n = #[trigger] nodes[i];
            ||| n.gx - gx >= 7
            ||| gx - n.gx >= 7
            ||| n.gy - gy >= 3
            ||| gy - n.gy >= 3
        } by {
            assert(placed.values().contains(nodes[i]));
            let b = choose|b: i32| #[trigger] placed.contains_key(b) && placed[b] == nodes[i];
            assert(placed.contains_key(b));
        }
    }
    if forall|i: int|
        0 <= i < nodes.len() ==> {
            let n = #[trigger] nodes[i];
            ||| n.gx - gx >= 7
            ||| gx - n.gx >= 7
            ||| n.gy - gy >= 3
            ||| gy - n.gy >= 3
        } {
        assert forall|b: i32| #[trigger] placed.contains_key(b) implies {
            let n = placed[b];
            ||| n.gx - gx >= 7
            ||| gx - n.gx >= 7
            ||| n.gy - gy >= 3
            ||| gy - n.gy >= 3
        } by {
            assert(nodes.contains(placed[b]));
            let i = choose|i: int| 0 <= i < nodes.len() && nodes[i] == placed[b];
            assert(nodes[i] == placed[b]);
        }
    }
}

/// The nearest grid cell to `anchor` that no placed bus is already crowding.
///
/// The search visits the rings around `anchor` from the inside out, each ring row by row from
/// the top and each row from the left, and settles on the first free cell; where every cell
/// within reach is crowded it gives `anchor` back.
pub fn free_cell_near(diagram: &Diagram, anchor: (i32, i32)) -> (cell: (i32, i32))
    requires
        i32::MIN + SEARCH_RADIUS <= anchor.0 <= i32::MAX - SEARCH_RADIUS,
        i32::MIN + SEARCH_RADIUS <= anchor.1 <= i32::MAX - SEARCH_RADIUS,
    ensures
        cell == free_cell_spec(diagram.placed@, anchor),
        in_window((cell.0 - anchor.0, cell.1 - anchor.1)),
        (exists|d: (int, int)| in_window(d) && #[trigger] free_off(diagram.placed@, anchor, d))
            ==> cell_free(diagram.placed@, cell.0 as int, cell.1 as int),
{
    let ghost placed = diagram.placed@;
    let nodes = placed_nodes(&diagram.placed);
    let mut radius: i64 = 0;
    while radius <= SEARCH_RADIUS
        invariant
            placed == diagram.placed@,
            0 <= radius <= SEARCH_RADIUS + 1,
            i32::MIN + SEARCH_RADIUS <= anchor.0 <= i32::MAX - SEARCH_RADIUS,
            i32::MIN + SEARCH_RADIUS <= anchor.1 <= i32::MAX - SEARCH_RADIUS,
            forall|b: i32| #[trigger] placed.contains_key(b) ==> nodes@.contains(placed[b]),
            forall|i: int| 0 <= i < nodes@.len() ==> placed.values().contains(#[trigger] nodes@[i]),
            forall|e: (int, int)|
                in_window(e) && ring(e) < radius ==> !#[trigger] free_off(placed, anchor, e),
        decreases SEARCH_RADIUS + 1 - radius,
    {
        let mut dy: i64 = -radius;
        while dy <= radius
            invariant
                placed == diagram.placed@,
                0 <= radius <= SEARCH_RADIUS,
                -radius <= dy <= radius + 1,
                i32::MIN + SEARCH_RADIUS <= anchor.0 <= i32::MAX - SEARCH_RADIUS,
                i32::MIN + SEARCH_RADIUS <= anchor.1 <= i32::MAX - SEARCH_RADIUS,
                forall|b: i32| #[trigger] placed.contains_key(b) ==> nodes@.contains(placed[b]),
                forall|i: int| 0 <= i < nodes@.len() ==> placed.values().contains(#[trigger] nodes@[i]),
                forall|e: (int, int)|
                    in_window(e) && (ring(e) < radius || (ring(e) == radius && e.1 < dy))
                        ==> !#[trigger] free_off(placed, anchor, e),
            decreases radius + 1 - dy,
        {
            let mut dx: i64 = -radius;
            while dx <= radius
                invariant
                    placed == diagram.placed@,
                    0 <= radius <= SEARCH_RADIUS,
                    -radius <= dy <= radius,
                    -radius <= dx <= radius + 1,
                    i32::MIN + SEARCH_RADIUS <= anchor.0 <= i32::MAX - SEARCH_RADIUS,
                    i32::MIN + SEARCH_RADIUS <= anchor.1 <= i32::MAX - SEARCH_RADIUS,
                    forall|b: i32| #[trigger] placed.contains_key(b) ==> nodes@.contains(placed[b]),
                    forall|i: int| 0 <= i < nodes@.len() ==> placed.values().contains(#[trigger] nodes@[i]),
                    forall|e: (int, int)|
                        in_window(e) && (ring(e) < radius || (ring(e) == radius && (e.1 < dy || (e.1
                            == dy && e.0 < dx)))) ==> !#[trigger] free_off(placed, anchor, e),
                decreases radius + 1 - dx,
            {
                let ax: i64 = if dx < 0 { -dx } else { dx };
                let ay: i64 = if dy < 0 { -dy } else { dy };
                let r: i64 = if ax < ay { ay } else { ax };
                if r == radius {
                    let gx: i64 = anchor.0 as i64 + dx;
                    let gy: i64 = anchor.1 as i64 + dy;
                    let clear = clear_of(&nodes, gx, gy);
                    proof {
                        lemma_clear_is_free(placed, nodes@, gx as int, gy as int);
                        assert(ring((dx as int, dy as int)) == radius);
                    }
                    if clear {
                        proof {
                            let d = (dx as int, dy as int);
                            assert(free_off(placed, anchor, d));
                            assert forall|e: (int, int)|
                                in_window(e) && spiral_before(e, d) implies !#[trigger] free_off(
                                    placed,
                                    anchor,
                                    e,
                                ) by {}
                            assert(first_free(placed, anchor, d));
                            lemma_first_free_unique(placed, anchor, d);
                        }
                        return (gx as i32, gy as i32);
                    }
                }
                dx = dx + 1;
            }
            dy = dy + 1;
        }
        radius = radius + 1;
    }
    proof {
        assert forall|e: (int, int)| in_window(e) implies !#[trigger] free_off(placed, anchor, e) by {
            assert(ring(e) <= SEARCH_RADIUS);
        }
        if exists|d: (int, int)| first_free(placed, anchor, d) {
            let d = choose|d: (int, int)| first_free(placed, anchor, d);
            assert(free_off(placed, anchor, d));
        }
    }
    anchor
}


/// Whether the bus to grow from, if it is on the drawing, leaves room for a search around it.
pub open spec fn parent_roomy(placed: Map<i32, BusNode>, from: i32) -> bool {
    placed.contains_key(from) ==> roomy_x(placed[from].gx as int) && roomy_y(placed[from].gy as int)
}

/// Somewhere to put a bus that is being brought onto the drawing next to `from`, on the side
/// `tier` asks for, which the caller reads off the two buses' nominal voltages.
pub fn find_free_slot(diagram: &Diagram, from: i32, tier: Tier) -> (cell: (i32, i32))
    requires
        parent_roomy(diagram.placed@, from),
    ensures
        cell == slot_spec(diagram.placed@, from, tier),
{
    let parent = match diagram.placed.get(&from) {
        Some(n) => *n,
        None => BusNode { gx: 0, gy: 0, orient: Orientation::Horizontal },
    };
    let preferred: (i32, i32) = match tier {
        Tier::Above => (0, -5),
        Tier::Below => (0, 5),
        Tier::Alongside => (8, 0),
    };
    free_cell_near(diagram, (parent.gx + preferred.0, parent.gy + preferred.1))
}


proof fn lemma_spiral_measure(a: (int, int), b: (int, int))
    requires
        in_window(a),
        in_window(b),
        spiral_before(a, b),
    ensures
        ring(a) * 100000 + (a.1 + 100) * 200 + (a.0 + 100) < ring(b) * 100000 + (b.1 + 100) * 200 + (
        b.0 + 100),
{
}

proof fn lemma_first_free_exists(placed: Map<i32, BusNode>, anchor: (i32, i32), d: (int, int))
    requires
        in_window(d),
        free_off(placed, anchor, d),
    ensures
        exists|e: (int, int)| first_free(placed, anchor, e),
    decreases ring(d) * 100000 + (d.1 + 100) * 200 + (d.0 + 100),
{
    if !first_free(placed, anchor, d) {
        let e = choose|e: (int, int)|
            in_window(e) && spiral_before(e, d) && #[trigger] free_off(placed, anchor, e);
        lemma_spiral_measure(e, d);
        lemma_first_free_exists(placed, anchor, e);
    }
}

/// Where a search settles lies within its reach, and when any cell within reach is free the
/// one it settles on is free.
pub proof fn lemma_free_cell_found(placed: Map<i32, BusNode>, anchor: (i32, i32), d: (int, int))
    requires
        i32::MIN + SEARCH_RADIUS <= anchor.0 <= i32::MAX - SEARCH_RADIUS,
        i32::MIN + SEARCH_RADIUS <= anchor.1 <= i32::MAX - SEARCH_RADIUS,
    ensures
        in_window(
            (
                free_cell_spec(placed, anchor).0 - anchor.0,
                free_cell_spec(placed, anchor).1 - anchor.1,
            ),
        ),
        in_window(d) && free_off(placed, anchor, d) ==> cell_free(
            placed,
            free_cell_spec(placed, anchor).0 as int,
            free_cell_spec(placed, anchor).1 as int,
        ),
{
    if exists|e: (int, int)| first_free(placed, anchor, e) {
        let e = choose|e: (int, int)| first_free(placed, anchor, e);
        assert(free_off(placed, anchor, e));
    }
    if in_window(d) && free_off(placed, anchor, d) {
        lemma_first_free_exists(placed, anchor, d);
    }
}


/// Which equipment list an item comes from, and its index there.
#[derive(Debug, Clone, Copy, PartialEq, Eq, Structural)]
pub enum EquipSource {
    Generator(usize),
    Load(usize),
    FixedShunt(usize),
    SwitchedShunt(usize),
}

/// A generator, load or shunt hanging off a bus on the drawing.
#[derive(Debug, Clone, Copy, PartialEq, Eq, Structural)]
pub struct Equipment {
    pub bus: i32,
    pub source: EquipSource,
    pub in_service: bool,
}

/// The generators `idx` of `g`, hanging off `bus`.
pub open spec fn generator_items(bus: i32, g: Seq<Generator>, idx: Seq<usize>) -> Seq<Equipment> {
    idx.map_values(
        |i: usize| Equipment { bus, source: EquipSource::Generator(i), in_service: g[i as int].status != 0 },
    )
}

pub open spec fn load_items(bus: i32, l: Seq<Load>, idx: Seq<usize>) -> Seq<Equipment> {
    idx.map_values(
        |i: usize| Equipment { bus, source: EquipSource::Load(i), in_service: l[i as int].status != 0 },
    )
}

pub open spec fn fixed_shunt_items(bus: i32, f: Seq<FixedShunt>, idx: Seq<usize>) -> Seq<Equipment> {
    idx.map_values(
        |i: usize| Equipment { bus, source: EquipSource::FixedShunt(i), in_service: f[i as int].status != 0 },
    )
}

pub open spec fn switched_shunt_items(bus: i32, s: Seq<SwitchedShunt>, idx: Seq<usize>) -> Seq<Equipment> {
    idx.map_values(
        |i: usize| Equipment {
            bus,
            source: EquipSource::SwitchedShunt(i),
            in_service: s[i as int].status != 0,
        },
    )
}

/// The equipment hanging off `bus`: its generators, then loads, fixed and switched shunts.
pub open spec fn bus_equipment(net: Network, bus: i32) -> Seq<Equipment> {
    match attached_spec(
        net.buses@.dom(),
        net.generators@,
        net.loads@,
        net.fixed_shunts@,
        net.switched_shunts@,
        bus,
    ) {
        Some(a) => generator_items(bus, net.generators@, a.generators) + load_items(
            bus,
            net.loads@,
            a.loads,
        ) + fixed_shunt_items(bus, net.fixed_shunts@, a.fixed_shunts) + switched_shunt_items(
            bus,
            net.switched_shunts@,
            a.switched_shunts,
        ),
        None => Seq::empty(),
    }
}

/// The equipment hanging off each bus of `buses` in turn.
pub open spec fn equipment_along(net: Network, buses: Seq<i32>) -> Seq<Equipment>
    decreases buses.len(),
{
    if buses.len() == 0 {
        Seq::empty()
    } else {
        equipment_along(net, buses.drop_last()) + bus_equipment(net, buses.last())
    }
}

/// The generators, loads and shunts on the buses of the drawing, bus by bus in ascending
/// order; none when equipment is not shown.
pub fn collect_equipment(net: &Network, diagram: &Diagram, show: bool) -> (out: Vec<Equipment>)
    requires
        net.wf(),
    ensures
        out@ == if show {
            equipment_along(*net, ascending_keys(diagram.placed@.dom()))
        } else {
            Seq::empty()
        },
        forall|e: Equipment|
            #[trigger] out@.contains(e) <==> show && diagram.placed@.contains_key(e.bus)
                && equipment_item(*net, e),
        forall|i: int, j: int| 0 <= i < j < out@.len() ==> listed_before(#[trigger] out@[i], #[trigger] out@[j]),
{
    let mut out: Vec<Equipment> = Vec::new();
    if !show {
        return out;
    }
    let keys = placed_keys(&diagram.placed);
    let ng = net.generators.len();
    let nl = net.loads.len();
    let nf = net.fixed_shunts.len();
    let ns = net.switched_shunts.len();
    let mut m: usize = 0;
    while m < keys.len()
        invariant
            net.wf(),
            m <= keys@.len(),
            ng == net.generators@.len(),
            nl == net.loads@.len(),
            nf == net.fixed_shunts@.len(),
            ns == net.switched_shunts@.len(),
            out@ == equipment_along(*net, keys@.take(m as int)),
        decreases keys@.len() - m,
    {
        let bus = keys[m];
        proof {
            assert(keys@.take(m + 1).drop_last() =~= keys@.take(m as int));
        }
        match net.attached(bus) {
            None => {},
            Some(a) => {
                let ghost base = out@;
                proof {
                    lemma_equip_at_len(crate::model::generator_buses(net.generators@), ng as nat, bus);
                    lemma_equip_at_len(crate::model::load_buses(net.loads@), nl as nat, bus);
                    lemma_equip_at_len(crate::model::fixed_shunt_buses(net.fixed_shunts@), nf as nat, bus);
                    lemma_equip_at_len(crate::model::switched_shunt_buses(net.switched_shunts@), ns as nat, bus);
                }
                let mut k: usize = 0;
                while k < a.generators.len()
                    invariant
                        k <= a.generators@.len(),
                        forall|j: int| 0 <= j < a.generators@.len() ==> #[trigger] a.generators@[j] < ng,
                        ng == net.generators@.len(),
                        out@ =~= base + generator_items(bus, net.generators@, a.generators@.take(k as int)),
                    decreases a.generators@.len() - k,
                {
                    let i = a.generators[k];
                    out.push(Equipment { bus, source: EquipSource::Generator(i), in_service: net.generators[i].status != 0 });
                    k = k + 1;
                }
                proof {
                    assert(a.generators@.take(a.generators@.len() as int) =~= a.generators@);
                }
                let ghost base = out@;
                let mut k: usize = 0;
                while k < a.loads.len()
                    invariant
                        k <= a.loads@.len(),
                        forall|j: int| 0 <= j < a.loads@.len() ==> #[trigger] a.loads@[j] < nl,
                        nl == net.loads@.len(),
                        out@ =~= base + load_items(bus, net.loads@, a.loads@.take(k as int)),
                    decreases a.loads@.len() - k,
                {
                    let i = a.loads[k];
                    out.push(Equipment { bus, source: EquipSource::Load(i), in_service: net.loads[i].status != 0 });
                    k = k + 1;
                }
                proof {
                    assert(a.loads@.take(a.loads@.len() as int) =~= a.loads@);
                }
                let ghost base = out@;
                let mut k: usize = 0;
                while k < a.fixed_shunts.len()
                    invariant
                        k <= a.fixed_shunts@.len(),
                        forall|j: int| 0 <= j < a.fixed_shunts@.len() ==> #[trigger] a.fixed_shunts@[j] < nf,
                        nf == net.fixed_shunts@.len(),
                        out@ =~= base + fixed_shunt_items(bus, net.fixed_shunts@, a.fixed_shunts@.take(k as int)),
                    decreases a.fixed_shunts@.len() - k,
                {
                    let i = a.fixed_shunts[k];
                    out.push(Equipment { bus, source: EquipSource::FixedShunt(i), in_service: net.fixed_shunts[i].status != 0 });
                    k = k + 1;
                }
                proof {
                    assert(a.fixed_shunts@.take(a.fixed_shunts@.len() as int) =~= a.fixed_shunts@);
                }
                let ghost base = out@;
                let mut k: usize = 0;
                while k < a.switched_shunts.len()
                    invariant
                        k <= a.switched_shunts@.len(),
                        forall|j: int| 0 <= j < a.switched_shunts@.len() ==> #[trigger] a.switched_shunts@[j] < ns,
                        ns == net.switched_shunts@.len(),
                        out@ =~= base + switched_shunt_items(bus, net.switched_shunts@, a.switched_shunts@.take(k as int)),
                    decreases a.switched_shunts@.len() - k,
                {
                    let i = a.switched_shunts[k];
                    out.push(Equipment { bus, source: EquipSource::SwitchedShunt(i), in_service: net.switched_shunts[i].status != 0 });
                    k = k + 1;
                }
                proof {
                    assert(a.switched_shunts@.take(a.switched_shunts@.len() as int) =~= a.switched_shunts@);
                }
            },
        }
        m = m + 1;
    }
    proof {
        assert(keys@.take(keys@.len() as int) =~= keys@);
        assert forall|e: Equipment|
            #[trigger] out@.contains(e) <==> show && diagram.placed@.contains_key(e.bus)
                && equipment_item(*net, e) by {
            lemma_equipment_along_members(*net, keys@, e);
            assert(keys@.to_set().contains(e.bus) <==> keys@.contains(e.bus));
        }
        lemma_equipment_along_ordered(*net, keys@);
    }
    out
}


/// How many grid cells a bus bar runs, given how many connections leave each of its sides:
/// one more than the busier side, at least two and at most twenty-four, so a bar is long
/// enough to carry its connections.
pub fn bar_span(side_a: usize, side_b: usize) -> (span: u32)
    ensures
        span == bar_span_spec(side_a, side_b),
{
    let busier = if side_a < side_b { side_b } else { side_a };
    if busier >= 23 {
        24
    } else if busier < 1 {
        2
    } else {
        (busier + 1) as u32
    }
}

/// A busier bar is never shorter.
pub proof fn lemma_bar_span_monotone(a1: usize, b1: usize, a2: usize, b2: usize)
    requires
        a1 <= a2,
        b1 <= b2,
    ensures
        bar_span_spec(a1, b1) <= bar_span_spec(a2, b2),
{
}

/// The span [`bar_span`] gives.
pub open spec fn bar_span_spec(side_a: usize, side_b: usize) -> int {
    let busier: int = if side_a < side_b { side_b as int } else { side_a as int };
    if busier + 1 < 2 { 2 } else if busier + 1 > 24 { 24 } else { busier + 1 }
}


/// The search settles on the nearest free cell: no free cell within reach lies on a nearer
/// ring around the anchor, and on the same ring none comes on an earlier row, or earlier in
/// the same row.
pub proof fn lemma_free_cell_nearest(placed: Map<i32, BusNode>, anchor: (i32, i32), c: (int, int))
    requires
        i32::MIN + SEARCH_RADIUS <= anchor.0 <= i32::MAX - SEARCH_RADIUS,
        i32::MIN + SEARCH_RADIUS <= anchor.1 <= i32::MAX - SEARCH_RADIUS,
        in_window(c),
        free_off(placed, anchor, c),
    ensures
        ({
            let r = free_cell_spec(placed, anchor);
            let d = (r.0 - anchor.0, r.1 - anchor.1);
            &&& in_window(d)
            &&& free_off(placed, anchor, d)
            &&& ring(d) <= ring(c)
            &&& ring(d) == ring(c) ==> d.1 < c.1 || (d.1 == c.1 && d.0 <= c.0)
        }),
{
    lemma_first_free_exists(placed, anchor, c);
    let e = choose|e: (int, int)| first_free(placed, anchor, e);
    assert(free_cell_spec(placed, anchor) == ((anchor.0 + e.0) as i32, (anchor.1 + e.1) as i32));
    if c != e {
        lemma_spiral_total(c, e);
        if spiral_before(c, e) {
            assert(!free_off(placed, anchor, c));
        }
    }
}

/// When every cell within reach is crowded the search gives its anchor back.
pub proof fn lemma_crowded_keeps_anchor(placed: Map<i32, BusNode>, anchor: (i32, i32))
    requires
        forall|c: (int, int)| in_window(c) ==> !#[trigger] free_off(placed, anchor, c),
    ensures
        free_cell_spec(placed, anchor) == anchor,
{
    if exists|e: (int, int)| first_free(placed, anchor, e) {
        let e = choose|e: (int, int)| first_free(placed, anchor, e);
        assert(free_off(placed, anchor, e));
    }
}


/// The search starts at the anchor: when that cell is free, it is the one chosen.
pub proof fn lemma_free_anchor_chosen(placed: Map<i32, BusNode>, anchor: (i32, i32))
    requires
        free_off(placed, anchor, (0, 0)),
    ensures
        free_cell_spec(placed, anchor) == anchor,
{
    assert forall|e: (int, int)| in_window(e) && spiral_before(e, (0int, 0int)) implies !#[trigger] free_off(
        placed,
        anchor,
        e,
    ) by {
        assert(ring(e) >= 0);
    }
    assert(first_free(placed, anchor, (0, 0)));
    lemma_first_free_unique(placed, anchor, (0, 0));
}

/// Where a grown bus is looked for: a higher voltage five rows above the bus it grows from,
/// a lower one five rows below, an equal one eight columns to the right; and when that cell is
/// free, that is where it goes.
pub proof fn lemma_slot_by_tier(placed: Map<i32, BusNode>, from: i32, tier: Tier)
    requires
        parent_roomy(placed, from),
    ensures
        ({
            let p = parent_node(placed, from);
            let a = slot_anchor(placed, from, tier);
            &&& tier == Tier::Above ==> a.0 == p.gx && a.1 == p.gy - 5
            &&& tier == Tier::Below ==> a.0 == p.gx && a.1 == p.gy + 5
            &&& tier == Tier::Alongside ==> a.0 == p.gx + 8 && a.1 == p.gy
            &&& free_off(placed, a, (0, 0)) ==> slot_spec(placed, from, tier) == a
        }),
{
    let a = slot_anchor(placed, from, tier);
    if free_off(placed, a, (0, 0)) {
        lemma_free_anchor_chosen(placed, a);
    }
}


/// Whether `e` is a piece of equipment of `net` hanging off a bus of the case: its source
/// names an existing generator, load or shunt on `e.bus`, and `in_service` reads its status.
pub open spec fn equipment_item(net: Network, e: Equipment) -> bool {
    &&& net.buses@.dom().contains(e.bus)
    &&& match e.source {
        EquipSource::Generator(i) => i < net.generators@.len() && net.generators@[i as int].bus == e.bus && e.in_service
            == (net.generators@[i as int].status != 0),
        EquipSource::Load(i) => i < net.loads@.len() && net.loads@[i as int].bus == e.bus && e.in_service
            == (net.loads@[i as int].status != 0),
        EquipSource::FixedShunt(i) => i < net.fixed_shunts@.len() && net.fixed_shunts@[i as int].bus == e.bus && e.in_service
            == (net.fixed_shunts@[i as int].status != 0),
        EquipSource::SwitchedShunt(i) => i < net.switched_shunts@.len() && net.switched_shunts@[i as int].bus == e.bus && e.in_service
            == (net.switched_shunts@[i as int].status != 0),
    }
}

proof fn lemma_generator_items(net: Network, b: i32, e: Equipment)
    requires
        net.generators@.len() <= usize::MAX,
    ensures
        generator_items(b, net.generators@, crate::model::equip_at(crate::model::generator_buses(net.generators@), net.generators@.len(), b)).contains(e)
            <==> e.bus == b && e.source is Generator && (match e.source {
                EquipSource::Generator(i) => i < net.generators@.len() && net.generators@[i as int].bus == b
                    && e.in_service == (net.generators@[i as int].status != 0),
                _ => false,
            }),
{
    let g = net.generators@;
    let gb = crate::model::generator_buses(g);
    let idx = crate::model::equip_at(gb, g.len(), b);
    let items = generator_items(b, g, idx);
    crate::model::lemma_equipment_filed_by_bus(gb, b);
    if items.contains(e) {
        let k = choose|k: int| 0 <= k < items.len() && items[k] == e;
        assert(idx.contains(idx[k]));
        assert(gb.len() == g.len());
        assert(idx[k] < gb.len() && gb[idx[k] as int] == b);
        assert(gb[idx[k] as int] == g[idx[k] as int].bus);
    }
    match e.source {
        EquipSource::Generator(i) => {
            if e.bus == b && i < g.len() && g[i as int].bus == b && e.in_service == (g[i as int].status
                != 0) {
                assert(gb.len() == g.len());
                assert(gb[i as int] == b);
                assert(idx.contains(i));
                let k = choose|k: int| 0 <= k < idx.len() && idx[k] == i;
                assert(items[k] == e);
            }
        },
        _ => {},
    }
}

proof fn lemma_load_items(net: Network, b: i32, e: Equipment)
    requires
        net.loads@.len() <= usize::MAX,
    ensures
        load_items(b, net.loads@, crate::model::equip_at(crate::model::load_buses(net.loads@), net.loads@.len(), b)).contains(e)
            <==> e.bus == b && e.source is Load && (match e.source {
                EquipSource::Load(i) => i < net.loads@.len() && net.loads@[i as int].bus == b
                    && e.in_service == (net.loads@[i as int].status != 0),
                _ => false,
            }),
{
    let g = net.loads@;
    let gb = crate::model::load_buses(g);
    let idx = crate::model::equip_at(gb, g.len(), b);
    let items = load_items(b, g, idx);
    crate::model::lemma_equipment_filed_by_bus(gb, b);
    if items.contains(e) {
        let k = choose|k: int| 0 <= k < items.len() && items[k] == e;
        assert(idx.contains(idx[k]));
        assert(gb.len() == g.len());
        assert(idx[k] < gb.len() && gb[idx[k] as int] == b);
        assert(gb[idx[k] as int] == g[idx[k] as int].bus);
    }
    match e.source {
        EquipSource::Load(i) => {
            if e.bus == b && i < g.len() && g[i as int].bus == b && e.in_service == (g[i as int].status
                != 0) {
                assert(gb.len() == g.len());
                assert(gb[i as int] == b);
                assert(idx.contains(i));
                let k = choose|k: int| 0 <= k < idx.len() && idx[k] == i;
                assert(items[k] == e);
            }
        },
        _ => {},
    }
}

proof fn lemma_fixed_shunt_items(net: Network, b: i32, e: Equipment)
    requires
        net.fixed_shunts@.len() <= usize::MAX,
    ensures
        fixed_shunt_items(b, net.fixed_shunts@, crate::model::equip_at(crate::model::fixed_shunt_buses(net.fixed_shunts@), net.fixed_shunts@.len(), b)).contains(e)
            <==> e.bus == b && e.source is FixedShunt && (match e.source {
                EquipSource::FixedShunt(i) => i < net.fixed_shunts@.len() && net.fixed_shunts@[i as int].bus == b
                    && e.in_service == (net.fixed_shunts@[i as int].status != 0),
                _ => false,
            }),
{
    let g = net.fixed_shunts@;
    let gb = crate::model::fixed_shunt_buses(g);
    let idx = crate::model::equip_at(gb, g.len(), b);
    let items = fixed_shunt_items(b, g, idx);
    crate::model::lemma_equipment_filed_by_bus(gb, b);
    if items.contains(e) {
        let k = choose|k: int| 0 <= k < items.len() && items[k] == e;
        assert(idx.contains(idx[k]));
        assert(gb.len() == g.len());
        assert(idx[k] < gb.len() && gb[idx[k] as int] == b);
        assert(gb[idx[k] as int] == g[idx[k] as int].bus);
    }
    match e.source {
        EquipSource::FixedShunt(i) => {
            if e.bus == b && i < g.len() && g[i as int].bus == b && e.in_service == (g[i as int].status
                != 0) {
                assert(gb.len() == g.len());
                assert(gb[i as int] == b);
                assert(idx.contains(i));
                let k = choose|k: int| 0 <= k < idx.len() && idx[k] == i;
                assert(items[k] == e);
            }
        },
        _ => {},
    }
}

proof fn lemma_switched_shunt_items(net: Network, b: i32, e: Equipment)
    requires
        net.switched_shunts@.len() <= usize::MAX,
    ensures
        switched_shunt_items(b, net.switched_shunts@, crate::model::equip_at(crate::model::switched_shunt_buses(net.switched_shunts@), net.switched_shunts@.len(), b)).contains(e)
            <==> e.bus == b && e.source is SwitchedShunt && (match e.source {
                EquipSource::SwitchedShunt(i) => i < net.switched_shunts@.len() && net.switched_shunts@[i as int].bus == b
                    && e.in_service == (net.switched_shunts@[i as int].status != 0),
                _ => false,
            }),
{
    let g = net.switched_shunts@;
    let gb = crate::model::switched_shunt_buses(g);
    let idx = crate::model::equip_at(gb, g.len(), b);
    let items = switched_shunt_items(b, g, idx);
    crate::model::lemma_equipment_filed_by_bus(gb, b);
    if items.contains(e) {
        let k = choose|k: int| 0 <= k < items.len() && items[k] == e;
        assert(idx.contains(idx[k]));
        assert(gb.len() == g.len());
        assert(idx[k] < gb.len() && gb[idx[k] as int] == b);
        assert(gb[idx[k] as int] == g[idx[k] as int].bus);
    }
    match e.source {
        EquipSource::SwitchedShunt(i) => {
            if e.bus == b && i < g.len() && g[i as int].bus == b && e.in_service == (g[i as int].status
                != 0) {
                assert(gb.len() == g.len());
                assert(gb[i as int] == b);
                assert(idx.contains(i));
                let k = choose|k: int| 0 <= k < idx.len() && idx[k] == i;
                assert(items[k] == e);
            }
        },
        _ => {},
    }
}

/// Listing the equipment of a run of buses lists exactly the generators, loads and shunts of
/// the case that hang off one of them, each with its in-service status.
pub proof fn lemma_equipment_along_members(net: Network, buses: Seq<i32>, e: Equipment)
    requires
        net.generators@.len() <= usize::MAX,
        net.loads@.len() <= usize::MAX,
        net.fixed_shunts@.len() <= usize::MAX,
        net.switched_shunts@.len() <= usize::MAX,
    ensures
        equipment_along(net, buses).contains(e) <==> buses.contains(e.bus) && equipment_item(net, e),
    decreases buses.len(),
{
    if buses.len() > 0 {
        let rest = buses.drop_last();
        let b = buses.last();
        lemma_equipment_along_members(net, rest, e);
        lemma_bus_equipment_members(net, b, e);
        let all = equipment_along(net, buses);
        let here = bus_equipment(net, b);
        let before = equipment_along(net, rest);
        assert(all == before + here);
        if all.contains(e) {
            let k = choose|k: int| 0 <= k < all.len() && all[k] == e;
            if k < before.len() {
                assert(before[k] == e);
            } else {
                assert(here[k - before.len()] == e);
            }
        }
        if before.contains(e) {
            let k = choose|k: int| 0 <= k < before.len() && before[k] == e;
            assert(all[k] == e);
        }
        if here.contains(e) {
            let k = choose|k: int| 0 <= k < here.len() && here[k] == e;
            assert(all[before.len() + k] == e);
        }
        if buses.contains(e.bus) && e.bus != b {
            let k = choose|k: int| 0 <= k < buses.len() && buses[k] == e.bus;
            assert(rest[k] == e.bus);
        }
        if rest.contains(e.bus) {
            let k = choose|k: int| 0 <= k < rest.len() && rest[k] == e.bus;
            assert(buses[k] == e.bus);
        }
        if e.bus == b {
            assert(buses[buses.len() - 1] == b);
        }
    }
}

proof fn lemma_concat4_contains<A>(a: Seq<A>, b: Seq<A>, c: Seq<A>, d: Seq<A>, x: A)
    ensures
        (a + b + c + d).contains(x) <==> a.contains(x) || b.contains(x) || c.contains(x) || d.contains(x),
{
    let s = a + b + c + d;
    if s.contains(x) {
        let k = choose|k: int| 0 <= k < s.len() && s[k] == x;
        if k < a.len() {
            assert(a[k] == x);
        } else if k < a.len() + b.len() {
            assert(b[k - a.len()] == x);
        } else if k < a.len() + b.len() + c.len() {
            assert(c[k - a.len() - b.len()] == x);
        } else {
            assert(d[k - a.len() - b.len() - c.len()] == x);
        }
    }
    if a.contains(x) {
        let k = choose|k: int| 0 <= k < a.len() && a[k] == x;
        assert(s[k] == x);
    }
    if b.contains(x) {
        let k = choose|k: int| 0 <= k < b.len() && b[k] == x;
        assert(s[a.len() + k] == x);
    }
    if c.contains(x) {
        let k = choose|k: int| 0 <= k < c.len() && c[k] == x;
        assert(s[a.len() + b.len() + k] == x);
    }
    if d.contains(x) {
        let k = choose|k: int| 0 <= k < d.len() && d[k] == x;
        assert(s[a.len() + b.len() + c.len() + k] == x);
    }
}

proof fn lemma_bus_equipment_members(net: Network, b: i32, e: Equipment)
    requires
        net.generators@.len() <= usize::MAX,
        net.loads@.len() <= usize::MAX,
        net.fixed_shunts@.len() <= usize::MAX,
        net.switched_shunts@.len() <= usize::MAX,
    ensures
        bus_equipment(net, b).contains(e) <==> e.bus == b && equipment_item(net, e),
{
    let dom = net.buses@.dom();
    let ge = crate::model::equip_at(crate::model::generator_buses(net.generators@), net.generators@.len(), b);
    let le = crate::model::equip_at(crate::model::load_buses(net.loads@), net.loads@.len(), b);
    let fe = crate::model::equip_at(crate::model::fixed_shunt_buses(net.fixed_shunts@), net.fixed_shunts@.len(), b);
    let se = crate::model::equip_at(crate::model::switched_shunt_buses(net.switched_shunts@), net.switched_shunts@.len(), b);
    lemma_generator_items(net, b, e);
    lemma_load_items(net, b, e);
    lemma_fixed_shunt_items(net, b, e);
    lemma_switched_shunt_items(net, b, e);
    let gi = generator_items(b, net.generators@, ge);
    let li = load_items(b, net.loads@, le);
    let fi = fixed_shunt_items(b, net.fixed_shunts@, fe);
    let si = switched_shunt_items(b, net.switched_shunts@, se);
    lemma_concat4_contains(gi, li, fi, si, e);
    if dom.contains(b) && (ge.len() > 0 || le.len() > 0 || fe.len() > 0 || se.len() > 0) {
        assert(bus_equipment(net, b) == gi + li + fi + si);
    } else {
        assert(bus_equipment(net, b).len() == 0);
        if e.bus == b && equipment_item(net, e) {
            assert(dom.contains(b));
            if ge.len() == 0 {
                assert(!gi.contains(e));
            }
            if le.len() == 0 {
                assert(!li.contains(e));
            }
            if fe.len() == 0 {
                assert(!fi.contains(e));
            }
            if se.len() == 0 {
                assert(!si.contains(e));
            }
        }
    }
}


/// The place of an equipment kind in the listing: generators, loads, fixed shunts, switched
/// shunts.
pub open spec fn source_rank(s: EquipSource) -> int {
    match s {
        EquipSource::Generator(_) => 0,
        EquipSource::Load(_) => 1,
        EquipSource::FixedShunt(_) => 2,
        EquipSource::SwitchedShunt(_) => 3,
    }
}

/// The index of an item in its own list of the case.
pub open spec fn source_index(s: EquipSource) -> int {
    match s {
        EquipSource::Generator(i) => i as int,
        EquipSource::Load(i) => i as int,
        EquipSource::FixedShunt(i) => i as int,
        EquipSource::SwitchedShunt(i) => i as int,
    }
}

/// Whether `a` is listed before `b`: by bus, then by kind, then by index in the case.
pub open spec fn listed_before(a: Equipment, b: Equipment) -> bool {
    ||| a.bus < b.bus
    ||| a.bus == b.bus && source_rank(a.source) < source_rank(b.source)
    ||| a.bus == b.bus && source_rank(a.source) == source_rank(b.source) && source_index(a.source)
        < source_index(b.source)
}

proof fn lemma_bus_equipment_ordered(net: Network, b: i32)
    requires
        net.generators@.len() <= usize::MAX,
        net.loads@.len() <= usize::MAX,
        net.fixed_shunts@.len() <= usize::MAX,
        net.switched_shunts@.len() <= usize::MAX,
    ensures
        forall|k: int| 0 <= k < bus_equipment(net, b).len() ==> (#[trigger] bus_equipment(net, b)[k]).bus == b,
        forall|i: int, j: int|
            0 <= i < j < bus_equipment(net, b).len() ==> listed_before(
                #[trigger] bus_equipment(net, b)[i],
                #[trigger] bus_equipment(net, b)[j],
            ),
{
    let dom = net.buses@.dom();
    let gb = crate::model::generator_buses(net.generators@);
    let lb = crate::model::load_buses(net.loads@);
    let fb = crate::model::fixed_shunt_buses(net.fixed_shunts@);
    let sb = crate::model::switched_shunt_buses(net.switched_shunts@);
    let ge = crate::model::equip_at(gb, net.generators@.len(), b);
    let le = crate::model::equip_at(lb, net.loads@.len(), b);
    let fe = crate::model::equip_at(fb, net.fixed_shunts@.len(), b);
    let se = crate::model::equip_at(sb, net.switched_shunts@.len(), b);
    assert(gb.len() == net.generators@.len());
    assert(lb.len() == net.loads@.len());
    assert(fb.len() == net.fixed_shunts@.len());
    assert(sb.len() == net.switched_shunts@.len());
    crate::model::lemma_equipment_filed_by_bus(gb, b);
    crate::model::lemma_equipment_filed_by_bus(lb, b);
    crate::model::lemma_equipment_filed_by_bus(fb, b);
    crate::model::lemma_equipment_filed_by_bus(sb, b);
    let gi = generator_items(b, net.generators@, ge);
    let li = load_items(b, net.loads@, le);
    let fi = fixed_shunt_items(b, net.fixed_shunts@, fe);
    let si = switched_shunt_items(b, net.switched_shunts@, se);
    let all = bus_equipment(net, b);
    if dom.contains(b) && (ge.len() > 0 || le.len() > 0 || fe.len() > 0 || se.len() > 0) {
        assert(all == gi + li + fi + si);
        let n1 = gi.len() as int;
        let n2 = n1 + li.len();
        let n3 = n2 + fi.len();
        assert forall|k: int| 0 <= k < all.len() implies all[k].bus == b && (if k < n1 {
            all[k].source == EquipSource::Generator(ge[k])
        } else if k < n2 {
            all[k].source == EquipSource::Load(le[k - n1])
        } else if k < n3 {
            all[k].source == EquipSource::FixedShunt(fe[k - n2])
        } else {
            all[k].source == EquipSource::SwitchedShunt(se[k - n3])
        }) by {
            if k < n1 {
                assert(all[k] == gi[k]);
            } else if k < n2 {
                assert(all[k] == li[k - n1]);
            } else if k < n3 {
                assert(all[k] == fi[k - n2]);
            } else {
                assert(all[k] == si[k - n3]);
            }
        }
        assert forall|i: int, j: int| 0 <= i < j < all.len() implies listed_before(
            #[trigger] all[i],
            #[trigger] all[j],
        ) by {
            if j < n1 {
                assert(ge[i] < ge[j]);
            } else if i >= n1 && j < n2 {
                assert(le[i - n1] < le[j - n1]);
            } else if i >= n2 && j < n3 {
                assert(fe[i - n2] < fe[j - n2]);
            } else if i >= n3 {
                assert(se[i - n3] < se[j - n3]);
            }
        }
    } else {
        assert(all.len() == 0);
    }
}

/// Equipment is listed bus by bus in ascending order and, on each bus, generators, then
/// loads, fixed shunts and switched shunts, each kind in its order in the case; so no item
/// is listed twice.
pub proof fn lemma_equipment_along_ordered(net: Network, buses: Seq<i32>)
    requires
        net.generators@.len() <= usize::MAX,
        net.loads@.len() <= usize::MAX,
        net.fixed_shunts@.len() <= usize::MAX,
        net.switched_shunts@.len() <= usize::MAX,
        super::increasing(buses),
    ensures
        forall|i: int, j: int|
            0 <= i < j < equipment_along(net, buses).len() ==> listed_before(
                #[trigger] equipment_along(net, buses)[i],
                #[trigger] equipment_along(net, buses)[j],
            ),
    decreases buses.len(),
{
    if buses.len() > 0 {
        let rest = buses.drop_last();
        let b = buses.last();
        lemma_equipment_along_ordered(net, rest);
        lemma_bus_equipment_ordered(net, b);
        let before = equipment_along(net, rest);
        let here = bus_equipment(net, b);
        let all = equipment_along(net, buses);
        assert(all == before + here);
        assert forall|i: int, j: int| 0 <= i < j < all.len() implies listed_before(
            #[trigger] all[i],
            #[trigger] all[j],
        ) by {
            if j < before.len() {
                assert(all[i] == before[i] && all[j] == before[j]);
            } else if i >= before.len() {
                assert(all[i] == here[i - before.len()] && all[j] == here[j - before.len()]);
            } else {
                assert(all[i] == before[i]);
                assert(all[j] == here[j - before.len()]);
                assert(before.contains(before[i]));
                lemma_equipment_along_members(net, rest, before[i]);
                let k = choose|k: int| 0 <= k < rest.len() && rest[k] == before[i].bus;
                assert(buses[k] == rest[k]);
                assert(buses[buses.len() - 1] == b);
            }
        }
    }
}

} // verus!
