//! The drawing: which buses have been placed, where, and what that makes visible.
//!
//! A raw file carries no coordinates, so the diagram is the part of the work the engineer owns.
//! It is kept separate from the [`Network`] so it can be saved and reloaded against the case.

pub mod layout;
pub mod render;

use std::collections::BTreeMap;

use vstd::prelude::*;
use vstd::std_specs::iter::IteratorSpec;

use crate::model::{
    id_ckt, id_terminals, id_valid, incident_spec, lemma_incident_shape, lemma_min_terminal,
    min_of, min_terminal, position, ElemId, Network,
};
use crate::text::{chars_eq, chars_of, copy_string};

use layout::{find_free_slot, lemma_free_cell_found, parent_roomy, slot_spec, Tier};

verus! {

#[derive(Debug, Clone, Copy, PartialEq, Eq, Structural)]
pub enum Orientation {
    Horizontal,
    Vertical,
}

impl Orientation {
    /// The other way round.
    pub fn flipped(self) -> (o: Orientation)
        ensures
            o == match self {
                Orientation::Horizontal => Orientation::Vertical,
                Orientation::Vertical => Orientation::Horizontal,
            },
    {
        match self {
            Orientation::Horizontal => Orientation::Vertical,
            Orientation::Vertical => Orientation::Horizontal,
        }
    }
}

impl Default for Orientation {
    fn default() -> (o: Orientation)
        ensures
            o == Orientation::Horizontal,
    {
        Orientation::Horizontal
    }
}

/// A bus on the drawing, positioned in whole grid cells.
#[derive(Debug, Clone, Copy, PartialEq, Eq, Structural)]
pub struct BusNode {
    pub gx: i32,
    pub gy: i32,
    pub orient: Orientation,
}

/// Bus numbers are totally ordered, which is what a map keyed by them relies on.
proof fn lemma_bus_keys_ordered()
    ensures
        vstd::std_specs::btree::key_obeys_cmp_spec::<i32>(),
{
    broadcast use vstd::std_specs::btree::group_btree_axioms;
    broadcast use vstd::laws_cmp::group_laws_cmp;
}

/// A map's keys come out of it in increasing order.
proof fn lemma_increasing_keys(s: Seq<&i32>)
    requires
        vstd::std_specs::btree::increasing_seq(s),
    ensures
        forall|i: int, j: int| 0 <= i < j < s.len() ==> *s[i] < *s[j],
{
    broadcast use vstd::std_specs::btree::group_btree_axioms;
    broadcast use vstd::laws_cmp::group_laws_cmp;
    assert(vstd::laws_cmp::obeys_cmp::<i32>());
    assert(vstd::laws_cmp::obeys_cmp::<&i32>());
    vstd::std_specs::btree::axiom_increasing_seq_meaning::<&i32>(s);
    assert forall|i: int, j: int| 0 <= i < j < s.len() implies *s[i] < *s[j] by {
        assert(vstd::std_specs::cmp::OrdSpec::cmp_spec(&s[i], &s[j]) is Less);
    }
}

/// Whether `s` is strictly increasing.
pub open spec fn increasing(s: Seq<i32>) -> bool {
    forall|i: int, j: int| 0 <= i < j < s.len() ==> s[i] < s[j]
}

/// The buses of `dom` in ascending order.
pub open spec fn ascending_keys(dom: Set<i32>) -> Seq<i32> {
    choose|s: Seq<i32>| increasing(s) && s.to_set() == dom
}

proof fn lemma_increasing_unique(a: Seq<i32>, b: Seq<i32>)
    requires
        increasing(a),
        increasing(b),
        a.to_set() == b.to_set(),
    ensures
        a == b,
    decreases a.len(),
{
    if a.len() == 0 {
        if b.len() > 0 {
            assert(b.to_set().contains(b[0]));
        }
        assert(a =~= b);
    } else {
        assert(a.to_set().contains(a.last()));
        assert(b.len() > 0);
        assert(b.to_set().contains(b.last()));
        let ia = choose|i: int| 0 <= i < b.len() && b[i] == a.last();
        let ib = choose|i: int| 0 <= i < a.len() && a[i] == b.last();
        assert(a.last() <= b.last());
        assert(b.last() <= a.last());
        let a0 = a.drop_last();
        let b0 = b.drop_last();
        assert forall|x: i32| a0.to_set().contains(x) <==> b0.to_set().contains(x) by {
            if a0.to_set().contains(x) {
                let i = choose|i: int| 0 <= i < a0.len() && a0[i] == x;
                assert(a[i] == x);
                assert(x < a.last());
                assert(b.to_set().contains(x));
                let j = choose|j: int| 0 <= j < b.len() && b[j] == x;
                assert(j != b.len() - 1);
                assert(b0[j] == x);
            }
            if b0.to_set().contains(x) {
                let i = choose|i: int| 0 <= i < b0.len() && b0[i] == x;
                assert(b[i] == x);
                assert(x < b.last());
                assert(a.to_set().contains(x));
                let j = choose|j: int| 0 <= j < a.len() && a[j] == x;
                assert(j != a.len() - 1);
                assert(a0[j] == x);
            }
        }
        assert(a0.to_set() =~= b0.to_set());
        lemma_increasing_unique(a0, b0);
        assert(a =~= a0.push(a.last()));
        assert(b =~= b0.push(b.last()));
    }
}

/// The buses placed on `placed`, ascending.
pub(crate) fn placed_keys(placed: &BTreeMap<i32, BusNode>) -> (keys: Vec<i32>)
    ensures
        keys@.to_set() == placed@.dom(),
        forall|i: int, j: int| 0 <= i < j < keys@.len() ==> keys@[i] < keys@[j],
        keys@ == ascending_keys(placed@.dom()),
{
    broadcast use vstd::std_specs::btree::group_btree_axioms;
    proof {
        lemma_bus_keys_ordered();
    }
    let mut keys: Vec<i32> = Vec::new();
    for k in it: placed.keys()
        invariant
            it.seq() == vstd::std_specs::btree::spec_keys_iter(placed).remaining(),
            keys@ =~= it.seq().take(it.index() as int).unref(),
    {
        keys.push(*k);
    }
    proof {
        let r = vstd::std_specs::btree::spec_keys_iter(placed).remaining();
        assert(r.take(r.len() as int) =~= r);
        lemma_increasing_keys(r);
        assert(increasing(keys@));
        let c = ascending_keys(placed@.dom());
        assert(increasing(c) && c.to_set() == placed@.dom());
        lemma_increasing_unique(keys@, c);
    }
    keys
}


/// Identifies an element by what it connects rather than by list index, so a saved drawing
/// still means the same thing after the case is read again.
#[derive(Debug, Clone)]
pub struct ElemKey {
    pub transformer: bool,
    pub buses: Vec<i32>,
    pub ckt: String,
}

/// An element key as plain values.
pub struct KeySpec {
    pub transformer: bool,
    pub buses: Seq<i32>,
    pub ckt: Seq<char>,
}

impl View for ElemKey {
    type V = KeySpec;

    open spec fn view(&self) -> KeySpec {
        KeySpec { transformer: self.transformer, buses: self.buses@, ckt: self.ckt@ }
    }
}

/// The key of element `id`: whether it is a transformer, its buses and its circuit.
pub open spec fn key_spec(bs: Seq<crate::psse::raw::Branch>, ts: Seq<crate::psse::raw::Transformer>, id: ElemId) -> KeySpec {
    KeySpec {
        transformer: id is Transformer,
        buses: id_terminals(bs, ts, id),
        ckt: id_ckt(bs, ts, id),
    }
}

impl ElemKey {
    /// Whether the two keys name the same element.
    pub fn same_as(&self, other: &ElemKey) -> (r: bool)
        ensures
            r == (self@ == other@),
    {
        if self.transformer != other.transformer {
            return false;
        }
        if !int_seq_eq(self.buses.as_slice(), other.buses.as_slice()) {
            return false;
        }
        let a = chars_of(self.ckt.as_str());
        let b = chars_of(other.ckt.as_str());
        let r = chars_eq(a.as_slice(), b.as_slice());
        proof {
            if r {
                assert(self@ =~= other@);
            }
        }
        r
    }
}

fn int_seq_eq(a: &[i32], b: &[i32]) -> (r: bool)
    ensures
        r == (a@ == b@),
{
    if a.len() != b.len() {
        return false;
    }
    let mut k: usize = 0;
    while k < a.len()
        invariant
            a@.len() == b@.len(),
            k <= a@.len(),
            forall|m: int| 0 <= m < k ==> a@[m] == b@[m],
        decreases a@.len() - k,
    {
        if a[k] != b[k] {
            return false;
        }
        k = k + 1;
    }
    proof {
        assert(a@ =~= b@);
    }
    true
}

/// The key of element `id`.
pub fn elem_key(net: &Network, id: ElemId) -> (k: ElemKey)
    requires
        id_valid(net.branches@, net.transformers@, id),
    ensures
        k@ == key_spec(net.branches@, net.transformers@, id),
{
    let element = net.element(id);
    let ckt = copy_string(element.ckt());
    ElemKey {
        transformer: matches!(id, ElemId::Transformer(_)),
        buses: element.terminals(),
        ckt,
    }
}

#[derive(Debug, Clone)]
pub struct Diagram {
    pub placed: BTreeMap<i32, BusNode>,
    /// Elements the user has suppressed even though both ends are on the drawing; a set, kept
    /// free of repeats by [`Diagram::suppress`].
    pub hidden: Vec<ElemKey>,
}

impl Default for Diagram {
    /// An empty drawing.
    fn default() -> (d: Diagram)
        ensures
            d.placed@ == Map::<i32, BusNode>::empty(),
            d.hidden@.len() == 0,
    {
        Diagram { placed: BTreeMap::new(), hidden: Vec::new() }
    }
}

/// Whether no bus placed on `placed` crowds the cell (`gx`, `gy`): bars run horizontally, so
/// clearance is wider across than down.
pub open spec fn cell_free(placed: Map<i32, BusNode>, gx: int, gy: int) -> bool {
    forall|b: i32|
        #[trigger] placed.contains_key(b) ==> {
            let n = placed[b];
            ||| n.gx - gx >= 7
            ||| gx - n.gx >= 7
            ||| n.gy - gy >= 3
            ||| gy - n.gy >= 3
        }
}

/// The keys `v` holds, as plain values.
pub open spec fn key_set(v: Seq<ElemKey>) -> Set<KeySpec> {
    Set::new(|x: KeySpec| exists|m: int| 0 <= m < v.len() && (#[trigger] v[m])@ == x)
}

impl Diagram {
    /// The suppressed element keys.
    pub open spec fn hidden_keys(&self) -> Set<KeySpec> {
        key_set(self.hidden@)
    }

    /// Whether element `id` of a network with branches `bs` and transformers `ts` is drawn:
    /// every terminal is placed and it is not suppressed.
    pub open spec fn visible_spec(
        &self,
        bs: Seq<crate::psse::raw::Branch>,
        ts: Seq<crate::psse::raw::Transformer>,
        id: ElemId,
    ) -> bool {
        &&& id_valid(bs, ts, id)
        &&& forall|k: int|
            0 <= k < id_terminals(bs, ts, id).len() ==> self.placed@.contains_key(
                #[trigger] id_terminals(bs, ts, id)[k],
            )
        &&& !self.hidden_keys().contains(key_spec(bs, ts, id))
    }

    /// Whether `bus` is on the drawing.
    pub fn is_placed(&self, bus: i32) -> (r: bool)
        ensures
            r == self.placed@.contains_key(bus),
    {
        self.placed.contains_key(&bus)
    }

    /// Put a bus on the drawing, horizontal, unless it is already there.
    pub fn place(&mut self, bus: i32, gx: i32, gy: i32)
        ensures
            final(self).placed@ == if old(self).placed@.contains_key(bus) {
                old(self).placed@
            } else {
                old(self).placed@.insert(
                    bus,
                    BusNode { gx, gy, orient: Orientation::Horizontal },
                )
            },
            final(self).hidden@ == old(self).hidden@,
    {
        if !self.placed.contains_key(&bus) {
            self.placed.insert(bus, BusNode { gx, gy, orient: Orientation::Horizontal });
        }
    }

    /// Take a bus off the drawing. Elements needing it simply stop being visible.
    pub fn remove(&mut self, bus: i32)
        ensures
            final(self).placed@ == old(self).placed@.remove(bus),
            final(self).hidden@ == old(self).hidden@,
    {
        self.placed.remove(&bus);
    }

    /// Take everything off the drawing and stop suppressing anything.
    pub fn clear(&mut self)
        ensures
            final(self).placed@ == Map::<i32, BusNode>::empty(),
            final(self).hidden@.len() == 0,
    {
        self.placed.clear();
        self.hidden.clear();
    }

    /// Whether `key` is among the suppressed elements.
    pub fn is_hidden(&self, key: &ElemKey) -> (r: bool)
        ensures
            r == self.hidden_keys().contains(key@),
    {
        let mut k: usize = 0;
        while k < self.hidden.len()
            invariant
                k <= self.hidden@.len(),
                forall|m: int| 0 <= m < k ==> (#[trigger] self.hidden@[m])@ != key@,
            decreases self.hidden@.len() - k,
        {
            if self.hidden[k].same_as(key) {
                proof {
                    assert(self.hidden@[k as int]@ == key@);
                }
                return true;
            }
            k = k + 1;
        }
        false
    }

    /// Suppress an element even while both its ends are on the drawing.
    pub fn suppress(&mut self, key: ElemKey)
        ensures
            final(self).hidden_keys() == old(self).hidden_keys().insert(key@),
            final(self).placed@ == old(self).placed@,
    {
        let ghost before = self.hidden@;
        let ghost kv = key@;
        if !self.is_hidden(&key) {
            self.hidden.push(key);
            proof {
                assert forall|x: KeySpec| #[trigger] key_set(self.hidden@).contains(x) == key_set(before).insert(kv).contains(x) by {
                    if key_set(before).contains(x) {
                        let m = choose|m: int| 0 <= m < before.len() && (#[trigger] before[m])@ == x;
                        assert(self.hidden@[m] == before[m]);
                    }
                    if x == kv {
                        assert(self.hidden@[before.len() as int]@ == x);
                    }
                    if key_set(self.hidden@).contains(x) {
                        let m = choose|m: int| 0 <= m < self.hidden@.len() && (#[trigger] self.hidden@[m])@ == x;
                        if m < before.len() {
                            assert(before[m] == self.hidden@[m]);
                        }
                    }
                }
                assert(self.hidden_keys() =~= old(self).hidden_keys().insert(kv));
            }
        } else {
            proof {
                assert(self.hidden_keys() =~= old(self).hidden_keys().insert(kv));
            }
        }
    }

    /// Stop suppressing an element.
    pub fn unsuppress(&mut self, key: &ElemKey)
        ensures
            final(self).hidden_keys() == old(self).hidden_keys().remove(key@),
            final(self).placed@ == old(self).placed@,
    {
        let mut kept: Vec<ElemKey> = Vec::new();
        let mut k: usize = 0;
        let ghost all = self.hidden@;
        while k < self.hidden.len()
            invariant
                all == self.hidden@,
                k <= all.len(),
                forall|x: KeySpec| #[trigger]
                    key_set(kept@).contains(x) <==> x != key@ && key_set(all.take(k as int)).contains(x),
            decreases all.len() - k,
        {
            let ghost before = kept@;
            if !self.hidden[k].same_as(key) {
                kept.push(self.hidden[k].clone_key());
            }
            proof {
                let tk = all.take(k as int);
                let tk1 = all.take(k + 1);
                assert forall|x: KeySpec| #[trigger] key_set(kept@).contains(x) <==> x != key@ && key_set(tk1).contains(x) by {
                    if key_set(tk).contains(x) {
                        let m = choose|m: int| 0 <= m < tk.len() && (#[trigger] tk[m])@ == x;
                        assert(tk1[m] == tk[m]);
                    }
                    if key_set(tk1).contains(x) {
                        let m = choose|m: int| 0 <= m < tk1.len() && (#[trigger] tk1[m])@ == x;
                        if m < k {
                            assert(tk[m] == tk1[m]);
                        }
                    }
                    if key_set(before).contains(x) {
                        let m = choose|m: int| 0 <= m < before.len() && (#[trigger] before[m])@ == x;
                        assert(kept@[m] == before[m]);
                    }
                    if key_set(kept@).contains(x) {
                        let m = choose|m: int| 0 <= m < kept@.len() && (#[trigger] kept@[m])@ == x;
                        if m < before.len() {
                            assert(before[m] == kept@[m]);
                        }
                    }
                    if x != key@ && tk1[k as int]@ == x {
                        assert(kept@[kept@.len() - 1]@ == x);
                    }
                }
            }
            k = k + 1;
        }
        proof {
            assert(all.take(all.len() as int) =~= all);
        }
        self.hidden = kept;
        proof {
            assert(self.hidden_keys() =~= old(self).hidden_keys().remove(key@));
        }
    }
}

impl ElemKey {
    /// A copy of this key.
    pub fn clone_key(&self) -> (k: ElemKey)
        ensures
            k@ == self@,
    {
        let mut buses: Vec<i32> = Vec::new();
        let mut i: usize = 0;
        while i < self.buses.len()
            invariant
                i <= self.buses@.len(),
                buses@ =~= self.buses@.take(i as int),
            decreases self.buses@.len() - i,
        {
            buses.push(self.buses[i]);
            i = i + 1;
        }
        proof {
            assert(self.buses@.take(self.buses@.len() as int) =~= self.buses@);
        }
        ElemKey { transformer: self.transformer, buses, ckt: copy_string(self.ckt.as_str()) }
    }
}


/// Whether element `a` comes before element `b` in the drawing order: by the smallest bus it
/// ends on, then by its place in the network's lists.
pub open spec fn shown_before(
    bs: Seq<crate::psse::raw::Branch>,
    ts: Seq<crate::psse::raw::Transformer>,
    a: ElemId,
    b: ElemId,
) -> bool {
    let ma = min_terminal(id_terminals(bs, ts, a));
    let mb = min_terminal(id_terminals(bs, ts, b));
    ||| ma < mb
    ||| ma == mb && position(bs.len(), a) < position(bs.len(), b)
}

/// Whether `s` runs in drawing order.
pub open spec fn in_drawing_order(
    bs: Seq<crate::psse::raw::Branch>,
    ts: Seq<crate::psse::raw::Transformer>,
    s: Seq<ElemId>,
) -> bool {
    forall|i: int, j: int| 0 <= i < j < s.len() ==> shown_before(bs, ts, #[trigger] s[i], #[trigger] s[j])
}

proof fn lemma_position_injective(bs: Seq<crate::psse::raw::Branch>, ts: Seq<crate::psse::raw::Transformer>, a: ElemId, b: ElemId)
    requires
        id_valid(bs, ts, a),
        id_valid(bs, ts, b),
        position(bs.len(), a) == position(bs.len(), b),
    ensures
        a == b,
{
}

impl Diagram {
    fn all_placed(&self, t: &[i32]) -> (r: bool)
        ensures
            r == forall|k: int| 0 <= k < t@.len() ==> self.placed@.contains_key(#[trigger] t@[k]),
    {
        let mut k: usize = 0;
        while k < t.len()
            invariant
                k <= t@.len(),
                forall|m: int| 0 <= m < k ==> self.placed@.contains_key(#[trigger] t@[m]),
            decreases t@.len() - k,
        {
            if !self.placed.contains_key(&t[k]) {
                return false;
            }
            k = k + 1;
        }
        true
    }

    /// Appends the visible elements whose smallest bus is `bus`, in list order.
    fn push_visible_at(&self, net: &Network, bus: i32, out: &mut Vec<ElemId>, Ghost(done): Ghost<Set<i32>>)
        requires
            net.wf(),
            forall|b: i32| #[trigger] done.contains(b) ==> b < bus,
            forall|id: ElemId|
                #[trigger] old(out)@.contains(id) <==> self.visible_spec(net.branches@, net.transformers@, id)
                    && done.contains(min_terminal(id_terminals(net.branches@, net.transformers@, id))),
            forall|i: int|
                0 <= i < old(out)@.len() ==> done.contains(
                    min_terminal(id_terminals(net.branches@, net.transformers@, #[trigger] old(out)@[i])),
                ),
            in_drawing_order(net.branches@, net.transformers@, old(out)@),
        ensures
            forall|id: ElemId|
                #[trigger] final(out)@.contains(id) <==> self.visible_spec(net.branches@, net.transformers@, id)
                    && done.insert(bus).contains(min_terminal(id_terminals(net.branches@, net.transformers@, id))),
            forall|i: int|
                0 <= i < final(out)@.len() ==> done.insert(bus).contains(
                    min_terminal(id_terminals(net.branches@, net.transformers@, #[trigger] final(out)@[i])),
                ),
            in_drawing_order(net.branches@, net.transformers@, final(out)@),
    {
        let ghost bs = net.branches@;
        let ghost ts = net.transformers@;
        let inc = net.incident(bus);
        // The list lengths fit an index, which the shape of the incidence lists relies on.
        let _branch_count = net.branches.len();
        let _transformer_count = net.transformers.len();
        proof {
            lemma_incident_shape(bs, ts, bus);
        }
        let mut j: usize = 0;
        while j < inc.len()
            invariant
                net.wf(),
                bs == net.branches@,
                ts == net.transformers@,
                inc@ == incident_spec(bs, ts, bus),
                j <= inc@.len(),
                forall|b: i32| #[trigger] done.contains(b) ==> b < bus,
                forall|k: int|
                    0 <= k < inc@.len() ==> id_valid(bs, ts, #[trigger] inc@[k]) && id_terminals(bs, ts, inc@[k]).contains(
                        bus,
                    ),
                forall|a: int, b: int|
                    0 <= a < b < inc@.len() ==> position(bs.len(), inc@[a]) <= position(bs.len(), inc@[b]),
                forall|id: ElemId|
                    #[trigger] out@.contains(id) <==> self.visible_spec(bs, ts, id) && (done.contains(
                        min_terminal(id_terminals(bs, ts, id)),
                    ) || (min_terminal(id_terminals(bs, ts, id)) == bus && inc@.take(j as int).contains(id))),
                forall|i: int|
                    0 <= i < out@.len() ==> done.contains(min_terminal(id_terminals(bs, ts, #[trigger] out@[i])))
                        || (min_terminal(id_terminals(bs, ts, out@[i])) == bus && inc@.take(j as int).contains(
                        out@[i],
                    )),
                in_drawing_order(bs, ts, out@),
            decreases inc@.len() - j,
        {
            let id = inc[j];
            let repeat = j > 0 && inc[j - 1] == id;
            let ghost before = out@;
            let ghost tj = inc@.take(j as int);
            let ghost tj1 = inc@.take(j + 1);
            proof {
                assert(tj1 == tj.push(id));
            }
            if !repeat {
                let terms = net.element(id).terminals();
                proof {
                    lemma_min_terminal(terms@);
                }
                if min_of(terms.as_slice()) == bus && self.all_placed(terms.as_slice()) && !self.is_hidden(
                    &elem_key(net, id),
                ) {
                    out.push(id);
                    proof {
                        assert(self.visible_spec(bs, ts, id));
                        assert forall|i: int| 0 <= i < before.len() implies shown_before(bs, ts, before[i], id) by {
                            let x = before[i];
                            if !done.contains(min_terminal(id_terminals(bs, ts, x))) {
                                assert(tj.contains(x));
                                let p = choose|p: int| 0 <= p < tj.len() && tj[p] == x;
                                assert(inc@[p] == x);
                                assert(position(bs.len(), x) <= position(bs.len(), inc@[j - 1]));
                                assert(position(bs.len(), inc@[j - 1]) <= position(bs.len(), id));
                                if position(bs.len(), x) == position(bs.len(), id) {
                                    lemma_position_injective(bs, ts, inc@[j - 1], id);
                                }
                            }
                        }
                        assert forall|a: int, b: int| 0 <= a < b < out@.len() implies shown_before(
                            bs,
                            ts,
                            #[trigger] out@[a],
                            #[trigger] out@[b],
                        ) by {
                            if b < before.len() {
                                assert(out@[a] == before[a] && out@[b] == before[b]);
                            } else {
                                assert(out@[b] == id);
                                assert(out@[a] == before[a]);
                            }
                        }
                        assert forall|x: ElemId| #[trigger] out@.contains(x) <==> self.visible_spec(bs, ts, x) && (
                        done.contains(min_terminal(id_terminals(bs, ts, x))) || (min_terminal(
                            id_terminals(bs, ts, x),
                        ) == bus && tj1.contains(x))) by {
                            if x == id {
                                assert(out@[before.len() as int] == id);
                                assert(tj1[j as int] == id);
                            } else {
                                if out@.contains(x) {
                                    let p = choose|p: int| 0 <= p < out@.len() && out@[p] == x;
                                    assert(before[p] == x);
                                }
                                if before.contains(x) {
                                    let p = choose|p: int| 0 <= p < before.len() && before[p] == x;
                                    assert(out@[p] == x);
                                }
                                if tj1.contains(x) {
                                    let p = choose|p: int| 0 <= p < tj1.len() && tj1[p] == x;
                                    assert(tj[p] == x);
                                }
                                if tj.contains(x) {
                                    let p = choose|p: int| 0 <= p < tj.len() && tj[p] == x;
                                    assert(tj1[p] == x);
                                }
                            }
                        }
                        assert forall|i: int| 0 <= i < out@.len() implies done.contains(
                            min_terminal(id_terminals(bs, ts, #[trigger] out@[i])),
                        ) || (min_terminal(id_terminals(bs, ts, out@[i])) == bus && tj1.contains(out@[i])) by {
                            if i < before.len() {
                                assert(out@[i] == before[i]);
                                if tj.contains(before[i]) {
                                    let p = choose|p: int| 0 <= p < tj.len() && tj[p] == before[i];
                                    assert(tj1[p] == before[i]);
                                }
                            } else {
                                assert(tj1[j as int] == id);
                            }
                        }
                    }
                } else {
                    proof {
                        assert(!(self.visible_spec(bs, ts, id) && min_terminal(id_terminals(bs, ts, id)) == bus));
                    }
                }
            }
            proof {
                if out@ == before {
                    assert forall|x: ElemId| tj1.contains(x) <==> tj.contains(x) || x == id by {
                        if tj1.contains(x) {
                            let p = choose|p: int| 0 <= p < tj1.len() && tj1[p] == x;
                            if p < j {
                                assert(tj[p] == x);
                            }
                        }
                        if tj.contains(x) {
                            let p = choose|p: int| 0 <= p < tj.len() && tj[p] == x;
                            assert(tj1[p] == x);
                        }
                        if x == id {
                            assert(tj1[j as int] == x);
                        }
                    }
                    if repeat {
                        assert(tj[j - 1] == id);
                    }
                }
            }
            j = j + 1;
        }
        proof {
            assert(inc@.take(inc@.len() as int) =~= inc@);
            assert forall|id: ElemId| #[trigger] out@.contains(id) <==> self.visible_spec(bs, ts, id)
                && done.insert(bus).contains(min_terminal(id_terminals(bs, ts, id))) by {
                if self.visible_spec(bs, ts, id) && min_terminal(id_terminals(bs, ts, id)) == bus {
                    lemma_min_terminal(id_terminals(bs, ts, id));
                    assert(inc@.contains(id));
                }
            }
        }
    }

    /// Elements with every terminal placed, and not suppressed, ordered by the smallest bus each
    /// ends on and then by list position, each once.
    ///
    /// Drawing these automatically means closing a loop between two buses already on the sheet
    /// shows the tie without the user having to ask for it.
    pub fn visible_elements(&self, net: &Network) -> (out: Vec<ElemId>)
        requires
            net.wf(),
        ensures
            forall|id: ElemId|
                #[trigger] out@.contains(id) <==> self.visible_spec(net.branches@, net.transformers@, id),
            in_drawing_order(net.branches@, net.transformers@, out@),
    {
        let ghost bs = net.branches@;
        let ghost ts = net.transformers@;
        let keys = placed_keys(&self.placed);
        let mut out: Vec<ElemId> = Vec::new();
        let mut m: usize = 0;
        while m < keys.len()
            invariant
                net.wf(),
                bs == net.branches@,
                ts == net.transformers@,
                m <= keys@.len(),
                keys@.to_set() == self.placed@.dom(),
                forall|i: int, j: int| 0 <= i < j < keys@.len() ==> keys@[i] < keys@[j],
                forall|id: ElemId|
                    #[trigger] out@.contains(id) <==> self.visible_spec(bs, ts, id) && keys@.take(m as int).to_set().contains(
                        min_terminal(id_terminals(bs, ts, id)),
                    ),
                forall|i: int|
                    0 <= i < out@.len() ==> keys@.take(m as int).to_set().contains(
                        min_terminal(id_terminals(bs, ts, #[trigger] out@[i])),
                    ),
                in_drawing_order(bs, ts, out@),
            decreases keys@.len() - m,
        {
            let ghost done = keys@.take(m as int).to_set();
            proof {
                assert forall|b: i32| #[trigger] done.contains(b) implies b < keys@[m as int] by {
                    let p = choose|p: int| 0 <= p < m && #[trigger] keys@.take(m as int)[p] == b;
                    assert(keys@[p] == b);
                }
                assert(keys@.take(m + 1).to_set() =~= done.insert(keys@[m as int])) by {
                    assert forall|b: i32| keys@.take(m + 1).to_set().contains(b) <==> done.insert(keys@[m as int]).contains(b) by {
                        if keys@.take(m + 1).to_set().contains(b) {
                            let p = choose|p: int| 0 <= p < m + 1 && #[trigger] keys@.take(m + 1)[p] == b;
                            if p < m {
                                assert(keys@.take(m as int)[p] == b);
                            }
                        }
                        if done.contains(b) {
                            let p = choose|p: int| 0 <= p < m && #[trigger] keys@.take(m as int)[p] == b;
                            assert(keys@.take(m + 1)[p] == b);
                        }
                        if b == keys@[m as int] {
                            assert(keys@.take(m + 1)[m as int] == b);
                        }
                    }
                }
            }
            self.push_visible_at(net, keys[m], &mut out, Ghost(done));
            m = m + 1;
        }
        proof {
            assert(keys@.take(keys@.len() as int) =~= keys@);
            assert forall|id: ElemId| #[trigger] out@.contains(id) <==> self.visible_spec(bs, ts, id) by {
                if self.visible_spec(bs, ts, id) {
                    let t = id_terminals(bs, ts, id);
                    lemma_min_terminal(t);
                    let p = choose|p: int| 0 <= p < t.len() && t[p] == min_terminal(t);
                    assert(self.placed@.contains_key(t[p]));
                }
            }
        }
        out
    }
}


/// The buses of `t` that are not on `placed`, in order.
pub open spec fn unplaced_of(placed: Map<i32, BusNode>, t: Seq<i32>) -> Seq<i32>
    decreases t.len(),
{
    if t.len() == 0 {
        Seq::empty()
    } else {
        let rest = unplaced_of(placed, t.drop_last());
        if placed.contains_key(t.last()) {
            rest
        } else {
            rest.push(t.last())
        }
    }
}

/// The elements of `inc` that would bring new buses onto `placed`, each with those buses.
pub open spec fn growth_spec(
    placed: Map<i32, BusNode>,
    bs: Seq<crate::psse::raw::Branch>,
    ts: Seq<crate::psse::raw::Transformer>,
    inc: Seq<ElemId>,
) -> Seq<(ElemId, Seq<i32>)>
    decreases inc.len(),
{
    if inc.len() == 0 {
        Seq::empty()
    } else {
        let rest = growth_spec(placed, bs, ts, inc.drop_last());
        let u = unplaced_of(placed, id_terminals(bs, ts, inc.last()));
        if u.len() > 0 {
            rest.push((inc.last(), u))
        } else {
            rest
        }
    }
}

/// Growth options as plain values.
pub open spec fn options_view(v: Seq<(ElemId, Vec<i32>)>) -> Seq<(ElemId, Seq<i32>)> {
    v.map_values(|o: (ElemId, Vec<i32>)| (o.0, o.1@))
}

/// The map `placed` after bringing each bus of `t` that is not yet on it onto it, in order,
/// each where a search from `from` on the side `tiers` gives for its position settles.
pub open spec fn grown(placed: Map<i32, BusNode>, from: i32, t: Seq<i32>, tiers: Seq<Tier>) -> Map<
    i32,
    BusNode,
>
    decreases t.len(),
{
    if t.len() == 0 {
        placed
    } else {
        let p = grown(placed, from, t.drop_last(), tiers);
        let b = t.last();
        if p.contains_key(b) {
            p
        } else {
            let c = slot_spec(p, from, tiers[t.len() - 1]);
            p.insert(b, BusNode { gx: c.0, gy: c.1, orient: Orientation::Horizontal })
        }
    }
}

impl Diagram {
    fn unplaced(&self, t: &[i32]) -> (u: Vec<i32>)
        ensures
            u@ == unplaced_of(self.placed@, t@),
    {
        let mut u: Vec<i32> = Vec::new();
        let mut k: usize = 0;
        while k < t.len()
            invariant
                k <= t@.len(),
                u@ == unplaced_of(self.placed@, t@.take(k as int)),
            decreases t@.len() - k,
        {
            proof {
                assert(t@.take(k + 1).drop_last() =~= t@.take(k as int));
            }
            if !self.placed.contains_key(&t[k]) {
                u.push(t[k]);
            }
            k = k + 1;
        }
        proof {
            assert(t@.take(t@.len() as int) =~= t@);
        }
        u
    }

    /// Incident elements that would bring new buses onto the drawing, with those buses.
    pub fn growth_options(&self, net: &Network, bus: i32) -> (options: Vec<(ElemId, Vec<i32>)>)
        requires
            net.wf(),
        ensures
            options_view(options@) == growth_spec(
                self.placed@,
                net.branches@,
                net.transformers@,
                incident_spec(net.branches@, net.transformers@, bus),
            ),
    {
        let ghost bs = net.branches@;
        let ghost ts = net.transformers@;
        let inc = net.incident(bus);
        // The list lengths fit an index, which the shape of the incidence lists relies on.
        let _branch_count = net.branches.len();
        let _transformer_count = net.transformers.len();
        proof {
            lemma_incident_shape(bs, ts, bus);
        }
        let mut options: Vec<(ElemId, Vec<i32>)> = Vec::new();
        let mut j: usize = 0;
        while j < inc.len()
            invariant
                bs == net.branches@,
                ts == net.transformers@,
                inc@ == incident_spec(bs, ts, bus),
                forall|k: int| 0 <= k < inc@.len() ==> id_valid(bs, ts, #[trigger] inc@[k]),
                j <= inc@.len(),
                options_view(options@) == growth_spec(self.placed@, bs, ts, inc@.take(j as int)),
            decreases inc@.len() - j,
        {
            let id = inc[j];
            proof {
                assert(inc@.take(j + 1).drop_last() =~= inc@.take(j as int));
                assert(id_valid(bs, ts, inc@[j as int]));
            }
            let terms = net.element(id).terminals();
            let u = self.unplaced(terms.as_slice());
            let ghost before = options@;
            if u.len() > 0 {
                options.push((id, u));
                proof {
                    assert(options_view(options@) =~= options_view(before).push((id, u@)));
                }
            }
            j = j + 1;
        }
        proof {
            assert(inc@.take(inc@.len() as int) =~= inc@);
        }
        options
    }
}


/// Growing keeps every bus already on the drawing where it was and brings on every bus of `t`.
pub proof fn lemma_grown_places_terminals(
    placed: Map<i32, BusNode>,
    from: i32,
    t: Seq<i32>,
    tiers: Seq<Tier>,
)
    ensures
        forall|b: i32|
            #[trigger] grown(placed, from, t, tiers).contains_key(b) <==> placed.contains_key(b)
                || t.contains(b),
        forall|b: i32|
            placed.contains_key(b) ==> #[trigger] grown(placed, from, t, tiers)[b] == placed[b],
    decreases t.len(),
{
    if t.len() > 0 {
        lemma_grown_places_terminals(placed, from, t.drop_last(), tiers);
        let p = grown(placed, from, t.drop_last(), tiers);
        let g = grown(placed, from, t, tiers);
        assert(p.contains_key(t.last()) ==> g == p);
        assert(!p.contains_key(t.last()) ==> g.dom() == p.dom().insert(t.last()));
        assert forall|b: i32| placed.contains_key(b) implies #[trigger] g[b] == placed[b] by {
            assert(p.contains_key(b));
        }
        assert forall|b: i32|
            #[trigger] grown(placed, from, t, tiers).contains_key(b) <==> placed.contains_key(b)
                || t.contains(b) by {
            assert(p.contains_key(b) <==> placed.contains_key(b) || t.drop_last().contains(b));
            if t.drop_last().contains(b) {
                let i = choose|i: int| 0 <= i < t.drop_last().len() && t.drop_last()[i] == b;
                assert(t[i] == b);
            }
            if t.contains(b) && b != t.last() {
                let i = choose|i: int| 0 <= i < t.len() && t[i] == b;
                assert(t.drop_last()[i] == b);
            }
            if b == t.last() {
                assert(t[t.len() - 1] == b);
            }
        }
    }
}

proof fn lemma_parent_stays_roomy(p: Map<i32, BusNode>, from: i32, b: i32, tier: Tier)
    requires
        parent_roomy(p, from),
        !p.contains_key(b),
    ensures
        parent_roomy(
            p.insert(
                b,
                BusNode {
                    gx: slot_spec(p, from, tier).0,
                    gy: slot_spec(p, from, tier).1,
                    orient: Orientation::Horizontal,
                },
            ),
            from,
        ),
{
    if b == from {
        let anchor = layout::slot_anchor(p, from, tier);
        lemma_free_cell_found(p, anchor, (0, 0));
    }
}

impl Diagram {
    /// Bring an element's far end(s) onto the drawing next to `from`, and stop suppressing it.
    ///
    /// `tiers` gives, for each of the element's terminals in order, the side of `from` it goes
    /// on, which the caller reads off the buses' nominal voltages.
    pub fn grow(&mut self, net: &Network, from: i32, id: ElemId, tiers: &[Tier])
        requires
            id_valid(net.branches@, net.transformers@, id),
            tiers@.len() == id_terminals(net.branches@, net.transformers@, id).len(),
            parent_roomy(old(self).placed@, from),
        ensures
            final(self).placed@ == grown(
                old(self).placed@,
                from,
                id_terminals(net.branches@, net.transformers@, id),
                tiers@,
            ),
            final(self).hidden_keys() == old(self).hidden_keys().remove(
                key_spec(net.branches@, net.transformers@, id),
            ),
            final(self).visible_spec(net.branches@, net.transformers@, id),
    {
        let ghost start = self.placed@;
        let terms = net.element(id).terminals();
        let mut k: usize = 0;
        proof {
            assert(terms@.take(0) =~= Seq::<i32>::empty());
        }
        while k < terms.len()
            invariant
                k <= terms@.len(),
                tiers@.len() == terms@.len(),
                self.placed@ == grown(start, from, terms@.take(k as int), tiers@),
                self.hidden@ == old(self).hidden@,
                parent_roomy(self.placed@, from),
            decreases terms@.len() - k,
        {
            let b = terms[k];
            proof {
                assert(terms@.take(k + 1).drop_last() =~= terms@.take(k as int));
                assert(terms@.take(k + 1).last() == b);
            }
            if !self.placed.contains_key(&b) {
                let cell = find_free_slot(self, from, tiers[k]);
                proof {
                    lemma_parent_stays_roomy(self.placed@, from, b, tiers@[k as int]);
                }
                self.place(b, cell.0, cell.1);
            }
            k = k + 1;
        }
        proof {
            assert(terms@.take(terms@.len() as int) =~= terms@);
            lemma_grown_places_terminals(start, from, terms@, tiers@);
            assert forall|k: int| 0 <= k < terms@.len() implies self.placed@.contains_key(
                #[trigger] terms@[k],
            ) by {
                assert(terms@.contains(terms@[k]));
            }
        }
        let key = elem_key(net, id);
        self.unsuppress(&key);
    }
}


/// Taking a bus off the drawing takes every element ending on it off too, whether or not it
/// was suppressed.
pub proof fn lemma_removed_bus_hides_its_elements(
    d: Diagram,
    removed: Diagram,
    bus: i32,
    bs: Seq<crate::psse::raw::Branch>,
    ts: Seq<crate::psse::raw::Transformer>,
    id: ElemId,
)
    requires
        removed.placed@ == d.placed@.remove(bus),
        id_terminals(bs, ts, id).contains(bus),
    ensures
        !removed.visible_spec(bs, ts, id),
{
    let t = id_terminals(bs, ts, id);
    let k = choose|k: int| 0 <= k < t.len() && t[k] == bus;
    assert(!removed.placed@.contains_key(t[k]));
}


/// A suppressed element stays off the drawing, wherever its buses are.
pub proof fn lemma_suppressed_stays_off(
    d: Diagram,
    bs: Seq<crate::psse::raw::Branch>,
    ts: Seq<crate::psse::raw::Transformer>,
    id: ElemId,
)
    requires
        d.hidden_keys().contains(key_spec(bs, ts, id)),
    ensures
        !d.visible_spec(bs, ts, id),
{
}

/// A free cell holds no bus: no two buses the search places land on the same cell.
pub proof fn lemma_free_cell_unoccupied(placed: Map<i32, BusNode>, gx: int, gy: int)
    requires
        cell_free(placed, gx, gy),
    ensures
        forall|b: i32| #[trigger] placed.contains_key(b) ==> placed[b].gx != gx || placed[b].gy != gy,
{
}


proof fn lemma_grown_prefix(placed: Map<i32, BusNode>, from: i32, t: Seq<i32>, tiers: Seq<Tier>, m: int)
    requires
        0 <= m <= t.len(),
    ensures
        forall|b: i32|
            grown(placed, from, t.take(m), tiers).contains_key(b) ==> #[trigger] grown(
                placed,
                from,
                t,
                tiers,
            ).contains_key(b) && grown(placed, from, t, tiers)[b] == grown(
                placed,
                from,
                t.take(m),
                tiers,
            )[b],
    decreases t.len() - m,
{
    if m < t.len() {
        lemma_grown_prefix(placed, from, t, tiers, m + 1);
        assert(t.take(m + 1).drop_last() =~= t.take(m));
    } else {
        assert(t.take(m) =~= t);
    }
}

/// Each terminal growing brings on is placed by its own tier: the `k`-th terminal, when it is
/// not on the drawing by then, goes where the search from `from` on the side `tiers[k]`
/// settles, given the buses placed before it; a terminal already there stays put.
pub proof fn lemma_grown_uses_each_tier(
    placed: Map<i32, BusNode>,
    from: i32,
    t: Seq<i32>,
    tiers: Seq<Tier>,
    k: int,
)
    requires
        0 <= k < t.len(),
    ensures
        ({
            let before = grown(placed, from, t.take(k), tiers);
            let after = grown(placed, from, t, tiers);
            let c = slot_spec(before, from, tiers[k]);
            &&& !before.contains_key(t[k]) ==> after[t[k]] == BusNode {
                gx: c.0,
                gy: c.1,
                orient: Orientation::Horizontal,
            }
            &&& before.contains_key(t[k]) ==> after[t[k]] == before[t[k]]
        }),
{
    let t1 = t.take(k + 1);
    assert(t1.drop_last() =~= t.take(k));
    assert(t1.last() == t[k]);
    lemma_grown_prefix(placed, from, t, tiers, k + 1);
    let before = grown(placed, from, t.take(k), tiers);
    let g1 = grown(placed, from, t1, tiers);
    assert(t1.len() == k + 1);
    assert(g1 == if before.contains_key(t[k]) {
        before
    } else {
        let c = slot_spec(before, from, tiers[k]);
        before.insert(t[k], BusNode { gx: c.0, gy: c.1, orient: Orientation::Horizontal })
    });
    assert(g1.contains_key(t[k]));
    assert(grown(placed, from, t, tiers).contains_key(t[k]));
    assert(grown(placed, from, t, tiers)[t[k]] == g1[t[k]]);
}


/// The buses an element would bring onto the drawing are exactly its terminals not yet on it.
pub proof fn lemma_unplaced_members(placed: Map<i32, BusNode>, t: Seq<i32>, b: i32)
    ensures
        unplaced_of(placed, t).contains(b) <==> t.contains(b) && !placed.contains_key(b),
    decreases t.len(),
{
    if t.len() > 0 {
        let rest = t.drop_last();
        lemma_unplaced_members(placed, rest, b);
        let u = unplaced_of(placed, t);
        let ur = unplaced_of(placed, rest);
        if ur.contains(b) {
            let k = choose|k: int| 0 <= k < ur.len() && ur[k] == b;
            if !placed.contains_key(t.last()) {
                assert(u[k] == b);
            }
        }
        if u.contains(b) && !placed.contains_key(t.last()) {
            let k = choose|k: int| 0 <= k < u.len() && u[k] == b;
            if k < ur.len() {
                assert(ur[k] == b);
            }
        }
        if !placed.contains_key(t.last()) {
            assert(u[ur.len() as int] == t.last());
        }
        if t.contains(b) {
            let k = choose|k: int| 0 <= k < t.len() && t[k] == b;
            if k < rest.len() {
                assert(rest[k] == b);
            }
        }
        if rest.contains(b) {
            let k = choose|k: int| 0 <= k < rest.len() && rest[k] == b;
            assert(t[k] == b);
        }
    }
}

/// Growing from a bus is offered along exactly the incident elements that would bring a new
/// bus onto the drawing, each with just its terminals that are not placed yet.
pub proof fn lemma_growth_offers(
    placed: Map<i32, BusNode>,
    bs: Seq<crate::psse::raw::Branch>,
    ts: Seq<crate::psse::raw::Transformer>,
    inc: Seq<ElemId>,
    id: ElemId,
    b: i32,
)
    ensures
        forall|k: int|
            0 <= k < growth_spec(placed, bs, ts, inc).len() ==> inc.contains(
                (#[trigger] growth_spec(placed, bs, ts, inc)[k]).0,
            ) && growth_spec(placed, bs, ts, inc)[k].1.len() > 0,
        forall|k: int|
            0 <= k < growth_spec(placed, bs, ts, inc).len() && (#[trigger] growth_spec(placed, bs, ts, inc)[k]).0
                == id ==> (growth_spec(placed, bs, ts, inc)[k].1.contains(b) <==> id_terminals(bs, ts, id).contains(b)
                && !placed.contains_key(b)),
        inc.contains(id) && id_terminals(bs, ts, id).contains(b) && !placed.contains_key(b) ==> exists|k: int|
            0 <= k < growth_spec(placed, bs, ts, inc).len() && (#[trigger] growth_spec(placed, bs, ts, inc)[k]).0 == id,
    decreases inc.len(),
{
    if inc.len() > 0 {
        let rest = inc.drop_last();
        let last = inc.last();
        lemma_growth_offers(placed, bs, ts, rest, id, b);
        let g = growth_spec(placed, bs, ts, inc);
        let gr = growth_spec(placed, bs, ts, rest);
        let u = unplaced_of(placed, id_terminals(bs, ts, last));
        lemma_unplaced_members(placed, id_terminals(bs, ts, last), b);
        assert forall|k: int| 0 <= k < gr.len() implies inc.contains(#[trigger] gr[k].0) by {
            let m = choose|m: int| 0 <= m < rest.len() && rest[m] == gr[k].0;
            assert(inc[m] == gr[k].0);
        }
        assert(inc[inc.len() - 1] == last);
        if u.len() > 0 {
            assert(g == gr.push((last, u)));
            assert(forall|k: int| 0 <= k < gr.len() ==> g[k] == gr[k]);
        } else {
            assert(g == gr);
        }
        if inc.contains(id) && id_terminals(bs, ts, id).contains(b) && !placed.contains_key(b) {
            if id == last {
                assert(u.contains(b));
                assert(u.len() > 0);
                assert(g[gr.len() as int].0 == id);
            } else {
                let m = choose|m: int| 0 <= m < inc.len() && inc[m] == id;
                assert(rest[m] == id);
                let k = choose|k: int| 0 <= k < gr.len() && (#[trigger] gr[k]).0 == id;
                assert(g[k] == gr[k]);
            }
        }
    }
}

} // verus!
