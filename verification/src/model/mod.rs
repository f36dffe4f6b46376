//! The network as the diagram needs to see it.
//!
//! [`Network`] wraps a parsed [`RawCase`] with the two lookups the drawing workflow depends on:
//! what connects to a given bus (so a diagram can be grown outward from one), and what equipment
//! hangs off it (so the bus can be drawn with its generators, loads and shunts).

use std::collections::BTreeMap;

use vstd::prelude::*;

use crate::text::{chars_of, extend_chars, int_decimal, int_decimal_chars, string_of};

use crate::psse::raw::{
    transformer_terminals, Branch, Bus, FixedShunt, Generator, Load, RawCase, SwitchedShunt,
    Transformer,
};

verus! {

/// A branch or transformer, identified by its index in the network's list.
#[derive(Debug, Clone, Copy, PartialEq, Eq, PartialOrd, Ord, Hash, Structural)]
pub enum ElemId {
    Branch(usize),
    Transformer(usize),
}

/// Borrowed view of whichever element an [`ElemId`] names.
#[derive(Debug, Clone, Copy)]
pub enum Element<'a> {
    Branch(&'a Branch),
    Transformer(&'a Transformer),
}

/// The buses a branch or transformer connects, in order.
pub open spec fn element_terminals(e: Element) -> Seq<i32> {
    match e {
        Element::Branch(b) => seq![b.from, b.to],
        Element::Transformer(t) => transformer_terminals(t.i, t.j, t.k),
    }
}

impl Element<'_> {
    /// The buses the element connects, in order.
    pub fn terminals(&self) -> (t: Vec<i32>)
        ensures
            t@ == element_terminals(*self),
    {
        match self {
            Element::Branch(b) => vec![b.from, b.to],
            Element::Transformer(t) => t.terminals(),
        }
    }

    /// The element's circuit identifier.
    pub fn ckt(&self) -> (c: &str)
        ensures
            c@ == match *self {
                Element::Branch(b) => b.ckt@,
                Element::Transformer(t) => t.ckt@,
            },
    {
        match self {
            Element::Branch(b) => b.ckt.as_str(),
            Element::Transformer(t) => t.ckt.as_str(),
        }
    }

    /// Whether the element's status puts it in service.
    pub fn in_service(&self) -> (r: bool)
        ensures
            r == match *self {
                Element::Branch(b) => b.status != 0,
                Element::Transformer(t) => t.status != 0,
            },
    {
        match self {
            Element::Branch(b) => b.status != 0,
            Element::Transformer(t) => t.status != 0,
        }
    }
}

/// Indices of the equipment connected to one bus.
#[derive(Debug, Clone)]
pub struct Attached {
    pub generators: Vec<usize>,
    pub loads: Vec<usize>,
    pub fixed_shunts: Vec<usize>,
    pub switched_shunts: Vec<usize>,
}

impl Attached {
    /// How many symbols will hang off the bus bar, which sets how long to draw it.
    pub fn count(&self) -> (n: usize)
        requires
            self.generators@.len() + self.loads@.len() + self.fixed_shunts@.len()
                + self.switched_shunts@.len() <= usize::MAX,
        ensures
            n == self.generators@.len() + self.loads@.len() + self.fixed_shunts@.len()
                + self.switched_shunts@.len(),
    {
        self.generators.len() + self.loads.len() + self.fixed_shunts.len()
            + self.switched_shunts.len()
    }
}

/// The unordered bus pairs a run of terminals spans: each terminal with every later one, the
/// smaller bus number first.
pub open spec fn pairs_spec(t: Seq<i32>) -> Seq<(i32, i32)>
    decreases t.len(),
{
    if t.len() == 0 {
        Seq::empty()
    } else {
        Seq::new(
            (t.len() - 1) as nat,
            |j: int|
                if t[0] <= t[j + 1] {
                    (t[0], t[j + 1])
                } else {
                    (t[j + 1], t[0])
                },
        ) + pairs_spec(t.drop_first())
    }
}

/// Unordered bus pairs an element spans; a three-winding transformer spans three.
pub fn terminal_pairs(terminals: &[i32]) -> (pairs: Vec<(i32, i32)>)
    ensures
        pairs@ == pairs_spec(terminals@),
{
    let mut pairs: Vec<(i32, i32)> = Vec::new();
    let mut i: usize = 0;
    proof {
        assert(terminals@.skip(0) =~= terminals@);
    }
    while i < terminals.len()
        invariant
            i <= terminals@.len(),
            pairs_spec(terminals@) == pairs@ + pairs_spec(terminals@.skip(i as int)),
        decreases terminals@.len() - i,
    {
        let a = terminals[i];
        let ghost rest = terminals@.skip(i as int);
        let ghost before = pairs@;
        let mut j = i + 1;
        while j < terminals.len()
            invariant
                i < j <= terminals@.len(),
                a == terminals@[i as int],
                rest == terminals@.skip(i as int),
                pairs@ == before + Seq::new(
                    (j - i - 1) as nat,
                    |m: int|
                        if rest[0] <= rest[m + 1] {
                            (rest[0], rest[m + 1])
                        } else {
                            (rest[m + 1], rest[0])
                        },
                ),
            decreases terminals@.len() - j,
        {
            let b = terminals[j];
            let p = if a <= b {
                (a, b)
            } else {
                (b, a)
            };
            pairs.push(p);
            j = j + 1;
            proof {
                assert(rest[j - i - 1] == b);
                assert(pairs@ =~= before + Seq::new(
                    (j - i - 1) as nat,
                    |m: int|
                        if rest[0] <= rest[m + 1] {
                            (rest[0], rest[m + 1])
                        } else {
                            (rest[m + 1], rest[0])
                        },
                ));
            }
        }
        proof {
            assert(rest.drop_first() =~= terminals@.skip(i + 1));
        }
        i = i + 1;
    }
    proof {
        assert(terminals@.skip(terminals@.len() as int) =~= Seq::<i32>::empty());
        assert(pairs@ + Seq::<(i32, i32)>::empty() =~= pairs@);
    }
    pairs
}


/// The buses of `bs` keyed by number; a later record for the same number replaces an earlier one.
pub open spec fn bus_map(bs: Seq<Bus>) -> Map<i32, Bus>
    decreases bs.len(),
{
    if bs.len() == 0 {
        Map::empty()
    } else {
        bus_map(bs.drop_last()).insert(bs.last().number, bs.last())
    }
}

/// The branches of `bs` whose both ends are buses in `dom`.
pub open spec fn known_branches(bs: Seq<Branch>, dom: Set<i32>) -> Seq<Branch>
    decreases bs.len(),
{
    if bs.len() == 0 {
        Seq::empty()
    } else {
        let rest = known_branches(bs.drop_last(), dom);
        let b = bs.last();
        if dom.contains(b.from) && dom.contains(b.to) {
            rest.push(b)
        } else {
            rest
        }
    }
}

/// Whether every terminal of transformer `t` is a bus in `dom`.
pub open spec fn transformer_known(t: Transformer, dom: Set<i32>) -> bool {
    forall|k: int|
        0 <= k < transformer_terminals(t.i, t.j, t.k).len() ==> dom.contains(
            #[trigger] transformer_terminals(t.i, t.j, t.k)[k],
        )
}

/// The transformers of `ts` whose every terminal is a bus in `dom`.
pub open spec fn known_transformers(ts: Seq<Transformer>, dom: Set<i32>) -> Seq<Transformer>
    decreases ts.len(),
{
    if ts.len() == 0 {
        Seq::empty()
    } else {
        let rest = known_transformers(ts.drop_last(), dom);
        if transformer_known(ts.last(), dom) {
            rest.push(ts.last())
        } else {
            rest
        }
    }
}

/// The element ids of a network with `nb` branches and `nt` transformers: branches first.
pub open spec fn element_ids(nb: nat, nt: nat) -> Seq<ElemId> {
    Seq::new(
        nb + nt,
        |i: int|
            if i < nb {
                ElemId::Branch(i as usize)
            } else {
                ElemId::Transformer((i - nb) as usize)
            },
    )
}

/// Whether `id` names an element of branch list `bs` and transformer list `ts`.
pub open spec fn id_valid(bs: Seq<Branch>, ts: Seq<Transformer>, id: ElemId) -> bool {
    match id {
        ElemId::Branch(i) => i < bs.len(),
        ElemId::Transformer(i) => i < ts.len(),
    }
}

/// The buses element `id` connects.
pub open spec fn id_terminals(bs: Seq<Branch>, ts: Seq<Transformer>, id: ElemId) -> Seq<i32> {
    match id {
        ElemId::Branch(i) => seq![bs[i as int].from, bs[i as int].to],
        ElemId::Transformer(i) => transformer_terminals(
            ts[i as int].i,
            ts[i as int].j,
            ts[i as int].k,
        ),
    }
}

/// How many times `bus` occurs in `t`.
pub open spec fn count_of(t: Seq<i32>, bus: i32) -> nat
    decreases t.len(),
{
    if t.len() == 0 {
        0
    } else {
        count_of(t.drop_last(), bus) + if t.last() == bus {
            1nat
        } else {
            0nat
        }
    }
}

/// `id`, `n` times.
pub open spec fn repeat_id(id: ElemId, n: nat) -> Seq<ElemId> {
    Seq::new(n, |_i: int| id)
}

/// The elements among `ids` touching `bus`, each once per terminal it has there.
pub open spec fn incident_in(bs: Seq<Branch>, ts: Seq<Transformer>, ids: Seq<ElemId>, bus: i32) -> Seq<
    ElemId,
>
    decreases ids.len(),
{
    if ids.len() == 0 {
        Seq::empty()
    } else {
        incident_in(bs, ts, ids.drop_last(), bus) + repeat_id(
            ids.last(),
            count_of(id_terminals(bs, ts, ids.last()), bus),
        )
    }
}

/// Every branch and transformer touching `bus`, in list order, branches first.
pub open spec fn incident_spec(bs: Seq<Branch>, ts: Seq<Transformer>, bus: i32) -> Seq<ElemId> {
    incident_in(bs, ts, element_ids(bs.len(), ts.len()), bus)
}

/// How many times `p` occurs in `ps`.
pub open spec fn count_pair(ps: Seq<(i32, i32)>, p: (i32, i32)) -> nat
    decreases ps.len(),
{
    if ps.len() == 0 {
        0
    } else {
        count_pair(ps.drop_last(), p) + if ps.last() == p {
            1nat
        } else {
            0nat
        }
    }
}

/// How many of the terminal pairs spanned by the elements `ids` are `p`.
pub open spec fn pair_count_in(bs: Seq<Branch>, ts: Seq<Transformer>, ids: Seq<ElemId>, p: (i32, i32)) -> nat
    decreases ids.len(),
{
    if ids.len() == 0 {
        0
    } else {
        pair_count_in(bs, ts, ids.drop_last(), p) + count_pair(
            pairs_spec(id_terminals(bs, ts, ids.last())),
            p,
        )
    }
}

/// How many elements of the network span the bus pair `p`, counting each pair they span.
pub open spec fn pair_count(bs: Seq<Branch>, ts: Seq<Transformer>, p: (i32, i32)) -> nat {
    pair_count_in(bs, ts, element_ids(bs.len(), ts.len()), p)
}

/// The indices among the first `n` of `bus_of` that are `bus`, ascending.
pub open spec fn equip_at(bus_of: Seq<i32>, n: nat, bus: i32) -> Seq<usize>
    decreases n,
{
    if n == 0 {
        Seq::empty()
    } else {
        let rest = equip_at(bus_of, (n - 1) as nat, bus);
        if bus_of[n - 1] == bus {
            rest.push((n - 1) as usize)
        } else {
            rest
        }
    }
}

/// Equipment indices on one bus: generators, loads, fixed shunts, switched shunts.
pub struct AttachedSpec {
    pub generators: Seq<usize>,
    pub loads: Seq<usize>,
    pub fixed_shunts: Seq<usize>,
    pub switched_shunts: Seq<usize>,
}

impl View for Attached {
    type V = AttachedSpec;

    open spec fn view(&self) -> AttachedSpec {
        AttachedSpec {
            generators: self.generators@,
            loads: self.loads@,
            fixed_shunts: self.fixed_shunts@,
            switched_shunts: self.switched_shunts@,
        }
    }
}

/// The bus each generator of `g` is on.
pub open spec fn generator_buses(g: Seq<Generator>) -> Seq<i32> {
    g.map_values(|x: Generator| x.bus)
}

/// The bus each load of `l` is on.
pub open spec fn load_buses(l: Seq<Load>) -> Seq<i32> {
    l.map_values(|x: Load| x.bus)
}

/// The bus each fixed shunt of `f` is on.
pub open spec fn fixed_shunt_buses(f: Seq<FixedShunt>) -> Seq<i32> {
    f.map_values(|x: FixedShunt| x.bus)
}

/// The bus each switched shunt of `s` is on.
pub open spec fn switched_shunt_buses(s: Seq<SwitchedShunt>) -> Seq<i32> {
    s.map_values(|x: SwitchedShunt| x.bus)
}

/// The equipment on `bus` among the first `ng` generators, `nl` loads, `nf` fixed and `ns`
/// switched shunts, when `bus` is a bus of the case and carries any.
pub open spec fn attached_upto(
    dom: Set<i32>,
    gb: Seq<i32>,
    lb: Seq<i32>,
    fb: Seq<i32>,
    sb: Seq<i32>,
    ng: nat,
    nl: nat,
    nf: nat,
    ns: nat,
    bus: i32,
) -> Option<AttachedSpec> {
    let a = AttachedSpec {
        generators: equip_at(gb, ng, bus),
        loads: equip_at(lb, nl, bus),
        fixed_shunts: equip_at(fb, nf, bus),
        switched_shunts: equip_at(sb, ns, bus),
    };
    if dom.contains(bus) && (a.generators.len() > 0 || a.loads.len() > 0 || a.fixed_shunts.len() > 0
        || a.switched_shunts.len() > 0) {
        Some(a)
    } else {
        None
    }
}


/// The incidence list kept for `bus`, or nothing.
pub open spec fn list_at(m: Map<i32, Vec<ElemId>>, bus: i32) -> Seq<ElemId> {
    if m.contains_key(bus) {
        m[bus]@
    } else {
        Seq::empty()
    }
}

fn push_incident(m: &mut BTreeMap<i32, Vec<ElemId>>, bus: i32, id: ElemId)
    ensures
        forall|b: i32|
            #![trigger list_at(final(m)@, b)]
            list_at(final(m)@, b) == if b == bus {
                list_at(old(m)@, bus).push(id)
            } else {
                list_at(old(m)@, b)
            },
{
    let mut v = match m.remove(&bus) {
        Some(v) => v,
        None => Vec::new(),
    };
    v.push(id);
    m.insert(bus, v);
}

/// The count kept for bus pair `p`, or zero.
pub open spec fn count_at(m: Map<(i32, i32), usize>, p: (i32, i32)) -> nat {
    if m.contains_key(p) {
        m[p] as nat
    } else {
        0
    }
}

fn bump_pair(m: &mut BTreeMap<(i32, i32), usize>, p: (i32, i32))
    requires
        count_at(old(m)@, p) < usize::MAX,
    ensures
        forall|q: (i32, i32)|
            #![trigger count_at(final(m)@, q)]
            count_at(final(m)@, q) == if q == p {
                count_at(old(m)@, p) + 1
            } else {
                count_at(old(m)@, q)
            },
{
    let n = match m.get(&p) {
        Some(n) => *n,
        None => 0,
    };
    m.insert(p, n + 1);
}

/// Which of a bus's equipment lists an index goes into.
enum EquipList {
    Generators,
    Loads,
    FixedShunts,
    SwitchedShunts,
}

/// The equipment kept for `bus`, if any.
pub open spec fn attached_at(m: Map<i32, Attached>, bus: i32) -> Option<AttachedSpec> {
    if m.contains_key(bus) {
        Some(m[bus]@)
    } else {
        None
    }
}

/// A bus with nothing hanging off it.
pub open spec fn no_equipment() -> AttachedSpec {
    AttachedSpec {
        generators: Seq::empty(),
        loads: Seq::empty(),
        fixed_shunts: Seq::empty(),
        switched_shunts: Seq::empty(),
    }
}

spec fn with_index(a: AttachedSpec, list: EquipList, i: usize) -> AttachedSpec {
    match list {
        EquipList::Generators => AttachedSpec { generators: a.generators.push(i), ..a },
        EquipList::Loads => AttachedSpec { loads: a.loads.push(i), ..a },
        EquipList::FixedShunts => AttachedSpec { fixed_shunts: a.fixed_shunts.push(i), ..a },
        EquipList::SwitchedShunts => AttachedSpec { switched_shunts: a.switched_shunts.push(i), ..a },
    }
}

fn attach(m: &mut BTreeMap<i32, Attached>, bus: i32, list: EquipList, i: usize)
    ensures
        forall|b: i32|
            #![trigger attached_at(final(m)@, b)]
            attached_at(final(m)@, b) == if b == bus {
                Some(
                    with_index(
                        match attached_at(old(m)@, bus) {
                            Some(a) => a,
                            None => no_equipment(),
                        },
                        list,
                        i,
                    ),
                )
            } else {
                attached_at(old(m)@, b)
            },
{
    let mut a = match m.remove(&bus) {
        Some(a) => a,
        None => Attached {
            generators: Vec::new(),
            loads: Vec::new(),
            fixed_shunts: Vec::new(),
            switched_shunts: Vec::new(),
        },
    };
    match list {
        EquipList::Generators => a.generators.push(i),
        EquipList::Loads => a.loads.push(i),
        EquipList::FixedShunts => a.fixed_shunts.push(i),
        EquipList::SwitchedShunts => a.switched_shunts.push(i),
    }
    m.insert(bus, a);
}


fn build_bus_map(buses: Vec<Bus>) -> (m: BTreeMap<i32, Bus>)
    ensures
        m@ == bus_map(buses@),
{
    let mut m: BTreeMap<i32, Bus> = BTreeMap::new();
    let ghost all = buses@;
    for b in it: buses.into_iter()
        invariant
            all == it.seq(),
            m@ == bus_map(it.seq().take(it.index() as int)),
    {
        proof {
            assert(it.seq().take(it.index() + 1).drop_last() =~= it.seq().take(it.index() as int));
        }
        m.insert(b.number, b);
    }
    proof {
        assert(all.take(all.len() as int) =~= all);
    }
    m
}


fn keep_known_branches(bs: Vec<Branch>, buses: &BTreeMap<i32, Bus>) -> (r: (Vec<Branch>, usize))
    ensures
        r.0@ == known_branches(bs@, buses@.dom()),
        r.0@.len() + r.1 == bs@.len(),
{
    let mut kept: Vec<Branch> = Vec::new();
    let mut dropped: usize = 0;
    let n = bs.len();
    let ghost all = bs@;
    for b in it: bs.into_iter()
        invariant
            all == it.seq(),
            all.len() == n,
            kept@ == known_branches(it.seq().take(it.index() as int), buses@.dom()),
            kept@.len() + dropped == it.index(),
    {
        proof {
            assert(it.seq().take(it.index() + 1).drop_last() =~= it.seq().take(it.index() as int));
        }
        // Records pointing at buses the case never defined cannot be drawn; drop them rather
        // than carry references that every consumer would have to re-check.
        if buses.contains_key(&b.from) && buses.contains_key(&b.to) {
            kept.push(b);
        } else {
            dropped = dropped + 1;
        }
    }
    proof {
        assert(all.take(all.len() as int) =~= all);
    }
    (kept, dropped)
}

fn all_known(terminals: &[i32], buses: &BTreeMap<i32, Bus>) -> (r: bool)
    ensures
        r == forall|k: int| 0 <= k < terminals@.len() ==> buses@.dom().contains(#[trigger] terminals@[k]),
{
    let mut k: usize = 0;
    while k < terminals.len()
        invariant
            k <= terminals@.len(),
            forall|m: int| 0 <= m < k ==> buses@.dom().contains(#[trigger] terminals@[m]),
        decreases terminals@.len() - k,
    {
        if !buses.contains_key(&terminals[k]) {
            return false;
        }
        k = k + 1;
    }
    true
}

fn keep_known_transformers(ts: Vec<Transformer>, buses: &BTreeMap<i32, Bus>) -> (r: (
    Vec<Transformer>,
    usize,
))
    ensures
        r.0@ == known_transformers(ts@, buses@.dom()),
        r.0@.len() + r.1 == ts@.len(),
{
    let mut kept: Vec<Transformer> = Vec::new();
    let mut dropped: usize = 0;
    let n = ts.len();
    let ghost all = ts@;
    for t in it: ts.into_iter()
        invariant
            all == it.seq(),
            all.len() == n,
            kept@ == known_transformers(it.seq().take(it.index() as int), buses@.dom()),
            kept@.len() + dropped == it.index(),
    {
        proof {
            assert(it.seq().take(it.index() + 1).drop_last() =~= it.seq().take(it.index() as int));
        }
        let terminals = t.terminals();
        if all_known(terminals.as_slice(), buses) {
            kept.push(t);
        } else {
            dropped = dropped + 1;
        }
    }
    proof {
        assert(all.take(all.len() as int) =~= all);
    }
    (kept, dropped)
}


proof fn lemma_count_of_take(t: Seq<i32>, k: int, bus: i32)
    requires
        0 <= k < t.len(),
    ensures
        count_of(t.take(k + 1), bus) == count_of(t.take(k), bus) + if t[k] == bus {
            1nat
        } else {
            0nat
        },
{
    assert(t.take(k + 1).drop_last() =~= t.take(k));
}

proof fn lemma_count_pair_take(ps: Seq<(i32, i32)>, k: int, p: (i32, i32))
    requires
        0 <= k < ps.len(),
    ensures
        count_pair(ps.take(k + 1), p) == count_pair(ps.take(k), p) + if ps[k] == p {
            1nat
        } else {
            0nat
        },
{
    assert(ps.take(k + 1).drop_last() =~= ps.take(k));
}

proof fn lemma_count_pair_le(ps: Seq<(i32, i32)>, p: (i32, i32))
    ensures
        count_pair(ps, p) <= ps.len(),
    decreases ps.len(),
{
    if ps.len() > 0 {
        lemma_count_pair_le(ps.drop_last(), p);
    }
}

proof fn lemma_pairs_len(t: Seq<i32>)
    requires
        2 <= t.len() <= 3,
    ensures
        pairs_spec(t).len() <= 3,
{
    let r = t.drop_first();
    assert(pairs_spec(r).len() == (r.len() - 1) + pairs_spec(r.drop_first()).len());
    let r2 = r.drop_first();
    if r2.len() > 0 {
        assert(pairs_spec(r2).len() == (r2.len() - 1) + pairs_spec(r2.drop_first()).len());
        assert(r2.drop_first().len() == 0);
    }
}

fn element_id_at(nb: usize, nt: usize, i: usize) -> (id: ElemId)
    requires
        i < nb + nt,
    ensures
        id == element_ids(nb as nat, nt as nat)[i as int],
{
    if i < nb {
        ElemId::Branch(i)
    } else {
        ElemId::Transformer(i - nb)
    }
}

fn terminals_of(bs: &Vec<Branch>, ts: &Vec<Transformer>, id: ElemId) -> (t: Vec<i32>)
    requires
        id_valid(bs@, ts@, id),
    ensures
        t@ == id_terminals(bs@, ts@, id),
        2 <= t@.len() <= 3,
{
    match id {
        ElemId::Branch(i) => vec![bs[i].from, bs[i].to],
        ElemId::Transformer(i) => ts[i].terminals(),
    }
}

fn build_incidence(bs: &Vec<Branch>, ts: &Vec<Transformer>) -> (r: (
    BTreeMap<i32, Vec<ElemId>>,
    BTreeMap<(i32, i32), usize>,
))
    requires
        bs@.len() + ts@.len() <= usize::MAX / 4,
    ensures
        forall|b: i32| #[trigger] list_at(r.0@, b) == incident_spec(bs@, ts@, b),
        forall|p: (i32, i32)| #[trigger] count_at(r.1@, p) == pair_count(bs@, ts@, p),
{
    let nb = bs.len();
    let nt = ts.len();
    let ghost ids = element_ids(nb as nat, nt as nat);
    let mut inc: BTreeMap<i32, Vec<ElemId>> = BTreeMap::new();
    let mut pc: BTreeMap<(i32, i32), usize> = BTreeMap::new();
    let mut i: usize = 0;
    proof {
        assert(ids.take(0) =~= Seq::<ElemId>::empty());
    }
    while i < nb + nt
        invariant
            nb == bs@.len(),
            nt == ts@.len(),
            nb + nt <= usize::MAX / 4,
            ids == element_ids(nb as nat, nt as nat),
            i <= nb + nt,
            forall|b: i32| #[trigger] list_at(inc@, b) == incident_in(bs@, ts@, ids.take(i as int), b),
            forall|p: (i32, i32)|
                #[trigger] count_at(pc@, p) == pair_count_in(bs@, ts@, ids.take(i as int), p),
            forall|p: (i32, i32)| #[trigger] count_at(pc@, p) <= 3 * i,
        decreases nb + nt - i,
    {
        let id = element_id_at(nb, nt, i);
        let terms = terminals_of(bs, ts, id);
        let ghost inc0 = inc@;
        let ghost pc0 = pc@;
        proof {
            assert(ids.take(i + 1).drop_last() =~= ids.take(i as int));
            assert(ids.take(i + 1).last() == id);
        }
        let mut k: usize = 0;
        proof {
            assert forall|b: i32| #[trigger] list_at(inc@, b) == incident_in(bs@, ts@, ids.take(i as int), b)
                + repeat_id(id, count_of(terms@.take(k as int), b)) by {
                assert(terms@.take(0) =~= Seq::<i32>::empty());
                assert(incident_in(bs@, ts@, ids.take(i as int), b) + repeat_id(id, 0) =~= incident_in(
                    bs@,
                    ts@,
                    ids.take(i as int),
                    b,
                ));
            }
        }
        while k < terms.len()
            invariant
                k <= terms@.len(),
                forall|b: i32| #[trigger] list_at(inc@, b) == incident_in(bs@, ts@, ids.take(i as int), b)
                    + repeat_id(id, count_of(terms@.take(k as int), b)),
            decreases terms@.len() - k,
        {
            let ghost before = inc@;
            push_incident(&mut inc, terms[k], id);
            proof {
                assert forall|b: i32| #[trigger] list_at(inc@, b) == incident_in(
                    bs@,
                    ts@,
                    ids.take(i as int),
                    b,
                ) + repeat_id(id, count_of(terms@.take(k + 1), b)) by {
                    lemma_count_of_take(terms@, k as int, b);
                    if b == terms@[k as int] {
                        assert(list_at(before, b).push(id) =~= incident_in(
                            bs@,
                            ts@,
                            ids.take(i as int),
                            b,
                        ) + repeat_id(id, count_of(terms@.take(k + 1), b)));
                    }
                }
            }
            k = k + 1;
        }
        proof {
            assert(terms@.take(terms@.len() as int) =~= terms@);
        }
        let pairs = terminal_pairs(terms.as_slice());
        proof {
            lemma_pairs_len(terms@);
        }
        let mut q: usize = 0;
        proof {
            assert forall|p: (i32, i32)| #[trigger] count_at(pc@, p) == pair_count_in(
                bs@,
                ts@,
                ids.take(i as int),
                p,
            ) + count_pair(pairs@.take(q as int), p) by {
                assert(pairs@.take(0) =~= Seq::<(i32, i32)>::empty());
            }
        }
        while q < pairs.len()
            invariant
                pairs@ == pairs_spec(terms@),
                pairs@.len() <= 3,
                q <= pairs@.len(),
                i < nb + nt,
                nb + nt <= usize::MAX / 4,
                forall|p: (i32, i32)| #[trigger] count_at(pc@, p) == pair_count_in(
                    bs@,
                    ts@,
                    ids.take(i as int),
                    p,
                ) + count_pair(pairs@.take(q as int), p),
                forall|p: (i32, i32)| #[trigger] count_at(pc0, p) <= 3 * i,
                forall|p: (i32, i32)| #[trigger] count_at(pc0, p) == pair_count_in(
                    bs@,
                    ts@,
                    ids.take(i as int),
                    p,
                ),
            decreases pairs@.len() - q,
        {
            proof {
                let p = pairs@[q as int];
                lemma_count_pair_le(pairs@.take(q as int), p);
                assert(count_at(pc0, p) <= 3 * i);
                assert(count_at(pc@, p) == count_at(pc0, p) + count_pair(pairs@.take(q as int), p));
                assert(count_at(pc@, p) < usize::MAX);
            }
            let ghost before = pc@;
            bump_pair(&mut pc, pairs[q]);
            proof {
                assert forall|p: (i32, i32)| #[trigger] count_at(pc@, p) == pair_count_in(
                    bs@,
                    ts@,
                    ids.take(i as int),
                    p,
                ) + count_pair(pairs@.take(q + 1), p) by {
                    lemma_count_pair_take(pairs@, q as int, p);
                }
            }
            q = q + 1;
        }
        proof {
            assert(pairs@.take(pairs@.len() as int) =~= pairs@);
            assert forall|p: (i32, i32)| #[trigger] count_at(pc@, p) <= 3 * (i + 1) by {
                lemma_count_pair_le(pairs@, p);
                assert(count_at(pc0, p) <= 3 * i);
                assert(count_at(pc@, p) == count_at(pc0, p) + count_pair(pairs@, p));
            }
        }
        i = i + 1;
    }
    proof {
        assert(ids.take((nb + nt) as int) =~= ids);
    }
    (inc, pc)
}


/// `a` with the indices `s` appended to the list `list` names.
spec fn with_indices(a: AttachedSpec, list: EquipList, s: Seq<usize>) -> AttachedSpec {
    match list {
        EquipList::Generators => AttachedSpec { generators: a.generators + s, ..a },
        EquipList::Loads => AttachedSpec { loads: a.loads + s, ..a },
        EquipList::FixedShunts => AttachedSpec { fixed_shunts: a.fixed_shunts + s, ..a },
        EquipList::SwitchedShunts => AttachedSpec { switched_shunts: a.switched_shunts + s, ..a },
    }
}

spec fn attached_or_none(o: Option<AttachedSpec>) -> AttachedSpec {
    match o {
        Some(a) => a,
        None => no_equipment(),
    }
}

/// Equipment filed under a bus is some of the first `n`, each an index below `n`.
pub proof fn lemma_equip_at_len(bus_of: Seq<i32>, n: nat, bus: i32)
    ensures
        equip_at(bus_of, n, bus).len() <= n,
        forall|k: int| 0 <= k < equip_at(bus_of, n, bus).len() ==> #[trigger] equip_at(bus_of, n, bus)[k] < n,
    decreases n,
{
    if n > 0 {
        lemma_equip_at_len(bus_of, (n - 1) as nat, bus);
    }
}

/// Files equipment index `k` under its bus for every `k` whose bus is in `buses`.
fn attach_list(
    m: &mut BTreeMap<i32, Attached>,
    buses: &BTreeMap<i32, Bus>,
    bus_of: &Vec<i32>,
    list: EquipList,
)
    ensures
        forall|b: i32|
            #![trigger attached_at(final(m)@, b)]
            attached_at(final(m)@, b) == if buses@.dom().contains(b) && equip_at(
                bus_of@,
                bus_of@.len(),
                b,
            ).len() > 0 {
                Some(
                    with_indices(
                        attached_or_none(attached_at(old(m)@, b)),
                        list,
                        equip_at(bus_of@, bus_of@.len(), b),
                    ),
                )
            } else {
                attached_at(old(m)@, b)
            },
{
    let ghost m0 = m@;
    let mut k: usize = 0;
    while k < bus_of.len()
        invariant
            k <= bus_of@.len(),
            forall|b: i32|
                #![trigger attached_at(m@, b)]
                attached_at(m@, b) == if buses@.dom().contains(b) && equip_at(bus_of@, k as nat, b).len()
                    > 0 {
                    Some(
                        with_indices(
                            attached_or_none(attached_at(m0, b)),
                            list,
                            equip_at(bus_of@, k as nat, b),
                        ),
                    )
                } else {
                    attached_at(m0, b)
                },
        decreases bus_of@.len() - k,
    {
        let bus = bus_of[k];
        let ghost before = m@;
        // Equipment on a bus the case never defined is dropped for the same reason branches are.
        if buses.contains_key(&bus) {
            let l = match list {
                EquipList::Generators => EquipList::Generators,
                EquipList::Loads => EquipList::Loads,
                EquipList::FixedShunts => EquipList::FixedShunts,
                EquipList::SwitchedShunts => EquipList::SwitchedShunts,
            };
            attach(m, bus, l, k);
            proof {
                assert forall|b: i32|
                    #![trigger attached_at(m@, b)]
                    attached_at(m@, b) == if buses@.dom().contains(b) && equip_at(
                        bus_of@,
                        (k + 1) as nat,
                        b,
                    ).len() > 0 {
                        Some(
                            with_indices(
                                attached_or_none(attached_at(m0, b)),
                                list,
                                equip_at(bus_of@, (k + 1) as nat, b),
                            ),
                        )
                    } else {
                        attached_at(m0, b)
                    } by {
                    if b == bus {
                        let base = attached_or_none(attached_at(m0, b));
                        let e = equip_at(bus_of@, k as nat, b);
                        assert(equip_at(bus_of@, (k + 1) as nat, b) == e.push(k));
                        if e.len() == 0 {
                            assert(with_indices(base, list, e) =~= base);
                        }
                        assert(attached_or_none(attached_at(before, b)) == with_indices(base, list, e));
                        assert(with_index(with_indices(base, list, e), list, k) =~= with_indices(
                            base,
                            list,
                            e.push(k),
                        ));
                    }
                }
            }
        } else {
            proof {
                assert forall|b: i32|
                    #![trigger attached_at(m@, b)]
                    attached_at(m@, b) == if buses@.dom().contains(b) && equip_at(
                        bus_of@,
                        (k + 1) as nat,
                        b,
                    ).len() > 0 {
                        Some(
                            with_indices(
                                attached_or_none(attached_at(m0, b)),
                                list,
                                equip_at(bus_of@, (k + 1) as nat, b),
                            ),
                        )
                    } else {
                        attached_at(m0, b)
                    } by {
                    if b != bus {
                        assert(equip_at(bus_of@, (k + 1) as nat, b) == equip_at(bus_of@, k as nat, b));
                    }
                }
            }
        }
        k = k + 1;
    }
}

fn generator_bus_list(g: &Vec<Generator>) -> (v: Vec<i32>)
    ensures
        v@ == generator_buses(g@),
{
    let mut v: Vec<i32> = Vec::new();
    let mut k: usize = 0;
    while k < g.len()
        invariant
            k <= g@.len(),
            v@ =~= generator_buses(g@).take(k as int),
        decreases g@.len() - k,
    {
        v.push(g[k].bus);
        k = k + 1;
    }
    v
}

fn load_bus_list(l: &Vec<Load>) -> (v: Vec<i32>)
    ensures
        v@ == load_buses(l@),
{
    let mut v: Vec<i32> = Vec::new();
    let mut k: usize = 0;
    while k < l.len()
        invariant
            k <= l@.len(),
            v@ =~= load_buses(l@).take(k as int),
        decreases l@.len() - k,
    {
        v.push(l[k].bus);
        k = k + 1;
    }
    v
}

fn fixed_shunt_bus_list(f: &Vec<FixedShunt>) -> (v: Vec<i32>)
    ensures
        v@ == fixed_shunt_buses(f@),
{
    let mut v: Vec<i32> = Vec::new();
    let mut k: usize = 0;
    while k < f.len()
        invariant
            k <= f@.len(),
            v@ =~= fixed_shunt_buses(f@).take(k as int),
        decreases f@.len() - k,
    {
        v.push(f[k].bus);
        k = k + 1;
    }
    v
}

fn switched_shunt_bus_list(s: &Vec<SwitchedShunt>) -> (v: Vec<i32>)
    ensures
        v@ == switched_shunt_buses(s@),
{
    let mut v: Vec<i32> = Vec::new();
    let mut k: usize = 0;
    while k < s.len()
        invariant
            k <= s@.len(),
            v@ =~= switched_shunt_buses(s@).take(k as int),
        decreases s@.len() - k,
    {
        v.push(s[k].bus);
        k = k + 1;
    }
    v
}

/// The generators, loads, fixed and switched shunts filed under `bus`, when `bus` is in `dom`
/// and carries any.
pub open spec fn attached_spec(
    dom: Set<i32>,
    g: Seq<Generator>,
    l: Seq<Load>,
    f: Seq<FixedShunt>,
    s: Seq<SwitchedShunt>,
    bus: i32,
) -> Option<AttachedSpec> {
    attached_upto(
        dom,
        generator_buses(g),
        load_buses(l),
        fixed_shunt_buses(f),
        switched_shunt_buses(s),
        g.len(),
        l.len(),
        f.len(),
        s.len(),
        bus,
    )
}

fn build_attached(
    buses: &BTreeMap<i32, Bus>,
    g: &Vec<Generator>,
    l: &Vec<Load>,
    f: &Vec<FixedShunt>,
    s: &Vec<SwitchedShunt>,
) -> (m: BTreeMap<i32, Attached>)
    ensures
        forall|b: i32| #[trigger]
            attached_at(m@, b) == attached_spec(buses@.dom(), g@, l@, f@, s@, b),
{
    let mut m: BTreeMap<i32, Attached> = BTreeMap::new();
    let gb = generator_bus_list(g);
    let lb = load_bus_list(l);
    let fb = fixed_shunt_bus_list(f);
    let sb = switched_shunt_bus_list(s);
    let ghost m0 = m@;
    attach_list(&mut m, buses, &gb, EquipList::Generators);
    let ghost m1 = m@;
    attach_list(&mut m, buses, &lb, EquipList::Loads);
    let ghost m2 = m@;
    attach_list(&mut m, buses, &fb, EquipList::FixedShunts);
    let ghost m3 = m@;
    attach_list(&mut m, buses, &sb, EquipList::SwitchedShunts);
    proof {
        assert forall|b: i32| #[trigger]
            attached_at(m@, b) == attached_spec(buses@.dom(), g@, l@, f@, s@, b) by {
            assert(attached_at(m0, b) is None);
            let dom = buses@.dom();
            let ge = equip_at(gb@, gb@.len(), b);
            let le = equip_at(lb@, lb@.len(), b);
            let fe = equip_at(fb@, fb@.len(), b);
            let se = equip_at(sb@, sb@.len(), b);
            assert(attached_at(m1, b) == if dom.contains(b) && ge.len() > 0 {
                Some(with_indices(no_equipment(), EquipList::Generators, ge))
            } else {
                attached_at(m0, b)
            });
            assert(attached_at(m2, b) == if dom.contains(b) && le.len() > 0 {
                Some(with_indices(attached_or_none(attached_at(m1, b)), EquipList::Loads, le))
            } else {
                attached_at(m1, b)
            });
            assert(attached_at(m3, b) == if dom.contains(b) && fe.len() > 0 {
                Some(with_indices(attached_or_none(attached_at(m2, b)), EquipList::FixedShunts, fe))
            } else {
                attached_at(m2, b)
            });
            let want = AttachedSpec {
                generators: ge,
                loads: le,
                fixed_shunts: fe,
                switched_shunts: se,
            };
            if dom.contains(b) && (ge.len() > 0 || le.len() > 0 || fe.len() > 0 || se.len() > 0) {
                assert(attached_at(m@, b) == Some(want)) by {
                    let e: Seq<usize> = Seq::empty();
                    assert(ge == e + ge);
                    assert(le == e + le);
                    assert(fe == e + fe);
                    assert(se == e + se);
                    if ge.len() == 0 {
                        assert(ge =~= e);
                    }
                    if le.len() == 0 {
                        assert(le =~= e);
                    }
                    if fe.len() == 0 {
                        assert(fe =~= e);
                    }
                    if se.len() == 0 {
                        assert(se =~= e);
                    }
                    assert(attached_at(m@, b)->0 =~= want);
                }
            }
        }
    }
    m
}


#[derive(Debug, Clone)]
pub struct Network {
    pub sbase: String,
    pub rev: i32,
    /// `IC = 1` marks a change case, whose records modify a case held elsewhere rather than
    /// define a whole network, so the topology read from it is expected to be incomplete.
    pub change_case: bool,
    pub buses: BTreeMap<i32, Bus>,
    pub branches: Vec<Branch>,
    pub transformers: Vec<Transformer>,
    pub generators: Vec<Generator>,
    pub loads: Vec<Load>,
    pub fixed_shunts: Vec<FixedShunt>,
    pub switched_shunts: Vec<SwitchedShunt>,
    /// Sections the reader skipped, for display, in name order.
    pub skipped: Vec<(String, usize)>,
    /// Records that named a bus the case does not define, for display.
    pub dangling: usize,
    /// Lookups built from the lists above by [`Network::from_raw`].
    pub index: NetworkIndex,
}

/// What connects to each bus, what hangs off it, and how many circuits share each bus pair.
#[derive(Debug, Clone)]
pub struct NetworkIndex {
    incidence: BTreeMap<i32, Vec<ElemId>>,
    attached: BTreeMap<i32, Attached>,
    /// How many element terminal pairs fall on each bus pair, so circuit IDs can be drawn only
    /// where they disambiguate something.
    pair_counts: BTreeMap<(i32, i32), usize>,
}

impl NetworkIndex {
    /// The elements filed under `bus`.
    pub closed spec fn incident_at(&self, bus: i32) -> Seq<ElemId> {
        list_at(self.incidence@, bus)
    }

    /// The equipment filed under `bus`.
    pub closed spec fn attached_at(&self, bus: i32) -> Option<AttachedSpec> {
        attached_at(self.attached@, bus)
    }

    /// How many terminal pairs were counted on bus pair `p`.
    pub closed spec fn pairs_at(&self, p: (i32, i32)) -> nat {
        count_at(self.pair_counts@, p)
    }
}

/// Whether every terminal of every element in `bs` and `ts` is a bus in `dom`.
pub open spec fn terminals_known(bs: Seq<Branch>, ts: Seq<Transformer>, dom: Set<i32>) -> bool {
    &&& forall|i: int| 0 <= i < bs.len() ==> dom.contains(#[trigger] bs[i].from) && dom.contains(
        bs[i].to,
    )
    &&& forall|i: int| 0 <= i < ts.len() ==> transformer_known(#[trigger] ts[i], dom)
}

proof fn lemma_known_branches(bs: Seq<Branch>, dom: Set<i32>)
    ensures
        forall|i: int|
            0 <= i < known_branches(bs, dom).len() ==> dom.contains(
                #[trigger] known_branches(bs, dom)[i].from,
            ) && dom.contains(known_branches(bs, dom)[i].to),
    decreases bs.len(),
{
    if bs.len() > 0 {
        lemma_known_branches(bs.drop_last(), dom);
        let rest = known_branches(bs.drop_last(), dom);
        assert forall|i: int| 0 <= i < known_branches(bs, dom).len() implies dom.contains(
            #[trigger] known_branches(bs, dom)[i].from,
        ) && dom.contains(known_branches(bs, dom)[i].to) by {
            if i < rest.len() {
                assert(known_branches(bs, dom)[i] == rest[i]);
            }
        }
    }
}

proof fn lemma_known_transformers(ts: Seq<Transformer>, dom: Set<i32>)
    ensures
        forall|i: int|
            0 <= i < known_transformers(ts, dom).len() ==> transformer_known(
                #[trigger] known_transformers(ts, dom)[i],
                dom,
            ),
    decreases ts.len(),
{
    if ts.len() > 0 {
        lemma_known_transformers(ts.drop_last(), dom);
        let rest = known_transformers(ts.drop_last(), dom);
        assert forall|i: int| 0 <= i < known_transformers(ts, dom).len() implies transformer_known(
            #[trigger] known_transformers(ts, dom)[i],
            dom,
        ) by {
            if i < rest.len() {
                assert(known_transformers(ts, dom)[i] == rest[i]);
            }
        }
    }
}

/// How many of the buses `bus_of` are not in `dom`.
pub open spec fn unknown_count(bus_of: Seq<i32>, dom: Set<i32>) -> nat
    decreases bus_of.len(),
{
    if bus_of.len() == 0 {
        0
    } else {
        unknown_count(bus_of.drop_last(), dom) + if dom.contains(bus_of.last()) {
            0nat
        } else {
            1nat
        }
    }
}

/// How many of the buses `bus_of` the case does not define.
fn count_unknown(bus_of: &Vec<i32>, buses: &BTreeMap<i32, Bus>) -> (n: usize)
    ensures
        n == unknown_count(bus_of@, buses@.dom()),
        n <= bus_of@.len(),
{
    let mut n: usize = 0;
    let mut k: usize = 0;
    while k < bus_of.len()
        invariant
            k <= bus_of@.len(),
            n == unknown_count(bus_of@.take(k as int), buses@.dom()),
            n <= k,
        decreases bus_of@.len() - k,
    {
        proof {
            assert(bus_of@.take(k + 1).drop_last() =~= bus_of@.take(k as int));
        }
        if !buses.contains_key(&bus_of[k]) {
            n = n + 1;
        }
        k = k + 1;
    }
    proof {
        assert(bus_of@.take(bus_of@.len() as int) =~= bus_of@);
    }
    n
}

impl Network {
    /// The lookups agree with the element and equipment lists, and every element ends on buses
    /// of the case.
    pub open spec fn wf(&self) -> bool {
        &&& forall|b: i32| #[trigger]
            self.index.incident_at(b) == incident_spec(self.branches@, self.transformers@, b)
        &&& forall|p: (i32, i32)| #[trigger]
            self.index.pairs_at(p) == pair_count(self.branches@, self.transformers@, p)
        &&& forall|b: i32| #[trigger]
            self.index.attached_at(b) == attached_spec(
                self.buses@.dom(),
                self.generators@,
                self.loads@,
                self.fixed_shunts@,
                self.switched_shunts@,
                b,
            )
        &&& terminals_known(self.branches@, self.transformers@, self.buses@.dom())
    }

    /// Index a parsed case for drawing. Records naming a bus the case does not define cannot
    /// be drawn: they are dropped and counted in `dangling`.
    pub fn from_raw(case: RawCase) -> (net: Network)
        requires
            case.branches@.len() + case.transformers@.len() + case.generators@.len()
                + case.loads@.len() + case.fixed_shunts@.len() + case.switched_shunts@.len()
                <= usize::MAX / 4,
        ensures
            net.wf(),
            net.sbase@ == case.header.sbase@,
            net.rev == case.header.rev,
            net.change_case == (case.header.ic != 0),
            net.buses@ == bus_map(case.buses@),
            net.branches@ == known_branches(case.branches@, net.buses@.dom()),
            net.transformers@ == known_transformers(case.transformers@, net.buses@.dom()),
            net.generators@ == case.generators@,
            net.loads@ == case.loads@,
            net.fixed_shunts@ == case.fixed_shunts@,
            net.switched_shunts@ == case.switched_shunts@,
            net.skipped@ == case.skipped@,
            net.dangling == (case.branches@.len() - net.branches@.len()) + (
            case.transformers@.len() - net.transformers@.len()) + unknown_count(
                generator_buses(case.generators@),
                net.buses@.dom(),
            ) + unknown_count(load_buses(case.loads@), net.buses@.dom()) + unknown_count(
                fixed_shunt_buses(case.fixed_shunts@),
                net.buses@.dom(),
            ) + unknown_count(switched_shunt_buses(case.switched_shunts@), net.buses@.dom()),
    {
        let RawCase {
            header,
            buses,
            loads,
            fixed_shunts,
            generators,
            branches,
            transformers,
            switched_shunts,
            skipped,
        } = case;
        let buses = build_bus_map(buses);
        let (branches, dropped_branches) = keep_known_branches(branches, &buses);
        let (transformers, dropped_transformers) = keep_known_transformers(transformers, &buses);
        let (incidence, pair_counts) = build_incidence(&branches, &transformers);
        let attached = build_attached(&buses, &generators, &loads, &fixed_shunts, &switched_shunts);
        // Equipment on a bus the case never defined is dropped from the drawing, and counted
        // for the same reason branches are.
        let stray_generators = count_unknown(&generator_bus_list(&generators), &buses);
        let stray_loads = count_unknown(&load_bus_list(&loads), &buses);
        let stray_fixed = count_unknown(&fixed_shunt_bus_list(&fixed_shunts), &buses);
        let stray_switched = count_unknown(&switched_shunt_bus_list(&switched_shunts), &buses);
        proof {
            lemma_known_branches(case.branches@, buses@.dom());
            lemma_known_transformers(case.transformers@, buses@.dom());
        }
        Network {
            sbase: header.sbase,
            rev: header.rev,
            change_case: header.ic != 0,
            buses,
            branches,
            transformers,
            generators,
            loads,
            fixed_shunts,
            switched_shunts,
            skipped,
            dangling: dropped_branches + dropped_transformers + stray_generators + stray_loads
                + stray_fixed + stray_switched,
            index: NetworkIndex { incidence, attached, pair_counts },
        }
    }

    /// The branch or transformer `id` names.
    pub fn element(&self, id: ElemId) -> (e: Element<'_>)
        requires
            id_valid(self.branches@, self.transformers@, id),
        ensures
            match id {
                ElemId::Branch(i) => e == Element::Branch(&self.branches@[i as int]),
                ElemId::Transformer(i) => e == Element::Transformer(&self.transformers@[i as int]),
            },
            element_terminals(e) == id_terminals(self.branches@, self.transformers@, id),
    {
        match id {
            ElemId::Branch(i) => Element::Branch(&self.branches[i]),
            ElemId::Transformer(i) => Element::Transformer(&self.transformers[i]),
        }
    }

    /// The bus numbered `number`, if the case defines one.
    pub fn bus(&self, number: i32) -> (b: Option<&Bus>)
        ensures
            match b {
                Some(b) => self.buses@.contains_key(number) && *b == self.buses@[number],
                None => !self.buses@.contains_key(number),
            },
    {
        self.buses.get(&number)
    }

    /// Every branch and transformer touching this bus, in list order with branches first, once
    /// per terminal it has there. This is what "grow the diagram" walks.
    pub fn incident(&self, bus: i32) -> (ids: &[ElemId])
        requires
            self.wf(),
        ensures
            ids@ == incident_spec(self.branches@, self.transformers@, bus),
    {
        proof {
            assert(self.index.incident_at(bus) == incident_spec(self.branches@, self.transformers@, bus));
        }
        match self.index.incidence.get(&bus) {
            Some(v) => v.as_slice(),
            None => &[],
        }
    }

    /// The generators, loads and shunts on `bus`, if it carries any.
    pub fn attached(&self, bus: i32) -> (a: Option<&Attached>)
        requires
            self.wf(),
        ensures
            match a {
                Some(a) => attached_spec(
                    self.buses@.dom(),
                    self.generators@,
                    self.loads@,
                    self.fixed_shunts@,
                    self.switched_shunts@,
                    bus,
                ) == Some(a@),
                None => attached_spec(
                    self.buses@.dom(),
                    self.generators@,
                    self.loads@,
                    self.fixed_shunts@,
                    self.switched_shunts@,
                    bus,
                ) is None,
            },
    {
        proof {
            assert(self.index.attached_at(bus) == attached_spec(
                self.buses@.dom(),
                self.generators@,
                self.loads@,
                self.fixed_shunts@,
                self.switched_shunts@,
                bus,
            ));
        }
        self.index.attached.get(&bus)
    }
}


impl NetworkIndex {
    fn pair_count_of(&self, p: (i32, i32)) -> (n: usize)
        ensures
            n == self.pairs_at(p),
    {
        match self.pair_counts.get(&p) {
            Some(n) => *n,
            None => 0,
        }
    }
}

/// Bus numbers in decimal, joined by `-`.
pub open spec fn joined_decimals(t: Seq<i32>) -> Seq<char>
    decreases t.len(),
{
    if t.len() == 0 {
        Seq::empty()
    } else if t.len() == 1 {
        int_decimal(t[0] as int)
    } else {
        joined_decimals(t.drop_last()) + seq!['-'] + int_decimal(t.last() as int)
    }
}

/// What kind of element `id` is, in words.
pub open spec fn kind_word(id: ElemId, three_winding: bool, phase_shifter: bool) -> Seq<char> {
    match id {
        ElemId::Branch(_) => seq!['l', 'i', 'n', 'e'],
        ElemId::Transformer(_) => if three_winding {
            seq!['3', '-', 'w', ' ', 'x', 'f', 'm', 'r']
        } else if phase_shifter {
            seq!['p', 'h', 'a', 's', 'e', ' ', 's', 'h', 'i', 'f', 't', 'e', 'r']
        } else {
            seq!['x', 'f', 'm', 'r']
        },
    }
}

/// The circuit identifier of element `id`.
pub open spec fn id_ckt(bs: Seq<Branch>, ts: Seq<Transformer>, id: ElemId) -> Seq<char> {
    match id {
        ElemId::Branch(i) => bs[i as int].ckt@,
        ElemId::Transformer(i) => ts[i as int].ckt@,
    }
}

/// The label of element `id`: its buses joined by `-`, its kind, and its circuit identifier.
pub open spec fn label_spec(bs: Seq<Branch>, ts: Seq<Transformer>, id: ElemId, phase_shifter: bool) -> Seq<
    char,
> {
    let three = match id {
        ElemId::Branch(_) => false,
        ElemId::Transformer(i) => ts[i as int].k != 0,
    };
    joined_decimals(id_terminals(bs, ts, id)) + seq![' '] + kind_word(id, three, phase_shifter) + seq![
        ' ',
    ] + id_ckt(bs, ts, id)
}

/// Whether some bus pair spanned by element `id` carries more than one circuit.
pub open spec fn has_parallel_spec(bs: Seq<Branch>, ts: Seq<Transformer>, id: ElemId) -> bool {
    exists|k: int|
        0 <= k < pairs_spec(id_terminals(bs, ts, id)).len() && pair_count(
            bs,
            ts,
            #[trigger] pairs_spec(id_terminals(bs, ts, id))[k],
        ) > 1
}

fn joined_decimal_chars(t: &[i32]) -> (v: Vec<char>)
    ensures
        v@ == joined_decimals(t@),
{
    let mut v: Vec<char> = Vec::new();
    let mut k: usize = 0;
    while k < t.len()
        invariant
            k <= t@.len(),
            v@ == joined_decimals(t@.take(k as int)),
        decreases t@.len() - k,
    {
        proof {
            assert(t@.take(k + 1).drop_last() =~= t@.take(k as int));
            assert(t@.take(k + 1).last() == t@[k as int]);
        }
        if k > 0 {
            v.push('-');
        }
        let d = int_decimal_chars(t[k] as i64);
        extend_chars(&mut v, d.as_slice());
        proof {
            if k == 0 {
                assert(v@ =~= int_decimal(t@[0] as int));
            }
        }
        k = k + 1;
    }
    proof {
        assert(t@.take(t@.len() as int) =~= t@);
    }
    v
}

impl Network {
    /// True when another element shares one of this one's terminal pairs, so its circuit ID
    /// matters. Three-winding transformers count as parallel on each of their bus pairs.
    pub fn has_parallel(&self, id: ElemId) -> (r: bool)
        requires
            self.wf(),
            id_valid(self.branches@, self.transformers@, id),
        ensures
            r == has_parallel_spec(self.branches@, self.transformers@, id),
    {
        let terminals = self.element(id).terminals();
        let pairs = terminal_pairs(terminals.as_slice());
        let mut k: usize = 0;
        while k < pairs.len()
            invariant
                self.wf(),
                pairs@ == pairs_spec(id_terminals(self.branches@, self.transformers@, id)),
                k <= pairs@.len(),
                forall|m: int|
                    0 <= m < k ==> pair_count(self.branches@, self.transformers@, #[trigger] pairs@[m])
                        <= 1,
            decreases pairs@.len() - k,
        {
            let n = self.index.pair_count_of(pairs[k]);
            proof {
                assert(self.index.pairs_at(pairs@[k as int]) == pair_count(
                    self.branches@,
                    self.transformers@,
                    pairs@[k as int],
                ));
            }
            if n > 1 {
                return true;
            }
            k = k + 1;
        }
        false
    }

    /// A short human label, e.g. `2-722 line 1` or `2-3 xfmr 1`. Whether a two-winding
    /// transformer shifts phase is read off its winding angles by the caller.
    pub fn label(&self, id: ElemId, phase_shifter: bool) -> (s: String)
        requires
            id_valid(self.branches@, self.transformers@, id),
        ensures
            s@ == label_spec(self.branches@, self.transformers@, id, phase_shifter),
    {
        let element = self.element(id);
        let terminals = element.terminals();
        let mut v = joined_decimal_chars(terminals.as_slice());
        v.push(' ');
        let kind = match element {
            Element::Branch(_) => "line",
            Element::Transformer(t) => if t.is_three_winding() {
                "3-w xfmr"
            } else if phase_shifter {
                "phase shifter"
            } else {
                "xfmr"
            },
        };
        proof {
            reveal_strlit("line");
            reveal_strlit("3-w xfmr");
            reveal_strlit("phase shifter");
            reveal_strlit("xfmr");
        }
        let kc = chars_of(kind);
        extend_chars(&mut v, kc.as_slice());
        v.push(' ');
        let cc = chars_of(element.ckt());
        extend_chars(&mut v, cc.as_slice());
        proof {
            let three = match id {
                ElemId::Branch(_) => false,
                ElemId::Transformer(i) => self.transformers@[i as int].k != 0,
            };
            assert(kc@ == kind_word(id, three, phase_shifter));
            assert(v@ =~= label_spec(self.branches@, self.transformers@, id, phase_shifter));
        }
        string_of(v.as_slice())
    }
}


/// How many times `id` occurs in `s`.
pub open spec fn occurrences(s: Seq<ElemId>, id: ElemId) -> nat
    decreases s.len(),
{
    if s.len() == 0 {
        0
    } else {
        occurrences(s.drop_last(), id) + if s.last() == id {
            1nat
        } else {
            0nat
        }
    }
}

proof fn lemma_occurrences_concat(a: Seq<ElemId>, b: Seq<ElemId>, id: ElemId)
    ensures
        occurrences(a + b, id) == occurrences(a, id) + occurrences(b, id),
    decreases b.len(),
{
    if b.len() == 0 {
        assert(a + b =~= a);
    } else {
        assert((a + b).drop_last() =~= a + b.drop_last());
        lemma_occurrences_concat(a, b.drop_last(), id);
    }
}

proof fn lemma_occurrences_repeat(x: ElemId, n: nat, id: ElemId)
    ensures
        occurrences(repeat_id(x, n), id) == if x == id {
            n
        } else {
            0
        },
    decreases n,
{
    if n > 0 {
        assert(repeat_id(x, n).drop_last() =~= repeat_id(x, (n - 1) as nat));
        lemma_occurrences_repeat(x, (n - 1) as nat, id);
    }
}

proof fn lemma_occurrences_element_ids(nb: nat, nt: nat, id: ElemId)
    requires
        nb <= usize::MAX,
        nt <= usize::MAX,
    ensures
        occurrences(element_ids(nb, nt), id) == if match id {
            ElemId::Branch(i) => i < nb,
            ElemId::Transformer(i) => i < nt,
        } {
            1nat
        } else {
            0nat
        },
    decreases nb + nt,
{
    if nt > 0 {
        assert(element_ids(nb, nt).drop_last() =~= element_ids(nb, (nt - 1) as nat));
        assert(element_ids(nb, nt).last() == ElemId::Transformer((nt - 1) as usize));
        lemma_occurrences_element_ids(nb, (nt - 1) as nat, id);
    } else if nb > 0 {
        assert(element_ids(nb, nt).drop_last() =~= element_ids((nb - 1) as nat, nt));
        assert(element_ids(nb, nt).last() == ElemId::Branch((nb - 1) as usize));
        lemma_occurrences_element_ids((nb - 1) as nat, nt, id);
    } else {
        assert(element_ids(nb, nt).len() == 0);
    }
}

proof fn lemma_incident_in_occurrences(
    bs: Seq<Branch>,
    ts: Seq<Transformer>,
    ids: Seq<ElemId>,
    bus: i32,
    id: ElemId,
)
    ensures
        occurrences(incident_in(bs, ts, ids, bus), id) == occurrences(ids, id) * count_of(
            id_terminals(bs, ts, id),
            bus,
        ),
    decreases ids.len(),
{
    if ids.len() > 0 {
        let rest = ids.drop_last();
        let c = count_of(id_terminals(bs, ts, ids.last()), bus);
        lemma_incident_in_occurrences(bs, ts, rest, bus, id);
        lemma_occurrences_concat(incident_in(bs, ts, rest, bus), repeat_id(ids.last(), c), id);
        lemma_occurrences_repeat(ids.last(), c, id);
        let n = occurrences(rest, id);
        let cid = count_of(id_terminals(bs, ts, id), bus);
        if ids.last() == id {
            assert(n * cid + cid == (n + 1) * cid) by (nonlinear_arith);
        }
    }
}

/// Every element is listed under a bus once for each of its terminals there, and nothing that
/// is not an element of the network is listed at all.
pub proof fn lemma_incidence_counts_terminals(bs: Seq<Branch>, ts: Seq<Transformer>, bus: i32, id: ElemId)
    requires
        bs.len() <= usize::MAX,
        ts.len() <= usize::MAX,
    ensures
        occurrences(incident_spec(bs, ts, bus), id) == if id_valid(bs, ts, id) {
            count_of(id_terminals(bs, ts, id), bus)
        } else {
            0
        },
{
    lemma_incident_in_occurrences(bs, ts, element_ids(bs.len(), ts.len()), bus, id);
    lemma_occurrences_element_ids(bs.len(), ts.len(), id);
}

/// Equipment is filed under exactly the bus it names, in index order.
pub proof fn lemma_equipment_filed_by_bus(bus_of: Seq<i32>, bus: i32)
    requires
        bus_of.len() <= usize::MAX,
    ensures
        forall|i: usize| #[trigger]
            equip_at(bus_of, bus_of.len(), bus).contains(i) <==> i < bus_of.len() && bus_of[i as int]
                == bus,
        forall|a: int, b: int|
            0 <= a < b < equip_at(bus_of, bus_of.len(), bus).len() ==> equip_at(
                bus_of,
                bus_of.len(),
                bus,
            )[a] < equip_at(bus_of, bus_of.len(), bus)[b],
{
    lemma_equip_at_members(bus_of, bus_of.len(), bus);
}

proof fn lemma_equip_at_members(bus_of: Seq<i32>, n: nat, bus: i32)
    requires
        n <= bus_of.len(),
        bus_of.len() <= usize::MAX,
    ensures
        forall|i: usize| #[trigger]
            equip_at(bus_of, n, bus).contains(i) <==> i < n && bus_of[i as int] == bus,
        forall|a: int, b: int|
            0 <= a < b < equip_at(bus_of, n, bus).len() ==> equip_at(bus_of, n, bus)[a] < equip_at(
                bus_of,
                n,
                bus,
            )[b],
    decreases n,
{
    if n > 0 {
        let rest = equip_at(bus_of, (n - 1) as nat, bus);
        lemma_equip_at_members(bus_of, (n - 1) as nat, bus);
        lemma_equip_at_len(bus_of, (n - 1) as nat, bus);
        let cur = equip_at(bus_of, n, bus);
        assert forall|i: usize| cur.contains(i) <==> i < n && bus_of[i as int] == bus by {
            if bus_of[n - 1] != bus {
                assert(cur == rest);
                if i < n && bus_of[i as int] == bus {
                    assert(i < n - 1);
                    assert(rest.contains(i));
                }
            } else {
                assert(cur == rest.push((n - 1) as usize));
                if cur.contains(i) {
                    let k = choose|k: int| 0 <= k < cur.len() && cur[k] == i;
                    if k < rest.len() {
                        assert(rest.contains(i));
                    }
                }
                if i < n && bus_of[i as int] == bus && i < n - 1 {
                    assert(rest.contains(i));
                    let k = choose|k: int| 0 <= k < rest.len() && rest[k] == i;
                    assert(cur[k] == i);
                }
                if i == n - 1 {
                    assert(cur[rest.len() as int] == i);
                }
            }
        }
        assert forall|a: int, b: int| 0 <= a < b < cur.len() implies cur[a] < cur[b] by {
            if bus_of[n - 1] == bus && b == rest.len() {
                assert(rest[a] < n - 1);
            }
        }
    }
}


/// Where element `id` stands in a network with `nb` branches: branches first, then
/// transformers.
pub open spec fn position(nb: nat, id: ElemId) -> int {
    match id {
        ElemId::Branch(i) => i as int,
        ElemId::Transformer(i) => nb + i,
    }
}

/// The smallest bus number in `t`.
pub open spec fn min_terminal(t: Seq<i32>) -> i32
    decreases t.len(),
{
    if t.len() <= 1 {
        t[0]
    } else {
        let m = min_terminal(t.drop_last());
        if t.last() < m {
            t.last()
        } else {
            m
        }
    }
}

pub proof fn lemma_min_terminal(t: Seq<i32>)
    requires
        t.len() > 0,
    ensures
        t.contains(min_terminal(t)),
        forall|k: int| 0 <= k < t.len() ==> min_terminal(t) <= #[trigger] t[k],
    decreases t.len(),
{
    if t.len() > 1 {
        lemma_min_terminal(t.drop_last());
        let m = min_terminal(t.drop_last());
        let i = choose|i: int| 0 <= i < t.drop_last().len() && t.drop_last()[i] == m;
        assert(t[i] == m);
        assert(t[t.len() - 1] == t.last());
        assert forall|k: int| 0 <= k < t.len() implies min_terminal(t) <= #[trigger] t[k] by {
            if k < t.len() - 1 {
                assert(t.drop_last()[k] == t[k]);
            }
        }
    } else {
        assert(t[0] == t[0]);
    }
}

/// The smallest of the bus numbers `t`.
pub fn min_of(t: &[i32]) -> (m: i32)
    requires
        t@.len() > 0,
    ensures
        m == min_terminal(t@),
{
    let mut m = t[0];
    let mut k: usize = 1;
    proof {
        assert(t@.take(1).drop_last().len() == 0);
    }
    while k < t.len()
        invariant
            1 <= k <= t@.len(),
            m == min_terminal(t@.take(k as int)),
        decreases t@.len() - k,
    {
        proof {
            assert(t@.take(k + 1).drop_last() =~= t@.take(k as int));
        }
        if t[k] < m {
            m = t[k];
        }
        k = k + 1;
    }
    proof {
        assert(t@.take(t@.len() as int) =~= t@);
    }
    m
}

proof fn lemma_count_of_contains(t: Seq<i32>, bus: i32)
    ensures
        count_of(t, bus) > 0 <==> t.contains(bus),
    decreases t.len(),
{
    if t.len() > 0 {
        lemma_count_of_contains(t.drop_last(), bus);
        if t.drop_last().contains(bus) {
            let i = choose|i: int| 0 <= i < t.drop_last().len() && t.drop_last()[i] == bus;
            assert(t[i] == bus);
        }
        if t.contains(bus) && t.last() != bus {
            let i = choose|i: int| 0 <= i < t.len() && t[i] == bus;
            assert(t.drop_last()[i] == bus);
        }
    }
}

proof fn lemma_element_ids_shape(nb: nat, nt: nat)
    requires
        nb <= usize::MAX,
        nt <= usize::MAX,
    ensures
        forall|i: int|
            0 <= i < nb + nt ==> position(nb, #[trigger] element_ids(nb, nt)[i]) == i,
        forall|id: ElemId|
            element_ids(nb, nt).contains(id) <==> match id {
                ElemId::Branch(i) => i < nb,
                ElemId::Transformer(i) => i < nt,
            },
{
    let ids = element_ids(nb, nt);
    assert forall|id: ElemId|
        ids.contains(id) <==> match id {
            ElemId::Branch(i) => i < nb,
            ElemId::Transformer(i) => i < nt,
        } by {
        match id {
            ElemId::Branch(i) => {
                if i < nb {
                    assert(ids[i as int] == id);
                }
            },
            ElemId::Transformer(i) => {
                if i < nt {
                    assert(ids[nb + i] == id);
                }
            },
        }
    }
}

/// The incidence list of `bus` holds only elements of `ids` that end there, in the order of
/// `ids`, and each of those.
proof fn lemma_incident_in_shape(bs: Seq<Branch>, ts: Seq<Transformer>, ids: Seq<ElemId>, bus: i32)
    requires
        forall|i: int, j: int|
            0 <= i < j < ids.len() ==> position(bs.len(), ids[i]) < position(bs.len(), ids[j]),
    ensures
        forall|k: int|
            0 <= k < incident_in(bs, ts, ids, bus).len() ==> ids.contains(
                #[trigger] incident_in(bs, ts, ids, bus)[k],
            ) && id_terminals(bs, ts, incident_in(bs, ts, ids, bus)[k]).contains(bus),
        forall|a: int, b: int|
            0 <= a < b < incident_in(bs, ts, ids, bus).len() ==> position(
                bs.len(),
                incident_in(bs, ts, ids, bus)[a],
            ) <= position(bs.len(), incident_in(bs, ts, ids, bus)[b]),
        forall|id: ElemId|
            ids.contains(id) && id_terminals(bs, ts, id).contains(bus) ==> incident_in(
                bs,
                ts,
                ids,
                bus,
            ).contains(id),
    decreases ids.len(),
{
    if ids.len() > 0 {
        let rest = ids.drop_last();
        let x = ids.last();
        let c = count_of(id_terminals(bs, ts, x), bus);
        let l0 = incident_in(bs, ts, rest, bus);
        let l = incident_in(bs, ts, ids, bus);
        lemma_incident_in_shape(bs, ts, rest, bus);
        lemma_count_of_contains(id_terminals(bs, ts, x), bus);
        assert(l == l0 + repeat_id(x, c));
        assert forall|k: int| 0 <= k < l.len() implies ids.contains(#[trigger] l[k])
            && id_terminals(bs, ts, l[k]).contains(bus) by {
            if k < l0.len() {
                assert(l[k] == l0[k]);
                let i = choose|i: int| 0 <= i < rest.len() && rest[i] == l0[k];
                assert(ids[i] == l0[k]);
            } else {
                assert(l[k] == x);
                assert(ids[ids.len() - 1] == x);
            }
        }
        assert forall|a: int, b: int| 0 <= a < b < l.len() implies position(bs.len(), l[a])
            <= position(bs.len(), l[b]) by {
            if b >= l0.len() && a < l0.len() {
                assert(l[a] == l0[a]);
                let i = choose|i: int| 0 <= i < rest.len() && rest[i] == l0[a];
                assert(ids[i] == l0[a]);
                assert(l[b] == x);
            } else if a < l0.len() {
                assert(l[a] == l0[a]);
                assert(l[b] == l0[b]);
            }
        }
        assert forall|id: ElemId| ids.contains(id) && id_terminals(bs, ts, id).contains(bus) implies l.contains(
            id,
        ) by {
            lemma_count_of_contains(id_terminals(bs, ts, id), bus);
            if id == x {
                assert(l[l0.len() as int] == x);
            } else {
                let i = choose|i: int| 0 <= i < ids.len() && ids[i] == id;
                assert(i < ids.len() - 1);
                assert(rest[i] == id);
                assert(rest.contains(id));
                assert(l0.contains(id));
                let k = choose|k: int| 0 <= k < l0.len() && l0[k] == id;
                assert(l[k] == id);
            }
        }
    }
}

/// What the incidence list of `bus` holds: exactly the elements with a terminal there, in
/// list order, each in one unbroken run.
pub proof fn lemma_incident_shape(bs: Seq<Branch>, ts: Seq<Transformer>, bus: i32)
    requires
        bs.len() <= usize::MAX,
        ts.len() <= usize::MAX,
    ensures
        forall|k: int|
            0 <= k < incident_spec(bs, ts, bus).len() ==> id_valid(
                bs,
                ts,
                #[trigger] incident_spec(bs, ts, bus)[k],
            ) && id_terminals(bs, ts, incident_spec(bs, ts, bus)[k]).contains(bus),
        forall|a: int, b: int|
            0 <= a < b < incident_spec(bs, ts, bus).len() ==> position(
                bs.len(),
                incident_spec(bs, ts, bus)[a],
            ) <= position(bs.len(), incident_spec(bs, ts, bus)[b]),
        forall|id: ElemId|
            id_valid(bs, ts, id) && id_terminals(bs, ts, id).contains(bus) ==> incident_spec(
                bs,
                ts,
                bus,
            ).contains(id),
{
    lemma_element_ids_shape(bs.len(), ts.len());
    let ids = element_ids(bs.len(), ts.len());
    assert forall|i: int, j: int| 0 <= i < j < ids.len() implies position(bs.len(), ids[i]) < position(
        bs.len(),
        ids[j],
    ) by {
        assert(position(bs.len(), ids[i]) == i);
        assert(position(bs.len(), ids[j]) == j);
    }
    lemma_incident_in_shape(bs, ts, ids, bus);
    assert forall|id: ElemId| id_valid(bs, ts, id) && id_terminals(bs, ts, id).contains(bus) implies incident_spec(
        bs,
        ts,
        bus,
    ).contains(id) by {
        assert(ids.contains(id));
    }
    assert forall|k: int| 0 <= k < incident_spec(bs, ts, bus).len() implies id_valid(
        bs,
        ts,
        #[trigger] incident_spec(bs, ts, bus)[k],
    ) by {
        assert(ids.contains(incident_spec(bs, ts, bus)[k]));
    }
}


/// How many times `x` occurs in `buses`.
pub open spec fn bus_occurrences(buses: Seq<i32>, x: i32) -> nat
    decreases buses.len(),
{
    if buses.len() == 0 {
        0
    } else {
        bus_occurrences(buses.drop_last(), x) + if buses.last() == x {
            1nat
        } else {
            0nat
        }
    }
}

/// How many terminals of `t` fall on the buses `buses`, bus by bus.
pub open spec fn terminals_on(buses: Seq<i32>, t: Seq<i32>) -> nat
    decreases buses.len(),
{
    if buses.len() == 0 {
        0
    } else {
        terminals_on(buses.drop_last(), t) + count_of(t, buses.last())
    }
}

/// The lengths of the incidence lists of `buses`, added up.
pub open spec fn incidence_total(
    bs: Seq<Branch>,
    ts: Seq<Transformer>,
    ids: Seq<ElemId>,
    buses: Seq<i32>,
) -> nat
    decreases buses.len(),
{
    if buses.len() == 0 {
        0
    } else {
        incidence_total(bs, ts, ids, buses.drop_last()) + incident_in(
            bs,
            ts,
            ids,
            buses.last(),
        ).len()
    }
}

/// How many terminals the elements `ids` have between them.
pub open spec fn terminal_total(bs: Seq<Branch>, ts: Seq<Transformer>, ids: Seq<ElemId>) -> nat
    decreases ids.len(),
{
    if ids.len() == 0 {
        0
    } else {
        terminal_total(bs, ts, ids.drop_last()) + id_terminals(bs, ts, ids.last()).len()
    }
}

proof fn lemma_terminals_on_step(buses: Seq<i32>, t: Seq<i32>)
    requires
        t.len() > 0,
    ensures
        terminals_on(buses, t) == terminals_on(buses, t.drop_last()) + bus_occurrences(
            buses,
            t.last(),
        ),
    decreases buses.len(),
{
    if buses.len() > 0 {
        lemma_terminals_on_step(buses.drop_last(), t);
    }
}

proof fn lemma_single_occurrence(buses: Seq<i32>, x: i32)
    requires
        buses.no_duplicates(),
        buses.contains(x),
    ensures
        bus_occurrences(buses, x) == 1,
    decreases buses.len(),
{
    let rest = buses.drop_last();
    if buses.last() == x {
        if rest.contains(x) {
            let i = choose|i: int| 0 <= i < rest.len() && rest[i] == x;
            assert(buses[i] == buses[buses.len() - 1]);
        }
        lemma_no_occurrence(rest, x);
    } else {
        let i = choose|i: int| 0 <= i < buses.len() && buses[i] == x;
        assert(rest[i] == x);
        lemma_single_occurrence(rest, x);
    }
}

proof fn lemma_no_occurrence(buses: Seq<i32>, x: i32)
    requires
        !buses.contains(x),
    ensures
        bus_occurrences(buses, x) == 0,
    decreases buses.len(),
{
    if buses.len() > 0 {
        assert(buses[buses.len() - 1] == buses.last());
        let rest = buses.drop_last();
        if rest.contains(x) {
            let i = choose|i: int| 0 <= i < rest.len() && rest[i] == x;
            assert(buses[i] == x);
        }
        lemma_no_occurrence(rest, x);
    }
}

/// Over a list of distinct buses holding every one of them, the terminals `t` are each counted
/// once.
proof fn lemma_terminals_on_all(buses: Seq<i32>, t: Seq<i32>)
    requires
        buses.no_duplicates(),
        forall|k: int| 0 <= k < t.len() ==> buses.contains(#[trigger] t[k]),
    ensures
        terminals_on(buses, t) == t.len(),
    decreases t.len(),
{
    if t.len() == 0 {
        lemma_terminals_on_empty(buses, t);
    } else {
        let t0 = t.drop_last();
        assert forall|k: int| 0 <= k < t0.len() implies buses.contains(#[trigger] t0[k]) by {
            assert(t0[k] == t[k]);
        }
        lemma_terminals_on_all(buses, t0);
        lemma_terminals_on_step(buses, t);
        assert(buses.contains(t[t.len() - 1]));
        lemma_single_occurrence(buses, t.last());
    }
}

proof fn lemma_terminals_on_empty(buses: Seq<i32>, t: Seq<i32>)
    requires
        t.len() == 0,
    ensures
        terminals_on(buses, t) == 0,
    decreases buses.len(),
{
    if buses.len() > 0 {
        lemma_terminals_on_empty(buses.drop_last(), t);
    }
}

proof fn lemma_incidence_total_step(
    bs: Seq<Branch>,
    ts: Seq<Transformer>,
    ids: Seq<ElemId>,
    buses: Seq<i32>,
)
    requires
        ids.len() > 0,
    ensures
        incidence_total(bs, ts, ids, buses) == incidence_total(bs, ts, ids.drop_last(), buses)
            + terminals_on(buses, id_terminals(bs, ts, ids.last())),
    decreases buses.len(),
{
    if buses.len() > 0 {
        lemma_incidence_total_step(bs, ts, ids, buses.drop_last());
    }
}

proof fn lemma_incidence_total_empty(bs: Seq<Branch>, ts: Seq<Transformer>, ids: Seq<ElemId>, buses: Seq<i32>)
    requires
        ids.len() == 0,
    ensures
        incidence_total(bs, ts, ids, buses) == 0,
    decreases buses.len(),
{
    if buses.len() > 0 {
        lemma_incidence_total_empty(bs, ts, ids, buses.drop_last());
    }
}

proof fn lemma_incidence_total_ids(
    bs: Seq<Branch>,
    ts: Seq<Transformer>,
    ids: Seq<ElemId>,
    buses: Seq<i32>,
)
    requires
        buses.no_duplicates(),
        forall|i: int, k: int|
            0 <= i < ids.len() && 0 <= k < id_terminals(bs, ts, ids[i]).len() ==> buses.contains(
                #[trigger] id_terminals(bs, ts, ids[i])[k],
            ),
    ensures
        incidence_total(bs, ts, ids, buses) == terminal_total(bs, ts, ids),
    decreases ids.len(),
{
    if ids.len() == 0 {
        lemma_incidence_total_empty(bs, ts, ids, buses);
    } else {
        let rest = ids.drop_last();
        assert forall|i: int, k: int|
            0 <= i < rest.len() && 0 <= k < id_terminals(bs, ts, rest[i]).len() implies buses.contains(
                #[trigger] id_terminals(bs, ts, rest[i])[k],
            ) by {
            assert(rest[i] == ids[i]);
        }
        lemma_incidence_total_ids(bs, ts, rest, buses);
        lemma_incidence_total_step(bs, ts, ids, buses);
        let t = id_terminals(bs, ts, ids.last());
        assert forall|k: int| 0 <= k < t.len() implies buses.contains(#[trigger] t[k]) by {
            assert(ids[ids.len() - 1] == ids.last());
            assert(buses.contains(id_terminals(bs, ts, ids[ids.len() - 1])[k]));
        }
        lemma_terminals_on_all(buses, t);
    }
}

/// The incidence lists add up to the terminal count: over any list of distinct buses that
/// holds every bus an element ends on, their lengths sum to the number of terminals the
/// network's elements have between them (twice the element count when none has three
/// windings).
pub proof fn lemma_incidence_sums_to_terminals(bs: Seq<Branch>, ts: Seq<Transformer>, buses: Seq<i32>)
    requires
        bs.len() <= usize::MAX,
        ts.len() <= usize::MAX,
        buses.no_duplicates(),
        forall|id: ElemId, k: int|
            id_valid(bs, ts, id) && 0 <= k < id_terminals(bs, ts, id).len() ==> buses.contains(
                #[trigger] id_terminals(bs, ts, id)[k],
            ),
    ensures
        incidence_total(bs, ts, element_ids(bs.len(), ts.len()), buses) == terminal_total(
            bs,
            ts,
            element_ids(bs.len(), ts.len()),
        ),
{
    let ids = element_ids(bs.len(), ts.len());
    lemma_element_ids_shape(bs.len(), ts.len());
    assert forall|i: int, k: int|
        0 <= i < ids.len() && 0 <= k < id_terminals(bs, ts, ids[i]).len() implies buses.contains(
            #[trigger] id_terminals(bs, ts, ids[i])[k],
        ) by {
        assert(ids.contains(ids[i]));
        assert(id_valid(bs, ts, ids[i]));
    }
    lemma_incidence_total_ids(bs, ts, ids, buses);
}


/// The terminal pairs of an element are unordered: each pair names its smaller bus first, and
/// every two terminals of the element give a pair, whichever comes first in the record. So two
/// elements joining the same two buses share a pair whichever end each is written from.
pub proof fn lemma_pairs_unordered(t: Seq<i32>)
    ensures
        forall|k: int|
            0 <= k < pairs_spec(t).len() ==> (#[trigger] pairs_spec(t)[k]).0 <= pairs_spec(t)[k].1,
        forall|i: int, j: int|
            0 <= i < j < t.len() ==> pairs_spec(t).contains(
                if t[i] <= t[j] {
                    (t[i], t[j])
                } else {
                    (t[j], t[i])
                },
            ),
    decreases t.len(),
{
    if t.len() > 0 {
        let rest = t.drop_first();
        lemma_pairs_unordered(rest);
        let head = Seq::new(
            (t.len() - 1) as nat,
            |j: int|
                if t[0] <= t[j + 1] {
                    (t[0], t[j + 1])
                } else {
                    (t[j + 1], t[0])
                },
        );
        let all = pairs_spec(t);
        assert(all == head + pairs_spec(rest));
        assert forall|k: int| 0 <= k < all.len() implies (#[trigger] all[k]).0 <= all[k].1 by {
            if k >= head.len() {
                assert(all[k] == pairs_spec(rest)[k - head.len()]);
            }
        }
        assert forall|i: int, j: int| 0 <= i < j < t.len() implies all.contains(
            if t[i] <= t[j] {
                (t[i], t[j])
            } else {
                (t[j], t[i])
            },
        ) by {
            if i == 0 {
                assert(all[j - 1] == head[j - 1]);
            } else {
                assert(rest[i - 1] == t[i] && rest[j - 1] == t[j]);
                let p = if t[i] <= t[j] {
                    (t[i], t[j])
                } else {
                    (t[j], t[i])
                };
                assert(pairs_spec(rest).contains(p));
                let k = choose|k: int| 0 <= k < pairs_spec(rest).len() && pairs_spec(rest)[k] == p;
                assert(all[head.len() + k] == p);
            }
        }
    }
}

/// Writing a branch from its other end spans the same bus pair.
pub proof fn lemma_pairs_ignore_direction(a: i32, b: i32)
    ensures
        pairs_spec(seq![a, b]) == pairs_spec(seq![b, a]),
        pairs_spec(seq![a, b]).len() == 1,
{
    let ab = seq![a, b];
    let ba = seq![b, a];
    assert(ab.drop_first() =~= seq![b]);
    assert(ba.drop_first() =~= seq![a]);
    assert(seq![a].drop_first().len() == 0);
    assert(seq![b].drop_first().len() == 0);
    assert(pairs_spec(seq![a].drop_first()).len() == 0);
    assert(pairs_spec(seq![b].drop_first()).len() == 0);
    assert(pairs_spec(seq![a]).len() == 0);
    assert(pairs_spec(seq![b]).len() == 0);
    let p = if a <= b {
        (a, b)
    } else {
        (b, a)
    };
    assert(pairs_spec(ab) =~= seq![p]);
    assert(pairs_spec(ba) =~= seq![p]);
}


proof fn lemma_count_pair_pos(ps: Seq<(i32, i32)>, p: (i32, i32))
    requires
        ps.contains(p),
    ensures
        count_pair(ps, p) >= 1,
    decreases ps.len(),
{
    if ps.last() != p {
        let k = choose|k: int| 0 <= k < ps.len() && ps[k] == p;
        assert(ps.drop_last()[k] == p);
        lemma_count_pair_pos(ps.drop_last(), p);
    }
}

proof fn lemma_pair_count_in_spans(
    bs: Seq<Branch>,
    ts: Seq<Transformer>,
    ids: Seq<ElemId>,
    p: (i32, i32),
    x: ElemId,
    y: ElemId,
)
    requires
        ids.contains(x),
        pairs_spec(id_terminals(bs, ts, x)).contains(p),
        y != x ==> ids.contains(y) && pairs_spec(id_terminals(bs, ts, y)).contains(p),
    ensures
        pair_count_in(bs, ts, ids, p) >= if y != x {
            2int
        } else {
            1int
        },
    decreases ids.len(),
{
    let rest = ids.drop_last();
    let last = ids.last();
    if ids.contains(x) && last != x {
        let k = choose|k: int| 0 <= k < ids.len() && ids[k] == x;
        assert(rest[k] == x);
    }
    if y != x && last != y {
        let k = choose|k: int| 0 <= k < ids.len() && ids[k] == y;
        assert(rest[k] == y);
    }
    if last == x {
        lemma_count_pair_pos(pairs_spec(id_terminals(bs, ts, x)), p);
        if y != x {
            lemma_pair_count_in_spans(bs, ts, rest, p, y, y);
        }
    } else if y != x && last == y {
        lemma_count_pair_pos(pairs_spec(id_terminals(bs, ts, y)), p);
        lemma_pair_count_in_spans(bs, ts, rest, p, x, x);
    } else {
        lemma_pair_count_in_spans(bs, ts, rest, p, x, y);
    }
}

/// Two branches joining the same two buses are both flagged parallel, whichever end each
/// record starts from.
pub proof fn lemma_parallel_branches(bs: Seq<Branch>, ts: Seq<Transformer>, i: int, j: int)
    requires
        bs.len() <= usize::MAX,
        ts.len() <= usize::MAX,
        0 <= i < bs.len(),
        0 <= j < bs.len(),
        i != j,
        (bs[i].from == bs[j].from && bs[i].to == bs[j].to) || (bs[i].from == bs[j].to && bs[i].to
            == bs[j].from),
    ensures
        has_parallel_spec(bs, ts, ElemId::Branch(i as usize)),
        has_parallel_spec(bs, ts, ElemId::Branch(j as usize)),
{
    let x = ElemId::Branch(i as usize);
    let y = ElemId::Branch(j as usize);
    let tx = id_terminals(bs, ts, x);
    let ty = id_terminals(bs, ts, y);
    lemma_pairs_ignore_direction(bs[i].from, bs[i].to);
    assert(tx == seq![bs[i].from, bs[i].to]);
    assert(pairs_spec(tx) == pairs_spec(ty));
    lemma_pairs_unordered(tx);
    let p = pairs_spec(tx)[0];
    assert(pairs_spec(tx).contains(p));
    lemma_element_ids_shape(bs.len(), ts.len());
    let ids = element_ids(bs.len(), ts.len());
    assert(ids.contains(x));
    assert(ids.contains(y));
    lemma_pair_count_in_spans(bs, ts, ids, p, x, y);
    assert(pair_count(bs, ts, p) > 1);
    assert(pairs_spec(id_terminals(bs, ts, x))[0] == p);
    assert(pairs_spec(id_terminals(bs, ts, y))[0] == p);
}


/// Every pair an element spans joins two of its terminals, smaller bus first.
proof fn lemma_pairs_from_terminals(t: Seq<i32>)
    ensures
        forall|k: int|
            0 <= k < pairs_spec(t).len() ==> exists|a: int, b: int|
                0 <= a < b < t.len() && #[trigger] pairs_spec(t)[k] == if t[a] <= t[b] {
                    (t[a], t[b])
                } else {
                    (t[b], t[a])
                },
    decreases t.len(),
{
    if t.len() > 0 {
        let rest = t.drop_first();
        lemma_pairs_from_terminals(rest);
        let head = Seq::new(
            (t.len() - 1) as nat,
            |j: int|
                if t[0] <= t[j + 1] {
                    (t[0], t[j + 1])
                } else {
                    (t[j + 1], t[0])
                },
        );
        assert(pairs_spec(t) == head + pairs_spec(rest));
        assert forall|k: int| 0 <= k < pairs_spec(t).len() implies exists|a: int, b: int|
            0 <= a < b < t.len() && #[trigger] pairs_spec(t)[k] == if t[a] <= t[b] {
                (t[a], t[b])
            } else {
                (t[b], t[a])
            } by {
            if k < head.len() {
                assert(pairs_spec(t)[k] == head[k]);
                assert(0 <= 0 < k + 1 < t.len());
            } else {
                let k2 = k - head.len();
                assert(pairs_spec(t)[k] == pairs_spec(rest)[k2]);
                let (a, b) = choose|a: int, b: int|
                    0 <= a < b < rest.len() && #[trigger] pairs_spec(rest)[k2] == if rest[a] <= rest[b] {
                        (rest[a], rest[b])
                    } else {
                        (rest[b], rest[a])
                    };
                assert(rest[a] == t[a + 1] && rest[b] == t[b + 1]);
                assert(0 <= a + 1 < b + 1 < t.len());
            }
        }
    }
}

proof fn lemma_count_pair_absent(ps: Seq<(i32, i32)>, p: (i32, i32))
    requires
        !ps.contains(p),
    ensures
        count_pair(ps, p) == 0,
    decreases ps.len(),
{
    if ps.len() > 0 {
        let rest = ps.drop_last();
        if rest.contains(p) {
            let k = choose|k: int| 0 <= k < rest.len() && rest[k] == p;
            assert(ps[k] == p);
        }
        lemma_count_pair_absent(rest, p);
        assert(ps[ps.len() - 1] == ps.last());
    }
}

proof fn lemma_pair_count_in_alone(
    bs: Seq<Branch>,
    ts: Seq<Transformer>,
    ids: Seq<ElemId>,
    p: (i32, i32),
    x: ElemId,
)
    requires
        forall|a: int, b: int| 0 <= a < b < ids.len() ==> ids[a] != ids[b],
        forall|k: int|
            0 <= k < ids.len() && ids[k] != x ==> !pairs_spec(id_terminals(bs, ts, #[trigger] ids[k])).contains(p),
    ensures
        pair_count_in(bs, ts, ids, p) == if ids.contains(x) {
            count_pair(pairs_spec(id_terminals(bs, ts, x)), p)
        } else {
            0
        },
    decreases ids.len(),
{
    if ids.len() > 0 {
        let rest = ids.drop_last();
        let last = ids.last();
        assert(ids[ids.len() - 1] == last);
        assert forall|k: int| 0 <= k < rest.len() && rest[k] != x implies !pairs_spec(
            id_terminals(bs, ts, #[trigger] rest[k]),
        ).contains(p) by {
            assert(rest[k] == ids[k]);
        }
        lemma_pair_count_in_alone(bs, ts, rest, p, x);
        if last == x {
            if rest.contains(x) {
                let k = choose|k: int| 0 <= k < rest.len() && rest[k] == x;
                assert(ids[k] == ids[ids.len() - 1]);
            }
        } else {
            lemma_count_pair_absent(pairs_spec(id_terminals(bs, ts, last)), p);
            if ids.contains(x) {
                let k = choose|k: int| 0 <= k < ids.len() && ids[k] == x;
                assert(rest[k] == x);
            }
            if rest.contains(x) {
                let k = choose|k: int| 0 <= k < rest.len() && rest[k] == x;
                assert(ids[k] == x);
            }
        }
    }
}

/// Whether the buses `u` and `v` are the two ends `a` and `b`, in either order.
pub open spec fn same_ends(a: i32, b: i32, u: i32, v: i32) -> bool {
    (a == u && b == v) || (a == v && b == u)
}

/// A branch whose two buses no other branch joins, and no transformer joins either, is not
/// flagged parallel: a circuit ID is drawn only where another circuit shares the buses.
pub proof fn lemma_lone_branch_not_parallel(bs: Seq<Branch>, ts: Seq<Transformer>, i: int)
    requires
        bs.len() <= usize::MAX,
        ts.len() <= usize::MAX,
        0 <= i < bs.len(),
        forall|j: int| 0 <= j < bs.len() && j != i ==> !same_ends(bs[i].from, bs[i].to, #[trigger] bs[j].from, bs[j].to),
        forall|j: int, a: int, b: int|
            0 <= j < ts.len() && 0 <= a < b < id_terminals(bs, ts, ElemId::Transformer(j as usize)).len()
                ==> !same_ends(
                bs[i].from,
                bs[i].to,
                #[trigger] id_terminals(bs, ts, ElemId::Transformer(j as usize))[a],
                #[trigger] id_terminals(bs, ts, ElemId::Transformer(j as usize))[b],
            ),
    ensures
        !has_parallel_spec(bs, ts, ElemId::Branch(i as usize)),
{
    let x = ElemId::Branch(i as usize);
    let tx = id_terminals(bs, ts, x);
    let from = bs[i].from;
    let to = bs[i].to;
    lemma_pairs_ignore_direction(from, to);
    lemma_pairs_unordered(tx);
    let p = pairs_spec(tx)[0];
    assert(tx[0] == from && tx[1] == to);
    assert(pairs_spec(tx).contains(if tx[0] <= tx[1] { (tx[0], tx[1]) } else { (tx[1], tx[0]) }));
    assert(p == if from <= to { (from, to) } else { (to, from) });
    lemma_element_ids_shape(bs.len(), ts.len());
    let ids = element_ids(bs.len(), ts.len());
    assert forall|a: int, b: int| 0 <= a < b < ids.len() implies ids[a] != ids[b] by {
        assert(position(bs.len(), ids[a]) == a);
        assert(position(bs.len(), ids[b]) == b);
    }
    assert forall|k: int| 0 <= k < ids.len() && ids[k] != x implies !pairs_spec(
        id_terminals(bs, ts, #[trigger] ids[k]),
    ).contains(p) by {
        let y = ids[k];
        let ty = id_terminals(bs, ts, y);
        assert(ids.contains(y));
        lemma_pairs_from_terminals(ty);
        if pairs_spec(ty).contains(p) {
            let m = choose|m: int| 0 <= m < pairs_spec(ty).len() && pairs_spec(ty)[m] == p;
            let (a, b) = choose|a: int, b: int|
                0 <= a < b < ty.len() && #[trigger] pairs_spec(ty)[m] == if ty[a] <= ty[b] {
                    (ty[a], ty[b])
                } else {
                    (ty[b], ty[a])
                };
            assert(same_ends(from, to, ty[a], ty[b]));
            match y {
                ElemId::Branch(j) => {
                    assert(j != i);
                    assert(a == 0 && b == 1);
                    assert(same_ends(from, to, bs[j as int].from, bs[j as int].to));
                },
                ElemId::Transformer(j) => {
                    assert(ty == id_terminals(bs, ts, ElemId::Transformer(j as int as usize)));
                    assert(!same_ends(from, to, ty[a], ty[b]));
                },
            }
        }
    }
    lemma_pair_count_in_alone(bs, ts, ids, p, x);
    assert(ids.contains(x));
    assert(pairs_spec(tx).len() == 1);
    assert(pairs_spec(tx) =~= seq![p]);
    assert(seq![p].drop_last() =~= Seq::<(i32, i32)>::empty());
    assert(count_pair(seq![p].drop_last(), p) == 0);
    assert(seq![p].last() == p);
    assert(count_pair(seq![p], p) == 1);
    assert(count_pair(pairs_spec(tx), p) == 1);
    assert(pair_count(bs, ts, p) == 1);
    if has_parallel_spec(bs, ts, x) {
        let k = choose|k: int|
            0 <= k < pairs_spec(tx).len() && pair_count(bs, ts, #[trigger] pairs_spec(tx)[k]) > 1;
        assert(k == 0);
    }
}


/// Any two elements, lines or transformers, that join the same two buses are both flagged
/// parallel, whichever of their terminals those buses are and in whichever order.
pub proof fn lemma_shared_buses_parallel(
    bs: Seq<Branch>,
    ts: Seq<Transformer>,
    x: ElemId,
    y: ElemId,
    a: int,
    b: int,
    c: int,
    d: int,
)
    requires
        bs.len() <= usize::MAX,
        ts.len() <= usize::MAX,
        id_valid(bs, ts, x),
        id_valid(bs, ts, y),
        x != y,
        0 <= a < b < id_terminals(bs, ts, x).len(),
        0 <= c < d < id_terminals(bs, ts, y).len(),
        same_ends(
            id_terminals(bs, ts, x)[a],
            id_terminals(bs, ts, x)[b],
            id_terminals(bs, ts, y)[c],
            id_terminals(bs, ts, y)[d],
        ),
    ensures
        has_parallel_spec(bs, ts, x),
        has_parallel_spec(bs, ts, y),
{
    let tx = id_terminals(bs, ts, x);
    let ty = id_terminals(bs, ts, y);
    lemma_pairs_unordered(tx);
    lemma_pairs_unordered(ty);
    let p = if tx[a] <= tx[b] { (tx[a], tx[b]) } else { (tx[b], tx[a]) };
    let q = if ty[c] <= ty[d] { (ty[c], ty[d]) } else { (ty[d], ty[c]) };
    assert(p == q);
    assert(pairs_spec(tx).contains(p));
    assert(pairs_spec(ty).contains(p));
    lemma_element_ids_shape(bs.len(), ts.len());
    let ids = element_ids(bs.len(), ts.len());
    assert(ids.contains(x));
    assert(ids.contains(y));
    lemma_pair_count_in_spans(bs, ts, ids, p, x, y);
    assert(pair_count(bs, ts, p) > 1);
    let kx = choose|k: int| 0 <= k < pairs_spec(tx).len() && pairs_spec(tx)[k] == p;
    let ky = choose|k: int| 0 <= k < pairs_spec(ty).len() && pairs_spec(ty)[k] == p;
    assert(pair_count(bs, ts, pairs_spec(tx)[kx]) > 1);
    assert(pair_count(bs, ts, pairs_spec(ty)[ky]) > 1);
}

} // verus!
