//! Typed records read out of a PSS/E raw file.
//!
//! Only the sections a one-line diagram needs are decoded: bus, load, fixed shunt, generator,
//! branch, transformer and switched shunt. Everything else is counted and reported so nothing
//! is dropped silently.
//!
//! Field positions moved between revisions. Where the shift can be detected from the record
//! itself (a quoted branch name, a switched shunt's `RMIDNT`) the parser looks rather than
//! guesses; elsewhere it keys off `REV`. Revision 35 is verified against a real case; 32-34
//! are best effort.
//!
//! Numeric values (impedances, ratings, voltages, powers) are kept as the text the file writes
//! them in, checked to be numbers; a missing or malformed optional value is replaced by the
//! text of its default.

use vstd::prelude::*;

pub use super::scan::CaseHeader as Header;
use super::scan::{
    continuation_spec, field_int, field_number, field_text, int_result, lemma_next_spec_advances,
    next_spec, number_result, section_name, start_spec, text_result, FieldSpec, HeaderSpec,
    PsseError, PsseErrorSpec, Record, RecordSpec, Scanner, ScannerSpec, Section, SectionSpec,
};
use crate::text::{chars_less, chars_lt, chars_of, copy_string, str_eq_chars, string_of, trim, trim_string};

verus! {

#[derive(Debug, Clone)]
pub struct Bus {
    pub number: i32,
    pub name: String,
    pub base_kv: String,
    /// 1 = load bus, 2 = generator bus, 3 = swing, 4 = isolated.
    pub ide: i32,
    pub area: i32,
    pub zone: i32,
    pub vm: String,
    pub va: String,
}

pub struct BusSpec {
    pub number: i32,
    pub name: Seq<char>,
    pub base_kv: Seq<char>,
    pub ide: i32,
    pub area: i32,
    pub zone: i32,
    pub vm: Seq<char>,
    pub va: Seq<char>,
}

impl View for Bus {
    type V = BusSpec;

    open spec fn view(&self) -> BusSpec {
        BusSpec {
            number: self.number,
            name: self.name@,
            base_kv: self.base_kv@,
            ide: self.ide,
            area: self.area,
            zone: self.zone,
            vm: self.vm@,
            va: self.va@,
        }
    }
}

#[derive(Debug, Clone)]
pub struct Load {
    pub bus: i32,
    pub id: String,
    pub status: i32,
    pub pl: String,
    pub ql: String,
}

pub struct LoadSpec {
    pub bus: i32,
    pub id: Seq<char>,
    pub status: i32,
    pub pl: Seq<char>,
    pub ql: Seq<char>,
}

impl View for Load {
    type V = LoadSpec;

    open spec fn view(&self) -> LoadSpec {
        LoadSpec { bus: self.bus, id: self.id@, status: self.status, pl: self.pl@, ql: self.ql@ }
    }
}

#[derive(Debug, Clone)]
pub struct FixedShunt {
    pub bus: i32,
    pub id: String,
    pub status: i32,
    pub gl: String,
    pub bl: String,
}

pub struct FixedShuntSpec {
    pub bus: i32,
    pub id: Seq<char>,
    pub status: i32,
    pub gl: Seq<char>,
    pub bl: Seq<char>,
}

impl View for FixedShunt {
    type V = FixedShuntSpec;

    open spec fn view(&self) -> FixedShuntSpec {
        FixedShuntSpec {
            bus: self.bus,
            id: self.id@,
            status: self.status,
            gl: self.gl@,
            bl: self.bl@,
        }
    }
}

#[derive(Debug, Clone)]
pub struct Generator {
    pub bus: i32,
    pub id: String,
    pub pg: String,
    pub qg: String,
    pub mbase: String,
    pub status: i32,
}

pub struct GeneratorSpec {
    pub bus: i32,
    pub id: Seq<char>,
    pub pg: Seq<char>,
    pub qg: Seq<char>,
    pub mbase: Seq<char>,
    pub status: i32,
}

impl View for Generator {
    type V = GeneratorSpec;

    open spec fn view(&self) -> GeneratorSpec {
        GeneratorSpec {
            bus: self.bus,
            id: self.id@,
            pg: self.pg@,
            qg: self.qg@,
            mbase: self.mbase@,
            status: self.status,
        }
    }
}

#[derive(Debug, Clone)]
pub struct Branch {
    pub from: i32,
    pub to: i32,
    pub ckt: String,
    pub r: String,
    pub x: String,
    pub b: String,
    pub rate_a: String,
    pub status: i32,
    pub name: String,
}

pub struct BranchSpec {
    pub from: i32,
    pub to: i32,
    pub ckt: Seq<char>,
    pub r: Seq<char>,
    pub x: Seq<char>,
    pub b: Seq<char>,
    pub rate_a: Seq<char>,
    pub status: i32,
    pub name: Seq<char>,
}

impl View for Branch {
    type V = BranchSpec;

    open spec fn view(&self) -> BranchSpec {
        BranchSpec {
            from: self.from,
            to: self.to,
            ckt: self.ckt@,
            r: self.r@,
            x: self.x@,
            b: self.b@,
            rate_a: self.rate_a@,
            status: self.status,
            name: self.name@,
        }
    }
}

/// One transformer winding's tap, nominal voltage, phase shift and rating.
#[derive(Debug, Clone)]
pub struct Winding {
    pub windv: String,
    pub nomv: String,
    pub ang: String,
    pub rate_a: String,
}

pub struct WindingSpec {
    pub windv: Seq<char>,
    pub nomv: Seq<char>,
    pub ang: Seq<char>,
    pub rate_a: Seq<char>,
}

impl View for Winding {
    type V = WindingSpec;

    open spec fn view(&self) -> WindingSpec {
        WindingSpec {
            windv: self.windv@,
            nomv: self.nomv@,
            ang: self.ang@,
            rate_a: self.rate_a@,
        }
    }
}

#[derive(Debug, Clone)]
pub struct Transformer {
    pub i: i32,
    pub j: i32,
    /// Third winding bus, or 0 for a two-winding transformer.
    pub k: i32,
    pub ckt: String,
    pub name: String,
    pub status: i32,
    pub r12: String,
    pub x12: String,
    pub windings: Vec<Winding>,
}

pub struct TransformerSpec {
    pub i: i32,
    pub j: i32,
    pub k: i32,
    pub ckt: Seq<char>,
    pub name: Seq<char>,
    pub status: i32,
    pub r12: Seq<char>,
    pub x12: Seq<char>,
    pub windings: Seq<WindingSpec>,
}

impl View for Transformer {
    type V = TransformerSpec;

    open spec fn view(&self) -> TransformerSpec {
        TransformerSpec {
            i: self.i,
            j: self.j,
            k: self.k,
            ckt: self.ckt@,
            name: self.name@,
            status: self.status,
            r12: self.r12@,
            x12: self.x12@,
            windings: self.windings@.map_values(|w: Winding| w@),
        }
    }
}

/// The buses a transformer with winding buses `i`, `j`, `k` connects, in winding order.
pub open spec fn transformer_terminals(i: i32, j: i32, k: i32) -> Seq<i32> {
    if k != 0 {
        seq![i, j, k]
    } else {
        seq![i, j]
    }
}

impl Transformer {
    pub fn is_three_winding(&self) -> (r: bool)
        ensures
            r == (self.k != 0),
    {
        self.k != 0
    }

    /// The buses this transformer connects, in winding order.
    pub fn terminals(&self) -> (t: Vec<i32>)
        ensures
            t@ == transformer_terminals(self.i, self.j, self.k),
    {
        if self.is_three_winding() {
            vec![self.i, self.j, self.k]
        } else {
            vec![self.i, self.j]
        }
    }
}

#[derive(Debug, Clone)]
pub struct SwitchedShunt {
    pub bus: i32,
    pub id: String,
    pub status: i32,
    /// Initial susceptance in Mvar at 1.0 pu; positive is capacitive, negative reactive.
    pub binit: String,
}

pub struct SwitchedShuntSpec {
    pub bus: i32,
    pub id: Seq<char>,
    pub status: i32,
    pub binit: Seq<char>,
}

impl View for SwitchedShunt {
    type V = SwitchedShuntSpec;

    open spec fn view(&self) -> SwitchedShuntSpec {
        SwitchedShuntSpec { bus: self.bus, id: self.id@, status: self.status, binit: self.binit@ }
    }
}

/// The bus a record describes.
#[verifier::opaque]
pub open spec fn bus_from(r: RecordSpec) -> Result<BusSpec, PsseErrorSpec> {
    match int_result(r, 0) {
        Err(e) => Err(e),
        Ok(number) => match text_result(r, 1) {
            Err(e) => Err(e),
            Ok(name) => match number_result(r, 2) {
                Err(e) => Err(e),
                Ok(base_kv) => Ok(
                    BusSpec {
                        number,
                        name: trim(name),
                        base_kv,
                        ide: field_int(r.fields, 3, 1),
                        area: field_int(r.fields, 4, 1),
                        zone: field_int(r.fields, 5, 1),
                        vm: field_number(r.fields, 7, "1.0"@),
                        va: field_number(r.fields, 8, "0.0"@),
                    },
                ),
            },
        },
    }
}

pub fn parse_bus(rec: &Record) -> (r: Result<Bus, PsseError>)
    ensures
        match r {
            Ok(b) => bus_from(rec@) == Ok::<BusSpec, PsseErrorSpec>(b@),
            Err(e) => bus_from(rec@) == Err::<BusSpec, PsseErrorSpec>(e@),
        },
{
    proof {
        reveal(bus_from);
    }
    let number = rec.i32(0)?;
    let name = trim_string(rec.text(1)?);
    let base_kv = copy_string(rec.number(2)?);
    Ok(
        Bus {
            number,
            name,
            base_kv,
            ide: rec.opt_i32(3, 1),
            area: rec.opt_i32(4, 1),
            zone: rec.opt_i32(5, 1),
            vm: copy_string(rec.opt_number(7, "1.0")),
            va: copy_string(rec.opt_number(8, "0.0")),
        },
    )
}


#[verifier::opaque]
pub open spec fn load_from(r: RecordSpec) -> Result<LoadSpec, PsseErrorSpec> {
    match int_result(r, 0) {
        Err(e) => Err(e),
        Ok(bus) => match text_result(r, 1) {
            Err(e) => Err(e),
            Ok(id) => Ok(
                LoadSpec {
                    bus,
                    id: trim(id),
                    status: field_int(r.fields, 2, 1),
                    pl: field_number(r.fields, 5, "0.0"@),
                    ql: field_number(r.fields, 6, "0.0"@),
                },
            ),
        },
    }
}

pub fn parse_load(rec: &Record) -> (r: Result<Load, PsseError>)
    ensures
        match r {
            Ok(l) => load_from(rec@) == Ok::<LoadSpec, PsseErrorSpec>(l@),
            Err(e) => load_from(rec@) == Err::<LoadSpec, PsseErrorSpec>(e@),
        },
{
    proof {
        reveal(load_from);
    }
    let bus = rec.i32(0)?;
    let id = trim_string(rec.text(1)?);
    Ok(
        Load {
            bus,
            id,
            status: rec.opt_i32(2, 1),
            pl: copy_string(rec.opt_number(5, "0.0")),
            ql: copy_string(rec.opt_number(6, "0.0")),
        },
    )
}

#[verifier::opaque]
pub open spec fn fixed_shunt_from(r: RecordSpec) -> Result<FixedShuntSpec, PsseErrorSpec> {
    match int_result(r, 0) {
        Err(e) => Err(e),
        Ok(bus) => match text_result(r, 1) {
            Err(e) => Err(e),
            Ok(id) => Ok(
                FixedShuntSpec {
                    bus,
                    id: trim(id),
                    status: field_int(r.fields, 2, 1),
                    gl: field_number(r.fields, 3, "0.0"@),
                    bl: field_number(r.fields, 4, "0.0"@),
                },
            ),
        },
    }
}

pub fn parse_fixed_shunt(rec: &Record) -> (r: Result<FixedShunt, PsseError>)
    ensures
        match r {
            Ok(f) => fixed_shunt_from(rec@) == Ok::<FixedShuntSpec, PsseErrorSpec>(f@),
            Err(e) => fixed_shunt_from(rec@) == Err::<FixedShuntSpec, PsseErrorSpec>(e@),
        },
{
    proof {
        reveal(fixed_shunt_from);
    }
    let bus = rec.i32(0)?;
    let id = trim_string(rec.text(1)?);
    Ok(
        FixedShunt {
            bus,
            id,
            status: rec.opt_i32(2, 1),
            gl: copy_string(rec.opt_number(3, "0.0")),
            bl: copy_string(rec.opt_number(4, "0.0")),
        },
    )
}

/// Whether a generator status read at offset `shift` is plausible: status is always 0 or 1.
pub open spec fn plausible_shift(r: RecordSpec, shift: int) -> bool {
    let v = field_int(r.fields, 14 + shift, -1i32);
    v == 0 || v == 1
}

/// Where a generator's fields from `MBASE` on stand: shifted by one from revision 35.
pub open spec fn generator_shift_spec(r: RecordSpec, rev: int) -> int {
    let assumed = if rev >= 35 {
        1int
    } else {
        0int
    };
    if plausible_shift(r, assumed) {
        assumed
    } else if plausible_shift(r, 1 - assumed) {
        1 - assumed
    } else {
        assumed
    }
}

/// Revision 35 inserts `NREG` after `IREG`, shifting everything from `MBASE` on by one.
///
/// The offset is confirmed against the record before use: status is always 0 or 1, so a value
/// outside that range means the assumed layout is wrong and the other one is tried.
pub fn generator_shift(rec: &Record, rev: i32) -> (shift: usize)
    ensures
        shift as int == generator_shift_spec(rec@, rev as int),
{
    let assumed: usize = if rev >= 35 {
        1
    } else {
        0
    };
    let at_assumed = rec.opt_i32(14 + assumed, -1);
    if at_assumed == 0 || at_assumed == 1 {
        return assumed;
    }
    let other = 1 - assumed;
    let at_other = rec.opt_i32(14 + other, -1);
    if at_other == 0 || at_other == 1 {
        other
    } else {
        assumed
    }
}

#[verifier::opaque]
pub open spec fn generator_from(r: RecordSpec, rev: int) -> Result<GeneratorSpec, PsseErrorSpec> {
    let shift = generator_shift_spec(r, rev);
    match int_result(r, 0) {
        Err(e) => Err(e),
        Ok(bus) => match text_result(r, 1) {
            Err(e) => Err(e),
            Ok(id) => Ok(
                GeneratorSpec {
                    bus,
                    id: trim(id),
                    pg: field_number(r.fields, 2, "0.0"@),
                    qg: field_number(r.fields, 3, "0.0"@),
                    mbase: field_number(r.fields, 8 + shift, "100.0"@),
                    status: field_int(r.fields, 14 + shift, 1),
                },
            ),
        },
    }
}

pub fn parse_generator(rec: &Record, rev: i32) -> (r: Result<Generator, PsseError>)
    ensures
        match r {
            Ok(g) => generator_from(rec@, rev as int) == Ok::<GeneratorSpec, PsseErrorSpec>(g@),
            Err(e) => generator_from(rec@, rev as int) == Err::<GeneratorSpec, PsseErrorSpec>(e@),
        },
{
    proof {
        reveal(generator_from);
    }
    let shift = generator_shift(rec, rev);
    let bus = rec.i32(0)?;
    let id = trim_string(rec.text(1)?);
    Ok(
        Generator {
            bus,
            id,
            pg: copy_string(rec.opt_number(2, "0.0")),
            qg: copy_string(rec.opt_number(3, "0.0")),
            mbase: copy_string(rec.opt_number(8 + shift, "100.0")),
            status: rec.opt_i32(14 + shift, 1),
        },
    )
}

/// Whether field `idx` is present and quoted.
pub open spec fn quoted_at(r: RecordSpec, idx: int) -> bool {
    0 <= idx < r.fields.len() && r.fields[idx].quoted
}

fn is_quoted_at(rec: &Record, idx: usize) -> (q: bool)
    ensures
        q == quoted_at(rec@, idx as int),
{
    idx < rec.fields.len() && rec.fields[idx].quoted
}

#[verifier::opaque]
pub open spec fn branch_from(r: RecordSpec) -> Result<BranchSpec, PsseErrorSpec> {
    let named = quoted_at(r, 6);
    let name = if named {
        trim(field_text(r.fields, 6))
    } else {
        Seq::empty()
    };
    let rate_idx = if named {
        7int
    } else {
        6int
    };
    let stat_idx = if named {
        23int
    } else {
        13int
    };
    match int_result(r, 0) {
        Err(e) => Err(e),
        Ok(from) => match int_result(r, 1) {
            Err(e) => Err(e),
            Ok(to) => match text_result(r, 2) {
                Err(e) => Err(e),
                Ok(ckt) => match number_result(r, 4) {
                    Err(e) => Err(e),
                    Ok(x) => Ok(
                        BranchSpec {
                            from,
                            to,
                            ckt: trim(ckt),
                            r: field_number(r.fields, 3, "0.0"@),
                            x,
                            b: field_number(r.fields, 5, "0.0"@),
                            rate_a: field_number(r.fields, rate_idx, "0.0"@),
                            status: field_int(r.fields, stat_idx, 1),
                            name,
                        },
                    ),
                },
            },
        },
    }
}

/// Revisions 34 and up carry a quoted branch name after `B` and twelve ratings instead of three.
///
/// The name is quoted and the ratings are not, so the record says which layout it is.
pub fn parse_branch(rec: &Record) -> (r: Result<Branch, PsseError>)
    ensures
        match r {
            Ok(b) => branch_from(rec@) == Ok::<BranchSpec, PsseErrorSpec>(b@),
            Err(e) => branch_from(rec@) == Err::<BranchSpec, PsseErrorSpec>(e@),
        },
{
    proof {
        reveal(branch_from);
    }
    let named = is_quoted_at(rec, 6);
    let (name, rate_idx, stat_idx): (String, usize, usize) = if named {
        (trim_string(rec.opt_text(6)), 7, 23)
    } else {
        (String::new(), 6, 13)
    };
    let from = rec.i32(0)?;
    let to = rec.i32(1)?;
    let ckt = trim_string(rec.text(2)?);
    let r = copy_string(rec.opt_number(3, "0.0"));
    let x = copy_string(rec.number(4)?);
    Ok(
        Branch {
            from,
            to,
            ckt,
            r,
            x,
            b: copy_string(rec.opt_number(5, "0.0")),
            rate_a: copy_string(rec.opt_number(rate_idx, "0.0")),
            status: rec.opt_i32(stat_idx, 1),
            name,
        },
    )
}

pub open spec fn winding_from(r: RecordSpec) -> WindingSpec {
    WindingSpec {
        windv: field_number(r.fields, 0, "1.0"@),
        nomv: field_number(r.fields, 1, "0.0"@),
        ang: field_number(r.fields, 2, "0.0"@),
        rate_a: field_number(r.fields, 3, "0.0"@),
    }
}

/// A winding line opens with tap, nominal kV, phase shift and first rating in every revision.
///
/// The second winding of a two-winding transformer stops after the nominal voltage.
pub fn parse_winding(rec: &Record) -> (w: Winding)
    ensures
        w@ == winding_from(rec@),
{
    Winding {
        windv: copy_string(rec.opt_number(0, "1.0")),
        nomv: copy_string(rec.opt_number(1, "0.0")),
        ang: copy_string(rec.opt_number(2, "0.0")),
        rate_a: copy_string(rec.opt_number(3, "0.0")),
    }
}

/// Where a switched shunt's `BINIT` stands: just after `RMIDNT`, its last quoted field, or in
/// the revision-33 slot when no quoted field follows the status.
pub open spec fn binit_index(r: RecordSpec, status_idx: int) -> int {
    if exists|q: int| status_idx < q < r.fields.len() && r.fields[q].quoted {
        let last = choose|q: int|
            0 <= q < r.fields.len() && r.fields[q].quoted && forall|m: int|
                q < m < r.fields.len() ==> !(#[trigger] r.fields[m]).quoted;
        last + 1
    } else {
        9
    }
}

#[verifier::opaque]
pub open spec fn switched_shunt_from(r: RecordSpec) -> Result<SwitchedShuntSpec, PsseErrorSpec> {
    let has_id = quoted_at(r, 1);
    let id = if has_id {
        trim(field_text(r.fields, 1))
    } else {
        Seq::empty()
    };
    let status_idx = if has_id {
        4int
    } else {
        3int
    };
    match int_result(r, 0) {
        Err(e) => Err(e),
        Ok(bus) => Ok(
            SwitchedShuntSpec {
                bus,
                id,
                status: field_int(r.fields, status_idx, 1),
                binit: field_number(r.fields, binit_index(r, status_idx), "0.0"@),
            },
        ),
    }
}

/// Switched shunts gained an `ID` in revision 35 and a `NREG` before `RMPCT`, so the leading
/// fields cannot be counted on. `RMIDNT` is the record's last quoted field, and `BINIT` always
/// follows it.
pub fn parse_switched_shunt(rec: &Record) -> (r: Result<SwitchedShunt, PsseError>)
    ensures
        match r {
            Ok(s) => switched_shunt_from(rec@) == Ok::<SwitchedShuntSpec, PsseErrorSpec>(s@),
            Err(e) => switched_shunt_from(rec@) == Err::<SwitchedShuntSpec, PsseErrorSpec>(e@),
        },
{
    proof {
        reveal(switched_shunt_from);
    }
    let has_id = is_quoted_at(rec, 1);
    let (id, status_idx): (String, usize) = if has_id {
        (trim_string(rec.opt_text(1)), 4)
    } else {
        (String::new(), 3)
    };
    // The last quoted field is RMIDNT; when it is absent fall back to the revision-33 slot.
    let n = rec.fields.len();
    let last = rec.last_quoted();
    let binit_idx: usize = match last {
        Some(rmidnt) => if rmidnt > status_idx {
            rmidnt + 1
        } else {
            9
        },
        None => 9,
    };
    proof {
        let fs = rec@.fields;
        assert(forall|q: int| 0 <= q < fs.len() ==> fs[q] == rec.fields@[q]@);
        match last {
            Some(rmidnt) => {
                let pred = |q: int|
                    0 <= q < fs.len() && fs[q].quoted && forall|m: int|
                        q < m < fs.len() ==> !(#[trigger] fs[m]).quoted;
                assert(pred(rmidnt as int));
                let c = choose|q: int|
                    0 <= q < fs.len() && fs[q].quoted && forall|m: int|
                        q < m < fs.len() ==> !(#[trigger] fs[m]).quoted;
                assert(pred(c));
                if c < rmidnt {
                    assert(!fs[rmidnt as int].quoted);
                } else if c > rmidnt {
                    assert(!fs[c].quoted);
                }
                if rmidnt > status_idx {
                    assert(status_idx < rmidnt < fs.len() && fs[rmidnt as int].quoted);
                } else {
                    assert(!exists|q: int| status_idx < q < fs.len() && fs[q].quoted);
                }
            },
            None => {
                assert(!exists|q: int| status_idx < q < fs.len() && fs[q].quoted);
            },
        }
    }
    let bus = rec.i32(0)?;
    Ok(
        SwitchedShunt {
            bus,
            id,
            status: rec.opt_i32(status_idx, 1),
            binit: copy_string(rec.opt_number(binit_idx, "0.0")),
        },
    )
}


/// The error text of a transformer cut short.
pub open spec fn transformer_what() -> Seq<char> {
    "a transformer record"@
}

/// Reads the transformer whose first line is `first`, its continuation lines coming from the
/// scanner in state `s`: the scanner's state afterwards and the transformer.
#[verifier::opaque]
pub open spec fn transformer_from(first: RecordSpec, s: ScannerSpec) -> (
    ScannerSpec,
    Result<TransformerSpec, PsseErrorSpec>,
) {
    let k = field_int(first.fields, 2, 0);
    let what = transformer_what();
    let (s1, impedance) = continuation_spec(s, SectionSpec::Transformer, what);
    let (s2, w1) = continuation_spec(s1, SectionSpec::Transformer, what);
    let (s3, w2) = continuation_spec(s2, SectionSpec::Transformer, what);
    let (s4, w3) = if k != 0 {
        continuation_spec(s3, SectionSpec::Transformer, what)
    } else {
        (s3, w2)
    };
    match (impedance, w1, w2, w3) {
        (Err(e), _, _, _) => (s1, Err(e)),
        (Ok(_), Err(e), _, _) => (s2, Err(e)),
        (Ok(_), Ok(_), Err(e), _) => (s3, Err(e)),
        (Ok(_), Ok(_), Ok(_), Err(e)) => (s4, Err(e)),
        (Ok(imp), Ok(a), Ok(b), Ok(c)) => {
            let windings = if k != 0 {
                seq![winding_from(a), winding_from(b), winding_from(c)]
            } else {
                seq![winding_from(a), winding_from(b)]
            };
            match int_result(first, 0) {
                Err(e) => (s4, Err(e)),
                Ok(i) => match int_result(first, 1) {
                    Err(e) => (s4, Err(e)),
                    Ok(j) => match text_result(first, 3) {
                        Err(e) => (s4, Err(e)),
                        Ok(ckt) => (
                            s4,
                            Ok(
                                TransformerSpec {
                                    i,
                                    j,
                                    k,
                                    ckt: trim(ckt),
                                    name: trim(field_text(first.fields, 10)),
                                    status: field_int(first.fields, 11, 1),
                                    r12: field_number(imp.fields, 0, "0.0"@),
                                    x12: field_number(imp.fields, 1, "0.0"@),
                                    windings,
                                },
                            ),
                        ),
                    },
                },
            }
        },
    }
}

/// Reading a transformer only moves the scanner forward through the same lines.
pub proof fn lemma_transformer_advances(first: RecordSpec, s: ScannerSpec)
    requires
        s.idx <= s.lines.len(),
    ensures
        ({
            let (s1, _) = transformer_from(first, s);
            s1.lines == s.lines && s1.rev == s.rev && s.idx <= s1.idx <= s.lines.len()
        }),
{
    reveal(transformer_from);
    let what = transformer_what();
    let (a, _) = continuation_spec(s, SectionSpec::Transformer, what);
    lemma_next_spec_advances(s);
    let (b, _) = continuation_spec(a, SectionSpec::Transformer, what);
    lemma_next_spec_advances(a);
    let (c, _) = continuation_spec(b, SectionSpec::Transformer, what);
    lemma_next_spec_advances(b);
    lemma_next_spec_advances(c);
}

/// Transformers span four lines (two winding) or five (three winding).
fn parse_transformer(first: &Record, scanner: &mut Scanner) -> (r: Result<Transformer, PsseError>)
    ensures
        ({
            let (after, res) = transformer_from(first@, old(scanner)@);
            match r {
                Ok(t) => final(scanner)@ == after && res == Ok::<TransformerSpec, PsseErrorSpec>(t@),
                Err(e) => final(scanner)@ == after && res == Err::<TransformerSpec, PsseErrorSpec>(e@),
            }
        }),
{
    proof {
        reveal(transformer_from);
    }
    let k = first.opt_i32(2, 0);
    let three_winding = k != 0;
    let what = "a transformer record";
    let transformer = Section::Transformer;

    let impedance = scanner.continuation(&transformer, what)?;
    let w1 = scanner.continuation(&transformer, what)?;
    let w2 = scanner.continuation(&transformer, what)?;

    let mut windings = vec![parse_winding(&w1), parse_winding(&w2)];
    if three_winding {
        let w3 = scanner.continuation(&transformer, what)?;
        windings.push(parse_winding(&w3));
        proof {
            assert(windings@.map_values(|w: Winding| w@) =~= seq![
                winding_from(w1@),
                winding_from(w2@),
                winding_from(w3@),
            ]);
        }
    } else {
        proof {
            assert(windings@.map_values(|w: Winding| w@) =~= seq![
                winding_from(w1@),
                winding_from(w2@),
            ]);
        }
    }
    let i = first.i32(0)?;
    let j = first.i32(1)?;
    let ckt = trim_string(first.text(3)?);
    Ok(
        Transformer {
            i,
            j,
            k,
            ckt,
            name: trim_string(first.opt_text(10)),
            status: first.opt_i32(11, 1),
            r12: copy_string(impedance.opt_number(0, "0.0")),
            x12: copy_string(impedance.opt_number(1, "0.0")),
            windings,
        },
    )
}


/// Section names with record counts, as pairs of plain values.
pub open spec fn counts_view(v: Seq<(String, usize)>) -> Seq<(Seq<char>, nat)> {
    v.map_values(|e: (String, usize)| (e.0@, e.1 as nat))
}

/// The first entry at or after `i` named `name`.
pub open spec fn name_index_from(m: Seq<(Seq<char>, nat)>, name: Seq<char>, i: int) -> Option<int>
    decreases m.len() - i,
{
    if i < 0 || i >= m.len() {
        None
    } else if m[i].0 == name {
        Some(i)
    } else {
        name_index_from(m, name, i + 1)
    }
}

/// The first entry at or after `i` whose name sorts after `name`, or the end.
pub open spec fn insert_position_from(m: Seq<(Seq<char>, nat)>, name: Seq<char>, i: int) -> int
    decreases m.len() - i,
{
    if i < 0 || i >= m.len() {
        m.len() as int
    } else if chars_lt(name, m[i].0) {
        i
    } else {
        insert_position_from(m, name, i + 1)
    }
}

/// One more record counted against section `name`: its count goes up, or it is entered, in
/// name order, with a count of one.
pub open spec fn count_skip(m: Seq<(Seq<char>, nat)>, name: Seq<char>) -> Seq<(Seq<char>, nat)> {
    match name_index_from(m, name, 0) {
        Some(i) => m.update(i, (name, m[i].1 + 1)),
        None => m.insert(insert_position_from(m, name, 0), (name, 1)),
    }
}

proof fn lemma_insert_position_bounds(m: Seq<(Seq<char>, nat)>, name: Seq<char>, i: int)
    requires
        0 <= i,
    ensures
        insert_position_from(m, name, i) <= m.len(),
        i <= m.len() ==> i <= insert_position_from(m, name, i),
    decreases m.len() - i,
{
    if i < m.len() && !chars_lt(name, m[i].0) {
        lemma_insert_position_bounds(m, name, i + 1);
    }
}

fn count_skipped(skipped: &mut Vec<(String, usize)>, name: &str)
    requires
        forall|k: int| 0 <= k < old(skipped)@.len() ==> (#[trigger] old(skipped)@[k]).1 < usize::MAX,
    ensures
        counts_view(final(skipped)@) == count_skip(counts_view(old(skipped)@), name@),
{
    let ghost m = counts_view(skipped@);
    let name_chars = chars_of(name);
    let mut i: usize = 0;
    while i < skipped.len()
        invariant
            name_chars@ == name@,
            skipped@ == old(skipped)@,
            m == counts_view(skipped@),
            m.len() == skipped@.len(),
            i <= skipped@.len(),
            name_index_from(m, name@, 0) == name_index_from(m, name@, i as int),
            forall|k: int| 0 <= k < skipped@.len() ==> (#[trigger] skipped@[k]).1 < usize::MAX,
        decreases skipped@.len() - i,
    {
        proof {
            assert(m[i as int] == (skipped@[i as int].0@, skipped@[i as int].1 as nat));
            assert(m[i as int].0 == skipped@[i as int].0@);
        }
        let same = str_eq_chars(skipped[i].0.as_str(), name_chars.as_slice());
        proof {
            assert(same == (m[i as int].0 == name@));
        }
        if same {
            let ghost before = skipped@;
            let (n, c) = skipped.remove(i);
            proof {
                assert(n == before[i as int].0 && c == before[i as int].1);
            }
            skipped.insert(i, (n, c + 1));
            proof {
                assert(skipped@ =~= before.update(i as int, (n, (c + 1) as usize)));
                assert(counts_view(skipped@) =~= m.update(i as int, (name@, m[i as int].1 + 1)));
                assert(name_index_from(m, name@, i as int) == Some(i as int));
            }
            return;
        }
        i = i + 1;
    }
    let mut p: usize = 0;
    let mut found = false;
    while p < skipped.len() && !found
        invariant
            name_chars@ == name@,
            skipped@ == old(skipped)@,
            m == counts_view(skipped@),
            m.len() == skipped@.len(),
            p <= skipped@.len(),
            found ==> p < skipped@.len() && chars_lt(name@, m[p as int].0),
            insert_position_from(m, name@, 0) == insert_position_from(m, name@, p as int),
        decreases skipped@.len() - p, if found {
            0int
        } else {
            1int
        },
    {
        proof {
            assert(m[p as int] == (skipped@[p as int].0@, skipped@[p as int].1 as nat));
            assert(m[p as int].0 == skipped@[p as int].0@);
        }
        let entry_chars = chars_of(skipped[p].0.as_str());
        let less = chars_less(name_chars.as_slice(), entry_chars.as_slice());
        proof {
            assert(less == chars_lt(name@, m[p as int].0));
        }
        if less {
            found = true;
        } else {
            p = p + 1;
        }
    }
    proof {
        assert(insert_position_from(m, name@, 0) == p as int);
        assert(name_index_from(m, name@, 0) is None);
    }
    let entry = (string_of(name_chars.as_slice()), 1usize);
    skipped.insert(p, entry);
    proof {
        assert(counts_view(skipped@) =~= m.insert(p as int, (name@, 1nat)));
    }
}

/// Everything read out of one raw file.
#[derive(Debug, Clone)]
pub struct RawCase {
    pub header: Header,
    pub buses: Vec<Bus>,
    pub loads: Vec<Load>,
    pub fixed_shunts: Vec<FixedShunt>,
    pub generators: Vec<Generator>,
    pub branches: Vec<Branch>,
    pub transformers: Vec<Transformer>,
    pub switched_shunts: Vec<SwitchedShunt>,
    /// Sections present in the file that this reader does not decode, with record counts, in
    /// name order.
    pub skipped: Vec<(String, usize)>,
}

/// A case as plain values.
#[verifier::ext_equal]
pub struct CaseSpec {
    pub header: HeaderSpec,
    pub buses: Seq<BusSpec>,
    pub loads: Seq<LoadSpec>,
    pub fixed_shunts: Seq<FixedShuntSpec>,
    pub generators: Seq<GeneratorSpec>,
    pub branches: Seq<BranchSpec>,
    pub transformers: Seq<TransformerSpec>,
    pub switched_shunts: Seq<SwitchedShuntSpec>,
    pub skipped: Seq<(Seq<char>, nat)>,
}

impl View for RawCase {
    type V = CaseSpec;

    open spec fn view(&self) -> CaseSpec {
        CaseSpec {
            header: self.header@,
            buses: self.buses@.map_values(|b: Bus| b@),
            loads: self.loads@.map_values(|l: Load| l@),
            fixed_shunts: self.fixed_shunts@.map_values(|f: FixedShunt| f@),
            generators: self.generators@.map_values(|g: Generator| g@),
            branches: self.branches@.map_values(|b: Branch| b@),
            transformers: self.transformers@.map_values(|t: Transformer| t@),
            switched_shunts: self.switched_shunts@.map_values(|s: SwitchedShunt| s@),
            skipped: counts_view(self.skipped@),
        }
    }
}

/// Takes in one record of section `section`, the scanner standing after it in state `s`: the
/// scanner's state afterwards and the case with the record added.
pub open spec fn record_step(s: ScannerSpec, case: CaseSpec, section: SectionSpec, rec: RecordSpec) -> (
    ScannerSpec,
    Result<CaseSpec, PsseErrorSpec>,
) {
    match section {
        SectionSpec::Bus => (
            s,
            match bus_from(rec) {
                Err(e) => Err(e),
                Ok(b) => Ok(CaseSpec { buses: case.buses.push(b), ..case }),
            },
        ),
        SectionSpec::Load => (
            s,
            match load_from(rec) {
                Err(e) => Err(e),
                Ok(l) => Ok(CaseSpec { loads: case.loads.push(l), ..case }),
            },
        ),
        SectionSpec::FixedShunt => (
            s,
            match fixed_shunt_from(rec) {
                Err(e) => Err(e),
                Ok(f) => Ok(CaseSpec { fixed_shunts: case.fixed_shunts.push(f), ..case }),
            },
        ),
        SectionSpec::Generator => (
            s,
            match generator_from(rec, s.rev) {
                Err(e) => Err(e),
                Ok(g) => Ok(CaseSpec { generators: case.generators.push(g), ..case }),
            },
        ),
        SectionSpec::Branch => (
            s,
            match branch_from(rec) {
                Err(e) => Err(e),
                Ok(b) => Ok(CaseSpec { branches: case.branches.push(b), ..case }),
            },
        ),
        SectionSpec::Transformer => {
            let (s2, t) = transformer_from(rec, s);
            (
                s2,
                match t {
                    Err(e) => Err(e),
                    Ok(t) => Ok(CaseSpec { transformers: case.transformers.push(t), ..case }),
                },
            )
        },
        SectionSpec::SwitchedShunt => (
            s,
            match switched_shunt_from(rec) {
                Err(e) => Err(e),
                Ok(x) => Ok(CaseSpec { switched_shunts: case.switched_shunts.push(x), ..case }),
            },
        ),
        other => (s, Ok(CaseSpec { skipped: count_skip(case.skipped, section_name(other)), ..case })),
    }
}

/// Whether records of `section` are read into the case rather than only counted.
pub open spec fn read_section(section: SectionSpec) -> bool {
    ||| section is Bus
    ||| section is Load
    ||| section is FixedShunt
    ||| section is Generator
    ||| section is Branch
    ||| section is Transformer
    ||| section is SwitchedShunt
}

/// A record lands in the list of its own section: a record of a section the reader decodes
/// adds one item, read from it by that section's reader, to that section's list and leaves
/// the header, the other lists and the counts of skipped records alone; a record of any other
/// section leaves every list alone and is only counted. Taking it in fails exactly when the
/// section's reader refuses it.
pub proof fn lemma_record_lands_in_its_section(
    s: ScannerSpec,
    case: CaseSpec,
    section: SectionSpec,
    rec: RecordSpec,
)
    ensures
        record_step(s, case, section, rec).1 is Err <==> {
            ||| section is Bus && bus_from(rec) is Err
            ||| section is Load && load_from(rec) is Err
            ||| section is FixedShunt && fixed_shunt_from(rec) is Err
            ||| section is Generator && generator_from(rec, s.rev) is Err
            ||| section is Branch && branch_from(rec) is Err
            ||| section is Transformer && transformer_from(rec, s).1 is Err
            ||| section is SwitchedShunt && switched_shunt_from(rec) is Err
        },
        record_step(s, case, section, rec).1 matches Ok(c) ==> {
            &&& c.header == case.header
            &&& (section is Bus ==> c.buses.len() == case.buses.len() + 1 && c.buses.drop_last()
                == case.buses && bus_from(rec) == Ok::<BusSpec, PsseErrorSpec>(c.buses.last()))
            &&& (!(section is Bus) ==> c.buses == case.buses)
            &&& (section is Load ==> c.loads.len() == case.loads.len() + 1 && c.loads.drop_last()
                == case.loads && load_from(rec) == Ok::<LoadSpec, PsseErrorSpec>(c.loads.last()))
            &&& (!(section is Load) ==> c.loads == case.loads)
            &&& (section is FixedShunt ==> c.fixed_shunts.len() == case.fixed_shunts.len() + 1
                && c.fixed_shunts.drop_last() == case.fixed_shunts && fixed_shunt_from(rec)
                == Ok::<FixedShuntSpec, PsseErrorSpec>(c.fixed_shunts.last()))
            &&& (!(section is FixedShunt) ==> c.fixed_shunts == case.fixed_shunts)
            &&& (section is Generator ==> c.generators.len() == case.generators.len() + 1
                && c.generators.drop_last() == case.generators && generator_from(rec, s.rev)
                == Ok::<GeneratorSpec, PsseErrorSpec>(c.generators.last()))
            &&& (!(section is Generator) ==> c.generators == case.generators)
            &&& (section is Branch ==> c.branches.len() == case.branches.len() + 1
                && c.branches.drop_last() == case.branches && branch_from(rec)
                == Ok::<BranchSpec, PsseErrorSpec>(c.branches.last()))
            &&& (!(section is Branch) ==> c.branches == case.branches)
            &&& (section is Transformer ==> c.transformers.len() == case.transformers.len() + 1
                && c.transformers.drop_last() == case.transformers && transformer_from(rec, s).1
                == Ok::<TransformerSpec, PsseErrorSpec>(c.transformers.last()))
            &&& (!(section is Transformer) ==> c.transformers == case.transformers)
            &&& (section is SwitchedShunt ==> c.switched_shunts.len() == case.switched_shunts.len() + 1
                && c.switched_shunts.drop_last() == case.switched_shunts && switched_shunt_from(rec)
                == Ok::<SwitchedShuntSpec, PsseErrorSpec>(c.switched_shunts.last()))
            &&& (!(section is SwitchedShunt) ==> c.switched_shunts == case.switched_shunts)
            &&& (read_section(section) ==> c.skipped == case.skipped)
            &&& (!read_section(section) ==> c.skipped == count_skip(case.skipped, section_name(section)))
        },
{
    match section {
        SectionSpec::Bus => {
            if let Ok(b) = bus_from(rec) {
                assert(case.buses.push(b).drop_last() =~= case.buses);
            }
        },
        SectionSpec::Load => {
            if let Ok(b) = load_from(rec) {
                assert(case.loads.push(b).drop_last() =~= case.loads);
            }
        },
        SectionSpec::FixedShunt => {
            if let Ok(b) = fixed_shunt_from(rec) {
                assert(case.fixed_shunts.push(b).drop_last() =~= case.fixed_shunts);
            }
        },
        SectionSpec::Generator => {
            if let Ok(b) = generator_from(rec, s.rev) {
                assert(case.generators.push(b).drop_last() =~= case.generators);
            }
        },
        SectionSpec::Branch => {
            if let Ok(b) = branch_from(rec) {
                assert(case.branches.push(b).drop_last() =~= case.branches);
            }
        },
        SectionSpec::Transformer => {
            if let Ok(b) = transformer_from(rec, s).1 {
                assert(case.transformers.push(b).drop_last() =~= case.transformers);
            }
        },
        SectionSpec::SwitchedShunt => {
            if let Ok(b) = switched_shunt_from(rec) {
                assert(case.switched_shunts.push(b).drop_last() =~= case.switched_shunts);
            }
        },
        _ => {},
    }
}

/// Taking in a record only moves the scanner forward through the same lines.
pub proof fn lemma_record_step_advances(
    s: ScannerSpec,
    case: CaseSpec,
    section: SectionSpec,
    rec: RecordSpec,
)
    requires
        s.idx <= s.lines.len(),
    ensures
        ({
            let (s2, _) = record_step(s, case, section, rec);
            s2.lines == s.lines && s2.rev == s.rev && s.idx <= s2.idx <= s.lines.len()
        }),
{
    if section is Transformer {
        lemma_transformer_advances(rec, s);
    }
}

/// Reads the records from scanner state `s` on into `case`.
pub open spec fn parse_records(s: ScannerSpec, case: CaseSpec) -> Result<CaseSpec, PsseErrorSpec>
    decreases s.lines.len() - s.idx,
{
    if s.idx > s.lines.len() {
        Ok(case)
    } else {
        let (s1, found) = next_spec(s);
        proof {
            lemma_next_spec_advances(s);
        }
        match found {
            None => Ok(case),
            Some((section, rec)) => {
                let (s2, r) = record_step(s1, case, section, rec);
                proof {
                    lemma_record_step_advances(s1, case, section, rec);
                }
                match r {
                    Err(e) => Err(e),
                    Ok(c2) => parse_records(s2, c2),
                }
            },
        }
    }
}

/// The case with header `header` and nothing read yet.
pub open spec fn empty_case(header: HeaderSpec) -> CaseSpec {
    CaseSpec {
        header,
        buses: Seq::empty(),
        loads: Seq::empty(),
        fixed_shunts: Seq::empty(),
        generators: Seq::empty(),
        branches: Seq::empty(),
        transformers: Seq::empty(),
        switched_shunts: Seq::empty(),
        skipped: Seq::empty(),
    }
}

/// What reading the raw file `text` gives.
pub open spec fn parse_spec(text: Seq<char>) -> Result<CaseSpec, PsseErrorSpec> {
    match start_spec(text) {
        Err(e) => Err(e),
        Ok((header, s)) => parse_records(s, empty_case(header)),
    }
}


/// Takes in one record of section `section` read from `scanner`.
fn read_record(
    case: &mut RawCase,
    scanner: &mut Scanner,
    section: Section,
    rec: &Record,
) -> (r: Result<(), PsseError>)
    requires
        forall|k: int| 0 <= k < old(case).skipped@.len() ==> (#[trigger] old(case).skipped@[k]).1 < usize::MAX,
    ensures
        ({
            let (after, res) = record_step(old(scanner)@, old(case)@, section@, rec@);
            &&& final(scanner)@ == after
            &&& match r {
                Ok(_) => res == Ok::<CaseSpec, PsseErrorSpec>(final(case)@) && forall|k: int|
                    0 <= k < final(case).skipped@.len() ==> (#[trigger] final(case).skipped@[k]).1 <= 1
                        + max_count(old(case).skipped@),
                Err(e) => res == Err::<CaseSpec, PsseErrorSpec>(e@),
            }
        }),
{
    let ghost c0 = case@;
    proof {
        lemma_max_count(case.skipped@);
    }
    match section {
        Section::Bus => {
            let b = parse_bus(rec)?;
            case.buses.push(b);
            proof {
                assert(case@ =~= CaseSpec { buses: c0.buses.push(b@), ..c0 });
            }
        },
        Section::Load => {
            let l = parse_load(rec)?;
            case.loads.push(l);
            proof {
                assert(case@ =~= CaseSpec { loads: c0.loads.push(l@), ..c0 });
            }
        },
        Section::FixedShunt => {
            let f = parse_fixed_shunt(rec)?;
            case.fixed_shunts.push(f);
            proof {
                assert(case@ =~= CaseSpec { fixed_shunts: c0.fixed_shunts.push(f@), ..c0 });
            }
        },
        Section::Generator => {
            let g = parse_generator(rec, scanner.revision())?;
            case.generators.push(g);
            proof {
                assert(case@ =~= CaseSpec { generators: c0.generators.push(g@), ..c0 });
            }
        },
        Section::Branch => {
            let b = parse_branch(rec)?;
            case.branches.push(b);
            proof {
                assert(case@ =~= CaseSpec { branches: c0.branches.push(b@), ..c0 });
            }
        },
        Section::Transformer => {
            let t = parse_transformer(rec, scanner)?;
            case.transformers.push(t);
            proof {
                assert(case@ =~= CaseSpec { transformers: c0.transformers.push(t@), ..c0 });
            }
        },
        Section::SwitchedShunt => {
            let x = parse_switched_shunt(rec)?;
            case.switched_shunts.push(x);
            proof {
                assert(case@ =~= CaseSpec { switched_shunts: c0.switched_shunts.push(x@), ..c0 });
            }
        },
        other => {
            let ghost before = case.skipped@;
            count_skipped(&mut case.skipped, other.name());
            proof {
                assert(case@ =~= CaseSpec {
                    skipped: count_skip(c0.skipped, section_name(other@)),
                    ..c0
                });
                assert forall|k: int| 0 <= k < case.skipped@.len() implies (#[trigger] case.skipped@[k]).1
                    <= 1 + max_count(before) by {
                    lemma_max_count(before);
                    lemma_count_skip_bound(counts_view(before), section_name(other@), max_count(before), k);
                    assert(counts_view(case.skipped@)[k].1 == case.skipped@[k].1);
                }
            }
        },
    }
    Ok(())
}

/// The largest count in `v`, or zero.
pub open spec fn max_count(v: Seq<(String, usize)>) -> nat
    decreases v.len(),
{
    if v.len() == 0 {
        0
    } else {
        let rest = max_count(v.drop_last());
        if v.last().1 > rest {
            v.last().1 as nat
        } else {
            rest
        }
    }
}

proof fn lemma_max_count(v: Seq<(String, usize)>)
    ensures
        forall|k: int| 0 <= k < v.len() ==> (#[trigger] counts_view(v)[k]).1 <= max_count(v),
        forall|k: int| 0 <= k < v.len() ==> (#[trigger] v[k]).1 <= max_count(v),
    decreases v.len(),
{
    if v.len() > 0 {
        lemma_max_count(v.drop_last());
        assert forall|k: int| 0 <= k < v.len() implies (#[trigger] v[k]).1 <= max_count(v) by {
            if k < v.len() - 1 {
                assert(v.drop_last()[k] == v[k]);
            }
        }
    }
}

/// Read a raw file.
pub fn parse(text: &str) -> (r: Result<RawCase, PsseError>)
    requires
        text@.len() < usize::MAX,
    ensures
        match r {
            Ok(case) => parse_spec(text@) == Ok::<CaseSpec, PsseErrorSpec>(case@),
            Err(e) => parse_spec(text@) == Err::<CaseSpec, PsseErrorSpec>(e@),
        },
{
    let (header, mut scanner) = Scanner::new(text)?;
    let ghost h0 = header@;
    let ghost sc0 = scanner@;
    proof {
        assert(start_spec(text@) == Ok::<(HeaderSpec, ScannerSpec), PsseErrorSpec>((h0, sc0)));
        let lines = crate::psse::scan::text_lines(text@);
        let first = crate::psse::scan::first_data_line(lines, 0);
        crate::psse::scan::lemma_first_data_line_bounds(lines, 0);
        assert(first < lines.len());
        assert(sc0.idx == if first + 3 < lines.len() {
            (first + 3) as nat
        } else {
            lines.len()
        });
        assert(sc0.lines == lines);
        assert(sc0.idx <= lines.len());
    }
    let mut case = RawCase {
        header,
        buses: Vec::new(),
        loads: Vec::new(),
        fixed_shunts: Vec::new(),
        generators: Vec::new(),
        branches: Vec::new(),
        transformers: Vec::new(),
        switched_shunts: Vec::new(),
        skipped: Vec::new(),
    };
    proof {
        assert(case@ =~= empty_case(case.header@));
    }
    loop
        invariant
            parse_spec(text@) == parse_records(scanner@, case@),
            scanner@.idx <= scanner@.lines.len(),
            scanner@.lines.len() < usize::MAX,
            max_count(case.skipped@) <= scanner@.idx,
        decreases scanner@.lines.len() - scanner@.idx,
    {
        let ghost s0 = scanner@;
        proof {
            lemma_next_spec_advances(s0);
        }
        let next = scanner.next_record();
        let (section, rec) = match next {
            Err(e) => {
                return Err(e);
            },
            Ok(None) => {
                return Ok(case);
            },
            Ok(Some(found)) => found,
        };
        proof {
            lemma_record_step_advances(scanner@, case@, section@, rec@);
            lemma_max_count(case.skipped@);
        }
        let ghost s1 = scanner@;
        let ghost c1 = case@;
        read_record(&mut case, &mut scanner, section, &rec)?;
        proof {
            lemma_max_count(case.skipped@);
            lemma_max_count_le(case.skipped@, s1.idx as nat);
        }
    }
}

proof fn lemma_max_count_le(v: Seq<(String, usize)>, bound: nat)
    requires
        forall|k: int| 0 <= k < v.len() ==> (#[trigger] v[k]).1 <= bound,
    ensures
        max_count(v) <= bound,
    decreases v.len(),
{
    if v.len() > 0 {
        assert forall|k: int| 0 <= k < v.drop_last().len() implies (#[trigger] v.drop_last()[k]).1 <= bound by {
            assert(v.drop_last()[k] == v[k]);
        }
        lemma_max_count_le(v.drop_last(), bound);
    }
}

proof fn lemma_count_skip_bound(m: Seq<(Seq<char>, nat)>, name: Seq<char>, bound: nat, k: int)
    requires
        forall|i: int| 0 <= i < m.len() ==> (#[trigger] m[i]).1 <= bound,
        0 <= k < count_skip(m, name).len(),
    ensures
        count_skip(m, name)[k].1 <= bound + 1,
{
    lemma_insert_position_bounds(m, name, 0);
    match name_index_from(m, name, 0) {
        Some(i) => {
            lemma_name_index_bounds(m, name, 0);
        },
        None => {},
    }
}

proof fn lemma_name_index_bounds(m: Seq<(Seq<char>, nat)>, name: Seq<char>, i: int)
    requires
        0 <= i,
    ensures
        name_index_from(m, name, i) matches Some(j) ==> i <= j < m.len() && m[j].0 == name,
    decreases m.len() - i,
{
    if i < m.len() && m[i].0 != name {
        lemma_name_index_bounds(m, name, i + 1);
    }
}


/// Whether field `idx` of `r` is present and holds a number.
pub open spec fn numeric_at(r: RecordSpec, idx: int) -> bool {
    0 <= idx < r.fields.len() && crate::number::is_number(r.fields[idx].text)
}

/// Whether `v` is the integer field `idx` of `r` holds, or `default` when the field is
/// missing or holds no integer.
pub open spec fn reads_int(r: RecordSpec, idx: int, default: i32, v: i32) -> bool {
    let held = 0 <= idx < r.fields.len() && crate::number::lenient_int(r.fields[idx].text) is Some;
    &&& held ==> Some(v) == crate::number::lenient_int(r.fields[idx].text)
    &&& !held ==> v == default
}

/// Whether `v` is what field `idx` of `r` writes, or `default` when it is missing or not a
/// number.
pub open spec fn reads_number_or(r: RecordSpec, idx: int, default: Seq<char>, v: Seq<char>) -> bool {
    &&& numeric_at(r, idx) ==> v == r.fields[idx].text
    &&& !numeric_at(r, idx) ==> v == default
}

/// A load reads its columns in place: bus, identifier, status (in service unless it says
/// otherwise), then `PL` from field 5 and `QL` from field 6, each number falling back to zero
/// when its field is missing or not one.
pub proof fn lemma_load_columns(r: RecordSpec)
    ensures
        load_from(r) is Ok <==> r.fields.len() >= 2 && crate::number::lenient_int(r.fields[0].text)
            is Some,
        load_from(r) matches Ok(l) ==> {
            &&& Some(l.bus) == crate::number::lenient_int(r.fields[0].text)
            &&& l.id == trim(r.fields[1].text)
            &&& reads_int(r, 2, 1, l.status)
            &&& (numeric_at(r, 5) ==> l.pl == r.fields[5].text)
            &&& (!numeric_at(r, 5) ==> l.pl == "0.0"@)
            &&& (numeric_at(r, 6) ==> l.ql == r.fields[6].text)
            &&& (!numeric_at(r, 6) ==> l.ql == "0.0"@)
        },
{
    reveal(load_from);
}

/// A fixed shunt reads bus, identifier and status like a load, then `GL` from field 3 and
/// `BL` from field 4.
pub proof fn lemma_fixed_shunt_columns(r: RecordSpec)
    ensures
        fixed_shunt_from(r) is Ok <==> r.fields.len() >= 2 && crate::number::lenient_int(
            r.fields[0].text,
        ) is Some,
        fixed_shunt_from(r) matches Ok(f) ==> {
            &&& Some(f.bus) == crate::number::lenient_int(r.fields[0].text)
            &&& f.id == trim(r.fields[1].text)
            &&& reads_int(r, 2, 1, f.status)
            &&& reads_number(r, 3, f.gl)
            &&& reads_number(r, 4, f.bl)
        },
{
    reveal(fixed_shunt_from);
}

/// Whether `v` is what field `idx` of `r` writes, or zero when it is missing or not a number.
pub open spec fn reads_number(r: RecordSpec, idx: int, v: Seq<char>) -> bool {
    &&& numeric_at(r, idx) ==> v == r.fields[idx].text
    &&& !numeric_at(r, idx) ==> v == "0.0"@
}

/// A bus reads its number from field 0, its name from field 1, its nominal kV from field 2
/// (which must be a number), its type, area and zone from fields 3 to 5 (one when absent), and
/// its solved voltage from fields 7 and 8 (1.0 pu at zero degrees when absent).
pub proof fn lemma_bus_columns(r: RecordSpec)
    ensures
        bus_from(r) is Ok <==> r.fields.len() >= 3 && crate::number::lenient_int(r.fields[0].text)
            is Some && crate::number::is_number(r.fields[2].text),
        bus_from(r) matches Ok(b) ==> {
            &&& Some(b.number) == crate::number::lenient_int(r.fields[0].text)
            &&& b.name == trim(r.fields[1].text)
            &&& b.base_kv == r.fields[2].text
            &&& reads_int(r, 3, 1, b.ide)
            &&& reads_int(r, 4, 1, b.area)
            &&& reads_int(r, 5, 1, b.zone)
            &&& reads_number_or(r, 7, "1.0"@, b.vm)
            &&& reads_number(r, 8, b.va)
        },
{
    reveal(bus_from);
}

/// Whether a generator's `MBASE` and status stand one field later than revision 33 puts
/// them: from revision 35 unless field 15 holds no status of 0 or 1 while field 14 does, and
/// before it only when field 14 holds none and field 15 does.
pub open spec fn generator_columns_shifted(r: RecordSpec, rev: int) -> bool {
    if rev >= 35 {
        plausible_shift(r, 1) || !plausible_shift(r, 0)
    } else {
        !plausible_shift(r, 0) && plausible_shift(r, 1)
    }
}

/// A generator reads bus and identifier from fields 0 and 1, `PG` and `QG` from fields 2 and
/// 3, and `MBASE` and its status from fields 8 and 14, or from fields 9 and 15 where the
/// record's layout is shifted; `MBASE` is 100 and the status 1 when absent.
pub proof fn lemma_generator_columns(r: RecordSpec, rev: int)
    ensures
        generator_from(r, rev) is Ok <==> r.fields.len() >= 2 && crate::number::lenient_int(
            r.fields[0].text,
        ) is Some,
        generator_from(r, rev) matches Ok(g) ==> {
            &&& Some(g.bus) == crate::number::lenient_int(r.fields[0].text)
            &&& g.id == trim(r.fields[1].text)
            &&& reads_number(r, 2, g.pg)
            &&& reads_number(r, 3, g.qg)
            &&& (generator_columns_shifted(r, rev) ==> reads_number_or(r, 9, "100.0"@, g.mbase)
                && reads_int(r, 15, 1, g.status))
            &&& (!generator_columns_shifted(r, rev) ==> reads_number_or(r, 8, "100.0"@, g.mbase)
                && reads_int(r, 14, 1, g.status))
        },
{
    reveal(generator_from);
}

/// A branch reads its ends from fields 0 and 1, its circuit from field 2, `R`, `X` and `B`
/// from fields 3 to 5 (`X` must be a number); a quoted field 6 is its name, and then its
/// rating and status come from fields 7 and 23, otherwise from fields 6 and 13.
pub proof fn lemma_branch_columns(r: RecordSpec)
    ensures
        branch_from(r) is Ok <==> r.fields.len() >= 5 && crate::number::lenient_int(r.fields[0].text)
            is Some && crate::number::lenient_int(r.fields[1].text) is Some
            && crate::number::is_number(r.fields[4].text),
        branch_from(r) matches Ok(b) ==> {
            &&& Some(b.from) == crate::number::lenient_int(r.fields[0].text)
            &&& Some(b.to) == crate::number::lenient_int(r.fields[1].text)
            &&& b.ckt == trim(r.fields[2].text)
            &&& reads_number(r, 3, b.r)
            &&& b.x == r.fields[4].text
            &&& reads_number(r, 5, b.b)
            &&& (quoted_at(r, 6) ==> b.name == trim(r.fields[6].text) && reads_number(r, 7, b.rate_a)
                && reads_int(r, 23, 1, b.status))
            &&& (!quoted_at(r, 6) ==> b.name.len() == 0 && reads_number(r, 6, b.rate_a)
                && reads_int(r, 13, 1, b.status))
        },
{
    reveal(branch_from);
}

/// A winding line gives the tap (1.0 when absent), nominal kV, phase angle and first rating
/// in fields 0 to 3.
pub proof fn lemma_winding_columns(r: RecordSpec)
    ensures
        reads_number_or(r, 0, "1.0"@, winding_from(r).windv),
        reads_number(r, 1, winding_from(r).nomv),
        reads_number(r, 2, winding_from(r).ang),
        reads_number(r, 3, winding_from(r).rate_a),
{
}

/// A transformer's first line gives its buses in fields 0 to 2 (`K` is zero when absent, and
/// then the transformer has two windings, otherwise three), its circuit in field 3, its name
/// in field 10 and its status in field 11.
pub proof fn lemma_transformer_columns(first: RecordSpec, s: ScannerSpec)
    ensures
        transformer_from(first, s).1 matches Ok(t) ==> {
            &&& first.fields.len() >= 4
            &&& Some(t.i) == crate::number::lenient_int(first.fields[0].text)
            &&& Some(t.j) == crate::number::lenient_int(first.fields[1].text)
            &&& reads_int(first, 2, 0, t.k)
            &&& t.ckt == trim(first.fields[3].text)
            &&& t.name == trim(if first.fields.len() > 10 { first.fields[10].text } else { Seq::empty() })
            &&& reads_int(first, 11, 1, t.status)
            &&& t.windings.len() == if t.k != 0 { 3int } else { 2int }
        },
{
    reveal(transformer_from);
}

/// A switched shunt reads its bus from field 0; a quoted field 1 is its identifier and puts
/// its status in field 4, otherwise it has none and the status is in field 3; with no quoted
/// field after the status, `BINIT` is field 9.
pub proof fn lemma_switched_shunt_columns(r: RecordSpec)
    ensures
        switched_shunt_from(r) is Ok <==> r.fields.len() >= 1 && crate::number::lenient_int(
            r.fields[0].text,
        ) is Some,
        switched_shunt_from(r) matches Ok(x) ==> {
            let status_idx = if quoted_at(r, 1) { 4int } else { 3int };
            &&& Some(x.bus) == crate::number::lenient_int(r.fields[0].text)
            &&& (quoted_at(r, 1) ==> x.id == trim(r.fields[1].text))
            &&& (!quoted_at(r, 1) ==> x.id.len() == 0)
            &&& reads_int(r, status_idx, 1, x.status)
            &&& ((forall|m: int| status_idx < m < r.fields.len() ==> !(#[trigger] r.fields[m]).quoted)
                ==> reads_number(r, 9, x.binit))
        },
{
    reveal(switched_shunt_from);
}

/// A switched shunt reads `BINIT` from the field just after its last quoted field, when that
/// quoted field follows the status.
pub proof fn lemma_switched_shunt_binit(r: RecordSpec, q: int)
    requires
        0 <= q < r.fields.len(),
        r.fields[q].quoted,
        forall|m: int| q < m < r.fields.len() ==> !(#[trigger] r.fields[m]).quoted,
        q > (if quoted_at(r, 1) { 4int } else { 3int }),
    ensures
        switched_shunt_from(r) matches Ok(s) ==> reads_number(r, q + 1, s.binit),
{
    reveal(switched_shunt_from);
    let status_idx = if quoted_at(r, 1) { 4int } else { 3int };
    let last = choose|p: int|
        0 <= p < r.fields.len() && r.fields[p].quoted && forall|m: int|
            p < m < r.fields.len() ==> !(#[trigger] r.fields[m]).quoted;
    assert(exists|p: int| status_idx < p < r.fields.len() && r.fields[p].quoted);
    if last != q {
        if last < q {
            assert(!r.fields[q].quoted);
        } else {
            assert(!r.fields[last].quoted);
        }
    }
    assert(binit_index(r, status_idx) == q + 1);
}


/// How many records are counted under `name` in `m`: the count of its entry, or none.
pub open spec fn skip_count(m: Seq<(Seq<char>, nat)>, name: Seq<char>) -> nat {
    match name_index_from(m, name, 0) {
        Some(i) => m[i].1,
        None => 0,
    }
}

/// Whether the names of `m` are in ascending order, each listed once.
pub open spec fn names_ascending(m: Seq<(Seq<char>, nat)>) -> bool {
    forall|i: int, j: int| 0 <= i < j < m.len() ==> chars_lt(#[trigger] m[i].0, #[trigger] m[j].0)
}

proof fn lemma_name_index_from(m: Seq<(Seq<char>, nat)>, name: Seq<char>, i: int)
    requires
        0 <= i,
    ensures
        match name_index_from(m, name, i) {
            Some(k) => i <= k < m.len() && m[k].0 == name && forall|j: int| i <= j < k ==> m[j].0 != name,
            None => forall|j: int| i <= j < m.len() ==> m[j].0 != name,
        },
    decreases m.len() - i,
{
    if i < m.len() && m[i].0 != name {
        lemma_name_index_from(m, name, i + 1);
    }
}

/// The entry `k` is the first one named `name`, so it is the one found.
proof fn lemma_first_named(m: Seq<(Seq<char>, nat)>, name: Seq<char>, k: int)
    requires
        0 <= k < m.len(),
        m[k].0 == name,
        forall|j: int| 0 <= j < k ==> m[j].0 != name,
    ensures
        name_index_from(m, name, 0) == Some(k),
{
    lemma_name_index_from(m, name, 0);
    match name_index_from(m, name, 0) {
        Some(f) => {
            if f < k {
                assert(m[f].0 != name);
            } else if f > k {
                assert(m[k].0 != name);
            }
        },
        None => {
            assert(m[k].0 != name);
        },
    }
}

proof fn lemma_none_named(m: Seq<(Seq<char>, nat)>, name: Seq<char>)
    requires
        forall|j: int| 0 <= j < m.len() ==> m[j].0 != name,
    ensures
        name_index_from(m, name, 0) is None,
{
    lemma_name_index_from(m, name, 0);
    if let Some(f) = name_index_from(m, name, 0) {
        assert(m[f].0 != name);
    }
}

proof fn lemma_insert_position(m: Seq<(Seq<char>, nat)>, name: Seq<char>, i: int)
    requires
        0 <= i <= m.len(),
    ensures
        i <= insert_position_from(m, name, i) <= m.len(),
        forall|j: int| i <= j < insert_position_from(m, name, i) ==> !chars_lt(name, #[trigger] m[j].0),
        insert_position_from(m, name, i) < m.len() ==> chars_lt(name, m[insert_position_from(m, name, i)].0),
    decreases m.len() - i,
{
    if i < m.len() && !chars_lt(name, m[i].0) {
        lemma_insert_position(m, name, i + 1);
    }
}

/// Counting one more skipped record under `name` raises the count under `name` by one and
/// leaves the count under every other name alone; names in ascending order, each listed
/// once, stay so, a new name taking its place in that order.
pub proof fn lemma_count_skip_counts(m: Seq<(Seq<char>, nat)>, name: Seq<char>, x: Seq<char>)
    ensures
        skip_count(count_skip(m, name), x) == skip_count(m, x) + if x == name {
            1nat
        } else {
            0nat
        },
        names_ascending(m) ==> names_ascending(count_skip(m, name)),
{
    let m2 = count_skip(m, name);
    lemma_name_index_from(m, name, 0);
    lemma_name_index_from(m, x, 0);
    match name_index_from(m, name, 0) {
        Some(i0) => {
            assert(m2 == m.update(i0, (name, m[i0].1 + 1)));
            assert forall|j: int| 0 <= j < m.len() implies (#[trigger] m2[j]).0 == m[j].0 by {}
            if x == name {
                lemma_first_named(m2, x, i0);
            } else {
                match name_index_from(m, x, 0) {
                    Some(k) => {
                        lemma_first_named(m2, x, k);
                        assert(k != i0);
                    },
                    None => {
                        lemma_none_named(m2, x);
                    },
                }
            }
        },
        None => {
            let p = insert_position_from(m, name, 0);
            lemma_insert_position(m, name, 0);
            assert(m2 == m.insert(p, (name, 1nat)));
            assert(m2.len() == m.len() + 1);
            assert forall|j: int| 0 <= j < p implies #[trigger] m2[j] == m[j] by {}
            assert forall|j: int| p < j < m2.len() implies #[trigger] m2[j] == m[j - 1] by {}
            assert(m2[p] == (name, 1nat));
            if x == name {
                lemma_first_named(m2, x, p);
            } else {
                match name_index_from(m, x, 0) {
                    Some(k) => {
                        if k < p {
                            lemma_first_named(m2, x, k);
                        } else {
                            assert forall|j: int| 0 <= j < k + 1 implies m2[j].0 != x by {
                                if j < p {
                                    assert(m2[j] == m[j]);
                                } else if j > p {
                                    assert(m2[j] == m[j - 1]);
                                }
                            }
                            assert(m2[k + 1] == m[k]);
                            lemma_first_named(m2, x, k + 1);
                        }
                    },
                    None => {
                        assert forall|j: int| 0 <= j < m2.len() implies m2[j].0 != x by {
                            if j < p {
                                assert(m2[j] == m[j]);
                            } else if j > p {
                                assert(m2[j] == m[j - 1]);
                            }
                        }
                        lemma_none_named(m2, x);
                    },
                }
            }
            if names_ascending(m) {
                assert forall|i: int, j: int| 0 <= i < j < m2.len() implies chars_lt(
                    #[trigger] m2[i].0,
                    #[trigger] m2[j].0,
                ) by {
                    if i < p && j < p {
                        assert(m2[i] == m[i] && m2[j] == m[j]);
                    } else if i > p {
                        assert(m2[i] == m[i - 1] && m2[j] == m[j - 1]);
                    } else if i < p && j > p {
                        assert(m2[i] == m[i] && m2[j] == m[j - 1]);
                    } else if i == p {
                        assert(m2[j] == m[j - 1]);
                        assert(chars_lt(name, m[p].0));
                        if j - 1 > p {
                            assert(chars_lt(m[p].0, m[j - 1].0));
                            crate::text::lemma_chars_lt_order(name, m[p].0, m[j - 1].0);
                        }
                    } else {
                        assert(m2[i] == m[i]);
                        assert(!chars_lt(name, m[i].0));
                        assert(m[i].0 != name);
                        crate::text::lemma_chars_lt_order(m[i].0, name, name);
                    }
                }
            }
        },
    }
}

} // verus!
