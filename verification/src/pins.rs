//! Pins of placed symbols: where they are, which way they lead, and what is
//! reported of them.

use vstd::prelude::*;
use vstd::string::StringExecFns;
use crate::args::ToolError;
use crate::num::Num;
use crate::text::{join3, join5, same};

verus! {

/// A pin of a placed symbol, in sheet coordinates.
pub struct PinPlace {
    pub number: String,
    pub name: String,
    pub x: Num,
    pub y: Num,
    /// The direction that leads away from the body of the symbol, in degrees.
    pub outward: Num,
    pub length: Num,
}

/// What a schematic embeds of a symbol: the pins of the placed unit, and the
/// definition it extends, where it does.
pub struct SymbolPins {
    pub pins: Vec<PinPlace>,
    pub extends: Option<String>,
}

/// A placed symbol: its designator, the name its definition goes by, and the
/// definition, where there is one.
pub struct PlacedSymbol {
    pub reference: String,
    pub lib_symbol_name: String,
    pub x: Num,
    pub y: Num,
    pub rotation: Num,
    pub definition: Option<SymbolPins>,
}

// ── All pins ─────────────────────────────────────────────────────────────────

/// The first `n` placed symbols that have definitions, by index.
pub open spec fn defined_below(all: Seq<PlacedSymbol>, n: int) -> Seq<int>
    decreases n,
{
    if n <= 0 {
        Seq::empty()
    } else if all[n - 1].definition is Some {
        defined_below(all, n - 1).push(n - 1)
    } else {
        defined_below(all, n - 1)
    }
}

/// The placed symbols that have pins to report, by index and in order. One
/// without a definition has none.
pub fn placed_pins_by_reference(all: &Vec<PlacedSymbol>) -> (r: Vec<usize>)
    ensures
        r@.map_values(|i: usize| i as int) == defined_below(all@, all@.len() as int),
{
    let mut out: Vec<usize> = Vec::new();
    let mut i: usize = 0;
    assert(out@.map_values(|i: usize| i as int) =~= defined_below(all@, 0));
    while i < all.len()
        invariant
            i <= all@.len(),
            out@.map_values(|i: usize| i as int) == defined_below(all@, i as int),
        decreases all@.len() - i,
    {
        let ghost before = out@;
        if all[i].definition.is_some() {
            out.push(i);
            assert(out@.map_values(|i: usize| i as int) =~= before.map_values(
                |i: usize| i as int,
            ).push(i as int));
        }
        i += 1;
    }
    out
}

/// The pins of the first `n` placed symbols, in order.
pub open spec fn pins_below(all: Seq<PlacedSymbol>, n: int) -> Seq<PinPlace>
    decreases n,
{
    if n <= 0 {
        Seq::empty()
    } else {
        pins_below(all, n - 1) + match all[n - 1].definition {
            Some(def) => def.pins@,
            None => Seq::empty(),
        }
    }
}

/// Every pin placed on a sheet, in order.
pub fn placed_pins(all: &Vec<PlacedSymbol>) -> (r: Vec<&PinPlace>)
    ensures
        r@.map_values(|p: &PinPlace| *p) == pins_below(all@, all@.len() as int),
{
    let mut out: Vec<&PinPlace> = Vec::new();
    let mut i: usize = 0;
    assert(out@.map_values(|p: &PinPlace| *p) =~= pins_below(all@, 0));
    while i < all.len()
        invariant
            i <= all@.len(),
            out@.map_values(|p: &PinPlace| *p) == pins_below(all@, i as int),
        decreases all@.len() - i,
    {
        let ghost before = out@.map_values(|p: &PinPlace| *p);
        if let Some(def) = &all[i].definition {
            let mut k: usize = 0;
            assert(before + def.pins@.take(0) =~= before);
            while k < def.pins.len()
                invariant
                    k <= def.pins@.len(),
                    out@.map_values(|p: &PinPlace| *p) == before + def.pins@.take(k as int),
                decreases def.pins@.len() - k,
            {
                let ghost so_far = out@.map_values(|p: &PinPlace| *p);
                out.push(&def.pins[k]);
                proof {
                    assert(out@.map_values(|p: &PinPlace| *p) =~= so_far.push(def.pins@[k as int]));
                    assert(def.pins@.take(k + 1) =~= def.pins@.take(k as int).push(
                        def.pins@[k as int],
                    ));
                    assert(before + def.pins@.take(k + 1) =~= (before + def.pins@.take(
                        k as int,
                    )).push(def.pins@[k as int]));
                }
                k += 1;
            }
            assert(def.pins@.take(k as int) =~= def.pins@);
        } else {
            assert(before + Seq::<PinPlace>::empty() =~= before);
        }
        i += 1;
    }
    out
}

/// Where every pin placed on a sheet connects, in order.
pub fn all_pin_endpoints(all: &Vec<PlacedSymbol>) -> (r: Vec<(Num, Num)>)
    ensures
        r@ == pins_below(all@, all@.len() as int).map_values(|p: PinPlace| (p.x, p.y)),
{
    let pins = placed_pins(all);
    let ghost wanted = pins_below(all@, all@.len() as int);
    let mut out: Vec<(Num, Num)> = Vec::new();
    let mut i: usize = 0;
    while i < pins.len()
        invariant
            i <= pins@.len(),
            pins@.map_values(|p: &PinPlace| *p) == wanted,
            out@.len() == i,
            forall|k: int| 0 <= k < i ==> #[trigger] out@[k] == (wanted[k].x, wanted[k].y),
        decreases pins@.len() - i,
    {
        assert(wanted[i as int] == *pins@[i as int]);
        out.push((pins[i].x, pins[i].y));
        i += 1;
    }
    assert(out@ =~= wanted.map_values(|p: PinPlace| (p.x, p.y)));
    out
}

/// Where the pins of a component connect, those of the units among the first
/// `n` placed symbols, in order.
pub open spec fn ends_below(all: Seq<PlacedSymbol>, reference: Seq<char>, n: int) -> Seq<(Num, Num)>
    decreases n,
{
    if n <= 0 {
        Seq::empty()
    } else if all[n - 1].reference@ == reference {
        ends_below(all, reference, n - 1) + match all[n - 1].definition {
            Some(def) => def.pins@.map_values(|p: PinPlace| (p.x, p.y)),
            None => Seq::empty(),
        }
    } else {
        ends_below(all, reference, n - 1)
    }
}

/// Where the pins of a component connect, unit by unit and in order. A unit
/// without a definition has none.
pub fn component_pin_endpoints(all: &Vec<PlacedSymbol>, reference: &str) -> (r: Vec<(Num, Num)>)
    ensures
        r@ == ends_below(all@, reference@, all@.len() as int),
{
    let mut out: Vec<(Num, Num)> = Vec::new();
    let mut i: usize = 0;
    while i < all.len()
        invariant
            i <= all@.len(),
            out@ == ends_below(all@, reference@, i as int),
        decreases all@.len() - i,
    {
        let ghost before = out@;
        if same(all[i].reference.as_str(), reference) {
            if let Some(def) = &all[i].definition {
                let ghost ends = def.pins@.map_values(|p: PinPlace| (p.x, p.y));
                let mut k: usize = 0;
                assert(before + ends.take(0) =~= before);
                while k < def.pins.len()
                    invariant
                        k <= def.pins@.len(),
                        ends == def.pins@.map_values(|p: PinPlace| (p.x, p.y)),
                        out@ == before + ends.take(k as int),
                    decreases def.pins@.len() - k,
                {
                    out.push((def.pins[k].x, def.pins[k].y));
                    assert(out@ =~= before + ends.take(k + 1));
                    k += 1;
                }
                assert(ends.take(k as int) =~= ends);
            } else {
                assert(before + Seq::<(Num, Num)>::empty() =~= before);
            }
        }
        i += 1;
    }
    out
}

// ── Directions ───────────────────────────────────────────────────────────────

/// A pin as seen from a point: whether it sits there, and which way it leads.
#[derive(Clone, Copy)]
pub struct PinSight {
    pub here: bool,
    pub outward: Num,
}

/// The direction on which the first `n` pins agree: none yet, one, or a
/// disagreement, which nothing mends.
pub enum Agreement {
    Nothing,
    One(Num),
    Disagree,
}

/// The direction on which the first `n` pins agree.
pub open spec fn agreement(pins: Seq<PinSight>, n: int) -> Agreement
    decreases n,
{
    if n <= 0 {
        Agreement::Nothing
    } else {
        let before = agreement(pins, n - 1);
        if !pins[n - 1].here {
            before
        } else {
            match before {
                Agreement::Nothing => Agreement::One(pins[n - 1].outward),
                Agreement::One(d) => if d.equals(pins[n - 1].outward) {
                    Agreement::One(pins[n - 1].outward)
                } else {
                    Agreement::Disagree
                },
                Agreement::Disagree => Agreement::Disagree,
            }
        }
    }
}

proof fn lemma_disagree(pins: Seq<PinSight>, k: int, n: int)
    requires
        0 <= k <= n,
        agreement(pins, k) is Disagree,
    ensures
        agreement(pins, n) is Disagree,
    decreases n - k,
{
    if k < n {
        lemma_disagree(pins, k, n - 1);
    }
}

/// The direction that leads away from the symbol body at a point: none where
/// no pin sits, nor where stacked pins disagree.
pub fn pin_outward_at(pins: &Vec<PinSight>) -> (r: Option<Num>)
    ensures
        match agreement(pins@, pins@.len() as int) {
            Agreement::One(d) => r == Some(d),
            _ => r is None,
        },
{
    let mut found: Option<Num> = None;
    let mut i: usize = 0;
    while i < pins.len()
        invariant
            i <= pins@.len(),
            match agreement(pins@, i as int) {
                Agreement::One(d) => found == Some(d),
                Agreement::Nothing => found is None,
                Agreement::Disagree => false,
            },
        decreases pins@.len() - i,
    {
        let pin = pins[i];
        if pin.here {
            if let Some(d) = found {
                if !d.same(pin.outward) {
                    proof {
                        lemma_disagree(pins@, i + 1, pins@.len() as int);
                    }
                    return None;
                }
            }
            found = Some(pin.outward);
        }
        i += 1;
    }
    found
}

/// Which way a stub leaves its anchor.
pub struct StubDirection {
    pub name: &'static str,
    /// The unit offset on the sheet, where y grows downward.
    pub dx: i32,
    pub dy: i32,
    /// The angle of that offset, in degrees.
    pub angle: u32,
}

/// The four directions.
#[derive(Debug, Clone, Copy, PartialEq, Eq, Structural)]
pub enum Quarter {
    Right,
    Up,
    Left,
    Down,
}

/// The pattern of ninety degrees.
pub const DEGREES_90: u64 = 0x4056_8000_0000_0000;

/// The pattern of one hundred and eighty degrees.
pub const DEGREES_180: u64 = 0x4066_8000_0000_0000;

/// The pattern of two hundred and seventy degrees.
pub const DEGREES_270: u64 = 0x4070_e000_0000_0000;

/// The direction of an angle that is one of the four.
pub open spec fn quarter_of(angle: Num) -> Option<Quarter> {
    if angle.equals(Num { bits: 0 }) {
        Some(Quarter::Right)
    } else if angle.equals(Num { bits: DEGREES_90 }) {
        Some(Quarter::Up)
    } else if angle.equals(Num { bits: DEGREES_180 }) {
        Some(Quarter::Left)
    } else if angle.equals(Num { bits: DEGREES_270 }) {
        Some(Quarter::Down)
    } else {
        None
    }
}

/// The direction of that name.
pub open spec fn quarter_named(name: Seq<char>) -> Option<Quarter> {
    if name == "right"@ {
        Some(Quarter::Right)
    } else if name == "up"@ {
        Some(Quarter::Up)
    } else if name == "left"@ {
        Some(Quarter::Left)
    } else if name == "down"@ {
        Some(Quarter::Down)
    } else {
        None
    }
}

/// The direction asked for. `auto` follows the way the pin leads; where that
/// is not known, and for a name that is none of the four, it is right.
pub open spec fn chosen_quarter(direction: Seq<char>, outward: Option<Num>) -> Quarter {
    let asked = if direction == "auto"@ {
        match outward {
            Some(d) => quarter_of(d),
            None => None,
        }
    } else {
        quarter_named(direction)
    };
    match asked {
        Some(q) => q,
        None => Quarter::Right,
    }
}

/// A stub in one of the four directions.
pub open spec fn stub_is(d: StubDirection, q: Quarter) -> bool {
    match q {
        Quarter::Right => d.name@ == "right"@ && d.dx == 1 && d.dy == 0 && d.angle == 0,
        Quarter::Up => d.name@ == "up"@ && d.dx == 0 && d.dy == -1 && d.angle == 90,
        Quarter::Left => d.name@ == "left"@ && d.dx == -1 && d.dy == 0 && d.angle == 180,
        Quarter::Down => d.name@ == "down"@ && d.dx == 0 && d.dy == 1 && d.angle == 270,
    }
}

/// Which way a stub leaves, where the way its pin leads is known or not.
pub fn stub_direction(direction: &str, outward: Option<Num>) -> (r: StubDirection)
    ensures
        stub_is(r, chosen_quarter(direction@, outward)),
{
    let asked = if same(direction, "auto") {
        match outward {
            Some(d) => if d.same(Num { bits: 0 }) {
                Some(Quarter::Right)
            } else if d.same(Num { bits: DEGREES_90 }) {
                Some(Quarter::Up)
            } else if d.same(Num { bits: DEGREES_180 }) {
                Some(Quarter::Left)
            } else if d.same(Num { bits: DEGREES_270 }) {
                Some(Quarter::Down)
            } else {
                None
            },
            None => None,
        }
    } else if same(direction, "right") {
        Some(Quarter::Right)
    } else if same(direction, "up") {
        Some(Quarter::Up)
    } else if same(direction, "left") {
        Some(Quarter::Left)
    } else if same(direction, "down") {
        Some(Quarter::Down)
    } else {
        None
    };
    match asked {
        Some(Quarter::Up) => StubDirection { name: "up", dx: 0, dy: -1, angle: 90 },
        Some(Quarter::Left) => StubDirection { name: "left", dx: -1, dy: 0, angle: 180 },
        Some(Quarter::Down) => StubDirection { name: "down", dx: 0, dy: 1, angle: 270 },
        _ => StubDirection { name: "right", dx: 1, dy: 0, angle: 0 },
    }
}

/// Which way a stub leaves, for a caller that has only the pins as seen from a point.
pub fn resolve_stub_direction(direction: &str, pins: &Vec<PinSight>) -> (r: StubDirection)
    ensures
        stub_is(
            r,
            chosen_quarter(
                direction@,
                match agreement(pins@, pins@.len() as int) {
                    Agreement::One(d) => Some(d),
                    _ => None,
                },
            ),
        ),
{
    stub_direction(direction, pin_outward_at(pins))
}

// ── Junctions ────────────────────────────────────────────────────────────────

/// A pin end that may need a junction: whether it lies inside a wire, off the
/// wire's ends, and whether a junction is there already.
#[derive(Clone, Copy)]
pub struct PinEnd {
    pub mid_wire: bool,
    pub on_junction: bool,
}

/// Pin end `i` is at the place of one of those chosen.
pub open spec fn near_chosen(near: Seq<Vec<bool>>, chosen: Seq<int>, i: int) -> bool {
    exists|k: int| 0 <= k < chosen.len() && near[i]@[#[trigger] chosen[k]]
}

/// Which of the first `n` pin ends get a junction: those inside a wire, one
/// for each place, where there is none yet.
pub open spec fn junctions_below(ends: Seq<PinEnd>, near: Seq<Vec<bool>>, n: int) -> Seq<int>
    decreases n,
{
    if n <= 0 {
        Seq::empty()
    } else {
        let before = junctions_below(ends, near, n - 1);
        if ends[n - 1].mid_wire && !ends[n - 1].on_junction && !near_chosen(near, before, n - 1) {
            before.push(n - 1)
        } else {
            before
        }
    }
}

/// Which pin ends of a component get a junction. KiCad connects a pin inside
/// a wire only through one. `near[i][k]` says that ends `i` and `k` share a place.
pub fn midwire_junctions(ends: &Vec<PinEnd>, near: &Vec<Vec<bool>>) -> (r: Vec<usize>)
    requires
        near@.len() == ends@.len(),
        forall|i: int| 0 <= i < near@.len() ==> (#[trigger] near@[i])@.len() == ends@.len(),
    ensures
        r@.map_values(|i: usize| i as int) == junctions_below(ends@, near@, ends@.len() as int),
{
    let mut out: Vec<usize> = Vec::new();
    let mut i: usize = 0;
    assert(out@.map_values(|i: usize| i as int) =~= junctions_below(ends@, near@, 0));
    while i < ends.len()
        invariant
            i <= ends@.len(),
            near@.len() == ends@.len(),
            forall|i: int| 0 <= i < near@.len() ==> (#[trigger] near@[i])@.len() == ends@.len(),
            forall|k: int| 0 <= k < out@.len() ==> #[trigger] out@[k] < ends@.len(),
            out@.map_values(|i: usize| i as int) == junctions_below(ends@, near@, i as int),
        decreases ends@.len() - i,
    {
        let ghost before = out@.map_values(|i: usize| i as int);
        assert(near@[i as int]@.len() == ends@.len());
        let mut taken = false;
        let mut k: usize = 0;
        while k < out.len()
            invariant
                k <= out@.len(),
                i < ends@.len(),
                near@.len() == ends@.len(),
                near@[i as int]@.len() == ends@.len(),
                forall|k: int| 0 <= k < out@.len() ==> #[trigger] out@[k] < ends@.len(),
                taken == exists|j: int| 0 <= j < k && near@[i as int]@[(#[trigger] out@[j]) as int],
            decreases out@.len() - k,
        {
            if near[i][out[k]] {
                taken = true;
            }
            k += 1;
        }
        proof {
            if taken {
                let j = choose|j: int|
                    0 <= j < k && near@[i as int]@[(#[trigger] out@[j]) as int];
                assert(near@[i as int]@[before[j]]);
            } else if near_chosen(near@, before, i as int) {
                let j = choose|j: int| 0 <= j < before.len() && near@[i as int]@[#[trigger] before[j]];
                assert(near@[i as int]@[out@[j] as int]);
            }
        }
        if ends[i].mid_wire && !ends[i].on_junction && !taken {
            out.push(i);
            assert(out@.map_values(|i: usize| i as int) =~= before.push(i as int));
        }
        i += 1;
    }
    out
}

/// Junctions go where pins lie inside wires and nowhere else, one to a place;
/// and no such pin goes without.
pub proof fn law_junctions(ends: Seq<PinEnd>, near: Seq<Vec<bool>>, n: int)
    requires
        0 <= n <= ends.len(),
    ensures
        forall|k: int|
            0 <= k < junctions_below(ends, near, n).len() ==> {
                let i = #[trigger] junctions_below(ends, near, n)[k];
                0 <= i < n && ends[i].mid_wire && !ends[i].on_junction
            },
        forall|j: int, k: int|
            0 <= j < k < junctions_below(ends, near, n).len() ==> !near[#[trigger] junctions_below(
                ends,
                near,
                n,
            )[k]]@[#[trigger] junctions_below(ends, near, n)[j]],
        forall|i: int|
            0 <= i < n && (#[trigger] ends[i]).mid_wire ==> ends[i].on_junction
                || junctions_below(ends, near, n).contains(i) || near_chosen(
                near,
                junctions_below(ends, near, n),
                i,
            ),
    decreases n,
{
    if n > 0 {
        law_junctions(ends, near, n - 1);
        let before = junctions_below(ends, near, n - 1);
        let now = junctions_below(ends, near, n);
        let last = n - 1;
        if ends[last].mid_wire && !ends[last].on_junction && !near_chosen(near, before, last) {
            assert(now == before.push(last));
            assert forall|j: int, k: int| 0 <= j < k < now.len() implies !near[
            #[trigger] now[k]]@[#[trigger] now[j]] by {
                assert(now[j] == before[j]);
                if k < before.len() {
                    assert(now[k] == before[k]);
                } else {
                    assert(!near[last]@[before[j]]);
                }
            }
        }
        assert forall|i: int| 0 <= i < n && (#[trigger] ends[i]).mid_wire implies ends[i].on_junction
            || now.contains(i) || near_chosen(near, now, i) by {
            if before.contains(i) {
                let k = choose|k: int| 0 <= k < before.len() && before[k] == i;
                assert(now[k] == i);
            } else if near_chosen(near, before, i) {
                let k = choose|k: int| 0 <= k < before.len() && near[i]@[#[trigger] before[k]];
                assert(now[k] == before[k]);
            } else if i == last && now.len() > before.len() {
                assert(now[before.len() as int] == i);
            }
        }
    }
}

/// The pin ends once the chosen junctions are there: an end is on a junction
/// where it was on one, or shares the place of one that was chosen.
pub open spec fn joined(ends: Seq<PinEnd>, near: Seq<Vec<bool>>, chosen: Seq<int>) -> Seq<PinEnd> {
    Seq::new(
        ends.len(),
        |i: int|
            PinEnd {
                mid_wire: ends[i].mid_wire,
                on_junction: ends[i].on_junction || chosen.contains(i) || near_chosen(
                    near,
                    chosen,
                    i,
                ),
            },
    )
}

/// Once the junctions are added a second call chooses none.
pub proof fn law_second_call_adds_none(ends: Seq<PinEnd>, near: Seq<Vec<bool>>)
    ensures
        ({
            let n = ends.len() as int;
            let after = joined(ends, near, junctions_below(ends, near, n));
            junctions_below(after, near, n) == Seq::<int>::empty()
        }),
{
    let n = ends.len() as int;
    let chosen = junctions_below(ends, near, n);
    let after = joined(ends, near, chosen);
    law_junctions(ends, near, n);
    assert forall|i: int| 0 <= i < n implies !((#[trigger] after[i]).mid_wire
        && !after[i].on_junction) by {
        assert(ends[i].mid_wire ==> ends[i].on_junction || chosen.contains(i) || near_chosen(
            near,
            chosen,
            i,
        ));
    }
    lemma_none_chosen(after, near, n);
}

proof fn lemma_none_chosen(ends: Seq<PinEnd>, near: Seq<Vec<bool>>, n: int)
    requires
        n <= ends.len(),
        forall|i: int| 0 <= i < n ==> !((#[trigger] ends[i]).mid_wire && !ends[i].on_junction),
    ensures
        junctions_below(ends, near, n) == Seq::<int>::empty(),
    decreases n,
{
    if n > 0 {
        lemma_none_chosen(ends, near, n - 1);
        assert(!(ends[n - 1].mid_wire && !ends[n - 1].on_junction));
    }
}

// ── Reports ──────────────────────────────────────────────────────────────────

/// The first placed symbol, from index `i` on, that bears a designator.
pub open spec fn symbol_from(all: Seq<PlacedSymbol>, reference: Seq<char>, i: int) -> Option<int>
    decreases all.len() - i,
{
    if i >= all.len() {
        None
    } else if all[i].reference@ == reference {
        Some(i)
    } else {
        symbol_from(all, reference, i + 1)
    }
}

/// What stands in the way of reporting the pins of a component.
pub enum NoPins<'a> {
    NotFound,
    /// The schematic embeds no definition of that name.
    NotEmbedded(&'a str),
    /// The definition of that name has no pins of its own, only a parent.
    Stub(&'a str, &'a str),
}

/// Why the pins of a component cannot be reported, if they cannot: a missing
/// definition, and one that only extends another, are not empty lists of pins.
pub open spec fn no_pins(sym: PlacedSymbol) -> Option<(Seq<char>, Option<Seq<char>>)> {
    match sym.definition {
        Some(def) => match def.extends {
            Some(parent) => if def.pins@.len() == 0 {
                Some((sym.lib_symbol_name@, Some(parent@)))
            } else {
                None
            },
            None => None,
        },
        None => Some((sym.lib_symbol_name@, None)),
    }
}

/// The answer to a request for pins: the symbol whose pins they are, by index,
/// or what stands in the way.
pub open spec fn answers(
    r: Result<usize, NoPins>,
    all: Seq<PlacedSymbol>,
    found: Option<int>,
) -> bool {
    match found {
        Some(i) => match no_pins(all[i]) {
            Some((name, Some(parent))) => r matches Err(NoPins::Stub(n, p)) && n@ == name && p@
                == parent,
            Some((name, None)) => r matches Err(NoPins::NotEmbedded(n)) && n@ == name,
            None => r matches Ok(k) && k == i && k < all.len(),
        },
        None => r matches Err(NoPins::NotFound),
    }
}

fn pins_at<'a>(all: &'a Vec<PlacedSymbol>, i: usize) -> (r: Result<usize, NoPins<'a>>)
    requires
        i < all@.len(),
    ensures
        answers(r, all@, Some(i as int)),
{
    let sym = &all[i];
    match &sym.definition {
        Some(def) => {
            if def.pins.len() == 0 {
                if let Some(parent) = &def.extends {
                    return Err(NoPins::Stub(sym.lib_symbol_name.as_str(), parent.as_str()));
                }
            }
            Ok(i)
        },
        None => Err(NoPins::NotEmbedded(sym.lib_symbol_name.as_str())),
    }
}

/// The component of which pins are reported, by index, or what stands in the way.
pub fn pins_of<'a>(all: &'a Vec<PlacedSymbol>, reference: &str) -> (r: Result<usize, NoPins<'a>>)
    ensures
        answers(r, all@, symbol_from(all@, reference@, 0)),
{
    let mut i: usize = 0;
    while i < all.len()
        invariant
            i <= all@.len(),
            symbol_from(all@, reference@, 0) == symbol_from(all@, reference@, i as int),
        decreases all@.len() - i,
    {
        if same(all[i].reference.as_str(), reference) {
            return pins_at(all, i);
        }
        i += 1;
    }
    Err(NoPins::NotFound)
}

/// The first placed symbol, from index `i` on, that bears a designator and
/// stands at a place.
pub open spec fn symbol_there(
    all: Seq<PlacedSymbol>,
    reference: Seq<char>,
    x: Num,
    y: Num,
    i: int,
) -> Option<int>
    decreases all.len() - i,
{
    if i >= all.len() {
        None
    } else if all[i].reference@ == reference && all[i].x == x && all[i].y == y {
        Some(i)
    } else {
        symbol_there(all, reference, x, y, i + 1)
    }
}

/// The placed symbol that bears a designator: the one at the place, or else
/// the first.
pub open spec fn symbol_at(
    all: Seq<PlacedSymbol>,
    reference: Seq<char>,
    x: Num,
    y: Num,
) -> Option<int> {
    match symbol_there(all, reference, x, y, 0) {
        Some(i) => Some(i),
        None => symbol_from(all, reference, 0),
    }
}

/// The component at a place of which pins are reported, by index, or what
/// stands in the way. Each unit of a component has a place of its own.
pub fn pins_where<'a>(all: &'a Vec<PlacedSymbol>, reference: &str, x: Num, y: Num) -> (r: Result<
    usize,
    NoPins<'a>,
>)
    ensures
        answers(r, all@, symbol_at(all@, reference@, x, y)),
{
    let mut i: usize = 0;
    while i < all.len()
        invariant
            i <= all@.len(),
            symbol_there(all@, reference@, x, y, 0) == symbol_there(
                all@,
                reference@,
                x,
                y,
                i as int,
            ),
        decreases all@.len() - i,
    {
        if same(all[i].reference.as_str(), reference) && all[i].x == x && all[i].y == y {
            return pins_at(all, i);
        }
        i += 1;
    }
    pins_of(all, reference)
}

/// The components of which pins are reported, in the order asked for, each by
/// index or with what stands in the way.
pub fn batch_pins<'a>(all: &'a Vec<PlacedSymbol>, references: &Vec<String>) -> (r: Vec<
    Result<usize, NoPins<'a>>,
>)
    ensures
        r@.len() == references@.len(),
        forall|i: int|
            0 <= i < r@.len() ==> answers(
                #[trigger] r@[i],
                all@,
                symbol_from(all@, references@[i]@, 0),
            ),
{
    let mut out: Vec<Result<usize, NoPins<'a>>> = Vec::new();
    let mut i: usize = 0;
    while i < references.len()
        invariant
            i <= references@.len(),
            out@.len() == i,
            forall|k: int|
                0 <= k < i ==> answers(
                    #[trigger] out@[k],
                    all@,
                    symbol_from(all@, references@[k]@, 0),
                ),
        decreases references@.len() - i,
    {
        out.push(pins_of(all, references[i].as_str()));
        i += 1;
    }
    out
}

/// A batch and a single request agree on a component: both report the pins of
/// the same symbol, or both are refused for the same reason.
pub proof fn law_batch_agrees(
    single: Result<usize, NoPins>,
    batched: Result<usize, NoPins>,
    all: Seq<PlacedSymbol>,
    reference: Seq<char>,
)
    requires
        answers(single, all, symbol_from(all, reference, 0)),
        answers(batched, all, symbol_from(all, reference, 0)),
    ensures
        match (single, batched) {
            (Ok(i), Ok(k)) => i == k,
            (Err(a), Err(b)) => no_pins_message(reference, a) == no_pins_message(reference, b)
                && no_pins_note(a) == no_pins_note(b),
            _ => false,
        },
{
}

/// The pins of a component are the same in its report as in a request for
/// them, where the component is the first of that designator.
pub proof fn law_report_agrees(
    all: Seq<PlacedSymbol>,
    reference: Seq<char>,
    x: Num,
    y: Num,
)
    requires
        symbol_from(all, reference, 0) matches Some(i) ==> all[i].x == x && all[i].y == y,
    ensures
        symbol_at(all, reference, x, y) == symbol_from(all, reference, 0),
{
    lemma_there(all, reference, x, y, 0);
}

proof fn lemma_there(all: Seq<PlacedSymbol>, reference: Seq<char>, x: Num, y: Num, i: int)
    requires
        0 <= i,
        symbol_from(all, reference, i) matches Some(k) ==> all[k].x == x && all[k].y == y,
    ensures
        symbol_there(all, reference, x, y, i) == symbol_from(all, reference, i),
    decreases all.len() - i,
{
    if i < all.len() && all[i].reference@ != reference {
        lemma_there(all, reference, x, y, i + 1);
    }
}

/// What to say, at length, when the pins of a component cannot be reported.
pub open spec fn no_pins_message(reference: Seq<char>, why: NoPins) -> Seq<char> {
    match why {
        NoPins::NotFound => "Component '"@ + reference + "' not found"@,
        NoPins::NotEmbedded(name) => "Component '"@ + reference
            + "' has no embedded definition for '"@ + name@
            + "' in this schematic's lib_symbols — it was likely added with a lib_id that doesn't exist in the installed libraries, so it is invisible to KiCAD's netlister. Re-add it with a valid lib_id (delete_schematic_component + add_schematic_component)."@,
        NoPins::Stub(name, parent) => "Component '"@ + reference
            + "': the embedded definition for '"@ + name@ + "' is an (extends \""@ + parent@
            + "\") stub with no pins of its own. kicad-cli cannot resolve extends stubs (the netlist gets a pinless part). Re-add the component (delete_schematic_component + add_schematic_component) so the definition is embedded in full, or place the parent symbol '"@
            + parent@ + "' directly."@,
    }
}

/// What to say, in short, when the pins of a component cannot be reported.
pub open spec fn no_pins_note(why: NoPins) -> Seq<char> {
    match why {
        NoPins::NotFound => "not found"@,
        NoPins::NotEmbedded(name) => "no embedded definition for '"@ + name@
            + "' in lib_symbols — likely added with a nonexistent lib_id"@,
        NoPins::Stub(name, parent) => "embedded definition for '"@ + name@ + "' is an (extends \""@
            + parent@
            + "\") stub with no pins — re-add the component so it is embedded in full"@,
    }
}

/// The refusal to report the pins of a component.
pub fn no_pins_error(reference: &str, why: &NoPins) -> (r: ToolError)
    ensures
        r.kind is None,
        r.message@ == no_pins_message(reference@, *why),
{
    let message = match why {
        NoPins::NotFound => join3("Component '", reference, "' not found"),
        NoPins::NotEmbedded(name) => join5(
            "Component '",
            reference,
            "' has no embedded definition for '",
            name,
            "' in this schematic's lib_symbols — it was likely added with a lib_id that doesn't exist in the installed libraries, so it is invisible to KiCAD's netlister. Re-add it with a valid lib_id (delete_schematic_component + add_schematic_component).",
        ),
        NoPins::Stub(name, parent) => {
            let mut m = join5(
                "Component '",
                reference,
                "': the embedded definition for '",
                name,
                "' is an (extends \"",
            );
            m.append(parent);
            m.append(
                "\") stub with no pins of its own. kicad-cli cannot resolve extends stubs (the netlist gets a pinless part). Re-add the component (delete_schematic_component + add_schematic_component) so the definition is embedded in full, or place the parent symbol '",
            );
            m.append(parent);
            m.append("' directly.");
            m
        },
    };
    ToolError::plain(message)
}

/// The entry of a component in a batch whose pins cannot be reported.
pub fn no_pins_entry(why: &NoPins) -> (r: String)
    ensures
        r@ == no_pins_note(*why),
{
    match why {
        NoPins::NotFound => "not found".to_owned(),
        NoPins::NotEmbedded(name) => join3(
            "no embedded definition for '",
            name,
            "' in lib_symbols — likely added with a nonexistent lib_id",
        ),
        NoPins::Stub(name, parent) => join5(
            "embedded definition for '",
            name,
            "' is an (extends \"",
            parent,
            "\") stub with no pins — re-add the component so it is embedded in full",
        ),
    }
}

} // verus!
