//! Save/load support: schema version, load errors, the event-log snapshot
//! and its rehydration, and the column-length check run before rebuilding
//! the creature table.

use vstd::prelude::*;
use std::collections::VecDeque;
use crate::events::{Event, EventLog, ring_tail};
use crate::text::{decimal, push_decimal};
use vstd::string::*;

verus! {

/// Current schema version. Bump on any save-shape change that breaks compatibility.
pub const SCHEMA_VERSION: u32 = 1;

/// Errors returned when loading a save. A parse error carries the JSON
/// parser's own description of what went wrong.
#[derive(Debug)]
pub enum LoadError {
    SchemaVersionMismatch { found: u32, expected: u32 },
    InvalidJson(String),
    StructuralError(String),
}

impl LoadError {
    /// Human-readable description of the error.
    pub fn message(&self) -> (s: String)
        ensures
            match self {
                LoadError::SchemaVersionMismatch { found, expected } => s@
                    == "schema version mismatch: found "@ + decimal(*found as nat) + ", expected "@
                    + decimal(*expected as nat),
                LoadError::InvalidJson(text) => s@ == "invalid json: "@ + text@,
                LoadError::StructuralError(m) => s@ == "structural error: "@ + m@,
            },
    {
        match self {
            LoadError::SchemaVersionMismatch { found, expected } => {
                let mut s = String::from_str("schema version mismatch: found ");
                push_decimal(&mut s, *found as u64);
                s.append(", expected ");
                push_decimal(&mut s, *expected as u64);
                s
            },
            LoadError::InvalidJson(text) => {
                let mut s = String::from_str("invalid json: ");
                s.append(text.as_str());
                s
            },
            LoadError::StructuralError(m) => {
                let mut s = String::from_str("structural error: ");
                s.append(m.as_str());
                s
            },
        }
    }
}

/// Check the save's schema version against `SCHEMA_VERSION`.
pub fn check_schema_version(found: u32) -> (r: Result<(), LoadError>)
    ensures
        r is Ok <==> found == SCHEMA_VERSION,
        r matches Err(e) ==> e == (LoadError::SchemaVersionMismatch { found, expected: SCHEMA_VERSION }),
{
    if found != SCHEMA_VERSION {
        return Err(LoadError::SchemaVersionMismatch { found, expected: SCHEMA_VERSION });
    }
    Ok(())
}

/// Index of the first column whose length differs from `n`, or the column
/// count when every column matches.
pub open spec fn first_mismatch(cols: Seq<(&str, usize)>, n: int, i: int) -> int
    decreases cols.len() - i,
{
    if i < 0 || i >= cols.len() {
        cols.len() as int
    } else if cols[i].1 != n {
        i
    } else {
        first_mismatch(cols, n, i + 1)
    }
}

/// Validate that every creature column has the same length as the id
/// column. `columns` names each further column with its length, in the
/// order the save lists them; the first mismatch is reported.
pub fn validate_soa_lengths(id_len: usize, columns: &[(&str, usize)]) -> (r: Result<usize, LoadError>)
    ensures
        r is Ok <==> (forall|i: int| 0 <= i < columns@.len() ==> #[trigger] columns@[i].1 == id_len),
        r matches Ok(n) ==> n == id_len,
        r matches Err(e) ==> {
            let k = first_mismatch(columns@, id_len as int, 0);
            e matches LoadError::StructuralError(m) && m@ == "column '"@ + columns@[k].0@
                + "' len "@ + decimal(columns@[k].1 as nat) + " != id len "@ + decimal(id_len as nat)
        },
{
    let mut i: usize = 0;
    while i < columns.len()
        invariant
            i <= columns@.len(),
            forall|j: int| 0 <= j < i ==> #[trigger] columns@[j].1 == id_len,
            first_mismatch(columns@, id_len as int, 0) == first_mismatch(columns@, id_len as int, i as int),
        decreases columns@.len() - i,
    {
        let (name, len) = columns[i];
        if len != id_len {
            assert(first_mismatch(columns@, id_len as int, i as int) == i);
            let mut m = String::from_str("column '");
            m.append(name);
            m.append("' len ");
            push_decimal(&mut m, len as u64);
            m.append(" != id len ");
            push_decimal(&mut m, id_len as u64);
            return Err(LoadError::StructuralError(m));
        }
        assert(first_mismatch(columns@, id_len as int, i as int) == first_mismatch(columns@, id_len as int, i + 1));
        i = i + 1;
    }
    Ok(id_len)
}

/// Whether the `f32` with these bits is finite (its exponent field is not
/// all ones).
pub open spec fn bits_finite(b: u32) -> bool {
    (b >> 23u32) & 0xffu32 != 0xffu32
}

/// How a non-finite `f32` with these bits prints: `NaN`, `inf` or `-inf`.
pub open spec fn nonfinite_text(b: u32) -> Seq<char> {
    if b & 0x7f_ffffu32 != 0 {
        "NaN"@
    } else if b >> 31u32 != 0 {
        "-inf"@
    } else {
        "inf"@
    }
}

fn nonfinite_str(b: u32) -> (s: &'static str)
    ensures
        s@ == nonfinite_text(b),
{
    if b & 0x7f_ffffu32 != 0 {
        proof {
            reveal_strlit("NaN");
        }
        "NaN"
    } else if b >> 31u32 != 0 {
        proof {
            reveal_strlit("-inf");
        }
        "-inf"
    } else {
        proof {
            reveal_strlit("inf");
        }
        "inf"
    }
}

/// The per-creature values the load check reads, one record per creature:
/// the brain's weight count and the bit patterns of its floats.
#[derive(Clone, Copy, Debug)]
pub struct CreatureCheck {
    pub weight_count: usize,
    pub mutation_rate_bits: u32,
    pub x_bits: u32,
    pub y_bits: u32,
    pub energy_bits: u32,
    pub parent_species_id: u32,
}

/// What the load check reads of a save whose creature columns already agree
/// in length. The sliders are, in order: base_sun_rate,
/// mutation_rate_multiplier, sun_gradient_strength, mouth_tax,
/// nn_mutation_sigma.
#[derive(Clone, Debug)]
pub struct SaveShape {
    pub sun_capacity_len: usize,
    pub sun_current_len: usize,
    pub hotspot_count: usize,
    pub creatures: Vec<CreatureCheck>,
    pub slider_bits: [u32; 5],
}

/// The sizes a save must have: sun cells, hotspots, weights per brain.
#[derive(Clone, Copy, Debug)]
pub struct SaveExpect {
    pub sun_cells: usize,
    pub hotspots: usize,
    pub weight_count: usize,
}

/// Name of slider `k`.
pub open spec fn slider_name(k: int) -> Seq<char> {
    if k == 0 {
        "base_sun_rate"@
    } else if k == 1 {
        "mutation_rate_multiplier"@
    } else if k == 2 {
        "sun_gradient_strength"@
    } else if k == 3 {
        "mouth_tax"@
    } else {
        "nn_mutation_sigma"@
    }
}

fn slider_str(k: usize) -> (s: &'static str)
    ensures
        s@ == slider_name(k as int),
{
    proof {
        reveal_strlit("base_sun_rate");
        reveal_strlit("mutation_rate_multiplier");
        reveal_strlit("sun_gradient_strength");
        reveal_strlit("mouth_tax");
        reveal_strlit("nn_mutation_sigma");
    }
    if k == 0 {
        "base_sun_rate"
    } else if k == 1 {
        "mutation_rate_multiplier"
    } else if k == 2 {
        "sun_gradient_strength"
    } else if k == 3 {
        "mouth_tax"
    } else {
        "nn_mutation_sigma"
    }
}

/// Whether creature record `c` fails check stage `stage`: 0 the brain
/// (weight count, then mutation rate finite), 1 the position (x, then y
/// finite), 2 the energy finite, 3 the parent species id not the old
/// `u32::MAX` placeholder.
pub open spec fn stage_bad(c: CreatureCheck, stage: int, w: usize) -> bool {
    if stage == 0 {
        c.weight_count != w || !bits_finite(c.mutation_rate_bits)
    } else if stage == 1 {
        !bits_finite(c.x_bits) || !bits_finite(c.y_bits)
    } else if stage == 2 {
        !bits_finite(c.energy_bits)
    } else {
        c.parent_species_id == u32::MAX
    }
}

/// Index of the first record from `i` on that fails stage `stage`, or the
/// record count when none does.
pub open spec fn first_bad(cs: Seq<CreatureCheck>, stage: int, w: usize, i: int) -> int
    decreases cs.len() - i,
{
    if i < 0 || i >= cs.len() {
        cs.len() as int
    } else if stage_bad(cs[i], stage, w) {
        i
    } else {
        first_bad(cs, stage, w, i + 1)
    }
}

/// The message for creature `i` (record `c`) failing stage `stage`.
pub open spec fn stage_msg(c: CreatureCheck, i: int, stage: int, w: usize) -> Seq<char> {
    let head = "creature "@ + decimal(i as nat);
    if stage == 0 {
        if c.weight_count != w {
            head + " brain weight count "@ + decimal(c.weight_count as nat) + " != "@ + decimal(
                w as nat,
            )
        } else {
            head + " brain.nn_mutation_rate is non-finite: "@ + nonfinite_text(c.mutation_rate_bits)
        }
    } else if stage == 1 {
        if !bits_finite(c.x_bits) {
            head + " x is non-finite: "@ + nonfinite_text(c.x_bits)
        } else {
            head + " y is non-finite: "@ + nonfinite_text(c.y_bits)
        }
    } else if stage == 2 {
        head + " energy is non-finite: "@ + nonfinite_text(c.energy_bits)
    } else {
        head + " parent_species_id is u32::MAX (invalid sentinel)"@
    }
}

/// Index of the first slider from `k` on that is not finite, or 5.
pub open spec fn first_bad_slider(bits: Seq<u32>, k: int) -> int
    decreases 5 - k,
{
    if k < 0 || k >= 5 {
        5
    } else if !bits_finite(bits[k]) {
        k
    } else {
        first_bad_slider(bits, k + 1)
    }
}

/// The first problem of a save, as its message, checked in this order: sun
/// capacity cells, sun current cells, hotspots, each creature's brain, each
/// creature's position, each creature's energy, each creature's parent id,
/// the sliders.
pub open spec fn save_problem(shape: SaveShape, expect: SaveExpect) -> Option<Seq<char>> {
    let cs = shape.creatures@;
    let w = expect.weight_count;
    if shape.sun_capacity_len != expect.sun_cells {
        Some(
            "sun.capacity len "@ + decimal(shape.sun_capacity_len as nat) + " != expected "@
                + decimal(expect.sun_cells as nat),
        )
    } else if shape.sun_current_len != expect.sun_cells {
        Some(
            "sun.current len "@ + decimal(shape.sun_current_len as nat) + " != expected "@
                + decimal(expect.sun_cells as nat),
        )
    } else if shape.hotspot_count != expect.hotspots {
        Some(
            "sun.hotspots len "@ + decimal(shape.hotspot_count as nat) + " != expected "@
                + decimal(expect.hotspots as nat),
        )
    } else if first_bad(cs, 0, w, 0) < cs.len() {
        let i = first_bad(cs, 0, w, 0);
        Some(stage_msg(cs[i], i, 0, w))
    } else if first_bad(cs, 1, w, 0) < cs.len() {
        let i = first_bad(cs, 1, w, 0);
        Some(stage_msg(cs[i], i, 1, w))
    } else if first_bad(cs, 2, w, 0) < cs.len() {
        let i = first_bad(cs, 2, w, 0);
        Some(stage_msg(cs[i], i, 2, w))
    } else if first_bad(cs, 3, w, 0) < cs.len() {
        let i = first_bad(cs, 3, w, 0);
        Some(stage_msg(cs[i], i, 3, w))
    } else if first_bad_slider(shape.slider_bits@, 0) < 5 {
        let k = first_bad_slider(shape.slider_bits@, 0);
        Some("slider '"@ + slider_name(k) + "' is non-finite: "@ + nonfinite_text(shape.slider_bits@[k]))
    } else {
        None
    }
}

fn is_stage_bad(c: &CreatureCheck, stage: u8, w: usize) -> (b: bool)
    ensures
        b == stage_bad(*c, stage as int, w),
{
    if stage == 0 {
        c.weight_count != w || (c.mutation_rate_bits >> 23u32) & 0xffu32 == 0xffu32
    } else if stage == 1 {
        (c.x_bits >> 23u32) & 0xffu32 == 0xffu32 || (c.y_bits >> 23u32) & 0xffu32 == 0xffu32
    } else if stage == 2 {
        (c.energy_bits >> 23u32) & 0xffu32 == 0xffu32
    } else {
        c.parent_species_id == u32::MAX
    }
}

/// The first record failing stage `stage`, if any.
fn scan_stage(cs: &Vec<CreatureCheck>, stage: u8, w: usize) -> (r: Option<usize>)
    ensures
        r is None ==> first_bad(cs@, stage as int, w, 0) == cs@.len(),
        r matches Some(i) ==> i == first_bad(cs@, stage as int, w, 0) && i < cs@.len(),
{
    let mut i: usize = 0;
    while i < cs.len()
        invariant
            i <= cs@.len(),
            first_bad(cs@, stage as int, w, 0) == first_bad(cs@, stage as int, w, i as int),
        decreases cs@.len() - i,
    {
        if is_stage_bad(&cs[i], stage, w) {
            return Some(i);
        }
        i = i + 1;
    }
    None
}

fn push_creature_head(m: &mut String, i: usize)
    ensures
        final(m)@ == old(m)@ + "creature "@ + decimal(i as nat),
{
    m.append("creature ");
    push_decimal(m, i as u64);
}

fn stage_message(c: &CreatureCheck, i: usize, stage: u8, w: usize) -> (m: String)
    ensures
        m@ == stage_msg(*c, i as int, stage as int, w),
{
    let mut m = String::new();
    push_creature_head(&mut m, i);
    if stage == 0 {
        if c.weight_count != w {
            m.append(" brain weight count ");
            push_decimal(&mut m, c.weight_count as u64);
            m.append(" != ");
            push_decimal(&mut m, w as u64);
        } else {
            m.append(" brain.nn_mutation_rate is non-finite: ");
            m.append(nonfinite_str(c.mutation_rate_bits));
        }
    } else if stage == 1 {
        if (c.x_bits >> 23u32) & 0xffu32 == 0xffu32 {
            m.append(" x is non-finite: ");
            m.append(nonfinite_str(c.x_bits));
        } else {
            m.append(" y is non-finite: ");
            m.append(nonfinite_str(c.y_bits));
        }
    } else if stage == 2 {
        m.append(" energy is non-finite: ");
        m.append(nonfinite_str(c.energy_bits));
    } else {
        m.append(" parent_species_id is u32::MAX (invalid sentinel)");
    }
    m
}

fn len_message(head: &str, len: usize, expected: usize) -> (m: String)
    ensures
        m@ == head@ + decimal(len as nat) + " != expected "@ + decimal(expected as nat),
{
    let mut m = String::from_str(head);
    push_decimal(&mut m, len as u64);
    m.append(" != expected ");
    push_decimal(&mut m, expected as u64);
    m
}

/// Structural check of a save before it is rebuilt: the sun grids and the
/// hotspots have their sizes, every brain has the expected weight count and
/// a finite mutation rate, every position and energy is finite, no parent
/// species id is the old `u32::MAX` placeholder, and every slider is finite.
/// Returns the creature count, or a structural error naming the first
/// problem in that order.
pub fn validate_save(shape: &SaveShape, expect: &SaveExpect) -> (r: Result<usize, LoadError>)
    ensures
        r is Ok <==> save_problem(*shape, *expect) is None,
        r matches Ok(n) ==> n == shape.creatures@.len(),
        r matches Err(e) ==> e matches LoadError::StructuralError(m)
            && save_problem(*shape, *expect) == Some(m@),
{
    if shape.sun_capacity_len != expect.sun_cells {
        return Err(LoadError::StructuralError(len_message("sun.capacity len ", shape.sun_capacity_len, expect.sun_cells)));
    }
    if shape.sun_current_len != expect.sun_cells {
        return Err(LoadError::StructuralError(len_message("sun.current len ", shape.sun_current_len, expect.sun_cells)));
    }
    if shape.hotspot_count != expect.hotspots {
        return Err(LoadError::StructuralError(len_message("sun.hotspots len ", shape.hotspot_count, expect.hotspots)));
    }
    let mut stage: u8 = 0;
    while stage < 4
        invariant
            stage <= 4,
            shape.sun_capacity_len == expect.sun_cells,
            shape.sun_current_len == expect.sun_cells,
            shape.hotspot_count == expect.hotspots,
            forall|t: int| 0 <= t < stage ==> first_bad(shape.creatures@, t, expect.weight_count, 0)
                == shape.creatures@.len(),
        decreases 4 - stage,
    {
        match scan_stage(&shape.creatures, stage, expect.weight_count) {
            Some(i) => {
                let m = stage_message(&shape.creatures[i], i, stage, expect.weight_count);
                return Err(LoadError::StructuralError(m));
            },
            None => {},
        }
        stage = stage + 1;
    }
    let mut k: usize = 0;
    while k < 5
        invariant
            k <= 5,
            first_bad_slider(shape.slider_bits@, 0) == first_bad_slider(shape.slider_bits@, k as int),
            shape.sun_capacity_len == expect.sun_cells,
            shape.sun_current_len == expect.sun_cells,
            shape.hotspot_count == expect.hotspots,
            forall|t: int| 0 <= t < 4 ==> first_bad(shape.creatures@, t, expect.weight_count, 0)
                == shape.creatures@.len(),
        decreases 5 - k,
    {
        let b = shape.slider_bits[k];
        if (b >> 23u32) & 0xffu32 == 0xffu32 {
            let mut m = String::from_str("slider '");
            m.append(slider_str(k));
            m.append("' is non-finite: ");
            m.append(nonfinite_str(b));
            assert(first_bad_slider(shape.slider_bits@, k as int) == k);
            return Err(LoadError::StructuralError(m));
        }
        k = k + 1;
    }
    Ok(shape.creatures.len())
}

/// Whether every named creature column has length `n`.
pub open spec fn columns_match(columns: Seq<(&str, usize)>, n: usize) -> bool {
    forall|i: int| 0 <= i < columns.len() ==> #[trigger] columns[i].1 == n
}

/// The full structural check of a save, in order: every creature column has
/// the id column's length (`columns` names each further column with its
/// length, in the order the save lists them), then the checks of
/// [`validate_save`] on `shape`, whose records are read from those columns
/// (one per creature once the lengths agree). Returns the creature count,
/// or a structural error naming the first problem.
pub fn validate_save_full(
    id_len: usize,
    columns: &[(&str, usize)],
    shape: &SaveShape,
    expect: &SaveExpect,
) -> (r: Result<usize, LoadError>)
    requires
        columns_match(columns@, id_len) ==> shape.creatures@.len() == id_len,
    ensures
        r is Ok <==> columns_match(columns@, id_len) && save_problem(*shape, *expect) is None,
        r matches Ok(n) ==> n == id_len,
        r matches Err(e) ==> e matches LoadError::StructuralError(m) && if columns_match(columns@, id_len) {
            save_problem(*shape, *expect) == Some(m@)
        } else {
            let k = first_mismatch(columns@, id_len as int, 0);
            m@ == "column '"@ + columns@[k].0@ + "' len "@ + decimal(columns@[k].1 as nat)
                + " != id len "@ + decimal(id_len as nat)
        },
{
    match validate_soa_lengths(id_len, columns) {
        Ok(_) => validate_save(shape, expect),
        Err(e) => Err(e),
    }
}

/// Event-log snapshot: the full history; the recent ring is rebuilt on load.
#[derive(Clone, Debug)]
pub struct EventLogSnapshot {
    pub all: Vec<Event>,
    pub ring_cap: usize,
}

/// Snapshot an event log for saving.
pub fn event_log_snapshot(log: &EventLog) -> (snap: EventLogSnapshot)
    ensures
        snap.all@ == log.all@,
        snap.ring_cap == log.ring_cap,
{
    let mut all: Vec<Event> = Vec::new();
    let mut i: usize = 0;
    while i < log.all.len()
        invariant
            i <= log.all@.len(),
            all@ == log.all@.subrange(0, i as int),
        decreases log.all@.len() - i,
    {
        all.push(log.all[i].clone());
        i = i + 1;
        assert(all@ =~= log.all@.subrange(0, i as int));
    }
    assert(all@ =~= log.all@);
    EventLogSnapshot { all, ring_cap: log.ring_cap }
}

/// Rebuild an event log from a snapshot: the full history is kept and the
/// recent ring is recomputed from its tail (the last `ring_cap` entries).
pub fn rehydrate_event_log(snap: EventLogSnapshot) -> (log: EventLog)
    ensures
        log.all@ == snap.all@,
        log.ring_cap == snap.ring_cap,
        log.recent@ == ring_tail(snap.all@, snap.ring_cap as int),
        snap.ring_cap >= 1 ==> log.wf(),
{
    let mut recent: VecDeque<Event> = VecDeque::new();
    let n = snap.all.len();
    let start = n.saturating_sub(snap.ring_cap);
    let mut i: usize = start;
    while i < n
        invariant
            n == snap.all@.len(),
            start <= i <= n,
            start == (if n >= snap.ring_cap { n - snap.ring_cap } else { 0 }),
            recent@ == snap.all@.subrange(start as int, i as int),
        decreases n - i,
    {
        recent.push_back(snap.all[i].clone());
        i = i + 1;
        assert(recent@ =~= snap.all@.subrange(start as int, i as int));
    }
    assert(recent@ =~= ring_tail(snap.all@, snap.ring_cap as int));
    EventLog { all: snap.all, recent, ring_cap: snap.ring_cap }
}

/// Saving an event log and loading it back yields the same history, the
/// same ring of recent entries and the same ring capacity, for every log
/// whose ring is consistent with its history.
pub proof fn lemma_event_log_round_trip(log: EventLog, snap: EventLogSnapshot, back: EventLog)
    requires
        log.wf(),
        snap.all@ == log.all@,
        snap.ring_cap == log.ring_cap,
        back.all@ == snap.all@,
        back.ring_cap == snap.ring_cap,
        back.recent@ == ring_tail(snap.all@, snap.ring_cap as int),
    ensures
        back.all@ == log.all@,
        back.recent@ == log.recent@,
        back.ring_cap == log.ring_cap,
        back.wf(),
{
}

} // verus!
