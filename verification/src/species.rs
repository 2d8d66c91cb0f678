//! Species registry: lineage naming, id allocation and parent/child
//! bookkeeping. Each species carries an anchor (the brain weights it was
//! founded with) that the registry stores but never reads.

use vstd::prelude::*;
use vstd::string::*;
use crate::text::{decimal, push_decimal};
use crate::events::{Event, EventKind, EventLog};
use vstd::hash_set::HashSetWithView;

verus! {

/// Name of the founding species.
pub open spec fn founder_name() -> Seq<char> {
    seq!['L', 'i', 'n', 'e', 'a', 'g', 'e', ' ', 'A']
}

/// The lowercase letter for `d < 26` (`0` is `a`).
pub open spec fn letter(d: nat) -> char {
    (0x61 + d) as char
}

/// Bijective base-26 in lowercase letters: 1 is `a`, 26 is `z`, 27 is `aa`.
pub open spec fn letters(n: nat) -> Seq<char>
    decreases n,
{
    if n == 0 {
        Seq::empty()
    } else {
        letters(((n - 1) / 26) as nat).push(letter(((n - 1) % 26) as nat))
    }
}

/// Suffix of the `n`-th child at lineage depth `depth`: decimal at odd
/// depths, letters at even depths.
pub open spec fn lineage_suffix(depth: nat, n: nat) -> Seq<char> {
    if depth % 2 == 1 {
        decimal(n)
    } else {
        letters(n)
    }
}

/// A child's name: the parent's name followed by the suffix; when that
/// is longer than 16 bytes of UTF-8 it is cut to its first 15 characters
/// and an ellipsis is appended.
pub open spec fn child_name(parent: Seq<char>, suffix: Seq<char>) -> Seq<char> {
    let full = parent + suffix;
    if vstd::utf8::encode_utf8(full).len() > 16 {
        full.take(15).push('…')
    } else {
        full
    }
}

/// The shapes a species name takes: plain ASCII of at most 16 characters,
/// or 15 ASCII characters followed by an ellipsis. In both the first 15
/// bytes are the first 15 characters, so a cut there keeps whole characters.
pub open spec fn name_ok(s: Seq<char>) -> bool {
    ||| (vstd::utf8::is_ascii_chars(s) && s.len() <= 16)
    ||| (s.len() == 16 && vstd::utf8::is_ascii_chars(s.take(15)) && s[15] == '…')
}

proof fn lemma_encode_len(s: Seq<char>)
    ensures
        vstd::utf8::encode_utf8(s).len() >= s.len(),
    decreases s.len(),
{
    if s.len() > 0 {
        lemma_encode_len(s.drop_first());
    }
}

proof fn lemma_letters_ascii(n: nat)
    ensures
        vstd::utf8::is_ascii_chars(letters(n)),
        n > 0 ==> letters(n).len() > 0,
    decreases n,
{
    if n > 0 {
        lemma_letters_ascii(((n - 1) / 26) as nat);
    }
}

/// The number a run of lowercase letters spells in bijective base 26,
/// read most significant letter first (`a` is 1, `z` is 26).
pub open spec fn letters_value(s: Seq<char>) -> int
    decreases s.len(),
{
    if s.len() == 0 {
        0
    } else {
        letters_value(s.drop_last()) * 26 + (s.last() as int - 'a' as int + 1)
    }
}

/// The letter suffix of `n` is `n` written in bijective base 26, most
/// significant letter first: it holds only `a` to `z` and reads back as `n`
/// (1 is `a`, 26 is `z`, 27 is `aa`, 28 is `ab`, 53 is `ba`).
pub proof fn lemma_letters_spell_n(n: nat)
    ensures
        forall|i: int| 0 <= i < letters(n).len() ==> 'a' <= #[trigger] letters(n)[i] <= 'z',
        letters_value(letters(n)) == n,
    decreases n,
{
    if n > 0 {
        let q = ((n - 1) / 26) as nat;
        lemma_letters_spell_n(q);
        let l = letters(n);
        assert(l.drop_last() =~= letters(q));
        assert(q * 26 + (n - 1) % 26 + 1 == n);
    }
}

proof fn lemma_decimal_ascii(n: nat)
    ensures
        vstd::utf8::is_ascii_chars(decimal(n)),
        decimal(n).len() > 0,
    decreases n,
{
    if n >= 10 {
        lemma_decimal_ascii(n / 10);
    }
}

fn letter_str(d: u32) -> (s: &'static str)
    requires
        d < 26,
    ensures
        s@ == seq![letter(d as nat)],
{
    if d == 0 {
        proof { reveal_strlit("a"); }
        "a"
    } else if d == 1 {
        proof { reveal_strlit("b"); }
        "b"
    } else if d == 2 {
        proof { reveal_strlit("c"); }
        "c"
    } else if d == 3 {
        proof { reveal_strlit("d"); }
        "d"
    } else if d == 4 {
        proof { reveal_strlit("e"); }
        "e"
    } else if d == 5 {
        proof { reveal_strlit("f"); }
        "f"
    } else if d == 6 {
        proof { reveal_strlit("g"); }
        "g"
    } else if d == 7 {
        proof { reveal_strlit("h"); }
        "h"
    } else if d == 8 {
        proof { reveal_strlit("i"); }
        "i"
    } else if d == 9 {
        proof { reveal_strlit("j"); }
        "j"
    } else if d == 10 {
        proof { reveal_strlit("k"); }
        "k"
    } else if d == 11 {
        proof { reveal_strlit("l"); }
        "l"
    } else if d == 12 {
        proof { reveal_strlit("m"); }
        "m"
    } else if d == 13 {
        proof { reveal_strlit("n"); }
        "n"
    } else if d == 14 {
        proof { reveal_strlit("o"); }
        "o"
    } else if d == 15 {
        proof { reveal_strlit("p"); }
        "p"
    } else if d == 16 {
        proof { reveal_strlit("q"); }
        "q"
    } else if d == 17 {
        proof { reveal_strlit("r"); }
        "r"
    } else if d == 18 {
        proof { reveal_strlit("s"); }
        "s"
    } else if d == 19 {
        proof { reveal_strlit("t"); }
        "t"
    } else if d == 20 {
        proof { reveal_strlit("u"); }
        "u"
    } else if d == 21 {
        proof { reveal_strlit("v"); }
        "v"
    } else if d == 22 {
        proof { reveal_strlit("w"); }
        "w"
    } else if d == 23 {
        proof { reveal_strlit("x"); }
        "x"
    } else if d == 24 {
        proof { reveal_strlit("y"); }
        "y"
    } else {
        proof { reveal_strlit("z"); }
        "z"
    }
}

/// Append the base-26 letters of `n` to `out`.
fn push_letters(out: &mut String, n: u32)
    ensures
        final(out)@ == old(out)@ + letters(n as nat),
    decreases n,
{
    if n > 0 {
        push_letters(out, (n - 1) / 26);
        out.append(letter_str((n - 1) % 26));
    } else {
        assert(old(out)@ + letters(0) =~= old(out)@);
    }
}

/// One species: identity, lineage, name and the anchor it was founded with.
#[derive(Clone, Debug)]
pub struct Species<A> {
    pub id: u32,
    pub parent_id: Option<u32>,
    pub name: String,
    pub anchor_brain_weights: A,
    pub born_tick: u32,
    pub died_tick: Option<u32>,
    /// Children split off so far; numbers the next child's name.
    pub child_count: u32,
    /// Depth in the lineage tree (0 for the founder); picks the suffix alphabet.
    pub depth: u32,
}

/// All species ever registered, in registration order, and the next id.
pub struct SpeciesRegistry<A> {
    pub list: Vec<Species<A>>,
    /// Next species id to allocate.
    pub next_id: u32,
}

impl<A> SpeciesRegistry<A> {
    /// Every registered name has one of the shapes of `name_ok`.
    pub open spec fn names_ok(&self) -> bool {
        forall|i: int| 0 <= i < self.list@.len() ==> #[trigger] name_ok(self.list@[i].name@)
    }

    /// An empty registry.
    pub fn new() -> (r: Self)
        ensures
            r.list@.len() == 0,
            r.next_id == 0,
            r.names_ok(),
    {
        SpeciesRegistry { list: Vec::new(), next_id: 0 }
    }

    /// Register the founding species ("Lineage A") at `tick`; returns its id.
    pub fn founder(&mut self, anchor_brain_weights: A, tick: u32) -> (id: u32)
        requires
            old(self).next_id < u32::MAX,
            old(self).names_ok(),
        ensures
            id == old(self).next_id,
            final(self).next_id == old(self).next_id + 1,
            final(self).names_ok(),
            final(self).list@.len() == old(self).list@.len() + 1,
            final(self).list@.take(old(self).list@.len() as int) == old(self).list@,
            ({
                let s = final(self).list@.last();
                &&& s.id == id
                &&& s.parent_id is None
                &&& s.name@ == founder_name()
                &&& s.anchor_brain_weights == anchor_brain_weights
                &&& s.born_tick == tick
                &&& s.died_tick is None
                &&& s.child_count == 0
                &&& s.depth == 0
            }),
    {
        let id = self.next_id;
        self.next_id = self.next_id + 1;
        proof {
            reveal_strlit("Lineage A");
        }
        let name = String::from_str("Lineage A");
        assert(name@ =~= founder_name());
        self.list.push(Species {
            id,
            parent_id: None,
            name,
            anchor_brain_weights,
            born_tick: tick,
            died_tick: None,
            child_count: 0,
            depth: 0,
        });
        proof {
            assert(vstd::utf8::is_ascii_chars(founder_name()));
            assert forall|i: int| 0 <= i < self.list@.len() implies #[trigger] name_ok(self.list@[i].name@) by {
                if i < old(self).list@.len() {
                    assert(self.list@[i] == old(self).list@[i]);
                }
            }
            assert(self.list@.take(old(self).list@.len() as int) =~= old(self).list@);
        }
        id
    }
}

impl<A> SpeciesRegistry<A> {
    /// Register a new species split off from `parent_id` at `tick`, anchored
    /// at `anchor_brain_weights`; returns the new id. The parent's child
    /// count goes up by one and numbers the child's name suffix.
    pub fn speciate(&mut self, parent_id: u32, anchor_brain_weights: A, tick: u32) -> (id: u32)
        requires
            old(self).names_ok(),
            (parent_id as int) < old(self).list@.len(),
            old(self).list@[parent_id as int].child_count < u32::MAX,
            old(self).list@[parent_id as int].depth < u32::MAX,
            old(self).next_id < u32::MAX,
        ensures
            id == old(self).next_id,
            final(self).next_id == old(self).next_id + 1,
            final(self).names_ok(),
            final(self).list@.len() == old(self).list@.len() + 1,
            forall|i: int| 0 <= i < old(self).list@.len() && i != parent_id ==>
                #[trigger] final(self).list@[i] == old(self).list@[i],
            ({
                let p = old(self).list@[parent_id as int];
                final(self).list@[parent_id as int] == (Species { child_count: (p.child_count + 1) as u32, ..p })
            }),
            ({
                let p = old(self).list@[parent_id as int];
                let s = final(self).list@.last();
                &&& s.id == id
                &&& s.parent_id == Some(parent_id)
                &&& s.name@ == child_name(
                    p.name@,
                    lineage_suffix((p.depth + 1) as nat, (p.child_count + 1) as nat),
                )
                &&& s.anchor_brain_weights == anchor_brain_weights
                &&& s.born_tick == tick
                &&& s.died_tick is None
                &&& s.child_count == 0
                &&& s.depth == p.depth + 1
            }),
    {
        let p = parent_id as usize;
        let n = self.list[p].child_count + 1;
        self.list[p].child_count = n;
        let depth = self.list[p].depth + 1;
        let ghost parent_name = self.list@[p as int].name@;
        let ghost suffix = lineage_suffix(depth as nat, n as nat);
        let mut full = self.list[p].name.clone();
        if depth % 2 == 1 {
            push_decimal(&mut full, n as u64);
        } else {
            push_letters(&mut full, n);
        }
        proof {
            assert(name_ok(old(self).list@[p as int].name@));
            lemma_decimal_ascii(n as nat);
            lemma_letters_ascii(n as nat);
            assert(vstd::utf8::is_ascii_chars(suffix));
            assert(suffix.len() > 0);
            assert(full@ == parent_name + suffix);
            assert(full@.len() == parent_name.len() + suffix.len());
            lemma_encode_len(full@);
            if vstd::utf8::is_ascii_chars(full@) {
                vstd::utf8::is_ascii_chars_encode_utf8(full@);
            } else {
                vstd::utf8::is_ascii_chars_concat(full@, parent_name, suffix);
            }
        }
        // The UTF-8 length exceeds 16 bytes exactly when the name is not
        // plain ASCII (the cut parent's ellipsis) or has over 16 characters.
        let too_long = !full.as_str().is_ascii() || full.as_str().unicode_len() > 16;
        proof {
            if !vstd::utf8::is_ascii_chars(full@) {
                vstd::utf8::is_ascii_chars_concat(full@, parent_name, suffix);
                assert(parent_name.len() == 16);
            }
            assert(too_long == (vstd::utf8::encode_utf8(full@).len() > 16));
        }
        let name = if too_long {
            let head = full.as_str().substring_char(0, 15);
            let mut t = String::from_str(head);
            proof {
                reveal_strlit("…");
            }
            t.append("…");
            proof {
                assert(t@ =~= full@.take(15).push('…'));
                if vstd::utf8::is_ascii_chars(parent_name) {
                    vstd::utf8::is_ascii_chars_concat(full@, parent_name, suffix);
                    assert(vstd::utf8::is_ascii_chars(full@.take(15)));
                } else {
                    assert(full@.take(15) =~= parent_name.take(15));
                }
                assert(t@.take(15) =~= full@.take(15));
            }
            t
        } else {
            proof {
                vstd::utf8::is_ascii_chars_concat(full@, parent_name, suffix);
            }
            full
        };
        assert(name@ == child_name(parent_name, suffix));
        assert(name_ok(name@));
        let id = self.next_id;
        self.next_id = self.next_id + 1;
        self.list.push(Species {
            id,
            parent_id: Some(parent_id),
            name,
            anchor_brain_weights,
            born_tick: tick,
            died_tick: None,
            child_count: 0,
            depth,
        });
        proof {
            assert forall|i: int| 0 <= i < self.list@.len() implies #[trigger] name_ok(self.list@[i].name@) by {
                if i < old(self).list@.len() {
                    assert(name_ok(old(self).list@[i].name@));
                }
            }
        }
        id
    }

    /// The species registered under `id`.
    pub fn get(&self, id: u32) -> (s: &Species<A>)
        requires
            (id as int) < self.list@.len(),
        ensures
            *s == self.list@[id as int],
    {
        &self.list[id as usize]
    }

    /// Rebuild a registry from a persisted species list and next id.
    pub fn from_snapshot(list: Vec<Species<A>>, next_id: u32) -> (r: Self)
        ensures
            r.list@ == list@,
            r.next_id == next_id,
    {
        SpeciesRegistry { list, next_id }
    }
}

/// The candidates that become extinct, in order: not among the living
/// species, not already dead, and not already listed.
pub open spec fn newly_extinct(
    cands: Seq<u32>,
    k: int,
    alive: Set<u32>,
    died: spec_fn(u32) -> bool,
) -> Seq<u32>
    decreases k,
{
    if k <= 0 {
        Seq::empty()
    } else {
        let prev = newly_extinct(cands, k - 1, alive, died);
        let c = cands[k - 1];
        if !alive.contains(c) && !died(c) && !prev.contains(c) {
            prev.push(c)
        } else {
            prev
        }
    }
}

/// Close out a tick's extinction checks. A candidate species with no living
/// member (no creature carries its id) that has not died yet gets
/// `died_tick = tick`, and, when events are on, an extinction event with its
/// name is logged, in candidate order. Returns the number of distinct
/// species among the living creatures.
pub fn finalize_extinctions<A>(
    species: &mut SpeciesRegistry<A>,
    creature_species: &[u32],
    candidates: Vec<u32>,
    tick: u32,
    events_enabled: bool,
    events: &mut EventLog,
) -> (live: u32)
    requires
        forall|k: int| 0 <= k < candidates@.len() ==> (#[trigger] candidates@[k] as int) < old(species).list@.len(),
        creature_species@.len() <= u32::MAX,
        old(species).list@.len() <= u32::MAX,
    ensures
        live == creature_species@.to_set().len(),
        old(events).wf() ==> final(events).wf(),
        ({
            let alive = creature_species@.to_set();
            let died = |c: u32| old(species).list@[c as int].died_tick is Some;
            let gone = newly_extinct(candidates@, candidates@.len() as int, alive, died);
            &&& final(species).next_id == old(species).next_id
            &&& final(species).list@.len() == old(species).list@.len()
            &&& forall|j: int| 0 <= j < old(species).list@.len() ==> {
                let o = #[trigger] old(species).list@[j];
                let f = final(species).list@[j];
                &&& f.died_tick == (if gone.contains(j as u32) { Some(tick) } else { o.died_tick })
                &&& f == (Species { died_tick: f.died_tick, ..o })
            }
            &&& !events_enabled ==> final(events).all@ == old(events).all@
            &&& events_enabled ==> {
                &&& final(events).all@.len() == old(events).all@.len() + gone.len()
                &&& final(events).all@.take(old(events).all@.len() as int) == old(events).all@
                &&& forall|i: int| 0 <= i < gone.len() ==> {
                    let e = #[trigger] final(events).all@[old(events).all@.len() + i];
                    &&& e.tick == tick
                    &&& e.kind matches EventKind::Extinction { species_id, species_name }
                        && species_id == gone[i]
                        && species_name@ == old(species).list@[gone[i] as int].name@
                }
            }
        }),
{
    broadcast use vstd::std_specs::hash::axiom_u32_obeys_hash_table_key_model;
    let mut alive: HashSetWithView<u32> = HashSetWithView::new();
    let mut i: usize = 0;
    while i < creature_species.len()
        invariant
            i <= creature_species@.len(),
            alive@ == creature_species@.take(i as int).to_set(),
        decreases creature_species@.len() - i,
    {
        let id = creature_species[i];
        alive.insert(id);
        proof {
            assert(creature_species@.take(i as int + 1) =~= creature_species@.take(i as int).push(id));
            creature_species@.take(i as int).lemma_push_to_set_commute(id);
        }
        i = i + 1;
    }
    assert(creature_species@.take(i as int) =~= creature_species@);
    let ghost alive_set = creature_species@.to_set();
    let ghost died = |c: u32| old(species).list@[c as int].died_tick is Some;
    let ghost start_events = events.all@;
    let mut k: usize = 0;
    while k < candidates.len()
        invariant
            k <= candidates@.len(),
            forall|m: int| 0 <= m < candidates@.len() ==> (#[trigger] candidates@[m] as int) < old(species).list@.len(),
            alive@ == alive_set,
            alive_set == creature_species@.to_set(),
            old(species).list@.len() <= u32::MAX,
            died == (|c: u32| old(species).list@[c as int].died_tick is Some),
            old(events).wf() ==> events.wf(),
            species.next_id == old(species).next_id,
            species.list@.len() == old(species).list@.len(),
            forall|j: int| 0 <= j < old(species).list@.len() ==> {
                let o = #[trigger] old(species).list@[j];
                let f = species.list@[j];
                &&& f.died_tick == (if newly_extinct(candidates@, k as int, alive_set, died).contains(j as u32) {
                    Some(tick)
                } else {
                    o.died_tick
                })
                &&& f == (Species { died_tick: f.died_tick, ..o })
            },
            !events_enabled ==> events.all@ == start_events,
            events_enabled ==> {
                let gone = newly_extinct(candidates@, k as int, alive_set, died);
                &&& events.all@.len() == start_events.len() + gone.len()
                &&& events.all@.take(start_events.len() as int) == start_events
                &&& forall|m: int| 0 <= m < gone.len() ==> {
                    let e = #[trigger] events.all@[start_events.len() + m];
                    &&& e.tick == tick
                    &&& e.kind matches EventKind::Extinction { species_id, species_name }
                        && species_id == gone[m]
                        && species_name@ == old(species).list@[gone[m] as int].name@
                }
            },
            start_events == old(events).all@,
        decreases candidates@.len() - k,
    {
        let cand = candidates[k];
        let ghost prev = newly_extinct(candidates@, k as int, alive_set, died);
        let c = cand as usize;
        proof {
            assert(species.list@[c as int] == (Species { died_tick: species.list@[c as int].died_tick, ..old(species).list@[c as int] }));
            if prev.contains(cand) {
                assert(species.list@[c as int].died_tick is Some);
            }
        }
        let ghost list_before = species.list@;
        let ghost taken = !alive_set.contains(cand) && !died(cand) && !prev.contains(cand);
        let ghost next = newly_extinct(candidates@, k as int + 1, alive_set, died);
        assert(next == (if taken { prev.push(cand) } else { prev }));
        if !alive.contains(&cand) && species.list[c].died_tick.is_none() {
            assert(taken);
            species.list[c].died_tick = Some(tick);
            assert(species.list@ == list_before.update(c as int, Species { died_tick: Some(tick), ..list_before[c as int] }));
            if events_enabled {
                let name = species.list[c].name.clone();
                let ghost before = events.all@;
                events.push(Event { tick, kind: EventKind::Extinction { species_id: cand, species_name: name } });
                proof {
                    let gone = prev.push(cand);
                    assert(events.all@.take(start_events.len() as int) =~= start_events) by {
                        assert(before.take(start_events.len() as int) == start_events);
                    }
                    assert forall|m: int| 0 <= m < gone.len() implies {
                        let e = #[trigger] events.all@[start_events.len() + m];
                        &&& e.tick == tick
                        &&& e.kind matches EventKind::Extinction { species_id, species_name }
                            && species_id == gone[m]
                            && species_name@ == old(species).list@[gone[m] as int].name@
                    } by {
                        if m < prev.len() {
                            assert(events.all@[start_events.len() + m] == before[start_events.len() + m]);
                        }
                    }
                }
            }
        } else {
            assert(!taken);
        }
        proof {
            assert forall|j: int| 0 <= j < old(species).list@.len() implies {
                let o = #[trigger] old(species).list@[j];
                let f = species.list@[j];
                &&& f.died_tick == (if next.contains(j as u32) { Some(tick) } else { o.died_tick })
                &&& f == (Species { died_tick: f.died_tick, ..o })
            } by {
                let o = old(species).list@[j];
                assert(list_before[j].died_tick == (if prev.contains(j as u32) { Some(tick) } else { o.died_tick }));
                if taken {
                    if j == c as int {
                        assert(next[prev.len() as int] == cand);
                        assert(next.contains(j as u32));
                    } else {
                        assert((j as u32) != cand) by {
                            assert(j < old(species).list@.len());
                            assert((cand as int) < old(species).list@.len());
                        }
                        if next.contains(j as u32) {
                            let w = choose|w: int| 0 <= w < next.len() && next[w] == j as u32;
                            assert(w < prev.len());
                            assert(prev[w] == j as u32);
                        }
                        if prev.contains(j as u32) {
                            let w = choose|w: int| 0 <= w < prev.len() && prev[w] == j as u32;
                            assert(next[w] == j as u32);
                        }
                    }
                }
            }
        }
        k = k + 1;
    }
    let n = alive.len();
    proof {
        creature_species@.lemma_cardinality_of_set();
    }
    n as u32
}

impl<A> Default for SpeciesRegistry<A> {
    fn default() -> (r: Self)
        ensures
            r.list@.len() == 0,
            r.next_id == 0,
    {
        SpeciesRegistry::new()
    }
}

} // verus!
