//! Event log: the full history (persisted) plus a bounded ring of the most
//! recent entries shown in the UI.

use vstd::prelude::*;
use std::collections::VecDeque;

verus! {

/// One logged event: the tick it happened on and what happened.
#[derive(Debug)]
pub struct Event {
    pub tick: u32,
    pub kind: EventKind,
}

/// What happened.
#[derive(Debug)]
pub enum EventKind {
    Speciation {
        new_species_id: u32,
        parent_species_id: u32,
        new_species_name: String,
        creature_id: u64,
    },
    Extinction { species_id: u32, species_name: String },
    PopulationMilestone { population: u32 },
    FirstToMove { creature_id: u64 },
    FirstToEat { creature_id: u64 },
    WorldEnded { ticks_lived: u32, peak_population: u32, peak_species: u32 },
}

impl Clone for EventKind {
    fn clone(&self) -> (r: Self)
        ensures
            r == *self,
    {
        match self {
            EventKind::Speciation {
                new_species_id,
                parent_species_id,
                new_species_name,
                creature_id,
            } => EventKind::Speciation {
                new_species_id: *new_species_id,
                parent_species_id: *parent_species_id,
                new_species_name: new_species_name.clone(),
                creature_id: *creature_id,
            },
            EventKind::Extinction { species_id, species_name } => EventKind::Extinction {
                species_id: *species_id,
                species_name: species_name.clone(),
            },
            EventKind::PopulationMilestone { population } => EventKind::PopulationMilestone {
                population: *population,
            },
            EventKind::FirstToMove { creature_id } => EventKind::FirstToMove {
                creature_id: *creature_id,
            },
            EventKind::FirstToEat { creature_id } => EventKind::FirstToEat {
                creature_id: *creature_id,
            },
            EventKind::WorldEnded { ticks_lived, peak_population, peak_species } =>
                EventKind::WorldEnded {
                ticks_lived: *ticks_lived,
                peak_population: *peak_population,
                peak_species: *peak_species,
            },
        }
    }
}

impl Clone for Event {
    fn clone(&self) -> (r: Self)
        ensures
            r == *self,
    {
        Event { tick: self.tick, kind: self.kind.clone() }
    }
}

/// Default capacity of the recent-events ring.
pub const EVENT_RING_CAP_DEFAULT: usize = 200;

/// The last `min(all.len(), cap)` entries of `all`.
pub open spec fn ring_tail(all: Seq<Event>, cap: int) -> Seq<Event> {
    if all.len() <= cap {
        all
    } else {
        all.subrange(all.len() - cap, all.len() as int)
    }
}

/// Full history plus the ring of recent entries.
#[derive(Clone)]
pub struct EventLog {
    /// Full history (saved to disk).
    pub all: Vec<Event>,
    /// UI ring buffer of the most recent entries.
    pub recent: VecDeque<Event>,
    /// Ring capacity (default 200).
    pub ring_cap: usize,
}

impl EventLog {
    /// The ring holds exactly the last `ring_cap` entries of the history
    /// (all of it while shorter), with a positive capacity.
    pub open spec fn wf(&self) -> bool {
        &&& self.ring_cap >= 1
        &&& self.recent@ == ring_tail(self.all@, self.ring_cap as int)
    }

    /// An empty log with the default ring capacity.
    pub fn new() -> (log: Self)
        ensures
            log.all@ == Seq::<Event>::empty(),
            log.recent@ == Seq::<Event>::empty(),
            log.ring_cap == EVENT_RING_CAP_DEFAULT,
            log.wf(),
    {
        EventLog {
            all: Vec::new(),
            recent: VecDeque::with_capacity(EVENT_RING_CAP_DEFAULT),
            ring_cap: EVENT_RING_CAP_DEFAULT,
        }
    }

    /// Append an event to the history and to the ring; when the ring is
    /// full its oldest entry is dropped first.
    pub fn push(&mut self, ev: Event)
        ensures
            final(self).all@ == old(self).all@.push(ev),
            final(self).ring_cap == old(self).ring_cap,
            final(self).recent@ == (if old(self).recent@.len() == old(self).ring_cap && old(self).ring_cap > 0 {
                old(self).recent@.drop_first().push(ev)
            } else {
                old(self).recent@.push(ev)
            }),
            old(self).wf() ==> final(self).wf(),
    {
        if self.recent.len() == self.ring_cap {
            self.recent.pop_front();
        }
        self.recent.push_back(ev.clone());
        self.all.push(ev);
        proof {
            let a = old(self).all@;
            let cap = self.ring_cap as int;
            if old(self).wf() {
                let a2 = a.push(ev);
                if a.len() < cap {
                    assert(old(self).recent@ == a);
                    assert(self.recent@ =~= ring_tail(a2, cap));
                } else {
                    assert(old(self).recent@.len() == cap);
                    assert(self.recent@ =~= ring_tail(a2, cap));
                }
            }
        }
    }
}

impl Default for EventLog {
    /// An empty log with a zero ring capacity (every field at its default).
    fn default() -> (log: Self)
        ensures
            log.all@ == Seq::<Event>::empty(),
            log.recent@ == Seq::<Event>::empty(),
            log.ring_cap == 0,
    {
        EventLog { all: Vec::new(), recent: VecDeque::new(), ring_cap: 0 }
    }
}

} // verus!
