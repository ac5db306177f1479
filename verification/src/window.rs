//! The readings of one aggregation window, grouped by sensor.
use vstd::prelude::*;

verus! {

/// Sensors and their readings, as `(id, readings)` pairs.
pub type Windows<V> = Seq<(Seq<char>, Seq<V>)>;

/// No sensor appears twice in `w`.
pub open spec fn distinct_ids<V>(w: Windows<V>) -> bool {
    forall|i: int, j: int| 0 <= i < j < w.len() ==> (#[trigger] w[i]).0 != (#[trigger] w[j]).0
}

/// `id` has an entry in `w`.
pub open spec fn has_id<V>(w: Windows<V>, id: Seq<char>) -> bool {
    exists|i: int| 0 <= i < w.len() && (#[trigger] w[i]).0 == id
}

/// The position of `id`'s entry in `w`, when it has one.
pub open spec fn position_of<V>(w: Windows<V>, id: Seq<char>) -> int {
    choose|i: int| 0 <= i < w.len() && (#[trigger] w[i]).0 == id
}

/// `w` after `value` is added to sensor `id`: appended to its readings when
/// it has an entry, else in a new entry at the end.
pub open spec fn added<V>(w: Windows<V>, id: Seq<char>, value: V) -> Windows<V> {
    if has_id(w, id) {
        let i = position_of(w, id);
        w.update(i, (id, w[i].1.push(value)))
    } else {
        w.push((id, seq![value]))
    }
}

/// `w` as a map from each sensor to its readings.
pub open spec fn as_map<V>(w: Windows<V>) -> Map<Seq<char>, Seq<V>> {
    Map::new(|id: Seq<char>| has_id(w, id), |id: Seq<char>| w[position_of(w, id)].1)
}

/// Adding a reading changes the map of readings exactly as inserting into a
/// map keyed by sensor does: the sensor's readings, or none, with the new
/// one at the end; every other sensor keeps its readings.
pub proof fn lemma_added_as_map<V>(w: Windows<V>, id: Seq<char>, value: V)
    requires
        distinct_ids(w),
    ensures
        distinct_ids(added(w, id, value)),
        as_map(added(w, id, value)) == as_map(w).insert(
            id,
            if as_map(w).contains_key(id) {
                as_map(w)[id].push(value)
            } else {
                seq![value]
            },
        ),
{
    let a = added(w, id, value);
    if has_id(w, id) {
        let i = position_of(w, id);
        assert(a.len() == w.len());
        assert forall|k: Seq<char>| has_id(a, k) == has_id(w, k) by {
            if has_id(w, k) {
                let j = position_of(w, k);
                assert(a[j].0 == k);
            }
            if has_id(a, k) {
                let j = position_of(a, k);
                assert(w[j].0 == k);
            }
        }
        assert forall|k: Seq<char>| has_id(a, k) implies position_of(a, k) == position_of(w, k) by {
            let j = position_of(a, k);
            assert(w[j].0 == k);
        }
    } else {
        assert forall|k: Seq<char>| has_id(a, k) == (has_id(w, k) || k == id) by {
            if has_id(w, k) {
                let j = position_of(w, k);
                assert(a[j].0 == k);
            }
            if k == id {
                assert(a[w.len() as int].0 == k);
            }
        }
        assert forall|k: Seq<char>| has_id(w, k) implies position_of(a, k) == position_of(w, k) by {
            let m = position_of(w, k);
            assert(a[m].0 == k);
        }
        assert(position_of(a, id) == w.len()) by {
            assert(a[w.len() as int].0 == id);
        }
    }
    assert(as_map(a) =~= as_map(w).insert(
        id,
        if as_map(w).contains_key(id) {
            as_map(w)[id].push(value)
        } else {
            seq![value]
        },
    ));
}

/// What an aggregation worker does next with its open window.
#[derive(Debug, Clone, Copy, PartialEq, Eq, Structural)]
pub enum WindowStep {
    /// Take the next reading into the window.
    Collect,
    /// Close the window and store its frames.
    Close,
}

/// Whether a worker keeps collecting into its open window: while the engine
/// runs and less than the window's length (`window_nanos`) has passed since
/// the window opened (`elapsed_nanos`).
pub fn window_step(elapsed_nanos: u128, window_nanos: u128, running: bool) -> (r: WindowStep)
    ensures
        r == (if running && elapsed_nanos < window_nanos {
            WindowStep::Collect
        } else {
            WindowStep::Close
        }),
{
    if running && elapsed_nanos < window_nanos {
        WindowStep::Collect
    } else {
        WindowStep::Close
    }
}

/// The readings of one window, grouped by sensor in the order the sensors
/// first appeared.
pub struct WindowBook<V> {
    entries: Vec<(String, Vec<V>)>,
}

impl<V> WindowBook<V> {
    /// The sensors and their readings, in the order the sensors first
    /// appeared.
    pub closed spec fn windows(&self) -> Windows<V> {
        self.entries@.map_values(|e: (String, Vec<V>)| (e.0@, e.1@))
    }

    /// The book is well formed: no sensor has two entries.
    pub closed spec fn wf(&self) -> bool {
        distinct_ids(self.windows())
    }

    /// An empty book.
    pub fn new() -> (r: Self)
        ensures
            r.wf(),
            r.windows() == Seq::<(Seq<char>, Seq<V>)>::empty(),
    {
        let r = WindowBook { entries: Vec::new() };
        assert(r.windows() =~= Seq::<(Seq<char>, Seq<V>)>::empty());
        r
    }

    /// Adds a reading of sensor `sensor_id`.
    pub fn add(&mut self, sensor_id: String, value: V)
        requires
            old(self).wf(),
        ensures
            final(self).wf(),
            final(self).windows() == added(old(self).windows(), sensor_id@, value),
    {
        let ghost w = self.windows();
        let n = self.entries.len();
        let mut i: usize = 0;
        while i < n
            invariant
                n == self.entries@.len(),
                w == self.windows(),
                w == old(self).windows(),
                distinct_ids(w),
                i <= n,
                forall|j: int| 0 <= j < i ==> (#[trigger] w[j]).0 != sensor_id@,
            decreases n - i,
        {
            if self.entries[i].0 == sensor_id {
                assert(w[i as int].0 == sensor_id@);
                assert(has_id(w, sensor_id@));
                assert(position_of(w, sensor_id@) == i) by {
                    let p = position_of(w, sensor_id@);
                    assert(w[p].0 == sensor_id@);
                }
                self.entries[i].1.push(value);
                assert(self.windows() =~= added(w, sensor_id@, value));
                proof {
                    lemma_added_as_map(w, sensor_id@, value);
                }
                return;
            }
            i = i + 1;
        }
        assert(!has_id(w, sensor_id@));
        let mut readings: Vec<V> = Vec::new();
        readings.push(value);
        self.entries.push((sensor_id, readings));
        assert(self.windows() =~= added(w, sensor_id@, value));
        proof {
            lemma_added_as_map(w, sensor_id@, value);
        }
    }

    /// Whether no reading has been added.
    pub fn is_empty(&self) -> (r: bool)
        ensures
            r == (self.windows().len() == 0),
    {
        self.entries.len() == 0
    }

    /// The sensors and their readings, in the order the sensors first
    /// appeared.
    pub fn into_entries(self) -> (r: Vec<(String, Vec<V>)>)
        ensures
            r@.map_values(|e: (String, Vec<V>)| (e.0@, e.1@)) == self.windows(),
    {
        self.entries
    }
}

} // verus!
