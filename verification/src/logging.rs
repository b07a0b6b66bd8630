//! Diagnostics kept in memory for the user to inspect, and the filter that
//! the log configuration selects.

use std::collections::VecDeque;
use vstd::prelude::*;
use vstd::string::*;

verus! {

/// The name of the app feature a build enables: desktop before mobile before
/// web, and "unknown" when it enables none of them.
pub fn feature_name(desktop: bool, mobile: bool, web: bool) -> (r: &'static str)
    ensures
        r@ == (if desktop {
            "desktop"@
        } else if mobile {
            "mobile"@
        } else if web {
            "web"@
        } else {
            "unknown"@
        }),
{
    if desktop {
        "desktop"
    } else if mobile {
        "mobile"
    } else if web {
        "web"
    } else {
        "unknown"
    }
}

/// A short name for the platform a build runs on: "wasm32" for WebAssembly,
/// otherwise its operating system when that is Windows, macOS or Linux, and
/// "unknown" for any other.
pub fn target_name(wasm32: bool, windows: bool, macos: bool, linux: bool) -> (r: &'static str)
    ensures
        r@ == (if wasm32 {
            "wasm32"@
        } else if windows {
            "windows"@
        } else if macos {
            "macos"@
        } else if linux {
            "linux"@
        } else {
            "unknown"@
        }),
{
    if wasm32 {
        "wasm32"
    } else if windows {
        "windows"
    } else if macos {
        "macos"
    } else if linux {
        "linux"
    } else {
        "unknown"
    }
}

broadcast use vstd::std_specs::vecdeque::group_vec_dequeue_axioms;

/// How many diagnostic entries are kept unless the configuration says otherwise.
pub const DEFAULT_DIAGNOSTIC_CAPACITY: usize = 1000;

/// The abstract content of a diagnostic entry.
pub ghost struct DiagnosticModel {
    pub timestamp_unix_secs: u64,
    pub level: Seq<char>,
    pub target: Seq<char>,
    pub message: Seq<char>,
}

/// A single in-memory diagnostic entry captured for later inspection.
#[derive(Clone, Debug, PartialEq, Eq)]
pub struct DiagnosticEntry {
    /// Unix timestamp in seconds when the entry was recorded.
    pub timestamp_unix_secs: u64,
    /// The log level's name (such as "INFO" or "ERROR").
    pub level: String,
    /// The log target, typically the module path.
    pub target: String,
    /// The message.
    pub message: String,
}

impl View for DiagnosticEntry {
    type V = DiagnosticModel;

    open spec fn view(&self) -> DiagnosticModel {
        DiagnosticModel {
            timestamp_unix_secs: self.timestamp_unix_secs,
            level: self.level@,
            target: self.target@,
            message: self.message@,
        }
    }
}

impl DiagnosticEntry {
    /// A copy of the entry.
    pub fn duplicate(&self) -> (r: DiagnosticEntry)
        ensures
            r@ == self@,
    {
        DiagnosticEntry {
            timestamp_unix_secs: self.timestamp_unix_secs,
            level: self.level.clone(),
            target: self.target.clone(),
            message: self.message.clone(),
        }
    }
}

/// The views of a list of entries.
pub open spec fn entry_models(s: Seq<DiagnosticEntry>) -> Seq<DiagnosticModel> {
    s.map_values(|e: DiagnosticEntry| e@)
}

/// `s` without its oldest entries beyond the last `capacity`.
pub open spec fn keep_last<T>(s: Seq<T>, capacity: nat) -> Seq<T> {
    if s.len() > capacity {
        s.skip(s.len() - capacity)
    } else {
        s
    }
}

/// The in-memory ring buffer of diagnostics: when full, recording drops the
/// oldest entry.
pub struct DiagnosticsBuffer {
    entries: VecDeque<DiagnosticEntry>,
    capacity: usize,
}

impl DiagnosticsBuffer {
    /// The entries, oldest first.
    pub closed spec fn entries(&self) -> Seq<DiagnosticModel> {
        entry_models(self.entries@)
    }

    /// How many entries the buffer keeps.
    pub closed spec fn capacity(&self) -> nat {
        self.capacity as nat
    }

    /// An empty buffer keeping the default number of entries.
    pub fn new() -> (r: DiagnosticsBuffer)
        ensures
            r.entries() == Seq::<DiagnosticModel>::empty(),
            r.capacity() == DEFAULT_DIAGNOSTIC_CAPACITY,
    {
        let b = DiagnosticsBuffer {
            entries: VecDeque::with_capacity(DEFAULT_DIAGNOSTIC_CAPACITY),
            capacity: DEFAULT_DIAGNOSTIC_CAPACITY,
        };
        assert(b.entries() =~= Seq::<DiagnosticModel>::empty());
        b
    }

    /// The number of entries the buffer keeps.
    pub fn capacity_limit(&self) -> (r: usize)
        ensures
            r == self.capacity(),
    {
        self.capacity
    }

    /// Changes how many entries the buffer keeps; entries already held stay.
    pub fn set_capacity(&mut self, capacity: usize)
        ensures
            final(self).capacity() == capacity,
            final(self).entries() == old(self).entries(),
    {
        self.capacity = capacity;
    }

    /// Records an entry; when the buffer holds as many entries as it keeps, the
    /// oldest goes first.
    pub fn record_diagnostic(&mut self, entry: DiagnosticEntry)
        ensures
            final(self).capacity() == old(self).capacity(),
            final(self).entries() == after_record(old(self).entries(), old(self).capacity(), entry@),
    {
        let ghost before = self.entries@;
        if self.entries.len() >= self.capacity {
            let _ = self.entries.pop_front();
        }
        let ghost mid = self.entries@;
        self.entries.push_back(entry);
        proof {
            assert(entry_models(self.entries@) =~= entry_models(mid).push(entry@));
            if before.len() >= self.capacity && before.len() > 0 {
                assert(entry_models(mid) =~= entry_models(before).drop_first());
            }
        }
    }

    /// A copy of the entries, oldest first.
    pub fn diagnostics_snapshot(&self) -> (r: Vec<DiagnosticEntry>)
        ensures
            entry_models(r@) == self.entries(),
    {
        let mut r: Vec<DiagnosticEntry> = Vec::new();
        let mut i: usize = 0;
        while i < self.entries.len()
            invariant
                i <= self.entries@.len(),
                entry_models(r@) == entry_models(self.entries@.take(i as int)),
            decreases self.entries@.len() - i,
        {
            let e = self.entries[i].duplicate();
            let ghost before = r@;
            r.push(e);
            assert(entry_models(r@) =~= entry_models(before).push(e@));
            assert(entry_models(self.entries@.take(i + 1)) =~= entry_models(
                self.entries@.take(i as int),
            ).push(self.entries@[i as int]@));
            i = i + 1;
        }
        assert(self.entries@.take(self.entries@.len() as int) =~= self.entries@);
        r
    }
}

/// The entries after recording `entry`: when the buffer holds as many entries
/// as it keeps, the oldest goes first.
pub open spec fn after_record(
    entries: Seq<DiagnosticModel>,
    capacity: nat,
    entry: DiagnosticModel,
) -> Seq<DiagnosticModel> {
    if entries.len() >= capacity && entries.len() > 0 {
        entries.drop_first().push(entry)
    } else {
        entries.push(entry)
    }
}

/// Recording entries one after another into a buffer that keeps at least one
/// and holds no more than it keeps leaves the latest of everything recorded,
/// as many as it keeps: `states[i]` is the buffer before the `i`-th recording.
pub proof fn lemma_ring_buffer_keeps_latest_of_all(
    capacity: nat,
    recorded: Seq<DiagnosticModel>,
    states: Seq<Seq<DiagnosticModel>>,
)
    requires
        capacity >= 1,
        states.len() == recorded.len() + 1,
        states[0].len() <= capacity,
        forall|i: int|
            0 <= i < recorded.len() ==> states[i + 1] == after_record(
                #[trigger] states[i],
                capacity,
                recorded[i],
            ),
    ensures
        states.last() == keep_last(states[0] + recorded, capacity),
        states.last().len() <= capacity,
    decreases recorded.len(),
{
    if recorded.len() == 0 {
        assert(states[0] + recorded =~= states[0]);
    } else {
        let n = recorded.len() - 1;
        let init_rec = recorded.take(n);
        let init_states = states.take(n + 1);
        assert forall|i: int| 0 <= i < init_rec.len() implies init_states[i + 1] == after_record(
            #[trigger] init_states[i],
            capacity,
            init_rec[i],
        ) by {
            assert(init_states[i] == states[i]);
            assert(states[i + 1] == after_record(states[i], capacity, recorded[i]));
        }
        lemma_ring_buffer_keeps_latest_of_all(capacity, init_rec, init_states);
        let prev = states[n];
        assert(init_states.last() == prev);
        let all = states[0] + init_rec;
        assert(states[n + 1] == after_record(states[n], capacity, recorded[n]));
        lemma_ring_buffer_keeps_latest(prev, capacity, recorded[n], states[n + 1]);
        assert(states[0] + recorded =~= all.push(recorded[n]));
        if all.len() > capacity {
            assert(keep_last(all, capacity).push(recorded[n]) =~= all.push(recorded[n]).skip(
                all.len() - capacity,
            ));
        } else {
            assert(keep_last(all, capacity) == all);
        }
    }
}

/// A buffer that holds no more entries than it keeps, and keeps at least one,
/// holds after each recording the latest entries, as many as it keeps.
pub proof fn lemma_ring_buffer_keeps_latest(
    before: Seq<DiagnosticModel>,
    capacity: nat,
    entry: DiagnosticModel,
    after: Seq<DiagnosticModel>,
)
    requires
        capacity >= 1,
        before.len() <= capacity,
        after == after_record(before, capacity, entry),
    ensures
        after == keep_last(before.push(entry), capacity),
        after.len() <= capacity,
        after.last() == entry,
{
    if before.len() >= capacity {
        assert(before.drop_first().push(entry) =~= before.push(entry).skip(1));
    }
}

/// The text of a filter: the global level, then each override as
/// `,module=level`.
pub open spec fn filter_text(global: Seq<char>, overrides: Seq<(Seq<char>, Seq<char>)>) -> Seq<
    char,
>
    decreases overrides.len(),
{
    if overrides.len() == 0 {
        global
    } else {
        filter_text(global, overrides.drop_last()) + ","@ + overrides.last().0 + "="@
            + overrides.last().1
    }
}

/// The filter of no overrides is the global level alone, and the filter of one
/// override is the global level, then `,module=level`.
pub proof fn lemma_filter_text_base(global: Seq<char>, o: (Seq<char>, Seq<char>))
    ensures
        filter_text(global, Seq::empty()) == global,
        filter_text(global, seq![o]) == global + ","@ + o.0 + "="@ + o.1,
{
    assert(seq![o].drop_last() =~= Seq::<(Seq<char>, Seq<char>)>::empty());
    assert(filter_text(global, seq![o].drop_last()) == global);
    assert(seq![o].last() == o);
}

/// Writing the overrides `a` and then the overrides `b` gives the filter of
/// `a + b`: every override is written, in order, none dropped.
pub proof fn lemma_filter_text_concat(
    global: Seq<char>,
    a: Seq<(Seq<char>, Seq<char>)>,
    b: Seq<(Seq<char>, Seq<char>)>,
)
    ensures
        filter_text(global, a + b) == filter_text(filter_text(global, a), b),
    decreases b.len(),
{
    if b.len() == 0 {
        assert(a + b =~= a);
    } else {
        assert((a + b).drop_last() =~= a + b.drop_last());
        assert((a + b).last() == b.last());
        lemma_filter_text_concat(global, a, b.drop_last());
    }
}

/// The filter starts with the global level, and each override `(module,
/// level)` is written as `,module=level` right after the filter of the
/// overrides before it.
pub proof fn lemma_filter_text_entries(global: Seq<char>, o: Seq<(Seq<char>, Seq<char>)>, i: int)
    requires
        0 <= i < o.len(),
    ensures
        filter_text(global, o).take(global.len() as int) == global,
        filter_text(global, o).subrange(
            filter_text(global, o.take(i)).len() as int,
            filter_text(global, o.take(i + 1)).len() as int,
        ) == ","@ + o[i].0 + "="@ + o[i].1,
        filter_text(global, o.take(i + 1)).len() == filter_text(global, o.take(i)).len() + 2
            + o[i].0.len() + o[i].1.len(),
{
    reveal_strlit(",");
    reveal_strlit("=");
    lemma_filter_text_prefix(global, o);
    let before = filter_text(global, o.take(i));
    let upto = filter_text(global, o.take(i + 1));
    assert(o.take(i + 1).drop_last() =~= o.take(i));
    assert(upto == before + ","@ + o[i].0 + "="@ + o[i].1);
    assert(o =~= o.take(i + 1) + o.skip(i + 1));
    lemma_filter_text_concat(global, o.take(i + 1), o.skip(i + 1));
    lemma_filter_text_prefix(upto, o.skip(i + 1));
    let all = filter_text(global, o);
    assert(all.take(upto.len() as int) == upto);
    assert(all.subrange(before.len() as int, upto.len() as int) =~= upto.subrange(
        before.len() as int,
        upto.len() as int,
    ));
    assert(upto.subrange(before.len() as int, upto.len() as int) =~= ","@ + o[i].0 + "="@
        + o[i].1);
}

/// The filter of some overrides begins with the text it started from.
proof fn lemma_filter_text_prefix(global: Seq<char>, o: Seq<(Seq<char>, Seq<char>)>)
    ensures
        filter_text(global, o).len() >= global.len(),
        filter_text(global, o).take(global.len() as int) == global,
    decreases o.len(),
{
    if o.len() > 0 {
        lemma_filter_text_prefix(global, o.drop_last());
        let f = filter_text(global, o.drop_last());
        assert(filter_text(global, o).take(f.len() as int) =~= f);
        assert(filter_text(global, o).take(global.len() as int) =~= f.take(global.len() as int));
    } else {
        assert(global.take(global.len() as int) =~= global);
    }
}

/// The views of a list of module overrides.
pub open spec fn override_models(o: Seq<(String, String)>) -> Seq<(Seq<char>, Seq<char>)> {
    o.map_values(|p: (String, String)| (p.0@, p.1@))
}

/// No module occurs twice among the overrides.
pub open spec fn modules_distinct(o: Seq<(Seq<char>, Seq<char>)>) -> bool {
    forall|i: int, j: int| 0 <= i < j < o.len() ==> (#[trigger] o[i]).0 != (#[trigger] o[j]).0
}

/// The overrides with the level of `module` set to `level`: its entry replaced
/// where the module has one, a new entry at the end otherwise.
pub open spec fn with_override(
    o: Seq<(Seq<char>, Seq<char>)>,
    module: Seq<char>,
    level: Seq<char>,
) -> Seq<(Seq<char>, Seq<char>)> {
    if exists|i: int| 0 <= i < o.len() && (#[trigger] o[i]).0 == module {
        let i = choose|i: int| 0 <= i < o.len() && (#[trigger] o[i]).0 == module;
        o.update(i, (module, level))
    } else {
        o.push((module, level))
    }
}

/// Log levels by module, each module at most once, in the order they were set.
#[derive(Debug)]
pub struct LevelOverrides {
    pairs: Vec<(String, String)>,
}

impl View for LevelOverrides {
    type V = Seq<(Seq<char>, Seq<char>)>;

    closed spec fn view(&self) -> Seq<(Seq<char>, Seq<char>)> {
        override_models(self.pairs@)
    }
}

impl LevelOverrides {
    #[verifier::type_invariant]
    spec fn modules_once(self) -> bool {
        modules_distinct(override_models(self.pairs@))
    }

    /// No overrides.
    pub fn new() -> (r: LevelOverrides)
        ensures
            r@ == Seq::<(Seq<char>, Seq<char>)>::empty(),
    {
        let r = LevelOverrides { pairs: Vec::new() };
        assert(override_models(r.pairs@) =~= Seq::<(Seq<char>, Seq<char>)>::empty());
        r
    }

    /// Sets the level of `module`, replacing the level it had.
    pub fn set(&mut self, module: String, level: String)
        ensures
            final(self)@ == with_override(old(self)@, module@, level@),
            modules_distinct(final(self)@),
    {
        proof {
            use_type_invariant(&*self);
        }
        let ghost o = self@;
        let n = self.pairs.len();
        let mut i: usize = 0;
        while i < n
            invariant
                n == self.pairs@.len(),
                o == override_models(self.pairs@),
                o == old(self)@,
                modules_distinct(o),
                i <= n,
                forall|j: int| 0 <= j < i ==> o[j].0 != module@,
            decreases n - i,
        {
            assert(o[i as int] == (self.pairs@[i as int].0@, self.pairs@[i as int].1@));
            if crate::text::texts_equal(self.pairs[i].0.as_str(), module.as_str()) {
                proof {
                    assert(o[i as int].0 == module@);
                    let c = choose|c: int| 0 <= c < o.len() && (#[trigger] o[c]).0 == module@;
                    assert(c == i) by {
                        if c < i {
                        } else if c > i {
                            assert(o[i as int].0 != o[c].0);
                        }
                    }
                }
                let mut pairs: Vec<(String, String)> = Vec::new();
                std::mem::swap(&mut pairs, &mut self.pairs);
                let ghost m = module@;
                let ghost l = level@;
                pairs.set(i, (module, level));
                proof {
                    assert(override_models(pairs@) =~= o.update(i as int, (m, l)));
                    assert(with_override(o, m, l) == o.update(i as int, (m, l)));
                }
                self.pairs = pairs;
                return;
            }
            i = i + 1;
        }
        let mut pairs: Vec<(String, String)> = Vec::new();
        std::mem::swap(&mut pairs, &mut self.pairs);
        let ghost m = module@;
        let ghost l = level@;
        pairs.push((module, level));
        proof {
            assert(override_models(pairs@) =~= o.push((m, l)));
            assert(!(exists|j: int| 0 <= j < o.len() && (#[trigger] o[j]).0 == m));
        }
        self.pairs = pairs;
    }

    /// The overrides, in the order they were set.
    pub fn entries(&self) -> (r: &Vec<(String, String)>)
        ensures
            override_models(r@) == self@,
            modules_distinct(self@),
    {
        proof {
            use_type_invariant(self);
        }
        &self.pairs
    }
}

impl Clone for LevelOverrides {
    /// The same overrides.
    fn clone(&self) -> (r: Self)
        ensures
            r@ == self@,
    {
        proof {
            use_type_invariant(self);
        }
        let mut pairs: Vec<(String, String)> = Vec::new();
        let mut i: usize = 0;
        while i < self.pairs.len()
            invariant
                i <= self.pairs@.len(),
                override_models(pairs@) == override_models(self.pairs@.take(i as int)),
            decreases self.pairs@.len() - i,
        {
            let m = self.pairs[i].0.clone();
            let l = self.pairs[i].1.clone();
            let ghost before = pairs@;
            pairs.push((m, l));
            proof {
                assert(override_models(pairs@) =~= override_models(before).push((m@, l@)));
                assert(override_models(self.pairs@.take(i + 1)) =~= override_models(
                    self.pairs@.take(i as int),
                ).push((self.pairs@[i as int].0@, self.pairs@[i as int].1@)));
            }
            i = i + 1;
        }
        assert(self.pairs@.take(self.pairs@.len() as int) =~= self.pairs@);
        LevelOverrides { pairs }
    }
}

/// Logging configuration: a global level, per-module overrides, and how many
/// diagnostics to keep.
#[derive(Clone, Debug, Default)]
pub struct LoggingConfig {
    /// Global log level (e.g., "info", "debug").
    pub global_level: Option<String>,
    /// Module-specific level overrides, in the order they were set.
    pub overrides: Option<LevelOverrides>,
    /// Max entries in the in-memory diagnostics buffer.
    pub max_buffer_capacity: Option<usize>,
}

impl LoggingConfig {
    /// The filter that the configuration selects: the global level ("info" by
    /// default), then each override as `,module=level`.
    pub fn to_filter_string(&self) -> (r: String)
        ensures
            r@ == filter_text(
                match self.global_level {
                    Some(g) => g@,
                    None => "info"@,
                },
                match self.overrides {
                    Some(o) => o@,
                    None => Seq::empty(),
                },
            ),
    {
        let mut filter = match &self.global_level {
            Some(g) => g.clone(),
            None => String::from_str("info"),
        };
        if let Some(o) = &self.overrides {
            let overrides = o.entries();
            let ghost global = filter@;
            let mut i: usize = 0;
            while i < overrides.len()
                invariant
                    i <= overrides@.len(),
                    filter@ == filter_text(global, override_models(overrides@.take(i as int))),
                decreases overrides@.len() - i,
            {
                let ghost before = filter@;
                filter.append(",");
                filter.append(overrides[i].0.as_str());
                filter.append("=");
                filter.append(overrides[i].1.as_str());
                proof {
                    let t = override_models(overrides@.take(i + 1));
                    assert(t.drop_last() =~= override_models(overrides@.take(i as int)));
                    assert(t.last() == (overrides@[i as int].0@, overrides@[i as int].1@));
                    assert(filter@ =~= before + ","@ + t.last().0 + "="@ + t.last().1);
                }
                i = i + 1;
            }
            assert(overrides@.take(overrides@.len() as int) =~= overrides@);
        }
        filter
    }
}

} // verus!
