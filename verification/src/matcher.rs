use vstd::prelude::*;

use crate::pattern::{spec_transition, table_wf, Pattern, State};

verus! {

/// Accounted bytes per state beyond its transition entries.
pub const STATE_BYTES: usize = 48;

/// Accounted bytes per transition entry.
pub const TRANSITION_BYTES: usize = 16;

/// Accounted bytes for one pattern cursor.
pub const CURSOR_BYTES: usize = 8;

/// Saturation at the machine word: memory accounting never overflows, it
/// tops out at `usize::MAX`.
pub open spec fn capped(x: int) -> int {
    if x <= usize::MAX as int {
        x
    } else {
        usize::MAX as int
    }
}

/// Accounted size of one state.
pub open spec fn state_bytes(s: State) -> int {
    STATE_BYTES + TRANSITION_BYTES * s.transitions@.len()
}

/// Accounted size of a state table.
pub open spec fn table_bytes(states: Seq<State>) -> int
    decreases states.len(),
{
    if states.len() == 0 {
        0
    } else {
        table_bytes(states.drop_last()) + state_bytes(states.last())
    }
}

/// Accounted size of one compiled pattern together with its cursor word.
pub open spec fn pattern_bytes(p: Pattern) -> int {
    table_bytes(p.states@) + CURSOR_BYTES
}

/// Accounted size of all registered patterns and cursors: the only memory a
/// matcher retains between feeds.
pub open spec fn automata_bytes(patterns: Seq<Pattern>) -> int
    decreases patterns.len(),
{
    if patterns.len() == 0 {
        0
    } else {
        automata_bytes(patterns.drop_last()) + pattern_bytes(patterns.last())
    }
}

proof fn lemma_table_bytes_nonneg(states: Seq<State>)
    ensures
        table_bytes(states) >= 0,
    decreases states.len(),
{
    if states.len() > 0 {
        lemma_table_bytes_nonneg(states.drop_last());
    }
}

proof fn lemma_automata_bytes_nonneg(patterns: Seq<Pattern>)
    ensures
        automata_bytes(patterns) >= 0,
    decreases patterns.len(),
{
    if patterns.len() > 0 {
        lemma_automata_bytes_nonneg(patterns.drop_last());
        lemma_table_bytes_nonneg(patterns.last().states@);
    }
}

proof fn lemma_capped_add(x: int, y: int)
    requires
        x >= 0,
        y >= 0,
    ensures
        capped(capped(x) + capped(y)) == capped(x + y),
{
}

/// Addition that tops out at `usize::MAX` instead of overflowing.
fn sat_add(a: usize, b: usize) -> (r: usize)
    ensures
        r as int == capped(a as int + b as int),
{
    if a > usize::MAX - b {
        usize::MAX
    } else {
        a + b
    }
}

/// Computes the accounted size of one pattern plus its cursor word,
/// saturating at the machine word.
fn pattern_cost(p: &Pattern) -> (r: usize)
    ensures
        r as int == capped(pattern_bytes(*p)),
{
    let mut acc: usize = 0;
    let n = p.states.len();
    let mut j: usize = 0;
    proof {
        assert(p.states@.take(0) =~= Seq::<State>::empty());
    }
    while j < n
        invariant
            j <= n,
            n == p.states@.len(),
            acc as int == capped(table_bytes(p.states@.take(j as int))),
        decreases n - j,
    {
        let t = p.states[j].transitions.len();
        let sb = if t > (usize::MAX - STATE_BYTES) / TRANSITION_BYTES {
            usize::MAX
        } else {
            STATE_BYTES + t * TRANSITION_BYTES
        };
        proof {
            assert(sb as int == capped(state_bytes(p.states@[j as int])));
            lemma_table_bytes_nonneg(p.states@.take(j as int));
            lemma_capped_add(
                table_bytes(p.states@.take(j as int)),
                state_bytes(p.states@[j as int]),
            );
            assert(p.states@.take(j + 1).drop_last() =~= p.states@.take(j as int));
            assert(p.states@.take(j + 1).last() == p.states@[j as int]);
        }
        acc = sat_add(acc, sb);
        j += 1;
    }
    proof {
        assert(p.states@.take(n as int) =~= p.states@);
        lemma_table_bytes_nonneg(p.states@);
    }
    sat_add(acc, CURSOR_BYTES)
}

/// The cursor reached from cursor `c` on byte `b`: an explicit transition if
/// one exists, else the failure chain is walked (retrying the same byte)
/// until a transition is found or the initial state is reached. The guard on
/// a non-decreasing failure target never fires on a well-formed table; it
/// only keeps the definition total.
pub open spec fn next_cursor(states: Seq<State>, c: int, b: u8) -> int
    decreases c,
{
    match spec_transition(states[c].transitions@, b) {
        Some(t) => t as int,
        None => {
            if c <= 0 || states[c].failure as int >= c {
                0
            } else {
                next_cursor(states, states[c].failure as int, b)
            }
        },
    }
}

proof fn lemma_spec_transition_target(tr: Seq<(u8, usize)>, b: u8, n: int)
    requires
        forall|k: int| 0 <= k < tr.len() ==> ((#[trigger] tr[k]).1 as int) < n,
        spec_transition(tr, b) is Some,
    ensures
        (spec_transition(tr, b).unwrap() as int) < n,
    decreases tr.len(),
{
    if tr.len() > 0 && tr.last().0 != b {
        assert(forall|k: int|
            0 <= k < tr.drop_last().len() ==> (#[trigger] tr.drop_last()[k]) == tr[k]);
        lemma_spec_transition_target(tr.drop_last(), b, n);
    }
}

/// On a well-formed table, `next_cursor` always lands on a valid state.
proof fn lemma_next_cursor_in_range(states: Seq<State>, c: int, b: u8)
    requires
        table_wf(states),
        0 <= c < states.len(),
    ensures
        0 <= next_cursor(states, c, b) < states.len(),
    decreases c,
{
    if spec_transition(states[c].transitions@, b) is Some {
        lemma_spec_transition_target(states[c].transitions@, b, states.len() as int);
    } else {
        if !(c <= 0 || states[c].failure as int >= c) {
            lemma_next_cursor_in_range(states, states[c].failure as int, b);
        }
    }
}

/// All cursors after one byte: every pattern advances independently.
pub open spec fn step_all(patterns: Seq<Pattern>, cursors: Seq<usize>, b: u8) -> Seq<usize> {
    Seq::new(
        cursors.len(),
        |i: int| next_cursor(patterns[i].states@, cursors[i] as int, b) as usize,
    )
}

/// The identifiers emitted for one byte by the patterns with index below
/// `i`, in pattern-registration order, given the cursors `stepped` reached
/// on that byte.
pub open spec fn byte_matches_upto(patterns: Seq<Pattern>, stepped: Seq<usize>, i: int) -> Seq<
    Seq<char>,
>
    decreases i,
{
    if i <= 0 {
        Seq::empty()
    } else {
        byte_matches_upto(patterns, stepped, i - 1) + if patterns[i - 1].states@[stepped[i
            - 1] as int].is_accepting {
            seq![patterns[i - 1].id@]
        } else {
            Seq::empty()
        }
    }
}

/// The identifiers emitted when one byte is fed to the given configuration.
pub open spec fn emitted_byte(patterns: Seq<Pattern>, cursors: Seq<usize>, b: u8) -> Seq<Seq<char>> {
    byte_matches_upto(patterns, step_all(patterns, cursors, b), patterns.len() as int)
}

/// All cursors after feeding a whole byte sequence.
pub open spec fn run_cursors(patterns: Seq<Pattern>, cursors: Seq<usize>, bytes: Seq<u8>) -> Seq<
    usize,
>
    decreases bytes.len(),
{
    if bytes.len() == 0 {
        cursors
    } else {
        run_cursors(patterns, step_all(patterns, cursors, bytes[0]), bytes.drop_first())
    }
}

/// The identifiers emitted while feeding a whole byte sequence, in
/// increasing byte-position order and, within one position, in
/// pattern-registration order.
pub open spec fn run_matches(patterns: Seq<Pattern>, cursors: Seq<usize>, bytes: Seq<u8>) -> Seq<
    Seq<char>,
>
    decreases bytes.len(),
{
    if bytes.len() == 0 {
        Seq::empty()
    } else {
        emitted_byte(patterns, cursors, bytes[0]) + run_matches(
            patterns,
            step_all(patterns, cursors, bytes[0]),
            bytes.drop_first(),
        )
    }
}

/// The match identifiers an observer log has received, as sequences of
/// characters.
pub open spec fn events_of(log: Vec<String>) -> Seq<Seq<char>> {
    log@.map_values(|s: String| s@)
}

/// Walks the failure chain for one pattern until the byte finds a
/// transition or the initial state is reached.
fn advance(pattern: &Pattern, c0: usize, byte: u8) -> (c: usize)
    requires
        pattern.wf(),
        (c0 as int) < pattern.states@.len(),
    ensures
        c as int == next_cursor(pattern.states@, c0 as int, byte),
        (c as int) < pattern.states@.len(),
{
    let mut c = c0;
    loop
        invariant_except_break
            (c as int) < pattern.states@.len(),
            pattern.wf(),
            next_cursor(pattern.states@, c as int, byte) == next_cursor(
                pattern.states@,
                c0 as int,
                byte,
            ),
        ensures
            (c as int) < pattern.states@.len(),
            c as int == next_cursor(pattern.states@, c0 as int, byte),
        decreases c,
    {
        match pattern.states[c].transition_for(byte) {
            Some(t) => {
                proof {
                    lemma_spec_transition_target(
                        pattern.states@[c as int].transitions@,
                        byte,
                        pattern.states@.len() as int,
                    );
                }
                c = t;
                break ;
            },
            None => {
                if c == 0 {
                    break ;
                }
                c = pattern.states[c].failure;
            },
        }
    }
    c
}

/// Runs any number of compiled patterns over one byte stream, keeping a
/// cursor per pattern between calls so that chunk boundaries are invisible
/// to match outcomes.
pub struct StreamMatcher {
    /// The registered patterns, in registration order.
    pub patterns: Vec<Pattern>,
    /// One current-state index per pattern, parallel to `patterns`.
    pub cursors: Vec<usize>,
    /// One event log per registered observer: the identifiers of the matches
    /// delivered to it, in delivery order.
    pub observers: Vec<Vec<String>>,
    /// Accounted bytes retained between feeds, kept in step with the
    /// registered patterns.
    pub memory_bytes: usize,
}

impl StreamMatcher {
    /// The invariant every matcher satisfies: a cursor per pattern, each a
    /// valid state index of its pattern, and truthful memory accounting.
    pub open spec fn wf(self) -> bool {
        &&& self.cursors@.len() == self.patterns@.len()
        &&& forall|i: int| 0 <= i < self.patterns@.len() ==> (#[trigger] self.patterns@[i]).wf()
        &&& forall|i: int|
            0 <= i < self.cursors@.len() ==> (#[trigger] self.cursors@[i] as int)
                < self.patterns@[i].states@.len()
        &&& self.memory_bytes as int == capped(automata_bytes(self.patterns@))
    }

    /// Creates an empty matcher: no patterns, no observers.
    pub fn new() -> (m: StreamMatcher)
        ensures
            m.wf(),
            m.patterns@.len() == 0,
            m.cursors@.len() == 0,
            m.observers@.len() == 0,
    {
        StreamMatcher {
            patterns: Vec::new(),
            cursors: Vec::new(),
            observers: Vec::new(),
            memory_bytes: 0,
        }
    }

    /// Registers a pattern and a fresh cursor at its initial state. The
    /// pattern is compiled already, so this is the only point where the
    /// accounted memory grows.
    pub fn add_pattern(&mut self, pattern: Pattern)
        requires
            old(self).wf(),
            pattern.wf(),
        ensures
            final(self).wf(),
            final(self).patterns@ == old(self).patterns@.push(pattern),
            final(self).cursors@ == old(self).cursors@.push(pattern.initial_state),
            final(self).observers@ == old(self).observers@,
    {
        let cost = pattern_cost(&pattern);
        let start = pattern.initial_state;
        self.cursors.push(start);
        self.patterns.push(pattern);
        proof {
            lemma_automata_bytes_nonneg(old(self).patterns@);
            lemma_table_bytes_nonneg(self.patterns@.last().states@);
            lemma_capped_add(
                automata_bytes(old(self).patterns@),
                pattern_bytes(self.patterns@.last()),
            );
            assert(self.patterns@.drop_last() =~= old(self).patterns@);
        }
        self.memory_bytes = sat_add(self.memory_bytes, cost);
    }

    /// Registers a new observer with an empty event log and returns its
    /// index. Every match raised from then on is delivered to it, in
    /// registration order relative to the other observers.
    pub fn add_callback(&mut self) -> (idx: usize)
        requires
            old(self).wf(),
        ensures
            final(self).wf(),
            idx == old(self).observers@.len(),
            final(self).observers@.len() == old(self).observers@.len() + 1,
            forall|k: int|
                0 <= k < old(self).observers@.len() ==> final(self).observers@[k] == old(
                    self,
                ).observers@[k],
            final(self).observers@[idx as int]@.len() == 0,
            final(self).patterns@ == old(self).patterns@,
            final(self).cursors@ == old(self).cursors@,
    {
        let idx = self.observers.len();
        self.observers.push(Vec::new());
        idx
    }

    /// The event log of the observer registered as `idx`: every match
    /// identifier delivered to it so far, in delivery order.
    pub fn observer_events(&self, idx: usize) -> (log: &Vec<String>)
        requires
            idx < self.observers@.len(),
        ensures
            *log == self.observers@[idx as int],
    {
        &self.observers[idx]
    }

    /// Reports the accounted bytes retained between feeds: the compiled
    /// automata plus one cursor word per pattern. Feeding bytes never
    /// changes it.
    pub fn memory_usage(&self) -> (r: usize)
        requires
            self.wf(),
        ensures
            r as int == capped(automata_bytes(self.patterns@)),
    {
        self.memory_bytes
    }

    /// Feeds one byte: every cursor advances (walking its failure chain if
    /// needed), and every observer receives, synchronously and in
    /// registration order, the identifier of every pattern whose cursor
    /// landed on an accepting state.
    pub fn process_byte(&mut self, byte: u8)
        requires
            old(self).wf(),
        ensures
            final(self).wf(),
            final(self).patterns@ == old(self).patterns@,
            final(self).memory_bytes == old(self).memory_bytes,
            final(self).cursors@ == step_all(old(self).patterns@, old(self).cursors@, byte),
            final(self).observers@.len() == old(self).observers@.len(),
            forall|k: int|
                0 <= k < old(self).observers@.len() ==> events_of(
                    #[trigger] final(self).observers@[k],
                ) == events_of(old(self).observers@[k]) + emitted_byte(
                    old(self).patterns@,
                    old(self).cursors@,
                    byte,
                ),
    {
        let ghost stepped = step_all(old(self).patterns@, old(self).cursors@, byte);
        let n = self.patterns.len();
        let mut i: usize = 0;
        while i < n
            invariant
                i <= n,
                n == self.patterns@.len(),
                self.wf(),
                self.patterns@ == old(self).patterns@,
                self.memory_bytes == old(self).memory_bytes,
                self.cursors@.len() == n,
                stepped == step_all(old(self).patterns@, old(self).cursors@, byte),
                stepped.len() == n,
                forall|t: int| 0 <= t < i ==> (#[trigger] self.cursors@[t]) == stepped[t],
                forall|t: int|
                    i <= t < n ==> (#[trigger] self.cursors@[t]) == old(self).cursors@[t],
                self.observers@.len() == old(self).observers@.len(),
                forall|k: int|
                    0 <= k < self.observers@.len() ==> events_of(#[trigger] self.observers@[k])
                        == events_of(old(self).observers@[k]) + byte_matches_upto(
                        old(self).patterns@,
                        stepped,
                        i as int,
                    ),
            decreases n - i,
        {
            let c0 = self.cursors[i];
            let nc = advance(&self.patterns[i], c0, byte);
            self.cursors[i] = nc;
            proof {
                assert(c0 == old(self).cursors@[i as int]);
                assert(stepped[i as int] == next_cursor(
                    old(self).patterns@[i as int].states@,
                    old(self).cursors@[i as int] as int,
                    byte,
                ) as usize);
                assert(nc == stepped[i as int]);
            }
            let ghost pre_obs = self.observers@;
            let ghost cur_snap = self.cursors@;
            let accepting = self.patterns[i].states[nc].is_accepting;
            if accepting {
                let nobs = self.observers.len();
                let mut k: usize = 0;
                while k < nobs
                    invariant
                        k <= nobs,
                        nobs == self.observers@.len(),
                        nobs == pre_obs.len(),
                        i < n,
                        n == self.patterns@.len(),
                        self.patterns@ == old(self).patterns@,
                        self.cursors@ == cur_snap,
                        self.memory_bytes == old(self).memory_bytes,
                        forall|t: int|
                            0 <= t < k ==> events_of(#[trigger] self.observers@[t]) == events_of(
                                pre_obs[t],
                            ).push(self.patterns@[i as int].id@),
                        forall|t: int|
                            k <= t < nobs ==> (#[trigger] self.observers@[t]) == pre_obs[t],
                    decreases nobs - k,
                {
                    let id = self.patterns[i].id.clone();
                    self.observers[k].push(id);
                    proof {
                        assert(events_of(self.observers@[k as int]) =~= events_of(
                            pre_obs[k as int],
                        ).push(self.patterns@[i as int].id@));
                    }
                    k += 1;
                }
            }
            proof {
                assert forall|k: int| 0 <= k < self.observers@.len() implies events_of(
                    #[trigger] self.observers@[k],
                ) == events_of(old(self).observers@[k]) + byte_matches_upto(
                    old(self).patterns@,
                    stepped,
                    i as int + 1,
                ) by {
                    let base = events_of(old(self).observers@[k]);
                    let upto = byte_matches_upto(old(self).patterns@, stepped, i as int);
                    if self.patterns@[i as int].states@[stepped[i as int] as int].is_accepting {
                        assert(events_of(self.observers@[k]) == events_of(pre_obs[k]).push(
                            self.patterns@[i as int].id@,
                        ));
                        assert((base + upto).push(self.patterns@[i as int].id@) =~= base + (
                        upto + seq![self.patterns@[i as int].id@]));
                    } else {
                        assert(base + upto =~= base + (upto + Seq::<Seq<char>>::empty()));
                    }
                }
            }
            i += 1;
        }
        proof {
            assert(final(self).cursors@ =~= stepped);
            assert(byte_matches_upto(old(self).patterns@, stepped, n as int) == emitted_byte(
                old(self).patterns@,
                old(self).cursors@,
                byte,
            ));
        }
    }

    /// Feeds a chunk: one `process_byte` per byte, in order, with no
    /// reordering and no batching. Cursors carry over from the previous
    /// call, so partitioning a stream into chunks cannot change the match
    /// events it produces.
    pub fn process_chunk(&mut self, data: &[u8])
        requires
            old(self).wf(),
        ensures
            final(self).wf(),
            final(self).patterns@ == old(self).patterns@,
            final(self).memory_bytes == old(self).memory_bytes,
            final(self).cursors@ == run_cursors(old(self).patterns@, old(self).cursors@, data@),
            final(self).observers@.len() == old(self).observers@.len(),
            forall|k: int|
                0 <= k < old(self).observers@.len() ==> events_of(
                    #[trigger] final(self).observers@[k],
                ) == events_of(old(self).observers@[k]) + run_matches(
                    old(self).patterns@,
                    old(self).cursors@,
                    data@,
                ),
    {
        let len = data.len();
        let mut p: usize = 0;
        proof {
            assert(data@.take(0) =~= Seq::<u8>::empty());
        }
        while p < len
            invariant
                p <= len,
                len == data@.len(),
                self.wf(),
                self.patterns@ == old(self).patterns@,
                self.memory_bytes == old(self).memory_bytes,
                self.cursors@ == run_cursors(old(self).patterns@, old(self).cursors@, data@.take(
                    p as int,
                )),
                self.observers@.len() == old(self).observers@.len(),
                forall|k: int|
                    0 <= k < self.observers@.len() ==> events_of(#[trigger] self.observers@[k])
                        == events_of(old(self).observers@[k]) + run_matches(
                        old(self).patterns@,
                        old(self).cursors@,
                        data@.take(p as int),
                    ),
            decreases len - p,
        {
            let ghost pre = data@.take(p as int);
            let b = data[p];
            self.process_byte(b);
            p += 1;
            proof {
                assert(data@.take(p as int) =~= pre + seq![b]);
                lemma_run_append_byte(old(self).patterns@, old(self).cursors@, pre, b);
                assert forall|k: int| 0 <= k < self.observers@.len() implies events_of(
                    #[trigger] self.observers@[k],
                ) == events_of(old(self).observers@[k]) + run_matches(
                    old(self).patterns@,
                    old(self).cursors@,
                    data@.take(p as int),
                ) by {
                    let base = events_of(old(self).observers@[k]);
                    let before = run_matches(old(self).patterns@, old(self).cursors@, pre);
                    let step = emitted_byte(
                        old(self).patterns@,
                        run_cursors(old(self).patterns@, old(self).cursors@, pre),
                        b,
                    );
                    assert((base + before) + step =~= base + (before + step));
                }
            }
        }
        proof {
            assert(data@.take(len as int) =~= data@);
        }
    }
}

/// Feeding `bytes + [b]` is feeding `bytes`, then feeding `b` from the
/// cursors reached.
proof fn lemma_run_append_byte(patterns: Seq<Pattern>, cursors: Seq<usize>, bytes: Seq<u8>, b: u8)
    ensures
        run_cursors(patterns, cursors, bytes + seq![b]) == step_all(
            patterns,
            run_cursors(patterns, cursors, bytes),
            b,
        ),
        run_matches(patterns, cursors, bytes + seq![b]) == run_matches(patterns, cursors, bytes)
            + emitted_byte(patterns, run_cursors(patterns, cursors, bytes), b),
    decreases bytes.len(),
{
    let whole = bytes + seq![b];
    if bytes.len() == 0 {
        assert(whole[0] == b);
        assert(whole.drop_first() =~= Seq::<u8>::empty());
        let stepped0 = step_all(patterns, cursors, b);
        assert(run_cursors(patterns, cursors, whole) == run_cursors(
            patterns,
            stepped0,
            Seq::<u8>::empty(),
        ));
        assert(run_cursors(patterns, stepped0, Seq::<u8>::empty()) == stepped0);
        assert(run_cursors(patterns, cursors, bytes) == cursors);
        assert(run_matches(patterns, cursors, whole) == emitted_byte(patterns, cursors, b)
            + run_matches(patterns, stepped0, Seq::<u8>::empty()));
        assert(run_matches(patterns, stepped0, Seq::<u8>::empty()) == Seq::<Seq<char>>::empty());
        assert(run_matches(patterns, cursors, bytes) == Seq::<Seq<char>>::empty());
        assert(emitted_byte(patterns, cursors, b) + Seq::<Seq<char>>::empty() =~= Seq::<
            Seq<char>,
        >::empty() + emitted_byte(patterns, cursors, b));
    } else {
        let s0 = step_all(patterns, cursors, bytes[0]);
        assert(whole[0] == bytes[0]);
        assert(whole.drop_first() =~= bytes.drop_first() + seq![b]);
        lemma_run_append_byte(patterns, s0, bytes.drop_first(), b);
        assert(run_cursors(patterns, cursors, whole) == run_cursors(
            patterns,
            s0,
            whole.drop_first(),
        ));
        assert(run_cursors(patterns, cursors, bytes) == run_cursors(
            patterns,
            s0,
            bytes.drop_first(),
        ));
        assert(run_matches(patterns, cursors, whole) == emitted_byte(patterns, cursors, bytes[0])
            + run_matches(patterns, s0, whole.drop_first()));
        assert(run_matches(patterns, cursors, bytes) == emitted_byte(patterns, cursors, bytes[0])
            + run_matches(patterns, s0, bytes.drop_first()));
        assert((emitted_byte(patterns, cursors, bytes[0]) + run_matches(
            patterns,
            s0,
            bytes.drop_first(),
        )) + emitted_byte(patterns, run_cursors(patterns, cursors, bytes), b) =~= emitted_byte(
            patterns,
            cursors,
            bytes[0],
        ) + (run_matches(patterns, s0, bytes.drop_first()) + emitted_byte(
            patterns,
            run_cursors(patterns, cursors, bytes),
            b,
        )));
    }
}

/// Chunk-boundary invariance: feeding `first + second` yields exactly the
/// cursors and the match-event sequence of feeding `first` and then feeding
/// `second` from the cursors reached. Applied inductively, feeding a stream
/// under any partition into chunks produces the same events, in the same
/// order, as feeding it as one chunk.
pub proof fn lemma_chunk_boundary_invariance(
    patterns: Seq<Pattern>,
    cursors: Seq<usize>,
    first: Seq<u8>,
    second: Seq<u8>,
)
    ensures
        run_cursors(patterns, cursors, first + second) == run_cursors(
            patterns,
            run_cursors(patterns, cursors, first),
            second,
        ),
        run_matches(patterns, cursors, first + second) == run_matches(patterns, cursors, first)
            + run_matches(patterns, run_cursors(patterns, cursors, first), second),
    decreases second.len(),
{
    let mid = run_cursors(patterns, cursors, first);
    if second.len() == 0 {
        assert(first + second =~= first);
        assert(run_matches(patterns, mid, second) == Seq::<Seq<char>>::empty());
        assert(run_matches(patterns, cursors, first) + Seq::<Seq<char>>::empty() =~= run_matches(
            patterns,
            cursors,
            first,
        ));
    } else {
        let s2 = second.drop_last();
        let b = second.last();
        lemma_chunk_boundary_invariance(patterns, cursors, first, s2);
        assert(second =~= s2 + seq![b]);
        assert(first + second =~= (first + s2) + seq![b]);
        lemma_run_append_byte(patterns, cursors, first + s2, b);
        lemma_run_append_byte(patterns, mid, s2, b);
        assert((run_matches(patterns, cursors, first) + run_matches(patterns, mid, s2))
            + emitted_byte(patterns, run_cursors(patterns, cursors, first + s2), b) =~= run_matches(
            patterns,
            cursors,
            first,
        ) + (run_matches(patterns, mid, s2) + emitted_byte(
            patterns,
            run_cursors(patterns, mid, s2),
            b,
        )));
    }
}

/// A run never changes how many cursors there are.
pub proof fn lemma_run_cursors_len(patterns: Seq<Pattern>, cursors: Seq<usize>, bytes: Seq<u8>)
    ensures
        run_cursors(patterns, cursors, bytes).len() == cursors.len(),
    decreases bytes.len(),
{
    if bytes.len() > 0 {
        lemma_run_cursors_len(patterns, step_all(patterns, cursors, bytes[0]), bytes.drop_first());
    }
}

/// Two patterns with the same state table and equal cursors keep equal
/// cursors through any stream: each advances from its own cursor over its
/// own table only.
proof fn lemma_run_pair(
    patterns: Seq<Pattern>,
    cursors: Seq<usize>,
    bytes: Seq<u8>,
    i: int,
    j: int,
)
    requires
        cursors.len() == patterns.len(),
        0 <= i < patterns.len(),
        0 <= j < patterns.len(),
        patterns[i].states@ == patterns[j].states@,
        cursors[i] == cursors[j],
    ensures
        run_cursors(patterns, cursors, bytes)[i] == run_cursors(patterns, cursors, bytes)[j],
    decreases bytes.len(),
{
    if bytes.len() > 0 {
        let s = step_all(patterns, cursors, bytes[0]);
        assert(s[i] == s[j]);
        lemma_run_pair(patterns, s, bytes.drop_first(), i, j);
    }
}

/// The cursors in force when byte position `p` of a stream is fed, starting
/// from the given configuration.
pub open spec fn cursors_before(
    patterns: Seq<Pattern>,
    cursors: Seq<usize>,
    bytes: Seq<u8>,
    p: int,
) -> Seq<usize> {
    run_cursors(patterns, cursors, bytes.take(p))
}

/// Whether pattern `i` lands on an accepting state when byte position `p`
/// of the stream is fed.
pub open spec fn pattern_accepts_at(
    patterns: Seq<Pattern>,
    cursors: Seq<usize>,
    bytes: Seq<u8>,
    p: int,
    i: int,
) -> bool {
    patterns[i].states@[step_all(patterns, cursors_before(patterns, cursors, bytes, p), bytes[p])[i] as int].is_accepting
}

/// The identifiers emitted at byte position `p` of the stream.
pub open spec fn step_events(
    patterns: Seq<Pattern>,
    cursors: Seq<usize>,
    bytes: Seq<u8>,
    p: int,
) -> Seq<Seq<char>> {
    emitted_byte(patterns, cursors_before(patterns, cursors, bytes, p), bytes[p])
}

/// An accepting pattern's identifier really appears in the byte's emitted
/// batch.
proof fn lemma_byte_matches_contains(patterns: Seq<Pattern>, stepped: Seq<usize>, i: int, hi: int)
    requires
        0 <= i < hi <= patterns.len(),
        patterns[i].states@[stepped[i] as int].is_accepting,
    ensures
        byte_matches_upto(patterns, stepped, hi).contains(patterns[i].id@),
    decreases hi,
{
    let a = byte_matches_upto(patterns, stepped, hi - 1);
    let whole = byte_matches_upto(patterns, stepped, hi);
    if i == hi - 1 {
        assert(whole[a.len() as int] == patterns[i].id@);
        assert(whole.contains(patterns[i].id@));
    } else {
        lemma_byte_matches_contains(patterns, stepped, i, hi - 1);
        let idx = choose|t: int| 0 <= t < a.len() && a[t] == patterns[i].id@;
        assert(whole[idx] == patterns[i].id@);
        assert(whole.contains(patterns[i].id@));
    }
}

/// Re-registration isolation: two registered patterns with the same state
/// table (for example the same literal compiled twice under different
/// identifiers) and equal cursors accept at exactly the same byte positions
/// of any stream, and at each such position the emitted batch carries both
/// identifiers: the copies fire independently, neither shadows the other.
pub proof fn lemma_duplicate_pattern_independence(
    patterns: Seq<Pattern>,
    cursors: Seq<usize>,
    bytes: Seq<u8>,
    i: int,
    j: int,
)
    requires
        cursors.len() == patterns.len(),
        0 <= i < patterns.len(),
        0 <= j < patterns.len(),
        patterns[i].states@ == patterns[j].states@,
        cursors[i] == cursors[j],
    ensures
        forall|p: int|
            0 <= p < bytes.len() ==> (pattern_accepts_at(patterns, cursors, bytes, p, i)
                <==> pattern_accepts_at(patterns, cursors, bytes, p, j)),
        forall|p: int|
            0 <= p < bytes.len() && pattern_accepts_at(patterns, cursors, bytes, p, i) ==> #[trigger] step_events(
                patterns,
                cursors,
                bytes,
                p,
            ).contains(patterns[i].id@) && step_events(patterns, cursors, bytes, p).contains(
                patterns[j].id@,
            ),
{
    assert forall|p: int| 0 <= p < bytes.len() implies (pattern_accepts_at(
        patterns,
        cursors,
        bytes,
        p,
        i,
    ) <==> pattern_accepts_at(patterns, cursors, bytes, p, j)) by {
        let pre = cursors_before(patterns, cursors, bytes, p);
        lemma_run_cursors_len(patterns, cursors, bytes.take(p));
        lemma_run_pair(patterns, cursors, bytes.take(p), i, j);
        assert(step_all(patterns, pre, bytes[p])[i] == step_all(patterns, pre, bytes[p])[j]);
    }
    assert forall|p: int|
        0 <= p < bytes.len() && pattern_accepts_at(
            patterns,
            cursors,
            bytes,
            p,
            i,
        ) implies #[trigger] step_events(patterns, cursors, bytes, p).contains(patterns[i].id@)
        && step_events(patterns, cursors, bytes, p).contains(patterns[j].id@) by {
        let pre = cursors_before(patterns, cursors, bytes, p);
        lemma_run_cursors_len(patterns, cursors, bytes.take(p));
        lemma_run_pair(patterns, cursors, bytes.take(p), i, j);
        let stepped = step_all(patterns, pre, bytes[p]);
        assert(stepped[i] == stepped[j]);
        lemma_byte_matches_contains(patterns, stepped, i, patterns.len() as int);
        lemma_byte_matches_contains(patterns, stepped, j, patterns.len() as int);
    }
}

/// Fan-out: one feed appends the same match events to every observer, so
/// observers whose logs agreed before the feed agree after it. In
/// particular, two observers registered on the same matcher are both
/// invoked for every match; no match is delivered to only one of them.
pub proof fn lemma_observer_fanout(
    before: StreamMatcher,
    after: StreamMatcher,
    bytes: Seq<u8>,
    k1: int,
    k2: int,
)
    requires
        after.observers@.len() == before.observers@.len(),
        forall|k: int|
            0 <= k < before.observers@.len() ==> events_of(#[trigger] after.observers@[k])
                == events_of(before.observers@[k]) + run_matches(
                before.patterns@,
                before.cursors@,
                bytes,
            ),
        0 <= k1 < before.observers@.len(),
        0 <= k2 < before.observers@.len(),
        events_of(before.observers@[k1]) == events_of(before.observers@[k2]),
    ensures
        events_of(after.observers@[k1]) == events_of(after.observers@[k2]),
{
}

} // verus!
