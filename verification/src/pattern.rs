use vstd::prelude::*;
use vstd::string::StringSliceAdditionalSpecFns;

use crate::error::Error;

verus! {

/// One automaton state: a byte-keyed transition table, an accept flag, and
/// the failure target entered when no explicit transition applies.
pub struct State {
    /// Transition entries `(byte, target)`. When two entries carry the same
    /// byte, the later one wins; `spec_transition` reflects that.
    pub transitions: Vec<(u8, usize)>,
    /// Reaching this state signals a completed occurrence ending at the
    /// current stream position.
    pub is_accepting: bool,
    /// Fallback state entered when the incoming byte has no transition entry.
    pub failure: usize,
}

/// A compiled, immutable automaton for one pattern.
pub struct Pattern {
    /// Identifier reported on every match of this pattern.
    pub id: String,
    /// The state table; all transition and failure targets index into it.
    pub states: Vec<State>,
    /// The state execution starts in; always 0 after compilation.
    pub initial_state: usize,
}

/// The transition entries that a staged edge list induces for the state at
/// index `s`: its edges in order, reduced to `(byte, target)`.
pub open spec fn edges_for(edges: Seq<(usize, u8, usize)>, s: int) -> Seq<(u8, usize)>
    decreases edges.len(),
{
    if edges.len() == 0 {
        Seq::empty()
    } else {
        edges_for(edges.drop_last(), s) + if edges.last().0 == s {
            seq![(edges.last().1, edges.last().2)]
        } else {
            Seq::empty()
        }
    }
}

/// Every target in the induced transition entries comes from an edge, so it
/// is bounded like the edges are.
proof fn lemma_edges_for_targets(edges: Seq<(usize, u8, usize)>, s: int, n: int)
    requires
        forall|k: int| 0 <= k < edges.len() ==> ((#[trigger] edges[k]).2 as int) < n,
    ensures
        forall|k: int|
            0 <= k < edges_for(edges, s).len() ==> ((#[trigger] edges_for(edges, s)[k]).1 as int)
                < n,
    decreases edges.len(),
{
    if edges.len() > 0 {
        assert(forall|k: int|
            0 <= k < edges.drop_last().len() ==> (#[trigger] edges.drop_last()[k]) == edges[k]);
        lemma_edges_for_targets(edges.drop_last(), s, n);
        let pre = edges_for(edges.drop_last(), s);
        let whole = edges_for(edges, s);
        assert((edges.last().2 as int) < n);
        assert forall|k: int| 0 <= k < whole.len() implies ((#[trigger] whole[k]).1 as int)
            < n by {
            if k < pre.len() {
                assert(whole[k] == pre[k]);
            } else {
                assert(whole[k] == (edges.last().1, edges.last().2));
            }
        }
    }
}

/// The transition registered for byte `b` in a transition table, the latest
/// entry for `b` winning.
pub open spec fn spec_transition(tr: Seq<(u8, usize)>, b: u8) -> Option<usize>
    decreases tr.len(),
{
    if tr.len() == 0 {
        None
    } else if tr.last().0 == b {
        Some(tr.last().1)
    } else {
        spec_transition(tr.drop_last(), b)
    }
}

/// Well-formedness of the state at index `j` in a table of `n` states:
/// transition and failure targets are valid indices, and failure targets
/// strictly decrease, so a failure chain always reaches state 0.
pub open spec fn state_wf(s: State, j: int, n: int) -> bool {
    &&& forall|k: int|
        0 <= k < s.transitions@.len() ==> ((#[trigger] s.transitions@[k]).1 as int) < n
    &&& (s.failure as int) < n
    &&& if j == 0 {
        s.failure == 0
    } else {
        (s.failure as int) < j
    }
}

/// Well-formedness of a whole state table.
pub open spec fn table_wf(states: Seq<State>) -> bool {
    &&& states.len() > 0
    &&& forall|j: int| 0 <= j < states.len() ==> state_wf(#[trigger] states[j], j, states.len() as int)
}

impl Pattern {
    /// The invariant every compiled pattern satisfies.
    pub open spec fn wf(self) -> bool {
        &&& table_wf(self.states@)
        &&& self.initial_state == 0
    }
}

impl State {
    /// Keyed transition lookup: the unique next state this state moves to on
    /// `byte`, if an explicit transition exists.
    pub fn transition_for(&self, byte: u8) -> (r: Option<usize>)
        ensures
            r == spec_transition(self.transitions@, byte),
    {
        let mut i = self.transitions.len();
        proof {
            assert(self.transitions@.take(i as int) =~= self.transitions@);
        }
        while i > 0
            invariant
                i <= self.transitions@.len(),
                spec_transition(self.transitions@, byte) == spec_transition(
                    self.transitions@.take(i as int),
                    byte,
                ),
            decreases i,
        {
            let j = i - 1;
            let e = self.transitions[j];
            proof {
                assert(self.transitions@.take(i as int).last() == self.transitions@[j as int]);
                assert(self.transitions@.take(i as int).drop_last() =~= self.transitions@.take(
                    j as int,
                ));
            }
            if e.0 == byte {
                return Some(e.1);
            }
            i = j;
        }
        None
    }
}

/// Staging area for a pattern under construction: candidate states plus the
/// pending `(from, byte, to)` edges that `build` materializes.
pub struct PatternBuilder {
    /// Staged states; their transition tables stay empty until `build`.
    pub states: Vec<State>,
    /// Pending edges, applied in order at `build` time.
    pub transitions: Vec<(usize, u8, usize)>,
}

impl PatternBuilder {
    /// The invariant the builder keeps between calls: staged states carry no
    /// transitions and restart on failure, and every pending edge joins two
    /// valid state indices.
    pub open spec fn wf(self) -> bool {
        &&& forall|j: int|
            0 <= j < self.states@.len() ==> (#[trigger] self.states@[j]).transitions@.len() == 0
                && self.states@[j].failure == 0
        &&& forall|k: int|
            0 <= k < self.transitions@.len() ==> ((#[trigger] self.transitions@[k]).0 as int)
                < self.states@.len() && (self.transitions@[k].2 as int) < self.states@.len()
    }

    /// Creates a builder holding the single initial state, not accepting,
    /// with no transitions staged.
    pub fn new() -> (b: PatternBuilder)
        ensures
            b.wf(),
            b.states@.len() == 1,
            !b.states@[0].is_accepting,
            b.transitions@.len() == 0,
    {
        let mut states: Vec<State> = Vec::new();
        states.push(State { transitions: Vec::new(), is_accepting: false, failure: 0 });
        PatternBuilder { states, transitions: Vec::new() }
    }

    /// Appends a state with no transitions and the given accept flag and
    /// returns its index. There are no error conditions.
    pub fn add_state(&mut self, is_accepting: bool) -> (idx: usize)
        requires
            old(self).wf(),
        ensures
            final(self).wf(),
            idx == old(self).states@.len(),
            final(self).states@.len() == old(self).states@.len() + 1,
            forall|j: int|
                0 <= j < old(self).states@.len() ==> final(self).states@[j] == old(self).states@[j],
            final(self).states@[idx as int].is_accepting == is_accepting,
            final(self).states@[idx as int].transitions@.len() == 0,
            final(self).states@[idx as int].failure == 0,
            final(self).transitions@ == old(self).transitions@,
    {
        let idx = self.states.len();
        self.states.push(State { transitions: Vec::new(), is_accepting, failure: 0 });
        idx
    }

    /// Records the edge `(from, byte, to)`. Rejects an out-of-range endpoint
    /// with `InvalidPattern` and leaves the builder unchanged and usable for
    /// further valid edges.
    pub fn add_transition(&mut self, from: usize, byte: u8, to: usize) -> (r: Result<(), Error>)
        requires
            old(self).wf(),
        ensures
            final(self).wf(),
            final(self).states@ == old(self).states@,
            from < old(self).states@.len() && to < old(self).states@.len() ==> r is Ok
                && final(self).transitions@ == old(self).transitions@.push((from, byte, to)),
            !(from < old(self).states@.len() && to < old(self).states@.len()) ==> (
            r matches Err(Error::InvalidPattern(_))) && final(self).transitions@ == old(
                self,
            ).transitions@,
    {
        if from >= self.states.len() || to >= self.states.len() {
            return Err(Error::InvalidPattern("transition endpoint out of range".to_owned()));
        }
        self.transitions.push((from, byte, to));
        Ok(())
    }

    /// Materializes the pending edges into each state's transition table
    /// (the last edge staged for a given state and byte wins) and freezes
    /// the result into an immutable pattern with initial state 0. Fails with
    /// `InvalidPattern` exactly when the staged state list is empty.
    pub fn build(self, id: String) -> (r: Result<Pattern, Error>)
        requires
            self.wf(),
        ensures
            match r {
                Ok(p) => {
                    &&& self.states@.len() > 0
                    &&& p.wf()
                    &&& p.id@ == id@
                    &&& p.initial_state == 0
                    &&& p.states@.len() == self.states@.len()
                    &&& forall|j: int|
                        0 <= j < self.states@.len() ==> {
                            &&& (#[trigger] p.states@[j]).transitions@ == edges_for(
                                self.transitions@,
                                j,
                            )
                            &&& p.states@[j].is_accepting == self.states@[j].is_accepting
                            &&& p.states@[j].failure == 0
                        }
                },
                Err(e) => self.states@.len() == 0 && (e matches Error::InvalidPattern(_)),
            },
    {
        if self.states.len() == 0 {
            return Err(Error::InvalidPattern("pattern must have at least one state".to_owned()));
        }
        let n = self.states.len();
        let mut states: Vec<State> = Vec::new();
        let mut s: usize = 0;
        while s < n
            invariant
                self.wf(),
                n == self.states@.len(),
                s <= n,
                states@.len() == s,
                forall|j: int|
                    0 <= j < s ==> {
                        &&& (#[trigger] states@[j]).transitions@ == edges_for(self.transitions@, j)
                        &&& states@[j].is_accepting == self.states@[j].is_accepting
                        &&& states@[j].failure == 0
                    },
            decreases n - s,
        {
            let m = self.transitions.len();
            let mut tr: Vec<(u8, usize)> = Vec::new();
            let mut k: usize = 0;
            while k < m
                invariant
                    m == self.transitions@.len(),
                    k <= m,
                    s < n,
                    tr@ == edges_for(self.transitions@.take(k as int), s as int),
                decreases m - k,
            {
                let e = self.transitions[k];
                proof {
                    assert(self.transitions@.take(k + 1).drop_last() =~= self.transitions@.take(
                        k as int,
                    ));
                    assert(self.transitions@.take(k + 1).last() == self.transitions@[k as int]);
                }
                if e.0 == s {
                    tr.push((e.1, e.2));
                }
                proof {
                    assert(tr@ =~= edges_for(self.transitions@.take(k + 1), s as int));
                }
                k += 1;
            }
            proof {
                assert(self.transitions@.take(m as int) =~= self.transitions@);
            }
            let accepting = self.states[s].is_accepting;
            states.push(State { transitions: tr, is_accepting: accepting, failure: 0 });
            s += 1;
        }
        proof {
            assert forall|j: int| 0 <= j < n implies state_wf(
                #[trigger] states@[j],
                j,
                n as int,
            ) by {
                lemma_edges_for_targets(self.transitions@, j, n as int);
            }
        }
        Ok(Pattern { id, states, initial_state: 0 })
    }
}

/// The first `k` bytes of `pat` reappear as the tail of its first `j`
/// bytes: `pat[..k]` is both a proper prefix and a suffix of `pat[..j]`.
pub open spec fn is_border(pat: Seq<u8>, j: int, k: int) -> bool {
    0 <= k < j && pat.subrange(0, k) == pat.subrange(j - k, j)
}

/// The longest border of `pat[..j]` among the lengths `1..=hi`, or 0 when
/// none of them is a border: scans the candidate lengths downward.
pub open spec fn max_border_upto(pat: Seq<u8>, j: int, hi: int) -> int
    decreases hi,
{
    if hi <= 0 {
        0
    } else if is_border(pat, j, hi) {
        hi
    } else {
        max_border_upto(pat, j, hi - 1)
    }
}

/// The failure target for state `j` of the literal automaton: the length of
/// the longest proper suffix of `pat[..j]` that is itself a prefix of `pat`.
pub open spec fn literal_failure(pat: Seq<u8>, j: int) -> int {
    max_border_upto(pat, j, j - 1)
}

proof fn lemma_max_border_upto_props(pat: Seq<u8>, j: int, hi: int)
    requires
        0 <= hi < j,
    ensures
        max_border_upto(pat, j, hi) == 0 || is_border(pat, j, max_border_upto(pat, j, hi)),
        forall|k: int| 0 < k <= hi && is_border(pat, j, k) ==> k <= max_border_upto(pat, j, hi),
    decreases hi,
{
    if hi > 0 && !is_border(pat, j, hi) {
        lemma_max_border_upto_props(pat, j, hi - 1);
    }
}

/// The failure target of state `j` is the longest border: it is itself a
/// border of `pat[..j]` (or 0, the empty suffix), and every non-empty border
/// is no longer than it.
pub proof fn lemma_literal_failure_is_longest_border(pat: Seq<u8>, j: int)
    requires
        1 <= j,
    ensures
        literal_failure(pat, j) == 0 || is_border(pat, j, literal_failure(pat, j)),
        forall|k: int| 0 < k && is_border(pat, j, k) ==> k <= literal_failure(pat, j),
{
    lemma_max_border_upto_props(pat, j, j - 1);
}

/// Decides whether `pat[..k]` is a border of `pat[..j]`.
fn check_border(pat: &[u8], j: usize, k: usize) -> (r: bool)
    requires
        k < j,
        j <= pat@.len(),
    ensures
        r == is_border(pat@, j as int, k as int),
{
    let mut i: usize = 0;
    while i < k
        invariant
            i <= k,
            k < j,
            j <= pat@.len(),
            forall|t: int| 0 <= t < i ==> (#[trigger] pat@[t]) == pat@[j - k + t],
        decreases k - i,
    {
        if pat[i] != pat[j - k + i] {
            proof {
                assert(pat@.subrange(0, k as int)[i as int] != pat@.subrange(
                    j - k,
                    j as int,
                )[i as int]);
            }
            return false;
        }
        i += 1;
    }
    proof {
        assert(pat@.subrange(0, k as int) =~= pat@.subrange(j - k, j as int));
    }
    true
}

/// Computes `literal_failure` for state `j`, scanning candidate border
/// lengths from the longest down.
fn literal_failure_of(pat: &[u8], j: usize) -> (k: usize)
    requires
        j <= pat@.len(),
    ensures
        k as int == literal_failure(pat@, j as int),
        j > 0 ==> k < j,
        j == 0 ==> k == 0,
{
    if j == 0 {
        return 0;
    }
    let mut hi: usize = j - 1;
    while hi > 0
        invariant
            hi <= j - 1,
            1 <= j <= pat@.len(),
            literal_failure(pat@, j as int) == max_border_upto(pat@, j as int, hi as int),
        decreases hi,
    {
        if check_border(pat, j, hi) {
            return hi;
        }
        hi -= 1;
    }
    0
}

/// Compiles a literal byte sequence of length L into a chain of L+1 states:
/// a transition on each successive byte advances one step, the final state
/// is the only accepting one, and each failure target preserves the longest
/// suffix of the consumed input that is still a prefix of the pattern, so
/// overlapping occurrences are not dropped. This is the only pattern syntax
/// the engine itself understands; richer syntax belongs to a front end that
/// emits explicit state graphs through `PatternBuilder`.
pub fn compile_pattern(pattern: &str) -> (r: Result<Pattern, Error>)
    ensures
        r is Ok,
        match r {
            Ok(p) => {
                let bytes = pattern.spec_bytes();
                &&& p.wf()
                &&& p.id@ == pattern@
                &&& p.initial_state == 0
                &&& p.states@.len() == bytes.len() + 1
                &&& forall|j: int|
                    0 <= j < bytes.len() ==> (#[trigger] p.states@[j]).transitions@ == seq![
                        (bytes[j], (j + 1) as usize),
                    ]
                &&& p.states@[bytes.len() as int].transitions@.len() == 0
                &&& forall|j: int|
                    0 <= j <= bytes.len() ==> ((#[trigger] p.states@[j]).is_accepting <==> j
                        == bytes.len())
                &&& forall|j: int|
                    0 <= j <= bytes.len() ==> ((#[trigger] p.states@[j]).failure as int)
                        == literal_failure(bytes, j)
            },
            Err(_) => false,
        },
{
    let bytes: &[u8] = pattern.as_bytes();
    let len = bytes.len();
    let mut states: Vec<State> = Vec::new();
    let mut j: usize = 0;
    while j < len
        invariant
            j <= len,
            len == pattern.spec_bytes().len(),
            bytes@ == pattern.spec_bytes(),
            states@.len() == j,
            forall|t: int|
                0 <= t < j ==> {
                    &&& (#[trigger] states@[t]).transitions@ == seq![(bytes@[t], (t + 1) as usize)]
                    &&& !states@[t].is_accepting
                    &&& (states@[t].failure as int) == literal_failure(bytes@, t)
                    &&& (t > 0 ==> (states@[t].failure as int) < t)
                    &&& (t == 0 ==> states@[t].failure == 0)
                },
        decreases len - j,
    {
        let mut tr: Vec<(u8, usize)> = Vec::new();
        tr.push((bytes[j], j + 1));
        proof {
            assert(tr@ =~= seq![(bytes@[j as int], (j + 1) as usize)]);
        }
        let f = literal_failure_of(bytes, j);
        states.push(State { transitions: tr, is_accepting: false, failure: f });
        j += 1;
    }
    let f = literal_failure_of(bytes, len);
    states.push(State { transitions: Vec::new(), is_accepting: true, failure: f });
    let id = pattern.to_owned();
    proof {
        let n = len as int + 1;
        assert forall|t: int| 0 <= t < n implies state_wf(#[trigger] states@[t], t, n) by {
            if t < len {
                assert(states@[t].transitions@ == seq![
                    (pattern.spec_bytes()[t], (t + 1) as usize),
                ]);
            }
        }
    }
    Ok(Pattern { id, states, initial_state: 0 })
}

impl Default for PatternBuilder {
    /// Same as `PatternBuilder::new`: one initial, non-accepting state.
    fn default() -> (b: Self)
        ensures
            b.wf(),
            b.states@.len() == 1,
            !b.states@[0].is_accepting,
            b.transitions@.len() == 0,
    {
        PatternBuilder::new()
    }
}

} // verus!
