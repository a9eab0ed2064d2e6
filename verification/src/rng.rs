//! The deterministic random source and the traced random choice among game objects.
use vstd::prelude::*;

use crate::trace::TraceEntry;
use crate::types::GameEntityId;

verus! {

/// The version of the generator below; checkpoints of another version are refused.
pub const RNG_ALGORITHM_VERSION: u32 = 1;

pub const GAMMA: u64 = 0x9E37_79B9_7F4A_7C15;

pub const MIX_ONE: u64 = 0xBF58_476D_1CE4_E5B9;

pub const MIX_TWO: u64 = 0x94D0_49BB_1331_11EB;

/// The state of the generator as checkpoints store it.
#[derive(Clone, Copy, Debug, PartialEq, Eq, Structural)]
pub struct RngSnapshot {
    pub algorithm_version: u32,
    pub state: u64,
    /// How many numbers the generator has produced.
    pub position: u64,
}

/// A SplitMix64 generator that counts how many numbers it has produced.
#[derive(Clone, Copy, Debug, PartialEq, Eq, Structural)]
pub struct DeterministicRng {
    pub state: u64,
    pub position: u64,
}

/// The snapshot that records generator `g`.
pub open spec fn snapshot_of(g: DeterministicRng) -> RngSnapshot {
    RngSnapshot { algorithm_version: RNG_ALGORITHM_VERSION, state: g.state, position: g.position }
}

/// The generator a snapshot describes; none for a snapshot of another version.
pub open spec fn rng_from(s: RngSnapshot) -> Option<DeterministicRng> {
    if s.algorithm_version == RNG_ALGORITHM_VERSION {
        Some(DeterministicRng { state: s.state, position: s.position })
    } else {
        None
    }
}

/// A generator restored from its own snapshot is the same generator, and a snapshot of the
/// current version describes a generator whose snapshot it is.
pub proof fn law_snapshot_roundtrip(g: DeterministicRng, s: RngSnapshot)
    ensures
        rng_from(snapshot_of(g)) == Some(g),
        s.algorithm_version == RNG_ALGORITHM_VERSION ==> (rng_from(s) matches Some(h) && snapshot_of(h) == s),
{
}

/// The state after one step.
pub open spec fn next_state(state: u64) -> u64 {
    state.wrapping_add(GAMMA)
}

/// The number produced from `state`.
pub open spec fn output_of(state: u64) -> u64 {
    let z = state.wrapping_add(GAMMA);
    let z1 = (z ^ (z >> 30u64)).wrapping_mul(MIX_ONE);
    let z2 = (z1 ^ (z1 >> 27u64)).wrapping_mul(MIX_TWO);
    z2 ^ (z2 >> 31u64)
}

impl DeterministicRng {
    /// A generator seeded with `seed`, at position zero.
    pub fn new(seed: u64) -> (r: DeterministicRng)
        ensures
            r == (DeterministicRng { state: seed, position: 0 }),
    {
        DeterministicRng { state: seed, position: 0 }
    }

    /// The generator a snapshot describes, if the snapshot's version is this one.
    pub fn from_snapshot(snapshot: RngSnapshot) -> (r: Option<DeterministicRng>)
        ensures
            r == rng_from(snapshot),
            snapshot.algorithm_version == RNG_ALGORITHM_VERSION ==> r == Some(
                DeterministicRng { state: snapshot.state, position: snapshot.position },
            ),
            snapshot.algorithm_version != RNG_ALGORITHM_VERSION ==> r is None,
    {
        if snapshot.algorithm_version != RNG_ALGORITHM_VERSION {
            return None;
        }
        Some(DeterministicRng { state: snapshot.state, position: snapshot.position })
    }

    /// The snapshot of this generator.
    pub fn state(&self) -> (r: RngSnapshot)
        ensures
            r == snapshot_of(*self),
            r == (RngSnapshot {
                algorithm_version: RNG_ALGORITHM_VERSION,
                state: self.state,
                position: self.position,
            }),
    {
        RngSnapshot {
            algorithm_version: RNG_ALGORITHM_VERSION,
            state: self.state,
            position: self.position,
        }
    }

    /// Produces the next number and advances the position by one.
    pub fn next_u64(&mut self) -> (r: u64)
        ensures
            r == output_of(old(self).state),
            final(self).state == next_state(old(self).state),
            final(self).position == old(self).position.wrapping_add(1),
    {
        let z = self.state.wrapping_add(GAMMA);
        self.state = z;
        self.position = self.position.wrapping_add(1);
        let z1 = (z ^ (z >> 30u64)).wrapping_mul(MIX_ONE);
        let z2 = (z1 ^ (z1 >> 27u64)).wrapping_mul(MIX_TWO);
        z2 ^ (z2 >> 31u64)
    }
}

/// Whether `s` is strictly increasing by identity.
pub open spec fn strictly_increasing(s: Seq<GameEntityId>) -> bool {
    forall|i: int, j: int| 0 <= i < j < s.len() ==> (#[trigger] s[i]).0 < (#[trigger] s[j]).0
}

/// Whether `s` lists exactly the identities of `c`, in increasing order and once each.
pub open spec fn canonical_candidates(s: Seq<GameEntityId>, c: Seq<GameEntityId>) -> bool {
    &&& strictly_increasing(s)
    &&& forall|x: GameEntityId| s.contains(x) <==> c.contains(x)
}

/// Two strictly increasing sequences with the same elements are equal.
pub proof fn lemma_canonical_unique(a: Seq<GameEntityId>, b: Seq<GameEntityId>)
    requires
        strictly_increasing(a),
        strictly_increasing(b),
        forall|x: GameEntityId| a.contains(x) <==> b.contains(x),
    ensures
        a == b,
    decreases a.len() + b.len(),
{
    if a.len() == 0 {
        if b.len() > 0 {
            assert(b.contains(b[0]));
        }
        assert(a =~= b);
    } else if b.len() == 0 {
        assert(a.contains(a[0]));
    } else {
        let la = a.last();
        let lb = b.last();
        assert(a.contains(la));
        assert(b.contains(lb));
        let ib = choose|i: int| 0 <= i < b.len() && b[i] == la;
        let ia = choose|i: int| 0 <= i < a.len() && a[i] == lb;
        if la.0 < lb.0 {
            assert(a[ia].0 <= la.0);
        } else if lb.0 < la.0 {
            assert(b[ib].0 <= lb.0);
        }
        assert(la == lb);
        let a2 = a.drop_last();
        let b2 = b.drop_last();
        assert forall|x: GameEntityId| a2.contains(x) <==> b2.contains(x) by {
            if a2.contains(x) {
                let i = choose|i: int| 0 <= i < a2.len() && a2[i] == x;
                assert(a[i] == x);
                assert(x.0 < la.0);
                assert(b.contains(x));
                let j = choose|j: int| 0 <= j < b.len() && b[j] == x;
                assert(j != b.len() - 1);
                assert(b2[j] == x);
            }
            if b2.contains(x) {
                let i = choose|i: int| 0 <= i < b2.len() && b2[i] == x;
                assert(b[i] == x);
                assert(x.0 < lb.0);
                assert(a.contains(x));
                let j = choose|j: int| 0 <= j < a.len() && a[j] == x;
                assert(j != a.len() - 1);
                assert(a2[j] == x);
            }
        }
        lemma_canonical_unique(a2, b2);
        assert(a =~= a2.push(la));
        assert(b =~= b2.push(lb));
    }
}

/// Sorts identities and removes repetitions.
pub fn sort_dedup(candidates: &Vec<GameEntityId>) -> (r: Vec<GameEntityId>)
    ensures
        canonical_candidates(r@, candidates@),
{
    let mut out: Vec<GameEntityId> = Vec::new();
    let mut i: usize = 0;
    while i < candidates.len()
        invariant
            i <= candidates.len(),
            strictly_increasing(out@),
            forall|x: GameEntityId| out@.contains(x) <==> candidates@.subrange(0, i as int).contains(x),
        decreases candidates.len() - i,
    {
        let x = candidates[i];
        let mut j: usize = 0;
        while j < out.len() && out[j].0 < x.0
            invariant
                j <= out.len(),
                forall|k: int| 0 <= k < j ==> (#[trigger] out@[k]).0 < x.0,
            decreases out.len() - j,
        {
            j = j + 1;
        }
        let ghost before = out@;
        let ghost prefix = candidates@.subrange(0, i as int);
        let ghost next_prefix = candidates@.subrange(0, i + 1 as int);
        assert(next_prefix =~= prefix.push(x));
        if j < out.len() && out[j].0 == x.0 {
            proof {
                assert(out@[j as int] == x);
                assert forall|y: GameEntityId| out@.contains(y) <==> next_prefix.contains(y) by {
                    if y == x {
                        assert(out@.contains(x));
                        assert(next_prefix[i as int] == x);
                    } else {
                        if next_prefix.contains(y) {
                            let k = choose|k: int| 0 <= k < next_prefix.len() && next_prefix[k] == y;
                            assert(k < i);
                            assert(prefix[k] == y);
                        }
                        if prefix.contains(y) {
                            let k = choose|k: int| 0 <= k < prefix.len() && prefix[k] == y;
                            assert(next_prefix[k] == y);
                        }
                    }
                }
            }
        } else {
            out.insert(j, x);
            proof {
                assert(out@ == before.insert(j as int, x));
                assert forall|a: int, b: int| 0 <= a < b < out@.len() implies (#[trigger] out@[a]).0
                    < (#[trigger] out@[b]).0 by {
                    if b < j {
                        assert(out@[a] == before[a]);
                        assert(out@[b] == before[b]);
                    } else if a < j && b == j {
                    } else if a < j && b > j {
                        assert(out@[b] == before[b - 1]);
                    } else if a == j {
                        assert(out@[b] == before[b - 1]);
                    } else {
                        assert(out@[a] == before[a - 1]);
                        assert(out@[b] == before[b - 1]);
                    }
                }
                assert forall|y: GameEntityId| out@.contains(y) <==> next_prefix.contains(y) by {
                    if out@.contains(y) {
                        let k = choose|k: int| 0 <= k < out@.len() && out@[k] == y;
                        if k < j {
                            assert(before[k] == y);
                            assert(before.contains(y));
                        } else if k > j {
                            assert(before[k - 1] == y);
                            assert(before.contains(y));
                        } else {
                            assert(next_prefix[i as int] == x);
                        }
                        if y != x {
                            let m = choose|m: int| 0 <= m < prefix.len() && prefix[m] == y;
                            assert(next_prefix[m] == y);
                        }
                    }
                    if next_prefix.contains(y) {
                        let k = choose|k: int| 0 <= k < next_prefix.len() && next_prefix[k] == y;
                        if k == i {
                            assert(out@[j as int] == x);
                        } else {
                            assert(prefix[k] == y);
                            assert(before.contains(y));
                            let m = choose|m: int| 0 <= m < before.len() && before[m] == y;
                            if m < j {
                                assert(out@[m] == y);
                            } else {
                                assert(out@[m + 1] == y);
                            }
                        }
                    }
                }
            }
        }
        i = i + 1;
    }
    assert(candidates@.subrange(0, candidates@.len() as int) =~= candidates@);
    out
}

/// The index a generator in state `state` picks among `n` candidates.
pub open spec fn choice_index(state: u64, n: nat) -> int {
    (output_of(state) % (n as u64)) as int
}

/// Chooses one of the candidates at random and records the choice in the trace.
///
/// The candidates are first sorted by identity with repetitions removed, so the choice depends
/// only on the generator and on the set of candidates. An empty set chooses nothing and leaves
/// the generator and the trace unchanged.
pub fn choose_game_entity(
    rng: &mut DeterministicRng,
    trace: &mut Vec<TraceEntry>,
    candidates: Vec<GameEntityId>,
) -> (r: Option<GameEntityId>)
    ensures
        r matches Some(x) ==> candidates@.contains(x),
        (forall|x: GameEntityId| !candidates@.contains(x)) ==> r is None && *final(rng) == *old(rng)
            && final(trace)@ == old(trace)@,
        (exists|x: GameEntityId| candidates@.contains(x)) ==> exists|s: Seq<GameEntityId>|
            {
                &&& canonical_candidates(s, candidates@)
                &&& s.len() > 0
                &&& r == Some(s[choice_index(old(rng).state, s.len())])
                &&& final(rng).state == next_state(old(rng).state)
                &&& final(rng).position == old(rng).position.wrapping_add(1)
                &&& final(trace)@.len() == old(trace)@.len() + 1
                &&& final(trace)@.subrange(0, old(trace)@.len() as int) == old(trace)@
                &&& final(trace)@.last() matches TraceEntry::RngChoice { position, candidates, selected }
                    && position == old(rng).position && candidates@ == s && Some(selected) == r
            },
{
    let sorted = sort_dedup(&candidates);
    if sorted.len() == 0 {
        proof {
            assert forall|x: GameEntityId| !candidates@.contains(x) by {
                if candidates@.contains(x) {
                    assert(sorted@.contains(x));
                }
            }
        }
        return None;
    }
    let position = rng.position;
    let ghost old_state = rng.state;
    let value = rng.next_u64();
    let index = (value % (sorted.len() as u64)) as usize;
    let selected = sorted[index];
    let ghost s = sorted@;
    let ghost old_trace = trace@;
    trace.push(TraceEntry::RngChoice { position, candidates: sorted, selected });
    proof {
        assert(s.contains(s[0]));
        assert(candidates@.contains(s[0]));
        assert(s.contains(s[index as int]));
        assert(candidates@.contains(selected));
        assert(trace@.subrange(0, old_trace.len() as int) =~= old_trace);
    }
    Some(selected)
}


/// A choice depends only on the generator and on the set of candidates: generators in one
/// state choosing among candidate lists with the same members record the same canonical
/// candidates and pick the same object.
pub proof fn law_choice_depends_on_state_and_members(
    state: u64,
    a: Seq<GameEntityId>,
    b: Seq<GameEntityId>,
    sa: Seq<GameEntityId>,
    sb: Seq<GameEntityId>,
)
    requires
        forall|x: GameEntityId| a.contains(x) <==> b.contains(x),
        canonical_candidates(sa, a),
        canonical_candidates(sb, b),
    ensures
        sa == sb,
        sa.len() > 0 ==> sa[choice_index(state, sa.len())] == sb[choice_index(state, sb.len())],
{
    lemma_canonical_unique(sa, sb);
}

} // verus!
