//! Player actions: targets, validation and the enumeration of legal actions.
use vstd::prelude::*;

use crate::error::{SimulationError, ZoneError};
use crate::player::{controlled_check, controlled_entity_in_zone, player, player_view};
use crate::rng::{canonical_candidates, lemma_canonical_unique, sort_dedup, strictly_increasing};
use crate::trace::ActionLabel;
use crate::types::{ChoiceId, EntityKind, GameEntityId, PlayerId, SimulationStatus, Zone};
use crate::world::{
    available_of, game_entity, lookup, CardRuntime, TargetAudience, TargetFilter, TargetKind,
    TargetRequirement, World, program_of,
};
use crate::zone::{board_entities, board_is_full, board_of, validate_board_position};

verus! {

/// An action a player submits.
#[derive(Clone, Copy, Debug, PartialEq, Eq, Structural)]
pub enum GameAction {
    PlayCard {
        player: PlayerId,
        card: GameEntityId,
        target: Option<GameEntityId>,
        board_index: Option<usize>,
        choice: Option<ChoiceId>,
    },
    Attack { player: PlayerId, attacker: GameEntityId, defender: GameEntityId },
    EndTurn { player: PlayerId },
    Concede { player: PlayerId },
}

impl GameAction {
    /// The player who submits the action.
    pub open spec fn spec_player(self) -> PlayerId {
        match self {
            GameAction::PlayCard { player, .. } => player,
            GameAction::Attack { player, .. } => player,
            GameAction::EndTurn { player } => player,
            GameAction::Concede { player } => player,
        }
    }

    /// The player who submits the action.
    #[verifier::when_used_as_spec(spec_player)]
    pub fn player(self) -> (r: PlayerId)
        ensures
            r == self.spec_player(),
    {
        match self {
            GameAction::PlayCard { player, .. } => player,
            GameAction::Attack { player, .. } => player,
            GameAction::EndTurn { player } => player,
            GameAction::Concede { player } => player,
        }
    }

    /// The kind of the action, as the trace records it.
    pub open spec fn spec_label(self) -> ActionLabel {
        match self {
            GameAction::PlayCard { .. } => ActionLabel::PlayCard,
            GameAction::Attack { .. } => ActionLabel::Attack,
            GameAction::EndTurn { .. } => ActionLabel::EndTurn,
            GameAction::Concede { .. } => ActionLabel::Concede,
        }
    }

    /// The kind of the action, as the trace records it.
    #[verifier::when_used_as_spec(spec_label)]
    pub fn label(self) -> (r: ActionLabel)
        ensures
            r == self.spec_label(),
    {
        match self {
            GameAction::PlayCard { .. } => ActionLabel::PlayCard,
            GameAction::Attack { .. } => ActionLabel::Attack,
            GameAction::EndTurn { .. } => ActionLabel::EndTurn,
            GameAction::Concede { .. } => ActionLabel::Concede,
        }
    }
}

/// Whether `q` belongs to the audience `audience` of `player`.
pub open spec fn in_audience(audience: TargetAudience, player: PlayerId, q: PlayerId) -> bool {
    match audience {
        TargetAudience::Friendly => q == player,
        TargetAudience::Enemy => q == player.spec_opponent(),
        TargetAudience::Either => true,
    }
}

/// Whether an object of kind `k` is a target of kind `kind`.
pub open spec fn kind_fits(kind: TargetKind, k: EntityKind) -> bool {
    match kind {
        TargetKind::Minion => k == EntityKind::Minion,
        TargetKind::Hero => k == EntityKind::Hero,
        TargetKind::Character => k == EntityKind::Minion || k == EntityKind::Hero,
    }
}

/// Whether the object `candidate` is in play, controlled by a player of the audience, and of a
/// fitting kind.
pub open spec fn target_fits(w: World, candidate: GameEntityId, audience: TargetAudience, player: PlayerId, kind: TargetKind) -> bool {
    match lookup(w.objects@, candidate) {
        None => false,
        Some(i) => {
            let o = w.objects@[i];
            &&& o.zone == Some(Zone::Play)
            &&& o.controller is Some
            &&& in_audience(audience, player, o.controller->0)
            &&& o.kind is Some
            &&& kind_fits(kind, o.kind->0)
        },
    }
}

/// Whether `x` is an eligible target of `filter` for `player`: listed in play by a player of the
/// audience, and fitting the filter.
pub open spec fn eligible(w: World, player: PlayerId, filter: TargetFilter, x: GameEntityId) -> bool {
    &&& ((in_audience(filter.audience, player, PlayerId::One) && w.zones.list(PlayerId::One, Zone::Play).contains(x))
        || (in_audience(filter.audience, player, PlayerId::Two) && w.zones.list(PlayerId::Two, Zone::Play).contains(x)))
    &&& target_fits(w, x, filter.audience, player, filter.kind)
}

/// The eligible targets of `filter` for `player`, in increasing order of identity.
pub open spec fn eligible_list(w: World, player: PlayerId, filter: TargetFilter) -> Seq<GameEntityId> {
    choose|s: Seq<GameEntityId>| strictly_increasing(s) && forall|x: GameEntityId| #[trigger]
        s.contains(x) <==> eligible(w, player, filter, x)
}

/// Whether the object `candidate` is a fitting target for the audience and kind.
pub fn target_matches(world: &World, candidate: GameEntityId, audience: TargetAudience, player: PlayerId, kind: TargetKind) -> (r: bool)
    ensures
        r == target_fits(*world, candidate, audience, player, kind),
{
    let i = match game_entity(&world.objects, candidate) {
        Some(i) => i,
        None => return false,
    };
    let o = &world.objects[i];
    if o.zone != Some(Zone::Play) {
        return false;
    }
    let controller = match o.controller {
        Some(c) => c,
        None => return false,
    };
    let member = match audience {
        TargetAudience::Friendly => controller == player,
        TargetAudience::Enemy => controller == player.opponent(),
        TargetAudience::Either => true,
    };
    if !member {
        return false;
    }
    match (kind, o.kind) {
        (TargetKind::Minion, Some(EntityKind::Minion)) => true,
        (TargetKind::Hero, Some(EntityKind::Hero)) => true,
        (TargetKind::Character, Some(EntityKind::Minion)) => true,
        (TargetKind::Character, Some(EntityKind::Hero)) => true,
        _ => false,
    }
}

fn collect_matching(world: &World, q: PlayerId, filter: TargetFilter, player: PlayerId, out: &mut Vec<GameEntityId>)
    ensures
        forall|x: GameEntityId| #[trigger] final(out)@.contains(x) <==> (old(out)@.contains(x) || (world.zones.list(
            q,
            Zone::Play,
        ).contains(x) && target_fits(*world, x, filter.audience, player, filter.kind))),
{
    let list = world.zones.entities(q, Zone::Play);
    let ghost start = out@;
    let mut k: usize = 0;
    while k < list.len()
        invariant
            k <= list.len(),
            list@ == world.zones.list(q, Zone::Play),
            forall|x: GameEntityId| #[trigger] out@.contains(x) <==> (start.contains(x) || (list@.subrange(0, k as int).contains(x)
                && target_fits(*world, x, filter.audience, player, filter.kind))),
        decreases list.len() - k,
    {
        let id = list[k];
        let ghost before = out@;
        let fits = target_matches(world, id, filter.audience, player, filter.kind);
        if fits {
            out.push(id);
        }
        proof {
            assert forall|x: GameEntityId| #[trigger] out@.contains(x) <==> (start.contains(x) || (list@.subrange(
                0,
                k + 1,
            ).contains(x) && target_fits(*world, x, filter.audience, player, filter.kind))) by {
                lemma_push_contains(before, id, x);
                lemma_prefix_step(list@, k as int, x);
            }
        }
        k = k + 1;
    }
    assert(list@.subrange(0, list@.len() as int) =~= list@);
}

proof fn lemma_push_contains<T>(s: Seq<T>, v: T, x: T)
    ensures
        s.push(v).contains(x) <==> (s.contains(x) || x == v),
{
    if s.push(v).contains(x) {
        let j = choose|j: int| 0 <= j < s.push(v).len() && s.push(v)[j] == x;
        if j < s.len() {
            assert(s[j] == x);
        }
    }
    if s.contains(x) {
        let j = choose|j: int| 0 <= j < s.len() && s[j] == x;
        assert(s.push(v)[j] == x);
    }
    if x == v {
        assert(s.push(v)[s.len() as int] == x);
    }
}

/// A prefix one longer contains what the shorter one contains and the next element.
pub proof fn lemma_prefix_step_ids(s: Seq<GameEntityId>, k: int, x: GameEntityId)
    requires
        0 <= k < s.len(),
    ensures
        s.subrange(0, k + 1).contains(x) <==> (s.subrange(0, k).contains(x) || x == s[k]),
{
    lemma_prefix_step(s, k, x);
}

proof fn lemma_prefix_step<T>(s: Seq<T>, k: int, x: T)
    requires
        0 <= k < s.len(),
    ensures
        s.subrange(0, k + 1).contains(x) <==> (s.subrange(0, k).contains(x) || x == s[k]),
{
    assert(s.subrange(0, k + 1) =~= s.subrange(0, k).push(s[k]));
    lemma_push_contains(s.subrange(0, k), s[k], x);
}

/// The eligible targets of `filter` for `player`, in increasing order of identity and once each.
pub fn eligible_targets(world: &World, player: PlayerId, filter: TargetFilter) -> (r: Vec<GameEntityId>)
    ensures
        r@ == eligible_list(*world, player, filter),
        strictly_increasing(r@),
        forall|x: GameEntityId| #[trigger] r@.contains(x) <==> eligible(*world, player, filter, x),
{
    let mut collected: Vec<GameEntityId> = Vec::new();
    let one = match filter.audience {
        TargetAudience::Friendly => player == PlayerId::One,
        TargetAudience::Enemy => player.opponent() == PlayerId::One,
        TargetAudience::Either => true,
    };
    let two = match filter.audience {
        TargetAudience::Friendly => player == PlayerId::Two,
        TargetAudience::Enemy => player.opponent() == PlayerId::Two,
        TargetAudience::Either => true,
    };
    if one {
        collect_matching(world, PlayerId::One, filter, player, &mut collected);
    }
    let ghost after_one = collected@;
    if two {
        collect_matching(world, PlayerId::Two, filter, player, &mut collected);
    }
    let sorted = sort_dedup(&collected);
    proof {
        assert forall|x: GameEntityId| #[trigger] sorted@.contains(x) <==> eligible(*world, player, filter, x) by {
            assert(sorted@.contains(x) <==> collected@.contains(x));
        }
        let chosen = eligible_list(*world, player, filter);
        assert(strictly_increasing(chosen) && forall|x: GameEntityId| #[trigger]
            chosen.contains(x) <==> eligible(*world, player, filter, x));
        assert forall|x: GameEntityId| chosen.contains(x) <==> sorted@.contains(x) by {
            assert(chosen.contains(x) <==> eligible(*world, player, filter, x));
            assert(sorted@.contains(x) <==> eligible(*world, player, filter, x));
        }
        lemma_canonical_unique(chosen, sorted@);
    }
    sorted
}

/// The target choices a requirement offers: none, the eligible targets, none followed by the
/// eligible targets, or the eligible targets when there are any and none otherwise.
pub open spec fn options_of(w: World, player: PlayerId, requirement: TargetRequirement) -> Seq<Option<GameEntityId>> {
    match requirement {
        TargetRequirement::Untargeted => seq![None],
        TargetRequirement::Required(f) => eligible_list(w, player, f).map_values(|x: GameEntityId| Some(x)),
        TargetRequirement::Optional(f) => seq![None] + eligible_list(w, player, f).map_values(
            |x: GameEntityId| Some(x),
        ),
        TargetRequirement::RequiredIfAvailable(f) => if eligible_list(w, player, f).len() == 0 {
            seq![None]
        } else {
            eligible_list(w, player, f).map_values(|x: GameEntityId| Some(x))
        },
    }
}

/// The order key of a target choice: no target first, then targets by identity.
pub open spec fn target_key(t: Option<GameEntityId>) -> int {
    match t {
        None => -1,
        Some(x) => x.0 as int,
    }
}

/// Whether the target choices of `s` come in strictly increasing order of key.
pub open spec fn targets_ordered(s: Seq<Option<GameEntityId>>) -> bool {
    forall|u: int, v: int| 0 <= u < v < s.len() ==> target_key(#[trigger] s[u]) < target_key(#[trigger] s[v])
}

fn wrap_targets(targets: &Vec<GameEntityId>, out: &mut Vec<Option<GameEntityId>>)
    ensures
        final(out)@ == old(out)@ + targets@.map_values(|x: GameEntityId| Some(x)),
{
    let ghost start = out@;
    let mut k: usize = 0;
    while k < targets.len()
        invariant
            k <= targets.len(),
            out@ == start + targets@.subrange(0, k as int).map_values(|x: GameEntityId| Some(x)),
        decreases targets.len() - k,
    {
        out.push(Some(targets[k]));
        k = k + 1;
        assert(out@ =~= start + targets@.subrange(0, k as int).map_values(|x: GameEntityId| Some(x)));
    }
    assert(targets@.subrange(0, targets@.len() as int) =~= targets@);
}

/// The target choices a requirement offers.
pub fn target_options(world: &World, player: PlayerId, requirement: TargetRequirement) -> (r: Vec<Option<GameEntityId>>)
    ensures
        r@ == options_of(*world, player, requirement),
        forall|card: GameEntityId, t: Option<GameEntityId>|
            #[trigger] target_check(*world, player, card, t, requirement) is Ok ==> r@.contains(t),
        targets_ordered(r@),
{
    let mut out: Vec<Option<GameEntityId>> = Vec::new();
    match requirement {
        TargetRequirement::Untargeted => {
            out.push(None);
        },
        TargetRequirement::Required(f) => {
            let targets = eligible_targets(world, player, f);
            wrap_targets(&targets, &mut out);
            assert(out@ =~= options_of(*world, player, requirement));
            proof {
                lemma_wrapped_contains(targets@, out@, 0, *world, player, f);
            }
        },
        TargetRequirement::Optional(f) => {
            out.push(None);
            let targets = eligible_targets(world, player, f);
            wrap_targets(&targets, &mut out);
            proof {
                lemma_wrapped_contains(targets@, out@, 1, *world, player, f);
                assert(out@[0] == None::<GameEntityId>);
            }
        },
        TargetRequirement::RequiredIfAvailable(f) => {
            let targets = eligible_targets(world, player, f);
            if targets.len() == 0 {
                out.push(None);
                proof {
                    assert(out@[0] == None::<GameEntityId>);
                    assert forall|x: GameEntityId| !eligible(*world, player, f, x) by {
                        assert(!targets@.contains(x));
                    }
                }
            } else {
                wrap_targets(&targets, &mut out);
                assert(out@ =~= options_of(*world, player, requirement));
                proof {
                    lemma_wrapped_contains(targets@, out@, 0, *world, player, f);
                }
            }
        },
    }
    proof {
        if requirement is Untargeted {
            assert(out@ =~= seq![None]);
            assert(out@[0] == None::<GameEntityId>);
        }
        assert forall|u: int, v: int| 0 <= u < v < out@.len() implies target_key(#[trigger] out@[u]) < target_key(
            #[trigger] out@[v],
        ) by {
            match requirement {
                TargetRequirement::Untargeted => {},
                TargetRequirement::Required(f) => {
                    let e = eligible_list(*world, player, f);
                    assert(out@[u] == Some(e[u]));
                    assert(out@[v] == Some(e[v]));
                },
                TargetRequirement::Optional(f) => {
                    let e = eligible_list(*world, player, f);
                    assert(out@[v] == Some(e[v - 1]));
                    if u > 0 {
                        assert(out@[u] == Some(e[u - 1]));
                    }
                },
                TargetRequirement::RequiredIfAvailable(f) => {
                    let e = eligible_list(*world, player, f);
                    if e.len() > 0 {
                        assert(out@[u] == Some(e[u]));
                        assert(out@[v] == Some(e[v]));
                    }
                },
            }
        }
        assert forall|card: GameEntityId, t: Option<GameEntityId>|
            #[trigger] target_check(*world, player, card, t, requirement) is Ok implies out@.contains(t) by {
            match t {
                None => {
                    assert(out@[0] == None::<GameEntityId>);
                },
                Some(x) => {
                    match requirement {
                        TargetRequirement::Untargeted => {},
                        TargetRequirement::Required(f) => {
                            assert(eligible(*world, player, f, x));
                        },
                        TargetRequirement::Optional(f) => {
                            assert(eligible(*world, player, f, x));
                        },
                        TargetRequirement::RequiredIfAvailable(f) => {
                            assert(eligible(*world, player, f, x));
                        },
                    }
                    assert(out@.contains(Some(x)));
                },
            }
        }
    }
    out
}

proof fn lemma_wrapped_contains(
    targets: Seq<GameEntityId>,
    out: Seq<Option<GameEntityId>>,
    start: int,
    w: World,
    player: PlayerId,
    f: TargetFilter,
)
    requires
        0 <= start,
        out.len() == start + targets.len(),
        forall|k: int| 0 <= k < targets.len() ==> out[start + k] == Some(#[trigger] targets[k]),
        forall|x: GameEntityId| #[trigger] targets.contains(x) <==> eligible(w, player, f, x),
    ensures
        forall|x: GameEntityId| eligible(w, player, f, x) ==> #[trigger] out.contains(Some(x)),
{
    assert forall|x: GameEntityId| eligible(w, player, f, x) implies #[trigger] out.contains(Some(x)) by {
        assert(targets.contains(x));
        let k = choose|k: int| 0 <= k < targets.len() && targets[k] == x;
        assert(out[start + k] == Some(x));
    }
}

/// The verdict on a supplied target.
pub open spec fn supplied_check(w: World, player: PlayerId, card: GameEntityId, target: GameEntityId, filter: TargetFilter) -> Result<
    (),
    SimulationError,
> {
    if eligible(w, player, filter, target) {
        Ok(())
    } else {
        Err(SimulationError::InvalidTarget { card, target })
    }
}

/// The verdict on the declared target of a card with requirement `requirement`.
pub open spec fn target_check(
    w: World,
    player: PlayerId,
    card: GameEntityId,
    target: Option<GameEntityId>,
    requirement: TargetRequirement,
) -> Result<(), SimulationError> {
    match (requirement, target) {
        (TargetRequirement::Untargeted, None) => Ok(()),
        (TargetRequirement::Untargeted, Some(_)) => Err(SimulationError::UnexpectedTarget(card)),
        (TargetRequirement::Required(_), None) => Err(SimulationError::MissingTarget(card)),
        (TargetRequirement::Optional(_), None) => Ok(()),
        (TargetRequirement::RequiredIfAvailable(f), None) => if eligible_list(w, player, f).len() == 0 {
            Ok(())
        } else {
            Err(SimulationError::MissingTarget(card))
        },
        (TargetRequirement::Required(f), Some(t)) => supplied_check(w, player, card, t, f),
        (TargetRequirement::Optional(f), Some(t)) => supplied_check(w, player, card, t, f),
        (TargetRequirement::RequiredIfAvailable(f), Some(t)) => supplied_check(w, player, card, t, f),
    }
}

/// Checks a supplied target against a filter.
pub fn validate_supplied_target(
    world: &World,
    player: PlayerId,
    card: GameEntityId,
    target: GameEntityId,
    filter: TargetFilter,
) -> (r: Result<(), SimulationError>)
    ensures
        r == supplied_check(*world, player, card, target, filter),
{
    let targets = eligible_targets(world, player, filter);
    let mut k: usize = 0;
    while k < targets.len()
        invariant
            k <= targets.len(),
            forall|x: GameEntityId| #[trigger] targets@.contains(x) <==> eligible(*world, player, filter, x),
            forall|m: int| 0 <= m < k ==> targets@[m] != target,
        decreases targets.len() - k,
    {
        if targets[k] == target {
            assert(targets@.contains(target));
            return Ok(());
        }
        k = k + 1;
    }
    assert(!targets@.contains(target));
    Err(SimulationError::InvalidTarget { card, target })
}

/// Checks the declared target of a card against its requirement.
pub fn validate_target(
    world: &World,
    player: PlayerId,
    card: GameEntityId,
    target: Option<GameEntityId>,
    requirement: TargetRequirement,
) -> (r: Result<(), SimulationError>)
    ensures
        r == target_check(*world, player, card, target, requirement),
{
    match (requirement, target) {
        (TargetRequirement::Untargeted, None) => Ok(()),
        (TargetRequirement::Untargeted, Some(_)) => Err(SimulationError::UnexpectedTarget(card)),
        (TargetRequirement::Required(_), None) => Err(SimulationError::MissingTarget(card)),
        (TargetRequirement::Optional(_), None) => Ok(()),
        (TargetRequirement::RequiredIfAvailable(f), None) => {
            if eligible_targets(world, player, f).len() == 0 {
                Ok(())
            } else {
                Err(SimulationError::MissingTarget(card))
            }
        },
        (TargetRequirement::Required(f), Some(t)) => validate_supplied_target(world, player, card, t, f),
        (TargetRequirement::Optional(f), Some(t)) => validate_supplied_target(world, player, card, t, f),
        (TargetRequirement::RequiredIfAvailable(f), Some(t)) => validate_supplied_target(world, player, card, t, f),
    }
}

/// The cost a card demands: its cost, never below zero.
pub open spec fn cost_due(runtime: CardRuntime) -> i32 {
    if runtime.cost < 0 {
        0
    } else {
        runtime.cost
    }
}

/// The Player record that `player_view` finds for `player`.
pub open spec fn player_record(w: World, player: PlayerId) -> crate::world::Player {
    match player_view(w, player) {
        Some((_, data, _, _)) => data,
        None => arbitrary(),
    }
}

/// The verdict on playing `card`: the board position the minion will take (none for a spell),
/// or the first rule the declaration breaks.
pub open spec fn play_check(
    w: World,
    player: PlayerId,
    card: GameEntityId,
    target: Option<GameEntityId>,
    board_index: Option<usize>,
    choice: Option<ChoiceId>,
) -> Result<Option<usize>, SimulationError> {
    match controlled_check(w, player, card, Zone::Hand) {
        Err(e) => Err(e),
        Ok(i) => {
            let o = w.objects@[i];
            let board = board_of(w, player).len();
            if o.kind != Some(EntityKind::Minion) && o.kind != Some(EntityKind::Spell) {
                Err(SimulationError::NotPlayable(card))
            } else if o.kind == Some(EntityKind::Minion) && board >= w.ruleset.board_limit {
                Err(SimulationError::BoardFull(player))
            } else if o.card_runtime is None {
                Err(SimulationError::NotPlayable(card))
            } else if program_of(o).len() > 0 {
                Err(SimulationError::UnsupportedEffect(program_of(o)[0]))
            } else if player_view(w, player) is None {
                Err(SimulationError::PlayerNotFound(player))
            } else if available_of(player_record(w, player)) < cost_due(o.card_runtime->0) {
                Err(SimulationError::NotEnoughMana {
                    player,
                    required: cost_due(o.card_runtime->0),
                    available: available_of(player_record(w, player)) as i32,
                })
            } else if choice is Some {
                Err(SimulationError::UnsupportedActionChoice(choice->0))
            } else if target_check(w, player, card, target, o.card_runtime->0.targeting) is Err {
                Err(target_check(w, player, card, target, o.card_runtime->0.targeting)->Err_0)
            } else if o.kind == Some(EntityKind::Minion) {
                match board_index {
                    Some(b) => if b > board {
                        Err(SimulationError::Zone(ZoneError::InvalidPosition { zone: Zone::Play, position: b, length: board as usize }))
                    } else {
                        Ok(Some(b))
                    },
                    None => Ok(Some(board as usize)),
                }
            } else if board_index is Some {
                Err(SimulationError::UnexpectedBoardPosition(card))
            } else {
                Ok(None)
            }
        },
    }
}

/// Checks a card play and gives the board position the minion will take (none for a spell). A
/// card with an effect program is refused: this library runs no effects.
pub fn validate_play_card(
    world: &World,
    player_id: PlayerId,
    card: GameEntityId,
    target: Option<GameEntityId>,
    board_index: Option<usize>,
    choice: Option<ChoiceId>,
) -> (r: Result<Option<usize>, SimulationError>)
    ensures
        r == play_check(*world, player_id, card, target, board_index, choice),
{
    let i = match controlled_entity_in_zone(world, player_id, card, Zone::Hand) {
        Ok(i) => i,
        Err(e) => return Err(e),
    };
    let kind = match world.objects[i].kind {
        Some(kind) => kind,
        None => return Err(SimulationError::NotPlayable(card)),
    };
    if kind != EntityKind::Minion && kind != EntityKind::Spell {
        return Err(SimulationError::NotPlayable(card));
    }
    if kind == EntityKind::Minion && board_is_full(world, player_id) {
        return Err(SimulationError::BoardFull(player_id));
    }
    let runtime = match world.objects[i].card_runtime {
        Some(runtime) => runtime,
        None => return Err(SimulationError::NotPlayable(card)),
    };
    if let Some(program) = &world.objects[i].card_program {
        if program.len() > 0 {
            return Err(SimulationError::UnsupportedEffect(program[0]));
        }
    }
    let data = match player(world, player_id) {
        Some((_, data, _, _)) => data,
        None => return Err(SimulationError::PlayerNotFound(player_id)),
    };
    let available = data.available_resources();
    let cost = if runtime.cost < 0 { 0 } else { runtime.cost };
    if available < cost {
        return Err(SimulationError::NotEnoughMana { player: player_id, required: cost, available });
    }
    if let Some(c) = choice {
        return Err(SimulationError::UnsupportedActionChoice(c));
    }
    match validate_target(world, player_id, card, target, runtime.targeting) {
        Ok(()) => {},
        Err(e) => return Err(e),
    }
    if kind == EntityKind::Minion {
        match validate_board_position(world, player_id, board_index) {
            Err(e) => Err(SimulationError::Zone(e)),
            Ok(()) => match board_index {
                Some(b) => Ok(Some(b)),
                None => Ok(Some(board_entities(world, player_id).len())),
            },
        }
    } else if board_index.is_some() {
        Err(SimulationError::UnexpectedBoardPosition(card))
    } else {
        Ok(None)
    }
}

/// The verdict on an attack of `attacker` on `defender`.
pub open spec fn attack_check(w: World, player: PlayerId, attacker: GameEntityId, defender: GameEntityId) -> Result<
    (),
    SimulationError,
> {
    match controlled_check(w, player, attacker, Zone::Play) {
        Err(e) => Err(e),
        Ok(i) => {
            let a = w.objects@[i];
            if a.kind != Some(EntityKind::Hero) && a.kind != Some(EntityKind::Minion) {
                Err(SimulationError::CannotAttack(attacker))
            } else if a.attack_state is None || a.attack_state->0.exhausted || a.current_stats is None
                || a.current_stats->0.attack <= 0 {
                Err(SimulationError::CannotAttack(attacker))
            } else {
                match lookup(w.objects@, defender) {
                    None => Err(SimulationError::EntityNotFound(defender)),
                    Some(j) => {
                        let d = w.objects@[j];
                        if d.zone != Some(Zone::Play) || d.controller != Some(player.spec_opponent()) || (d.kind
                            != Some(EntityKind::Hero) && d.kind != Some(EntityKind::Minion)) {
                            Err(SimulationError::InvalidDefender(defender))
                        } else {
                            Ok(())
                        }
                    },
                }
            }
        },
    }
}

/// Checks an attack.
pub fn validate_attack(world: &World, player_id: PlayerId, attacker: GameEntityId, defender: GameEntityId) -> (r: Result<
    (),
    SimulationError,
>)
    ensures
        r == attack_check(*world, player_id, attacker, defender),
{
    let i = match controlled_entity_in_zone(world, player_id, attacker, Zone::Play) {
        Ok(i) => i,
        Err(e) => return Err(e),
    };
    let a = &world.objects[i];
    match a.kind {
        Some(EntityKind::Hero) => {},
        Some(EntityKind::Minion) => {},
        _ => return Err(SimulationError::CannotAttack(attacker)),
    }
    let state = match a.attack_state {
        Some(state) => state,
        None => return Err(SimulationError::CannotAttack(attacker)),
    };
    let attack = match a.current_stats {
        Some(stats) => stats.attack,
        None => return Err(SimulationError::CannotAttack(attacker)),
    };
    if state.exhausted || attack <= 0 {
        return Err(SimulationError::CannotAttack(attacker));
    }
    let j = match game_entity(&world.objects, defender) {
        Some(j) => j,
        None => return Err(SimulationError::EntityNotFound(defender)),
    };
    let d = &world.objects[j];
    let fitting = match d.kind {
        Some(EntityKind::Hero) => true,
        Some(EntityKind::Minion) => true,
        _ => false,
    };
    if d.zone != Some(Zone::Play) || d.controller != Some(player_id.opponent()) || !fitting {
        return Err(SimulationError::InvalidDefender(defender));
    }
    Ok(())
}

/// The verdict on an action: the action as it will run (a minion play with its board position
/// filled in), or the first rule it breaks.
pub open spec fn action_check(w: World, action: GameAction) -> Result<GameAction, SimulationError> {
    if w.game.outcome is Some {
        Err(SimulationError::GameOver)
    } else if w.game.status != SimulationStatus::AwaitingAction {
        Err(SimulationError::NotAwaitingAction)
    } else if w.game.active_player != action.spec_player() {
        Err(SimulationError::NotPlayersTurn(action.spec_player()))
    } else {
        match action {
            GameAction::PlayCard { player, card, target, board_index, choice } => match play_check(
                w,
                player,
                card,
                target,
                board_index,
                choice,
            ) {
                Err(e) => Err(e),
                Ok(b) => Ok(GameAction::PlayCard { player, card, target, board_index: b, choice }),
            },
            GameAction::Attack { player, attacker, defender } => match attack_check(w, player, attacker, defender) {
                Err(e) => Err(e),
                Ok(()) => Ok(action),
            },
            _ => Ok(action),
        }
    }
}

/// Checks an action and gives it back as it will run.
pub fn validate_action(world: &World, action: GameAction) -> (r: Result<GameAction, SimulationError>)
    ensures
        r == action_check(*world, action),
{
    if world.game.outcome.is_some() {
        return Err(SimulationError::GameOver);
    }
    if world.game.status != SimulationStatus::AwaitingAction {
        return Err(SimulationError::NotAwaitingAction);
    }
    if world.game.active_player != action.player() {
        return Err(SimulationError::NotPlayersTurn(action.player()));
    }
    match action {
        GameAction::PlayCard { player, card, target, board_index, choice } => {
            match validate_play_card(world, player, card, target, board_index, choice) {
                Ok(b) => Ok(GameAction::PlayCard { player, card, target, board_index: b, choice }),
                Err(e) => Err(e),
            }
        },
        GameAction::Attack { player, attacker, defender } => {
            match validate_attack(world, player, attacker, defender) {
                Ok(()) => Ok(action),
                Err(e) => Err(e),
            }
        },
        _ => Ok(action),
    }
}


/// Whether every action of `actions` is accepted as it stands.
pub open spec fn all_accepted(w: World, actions: Seq<GameAction>) -> bool {
    forall|k: int| 0 <= k < actions.len() ==> action_check(w, #[trigger] actions[k]) == Ok::<GameAction, SimulationError>(actions[k])
}

/// The place of an action in the order of legal actions: ending the turn, then card plays by
/// card, target (no target first) and board position (none first), then attacks by attacker
/// and defender, then conceding.
pub open spec fn order_key(a: GameAction) -> (int, int, int, int) {
    match a {
        GameAction::EndTurn { .. } => (0, 0, 0, 0),
        GameAction::PlayCard { card, target, board_index, .. } => (
            1,
            card.0 as int,
            target_key(target),
            match board_index {
                None => -1,
                Some(b) => b as int,
            },
        ),
        GameAction::Attack { attacker, defender, .. } => (2, attacker.0 as int, defender.0 as int, 0),
        GameAction::Concede { .. } => (3, 0, 0, 0),
    }
}

/// Lexicographic order on order keys.
pub open spec fn key_lt(a: (int, int, int, int), b: (int, int, int, int)) -> bool {
    a.0 < b.0 || (a.0 == b.0 && (a.1 < b.1 || (a.1 == b.1 && (a.2 < b.2 || (a.2 == b.2 && a.3 < b.3)))))
}

/// Whether `actions` come in strictly increasing order of key.
pub open spec fn canonically_ordered(actions: Seq<GameAction>) -> bool {
    forall|i: int, j: int| 0 <= i < j < actions.len() ==> key_lt(order_key(#[trigger] actions[i]), order_key(#[trigger] actions[j]))
}

/// Whether every action of `actions` comes before `bound`.
pub open spec fn all_below(actions: Seq<GameAction>, bound: (int, int, int, int)) -> bool {
    forall|i: int| 0 <= i < actions.len() ==> key_lt(order_key(#[trigger] actions[i]), bound)
}

proof fn lemma_offer_ordered(
    old_out: Seq<GameAction>,
    new_out: Seq<GameAction>,
    c: GameAction,
    bound: (int, int, int, int),
    next: (int, int, int, int),
)
    requires
        canonically_ordered(old_out),
        all_below(old_out, bound),
        !key_lt(order_key(c), bound),
        key_lt(order_key(c), next),
        new_out == old_out || new_out == old_out.push(c),
    ensures
        canonically_ordered(new_out),
        all_below(new_out, next),
{
    assert forall|i: int| 0 <= i < new_out.len() implies key_lt(order_key(#[trigger] new_out[i]), next) by {
        if i < old_out.len() {
            assert(new_out[i] == old_out[i]);
            assert(key_lt(order_key(old_out[i]), bound));
        }
    }
    assert forall|i: int, j: int| 0 <= i < j < new_out.len() implies key_lt(
        order_key(#[trigger] new_out[i]),
        order_key(#[trigger] new_out[j]),
    ) by {
        assert(new_out[i] == old_out[i]);
        assert(key_lt(order_key(old_out[i]), bound));
        if j < old_out.len() {
            assert(new_out[j] == old_out[j]);
        }
    }
}

proof fn lemma_raise_bound(s: Seq<GameAction>, bound: (int, int, int, int), next: (int, int, int, int))
    requires
        all_below(s, bound),
        !key_lt(next, bound),
    ensures
        all_below(s, next),
{
    assert forall|i: int| 0 <= i < s.len() implies key_lt(order_key(#[trigger] s[i]), next) by {
        assert(key_lt(order_key(s[i]), bound));
    }
}

/// Whether `new` begins with `old`.
pub open spec fn extends(new: Seq<GameAction>, old: Seq<GameAction>) -> bool {
    new.len() >= old.len() && new.subrange(0, old.len() as int) == old
}

proof fn lemma_extends_trans(a: Seq<GameAction>, b: Seq<GameAction>, c: Seq<GameAction>)
    requires
        extends(b, a),
        extends(c, b),
    ensures
        extends(c, a),
{
    assert(c.subrange(0, a.len() as int) =~= b.subrange(0, a.len() as int));
}

fn offer(world: &World, out: &mut Vec<GameAction>, candidate: GameAction)
    requires
        all_accepted(*world, old(out)@),
    ensures
        all_accepted(*world, final(out)@),
        extends(final(out)@, old(out)@),
        action_check(*world, candidate) == Ok::<GameAction, SimulationError>(candidate) ==> final(out)@ == old(out)@.push(candidate),
        action_check(*world, candidate) == Ok::<GameAction, SimulationError>(candidate) ==> final(out)@.contains(candidate),
        forall|x: GameAction| old(out)@.contains(x) ==> #[trigger] final(out)@.contains(x),
        final(out)@ == old(out)@ || final(out)@ == old(out)@.push(candidate),
{
    proof {
        assert forall|x: GameAction| old(out)@.contains(x) implies old(out)@.push(candidate).contains(x) by {
            lemma_push_contains(old(out)@, candidate, x);
        }
        lemma_push_contains(old(out)@, candidate, candidate);
    }
    match validate_action(world, candidate) {
        Ok(v) => {
            if v == candidate {
                out.push(candidate);
                assert forall|k: int| 0 <= k < out@.len() implies action_check(*world, #[trigger] out@[k])
                    == Ok::<GameAction, SimulationError>(out@[k]) by {
                    if k < out@.len() - 1 {
                        assert(out@[k] == old(out)@[k]);
                    }
                }
                assert(out@.subrange(0, old(out)@.len() as int) =~= old(out)@);
            } else {
                assert(out@.subrange(0, old(out)@.len() as int) =~= old(out)@);
            }
        },
        Err(_) => {
            assert(out@.subrange(0, old(out)@.len() as int) =~= old(out)@);
        },
    }
}

/// Whether playing `card` with `target` at `board_index` is accepted exactly as declared.
pub open spec fn play_accepted(
    w: World,
    player: PlayerId,
    card: GameEntityId,
    target: Option<GameEntityId>,
    board_index: Option<usize>,
) -> bool {
    action_check(w, GameAction::PlayCard { player, card, target, board_index, choice: None })
        == Ok::<GameAction, SimulationError>(GameAction::PlayCard { player, card, target, board_index, choice: None })
}

fn offer_plays(world: &World, out: &mut Vec<GameAction>, player: PlayerId, card: GameEntityId)
    requires
        all_accepted(*world, old(out)@),
        canonically_ordered(old(out)@),
        all_below(old(out)@, (1, card.0 as int, -2, -2)),
    ensures
        canonically_ordered(final(out)@),
        all_below(final(out)@, (1, card.0 + 1, -2, -2)),
        all_accepted(*world, final(out)@),
        extends(final(out)@, old(out)@),
        forall|x: GameAction| old(out)@.contains(x) ==> #[trigger] final(out)@.contains(x),
        forall|target: Option<GameEntityId>, b: Option<usize>|
            #[trigger] play_accepted(*world, player, card, target, b) ==> final(out)@.contains(
                GameAction::PlayCard { player, card, target, board_index: b, choice: None },
            ),
{
    let ghost start = out@;
    let i = match game_entity(&world.objects, card) {
        Some(i) => i,
        None => {
            offer(world, out, GameAction::PlayCard { player, card, target: None, board_index: None, choice: None });
            proof {
                lemma_offer_ordered(
                    start,
                    out@,
                    GameAction::PlayCard { player, card, target: None, board_index: None, choice: None },
                    (1, card.0 as int, -2, -2),
                    (1, card.0 + 1, -2, -2),
                );
            }
            return;
        },
    };
    let options = match world.objects[i].card_runtime {
        Some(runtime) => target_options(world, player, runtime.targeting),
        None => vec![None],
    };
    let minion = match world.objects[i].kind {
        Some(EntityKind::Minion) => true,
        _ => false,
    };
    let board = board_entities(world, player).len();
    proof {
        assert(start.subrange(0, start.len() as int) =~= start);
        assert forall|target: Option<GameEntityId>, b: Option<usize>|
            #[trigger] play_accepted(*world, player, card, target, b) implies options@.contains(target) && (if minion {
                b matches Some(k) && k <= board
            } else {
                b is None
            }) by {
            let rt = world.objects@[i as int].card_runtime->0;
            assert(target_check(*world, player, card, target, rt.targeting) is Ok);
        }
    }
    let ghost mut lo: int = -2;
    let mut t: usize = 0;
    while t < options.len()
        invariant
            t <= options@.len(),
            targets_ordered(options@),
            canonically_ordered(out@),
            all_below(out@, (1, card.0 as int, lo, -2)),
            lo >= -2,
            forall|u: int| t <= u < options@.len() ==> target_key(#[trigger] options@[u]) >= lo,
            all_accepted(*world, out@),
            extends(out@, start),
            forall|x: GameAction| start.contains(x) ==> #[trigger] out@.contains(x),
            forall|u: int, b: Option<usize>|
                0 <= u < t && #[trigger] play_accepted(*world, player, card, options@[u], b) ==> out@.contains(
                    GameAction::PlayCard { player, card, target: options@[u], board_index: b, choice: None },
                ),
            forall|target: Option<GameEntityId>, b: Option<usize>|
                #[trigger] play_accepted(*world, player, card, target, b) ==> options@.contains(target) && (if minion {
                    b matches Some(k) && k <= board
                } else {
                    b is None
                }),
        decreases options.len() - t,
    {
        let target = options[t];
        let ghost tk = target_key(target);
        proof {
            assert(tk >= lo);
            assert(tk >= -1);
        }
        if minion {
            proof {
                lemma_raise_bound(out@, (1, card.0 as int, lo, -2), (1, card.0 as int, tk, 0));
            }
            let mut b: usize = 0;
            while b < board
                invariant
                    t < options@.len(),
                    target == options@[t as int],
                    tk == target_key(target),
                    b <= board,
                    canonically_ordered(out@),
                    all_below(out@, (1, card.0 as int, tk, b as int)),
                    all_accepted(*world, out@),
                    extends(out@, start),
                    forall|x: GameAction| start.contains(x) ==> #[trigger] out@.contains(x),
                    forall|u: int, c: Option<usize>|
                        0 <= u < t && #[trigger] play_accepted(*world, player, card, options@[u], c) ==> out@.contains(
                            GameAction::PlayCard { player, card, target: options@[u], board_index: c, choice: None },
                        ),
                    forall|k: usize|
                        k < b && #[trigger] play_accepted(*world, player, card, target, Some(k)) ==> out@.contains(
                            GameAction::PlayCard { player, card, target, board_index: Some(k), choice: None },
                        ),
                decreases board - b,
            {
                let ghost before = out@;
                offer(world, out, GameAction::PlayCard { player, card, target, board_index: Some(b), choice: None });
                proof {
                    lemma_extends_trans(start, before, out@);
                    lemma_offer_ordered(
                        before,
                        out@,
                        GameAction::PlayCard { player, card, target, board_index: Some(b), choice: None },
                        (1, card.0 as int, tk, b as int),
                        (1, card.0 as int, tk, b + 1),
                    );
                }
                b = b + 1;
            }
            let ghost before = out@;
            offer(world, out, GameAction::PlayCard { player, card, target, board_index: Some(board), choice: None });
            proof {
                lemma_extends_trans(start, before, out@);
                lemma_offer_ordered(
                    before,
                    out@,
                    GameAction::PlayCard { player, card, target, board_index: Some(board), choice: None },
                    (1, card.0 as int, tk, board as int),
                    (1, card.0 as int, tk + 1, -2),
                );
            }
        } else {
            let ghost before = out@;
            offer(world, out, GameAction::PlayCard { player, card, target, board_index: None, choice: None });
            proof {
                lemma_extends_trans(start, before, out@);
                lemma_offer_ordered(
                    before,
                    out@,
                    GameAction::PlayCard { player, card, target, board_index: None, choice: None },
                    (1, card.0 as int, lo, -2),
                    (1, card.0 as int, tk + 1, -2),
                );
            }
        }
        proof {
            lo = tk + 1;
        }
        t = t + 1;
    }
    proof {
        lemma_raise_bound(out@, (1, card.0 as int, lo, -2), (1, card.0 + 1, -2, -2));
    }
    proof {
        assert forall|target: Option<GameEntityId>, b: Option<usize>|
            #[trigger] play_accepted(*world, player, card, target, b) implies out@.contains(
                GameAction::PlayCard { player, card, target, board_index: b, choice: None },
            ) by {
            assert(options@.contains(target));
            let u = choose|u: int| 0 <= u < options@.len() && options@[u] == target;
            assert(play_accepted(*world, player, card, options@[u], b));
        }
    }
}

/// Whether `attacker` attacking `defender` is accepted exactly as declared.
pub open spec fn attack_accepted(w: World, player: PlayerId, attacker: GameEntityId, defender: GameEntityId) -> bool {
    action_check(w, GameAction::Attack { player, attacker, defender }) == Ok::<GameAction, SimulationError>(
        GameAction::Attack { player, attacker, defender },
    )
}

/// Whether one of the first `n` objects has identity `x`, is controlled by `player` and is in
/// `zone`.
pub open spec fn held_before(w: World, player: PlayerId, zone: Zone, x: GameEntityId, n: int) -> bool {
    exists|i: int|
        0 <= i < n && (#[trigger] w.objects@[i]).id == x && w.objects@[i].controller == Some(player)
            && w.objects@[i].zone == Some(zone)
}

/// Whether an object with identity `x` is controlled by `player` and is in `zone`, by its own
/// components.
pub open spec fn held_in(w: World, player: PlayerId, zone: Zone, x: GameEntityId) -> bool {
    held_before(w, player, zone, x, w.objects@.len() as int)
}

/// The identities of the objects that `player` controls in `zone`, read from the objects
/// themselves.
fn held_ids(world: &World, player: PlayerId, zone: Zone) -> (r: Vec<GameEntityId>)
    ensures
        forall|x: GameEntityId| #[trigger] r@.contains(x) <==> held_in(*world, player, zone, x),
{
    let mut r: Vec<GameEntityId> = Vec::new();
    let mut i: usize = 0;
    while i < world.objects.len()
        invariant
            i <= world.objects@.len(),
            forall|x: GameEntityId| #[trigger] r@.contains(x) <==> held_before(*world, player, zone, x, i as int),
        decreases world.objects.len() - i,
    {
        let ghost before = r@;
        let id = world.objects[i].id;
        let hit = world.objects[i].controller == Some(player) && world.objects[i].zone == Some(zone);
        if hit {
            r.push(id);
        }
        proof {
            assert forall|x: GameEntityId| #[trigger] r@.contains(x) <==> held_before(*world, player, zone, x, i + 1) by {
                if r@.contains(x) {
                    let k = choose|k: int| 0 <= k < r@.len() && r@[k] == x;
                    if k < before.len() {
                        assert(before[k] == x);
                        assert(before.contains(x));
                        let j = choose|j: int|
                            0 <= j < i && (#[trigger] world.objects@[j]).id == x && world.objects@[j].controller == Some(player)
                                && world.objects@[j].zone == Some(zone);
                        assert(0 <= j < i + 1);
                    } else {
                        assert(x == id);
                        assert(world.objects@[i as int].id == x);
                    }
                }
                if held_before(*world, player, zone, x, i + 1) {
                    let j = choose|j: int|
                        0 <= j < i + 1 && (#[trigger] world.objects@[j]).id == x && world.objects@[j].controller == Some(player)
                            && world.objects@[j].zone == Some(zone);
                    if j < i {
                        assert(held_before(*world, player, zone, x, i as int));
                        assert(before.contains(x));
                        let k = choose|k: int| 0 <= k < before.len() && before[k] == x;
                        assert(r@[k] == x);
                    } else {
                        assert(r@[r@.len() - 1] == x);
                    }
                }
            }
        }
        i = i + 1;
    }
    r
}

fn offer_attacks(world: &World, out: &mut Vec<GameAction>, player: PlayerId)
    requires
        all_accepted(*world, old(out)@),
        canonically_ordered(old(out)@),
        all_below(old(out)@, (2, -1, -1, 0)),
    ensures
        canonically_ordered(final(out)@),
        all_below(final(out)@, (3, 0, 0, 0)),
        all_accepted(*world, final(out)@),
        extends(final(out)@, old(out)@),
        forall|x: GameAction| old(out)@.contains(x) ==> #[trigger] final(out)@.contains(x),
        forall|a: GameEntityId, d: GameEntityId|
            held_in(*world, player, Zone::Play, a) && held_in(*world, player.spec_opponent(), Zone::Play, d)
                && #[trigger] attack_accepted(*world, player, a, d) ==> final(out)@.contains(
                GameAction::Attack { player, attacker: a, defender: d },
            ),
{
    let ghost start = out@;
    proof {
        assert(start.subrange(0, start.len() as int) =~= start);
    }
    let attackers = sort_dedup(&held_ids(world, player, Zone::Play));
    let defenders = sort_dedup(&held_ids(world, player.opponent(), Zone::Play));
    let ghost mut alo: int = -1;
    let mut a: usize = 0;
    while a < attackers.len()
        invariant
            a <= attackers@.len(),
            strictly_increasing(attackers@),
            strictly_increasing(defenders@),
            canonically_ordered(out@),
            all_below(out@, (2, alo, -1, 0)),
            alo >= -1,
            forall|u: int| a <= u < attackers@.len() ==> (#[trigger] attackers@[u]).0 >= alo,
            all_accepted(*world, out@),
            extends(out@, start),
            forall|x: GameAction| start.contains(x) ==> #[trigger] out@.contains(x),
            forall|u: int, y: GameEntityId|
                0 <= u < a && defenders@.contains(y) && #[trigger] attack_accepted(*world, player, attackers@[u], y)
                    ==> out@.contains(GameAction::Attack { player, attacker: attackers@[u], defender: y }),
        decreases attackers.len() - a,
    {
        let ghost at = attackers@[a as int].0 as int;
        let ghost mut dlo: int = -1;
        proof {
            assert(at >= alo);
            lemma_raise_bound(out@, (2, alo, -1, 0), (2, at, -1, 0));
        }
        let mut d: usize = 0;
        while d < defenders.len()
            invariant
                a < attackers@.len(),
                at == attackers@[a as int].0 as int,
                d <= defenders@.len(),
                strictly_increasing(defenders@),
                canonically_ordered(out@),
                all_below(out@, (2, at, dlo, 0)),
                dlo >= -1,
                forall|v: int| d <= v < defenders@.len() ==> (#[trigger] defenders@[v]).0 >= dlo,
                all_accepted(*world, out@),
                extends(out@, start),
                forall|x: GameAction| start.contains(x) ==> #[trigger] out@.contains(x),
                forall|u: int, y: GameEntityId|
                    0 <= u < a && defenders@.contains(y) && #[trigger] attack_accepted(*world, player, attackers@[u], y)
                        ==> out@.contains(GameAction::Attack { player, attacker: attackers@[u], defender: y }),
                forall|v: int|
                    0 <= v < d && #[trigger] attack_accepted(*world, player, attackers@[a as int], defenders@[v])
                        ==> out@.contains(
                        GameAction::Attack { player, attacker: attackers@[a as int], defender: defenders@[v] },
                    ),
            decreases defenders.len() - d,
        {
            let ghost before = out@;
            offer(world, out, GameAction::Attack { player, attacker: attackers[a], defender: defenders[d] });
            proof {
                lemma_extends_trans(start, before, out@);
                assert(defenders@[d as int].0 >= dlo);
                lemma_offer_ordered(
                    before,
                    out@,
                    GameAction::Attack { player, attacker: attackers@[a as int], defender: defenders@[d as int] },
                    (2, at, dlo, 0),
                    (2, at, defenders@[d as int].0 + 1, 0),
                );
                dlo = defenders@[d as int].0 + 1;
            }
            d = d + 1;
        }
        proof {
            lemma_raise_bound(out@, (2, at, dlo, 0), (2, at + 1, -1, 0));
            alo = at + 1;
        }
        proof {
            assert forall|u: int, y: GameEntityId|
                0 <= u < a + 1 && defenders@.contains(y) && #[trigger] attack_accepted(*world, player, attackers@[u], y)
                    implies out@.contains(GameAction::Attack { player, attacker: attackers@[u], defender: y }) by {
                if u == a {
                    let v = choose|v: int| 0 <= v < defenders@.len() && defenders@[v] == y;
                    assert(attack_accepted(*world, player, attackers@[a as int], defenders@[v]));
                }
            }
        }
        a = a + 1;
    }
    proof {
        assert forall|x: GameEntityId, y: GameEntityId|
            held_in(*world, player, Zone::Play, x) && held_in(*world, player.spec_opponent(), Zone::Play, y)
                && #[trigger] attack_accepted(*world, player, x, y) implies out@.contains(
                GameAction::Attack { player, attacker: x, defender: y },
            ) by {
            assert(attackers@.contains(x));
            assert(defenders@.contains(y));
            let u = choose|u: int| 0 <= u < attackers@.len() && attackers@[u] == x;
            assert(attack_accepted(*world, player, attackers@[u], y));
        }
        lemma_raise_bound(out@, (2, alo, -1, 0), (3, 0, 0, 0));
    }
}

/// Every action the active player may take now, each exactly as it would run: ending the turn;
/// each card of the hand (in order of identity) with each target choice and, for a minion, each
/// board position; each attack of a character in play (in order of identity) on each enemy
/// character (in order of identity); conceding. Nothing while no action is awaited. Cards and
/// characters are found by their own zone and controller, so every accepted action is offered.
pub fn legal_actions(world: &World) -> (r: Vec<GameAction>)
    ensures
        world.game.status != SimulationStatus::AwaitingAction ==> r@.len() == 0,
        all_accepted(*world, r@),
        world.game.status == SimulationStatus::AwaitingAction && world.game.outcome is None ==> {
            &&& r@.len() >= 2
            &&& r@[0] == GameAction::EndTurn { player: world.game.active_player }
            &&& r@.last() == GameAction::Concede { player: world.game.active_player }
        },
        offers_every_accepted(*world, r@),
        canonically_ordered(r@),
{
    let mut out: Vec<GameAction> = Vec::new();
    if world.game.status != SimulationStatus::AwaitingAction {
        return out;
    }
    let active = world.game.active_player;
    offer(world, &mut out, GameAction::EndTurn { player: active });
    let ghost first = out@;
    proof {
        assert(first.subrange(0, first.len() as int) =~= first);
        lemma_offer_ordered(Seq::empty(), out@, GameAction::EndTurn { player: active }, (0, 0, 0, 0), (1, -1, -2, -2));
    }
    let hand = sort_dedup(&held_ids(world, active, Zone::Hand));
    let ghost mut clo: int = -1;
    let mut c: usize = 0;
    while c < hand.len()
        invariant
            c <= hand@.len(),
            strictly_increasing(hand@),
            canonically_ordered(out@),
            all_below(out@, (1, clo, -2, -2)),
            clo >= -1,
            forall|u: int| c <= u < hand@.len() ==> (#[trigger] hand@[u]).0 >= clo,
            all_accepted(*world, out@),
            extends(out@, first),
            forall|x: GameAction| first.contains(x) ==> #[trigger] out@.contains(x),
            forall|u: int, target: Option<GameEntityId>, b: Option<usize>|
                0 <= u < c && #[trigger] play_accepted(*world, active, hand@[u], target, b) ==> out@.contains(
                    GameAction::PlayCard { player: active, card: hand@[u], target, board_index: b, choice: None },
                ),
        decreases hand.len() - c,
    {
        let ghost before = out@;
        proof {
            assert(hand@[c as int].0 >= clo);
            lemma_raise_bound(out@, (1, clo, -2, -2), (1, hand@[c as int].0 as int, -2, -2));
        }
        offer_plays(world, &mut out, active, hand[c]);
        proof {
            lemma_extends_trans(first, before, out@);
            clo = hand@[c as int].0 + 1;
        }
        c = c + 1;
    }
    proof {
        lemma_raise_bound(out@, (1, clo, -2, -2), (2, -1, -1, 0));
    }
    let ghost before_attacks = out@;
    offer_attacks(world, &mut out, active);
    proof {
        lemma_extends_trans(first, before_attacks, out@);
    }
    let ghost before_concede = out@;
    offer(world, &mut out, GameAction::Concede { player: active });
    proof {
        lemma_offer_ordered(before_concede, out@, GameAction::Concede { player: active }, (3, 0, 0, 0), (4, 0, 0, 0));
        if world.game.outcome is None {
            assert(first == seq![GameAction::EndTurn { player: active }]);
            assert(before_concede.subrange(0, 1)[0] == before_concede[0]);
            assert(out@ == before_concede.push(GameAction::Concede { player: active }));
            assert(out@[0] == before_concede[0]);
        }
        lemma_offers_every_accepted(*world, out@, hand@, first, before_attacks);
    }
    out
}

/// Whether `actions` holds every action that is accepted exactly as declared.
pub open spec fn offers_every_accepted(w: World, actions: Seq<GameAction>) -> bool {
    forall|a: GameAction|
        #[trigger] action_check(w, a) == Ok::<GameAction, SimulationError>(a) ==> actions.contains(a)
}

proof fn lemma_offers_every_accepted(
    w: World,
    out: Seq<GameAction>,
    hand: Seq<GameEntityId>,
    first: Seq<GameAction>,
    before_attacks: Seq<GameAction>,
)
    requires
        w.game.status == SimulationStatus::AwaitingAction,
        forall|x: GameEntityId| #[trigger] hand.contains(x) <==> held_in(w, w.game.active_player, Zone::Hand, x),
        action_check(w, GameAction::EndTurn { player: w.game.active_player }) == Ok::<GameAction, SimulationError>(
            GameAction::EndTurn { player: w.game.active_player },
        ) ==> first.contains(GameAction::EndTurn { player: w.game.active_player }),
        forall|x: GameAction| first.contains(x) ==> #[trigger] before_attacks.contains(x),
        forall|x: GameAction| before_attacks.contains(x) ==> #[trigger] out.contains(x),
        forall|u: int, target: Option<GameEntityId>, b: Option<usize>|
            0 <= u < hand.len() && #[trigger] play_accepted(w, w.game.active_player, hand[u], target, b)
                ==> before_attacks.contains(
                GameAction::PlayCard { player: w.game.active_player, card: hand[u], target, board_index: b, choice: None },
            ),
        forall|a: GameEntityId, d: GameEntityId|
            held_in(w, w.game.active_player, Zone::Play, a) && held_in(w, w.game.active_player.spec_opponent(), Zone::Play, d)
                && #[trigger] attack_accepted(w, w.game.active_player, a, d) ==> out.contains(
                GameAction::Attack { player: w.game.active_player, attacker: a, defender: d },
            ),
        action_check(w, GameAction::Concede { player: w.game.active_player }) == Ok::<GameAction, SimulationError>(
            GameAction::Concede { player: w.game.active_player },
        ) ==> out.contains(GameAction::Concede { player: w.game.active_player }),
    ensures
        offers_every_accepted(w, out),
{
    let active = w.game.active_player;
    assert forall|a: GameAction| #[trigger] action_check(w, a) == Ok::<GameAction, SimulationError>(a) implies out.contains(a) by {
        match a {
            GameAction::EndTurn { player } => {
                assert(player == active);
                assert(first.contains(a));
            },
            GameAction::Concede { player } => {
                assert(player == active);
            },
            GameAction::PlayCard { player, card, target, board_index, choice } => {
                assert(player == active);
                assert(choice is None);
                let i = lookup(w.objects@, card)->0;
                crate::world::lemma_lookup_some(w.objects@, card);
                assert(w.objects@[i].id == card);
                assert(held_in(w, active, Zone::Hand, card));
                assert(hand.contains(card));
                let u = choose|u: int| 0 <= u < hand.len() && hand[u] == card;
                assert(play_accepted(w, active, hand[u], target, board_index));
            },
            GameAction::Attack { player, attacker, defender } => {
                assert(player == active);
                let i = lookup(w.objects@, attacker)->0;
                crate::world::lemma_lookup_some(w.objects@, attacker);
                assert(w.objects@[i].id == attacker);
                assert(held_in(w, active, Zone::Play, attacker));
                let j = lookup(w.objects@, defender)->0;
                crate::world::lemma_lookup_some(w.objects@, defender);
                assert(w.objects@[j].id == defender);
                assert(held_in(w, active.spec_opponent(), Zone::Play, defender));
                assert(attack_accepted(w, active, attacker, defender));
            },
        }
    }
}


proof fn lemma_ordered_same_members_equal(a: Seq<GameAction>, b: Seq<GameAction>)
    requires
        canonically_ordered(a),
        canonically_ordered(b),
        forall|x: GameAction| #![trigger a.contains(x)] #![trigger b.contains(x)] a.contains(x) <==> b.contains(x),
    ensures
        a == b,
    decreases a.len(),
{
    if a.len() == 0 {
        if b.len() > 0 {
            assert(b.contains(b[0]));
        }
        assert(a =~= b);
    } else {
        assert(a.contains(a[0]));
        let j = choose|j: int| 0 <= j < b.len() && b[j] == a[0];
        assert(b.contains(b[0]));
        let i = choose|i: int| 0 <= i < a.len() && a[i] == b[0];
        if j > 0 {
            assert(key_lt(order_key(b[0]), order_key(b[j])));
            if i > 0 {
                assert(key_lt(order_key(a[0]), order_key(a[i])));
            }
            assert(false);
        }
        let a2 = a.drop_first();
        let b2 = b.drop_first();
        assert forall|x: GameAction| #[trigger] a2.contains(x) implies b2.contains(x) by {
            let k = choose|k: int| 0 <= k < a2.len() && a2[k] == x;
            assert(a[k + 1] == x);
            assert(key_lt(order_key(a[0]), order_key(a[k + 1])));
            assert(b.contains(x));
            let m = choose|m: int| 0 <= m < b.len() && b[m] == x;
            assert(m != 0);
            assert(b2[m - 1] == x);
        }
        assert forall|x: GameAction| #[trigger] b2.contains(x) implies a2.contains(x) by {
            let k = choose|k: int| 0 <= k < b2.len() && b2[k] == x;
            assert(b[k + 1] == x);
            assert(key_lt(order_key(b[0]), order_key(b[k + 1])));
            assert(a.contains(x));
            let m = choose|m: int| 0 <= m < a.len() && a[m] == x;
            assert(m != 0);
            assert(a2[m - 1] == x);
        }
        assert forall|p: int, q: int| 0 <= p < q < a2.len() implies key_lt(order_key(#[trigger] a2[p]), order_key(#[trigger] a2[q])) by {
            assert(a2[p] == a[p + 1] && a2[q] == a[q + 1]);
        }
        assert forall|p: int, q: int| 0 <= p < q < b2.len() implies key_lt(order_key(#[trigger] b2[p]), order_key(#[trigger] b2[q])) by {
            assert(b2[p] == b[p + 1] && b2[q] == b[q + 1]);
        }
        lemma_ordered_same_members_equal(a2, b2);
        assert(a =~= seq![a[0]] + a2);
        assert(b =~= seq![b[0]] + b2);
    }
}

/// The legal actions of a state are determined by it: any two lists that each hold only
/// accepted actions, hold every accepted action, and come in the canonical order are the
/// same list.
pub proof fn law_legal_actions_are_determined(w: World, a: Seq<GameAction>, b: Seq<GameAction>)
    requires
        all_accepted(w, a),
        all_accepted(w, b),
        offers_every_accepted(w, a),
        offers_every_accepted(w, b),
        canonically_ordered(a),
        canonically_ordered(b),
    ensures
        a == b,
{
    assert forall|x: GameAction| #![trigger a.contains(x)] #![trigger b.contains(x)] a.contains(x) <==> b.contains(x) by {
        if a.contains(x) {
            let k = choose|k: int| 0 <= k < a.len() && a[k] == x;
            assert(action_check(w, a[k]) == Ok::<GameAction, SimulationError>(a[k]));
        }
        if b.contains(x) {
            let k = choose|k: int| 0 <= k < b.len() && b[k] == x;
            assert(action_check(w, b[k]) == Ok::<GameAction, SimulationError>(b[k]));
        }
    }
    lemma_ordered_same_members_equal(a, b);
}

} // verus!
