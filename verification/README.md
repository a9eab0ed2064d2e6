# hearthstone_simulator

A deterministic, headless card-game simulation engine. Its bookkeeping (actions, zones,
resources, auras, enchantments, the resolution stack, events, deaths, turns, checkpoints) is
verified with Verus; the parts it leaves out are listed below.

A game is a `World`: the game objects (cards, heroes, hero powers, players, enchantments)
with their components, the ordered zone lists of both players, and the resources of the game
(state, ruleset, turn schedule, random generator, trace, deaths, resolution work).
Submitted actions are validated, then resolved through a stack of operations with a budget;
every step is recorded in a canonical trace, and a whole game can be checkpointed, validated
and restored.

Layout of `src/`:

- `types`, `world`, `operations`, `trace`, `error`: the data model and its spec views.
- `sorting`, `rng`: stable ordering by play order and identity; the SplitMix64 generator and
  the traced random choice.
- `resolver`, `driver`, `event_resolver`, `resolution_validation`: the resolution stack,
  budget, events, slots and choices; running operations and the current-operation dispatcher;
  accepting actions and answering choices; checking the shape of retained choice requests.
- `zone`, `player`, `enchantment`, `aura`, `aura_refresh`: zone moves, player roles and
  resources, stat/keyword/cost recalculation, aura discovery and cache refreshes.
- `action_validation`, `action`: validating declarations and enumerating legal actions; the
  sequence steps of card plays, attacks and turns.
- `setup`, `snapshot`, `simulation`: starting a game, observing it, and the public
  `Simulation` API.
- `checkpoint`, `checkpoint_roundtrip`: building, validating (down to the events and slots that
  retained operations name) and restoring checkpoints, and the proof that a restored game
  checkpoints exactly as the game it came from.

`app/` holds the Bevy integration (schedule labels, system sets, resources and the dispatching
system); `tests/` exercises the library on concrete games.

## What the library leaves out

- **Effects are scheduled, not run.** Playing a card queues, after its play events, one
  `RunEffect` operation per effect of the card's program, in order (`play_card`,
  `card_played`). Running such an operation is refused with `UnsupportedEffect` and changes
  nothing, and `validate_play_card` refuses a card whose program is not empty, before its cost
  is checked. There is no effect executor, no registry of native effects and no checking of an
  effect program against the world.
- **No triggers are collected.** `trigger` describes trigger definitions, but no game object
  carries them. Expanding an event marks it collected and records a `TriggerSnapshot` that
  lists no trigger; there are no trigger attempts, and the triggers of a card are not checked
  when it is played.
- **Operation kinds.** The resolution stack holds sequence steps, phase boundaries, aura
  refreshes, outcome checks, event preparation, expansion and finishing, event slots, damage
  batches, draw results, draw continuations (which schedule their effects with the drawn card),
  choice requests and `RunEffect`. There are no operations for trigger attempts, effects run for
  a played card's own scope, single damage or healing, processing a draw, transforming or copying
  an object.
- **Retained work is checked for its shape only.** `validate_resolution_operation` and
  `validate_choice_request` check that every retained choice request (nested ones included)
  offers options, each identity once, and that no operation of its branches runs an effect for
  an event; they do not check operations against the world. A checkpoint is also refused when an
  operation on its stack names a prepared event, event slot or draw result slot that it does not
  hold; event slots that name a missing event are not looked for.
- **The Bevy plugin adds one system.** It dispatches the current operation through the
  library. The phase-boundary passes (aura refreshes, death creation) run inside the library
  when a `RunPhaseBoundary` operation executes, so the plugin registers no system of its own for
  them; it only orders the sets a host uses.
