# rust_bot

The game logic of a Hanabi bot for hanab.live, written in Verus: each function
states what it does in its `requires` / `ensures` contract, and Verus proves the
code against it. It holds the common rules of the game (what each action does to
the table and to what each player can tell of the cards) and the parts of the
Reactor 1.0 conventions that read reactions: the focus of a reactive clue, the slot
a reaction answers, how a play or discard of the reacter narrows the receiver's
cards, and referential discards. A convention plugs into the game through the
`Convention` trait, whose readings keep the table as it is and the game well
formed.

## Layout

- `src/basics/`: the game model. Identities and identity sets, cards, clues and
  actions, the variants and their suits, the state of the table, what each player
  knows of the cards (elimination, links, good and bad touch), the game that
  replays actions, and the endgame counts and the first checks of the endgame
  solver (the last missing card played to win, or too many cards missing).
- `src/reactor/`: the Reactor convention: the focus of a reactive clue, the slot
  that a reaction answers, how a play or a discard of the reacter narrows the
  receiver's cards, and what it weighs on our turn (an urgent card, the endgame
  move, and the list of candidate clues, plays and discards).
- `src/fix.rs`: which clued cards a clue reveals as wrongly inferred.
- `src/command.rs`, `src/console.rs`: the replies to chat commands (including a
  private `/leave`) and the debugging commands typed at the console.
- `src/replay.rs`: a game rebuilt from a finished game's deck and actions.
- `src/text.rs`: the few text helpers the rest needs.
- `tests/`: the tests, run against the compiled library.
- `app/`: the program around the library: it fetches a finished game and the
  variants from hanab.live (or reads a file), and lets one step through the
  replay from the console, showing on our turns the move an urgent card asks for
  or the candidate moves.

The laws of the library (for example, that every true identity stays possible
after a clue, or that decimal text reads back as the number it was written from)
stand as public proof functions beside the code they speak of.
