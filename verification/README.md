# pokerbot

A chat bot that keeps a points count per user and lets users play for points: coin flips,
payments, a leaderboard and five-card poker tables.

The rules of the games are a library verified with Verus (`src/`); the bot around it, which
talks to the chat service and to the database, is ordinary Rust (`app/`).

## src/

- `cards`, `hand`, `ranking`: cards, what a five-card hand is worth, and the order of hands
  (a total order, proved).
- `poker_game`: a poker table as a state machine; each step takes the table and what happened
  and says what to do next. Every move keeps the money on the table,
  and the balance changes of a whole game (moves, free rounds and turn steps) add up to zero.
  `play_round` fixes the order of the steps within a round.
- `poker_lobby`, `poker_command`: the lobby that gathers the players, and the text form of the
  poker command.
- `coinflip`, `commands`, `leaderboard`, `messages`: the other commands and how the bot reacts
  to messages and buttons.
- `game_id`, `text`, `mention`, `events`, `random`: identifiers, numbers as text, and the
  calls into `rand`, `regex` and `serenity`, each behind a small trusted function whose
  contract says what the library relies on.

## app/

`main`, the commands as registered with `poise`, the SQLite store, and the loops that run a
game: each tick they hand the game the events that came in and carry out what it answers.
