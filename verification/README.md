# bevy_flappy_bird

Flappy Bird on the Bevy engine, with its game rules in a library verified by
Verus.

- `src/` is the verified library:
  - `text`: splitting text into lines and whitespace-separated words;
  - `atlas`: reading the sprite-sheet description (`assets/atlas.txt`, one
    sprite per line: name, width, height, and the sprite's rectangle as
    fractions of the sheet) and finding a sprite's index by name;
  - `animation`: the bird's looping wing beat;
  - `game`: when the bird may flap, when the world scrolls, crashing,
    scoring passed pipes, and replacing ground tiles and pipe pairs that
    leave the screen;
  - `score_text`: the score's decimal text.
- `app/` is the Bevy program: windowing, input, timers, floating-point
  motion and collision geometry, sprites and sounds. Each system asks the
  library what to do.
- `tests/` runs the library on concrete values.

The assets are not included. Put `atlas.png`, `atlas.txt` and the `sfx_*.ogg`
sounds, taken from the Flappy Bird game files, under `assets/`.
