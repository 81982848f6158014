# raycaster_horror

"Not your house" is a small Wolfenstein-style horror ray caster: survive
90, 150 or 210 seconds in a 10x10 maze while Erica hunts you down.

The crate is split in two:

- `src/` is the library, verified with Verus. It holds everything the game
  decides with integers: the maze and the 21x21 block grid built from it
  (`map`), the difficulty settings (`difficulty`), the enemy's breadth-first
  distance field and step rule (`entities::enemy`), the wallpaper variation
  scatter and the CPU copy of the floor texture (`render::walls`), the
  minimap placement (`engine::minimap`), the welcome menu
  (`screens::welcome`) and the screen flow (`game`).
- `app/` is the program around it: the SDL2 window, input, audio and
  drawing, and everything that works in floating point (positions, angles,
  the DDA ray walk, timers).

`tests/` exercises the library on concrete values.
