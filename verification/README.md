# microduck

The rules of a small walking duck robot, verified with Verus: which policy drives it and when, who
may take the motors, what an uploaded motor task may do, how policies are imported and rolled back,
how the depth sensor comes up, and how the duck sounds and sings in company.

- `src/` is the library. Every function has a contract, and what holds across functions is stated
  as public proof functions. `src/outside.rs` holds what is believed of other crates without proof.
- `tests/` runs the library on concrete values.
- `app/` is the program around it: files, processes, sockets, the motor bus, and the audio, which
  is floating point.

Quantities that the robot measures in floating point are whole numbers in the library: angles,
temperatures and twists in billionths, times in micro- or milliseconds, loudness and mouth openings
in hundredths, music in ticks. A value that is not a finite number is `None`.
