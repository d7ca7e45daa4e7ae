# Leyden

A small, native GNOME app that watches your laptop battery: state, capacity,
live power draw and intake, and how long a charge lasts. Named after the Leyden
jar (1745), the first device that could store an electric charge.

The logic of the app is a library verified with [Verus]; the window around it is
ordinary Rust with relm4, GTK 4 and libadwaita.

- `src/` is the library. Every function states in its contract what it returns
  and changes, and Verus proves it.
  - `battery`: one reading of a battery (`types`), the ring of samples
    (`history`), and what `/sys/class/power_supply` says (`sysfs`).
  - `store`: the history file. `recordings`: completed runs and their file.
  - `sleep`: noticing that the machine slept. `clock`: the two clocks it goes by.
  - `notify`: which readings are worth an alert. `settings`: the preferences.
  - `graph`: the plot, as the steps of a drawing.
  - `app`: the reducer, and what the window shows.
  - `bytes`: the lines of a file. `micro`, `decimal`, `duration`, `text`, `order`,
    `format`: numbers, text and order, on which the rest stands.
- `tests/` runs the library on concrete values.
- `app/` opens the files, draws the window and carries out what the library
  decides.

Quantities are fixed-point: a percentage, a power, an energy, a voltage or a
length of time is a count of millionths of its unit. They are written digit for
digit as the double-precision number nearest to them. Moments are whole seconds
since the epoch.

What is taken on trust is small: `String::push`, `str::to_lowercase`,
`String::from_utf8`, and reading the two clocks (`SystemTime::now`,
`SystemTime::duration_since`, `Instant::now`, `Instant::elapsed`).

[Verus]: https://github.com/verus-lang/verus
