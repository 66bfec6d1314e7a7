# powerdisplay

Switches screen resolution, refresh rate and performance mode when the charger is plugged
in or unplugged. There are two profiles, one for "On battery" and one for "Plugged in", and
a small background service applies the right one when the power source changes.

The decisions are a library that is verified with Verus. What talks to the machine is
ordinary Rust around it.

| Where | What |
| --- | --- |
| `src/config.rs`, `src/control.rs`, `src/engine.rs`, `src/events.rs` | the settings, when an apply is due, and what an apply does |
| `src/display/` | modes, which rule drives which display, and the requests for Mutter, KScreen, wlr-output-management and RandR |
| `src/power/`, `src/watch.rs` | the power source and the power profiles |
| `src/daemon.rs`, `src/instance.rs`, `src/sandbox.rs` | the command line, the watch loop, the locks and the self-test |
| `src/page.rs`, `src/window.rs`, `src/autostart.rs` | the settings window |
| `src/text.rs`, `src/number.rs`, `src/paths.rs` | text, whole numbers and paths |
| `src/double.rs`, `src/big.rs`, `src/rate.rs`, `src/precision.rs` | arithmetic in double precision, and refresh rates as text |
| `tests/` | the library from outside |
| `app/` | `powerdisplayd` and the settings window: D-Bus, Wayland, X11, udev, files, GTK |

Refresh rates and scales are IEEE 754 doubles, held as the bits that encode them and computed
with whole numbers only, so that every result is exact to the last bit. Times are
nanoseconds. The functions whose names begin with `law_` state what holds of the library as a whole.
