# deltax2sort

Control logic for a small-parts sorter: parts travel on a conveyor belt under a
camera, and a Delta X2 robot picks each one off the belt and drops it into the
bin of its class.

The library under `src/` is verified with [Verus](https://github.com/verus-lang/verus):
its functions carry contracts, and what must hold whatever happens is stated
and proved as a law.

| Where | What |
|---|---|
| `src/float/` | IEEE 754 numbers as bit patterns; arithmetic proved to be rounded to nearest |
| `src/text.rs` | decimal numbers, trimming, ASCII comparison |
| `src/app_config.rs` | configuration and the rules it has to keep |
| `src/hardware/` | workspace limits, G-code, the feedback protocol, conveyor, camera, simulated devices |
| `src/orchestrator.rs` | the pick queue and what the robot is told next |
| `src/safety.rs` | laws: no move leaves the workspace, an E-stop holds until homed, and more |
| `src/vision/` | detection, tracking, recognition, calibration, display, and their laws |
| `src/panel.rs` | what the operator panel shows |
| `tests/` | the library on concrete values |
| `app/` | the program around it: serial ports, OpenCV, ONNX model, files, window |

The one thing that is taken on trust is which level specs the logger accepts
(`parse_level_spec` in `src/app_config.rs`).
