# bevy_netahoy

Client prediction, reconciliation and server command handling for
Source-style movement netcode, with the bookkeeping proved correct in Verus.

- `src/` is the verified library: command sequence ordering (with wrap-around),
  the button rules of a movement step, the client's prediction and command
  histories and reconciliation decisions, remote interpolation buffers and
  the choice of samples to blend, the server's command queue, acknowledgement
  and lag-compensation history, and the seeded packet conditioner used for
  testing. Float values are carried as `f32` bit patterns.
- `app/` is the Bevy side: plugins, ECS systems, replicated component copies
  with `serde` derives, the render clock, pose blending and Avian capsule
  casts, all of which are float or ECS work.
- `tests/` exercises the library on concrete values.
