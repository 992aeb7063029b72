# zygote_core

The verified core of Zygote, a live visuals system: a graph of fullscreen
WGSL passes that a renderer draws and a timeline UI drives over UDP.

`src/` is the library, written in Verus and proved against its contracts:

- `node_def`, `header`, `params`, `layout`, `shader`: node definitions, the
  `//!` header they are declared with, parameter declarations, the std140
  uniform layout and the WGSL that wraps a node's fragment body.
- `graph`, `graph_params`, `graph_view`: node graphs, their validation and
  evaluation order, parameter lookup and storage, and where the UI draws
  each node.
- `protocol`, `link`: splitting a parameter description into datagrams and
  reassembling it, and the UI's side of the link to a renderer.
- `timeline`, `modulate`, `keys`: cue ids and transitions, modulation source
  ids and LFO shapes, and learned keys.
- `supervisor`, `projects`, `shell`: the renderer supervisor's decisions,
  project discovery and what the project list shows.
- `camera`: what a camera node shows of a captured frame.
- `args`: the renderer's and the timeline UI's command lines.
- `text`: the string operations everything above is built on.

`app/` is ordinary Rust around the library: parameter values and everything
computed on them in floating point (conforming, interpolation, modulation,
timeline evaluation, uniform bytes), JSON and the UDP wire format, reading
node files and project directories, and running renderer processes.

`tests/` exercises the library from outside.
