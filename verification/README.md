# vrg

The bookkeeping core of a Vulkan render graph, verified with Verus.

- `src/` is the verified library: the named graph of layers and its
  breadth-first walks (`util::graph`), the per-frame submission plan
  (`renderer`), named resource sets (`renderer_data`), descriptor binding
  allocation and pool sizes (`descriptors`), push constants, frame timing
  (`util::frametime`), queue family / memory type / surface choices
  (`device`, `swapchain`) and small resource decisions.
- `app/` is ordinary Rust around it: everything that talks to Vulkan through
  `ash`, the window (`winit`), and the floating point math.
- `tests/` exercises the library on concrete values.
