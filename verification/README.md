# wgpu_tensor

Tensors whose elements live in the memory of a GPU, with the bookkeeping around them verified by
Verus.

A tensor is a buffer of the device and a strided layout: a shape, a stride for each dimension, and
an offset. Moving, repeating and cutting dimensions, and most reshapes, change the layout and share
the buffer. Everything else is a program that the device runs: the library decides how the work is
spread over workgroups, which words the program reads about its tensors, and what the program's
source is.

The library never talks to a device. Functions that need one take closures that run a program,
copy data to the device, or read a buffer back, and their contracts say exactly what those closures
are handed and what becomes of what they return.

- `src/shape.rs`, `src/strided.rs`: shapes, multi-indices and layouts as mathematics.
- `src/shape_strider.rs`: layouts at run time.
- `src/workgroups.rs`: how work is spread over threads.
- `src/operation.rs`, `src/text.rs`, `src/shader.rs`, `src/templates.rs`: the operations, and the
  WGSL programs that compute them.
- `src/device.rs`: the cache of compiled programs.
- `src/dispatch.rs`: what the device is told for one operation.
- `src/raw_tensor.rs`: the tensors.
- `src/laws.rs`, `src/elements.rs`: what holds of the library as a whole, and what the operations do
  to the elements on a device that does what it is told.
- `src/shared.rs`: handles that several owners hold.
- `app/`: the tensors on a device of the `wgpu` crate.
