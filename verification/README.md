# iced_texture_cache

A render-to-texture cache for retained-mode UIs: content is rasterised once
into a texture and composited every frame until it is invalidated, resized or
rescaled.

`src/` is the verified core, proved with Verus:

- `texture_cache` — the caller-owned cache handle and its identity.
- `record`, `store` — the record decisions a store makes before touching a
  texture, the per-cache entries, and the pools kept between frames.
- `pixels` — the software path on bytes: pixmap to image conversion, block
  downsample, crop and the three-box blur, each with its exact result.
- `blur` — what a blur request means on integers: downscale, derived size
  and identity.
- `filter`, `snap` — the filter tiers and the device-grid snapping policy.
- `switch` — which page a sliding pager shows and lays out.
- `surface` — the swapchain format choice.
- `size`, `warp`, `renderer`, `chip` — small types the rest share.

`app/` holds what works on floating point, on process-wide statics and on the
rendering crates' own types: the blur's float front end and Gaussian plan,
composite geometry, the genie warp, the wgpu format conversion and the
software cache store built on the verified bookkeeping.

Not here: the widgets (`Cached`, `Pager`, `ContentStack`, `Frosted`), the
renderer and compositor layers, the GPU cache store and blur pipelines, and
the software store's rounded corners. The widgets need the `iced_animate`
crate and the `ancestors` and `reaction` modules, the GPU path its shader
sources, and the rounded corners a coverage function of the geometry module
(`rounded_coverage`, with `padded_corners` beside it) whose definition this
tree does not have. The decisions they make are the verified ones above.

`tests/` exercises the library from outside.
