//! Live-coding shader sandbox core: a shader source resolver that expands
//! textual splice directives between registered sources, a combinator for
//! merging per-frame uniform-value providers, and a planner that turns an
//! ordered render-command list into the primitive actions a GPU layer issues.

pub mod commands;
pub mod shader;
pub mod uniforms;
