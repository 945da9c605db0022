//! Assembly of embedded GLSL shader sources: directive parsing, include
//! resolution, profiler instrumentation and mapping of compiler diagnostics
//! back onto the embedded tokens.
//!
//! - `text`: character-sequence primitives (search, brace matching, decimals).
//! - `directive`: the `key = value` tokens of an invocation.
//! - `assemble`: flattening of `#include` directives over a table of files.
//! - `profiler`: scope markers, the scope table and the instrumented text.
//! - `diagnostics`: compiler output split into located diagnostics.
//! - `pipeline`: the stages of one invocation and the text of its result.

pub mod text;
pub mod profiler;
pub mod assemble;
pub mod diagnostics;
pub mod directive;
pub mod pipeline;
