# ruau

The verified core of an embedding of the Luau language: module identities and
resolution, host declarations and their schemas, type-check planning, durable
actor state, buffers, value conversion, chunk compilation settings,
configuration files, runner settings and the texts of errors.

- `src/` is the library. Every function states what it returns in `requires`
  and `ensures`, and Verus proves it. The public `law_*` proof functions state
  what holds between functions.
- `app/` is ordinary Rust around it: files, clocks, locks, futures and
  floating-point numbers.
- `tests/` runs the library on concrete values.

What the virtual machine and its parser compute reaches the library as plain
values: diagnostics, syntax trees as JSON text, require traces, coerced values
and handles.

## Trusted items

The proofs rest on a few declared items of other crates and of the standard
library, each with a doc comment that says what it claims:

| item | calls |
| --- | --- |
| `text::string_of` | `String::from_iter` over characters |
| `text::debug_quoted` | the `Debug` text of a string |
| `text::utf8_text` | `std::str::from_utf8` |
| `analyzer::native::lossy_string` | `String::from_utf8_lossy` |
| `json::parse_value`, `json::json_of` | `serde_json::from_str`, `serde_json::Value` |
| `error::chain_messages` | `anyhow::Error::chain` |
| `conversion::cast_to_u32` | `num_traits::cast` |
| `conversion::char_of` | `char::from_u32` |
