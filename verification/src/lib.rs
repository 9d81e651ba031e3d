//! A small server runtime core and a human-readable byte-size value.
//!
//! `size` holds [`Size`]: an exact byte count parsed from strings such as
//! `"1 MiB"` or `"500kb"` and formatted back into decimal or binary units.
//! `server` holds the accept/drain/terminate state machine that coordinates
//! an orderly shutdown of a connection-serving loop; the I/O loop that feeds
//! it events lives outside this library.

pub mod server;
pub mod size;

pub use size::ParseSizeError;
pub use size::Size;
pub use size::SizeErrorKind;
pub use server::Action;
pub use server::Coordinator;
pub use server::Event;
pub use server::Phase;
pub use server::RunReport;
pub use server::run_events;
