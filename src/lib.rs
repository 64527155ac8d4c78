//! Temporary MFA-backed credential sessions: writing a session's credentials into
//! a section of the shared credentials file, and exporting them as statements of
//! the user's shell.
pub mod args;
pub mod credentials;
pub mod error;
pub mod profile;
pub mod session;
pub mod shell;
pub mod text;

pub use args::parse_code;
pub use credentials::{update_profile, Profile};
pub use error::CliError;
pub use profile::{mfa_section_names, mfa_serial_in};
pub use session::{mfa_serial, session_prompt};
pub use shell::Shell;
