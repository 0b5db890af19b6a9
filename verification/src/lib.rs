//! The verified core of a simple SSH connection manager: the server list and
//! its groups, the sidebar, the encrypted store, the login lockout, the `ssh`
//! command line, and the decisions behind the windows and dialogs.

pub mod command;
pub mod groups;
pub mod layout;
pub mod lockout;
pub mod login;
pub mod outline;
pub mod servers;
pub mod sidebar;
pub mod store;
pub mod text;
pub mod windows;
