//! Account, credential and SSH-configuration logic of the git identity switcher.
pub mod text;
pub mod ssh_config;
pub mod git_config;
pub mod accounts;
pub mod oauth;
pub mod validate;
pub mod shell_env;
