//! One module for each package manager.
pub mod cargo;
pub mod cargo_laws;
pub mod docker;
pub mod docker_laws;
pub mod github_actions;
pub mod github_actions_laws;
pub mod npm;
pub mod npm_laws;
pub mod pypi;
pub mod pyproject;
pub mod pyproject_laws;
pub mod requirements;
pub mod requirements_laws;
