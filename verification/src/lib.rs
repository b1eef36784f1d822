//! Builds the config files of command line tools from one palette: reads a theme, and
//! renders each target's template against the tokens it resolves to.
//!
//! The template language is `{{token}}` substitution and nothing else. Everything decided
//! between reading the files and writing them is here, with its contract; reading, writing,
//! fetching and running commands are the caller's.

pub mod text;
pub mod token;
pub mod path_map;
pub mod toml;
pub mod template;
pub mod init;
pub mod theme;
pub mod vocabulary;
pub mod paint;
pub mod location;
pub mod paths;
pub mod config;
pub mod hook;
pub mod state;
pub mod scheme;
pub mod catalog;
pub mod apply;
pub mod check;
pub mod diff;
pub mod remote;
pub mod import;

pub use apply::{plan, render, ApplyError, Plan, Rendered};
pub use catalog::{Catalog, CatalogError};
pub use check::{check, compare, CheckError, Disk, Finding, Report};
pub use config::{Config, ConfigError, Target, TargetName};
pub use diff::unified;
pub use import::{ImportError, Imported};
pub use init::answer::Answer;
pub use init::plan::InitError;
pub use init::scan::{Colour, Occurrence, Scan, Unhandled};
pub use init::weave::Binding;
pub use paths::{Environment, PathsError};
pub use remote::{Installed, RemoteError};
pub use scheme::cache::{Cache, CacheError, Scheme, SchemeError};
pub use scheme::convert::base16::Family;
pub use scheme::convert::{convert, ConvertError, Converted};
pub use scheme::System;
pub use state::{State, StateError};
pub use template::{Template, TemplateError, UndefinedToken};
pub use theme::problem::Problem;
pub use theme::{Theme, ThemeError, ThemeId, Variant};
pub use token::{TokenPath, Tokens};
