//! Where vanadis keeps its files.
//!
//! `$VANADIS_CONFIG` replaces the whole config directory, and the state file stays outside
//! it, under `$XDG_STATE_HOME`.

use vstd::prelude::*;

use crate::location::{join, join_spec};

verus! {

/// The variables the paths are resolved out of.
#[derive(Debug)]
pub struct Environment {
    vanadis_config: Option<String>,
    xdg_config_home: Option<String>,
    xdg_state_home: Option<String>,
    home: Option<String>,
}

/// The environment as plain values.
pub struct EnvironmentView {
    pub vanadis_config: Option<Seq<char>>,
    pub xdg_config_home: Option<Seq<char>>,
    pub xdg_state_home: Option<Seq<char>>,
    pub home: Option<Seq<char>>,
}

/// An optional string as a plain value.
pub open spec fn text_view(value: Option<String>) -> Option<Seq<char>> {
    match value {
        Some(text) => Some(text@),
        None => None,
    }
}

impl View for Environment {
    type V = EnvironmentView;

    closed spec fn view(&self) -> EnvironmentView {
        EnvironmentView {
            vanadis_config: text_view(self.vanadis_config),
            xdg_config_home: text_view(self.xdg_config_home),
            xdg_state_home: text_view(self.xdg_state_home),
            home: text_view(self.home),
        }
    }
}

/// A path could not be resolved.
#[derive(Debug)]
pub enum PathsError {
    /// Nothing names the directory and there is no home directory to fall back on.
    NoHome {
        /// What was being located.
        what: &'static str,
        /// The variable that would have answered.
        variable: &'static str,
    },
}

/// `value`, treating the empty string a variable can hold as unset.
pub open spec fn set_spec(value: Option<Seq<char>>) -> Option<Seq<char>> {
    match value {
        Some(text) => if text.len() > 0 {
            Some(text)
        } else {
            None
        },
        None => None,
    }
}

/// The config directory, or `None` when nothing names it and there is no home directory.
pub open spec fn config_dir_spec(env: EnvironmentView) -> Option<Seq<char>> {
    if set_spec(env.vanadis_config) is Some {
        set_spec(env.vanadis_config)
    } else if set_spec(env.xdg_config_home) is Some {
        Some(join_spec(set_spec(env.xdg_config_home)->0, "vanadis"@))
    } else if set_spec(env.home) is Some {
        Some(join_spec(join_spec(set_spec(env.home)->0, ".config"@), "vanadis"@))
    } else {
        None
    }
}

/// The state file, or `None` when nothing names it and there is no home directory.
pub open spec fn state_file_spec(env: EnvironmentView) -> Option<Seq<char>> {
    if set_spec(env.xdg_state_home) is Some {
        Some(join_spec(join_spec(set_spec(env.xdg_state_home)->0, "vanadis"@), "state.toml"@))
    } else if set_spec(env.home) is Some {
        Some(
            join_spec(
                join_spec(join_spec(join_spec(set_spec(env.home)->0, ".local"@), "state"@), "vanadis"@),
                "state.toml"@,
            ),
        )
    } else {
        None
    }
}

/// `value`, treating the empty string as unset.
fn set(value: &Option<String>) -> (set: Option<&String>)
    ensures
        match set {
            Some(text) => set_spec(text_view(*value)) == Some(text@),
            None => set_spec(text_view(*value)) is None,
        },
{
    match value {
        Some(text) => if text.as_str().unicode_len() > 0 {
            Some(text)
        } else {
            None
        },
        None => None,
    }
}

impl Environment {
    /// An environment holding these variables; the process's own is read where the process
    /// is.
    pub fn new(
        vanadis_config: Option<String>,
        xdg_config_home: Option<String>,
        xdg_state_home: Option<String>,
        home: Option<String>,
    ) -> (env: Environment)
        ensures
            env@ == (EnvironmentView {
                vanadis_config: text_view(vanadis_config),
                xdg_config_home: text_view(xdg_config_home),
                xdg_state_home: text_view(xdg_state_home),
                home: text_view(home),
            }),
    {
        Environment { vanadis_config, xdg_config_home, xdg_state_home, home }
    }

    /// The home directory, when the environment names one.
    pub fn home(&self) -> (home: Option<&str>)
        ensures
            match home {
                Some(text) => set_spec(self@.home) == Some(text@),
                None => set_spec(self@.home) is None,
            },
    {
        match set(&self.home) {
            Some(text) => Some(text.as_str()),
            None => None,
        }
    }

    /// The directory holding `config.toml` and `themes/`.
    pub fn config_dir(&self) -> (dir: Result<String, PathsError>)
        ensures
            match dir {
                Ok(path) => config_dir_spec(self@) == Some(path@),
                Err(PathsError::NoHome { what, variable }) => config_dir_spec(self@) is None
                    && what@ == "config directory"@ && variable@ == "XDG_CONFIG_HOME"@,
            },
    {
        if let Some(directory) = set(&self.vanadis_config) {
            return Ok(directory.clone());
        }
        if let Some(directory) = set(&self.xdg_config_home) {
            return Ok(join(directory.as_str(), "vanadis"));
        }
        match set(&self.home) {
            Some(home) => {
                let config = join(home.as_str(), ".config");
                Ok(join(config.as_str(), "vanadis"))
            },
            None => Err(PathsError::NoHome { what: "config directory", variable: "XDG_CONFIG_HOME" }),
        }
    }

    /// The directory themes are discovered in.
    pub fn themes_dir(&self) -> (dir: Result<String, PathsError>)
        ensures
            match dir {
                Ok(path) => config_dir_spec(self@) is Some && path@ == join_spec(
                    config_dir_spec(self@)->0,
                    "themes"@,
                ),
                Err(PathsError::NoHome { what, variable }) => config_dir_spec(self@) is None
                    && what@ == "config directory"@ && variable@ == "XDG_CONFIG_HOME"@,
            },
    {
        match self.config_dir() {
            Ok(directory) => Ok(join(directory.as_str(), "themes")),
            Err(error) => Err(error),
        }
    }

    /// The file recording the applied theme.
    pub fn state_file(&self) -> (file: Result<String, PathsError>)
        ensures
            match file {
                Ok(path) => state_file_spec(self@) == Some(path@),
                Err(PathsError::NoHome { what, variable }) => state_file_spec(self@) is None
                    && what@ == "state file"@ && variable@ == "XDG_STATE_HOME"@,
            },
    {
        if let Some(directory) = set(&self.xdg_state_home) {
            let base = join(directory.as_str(), "vanadis");
            return Ok(join(base.as_str(), "state.toml"));
        }
        match set(&self.home) {
            Some(home) => {
                let local = join(home.as_str(), ".local");
                let state = join(local.as_str(), "state");
                let base = join(state.as_str(), "vanadis");
                Ok(join(base.as_str(), "state.toml"))
            },
            None => Err(PathsError::NoHome { what: "state file", variable: "XDG_STATE_HOME" }),
        }
    }
}

/// The scheme cache, or `None` when nothing names it and there is no home directory.
pub open spec fn schemes_dir_spec(xdg_cache_home: Option<Seq<char>>, home: Option<Seq<char>>) -> Option<Seq<char>> {
    if set_spec(xdg_cache_home) is Some {
        Some(join_spec(join_spec(set_spec(xdg_cache_home)->0, "vanadis"@), "schemes"@))
    } else if set_spec(home) is Some {
        Some(join_spec(join_spec(join_spec(set_spec(home)->0, ".cache"@), "vanadis"@), "schemes"@))
    } else {
        None
    }
}

/// The directory the fetched scheme collection is cached in: under `$XDG_CACHE_HOME`, or
/// `~/.cache` without it. An empty variable counts as unset.
pub fn schemes_dir(xdg_cache_home: Option<String>, home: Option<String>) -> (dir: Result<String, PathsError>)
    ensures
        match dir {
            Ok(path) => schemes_dir_spec(text_view(xdg_cache_home), text_view(home)) == Some(path@),
            Err(PathsError::NoHome { what, variable }) => schemes_dir_spec(text_view(xdg_cache_home), text_view(home))
                is None && what@ == "scheme cache"@ && variable@ == "XDG_CACHE_HOME"@,
        },
{
    proof {
        reveal_strlit("scheme cache");
        reveal_strlit("XDG_CACHE_HOME");
    }
    if let Some(directory) = set(&xdg_cache_home) {
        let base = join(directory.as_str(), "vanadis");
        return Ok(join(base.as_str(), "schemes"));
    }
    match set(&home) {
        Some(home) => {
            let cache = join(home.as_str(), ".cache");
            let base = join(cache.as_str(), "vanadis");
            Ok(join(base.as_str(), "schemes"))
        },
        None => Err(PathsError::NoHome { what: "scheme cache", variable: "XDG_CACHE_HOME" }),
    }
}

impl PathsError {
    /// What the error says.
    pub fn message(&self) -> (text: String)
        ensures
            match self {
                PathsError::NoHome { what, variable } => text@ == "cannot locate the "@ + what@
                    + ": neither $"@ + variable@ + " nor a home directory is set"@,
            },
    {
        match self {
            PathsError::NoHome { what, variable } => {
                let mut out: Vec<char> = Vec::new();
                crate::text::push_str(&mut out, "cannot locate the ");
                crate::text::push_str(&mut out, what);
                crate::text::push_str(&mut out, ": neither $");
                crate::text::push_str(&mut out, variable);
                crate::text::push_str(&mut out, " nor a home directory is set");
                crate::text::string_of(out.as_slice())
            },
        }
    }
}

} // verus!
