//! Reading an upstream colour scheme into the theme model.
//!
//! The scheme's YAML is read by `saphyr` and lowered into plain values; everything a
//! converter decides about those values is here and verified.

use vstd::prelude::*;

use crate::text::{push_str, string_of};

pub mod yaml;
pub mod convert;
pub mod cache;

verus! {

/// A scheme system of the tinted-theming collection, which is also the directory a scheme
/// is filed under.
#[derive(Debug, Clone, Copy, PartialEq, Eq, Structural)]
pub enum System {
    /// `base16`: sixteen slots.
    Base16,
    /// `base24`: base16's sixteen and eight more.
    Base24,
    /// `tinted8`: a palette of hues and the roles drawn on it.
    Tinted8,
}

/// The directory name of `system`.
pub open spec fn system_name(system: System) -> Seq<char> {
    match system {
        System::Base16 => "base16"@,
        System::Base24 => "base24"@,
        System::Tinted8 => "tinted8"@,
    }
}

impl System {
    /// Every system, in the order the collection lists them.
    pub fn all() -> (systems: [System; 3])
        ensures
            systems@ == seq![System::Base16, System::Base24, System::Tinted8],
    {
        let systems = [System::Base16, System::Base24, System::Tinted8];
        proof {
            assert(systems@ =~= seq![System::Base16, System::Base24, System::Tinted8]);
        }
        systems
    }

    /// The system `text` names, or `None` when it names none of them.
    pub fn parse(text: &str) -> (system: Option<System>)
        ensures
            match system {
                Some(s) => system_name(s) == text@,
                None => text@ != "base16"@ && text@ != "base24"@ && text@ != "tinted8"@,
            },
    {
        proof {
            reveal_strlit("base16");
            reveal_strlit("base24");
            reveal_strlit("tinted8");
        }
        let chars = crate::text::chars_of(text);
        let base16 = crate::text::chars_of("base16");
        let base24 = crate::text::chars_of("base24");
        let tinted8 = crate::text::chars_of("tinted8");
        if crate::text::same_chars(chars.as_slice(), base16.as_slice()) {
            Some(System::Base16)
        } else if crate::text::same_chars(chars.as_slice(), base24.as_slice()) {
            Some(System::Base24)
        } else if crate::text::same_chars(chars.as_slice(), tinted8.as_slice()) {
            Some(System::Tinted8)
        } else {
            None
        }
    }

    /// The directory name the collection files the system under.
    pub fn as_str(self) -> (name: &'static str)
        ensures
            name@ == system_name(self),
    {
        proof {
            reveal_strlit("base16");
            reveal_strlit("base24");
            reveal_strlit("tinted8");
        }
        match self {
            System::Base16 => "base16",
            System::Base24 => "base24",
            System::Tinted8 => "tinted8",
        }
    }
}

/// What a scheme does not say that reading it needs.
#[derive(Debug, PartialEq, Eq)]
pub enum Problem {
    /// The text is not YAML; what the parser says is wrong.
    Yaml(String),
    /// The YAML holds no document, or one that is not a mapping.
    Document,
    /// A key the scheme has to write is not written.
    Missing(&'static str),
    /// A key is written and holds the wrong kind of value.
    Type {
        /// The key, dotted from the document's root.
        key: String,
        /// What it has to hold.
        expected: &'static str,
    },
    /// `variant` is written and is neither `dark` nor `light`.
    Variant(String),
    /// `system` names a scheme system that is not converted.
    System(String),
}

/// A problem as plain values.
pub enum ProblemView {
    Yaml(Seq<char>),
    Document,
    Missing(Seq<char>),
    Type(Seq<char>, Seq<char>),
    Variant(Seq<char>),
    System(Seq<char>),
}

impl View for Problem {
    type V = ProblemView;

    open spec fn view(&self) -> ProblemView {
        match self {
            Problem::Yaml(message) => ProblemView::Yaml(message@),
            Problem::Document => ProblemView::Document,
            Problem::Missing(key) => ProblemView::Missing(key@),
            Problem::Type { key, expected } => ProblemView::Type(key@, expected@),
            Problem::Variant(variant) => ProblemView::Variant(variant@),
            Problem::System(system) => ProblemView::System(system@),
        }
    }
}

/// The sentence a problem is reported with.
pub open spec fn problem_text(p: ProblemView) -> Seq<char> {
    match p {
        ProblemView::Yaml(message) => "the scheme is not valid YAML: "@ + message,
        ProblemView::Document => "the scheme is not a YAML mapping"@,
        ProblemView::Missing(key) => "the scheme does not carry `"@ + key + "`"@,
        ProblemView::Type(key, expected) => "`"@ + key + "` is not "@ + expected,
        ProblemView::Variant(variant) => "`variant` is `"@ + variant
            + "`, which is neither `dark` nor `light`"@,
        ProblemView::System(system) => "`"@ + system + "` is not a scheme system vanadis converts"@,
    }
}

impl Problem {
    /// The sentence the problem is reported with.
    pub fn message(&self) -> (text: String)
        ensures
            text@ == problem_text(self@),
    {
        let mut chars: Vec<char> = Vec::new();
        proof {
            reveal_strlit("the scheme is not valid YAML: ");
            reveal_strlit("the scheme is not a YAML mapping");
            reveal_strlit("the scheme does not carry `");
            reveal_strlit("`");
            reveal_strlit("` is not ");
            reveal_strlit("`variant` is `");
            reveal_strlit("`, which is neither `dark` nor `light`");
            reveal_strlit("` is not a scheme system vanadis converts");
        }
        match self {
            Problem::Yaml(message) => {
                push_str(&mut chars, "the scheme is not valid YAML: ");
                push_str(&mut chars, message.as_str());
            },
            Problem::Document => {
                push_str(&mut chars, "the scheme is not a YAML mapping");
            },
            Problem::Missing(key) => {
                push_str(&mut chars, "the scheme does not carry `");
                push_str(&mut chars, key);
                push_str(&mut chars, "`");
            },
            Problem::Type { key, expected } => {
                push_str(&mut chars, "`");
                push_str(&mut chars, key.as_str());
                push_str(&mut chars, "` is not ");
                push_str(&mut chars, expected);
            },
            Problem::Variant(variant) => {
                push_str(&mut chars, "`variant` is `");
                push_str(&mut chars, variant.as_str());
                push_str(&mut chars, "`, which is neither `dark` nor `light`");
            },
            Problem::System(system) => {
                push_str(&mut chars, "`");
                push_str(&mut chars, system.as_str());
                push_str(&mut chars, "` is not a scheme system vanadis converts");
            },
        }
        proof {
            assert(chars@ =~= problem_text(self@));
        }
        string_of(chars.as_slice())
    }
}

} // verus!
