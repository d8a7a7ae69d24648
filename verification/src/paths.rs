//! Where the data of the application lies, so that it runs from a removable disk:
//!
//! ```text
//! <binary>
//! media/          what is indexed
//! appdata/
//!   micromedia.db
//!   thumbnails/   {id}.jpg
//!   libs/         the library of the player
//!   config.toml
//! ```

use vstd::prelude::*;
use crate::order::same_text;
use crate::text::{decimal, lemma_decimal_round_trip, texts};
use crate::thumbs::{thumb_filename, thumb_name};

verus! {

broadcast use vstd::string::group_string_axioms;

/// The directory that everything lies below.
#[derive(Debug, Clone, Copy, PartialEq, Eq, Structural)]
pub enum Base {
    /// The one that the environment names.
    Named,
    /// That of the binary.
    Binary,
    /// The current one.
    Current,
    /// `.`, where the current one is not known.
    Here,
}

/// What is known of directories when the base is looked for.
pub struct BaseFacts {
    /// Whether the environment names a base.
    pub named: bool,
    /// Whether the directory of the binary is known.
    pub binary: bool,
    /// The name of that directory, and the name of its parent.
    pub binary_name: Option<String>,
    pub binary_parent: Option<String>,
    /// Whether the current directory is known.
    pub current: bool,
}

/// Whether a directory, by its name and that of its parent, is one that a build
/// puts binaries into.
pub open spec fn build_dir(name: Option<String>, parent: Option<String>) -> bool {
    &&& name matches Some(n) && (n@ == "debug"@ || n@ == "release"@)
    &&& parent matches Some(p) && p@ == "target"@
}

/// The base: the one that is named; else the directory of the binary, unless a
/// build put it there and the current directory is known; else the current one.
pub open spec fn base_of(f: BaseFacts) -> Base {
    if f.named {
        Base::Named
    } else if f.binary {
        if build_dir(f.binary_name, f.binary_parent) && f.current {
            Base::Current
        } else {
            Base::Binary
        }
    } else if f.current {
        Base::Current
    } else {
        Base::Here
    }
}

/// Whether a directory, by its name and that of its parent, is one that a build
/// puts binaries into.
pub fn is_cargo_target(name: &Option<String>, parent: &Option<String>) -> (r: bool)
    ensures
        r == build_dir(*name, *parent),
{
    let profile = match name {
        Some(n) => same_text(n.as_str(), "debug") || same_text(n.as_str(), "release"),
        None => false,
    };
    profile && match parent {
        Some(p) => same_text(p.as_str(), "target"),
        None => false,
    }
}

/// The base.
pub fn base_dir(facts: &BaseFacts) -> (r: Base)
    ensures
        r == base_of(*facts),
{
    if facts.named {
        return Base::Named;
    }
    if facts.binary {
        if is_cargo_target(&facts.binary_name, &facts.binary_parent) && facts.current {
            return Base::Current;
        }
        return Base::Binary;
    }
    if facts.current {
        Base::Current
    } else {
        Base::Here
    }
}

/// The files and directories of the application, below the base.
pub struct Paths {
    pub base: Base,
    pub media: String,
    pub thumbnails: String,
    pub appdata: String,
    pub libs: String,
    pub db: String,
    pub config: String,
}

impl Paths {
    /// Whether everything has its place.
    pub open spec fn wf(&self) -> bool {
        &&& self.media@ == "media"@
        &&& self.thumbnails@ == "appdata/thumbnails"@
        &&& self.appdata@ == "appdata"@
        &&& self.libs@ == "appdata/libs"@
        &&& self.db@ == "appdata/micromedia.db"@
        &&& self.config@ == "appdata/config.toml"@
    }

    /// Everything in its place below the base.
    pub fn resolve(facts: &BaseFacts) -> (r: Paths)
        ensures
            r.wf(),
            r.base == base_of(*facts),
    {
        Paths {
            base: base_dir(facts),
            media: "media".to_string(),
            thumbnails: "appdata/thumbnails".to_string(),
            appdata: "appdata".to_string(),
            libs: "appdata/libs".to_string(),
            db: "appdata/micromedia.db".to_string(),
            config: "appdata/config.toml".to_string(),
        }
    }

    /// The directories that have to be there, in the order in which they are made.
    pub fn dirs(&self) -> (r: Vec<String>)
        ensures
            texts(r@) == seq![self.media@, self.thumbnails@, self.appdata@, self.libs@],
    {
        let mut out: Vec<String> = Vec::new();
        out.push(self.media.clone());
        out.push(self.thumbnails.clone());
        out.push(self.appdata.clone());
        out.push(self.libs.clone());
        assert(texts(out@) =~= seq![self.media@, self.thumbnails@, self.appdata@, self.libs@]);
        out
    }

    /// The thumbnail of a file.
    pub fn thumb_for(&self, file_id: i64) -> (r: String)
        ensures
            r@ == self.thumbnails@ + seq!['/'] + thumb_name(file_id),
    {
        let mut out = self.thumbnails.clone();
        out.push('/');
        let name = thumb_filename(file_id);
        out.append(name.as_str());
        out
    }
}

/// What the file manager is called with to show where a file or a folder is.
#[derive(Debug, Clone, Copy, PartialEq, Eq, Structural)]
pub enum Shown {
    /// The folder itself.
    Itself,
    /// The file, to be marked in its folder.
    Marked,
    /// The folder that the file lies in.
    Around,
}

/// The program that shows where a file or a folder is, and what it is called with.
pub fn location_command(windows: bool, is_folder: bool) -> (r: (&'static str, Shown))
    ensures
        r.0@ == if windows {
            "explorer"@
        } else {
            "xdg-open"@
        },
        r.1 == if is_folder {
            Shown::Itself
        } else if windows {
            Shown::Marked
        } else {
            Shown::Around
        },
{
    let program = if windows {
        "explorer"
    } else {
        "xdg-open"
    };
    let shown = if is_folder {
        Shown::Itself
    } else if windows {
        Shown::Marked
    } else {
        Shown::Around
    };
    (program, shown)
}

/// Two files never share a thumbnail.
pub proof fn law_thumbnails_differ(a: i64, b: i64)
    requires
        a != b,
    ensures
        thumb_name(a) != thumb_name(b),
{
    if thumb_name(a) == thumb_name(b) {
        reveal_strlit(".jpg");
        let x = thumb_name(a);
        assert(x.take(x.len() - 4) =~= decimal(a as int));
        assert(x.take(x.len() - 4) =~= decimal(b as int));
        lemma_decimal_round_trip(a as int, i64::MIN as int, i64::MAX as int);
        lemma_decimal_round_trip(b as int, i64::MIN as int, i64::MAX as int);
    }
}

} // verus!
