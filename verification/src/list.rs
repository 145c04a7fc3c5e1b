//! Listing options: how listed scripts are identified, grouped and styled.
use crate::query::ListQuery;
use crate::script::ScriptTime;
use crate::strutil::dec_repr;
use vstd::prelude::*;
use vstd::string::*;

verus! {

/// How a listed script is identified.
#[derive(Debug, Clone, Copy, PartialEq, Eq, Structural)]
pub enum DisplayIdentStyle {
    File,
    Name,
    Normal,
    NameAndFile,
}

/// The listing style: a short one-line form, or a long table.
#[derive(Debug)]
pub enum DisplayStyle<T, U> {
    Short(DisplayIdentStyle, U),
    Long(T),
}

/// How listed scripts are grouped.
#[derive(Debug, Clone, Copy, PartialEq, Eq, Structural)]
pub enum Grouping {
    Tag,
    Tree,
    Flat,
}

impl Grouping {
    /// Whether no grouping was asked for.
    pub fn is_none(self) -> (r: bool)
        ensures
            r == (self == Grouping::Flat),
    {
        self == Grouping::Flat
    }

    /// The grouping a mode name denotes; only the three known names occur.
    pub fn from_name(s: &str) -> (r: Grouping)
        requires
            s@ == "tag"@ || s@ == "tree"@ || s@ == "none"@,
        ensures
            r == (if s@ == "tag"@ {
                Grouping::Tag
            } else if s@ == "tree"@ {
                Grouping::Tree
            } else {
                Grouping::Flat
            }),
    {
        proof {
            reveal_strlit("tag");
            reveal_strlit("tree");
            reveal_strlit("none");
        }
        if crate::strutil::str_eq(s, "tag") {
            Grouping::Tag
        } else if crate::strutil::str_eq(s, "tree") {
            Grouping::Tree
        } else {
            Grouping::Flat
        }
    }
}

/// What a listing prints and how.
#[derive(Debug)]
pub struct ListOptions<T, U> {
    pub grouping: Grouping,
    pub queries: Vec<ListQuery>,
    pub plain: bool,
    pub display_style: DisplayStyle<T, U>,
}

/// A timestamp's display text: `Never` when absent, its number otherwise.
pub fn time_str(time: &Option<ScriptTime>) -> (r: String)
    ensures
        time is None ==> r@ == "Never"@,
        time matches Some(t) ==> (t.time >= 0 ==> r@ == dec_repr(t.time as nat)) && (t.time < 0
            ==> r@ == seq!['-'] + dec_repr((-(t.time as int)) as nat)),
{
    match time {
        None => {
            proof {
                reveal_strlit("Never");
            }
            String::from_str("Never")
        },
        Some(t) => crate::strutil::i64_to_string(t.time),
    }
}

} // verus!
