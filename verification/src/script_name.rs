//! Script names: named (slash-separated identifiers) or anonymous (a number,
//! displayed `.N`), with the name grammar, display form, file-path form, and
//! the ordering used by tie-breaks.
use crate::error::{Error, FormatCode};
use crate::strutil::{
    all_digits, check_all_digits, contains_char, dec_repr, dec_value, is_substring, lex_lt,
    parse_u32_digits, spec_split, split_str, str_contains, str_contains_char, u64_to_string,
};
use vstd::prelude::*;
use vstd::string::*;

verus! {

/// Directory that holds anonymous scripts.
pub const ANONYMOUS_DIR: &'static str = ".anonymous";

/// The named-script grammar: nonempty, no whitespace, not starting with `-`
/// or `.`, no `..`, and slash-separated without leading, trailing or double
/// slashes.
pub open spec fn legal_named(s: Seq<char>) -> bool {
    &&& s.len() > 0
    &&& s[0] != '-'
    &&& s[0] != '.'
    &&& s[0] != '/'
    &&& s.last() != '/'
    &&& forall|i: int|
        0 <= i < s.len() ==> !crate::strutil::is_whitespace_char(#[trigger] s[i])
    &&& !is_substring(s, ".."@)
    &&& !is_substring(s, "//"@)
}

/// A script's name: an auto-numbered anonymous script or a named one.
#[derive(Debug)]
pub enum ScriptName {
    Anonymous(u32),
    Named(String),
}

impl Clone for ScriptName {
    fn clone(&self) -> (r: Self)
        ensures
            r == *self,
    {
        match self {
            ScriptName::Anonymous(id) => ScriptName::Anonymous(*id),
            ScriptName::Named(s) => ScriptName::Named(s.clone()),
        }
    }
}

/// Checks a name against the grammar. For text starting with `.`, the rest
/// must be a number: the anonymous id, returned as `Some`. Other text must
/// obey the named-script grammar and yields `None`.
pub open spec fn spec_valid(s: Seq<char>) -> Result<Option<u32>, ()> {
    if s.len() > 0 && s[0] == '.' {
        if s.skip(1).len() > 0 && all_digits(s.skip(1)) && dec_value(s.skip(1)) <= u32::MAX {
            Ok(Some(dec_value(s.skip(1)) as u32))
        } else {
            Err(())
        }
    } else if legal_named(s) {
        Ok(None)
    } else {
        Err(())
    }
}

impl ScriptName {
    /// The name is well formed: a legal named form, or any anonymous number.
    pub open spec fn wf(&self) -> bool {
        match self {
            ScriptName::Anonymous(_) => true,
            ScriptName::Named(s) => legal_named(s@),
        }
    }

    /// The display form: `.N` for anonymous, the name itself otherwise.
    pub open spec fn spec_key(&self) -> Seq<char> {
        match self {
            ScriptName::Anonymous(id) => seq!['.'] + dec_repr(*id as nat),
            ScriptName::Named(s) => s@,
        }
    }

    /// Check a piece of text against the name grammar; `Some(id)` means it is
    /// the display form of an anonymous script.
    pub fn valid(s: &str) -> (r: Result<Option<u32>, Error>)
        ensures
            r is Ok <==> spec_valid(s@) is Ok,
            r matches Ok(o) ==> spec_valid(s@) == Result::<Option<u32>, ()>::Ok(o),
            r matches Err(e) ==> e matches Error::Format(c, t) && c == FormatCode::ScriptName && t@
                == s@,
    {
        let len = s.unicode_len();
        if len > 0 && s.get_char(0) == '.' {
            let rest = s.substring_char(1, len);
            proof {
                assert(rest@ =~= s@.skip(1));
            }
            match parse_u32_digits(rest) {
                Some(id) => Ok(Some(id)),
                None => Err(Error::Format(FormatCode::ScriptName, String::from_str(s))),
            }
        } else {
            proof {
                reveal_strlit("..");
                reveal_strlit("//");
            }
            let named_ok = len > 0 && s.get_char(0) != '-' && s.get_char(0) != '/' && s.get_char(
                len - 1,
            ) != '/' && !crate::strutil::str_contains_whitespace(s) && !str_contains(s, "..")
                && !str_contains(s, "//");
            if named_ok {
                Ok(None)
            } else {
                Err(Error::Format(FormatCode::ScriptName, String::from_str(s)))
            }
        }
    }

    /// Whether this is an anonymous script.
    pub fn is_anonymous(&self) -> (r: bool)
        ensures
            r == (self is Anonymous),
    {
        match self {
            ScriptName::Anonymous(_) => true,
            _ => false,
        }
    }

    /// The display form of the name.
    pub fn key(&self) -> (r: String)
        ensures
            r@ == self.spec_key(),
    {
        match self {
            ScriptName::Anonymous(id) => {
                proof {
                    reveal_strlit(".");
                }
                let mut out = String::from_str(".");
                let digits = u64_to_string(*id as u64);
                out.append(digits.as_str());
                proof {
                    assert(out@ =~= self.spec_key());
                }
                out
            },
            ScriptName::Named(s) => s.clone(),
        }
    }

    /// The namespaces of a named script: every path piece but the last.
    /// Anonymous scripts have none.
    pub fn namespaces(&self) -> (r: Vec<String>)
        ensures
            self is Anonymous ==> r.deep_view() == Seq::<Seq<char>>::empty(),
            self matches ScriptName::Named(s) ==> r.deep_view() == spec_split(
                s@,
                '/',
            ).drop_last(),
    {
        match self {
            ScriptName::Anonymous(_) => {
                let r: Vec<String> = Vec::new();
                proof {
                    assert(r.deep_view() =~= Seq::<Seq<char>>::empty());
                }
                r
            },
            ScriptName::Named(s) => {
                let mut v = split_str(s.as_str(), '/');
                let _last = v.pop();
                proof {
                    assert(v.deep_view() =~= spec_split(s@, '/').drop_last());
                }
                v
            },
        }
    }

    /// The path of the script's file relative to the data directory: anonymous
    /// scripts live in the reserved directory under their number, named ones
    /// under their name; `ext`, when given, is appended after a dot.
    pub fn to_file_path(&self, ext: Option<&str>) -> (r: String)
        ensures
            r@ == self.spec_file_path(match ext {
                Some(e) => Some(e@),
                None => None,
            }),
    {
        proof {
            reveal_strlit(".");
            reveal_strlit("/");
            reveal_strlit(".anonymous");
        }
        let mut out: String = match self {
            ScriptName::Anonymous(id) => {
                let mut o = String::from_str(ANONYMOUS_DIR);
                o.append("/");
                let digits = u64_to_string(*id as u64);
                o.append(digits.as_str());
                o
            },
            ScriptName::Named(s) => s.clone(),
        };
        match ext {
            Some(e) => {
                out.append(".");
                out.append(e);
            },
            None => {},
        }
        proof {
            assert(out@ =~= self.spec_file_path(match ext {
                Some(e) => Some(e@),
                None => None,
            }));
        }
        out
    }

    /// The file path as a specification.
    pub open spec fn spec_file_path(&self, ext: Option<Seq<char>>) -> Seq<char> {
        let stem = match self {
            ScriptName::Anonymous(id) => ".anonymous"@ + seq!['/'] + dec_repr(*id as nat),
            ScriptName::Named(s) => s@,
        };
        match ext {
            Some(e) => stem + seq!['.'] + e,
            None => stem,
        }
    }

    /// Strict order on names: named before anonymous, named ones
    /// lexicographic, anonymous ones numeric.
    pub open spec fn spec_lt(&self, other: &ScriptName) -> bool {
        match (self, other) {
            (ScriptName::Named(a), ScriptName::Named(b)) => lex_lt(a@, b@),
            (ScriptName::Anonymous(a), ScriptName::Anonymous(b)) => *a < *b,
            (ScriptName::Named(_), ScriptName::Anonymous(_)) => true,
            (ScriptName::Anonymous(_), ScriptName::Named(_)) => false,
        }
    }

    /// Strict order on names; see `spec_lt`.
    pub fn lt(&self, other: &ScriptName) -> (r: bool)
        ensures
            r == self.spec_lt(other),
    {
        match (self, other) {
            (ScriptName::Named(a), ScriptName::Named(b)) => crate::strutil::str_lex_lt(
                a.as_str(),
                b.as_str(),
            ),
            (ScriptName::Anonymous(a), ScriptName::Anonymous(b)) => *a < *b,
            (ScriptName::Named(_), ScriptName::Anonymous(_)) => true,
            (ScriptName::Anonymous(_), ScriptName::Named(_)) => false,
        }
    }

    /// Textual equality of the display forms. For well-formed names this is
    /// the name equality of the data model.
    pub fn eq_name(&self, other: &ScriptName) -> (r: bool)
        requires
            self.wf(),
            other.wf(),
        ensures
            r == (self.spec_key() == other.spec_key()),
    {
        match (self, other) {
            (ScriptName::Named(a), ScriptName::Named(b)) => crate::strutil::str_eq(
                a.as_str(),
                b.as_str(),
            ),
            (ScriptName::Anonymous(a), ScriptName::Anonymous(b)) => {
                proof {
                    if *a != *b {
                        lemma_dec_repr_injective(*a as nat, *b as nat);
                        if self.spec_key() == other.spec_key() {
                            assert(self.spec_key().skip(1) =~= dec_repr(*a as nat));
                            assert(other.spec_key().skip(1) =~= dec_repr(*b as nat));
                        }
                    }
                }
                a == b
            },
            (ScriptName::Named(a), ScriptName::Anonymous(b)) => {
                proof {
                    lemma_dec_repr_digits(*b as nat);
                    assert(self.spec_key()[0] == a@[0]);
                    assert(other.spec_key()[0] == '.');
                    assert(a@[0] != '.');
                }
                false
            },
            (ScriptName::Anonymous(a), ScriptName::Named(b)) => {
                proof {
                    lemma_dec_repr_digits(*a as nat);
                    assert(self.spec_key()[0] == '.');
                    assert(other.spec_key()[0] == b@[0]);
                    assert(b@[0] != '.');
                }
                false
            },
        }
    }
}

/// The canonical decimal form is made of digits.
pub proof fn lemma_dec_repr_digits(n: nat)
    ensures
        dec_repr(n).len() >= 1,
        all_digits(dec_repr(n)),
    decreases n,
{
    if n >= 10 {
        lemma_dec_repr_digits(n / 10);
    }
}

/// Distinct numbers have distinct canonical decimal forms.
pub proof fn lemma_dec_repr_injective(a: nat, b: nat)
    requires
        a != b,
    ensures
        dec_repr(a) != dec_repr(b),
    decreases a + b,
{
    lemma_dec_repr_digits(a);
    lemma_dec_repr_digits(b);
    if a < 10 && b < 10 {
        assert(dec_repr(a)[0] != dec_repr(b)[0]);
    } else if a < 10 && b >= 10 {
        lemma_dec_repr_digits(b / 10);
        assert(dec_repr(b).len() >= 2);
    } else if a >= 10 && b < 10 {
        lemma_dec_repr_digits(a / 10);
        assert(dec_repr(a).len() >= 2);
    } else {
        if a % 10 != b % 10 {
            assert(dec_repr(a).last() != dec_repr(b).last());
        } else {
            lemma_dec_repr_injective(a / 10, b / 10);
            if dec_repr(a) == dec_repr(b) {
                assert(dec_repr(a).drop_last() =~= dec_repr(a / 10));
                assert(dec_repr(b).drop_last() =~= dec_repr(b / 10));
            }
        }
    }
}

/// What a piece of text names: parsing yields an anonymous name for `.N`
/// forms, a named one otherwise, and an error outside the grammar.
pub fn string_into_script_name(s: String) -> (r: Result<ScriptName, Error>)
    ensures
        r is Ok <==> spec_valid(s@) is Ok,
        r matches Ok(n) ==> n.wf() && (match spec_valid(s@) {
            Ok(Some(id)) => n == ScriptName::Anonymous(id),
            Ok(None) => n matches ScriptName::Named(t) && t@ == s@,
            Err(_) => false,
        }),
        r matches Err(e) ==> e matches Error::Format(c, t) && c == FormatCode::ScriptName && t@
            == s@,
{
    match ScriptName::valid(s.as_str()) {
        Ok(Some(id)) => Ok(ScriptName::Anonymous(id)),
        Ok(None) => Ok(ScriptName::Named(s)),
        Err(e) => Err(e),
    }
}

/// Conversion into a script name; kept for callers that are generic over the
/// source of a name.
pub trait IntoScriptName: Sized {
    /// Convert into a script name, or report a format error.
    fn into_script_name(self) -> Result<ScriptName, Error>;
}

impl IntoScriptName for String {
    fn into_script_name(self) -> Result<ScriptName, Error> {
        string_into_script_name(self)
    }
}

impl IntoScriptName for ScriptName {
    fn into_script_name(self) -> Result<ScriptName, Error> {
        Ok(self)
    }
}

} // verus!
