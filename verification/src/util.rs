//! Small helpers shared by the orchestration: argument display escaping and
//! renaming a path's last piece.
use crate::bridge::{json_of_str, str_to_json};
use crate::error::Error;
use crate::strutil::contains_char;
use vstd::prelude::*;
use vstd::string::*;

verus! {

/// How an argument is displayed: itself when it is plain — no space, and
/// JSON-escaping would only wrap it in quotes — else its JSON form.
pub open spec fn spec_display_arg(arg: Seq<char>) -> Seq<char> {
    let escaped = json_of_str(arg);
    if !contains_char(arg, ' ') && escaped.len() >= 2 && escaped.subrange(
        1,
        escaped.len() - 1,
    ) == arg {
        arg
    } else {
        escaped
    }
}

/// Display form of one argument; see `spec_display_arg`.
pub fn to_display_args(arg: String) -> (r: Result<String, Error>)
    ensures
        r matches Ok(v) && v@ == spec_display_arg(arg@),
{
    let escaped = str_to_json(arg.as_str());
    let elen = escaped.as_str().unicode_len();
    proof {
        assert(elen >= 2);
    }
    let inner = escaped.as_str().substring_char(1, elen - 1);
    proof {
        assert(inner@ =~= escaped@.subrange(1, escaped@.len() - 1));
    }
    if !crate::strutil::str_contains_char(arg.as_str(), ' ') && crate::strutil::str_eq(
        inner,
        arg.as_str(),
    ) {
        Ok(arg)
    } else {
        Ok(escaped)
    }
}

/// The name with its last slash-separated piece replaced: a name without a
/// slash is replaced whole.
pub open spec fn spec_changed_name(full: Seq<char>, base: Seq<char>) -> Seq<char> {
    match crate::strutil::find_last_slash(full) {
        None => base,
        Some(i) => full.take(i + 1) + base,
    }
}

/// Replace the last piece of a slash-separated name.
pub fn change_name_only(full_name: &str, new_base: &str) -> (r: String)
    ensures
        r@ == spec_changed_name(full_name@, new_base@),
{
    let len = full_name.unicode_len();
    match crate::strutil::find_last_slash_exec(full_name) {
        None => String::from_str(new_base),
        Some(i) => {
            proof {
                assert(i < len);
            }
            let mut out = String::from_str(full_name.substring_char(0, i + 1));
            out.append(new_base);
            proof {
                assert(out@ =~= full_name@.take(i + 1) + new_base@);
            }
            out
        },
    }
}

} // verus!
