//! Tags, tag sets, and the tag-selector algebra: a selector is an ordered list
//! of allow/deny controls, evaluated against a script's tag set; a selector
//! group composes selectors with append and mandatory modes.
use crate::error::{Error, FormatCode};
use crate::strutil::{spec_split, split_str, str_eq};
use vstd::prelude::*;
use vstd::string::*;

verus! {

/// A forbidden character anywhere in a tag: whitespace, the selector
/// separators, and the path separator — a tag is one name piece.
pub open spec fn tag_forbidden_char(c: char) -> bool {
    crate::strutil::is_whitespace_char(c) || c == ',' || c == '!' || c == '/'
}

/// The library's tag-name rule, the name rules applied to one identifier:
/// nonempty, no whitespace or separator characters, no `..`, and not
/// starting with a sigil used by selectors or names.
pub open spec fn legal_tag(s: Seq<char>) -> bool {
    &&& s.len() > 0
    &&& s[0] != '-' && s[0] != '.' && s[0] != '+' && s[0] != '^'
    &&& forall|i: int| 0 <= i < s.len() ==> !tag_forbidden_char(s[i])
    &&& !crate::strutil::is_substring(s, ".."@)
}

/// A single tag: a nonempty identifier. The reserved word `all` is a selector
/// sigil and never stored in a script's tag set.
#[derive(Debug)]
pub struct Tag {
    name: String,
}

impl Clone for Tag {
    fn clone(&self) -> (r: Self)
        ensures
            r == *self,
    {
        Tag { name: self.name.clone() }
    }
}

impl View for Tag {
    type V = Seq<char>;

    closed spec fn view(&self) -> Seq<char> {
        self.name@
    }
}

impl Tag {
    /// The tag obeys the tag-name rule.
    pub open spec fn wf(&self) -> bool {
        legal_tag(self@)
    }

    /// The tag is the reserved selector word `all`.
    pub open spec fn spec_is_all(&self) -> bool {
        self@ == "all"@
    }

    /// Parse a tag, rejecting text that breaks the tag-name rule.
    pub fn from_str(s: &str) -> (r: Result<Tag, Error>)
        ensures
            r is Ok <==> legal_tag(s@),
            r matches Ok(t) ==> t@ == s@,
            r matches Err(e) ==> e matches Error::Format(c, t) && c == FormatCode::Tag && t@ == s@,
    {
        let len = s.unicode_len();
        if len == 0 {
            return Err(Error::Format(FormatCode::Tag, String::from_str(s)));
        }
        let first = s.get_char(0);
        if first == '-' || first == '.' || first == '+' || first == '^' {
            return Err(Error::Format(FormatCode::Tag, String::from_str(s)));
        }
        let mut i: usize = 0;
        while i < len
            invariant
                i <= len,
                len == s@.len(),
                forall|j: int| 0 <= j < i ==> !tag_forbidden_char(s@[j]),
            decreases len - i,
        {
            let c = s.get_char(i);
            if c == ' ' || c == '\t' || c == '\n' || c == '\r' || c == '\u{b}' || c == '\u{c}'
                || c == ',' || c == '!' || c == '/' {
                return Err(Error::Format(FormatCode::Tag, String::from_str(s)));
            }
            i = i + 1;
        }
        proof {
            reveal_strlit("..");
        }
        if crate::strutil::str_contains(s, "..") {
            return Err(Error::Format(FormatCode::Tag, String::from_str(s)));
        }
        Ok(Tag { name: String::from_str(s) })
    }

    /// Whether this tag is the reserved word `all`, which matches any tag set.
    pub fn match_all(&self) -> (r: bool)
        ensures
            r == self.spec_is_all(),
    {
        str_eq(self.name.as_str(), "all")
    }

    /// The tag's text.
    pub fn as_str(&self) -> (r: &str)
        ensures
            r@ == self@,
    {
        self.name.as_str()
    }
}

/// A set of tags carried by one script. Holds each name once and never holds
/// the reserved word `all`.
#[derive(Debug, Clone)]
pub struct TagSet {
    tags: Vec<Tag>,
}

impl View for TagSet {
    type V = Set<Seq<char>>;

    closed spec fn view(&self) -> Set<Seq<char>> {
        self.seq_view().to_set()
    }
}

impl TagSet {
    /// The names held, in insertion order.
    pub closed spec fn seq_view(&self) -> Seq<Seq<char>> {
        self.tags@.map_values(|t: Tag| t@)
    }

    /// Names are distinct, legal, and never the reserved word `all`.
    pub open spec fn wf(&self) -> bool {
        &&& forall|i: int, j: int|
            0 <= i < j < self.seq_view().len() ==> self.seq_view()[i] != self.seq_view()[j]
        &&& forall|i: int|
            0 <= i < self.seq_view().len() ==> legal_tag(#[trigger] self.seq_view()[i])
                && self.seq_view()[i] != "all"@
    }

    /// The empty tag set.
    pub fn new() -> (r: TagSet)
        ensures
            r@ == Set::<Seq<char>>::empty(),
            r.wf(),
            r.seq_view() == Seq::<Seq<char>>::empty(),
    {
        let r = TagSet { tags: Vec::new() };
        proof {
            assert(r.seq_view() =~= Seq::<Seq<char>>::empty());
            assert(r@ =~= Set::<Seq<char>>::empty());
        }
        r
    }

    /// How many tags are held.
    pub fn count(&self) -> (r: usize)
        ensures
            r == self.seq_view().len(),
    {
        self.tags.len()
    }

    /// The tag at a position, for iteration.
    pub fn get(&self, i: usize) -> (r: &Tag)
        requires
            i < self.seq_view().len(),
        ensures
            r@ == self.seq_view()[i as int],
    {
        &self.tags[i]
    }

    /// Membership by name.
    pub fn contains_name(&self, name: &str) -> (r: bool)
        ensures
            r == self@.contains(name@),
    {
        let mut i: usize = 0;
        let len = self.tags.len();
        while i < len
            invariant
                i <= len,
                len == self.tags@.len(),
                forall|j: int| 0 <= j < i ==> self.seq_view()[j] != name@,
            decreases len - i,
        {
            if str_eq(self.tags[i].name.as_str(), name) {
                assert(self.seq_view()[i as int] == name@);
                return true;
            }
            i = i + 1;
        }
        assert(!self.seq_view().contains(name@));
        false
    }

    /// Membership of a tag.
    pub fn contains(&self, tag: &Tag) -> (r: bool)
        ensures
            r == self@.contains(tag@),
    {
        self.contains_name(tag.name.as_str())
    }

    /// Add a tag; a name already present is kept once.
    pub fn insert(&mut self, tag: Tag)
        requires
            old(self).wf(),
            tag.wf(),
            !tag.spec_is_all(),
        ensures
            final(self)@ == old(self)@.insert(tag@),
            final(self).wf(),
    {
        if self.contains(&tag) {
            proof {
                assert(self@ =~= self@.insert(tag@));
            }
            return ;
        }
        let ghost old_names = self.seq_view();
        self.tags.push(tag);
        proof {
            assert(self.seq_view() =~= old_names.push(tag@));
            assert(self@ =~= old(self)@.insert(tag@)) by {
                assert(forall|x: Seq<char>|
                    self.seq_view().contains(x) <==> (old_names.contains(x) || x == tag@)) by {
                    assert(forall|k: int|
                        0 <= k < old_names.len() ==> self.seq_view()[k] == old_names[k]);
                    assert(self.seq_view().last() == tag@);
                    assert(forall|k: int|
                        0 <= k < old_names.len() ==> old_names[k] == self.seq_view()[k]);
                }
            }
            assert(forall|k: int| 0 <= k < old_names.len() ==> !(old_names[k] == tag@));
        }
    }

    /// Remove a tag by name; absence is a no-op.
    pub fn remove(&mut self, name: &str)
        requires
            old(self).wf(),
        ensures
            final(self)@ == old(self)@.remove(name@),
            final(self).wf(),
    {
        let len = self.tags.len();
        let mut i: usize = 0;
        while i < len
            invariant
                i <= len,
                len == self.tags@.len(),
                *self == *old(self),
                old(self).wf(),
                forall|j: int| 0 <= j < i ==> self.seq_view()[j] != name@,
            decreases len - i,
        {
            if str_eq(self.tags[i].name.as_str(), name) {
                let ghost old_names = self.seq_view();
                self.tags.remove(i);
                proof {
                    assert(old(self).wf());
                    assert(old_names == old(self).seq_view());
                    assert(forall|k: int, l: int|
                        0 <= k < l < old_names.len() ==> old_names[k] != old_names[l]) by {
                        assert(forall|k: int, l: int|
                            0 <= k < l < old(self).seq_view().len() ==> old(self).seq_view()[k]
                                != old(self).seq_view()[l]);
                    }
                    assert(self.seq_view() =~= old_names.remove(i as int));
                    let names = self.seq_view();
                    assert(forall|k: int| 0 <= k < i ==> names[k] == old_names[k]);
                    assert(forall|k: int|
                        i <= k < names.len() ==> names[k] == old_names[k + 1]);
                    assert(old_names[i as int] == name@);
                    assert(forall|x: Seq<char>|
                        names.contains(x) ==> old_names.contains(x) && x != name@) by {
                        assert(forall|k: int|
                            0 <= k < names.len() ==> old_names.contains(#[trigger] names[k])
                                && names[k] != name@) by {
                            assert(forall|k: int|
                                0 <= k < names.len() ==> #[trigger] names[k] == (if k < i {
                                    old_names[k]
                                } else {
                                    old_names[k + 1]
                                }));
                        }
                    }
                    assert(forall|x: Seq<char>|
                        old_names.contains(x) && x != name@ ==> names.contains(x)) by {
                        assert(forall|k: int|
                            0 <= k < old_names.len() && #[trigger] old_names[k] != name@ ==> {
                                let w = if k < i {
                                    k
                                } else {
                                    k - 1
                                };
                                0 <= w < names.len() && names[w] == old_names[k]
                            });
                    }
                    assert(final(self)@ =~= old(self)@.remove(name@));
                }
                return ;
            }
            i = i + 1;
        }
        proof {
            assert(!self.seq_view().contains(name@));
            assert(self@ =~= self@.remove(name@));
        }
    }

    /// A copy holding the same names.
    pub fn clone_set(&self) -> (r: TagSet)
        ensures
            r.seq_view() == self.seq_view(),
            r@ == self@,
    {
        let mut v: Vec<Tag> = Vec::new();
        let len = self.tags.len();
        let mut i: usize = 0;
        while i < len
            invariant
                i <= len,
                len == self.tags@.len(),
                v@.len() == i,
                forall|j: int| 0 <= j < i ==> #[trigger] v@[j] == self.tags@[j],
            decreases len - i,
        {
            v.push(self.tags[i].clone());
            i = i + 1;
        }
        let r = TagSet { tags: v };
        proof {
            assert(r.seq_view() =~= self.seq_view());
            assert(r@ =~= self@);
        }
        r
    }

    /// Forget every tag.
    pub fn clear(&mut self)
        ensures
            final(self)@ == Set::<Seq<char>>::empty(),
            final(self).wf(),
            final(self).seq_view() == Seq::<Seq<char>>::empty(),
    {
        self.tags = Vec::new();
        proof {
            assert(self.seq_view() =~= Seq::<Seq<char>>::empty());
            assert(self@ =~= Set::<Seq<char>>::empty());
        }
    }
}

/// One allow or deny control inside a selector: `tag` allows, `^tag` denies.
#[derive(Debug, Clone)]
pub struct TagControl {
    pub allow: bool,
    pub tag: Tag,
}

impl TagControl {
    /// The control's tag obeys the tag-name rule.
    pub open spec fn wf(&self) -> bool {
        self.tag.wf()
    }

    /// Parse one control: an optional leading `^` (deny), then a tag.
    pub fn from_str(s: &str) -> (r: Result<TagControl, Error>)
        ensures
            r is Ok <==> legal_tag(ctrl_tag_src(s@)),
            r matches Ok(c) ==> c.allow == ctrl_allow_src(s@) && c.tag@ == ctrl_tag_src(s@),
            r matches Err(e) ==> e matches Error::Format(c, t) && c == FormatCode::Tag && t@
                == ctrl_tag_src(s@),
    {
        let len = s.unicode_len();
        let body = if len > 0 && s.get_char(0) == '^' {
            s.substring_char(1, len)
        } else {
            s
        };
        proof {
            assert(body@ =~= ctrl_tag_src(s@));
        }
        let allow = !(len > 0 && s.get_char(0) == '^');
        let tag = Tag::from_str(body)?;
        Ok(TagControl { allow, tag })
    }
}

/// The tag text of a control source: what follows the optional `^`.
pub open spec fn ctrl_tag_src(s: Seq<char>) -> Seq<char> {
    if s.len() > 0 && s[0] == '^' {
        s.skip(1)
    } else {
        s
    }
}

/// Whether a control source allows (no leading `^`).
pub open spec fn ctrl_allow_src(s: Seq<char>) -> bool {
    !(s.len() > 0 && s[0] == '^')
}

/// Whether a control matches a tag set: its tag is the reserved `all`, or a
/// member of the set.
pub open spec fn ctrl_matches(ctrl: TagControl, tags: Set<Seq<char>>) -> bool {
    ctrl.tag@ == "all"@ || tags.contains(ctrl.tag@)
}

/// The answer of a selector on a tag set: the allow bit of the last matching
/// control, or `None` when no control matches.
pub open spec fn spec_select(ctrls: Seq<TagControl>, tags: Set<Seq<char>>) -> Option<bool>
    decreases ctrls.len(),
{
    if ctrls.len() == 0 {
        None
    } else if ctrl_matches(ctrls.last(), tags) {
        Some(ctrls.last().allow)
    } else {
        spec_select(ctrls.drop_last(), tags)
    }
}

/// A selector: ordered controls, an append flag (`+` prefix) and a mandatory
/// flag (`!` suffix).
#[derive(Debug, Clone)]
pub struct TagSelector {
    pub tags: Vec<TagControl>,
    pub append: bool,
    pub mandatory: bool,
}

/// Append flag of a selector source: a leading `+`.
pub open spec fn selector_append_src(s: Seq<char>) -> bool {
    s.len() > 0 && s[0] == '+'
}

/// The source with the append prefix removed.
pub open spec fn selector_body1_src(s: Seq<char>) -> Seq<char> {
    if selector_append_src(s) {
        s.skip(1)
    } else {
        s
    }
}

/// Mandatory flag of a selector source: a trailing `!` after the prefix.
pub open spec fn selector_mandatory_src(s: Seq<char>) -> bool {
    selector_body1_src(s).len() > 0 && selector_body1_src(s).last() == '!'
}

/// The control list text: prefix and suffix removed.
pub open spec fn selector_body_src(s: Seq<char>) -> Seq<char> {
    if selector_mandatory_src(s) {
        selector_body1_src(s).drop_last()
    } else {
        selector_body1_src(s)
    }
}

/// The control sources: the body split on commas.
pub open spec fn selector_pieces_src(s: Seq<char>) -> Seq<Seq<char>> {
    spec_split(selector_body_src(s), ',')
}

/// Every control source of the selector source is legal.
pub open spec fn selector_src_ok(s: Seq<char>) -> bool {
    forall|i: int|
        0 <= i < selector_pieces_src(s).len() ==> legal_tag(
            ctrl_tag_src(#[trigger] selector_pieces_src(s)[i]),
        )
}

impl TagSelector {
    /// Every control is well formed.
    pub open spec fn wf(&self) -> bool {
        forall|i: int| 0 <= i < self.tags@.len() ==> (#[trigger] self.tags@[i]).wf()
    }

    /// Parse a selector: optional `+`, comma-separated controls, optional `!`.
    pub fn from_str(s: &str) -> (r: Result<TagSelector, Error>)
        ensures
            r is Ok <==> selector_src_ok(s@),
            r matches Ok(sel) ==> {
                &&& sel.append == selector_append_src(s@)
                &&& sel.mandatory == selector_mandatory_src(s@)
                &&& sel.tags@.len() == selector_pieces_src(s@).len()
                &&& forall|i: int|
                    0 <= i < sel.tags@.len() ==> (#[trigger] sel.tags@[i]).allow == ctrl_allow_src(
                        selector_pieces_src(s@)[i],
                    ) && sel.tags@[i].tag@ == ctrl_tag_src(selector_pieces_src(s@)[i])
                &&& sel.wf()
            },
            r matches Err(e) ==> e matches Error::Format(c, t) && c == FormatCode::Tag && exists|
                i: int,
            |
                0 <= i < selector_pieces_src(s@).len() && !legal_tag(
                    ctrl_tag_src(#[trigger] selector_pieces_src(s@)[i]),
                ) && t@ == ctrl_tag_src(selector_pieces_src(s@)[i]),
    {
        let len = s.unicode_len();
        let body1 = if len > 0 && s.get_char(0) == '+' {
            s.substring_char(1, len)
        } else {
            s
        };
        let append = len > 0 && s.get_char(0) == '+';
        proof {
            assert(body1@ =~= selector_body1_src(s@));
        }
        let len1 = body1.unicode_len();
        let mandatory = len1 > 0 && body1.get_char(len1 - 1) == '!';
        let body = if mandatory {
            body1.substring_char(0, len1 - 1)
        } else {
            body1
        };
        proof {
            assert(body@ =~= selector_body_src(s@));
        }
        let pieces = split_str(body, ',');
        let mut tags: Vec<TagControl> = Vec::new();
        let mut i: usize = 0;
        let npieces = pieces.len();
        while i < npieces
            invariant
                i <= npieces,
                npieces == pieces@.len(),
                pieces.deep_view() == selector_pieces_src(s@),
                tags@.len() == i,
                forall|j: int|
                    0 <= j < i ==> legal_tag(ctrl_tag_src(#[trigger] selector_pieces_src(s@)[j])),
                forall|j: int|
                    0 <= j < i ==> (#[trigger] tags@[j]).allow == ctrl_allow_src(
                        selector_pieces_src(s@)[j],
                    ) && tags@[j].tag@ == ctrl_tag_src(selector_pieces_src(s@)[j]) && tags@[j].wf(),
            decreases npieces - i,
        {
            assert(pieces@[i as int]@ == selector_pieces_src(s@)[i as int]);
            let ctrl = match TagControl::from_str(pieces[i].as_str()) {
                Ok(c) => c,
                Err(e) => {
                    proof {
                        assert(!legal_tag(ctrl_tag_src(selector_pieces_src(s@)[i as int])));
                    }
                    return Err(e);
                },
            };
            tags.push(ctrl);
            i = i + 1;
        }
        Ok(TagSelector { tags, append, mandatory })
    }

    /// Evaluate this selector against a tag set: the last matching control's
    /// allow bit, or `None` when no control matched.
    pub fn select(&self, tags: &TagSet) -> (r: Option<bool>)
        ensures
            r == spec_select(self.tags@, tags@),
    {
        let mut pass: Option<bool> = None;
        let mut i: usize = 0;
        let len = self.tags.len();
        proof {
            assert(self.tags@.take(0) =~= Seq::<TagControl>::empty());
        }
        while i < len
            invariant
                i <= len,
                len == self.tags@.len(),
                pass == spec_select(self.tags@.take(i as int), tags@),
            decreases len - i,
        {
            let ctrl = &self.tags[i];
            let hit = ctrl.tag.match_all() || tags.contains(&ctrl.tag);
            proof {
                assert(self.tags@.take(i + 1).drop_last() =~= self.tags@.take(i as int));
                assert(self.tags@.take(i + 1).last() == self.tags@[i as int]);
            }
            if hit {
                pass = Some(ctrl.allow);
            }
            i = i + 1;
        }
        proof {
            assert(self.tags@.take(len as int) =~= self.tags@);
        }
        pass
    }

    /// Merge another selector into this one: an append selector adds its
    /// controls at the end; a non-append selector replaces this one.
    pub fn push(&mut self, flow: TagSelector)
        ensures
            flow.append ==> final(self).tags@ == old(self).tags@ + flow.tags@,
            flow.append ==> final(self).append == old(self).append,
            flow.append ==> final(self).mandatory == old(self).mandatory,
            !flow.append ==> *final(self) == flow,
    {
        if flow.append {
            let mut incoming = flow.tags;
            self.tags.append(&mut incoming);
        } else {
            *self = flow;
        }
    }

    /// Fold this selector's controls into a set of allowed tags: an allow
    /// control inserts its tag, a deny control removes it, and the reserved
    /// `all` clears on deny and is skipped on allow.
    pub fn fill_allowed_map(self, set: &mut TagSet)
        requires
            old(set).wf(),
            self.wf(),
        ensures
            final(set)@ == spec_fill_allowed(self.tags@, old(set)@),
            final(set).wf(),
    {
        let len = self.tags.len();
        let mut i: usize = 0;
        proof {
            assert(self.tags@.skip(0) =~= self.tags@);
        }
        while i < len
            invariant
                i <= len,
                len == self.tags@.len(),
                self.wf(),
                set.wf(),
                spec_fill_allowed(self.tags@, old(set)@) == spec_fill_allowed(
                    self.tags@.skip(i as int),
                    set@,
                ),
            decreases len - i,
        {
            let ghost pre = set@;
            let ctrl = &self.tags[i];
            if ctrl.allow {
                if !ctrl.tag.match_all() {
                    let t = ctrl.tag.clone();
                    set.insert(t);
                }
            } else {
                if ctrl.tag.match_all() {
                    set.clear();
                } else {
                    set.remove(ctrl.tag.as_str());
                }
            }
            proof {
                assert(self.tags@.skip(i as int)[0] == self.tags@[i as int]);
                assert(self.tags@.skip(i as int).skip(1) =~= self.tags@.skip(i + 1));
                assert(set@ == spec_fill_step(self.tags@[i as int], pre));
            }
            i = i + 1;
        }
        proof {
            assert(self.tags@.skip(len as int) =~= Seq::<TagControl>::empty());
        }
    }

    /// The allowed tags of this selector, starting from the empty set.
    pub fn into_allowed_iter(self) -> (r: TagSet)
        requires
            self.wf(),
        ensures
            r@ == spec_fill_allowed(self.tags@, Set::<Seq<char>>::empty()),
            r.wf(),
    {
        let mut set = TagSet::new();
        self.fill_allowed_map(&mut set);
        set
    }
}

/// One step of the allowed-tags fold.
pub open spec fn spec_fill_step(ctrl: TagControl, s: Set<Seq<char>>) -> Set<Seq<char>> {
    if ctrl.allow {
        if ctrl.tag@ == "all"@ {
            s
        } else {
            s.insert(ctrl.tag@)
        }
    } else {
        if ctrl.tag@ == "all"@ {
            Set::empty()
        } else {
            s.remove(ctrl.tag@)
        }
    }
}

/// Fold of `spec_fill_step` over the controls, in order.
pub open spec fn spec_fill_allowed(ctrls: Seq<TagControl>, s: Set<Seq<char>>) -> Set<Seq<char>>
    decreases ctrls.len(),
{
    if ctrls.len() == 0 {
        s
    } else {
        spec_fill_allowed(ctrls.skip(1), spec_fill_step(ctrls[0], s))
    }
}

/// Whether every mandatory selector of a group answers `Some(true)`.
pub open spec fn spec_mandatory_ok(sels: Seq<TagSelector>, tags: Set<Seq<char>>) -> bool {
    forall|i: int|
        0 <= i < sels.len() && (#[trigger] sels[i]).mandatory ==> spec_select(sels[i].tags@, tags)
            == Some(true)
}

/// The answer carried forward by the last non-mandatory selector that
/// matched; `false` when none did.
pub open spec fn spec_group_pass(sels: Seq<TagSelector>, tags: Set<Seq<char>>) -> bool
    decreases sels.len(),
{
    if sels.len() == 0 {
        false
    } else if !sels.last().mandatory && spec_select(sels.last().tags@, tags) is Some {
        spec_select(sels.last().tags@, tags)->0
    } else {
        spec_group_pass(sels.drop_last(), tags)
    }
}

/// A group passes a tag set when every mandatory selector answers `Some(true)`
/// and the last answering non-mandatory selector answered `Some(true)`.
pub open spec fn spec_group_select(sels: Seq<TagSelector>, tags: Set<Seq<char>>) -> bool {
    spec_mandatory_ok(sels, tags) && spec_group_pass(sels, tags)
}

/// An ordered list of selectors; a non-append selector replaces the group, an
/// append selector joins it.
#[derive(Debug, Clone)]
pub struct TagSelectorGroup {
    pub selectors: Vec<TagSelector>,
}

impl TagSelectorGroup {
    /// The empty group.
    pub fn new() -> (r: TagSelectorGroup)
        ensures
            r.selectors@ == Seq::<TagSelector>::empty(),
    {
        TagSelectorGroup { selectors: Vec::new() }
    }

    /// Add a selector: an append selector joins the group, any other replaces
    /// the whole group.
    pub fn push(&mut self, selector: TagSelector)
        ensures
            selector.append ==> final(self).selectors@ == old(self).selectors@.push(selector),
            !selector.append ==> final(self).selectors@ == seq![selector],
    {
        if selector.append {
            self.selectors.push(selector);
        } else {
            let mut one: Vec<TagSelector> = Vec::new();
            one.push(selector);
            self.selectors = one;
        }
    }

    /// Evaluate the group against a tag set.
    pub fn select(&self, tags: &TagSet) -> (r: bool)
        ensures
            r == spec_group_select(self.selectors@, tags@),
    {
        let mut pass = false;
        let mut i: usize = 0;
        let len = self.selectors.len();
        proof {
            assert(self.selectors@.take(0) =~= Seq::<TagSelector>::empty());
        }
        while i < len
            invariant
                i <= len,
                len == self.selectors@.len(),
                pass == spec_group_pass(self.selectors@.take(i as int), tags@),
                spec_mandatory_ok(self.selectors@.take(i as int), tags@),
            decreases len - i,
        {
            let f = &self.selectors[i];
            let res = f.select(tags);
            proof {
                assert(self.selectors@.take(i + 1).drop_last() =~= self.selectors@.take(i as int));
                assert(self.selectors@.take(i + 1).last() == self.selectors@[i as int]);
            }
            if f.mandatory {
                if !(matches!(res, Some(true))) {
                    proof {
                        assert(self.selectors@.take(i + 1)[i as int] == self.selectors@[i as int]);
                        assert(!spec_mandatory_ok(self.selectors@, tags@)) by {
                            assert(self.selectors@[i as int].mandatory);
                        }
                    }
                    return false;
                }
                proof {
                    assert(forall|j: int|
                        0 <= j < i + 1 ==> self.selectors@.take(i + 1)[j] == self.selectors@.take(
                            i as int,
                        ).push(self.selectors@[i as int])[j]);
                }
            } else if let Some(r) = res {
                pass = r;
            }
            i = i + 1;
        }
        proof {
            assert(self.selectors@.take(len as int) =~= self.selectors@);
        }
        pass
    }
}

/// The reserved selector `all` answers `Some(true)` on every non-empty tag
/// set, so a group of it alone passes every such set.
pub proof fn lemma_selector_all_matches_every_set(sel: TagSelector, tags: Set<Seq<char>>)
    requires
        sel.tags@.len() == 1,
        sel.tags@[0].allow,
        sel.tags@[0].tag@ == "all"@,
        !sel.mandatory,
        tags != Set::<Seq<char>>::empty(),
    ensures
        spec_select(sel.tags@, tags) == Some(true),
        spec_group_select(seq![sel], tags),
{
    assert(sel.tags@.last() == sel.tags@[0]);
    assert(ctrl_matches(sel.tags@.last(), tags));
    let sels = seq![sel];
    assert(sels.last() == sel);
    assert(spec_group_pass(sels, tags));
}

/// The denying selector `^all` answers `Some(false)` on every tag set, so a
/// group of it alone passes none.
pub proof fn lemma_selector_deny_all_matches_no_set(sel: TagSelector, tags: Set<Seq<char>>)
    requires
        sel.tags@.len() == 1,
        !sel.tags@[0].allow,
        sel.tags@[0].tag@ == "all"@,
    ensures
        spec_select(sel.tags@, tags) == Some(false),
        !spec_group_select(seq![sel], tags),
{
    assert(sel.tags@.last() == sel.tags@[0]);
    assert(ctrl_matches(sel.tags@.last(), tags));
    let sels = seq![sel];
    assert(sels.last() == sel);
    if sel.mandatory {
        assert(sels[0].mandatory);
        assert(!spec_mandatory_ok(sels, tags));
    } else {
        assert(!spec_group_pass(sels, tags));
    }
}

/// A two-tag allow selector `{a,b}` answers `Some(true)` exactly on the tag
/// sets holding `a` or `b`, when neither is the reserved word.
pub proof fn lemma_selector_two_tags(sel: TagSelector, tags: Set<Seq<char>>)
    requires
        sel.tags@.len() == 2,
        sel.tags@[0].allow,
        sel.tags@[1].allow,
        sel.tags@[0].tag@ != "all"@,
        sel.tags@[1].tag@ != "all"@,
    ensures
        spec_select(sel.tags@, tags) == Some(true) <==> (tags.contains(sel.tags@[0].tag@)
            || tags.contains(sel.tags@[1].tag@)),
{
    assert(sel.tags@.last() == sel.tags@[1]);
    assert(sel.tags@.drop_last().len() == 1);
    assert(sel.tags@.drop_last().last() == sel.tags@[0]);
    assert(sel.tags@.drop_last().drop_last().len() == 0);
    if ctrl_matches(sel.tags@[1], tags) {
        assert(spec_select(sel.tags@, tags) == Some(true));
        assert(tags.contains(sel.tags@[1].tag@));
    } else if ctrl_matches(sel.tags@[0], tags) {
        assert(spec_select(sel.tags@, tags) == spec_select(sel.tags@.drop_last(), tags));
        assert(spec_select(sel.tags@.drop_last(), tags) == Some(true));
        assert(tags.contains(sel.tags@[0].tag@));
    } else {
        assert(spec_select(sel.tags@.drop_last(), tags) == spec_select(
            sel.tags@.drop_last().drop_last(),
            tags,
        ));
        assert(spec_select(sel.tags@, tags) is None);
    }
}

/// On conflicting controls the later control wins: whenever the last control
/// matches, the selector's answer is that control's allow bit.
pub proof fn lemma_later_control_wins(ctrls: Seq<TagControl>, tags: Set<Seq<char>>)
    requires
        ctrls.len() > 0,
        ctrl_matches(ctrls.last(), tags),
    ensures
        spec_select(ctrls, tags) == Some(ctrls.last().allow),
{
}

} // verus!
