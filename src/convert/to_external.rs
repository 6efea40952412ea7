//! Matrix markup to external text.
//!
//! The markup is streamed once through lol_html's rewriter. For each element the rewriter meets,
//! the verified `element_action` decides what becomes of it, from its tag name, its `href` and
//! the caller's configuration; comments are dropped.
use std::borrow::Cow;

use vstd::prelude::*;
use vstd::string::{StrSliceExecFns, StringExecFns, StringSliceAdditionalSpecFns};

use lol_html::errors::RewritingError;
use lol_html::html_content::{Comment, ContentType, Element};
use lol_html::{rewrite_str, DocumentContentHandlers, ElementContentHandlers, Settings};
use ruma::identifiers::{RoomAliasId, UserId};

use crate::mappingdict::{contains_id, index_of, Mappable, MappingDict, MappingId, MappingKey};
use crate::matrix::matrix_to_prefix;
use crate::text::{has_prefix, same_text, split_text};

verus! {

broadcast use vstd::utf8::encode_utf8_decode_utf8;

/// lol_html's `Element`, handled only through the wrappers below.
#[verifier::external_type_specification]
#[verifier::external_body]
pub struct ExElement<'r, 't>(Element<'r, 't>);

/// lol_html's `Comment`, handled only through the wrappers below.
#[verifier::external_type_specification]
#[verifier::external_body]
pub struct ExComment<'c>(Comment<'c>);

/// lol_html's `RewritingError`, passed on without being looked into.
#[verifier::external_type_specification]
#[verifier::external_body]
pub struct ExRewritingError(RewritingError);

/// Whether ruma accepts `s` as a Matrix user ID.
pub uninterp spec fn is_user_id(s: Seq<char>) -> bool;

/// Whether ruma accepts `s` as a Matrix room alias.
pub uninterp spec fn is_room_alias_id(s: Seq<char>) -> bool;

/// Relies on ruma's `UserId::try_from(&str)`, which validates a user ID.
#[verifier::external_body]
fn valid_user_id(s: &str) -> (r: bool)
    ensures
        r == is_user_id(s@),
{
    UserId::try_from(s).is_ok()
}

/// Relies on ruma's `RoomAliasId::try_from(&str)`, which validates a room alias.
#[verifier::external_body]
fn valid_room_alias_id(s: &str) -> (r: bool)
    ensures
        r == is_room_alias_id(s@),
{
    RoomAliasId::try_from(s).is_ok()
}

/// Relies on lol_html's `Element::tag_name`.
#[verifier::external_body]
fn tag_name_of(el: &Element) -> String {
    el.tag_name()
}

/// Relies on lol_html's `Element::get_attribute`.
#[verifier::external_body]
fn attribute_of(el: &Element, name: &str) -> Option<String> {
    el.get_attribute(name)
}

/// Relies on lol_html's `Element::remove`: the element and its content leave the output.
#[verifier::external_body]
fn remove_element(el: &mut Element) {
    el.remove()
}

/// Relies on lol_html's `Element::remove_and_keep_content`: the tags leave the output, the
/// content stays.
#[verifier::external_body]
fn unwrap_element(el: &mut Element) {
    el.remove_and_keep_content()
}

/// Relies on lol_html's `Element::replace`: the element and its content give way to `markup`.
#[verifier::external_body]
fn replace_element(el: &mut Element, markup: &str) {
    el.replace(markup, ContentType::Html)
}

/// Relies on lol_html's `Element::prepend`: `markup` goes before the content.
#[verifier::external_body]
fn prepend_markup(el: &mut Element, markup: &str) {
    el.prepend(markup, ContentType::Html)
}

/// Relies on lol_html's `Element::append`: `markup` goes after the content.
#[verifier::external_body]
fn append_markup(el: &mut Element, markup: &str) {
    el.append(markup, ContentType::Html)
}

/// Relies on lol_html's `Comment::remove`.
#[verifier::external_body]
fn remove_comment(c: &mut Comment) {
    c.remove()
}

/// Looks up the display text for a Matrix ID.
pub trait Resolver {
    /// The display text that this resolver gives for `id`, if any.
    spec fn resolves(&self, id: Seq<char>) -> Option<Seq<char>>;

    /// The display text for `id`, if there is one.
    fn resolve(&self, id: &str) -> (r: Option<String>)
        ensures
            opt_view(r) == self.resolves(id@),
    ;
}

/// A resolver that knows no ID.
pub struct NoMentions;

impl Resolver for NoMentions {
    open spec fn resolves(&self, id: Seq<char>) -> Option<Seq<char>> {
        None
    }

    fn resolve(&self, id: &str) -> (r: Option<String>) {
        None
    }
}

/// The display text of `id` in `entries`: the text of the entry for `id` made last.
pub open spec fn text_for(entries: Seq<(Seq<char>, Seq<char>)>, id: Seq<char>) -> Option<Seq<char>>
    decreases entries.len(),
{
    if entries.len() == 0 {
        None
    } else if entries.last().0 == id {
        Some(entries.last().1)
    } else {
        text_for(entries.drop_last(), id)
    }
}

/// A resolver given by a table from Matrix IDs to display texts.
pub struct MentionMap {
    entries: Vec<(String, String)>,
}

impl View for MentionMap {
    type V = Seq<(Seq<char>, Seq<char>)>;

    closed spec fn view(&self) -> Seq<(Seq<char>, Seq<char>)> {
        self.entries@.map_values(|e: (String, String)| (e.0@, e.1@))
    }
}

impl MentionMap {
    /// An empty table.
    pub fn new() -> (r: MentionMap)
        ensures
            r@ == Seq::<(Seq<char>, Seq<char>)>::empty(),
    {
        MentionMap { entries: Vec::new() }
    }

    /// Maps `id` to `text`, in place of what `id` mapped to before.
    pub fn insert(&mut self, id: String, text: String)
        ensures
            final(self)@ == old(self)@.push((id@, text@)),
            text_for(final(self)@, id@) == Some(text@),
            forall|other: Seq<char>|
                other != id@ ==> text_for(final(self)@, other) == text_for(old(self)@, other),
    {
        let ghost before = self@;
        self.entries.push((id, text));
        proof {
            assert(self@ =~= before.push((id@, text@)));
            assert(self@.drop_last() =~= before);
        }
    }

    /// The display text of `id`.
    pub fn get(&self, id: &str) -> (r: Option<String>)
        ensures
            r is Some <==> text_for(self@, id@) is Some,
            r matches Some(t) ==> text_for(self@, id@) == Some(t@),
    {
        let mut i: usize = self.entries.len();
        assert(self@.subrange(0, i as int) =~= self@);
        while i > 0
            invariant
                i <= self@.len(),
                text_for(self@.subrange(0, i as int), id@) == text_for(self@, id@),
            decreases i,
        {
            let ghost sub = self@.subrange(0, i as int);
            assert(sub.last() == (self.entries@[i - 1].0@, self.entries@[i - 1].1@));
            assert(sub.drop_last() =~= self@.subrange(0, i - 1));
            if same_text(self.entries[i - 1].0.as_str(), id) {
                return Some(self.entries[i - 1].1.clone());
            }
            i = i - 1;
        }
        None
    }
}

impl Resolver for MentionMap {
    open spec fn resolves(&self, id: Seq<char>) -> Option<Seq<char>> {
        text_for(self@, id)
    }

    fn resolve(&self, id: &str) -> (r: Option<String>) {
        self.get(id)
    }
}

/// A table from Matrix IDs to display texts, built from `(id, text)` pairs; a later pair for an
/// ID takes the place of an earlier one.
pub fn generate_user_mapper_from_hashmap(map: Vec<(String, String)>) -> (r: MentionMap)
    ensures
        r@ == map@.map_values(|e: (String, String)| (e.0@, e.1@)),
{
    MentionMap { entries: map }
}

/// A table from Matrix room aliases to display texts, built from `(alias, text)` pairs; a later
/// pair for an alias takes the place of an earlier one.
pub fn generate_room_mapper_from_hashmap(map: Vec<(String, String)>) -> (r: MentionMap)
    ensures
        r@ == map@.map_values(|e: (String, String)| (e.0@, e.1@)),
{
    MentionMap { entries: map }
}

impl<V: Mappable> Resolver for MappingDict<V> {
    /// The external ID of the record whose Matrix ID is `id`.
    open spec fn resolves(&self, id: Seq<char>) -> Option<Seq<char>> {
        if contains_id(self@, MappingKey::Matrix(id)) {
            Some(self@[index_of(self@, MappingKey::Matrix(id))].external_id())
        } else {
            None
        }
    }

    fn resolve(&self, id: &str) -> (r: Option<String>) {
        match self.get(MappingId::Matrix(id)) {
            Some(v) => Some(v.as_external().to_owned()),
            None => None,
        }
    }
}

/// What becomes of an element.
#[derive(Debug, Clone, PartialEq, Eq)]
pub enum ElementAction {
    /// The element and its content are dropped.
    Remove,
    /// The tags are dropped and the content is kept.
    Unwrap,
    /// The element and its content give way to the given markup.
    Replace(String),
    /// The tags are dropped, and the content is kept between the two given pieces of markup.
    Wrap(String, String),
}

/// A copy of `a`.
fn copy_action(a: &ElementAction) -> (r: ElementAction)
    ensures
        r == *a,
{
    match a {
        ElementAction::Remove => ElementAction::Remove,
        ElementAction::Unwrap => ElementAction::Unwrap,
        ElementAction::Replace(m) => ElementAction::Replace(m.clone()),
        ElementAction::Wrap(before, after) => ElementAction::Wrap(before.clone(), after.clone()),
    }
}

/// What becomes of an element, as plain values.
pub enum ActionView {
    /// The element and its content are dropped.
    Remove,
    /// The tags are dropped and the content is kept.
    Unwrap,
    /// The element and its content give way to the given markup.
    Replace(Seq<char>),
    /// The content is kept between the two given pieces of markup.
    Wrap(Seq<char>, Seq<char>),
}

impl View for ElementAction {
    type V = ActionView;

    open spec fn view(&self) -> ActionView {
        match self {
            ElementAction::Remove => ActionView::Remove,
            ElementAction::Unwrap => ActionView::Unwrap,
            ElementAction::Replace(m) => ActionView::Replace(m@),
            ElementAction::Wrap(before, after) => ActionView::Wrap(before@, after@),
        }
    }
}

/// The configuration of a conversion: how user IDs and room aliases are shown, and custom
/// handlers for elements by tag name.
pub struct Info<U: Resolver, R: Resolver> {
    user_mapper: U,
    room_mapper: R,
    element_handlers: Vec<(String, ElementAction)>,
}

/// The handler for `tag` in `handlers`: the one registered last for it.
pub open spec fn handler_of(handlers: Seq<(Seq<char>, ElementAction)>, tag: Seq<char>) -> Option<
    ElementAction,
>
    decreases handlers.len(),
{
    if handlers.len() == 0 {
        None
    } else if handlers.last().0 == tag {
        Some(handlers.last().1)
    } else {
        handler_of(handlers.drop_last(), tag)
    }
}

impl Info<NoMentions, NoMentions> {
    /// A configuration that resolves no mention and has no custom handler.
    pub fn new() -> (r: Self)
        ensures
            r.handlers() == Seq::<(Seq<char>, ElementAction)>::empty(),
            r.users() == NoMentions,
            r.rooms() == NoMentions,
    {
        Info { user_mapper: NoMentions, room_mapper: NoMentions, element_handlers: Vec::new() }
    }
}

impl Default for Info<NoMentions, NoMentions> {
    fn default() -> (r: Self)
        ensures
            r.handlers() == Seq::<(Seq<char>, ElementAction)>::empty(),
            r.users() == NoMentions,
            r.rooms() == NoMentions,
    {
        Info::new()
    }
}

impl<U: Resolver, R: Resolver> Info<U, R> {
    /// The custom handlers, in the order in which they were added.
    pub closed spec fn handlers(&self) -> Seq<(Seq<char>, ElementAction)> {
        self.element_handlers@.map_values(|e: (String, ElementAction)| (e.0@, e.1))
    }

    /// The resolver for user IDs.
    pub closed spec fn users(&self) -> U {
        self.user_mapper
    }

    /// The resolver for room aliases.
    pub closed spec fn rooms(&self) -> R {
        self.room_mapper
    }

    /// The same configuration, with `f` to show user IDs.
    pub fn user_mapper<U2: Resolver>(self, f: U2) -> (r: Info<U2, R>)
        ensures
            r.handlers() == self.handlers(),
            r.users() == f,
            r.rooms() == self.rooms(),
    {
        Info { user_mapper: f, room_mapper: self.room_mapper, element_handlers: self.element_handlers }
    }

    /// The same configuration, with `f` to show room aliases.
    pub fn room_mapper<R2: Resolver>(self, f: R2) -> (r: Info<U, R2>)
        ensures
            r.handlers() == self.handlers(),
            r.users() == self.users(),
            r.rooms() == f,
    {
        Info { user_mapper: self.user_mapper, room_mapper: f, element_handlers: self.element_handlers }
    }

    /// Registers `f` as the handler for elements named `element`, in place of an earlier one.
    pub fn add_element_handler(&mut self, element: String, f: ElementAction)
        ensures
            final(self).handlers() == old(self).handlers().push((element@, f)),
            handler_of(final(self).handlers(), element@) == Some(f),
            final(self).users() == old(self).users(),
            final(self).rooms() == old(self).rooms(),
    {
        let ghost before = self.handlers();
        let ghost entry = (element@, f);
        self.element_handlers.push((element, f));
        proof {
            assert(self.handlers() =~= before.push(entry));
            assert(self.handlers().drop_last() =~= before);
        }
    }

    /// The custom handler for `tag`.
    fn handler(&self, tag: &str) -> (r: Option<ElementAction>)
        ensures
            r == handler_of(self.handlers(), tag@),
    {
        let mut i: usize = self.element_handlers.len();
        assert(self.handlers().subrange(0, i as int) =~= self.handlers());
        while i > 0
            invariant
                i <= self.handlers().len(),
                handler_of(self.handlers().subrange(0, i as int), tag@) == handler_of(
                    self.handlers(),
                    tag@,
                ),
            decreases i,
        {
            let ghost sub = self.handlers().subrange(0, i as int);
            assert(sub.last() == (self.element_handlers@[i - 1].0@, self.element_handlers@[i
                - 1].1));
            assert(sub.drop_last() =~= self.handlers().subrange(0, i - 1));
            if same_text(self.element_handlers[i - 1].0.as_str(), tag) {
                return Some(copy_action(&self.element_handlers[i - 1].1));
            }
            i = i - 1;
        }
        assert(self.handlers().subrange(0, 0) =~= Seq::<(Seq<char>, ElementAction)>::empty());
        None
    }
}

/// The ID that a link to `href` mentions, if `href` has the mention form
/// `https://matrix.to/#/<sigil><payload>` with the sigil `@` (a user) or `#` (a room alias).
/// The ID includes its sigil.
pub open spec fn mentioned_id(href: Seq<char>) -> Option<Seq<char>> {
    let p = matrix_to_prefix();
    if href.len() > p.len() && href.subrange(0, p.len() as int) == p && (href[p.len() as int]
        == '@' || href[p.len() as int] == '#') {
        Some(href.skip(p.len() as int))
    } else {
        None
    }
}

/// The markup around the text of a link that is not shown as a mention: `[text](href)`.
pub open spec fn link_suffix(href: Seq<char>) -> Seq<char> {
    "]("@ + href + ")"@
}

/// What becomes of an anchor with the attribute `href` (if any), given the custom handler for
/// anchors (if any) and the display text that a resolver gave for its mention (if any).
pub open spec fn anchor_outcome(
    href: Option<Seq<char>>,
    custom: Option<ElementAction>,
    resolved: Option<Seq<char>>,
) -> ActionView {
    if custom is Some {
        custom.unwrap()@
    } else if resolved is Some {
        ActionView::Replace(resolved.unwrap())
    } else if href is Some {
        ActionView::Wrap("["@, link_suffix(href.unwrap()))
    } else {
        ActionView::Unwrap
    }
}

/// The views of an optional string.
pub open spec fn opt_view(o: Option<String>) -> Option<Seq<char>> {
    match o {
        Some(t) => Some(t@),
        None => None,
    }
}

/// The ID that a link to `href` mentions, with its sigil.
fn mention_of(href: &str) -> (r: Option<&str>)
    ensures
        r is None <==> mentioned_id(href@) is None,
        r matches Some(id) ==> mentioned_id(href@) == Some(id@),
{
    let prefix = "https://matrix.to/#/";
    if !has_prefix(href, prefix) {
        return None;
    }
    let (head, rest) = split_text(href, prefix.as_bytes().len());
    proof {
        assert(head.spec_bytes() == prefix.spec_bytes());
        assert(head@ == prefix@);
        assert(rest@ =~= href@.skip(prefix@.len() as int));
    }
    if rest.is_empty() {
        return None;
    }
    let c = rest.get_char(0);
    if c == '@' || c == '#' {
        Some(rest)
    } else {
        None
    }
}

/// Decides what becomes of an anchor with the attribute `href` (if any), given the custom
/// handler for anchors (if any) and the display text that a resolver gave for its mention (if
/// any). A custom handler governs; else a resolved mention gives way to its display text; else
/// the anchor is unwrapped, and where it has an `href` its text is shown as `[text](href)`.
pub fn anchor_action(
    href: Option<String>,
    custom: Option<ElementAction>,
    resolved: Option<String>,
) -> (r: ElementAction)
    ensures
        r@ == anchor_outcome(opt_view(href), custom, opt_view(resolved)),
{
    if let Some(c) = custom {
        return c;
    }
    if let Some(text) = resolved {
        return ElementAction::Replace(text);
    }
    match href {
        Some(h) => {
            let mut after = String::from_str("](");
            after.append(h.as_str());
            after.append(")");
            proof {
                assert(after@ =~= link_suffix(h@));
            }
            ElementAction::Wrap(String::from_str("["), after)
        },
        None => ElementAction::Unwrap,
    }
}

/// What the resolvers give for the mention in a link to `href`: the user resolver's answer for a
/// valid user ID, the room resolver's answer for a valid room alias, and nothing otherwise.
pub open spec fn resolved_for<U: Resolver, R: Resolver>(
    users: U,
    rooms: R,
    href: Option<Seq<char>>,
) -> Option<Seq<char>> {
    match href {
        Some(h) => match mentioned_id(h) {
            Some(id) => if id[0] == '@' {
                if is_user_id(id) {
                    users.resolves(id)
                } else {
                    None
                }
            } else if is_room_alias_id(id) {
                rooms.resolves(id)
            } else {
                None
            },
            None => None,
        },
        None => None,
    }
}

/// What becomes of an element that is not an anchor, given its custom handler (if any).
pub open spec fn plain_outcome(custom: Option<ElementAction>) -> ActionView {
    match custom {
        Some(h) => h@,
        None => ActionView::Unwrap,
    }
}

/// Decides what becomes of an element named `tag` with the attribute `href` (if any).
///
/// A custom handler for `tag` governs. Other than anchors, an element without one is unwrapped.
/// For an anchor without one, a mention of a valid user ID or room alias is passed to the user
/// or room resolver, and the outcome follows `anchor_outcome` with what the resolver returned.
pub fn element_action<U: Resolver, R: Resolver>(
    info: &Info<U, R>,
    tag: &str,
    href: Option<String>,
) -> (r: ElementAction)
    ensures
        tag@ != "a"@ ==> r@ == plain_outcome(handler_of(info.handlers(), tag@)),
        tag@ == "a"@ ==> r@ == anchor_outcome(
            opt_view(href),
            handler_of(info.handlers(), tag@),
            resolved_for(info.users(), info.rooms(), opt_view(href)),
        ),
{
    let custom = info.handler(tag);
    if !same_text(tag, "a") {
        return match custom {
            Some(h) => h,
            None => ElementAction::Unwrap,
        };
    }
    if custom.is_some() {
        let r = anchor_action(href, custom, None);
        assert(r@ == anchor_outcome(opt_view(href), handler_of(info.handlers(), tag@), None));
        return r;
    }
    let resolved = match &href {
        Some(h) => match mention_of(h.as_str()) {
            Some(id) => {
                if id.get_char(0) == '@' {
                    if valid_user_id(id) {
                        info.user_mapper.resolve(id)
                    } else {
                        None
                    }
                } else if valid_room_alias_id(id) {
                    info.room_mapper.resolve(id)
                } else {
                    None
                }
            },
            None => None,
        },
        None => None,
    };
    assert(opt_view(resolved) == resolved_for(info.users(), info.rooms(), opt_view(href)));
    anchor_action(href, custom, resolved)
}

/// A custom handler registered for a tag decides the fate of every element of that tag, anchors
/// included, whatever their `href` and whatever a resolver would have returned.
pub proof fn lemma_custom_handler_governs(
    handlers: Seq<(Seq<char>, ElementAction)>,
    tag: Seq<char>,
    href: Option<Seq<char>>,
    resolved: Option<Seq<char>>,
)
    requires
        handler_of(handlers, tag) is Some,
    ensures
        plain_outcome(handler_of(handlers, tag)) == handler_of(handlers, tag).unwrap()@,
        anchor_outcome(href, handler_of(handlers, tag), resolved) == handler_of(
            handlers,
            tag,
        ).unwrap()@,
{
}

/// Without a custom handler, an element other than an anchor is unwrapped: its tags go and its
/// content stays. So is an anchor without an `href`.
pub proof fn lemma_unhandled_elements_unwrapped(
    handlers: Seq<(Seq<char>, ElementAction)>,
    tag: Seq<char>,
)
    requires
        handler_of(handlers, tag) is None,
    ensures
        plain_outcome(handler_of(handlers, tag)) == ActionView::Unwrap,
        anchor_outcome(None, handler_of(handlers, tag), None) == ActionView::Unwrap,
{
}

/// Carries out `action` on `el`.
fn apply_action(el: &mut Element, action: &ElementAction) {
    match action {
        ElementAction::Remove => remove_element(el),
        ElementAction::Unwrap => unwrap_element(el),
        ElementAction::Replace(markup) => replace_element(el, markup.as_str()),
        ElementAction::Wrap(before, after) => {
            prepend_markup(el, before.as_str());
            unwrap_element(el);
            append_markup(el, after.as_str());
        },
    }
}

/// Handles one element that the rewriter meets.
fn handle_element<U: Resolver, R: Resolver>(el: &mut Element, info: &Info<U, R>) {
    let tag = tag_name_of(el);
    let href = attribute_of(el, "href");
    let action = element_action(info, tag.as_str(), href);
    apply_action(el, &action);
}

/// Handles one comment that the rewriter meets: it is dropped.
fn drop_comment(c: &mut Comment) {
    remove_comment(c);
}

/// Whether lol_html's rewriter, set up as `rewrite` sets it up, accepts the markup `s`.
pub uninterp spec fn markup_accepted(s: Seq<char>) -> bool;

/// Whether `r` is a success holding the text `t`.
pub open spec fn outputs<E>(r: Result<String, E>, t: Seq<char>) -> bool {
    r matches Ok(o) && o@ == t
}

/// Whether `s` holds no `<`, so no tag and no comment.
pub open spec fn plain_text(s: Seq<char>) -> bool {
    !s.contains('<')
}

/// The double quote.
pub open spec fn quote_char() -> char {
    '"'
}

/// Tags of ordinary elements, which hold their content as markup and close with an end tag.
pub open spec fn plain_tag(t: Seq<char>) -> bool {
    t == "a"@ || t == "b"@ || t == "i"@ || t == "u"@ || t == "s"@ || t == "em"@ || t == "strong"@
        || t == "span"@ || t == "p"@ || t == "div"@ || t == "code"@ || t == "blockquote"@ || t
        == "del"@ || t == "sub"@ || t == "sup"@ || t == "ul"@ || t == "ol"@ || t == "li"@
}

/// Names of custom elements: lowercase ASCII letters and at least one `-`, starting with a
/// letter (`mx-reply`).
pub open spec fn custom_tag(t: Seq<char>) -> bool {
    &&& t.len() >= 2
    &&& 'a' <= t[0] && t[0] <= 'z'
    &&& forall|i: int| 0 <= i < t.len() ==> ('a' <= #[trigger] t[i] && t[i] <= 'z') || t[i] == '-'
    &&& exists|i: int| 0 <= i < t.len() && #[trigger] t[i] == '-'
}

/// Tags of the void elements the markup may hold, which have no content and no end tag.
pub open spec fn void_tag(t: Seq<char>) -> bool {
    t == "br"@ || t == "hr"@
}

/// Markup of the kind that the conversion is specified on: text, comments, elements with
/// content, void elements, anchors with an `href`, and such pieces one after another.
pub enum Markup {
    /// Text, which holds no `<`.
    Text(Seq<char>),
    /// The comment `<!--c-->`.
    Comment(Seq<char>),
    /// The element `<t>content</t>`, without attributes.
    Element(Seq<char>, Box<Markup>),
    /// The void element `<t>`.
    Void(Seq<char>),
    /// The anchor `<a href="h">content</a>`.
    Anchor(Seq<char>, Box<Markup>),
    /// Two pieces of markup, one after the other.
    Cat(Box<Markup>, Box<Markup>),
}

/// The source text of `m`.
pub open spec fn source(m: Markup) -> Seq<char>
    decreases m,
{
    match m {
        Markup::Text(x) => x,
        Markup::Comment(c) => "<!--"@ + c + "-->"@,
        Markup::Element(t, content) => "<"@ + t + ">"@ + source(*content) + "</"@ + t + ">"@,
        Markup::Void(t) => "<"@ + t + ">"@,
        Markup::Anchor(h, content) => "<a href=\""@ + h + "\">"@ + source(*content) + "</a>"@,
        Markup::Cat(a, b) => source(*a) + source(*b),
    }
}

/// Whether `m` keeps to the forms that the conversion is specified on: text without `<`,
/// comments without `-`, `<` or `>`, ordinary and custom elements, `<br>` and `<hr>`, and
/// anchors whose `href` holds no `"`.
pub open spec fn well_formed(m: Markup) -> bool
    decreases m,
{
    match m {
        Markup::Text(x) => plain_text(x),
        Markup::Comment(c) => plain_text(c) && !c.contains('-') && !c.contains('>'),
        Markup::Element(t, content) => (plain_tag(t) || custom_tag(t)) && well_formed(*content),
        Markup::Void(t) => void_tag(t),
        Markup::Anchor(h, content) => !h.contains(quote_char()) && well_formed(*content),
        Markup::Cat(a, b) => well_formed(*a) && well_formed(*b),
    }
}

/// What `action` makes of an element whose content converts to `inner`.
pub open spec fn rendered(action: ActionView, inner: Seq<char>) -> Seq<char> {
    match action {
        ActionView::Remove => Seq::empty(),
        ActionView::Unwrap => inner,
        ActionView::Replace(m) => m,
        ActionView::Wrap(before, after) => before + inner + after,
    }
}

/// What a void element becomes: it has no content to keep or to wrap.
pub open spec fn rendered_void(action: ActionView) -> Seq<char> {
    match action {
        ActionView::Replace(m) => m,
        _ => Seq::empty(),
    }
}

/// What the conversion with `info` makes of `m`: comments go, text stays as it is, and each
/// element becomes what its decided action makes of it.
pub open spec fn converted<U: Resolver, R: Resolver>(info: Info<U, R>, m: Markup) -> Seq<char>
    decreases m,
{
    match m {
        Markup::Text(x) => x,
        Markup::Comment(_) => Seq::empty(),
        Markup::Element(t, content) => rendered(decided(info, t, None), converted(info, *content)),
        Markup::Void(t) => rendered_void(decided(info, t, None)),
        Markup::Anchor(h, content) => rendered(
            decided(info, "a"@, Some(h)),
            converted(info, *content),
        ),
        Markup::Cat(a, b) => converted(info, *a) + converted(info, *b),
    }
}

/// What `element_action` decides for an element named `t` with the attribute `href` (if any).
pub open spec fn decided<U: Resolver, R: Resolver>(
    info: Info<U, R>,
    t: Seq<char>,
    href: Option<Seq<char>>,
) -> ActionView {
    if t == "a"@ {
        anchor_outcome(
            href,
            handler_of(info.handlers(), t),
            resolved_for(info.users(), info.rooms(), href),
        )
    } else {
        plain_outcome(handler_of(info.handlers(), t))
    }
}

/// Relies on lol_html's `rewrite_str`: streams `s` once through the rewriter, which hands every
/// element to `handle_element` and every comment to `drop_comment`. Those handlers never fail,
/// so the outcome turns on the markup alone. Text is copied byte for byte; end tags close the
/// nearest open element of their name, with no implied closing; tag names come back lowercased
/// and attribute values as written; the element's `remove`, `remove_and_keep_content`,
/// `replace`, `prepend` and `append` act as their documentation says (`prepend` and `append` do
/// nothing on a void element), and what a removed or replaced element holds leaves the output
/// whatever its own handlers did.
#[verifier::external_body]
fn rewrite<U: Resolver, R: Resolver>(s: &str, info: &Info<U, R>) -> (r: Result<String, RewritingError>)
    ensures
        r is Ok <==> markup_accepted(s@),
        plain_text(s@) ==> outputs(r, s@),
        (forall|m: Markup|
            #[trigger] source(m) == s@ && well_formed(m) ==> outputs(r, converted(*info, m))),
{
    let settings = Settings {
        element_content_handlers: vec![(
            Cow::Owned("*".parse().unwrap()),
            ElementContentHandlers::default().element(|e| Ok(handle_element(e, info))),
        )],
        document_content_handlers: vec![
            DocumentContentHandlers::default().comments(|c| Ok(drop_comment(c))),
        ],
        ..Settings::default()
    };
    rewrite_str(s, settings)
}

/// Converts Matrix markup into external text, in one streaming pass: comments are dropped, and
/// each element becomes what `element_action` decides for it. Fails only where the rewriter
/// refuses the markup. Text without markup comes back unchanged, so a second pass over such an
/// output changes nothing.
pub fn convert<U: Resolver, R: Resolver>(s: &str, info: &Info<U, R>) -> (r: Result<String, &'static str>)
    ensures
        r is Ok <==> markup_accepted(s@),
        plain_text(s@) ==> outputs(r, s@),
        (forall|m: Markup|
            #[trigger] source(m) == s@ && well_formed(m) ==> outputs(r, converted(*info, m))),
{
    match rewrite(s, info) {
        Ok(out) => Ok(out),
        Err(_) => Err("the markup could not be rewritten"),
    }
}

} // verus!
