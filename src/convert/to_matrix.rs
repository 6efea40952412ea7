//! External plain text to Matrix markup: known display names become mention links.
use vstd::prelude::*;
use vstd::string::{StrSliceExecFns, StringExecFns, StringSliceAdditionalSpecFns};
use vstd::utf8::*;

use pcre2::bytes::Regex;

use crate::matrix::MatrixToItem;
use crate::text::{same_text, split_text, text_of_bytes};

verus! {

broadcast use vstd::utf8::encode_utf8_decode_utf8, vstd::utf8::encode_utf8_valid_utf8;

/// pcre2's compiled `Regex`, used only through `match_spans`.
#[verifier::external_type_specification]
#[verifier::external_body]
pub struct ExRegex(Regex);

/// pcre2's `Error`, passed on without being looked into.
#[verifier::external_type_specification]
#[verifier::external_body]
pub struct ExPcre2Error(pcre2::Error);

/// Whether `c` has a meaning in a regular expression: `\\ . + * ? ( ) | [ ] { } ^ $ # & - ~`.
pub open spec fn is_meta_character(c: char) -> bool {
    c == '\\' || c == '.' || c == '+' || c == '*' || c == '?' || c == '(' || c == ')' || c == '|'
        || c == '[' || c == ']' || c == '{' || c == '}' || c == '^' || c == '$' || c == '#' || c
        == '&' || c == '-' || c == '~'
}

/// `name` with a backslash before each meta character, so that it matches itself literally.
pub open spec fn escaped(name: Seq<char>) -> Seq<char>
    decreases name.len(),
{
    if name.len() == 0 {
        Seq::empty()
    } else if is_meta_character(name.last()) {
        escaped(name.drop_last()) + seq!['\\', name.last()]
    } else {
        escaped(name.drop_last()).push(name.last())
    }
}

/// The spans of the first capture group of each match of `pattern`, compiled as `compile`
/// compiles it, in `text`, in order (`None` where the group took no part), or `None` where PCRE2
/// reports an error while matching.
pub uninterp spec fn group1_spans(pattern: Seq<char>, text: Seq<char>) -> Option<
    Seq<Option<(usize, usize)>>,
>;

/// The spans that are present, in order.
pub open spec fn present(spans: Seq<Option<(usize, usize)>>) -> Seq<(usize, usize)>
    decreases spans.len(),
{
    if spans.len() == 0 {
        Seq::empty()
    } else {
        match spans.last() {
            Some(x) => present(spans.drop_last()).push(x),
            None => present(spans.drop_last()),
        }
    }
}

/// Whether PCRE2, in UTF mode with Unicode properties, compiles `pattern`.
pub uninterp spec fn pcre2_accepts(pattern: Seq<char>) -> bool;

/// Relies on `regex::escape` (`regex_syntax::escape`): a backslash goes before each meta
/// character.
#[verifier::external_body]
fn escape_name(s: &str) -> (r: String)
    ensures
        r@ == escaped(s@),
{
    regex::escape(s)
}

/// Relies on `pcre2::bytes::RegexBuilder::build`, with UTF mode and Unicode properties on, so
/// that `\W` and the lookarounds work on characters: compiling succeeds exactly on the patterns
/// PCRE2 accepts in that mode.
#[verifier::external_body]
fn compile(pattern: &str) -> (r: Result<Regex, pcre2::Error>)
    ensures
        r is Ok <==> pcre2_accepts(pattern@),
{
    pcre2::bytes::RegexBuilder::new().utf(true).ucp(true).build(pattern)
}

/// The known display names, each with the Matrix item that it mentions.
///
/// Names are unique. They are kept in descending order of their UTF-8 bytes, so the table, and
/// the alternation built from it, depends on the set of names alone; as every name comes before
/// its own prefixes, the longest name wins where several match at one place.
pub struct Info {
    entries: Vec<(String, MatrixToItem)>,
}

/// The view of one entry.
pub open spec fn entry_view(e: (String, MatrixToItem)) -> (Seq<char>, MatrixToItem) {
    (e.0@, e.1)
}

/// The Matrix item that `name` mentions in `entries`, if any.
pub open spec fn target_of(entries: Seq<(Seq<char>, MatrixToItem)>, name: Seq<char>) -> Option<
    MatrixToItem,
> {
    if exists|i: int| 0 <= i < entries.len() && (#[trigger] entries[i]).0 == name {
        Some(entries[choose|i: int| 0 <= i < entries.len() && (#[trigger] entries[i]).0 == name].1)
    } else {
        None
    }
}

/// Whether the bytes `x` come before the bytes `y` in lexicographic order.
pub open spec fn bytes_less(x: Seq<u8>, y: Seq<u8>) -> bool
    decreases x.len(),
{
    if x.len() == 0 {
        y.len() > 0
    } else if y.len() == 0 {
        false
    } else if x[0] != y[0] {
        x[0] < y[0]
    } else {
        bytes_less(x.drop_first(), y.drop_first())
    }
}

/// Whether the name `a` goes before the name `b` in the table: the names are kept in descending
/// order of their UTF-8 bytes, so a name always comes before its own prefixes.
pub open spec fn name_first(a: Seq<char>, b: Seq<char>) -> bool {
    bytes_less(encode_utf8(b), encode_utf8(a))
}

/// Names of `entries` are pairwise distinct and in descending order of their UTF-8 bytes.
pub open spec fn entries_wf(entries: Seq<(Seq<char>, MatrixToItem)>) -> bool {
    &&& forall|i: int, j: int|
        0 <= i < entries.len() && 0 <= j < entries.len() && i != j ==> (#[trigger] entries[i]).0
            != (#[trigger] entries[j]).0
    &&& forall|i: int, j: int|
        0 <= i < j < entries.len() ==> name_first(
            (#[trigger] entries[i]).0,
            (#[trigger] entries[j]).0,
        )
}

proof fn lemma_bytes_less_irreflexive(x: Seq<u8>)
    ensures
        !bytes_less(x, x),
    decreases x.len(),
{
    if x.len() > 0 {
        lemma_bytes_less_irreflexive(x.drop_first());
    }
}

proof fn lemma_bytes_less_transitive(x: Seq<u8>, y: Seq<u8>, z: Seq<u8>)
    requires
        bytes_less(x, y),
        bytes_less(y, z),
    ensures
        bytes_less(x, z),
    decreases x.len(),
{
    if x.len() > 0 && y.len() > 0 && z.len() > 0 && x[0] == y[0] && y[0] == z[0] {
        lemma_bytes_less_transitive(x.drop_first(), y.drop_first(), z.drop_first());
    }
}

proof fn lemma_bytes_less_total(x: Seq<u8>, y: Seq<u8>)
    requires
        x != y,
    ensures
        bytes_less(x, y) || bytes_less(y, x),
    decreases x.len(),
{
    if x.len() > 0 && y.len() > 0 && x[0] == y[0] {
        if x.drop_first() == y.drop_first() {
            assert(x =~= seq![x[0]] + x.drop_first());
            assert(y =~= seq![y[0]] + y.drop_first());
        }
        lemma_bytes_less_total(x.drop_first(), y.drop_first());
    } else if x.len() == 0 && y.len() == 0 {
        assert(x =~= y);
    }
}

/// Distinct names are ordered one way or the other, and never both ways.
proof fn lemma_name_order(a: Seq<char>, b: Seq<char>)
    ensures
        !name_first(a, a),
        a != b ==> name_first(a, b) || name_first(b, a),
{
    lemma_bytes_less_irreflexive(encode_utf8(a));
    if a != b {
        assert(decode_utf8(encode_utf8(a)) == a);
        assert(decode_utf8(encode_utf8(b)) == b);
        lemma_bytes_less_total(encode_utf8(a), encode_utf8(b));
    }
}

/// The escaped names, joined by `|`.
pub open spec fn alternation(entries: Seq<(Seq<char>, MatrixToItem)>) -> Seq<char>
    decreases entries.len(),
{
    if entries.len() == 0 {
        Seq::empty()
    } else if entries.len() == 1 {
        escaped(entries[0].0)
    } else {
        alternation(entries.drop_last()) + "|"@ + escaped(entries.last().0)
    }
}

/// The pattern that matches any of the names as a whole word: not preceded nor followed by a
/// word character.
pub open spec fn mention_pattern(entries: Seq<(Seq<char>, MatrixToItem)>) -> Seq<char> {
    "(?<=^|\\W)("@ + alternation(entries) + ")(?=$|\\W)"@
}

/// The anchor that links `name` to `item`.
pub open spec fn mention_anchor(name: Seq<char>, item: MatrixToItem) -> Seq<char> {
    "<a href=\""@ + item.url() + "\">"@ + name + "</a>"@
}

/// Whether the span `(st, en)`, given in byte offsets of a text of which `rest` is the part from
/// the offset `pos` on, is a known name that can be linked: it is not empty, starts no earlier
/// than `pos`, and begins and ends on character boundaries.
pub open spec fn span_links(
    rest: Seq<u8>,
    pos: int,
    st: int,
    en: int,
    entries: Seq<(Seq<char>, MatrixToItem)>,
) -> bool {
    let tail = rest.subrange(st - pos, rest.len() as int);
    &&& pos <= st < en
    &&& is_char_boundary(rest, st - pos)
    &&& is_char_boundary(tail, en - st)
    &&& target_of(entries, text_of_bytes(tail, 0, en - st)) is Some
}

/// The text of `rest` (the part of a text from the byte offset `pos` on) with the spans that
/// link replaced by their anchors, taking the spans in their order and passing over a span that
/// does not link.
pub open spec fn linked(
    rest: Seq<u8>,
    pos: int,
    spans: Seq<(usize, usize)>,
    entries: Seq<(Seq<char>, MatrixToItem)>,
) -> Seq<char>
    decreases spans.len(),
{
    if spans.len() == 0 {
        decode_utf8(rest)
    } else {
        let st = spans[0].0 as int;
        let en = spans[0].1 as int;
        if span_links(rest, pos, st, en, entries) {
            let tail = rest.subrange(st - pos, rest.len() as int);
            let name = text_of_bytes(tail, 0, en - st);
            text_of_bytes(rest, 0, st - pos) + mention_anchor(name, target_of(entries, name).unwrap())
                + linked(
                tail.subrange(en - st, tail.len() as int),
                en,
                spans.drop_first(),
                entries,
            )
        } else {
            linked(rest, pos, spans.drop_first(), entries)
        }
    }
}

/// Whether the bytes of `x` come before the bytes of `y`.
fn bytes_before(x: &str, y: &str) -> (r: bool)
    ensures
        r == bytes_less(x.spec_bytes(), y.spec_bytes()),
{
    let xb = x.as_bytes();
    let yb = y.as_bytes();
    let mut i: usize = 0;
    assert(xb@.skip(0) =~= xb@);
    assert(yb@.skip(0) =~= yb@);
    while i < xb.len() && i < yb.len() && xb[i] == yb[i]
        invariant
            i <= xb@.len(),
            i <= yb@.len(),
            bytes_less(xb@.skip(i as int), yb@.skip(i as int)) == bytes_less(xb@, yb@),
            xb@ == x.spec_bytes(),
            yb@ == y.spec_bytes(),
        decreases xb@.len() - i,
    {
        proof {
            assert(xb@.skip(i as int).drop_first() =~= xb@.skip(i + 1));
            assert(yb@.skip(i as int).drop_first() =~= yb@.skip(i + 1));
        }
        i = i + 1;
    }
    if i == xb.len() {
        i < yb.len()
    } else if i == yb.len() {
        false
    } else {
        xb[i] < yb[i]
    }
}

impl View for Info {
    type V = Seq<(Seq<char>, MatrixToItem)>;

    closed spec fn view(&self) -> Seq<(Seq<char>, MatrixToItem)> {
        self.entries@.map_values(|e: (String, MatrixToItem)| entry_view(e))
    }
}

impl Info {
    /// The entries are well formed.
    pub open spec fn wf(&self) -> bool {
        entries_wf(self@)
    }

    /// An empty table.
    pub fn new() -> (r: Info)
        ensures
            r.wf(),
            r@ == Seq::<(Seq<char>, MatrixToItem)>::empty(),
    {
        Info { entries: Vec::new() }
    }

    /// Finds the position of `name`.
    fn position(&self, name: &str) -> (r: Option<usize>)
        requires
            self.wf(),
        ensures
            r is None ==> target_of(self@, name@) is None,
            r matches Some(i) ==> i < self@.len() && self@[i as int].0 == name@ && target_of(
                self@,
                name@,
            ) == Some(self@[i as int].1),
    {
        let mut i: usize = 0;
        while i < self.entries.len()
            invariant
                self.wf(),
                0 <= i <= self@.len(),
                forall|k: int| 0 <= k < i ==> (#[trigger] self@[k]).0 != name@,
            decreases self@.len() - i,
        {
            assert(self@[i as int] == entry_view(self.entries@[i as int]));
            if same_text(self.entries[i].0.as_str(), name) {
                proof {
                    let c = choose|c: int| 0 <= c < self@.len() && (#[trigger] self@[c]).0 == name@;
                    if c != i {
                        assert(self@[c].0 != self@[i as int].0);
                    }
                }
                return Some(i);
            }
            i = i + 1;
        }
        None
    }

    /// The Matrix item that `name` mentions, if `name` is known.
    pub fn get(&self, name: &str) -> (r: Option<&MatrixToItem>)
        requires
            self.wf(),
        ensures
            r is Some <==> target_of(self@, name@) is Some,
            r matches Some(item) ==> target_of(self@, name@) == Some(*item),
    {
        match self.position(name) {
            None => None,
            Some(i) => Some(&self.entries[i].1),
        }
    }

    /// Maps `name` to `item`, returning the item that `name` mapped to before, if any.
    pub fn insert(&mut self, name: String, item: MatrixToItem) -> (r: Option<MatrixToItem>)
        requires
            old(self).wf(),
        ensures
            final(self).wf(),
            r == target_of(old(self)@, name@),
            target_of(final(self)@, name@) == Some(item),
            forall|other: Seq<char>|
                other != name@ ==> target_of(final(self)@, other) == target_of(
                    old(self)@,
                    other,
                ),
    {
        let previous = match self.position(name.as_str()) {
            None => None,
            Some(i) => {
                let ghost before = self@;
                let (_, old_item) = self.entries.remove(i);
                proof {
                    assert(self@ =~= before.remove(i as int));
                    lemma_remove_entry(before, i as int);
                }
                Some(old_item)
            },
        };
        let ghost without = self@;
        let mut j: usize = 0;
        while j < self.entries.len()
            invariant
                self@ == without,
                entries_wf(without),
                target_of(without, name@) is None,
                0 <= j <= self@.len(),
                forall|k: int| 0 <= k < j ==> name_first((#[trigger] self@[k]).0, name@),
            ensures
                self@ == without,
                0 <= j <= self@.len(),
                forall|k: int| 0 <= k < j ==> name_first((#[trigger] self@[k]).0, name@),
                j < self@.len() ==> name_first(name@, self@[j as int].0),
            decreases self@.len() - j,
        {
            assert(self@[j as int] == entry_view(self.entries@[j as int]));
            if bytes_before(self.entries[j].0.as_str(), name.as_str()) {
                break;
            }
            proof {
                assert(self@[j as int].0 != name@) by {
                    if self@[j as int].0 == name@ {
                        assert(exists|i: int| 0 <= i < without.len() && (#[trigger] without[i]).0 == name@);
                    }
                }
                lemma_name_order(self@[j as int].0, name@);
            }
            j = j + 1;
        }
        proof {
            if j < without.len() {
                assert forall|k: int| j <= k < without.len() implies name_first(name@, #[trigger] without[k].0) by {
                    if k > j {
                        lemma_bytes_less_transitive(
                            encode_utf8(without[k].0),
                            encode_utf8(without[j as int].0),
                            encode_utf8(name@),
                        );
                    }
                }
            }
            lemma_insert_entry(without, j as int, name@, item);
        }
        let ghost entry = (name@, item);
        self.entries.insert(j, (name, item));
        proof {
            assert(self@ =~= without.insert(j as int, entry));
        }
        previous
    }
}

proof fn lemma_remove_entry(entries: Seq<(Seq<char>, MatrixToItem)>, i: int)
    requires
        entries_wf(entries),
        0 <= i < entries.len(),
    ensures
        entries_wf(entries.remove(i)),
        target_of(entries.remove(i), entries[i].0) is None,
        forall|other: Seq<char>|
            other != entries[i].0 ==> target_of(entries.remove(i), other) == target_of(
                entries,
                other,
            ),
{
    let t = entries.remove(i);
    assert forall|a: int| 0 <= a < t.len() implies #[trigger] t[a] == entries[if a < i {
        a
    } else {
        a + 1
    }] by {}
    assert forall|other: Seq<char>| other != entries[i].0 implies target_of(t, other) == target_of(
        entries,
        other,
    ) by {
        if exists|k: int| 0 <= k < entries.len() && (#[trigger] entries[k]).0 == other {
            let k = choose|k: int| 0 <= k < entries.len() && (#[trigger] entries[k]).0 == other;
            let tk = if k < i { k } else { k - 1 };
            assert(t[tk] == entries[k]);
            let c = choose|c: int| 0 <= c < t.len() && (#[trigger] t[c]).0 == other;
            let ec = if c < i { c } else { c + 1 };
            assert(t[c] == entries[ec]);
            if ec != k {
                assert(entries[ec].0 != entries[k].0);
            }
        } else {
            if exists|c: int| 0 <= c < t.len() && (#[trigger] t[c]).0 == other {
                let c = choose|c: int| 0 <= c < t.len() && (#[trigger] t[c]).0 == other;
                let ec = if c < i { c } else { c + 1 };
                assert(t[c] == entries[ec]);
            }
        }
    }
    if exists|c: int| 0 <= c < t.len() && (#[trigger] t[c]).0 == entries[i].0 {
        let c = choose|c: int| 0 <= c < t.len() && (#[trigger] t[c]).0 == entries[i].0;
        let ec = if c < i { c } else { c + 1 };
        assert(t[c] == entries[ec]);
    }
}

proof fn lemma_insert_entry(
    entries: Seq<(Seq<char>, MatrixToItem)>,
    j: int,
    name: Seq<char>,
    item: MatrixToItem,
)
    requires
        entries_wf(entries),
        target_of(entries, name) is None,
        0 <= j <= entries.len(),
        forall|k: int| 0 <= k < j ==> name_first((#[trigger] entries[k]).0, name),
        forall|k: int| j <= k < entries.len() ==> name_first(name, (#[trigger] entries[k]).0),
    ensures
        entries_wf(entries.insert(j, (name, item))),
        target_of(entries.insert(j, (name, item)), name) == Some(item),
        forall|other: Seq<char>|
            other != name ==> target_of(entries.insert(j, (name, item)), other) == target_of(
                entries,
                other,
            ),
{
    let t = entries.insert(j, (name, item));
    assert forall|a: int| 0 <= a < t.len() && a != j implies #[trigger] t[a] == entries[if a < j {
        a
    } else {
        a - 1
    }] by {}
    assert(t[j] == (name, item));
    assert forall|k: int| 0 <= k < entries.len() implies (#[trigger] entries[k]).0 != name by {
        if entries[k].0 == name {
            assert(exists|i: int| 0 <= i < entries.len() && (#[trigger] entries[i]).0 == name);
        }
    }
    assert forall|a: int, b: int| 0 <= a < b < t.len() implies name_first(
        (#[trigger] t[a]).0,
        (#[trigger] t[b]).0,
    ) by {
        if a < j && b > j {
            assert(name_first(entries[a].0, entries[b - 1].0));
        } else if a == j {
            assert(name_first(name, entries[b - 1].0));
        } else if b == j {
            assert(name_first(entries[a].0, name));
        } else if a < j && b < j {
            assert(name_first(entries[a].0, entries[b].0));
        } else {
            assert(name_first(entries[a - 1].0, entries[b - 1].0));
        }
    }
    assert forall|a: int, b: int|
        0 <= a < t.len() && 0 <= b < t.len() && a != b implies (#[trigger] t[a]).0 != (
        #[trigger] t[b]).0 by {
        if a != j && b != j {
            let ea = if a < j { a } else { a - 1 };
            let eb = if b < j { b } else { b - 1 };
            assert(entries[ea].0 != entries[eb].0);
        }
    }
    let c = choose|c: int| 0 <= c < t.len() && (#[trigger] t[c]).0 == name;
    assert(c == j);
    assert forall|other: Seq<char>| other != name implies target_of(t, other) == target_of(
        entries,
        other,
    ) by {
        if exists|k: int| 0 <= k < entries.len() && (#[trigger] entries[k]).0 == other {
            let k = choose|k: int| 0 <= k < entries.len() && (#[trigger] entries[k]).0 == other;
            let tk = if k < j { k } else { k + 1 };
            assert(t[tk] == entries[k]);
            let c2 = choose|c2: int| 0 <= c2 < t.len() && (#[trigger] t[c2]).0 == other;
            let ec = if c2 < j { c2 } else { c2 - 1 };
            assert(c2 != j);
            assert(t[c2] == entries[ec]);
            if ec != k {
                assert(entries[ec].0 != entries[k].0);
            }
        } else {
            if exists|c2: int| 0 <= c2 < t.len() && (#[trigger] t[c2]).0 == other {
                let c2 = choose|c2: int| 0 <= c2 < t.len() && (#[trigger] t[c2]).0 == other;
                let ec = if c2 < j { c2 } else { c2 - 1 };
                assert(t[c2] == entries[ec]);
            }
        }
    }
}

/// A compiled pattern that finds the known names in a text.
pub struct BuiltRegex {
    regex: Regex,
    pattern: Ghost<Seq<char>>,
}

impl BuiltRegex {
    /// The pattern that was compiled.
    pub closed spec fn pattern(&self) -> Seq<char> {
        self.pattern@
    }
}

/// Relies on `pcre2::bytes::Regex::captures_iter`: for each match of the compiled pattern, the
/// byte offsets of its first capture group, or `None` where the group took no part. Collecting
/// stops at the first error, which is returned.
#[verifier::external_body]
fn match_spans(regex: &BuiltRegex, s: &str) -> (r: Result<Vec<Option<(usize, usize)>>, pcre2::Error>)
    ensures
        r is Ok <==> group1_spans(regex.pattern(), s@) is Some,
        r matches Ok(v) ==> group1_spans(regex.pattern(), s@) == Some(v@),
{
    regex
        .regex
        .captures_iter(s.as_bytes())
        .map(|c| c.map(|c| c.get(1).map(|m| (m.start(), m.end()))))
        .collect()
}

/// Builds the pattern that matches any name of `info` as a whole word, and compiles it; `None`
/// where PCRE2 refuses the pattern.
pub fn build_regex(info: &Info) -> (r: Option<BuiltRegex>)
    ensures
        r is Some <==> pcre2_accepts(mention_pattern(info@)),
        r matches Some(b) ==> b.pattern() == mention_pattern(info@),
{
    let mut p = String::from_str("(?<=^|\\W)(");
    let mut i: usize = 0;
    while i < info.entries.len()
        invariant
            0 <= i <= info@.len(),
            p@ == "(?<=^|\\W)("@ + alternation(info@.subrange(0, i as int)),
        decreases info@.len() - i,
    {
        if i > 0 {
            p.append("|");
        }
        let esc = escape_name(info.entries[i].0.as_str());
        p.append(esc.as_str());
        proof {
            let sub = info@.subrange(0, i + 1);
            assert(sub.drop_last() =~= info@.subrange(0, i as int));
            assert(sub.last() == info@[i as int]);
            assert(info@[i as int] == entry_view(info.entries@[i as int]));
            if i == 0 {
                assert(alternation(info@.subrange(0, 0)) =~= Seq::<char>::empty());
            }
            assert(p@ =~= "(?<=^|\\W)("@ + alternation(sub));
        }
        i = i + 1;
    }
    p.append(")(?=$|\\W)");
    proof {
        assert(info@.subrange(0, info@.len() as int) =~= info@);
        assert(p@ =~= mention_pattern(info@));
    }
    match compile(p.as_str()) {
        Ok(regex) => Some(BuiltRegex { regex, pattern: Ghost(p@) }),
        Err(_) => None,
    }
}

/// Renders the anchor that links `name` to `item`.
fn render_anchor(name: &str, item: &MatrixToItem) -> (r: String)
    ensures
        r@ == mention_anchor(name@, *item),
{
    let mut a = String::from_str("<a href=\"");
    let url = item.to_url_string();
    a.append(url.as_str());
    a.append("\">");
    a.append(name);
    a.append("</a>");
    proof {
        assert(a@ =~= mention_anchor(name@, *item));
    }
    a
}

/// Replaces each of the `spans` of `s` (byte offsets, in order) that holds a known name with the
/// anchor that links it, copying the rest of `s` unchanged. A span that is empty, that starts
/// before the end of the span linked last, that does not fall on character boundaries, or whose
/// text is no known name, is passed over.
pub fn link_spans(s: &str, spans: &Vec<(usize, usize)>, info: &Info) -> (r: String)
    requires
        info.wf(),
    ensures
        r@ == linked(s.spec_bytes(), 0, spans@, info@),
{
    let mut out = String::new();
    let mut rest: &str = s;
    let mut pos: usize = 0;
    let mut i: usize = 0;
    proof {
        assert(spans@.subrange(0, spans@.len() as int) =~= spans@);
        assert(out@ + linked(s.spec_bytes(), 0, spans@, info@) =~= linked(s.spec_bytes(), 0, spans@, info@));
    }
    while i < spans.len()
        invariant
            info.wf(),
            0 <= i <= spans@.len(),
            out@ + linked(rest.spec_bytes(), pos as int, spans@.subrange(i as int, spans@.len() as int), info@)
                == linked(s.spec_bytes(), 0, spans@, info@),
        decreases spans@.len() - i,
    {
        let ghost rest_b = rest.spec_bytes();
        let ghost todo = spans@.subrange(i as int, spans@.len() as int);
        proof {
            assert(todo.drop_first() =~= spans@.subrange(i + 1, spans@.len() as int));
            assert(todo[0] == spans@[i as int]);
        }
        let (st, en) = spans[i];
        if pos <= st && st < en && rest.is_char_boundary(st - pos) {
            let (gap, tail) = split_text(rest, st - pos);
            if tail.is_char_boundary(en - st) {
                let (name, after) = split_text(tail, en - st);
                match info.get(name) {
                    Some(item) => {
                        let a = render_anchor(name, item);
                        let ghost out0 = out@;
                        out.append(gap);
                        out.append(a.as_str());
                        proof {
                            assert(out@ =~= out0 + gap@ + a@);
                        }
                        rest = after;
                        pos = en;
                    },
                    None => {},
                }
            }
        }
        i = i + 1;
    }
    proof {
        assert(spans@.subrange(i as int, spans@.len() as int) =~= Seq::<(usize, usize)>::empty());
        assert(decode_utf8(rest.spec_bytes()) == rest@);
    }
    out.append(rest);
    out
}

/// Converts the external text `s` into Matrix markup: every known name that `regex` finds is
/// replaced by an anchor that links it, the rest of `s` is copied unchanged. Where PCRE2 fails
/// while matching, `s` comes back unchanged.
pub fn convert(regex: BuiltRegex, s: String, info: &Info) -> (r: String)
    requires
        info.wf(),
    ensures
        match group1_spans(regex.pattern(), s@) {
            Some(found) => r@ == linked(encode_utf8(s@), 0, present(found), info@),
            None => r@ == s@,
        },
{
    let found = match match_spans(&regex, s.as_str()) {
        Ok(found) => found,
        Err(_) => {
            return s;
        },
    };
    let mut spans: Vec<(usize, usize)> = Vec::new();
    let mut i: usize = 0;
    while i < found.len()
        invariant
            0 <= i <= found@.len(),
            spans@ == present(found@.subrange(0, i as int)),
        decreases found@.len() - i,
    {
        proof {
            assert(found@.subrange(0, i + 1).drop_last() =~= found@.subrange(0, i as int));
        }
        if let Some(span) = found[i] {
            spans.push(span);
        }
        i = i + 1;
    }
    proof {
        assert(found@.subrange(0, i as int) =~= found@);
    }
    link_spans(s.as_str(), &spans, info)
}

/// Whether some entry of `e` is for `n`.
pub open spec fn has_name(e: Seq<(Seq<char>, MatrixToItem)>, n: Seq<char>) -> bool {
    exists|i: int| 0 <= i < e.len() && (#[trigger] e[i]).0 == n
}

proof fn lemma_drop_first_wf(e: Seq<(Seq<char>, MatrixToItem)>)
    requires
        entries_wf(e),
        e.len() > 0,
    ensures
        entries_wf(e.drop_first()),
        forall|n: Seq<char>| has_name(e.drop_first(), n) <==> (has_name(e, n) && n != e[0].0),
{
    let d = e.drop_first();
    assert forall|i: int| 0 <= i < d.len() implies #[trigger] d[i] == e[i + 1] by {}
    assert forall|i: int, j: int| 0 <= i < j < d.len() implies name_first(
        (#[trigger] d[i]).0,
        (#[trigger] d[j]).0,
    ) by {
        assert(name_first(e[i + 1].0, e[j + 1].0));
    }
    assert forall|i: int, j: int|
        0 <= i < d.len() && 0 <= j < d.len() && i != j implies (#[trigger] d[i]).0 != (
        #[trigger] d[j]).0 by {
        assert(e[i + 1].0 != e[j + 1].0);
    }
    assert forall|n: Seq<char>| has_name(d, n) <==> (has_name(e, n) && n != e[0].0) by {
        if has_name(d, n) {
            let i = choose|i: int| 0 <= i < d.len() && (#[trigger] d[i]).0 == n;
            assert(e[i + 1].0 == n);
            assert(e[i + 1].0 != e[0].0);
        }
        if has_name(e, n) && n != e[0].0 {
            let i = choose|i: int| 0 <= i < e.len() && (#[trigger] e[i]).0 == n;
            assert(d[i - 1] == e[i]);
        }
    }
}

/// Two well-formed tables with the same names hold them in the same order.
proof fn lemma_same_names_same_order(e1: Seq<(Seq<char>, MatrixToItem)>, e2: Seq<(Seq<char>, MatrixToItem)>)
    requires
        entries_wf(e1),
        entries_wf(e2),
        forall|n: Seq<char>| has_name(e1, n) <==> has_name(e2, n),
    ensures
        e1.len() == e2.len(),
        forall|i: int| 0 <= i < e1.len() ==> (#[trigger] e1[i]).0 == e2[i].0,
    decreases e1.len(),
{
    if e1.len() == 0 {
        if e2.len() > 0 {
            assert(has_name(e2, e2[0].0));
        }
    } else if e2.len() == 0 {
        assert(has_name(e1, e1[0].0));
    } else {
        let m1 = e1[0].0;
        let m2 = e2[0].0;
        assert(has_name(e1, m1));
        assert(has_name(e2, m2));
        let k = choose|k: int| 0 <= k < e2.len() && (#[trigger] e2[k]).0 == m1;
        let l = choose|l: int| 0 <= l < e1.len() && (#[trigger] e1[l]).0 == m2;
        if k > 0 && l > 0 {
            assert(name_first(e2[0].0, e2[k].0));
            assert(name_first(e1[0].0, e1[l].0));
            lemma_bytes_less_transitive(encode_utf8(m1), encode_utf8(m2), encode_utf8(m1));
            lemma_name_order(m1, m1);
        }
        assert(m1 == m2);
        lemma_drop_first_wf(e1);
        lemma_drop_first_wf(e2);
        assert forall|n: Seq<char>| has_name(e1.drop_first(), n) <==> has_name(e2.drop_first(), n) by {
            assert(has_name(e1.drop_first(), n) <==> (has_name(e1, n) && n != m1));
            assert(has_name(e2.drop_first(), n) <==> (has_name(e2, n) && n != m2));
        }
        lemma_same_names_same_order(e1.drop_first(), e2.drop_first());
        assert forall|i: int| 0 <= i < e1.len() implies (#[trigger] e1[i]).0 == e2[i].0 by {
            if i > 0 {
                assert(e1.drop_first()[i - 1] == e1[i]);
                assert(e2.drop_first()[i - 1] == e2[i]);
            }
        }
    }
}

/// The alternation depends on the names of the entries alone.
proof fn lemma_alternation_by_names(e1: Seq<(Seq<char>, MatrixToItem)>, e2: Seq<(Seq<char>, MatrixToItem)>)
    requires
        e1.len() == e2.len(),
        forall|i: int| 0 <= i < e1.len() ==> (#[trigger] e1[i]).0 == e2[i].0,
    ensures
        alternation(e1) == alternation(e2),
    decreases e1.len(),
{
    if e1.len() > 1 {
        assert forall|i: int| 0 <= i < e1.drop_last().len() implies (
        #[trigger] e1.drop_last()[i]).0 == e2.drop_last()[i].0 by {
            assert(e1.drop_last()[i] == e1[i]);
            assert(e2.drop_last()[i] == e2[i]);
        }
        lemma_alternation_by_names(e1.drop_last(), e2.drop_last());
        assert(e1.last().0 == e2.last().0);
    } else if e1.len() == 1 {
        assert(e1[0].0 == e2[0].0);
    }
}

/// Tables that know the same names give the same pattern, whatever the order in which the names
/// were inserted and whatever items they mention.
pub proof fn lemma_pattern_depends_on_names_alone(
    e1: Seq<(Seq<char>, MatrixToItem)>,
    e2: Seq<(Seq<char>, MatrixToItem)>,
)
    requires
        entries_wf(e1),
        entries_wf(e2),
        forall|n: Seq<char>| #[trigger] target_of(e1, n) is Some <==> target_of(e2, n) is Some,
    ensures
        mention_pattern(e1) == mention_pattern(e2),
{
    assert forall|n: Seq<char>| has_name(e1, n) <==> has_name(e2, n) by {
        assert(target_of(e1, n) is Some <==> target_of(e2, n) is Some);
    }
    lemma_same_names_same_order(e1, e2);
    lemma_alternation_by_names(e1, e2);
}

/// The spans, given in byte offsets of the text with the UTF-8 bytes `b`, are in order, do not
/// overlap, start no earlier than `from`, are not empty, fall on character boundaries and each
/// holds a known name.
pub open spec fn spans_fit(
    b: Seq<u8>,
    spans: Seq<(usize, usize)>,
    entries: Seq<(Seq<char>, MatrixToItem)>,
    from: int,
) -> bool
    decreases spans.len(),
{
    if spans.len() == 0 {
        true
    } else {
        let a = spans[0].0 as int;
        let e = spans[0].1 as int;
        &&& from <= a < e <= b.len()
        &&& is_char_boundary(b, a)
        &&& is_char_boundary(b, e)
        &&& target_of(entries, text_of_bytes(b, a, e)) is Some
        &&& spans_fit(b, spans.drop_first(), entries, e)
    }
}

/// The text from the offset `from` on, with each span replaced by the anchor for its name and
/// the text between spans copied as it is.
pub open spec fn spliced(
    b: Seq<u8>,
    spans: Seq<(usize, usize)>,
    entries: Seq<(Seq<char>, MatrixToItem)>,
    from: int,
) -> Seq<char>
    decreases spans.len(),
{
    if spans.len() == 0 {
        text_of_bytes(b, from, b.len() as int)
    } else {
        let a = spans[0].0 as int;
        let e = spans[0].1 as int;
        let name = text_of_bytes(b, a, e);
        text_of_bytes(b, from, a) + mention_anchor(name, target_of(entries, name).unwrap())
            + spliced(b, spans.drop_first(), entries, e)
    }
}

/// Past a character boundary `p`, the character boundaries of the rest of the bytes are those
/// of the whole, shifted by `p`.
proof fn lemma_boundary_shift(b: Seq<u8>, p: int, k: int)
    requires
        valid_utf8(b),
        is_char_boundary(b, p),
        p <= k <= b.len(),
    ensures
        valid_utf8(b.subrange(p, b.len() as int)),
        is_char_boundary(b.subrange(p, b.len() as int), k - p) <==> is_char_boundary(b, k),
{
    let rest = b.subrange(p, b.len() as int);
    assert(0 <= p <= b.len()) by {
        if p != 0 {
            reveal_with_fuel(is_char_boundary, 2);
        }
    }
    valid_utf8_split(b, p);
    is_char_boundary_start_end_of_seq(b);
    is_char_boundary_start_end_of_seq(rest);
    if k < b.len() && k > p {
        is_char_boundary_iff_not_is_continuation_byte(b, k);
        is_char_boundary_iff_not_is_continuation_byte(rest, k - p);
        assert(rest[k - p] == b[k]);
    }
}

proof fn lemma_linked_spliced(
    b: Seq<u8>,
    pos: int,
    spans: Seq<(usize, usize)>,
    entries: Seq<(Seq<char>, MatrixToItem)>,
)
    requires
        valid_utf8(b),
        is_char_boundary(b, pos),
        pos <= b.len(),
        spans_fit(b, spans, entries, pos),
    ensures
        linked(b.subrange(pos, b.len() as int), pos, spans, entries) == spliced(
            b,
            spans,
            entries,
            pos,
        ),
    decreases spans.len(),
{
    let rest = b.subrange(pos, b.len() as int);
    if spans.len() > 0 {
        let a = spans[0].0 as int;
        let e = spans[0].1 as int;
        lemma_boundary_shift(b, pos, a);
        lemma_boundary_shift(b, a, e);
        let tail = rest.subrange(a - pos, rest.len() as int);
        assert(tail =~= b.subrange(a, b.len() as int));
        assert(tail.subrange(0, e - a) =~= b.subrange(a, e));
        assert(rest.subrange(0, a - pos) =~= b.subrange(pos, a));
        assert(span_links(rest, pos, a, e, entries));
        assert(tail.subrange(e - a, tail.len() as int) =~= b.subrange(e, b.len() as int));
        lemma_linked_spliced(b, e, spans.drop_first(), entries);
    }
}

/// Linking replaces the spans left to right: where the spans are in order, do not overlap,
/// fall on character boundaries and each holds a known name, the result is the text before the
/// first span, the anchor for its name, the text up to the next span, and so on to the end.
pub proof fn lemma_linked_is_spliced(
    s: Seq<char>,
    spans: Seq<(usize, usize)>,
    entries: Seq<(Seq<char>, MatrixToItem)>,
)
    requires
        spans_fit(encode_utf8(s), spans, entries, 0),
    ensures
        linked(encode_utf8(s), 0, spans, entries) == spliced(encode_utf8(s), spans, entries, 0),
{
    let b = encode_utf8(s);
    is_char_boundary_start_end_of_seq(b);
    assert(b.subrange(0, b.len() as int) =~= b);
    lemma_linked_spliced(b, 0, spans, entries);
}

/// Where no span links, linking gives back the text unchanged.
pub proof fn lemma_nothing_linked_is_identity(
    s: Seq<char>,
    spans: Seq<(usize, usize)>,
    entries: Seq<(Seq<char>, MatrixToItem)>,
)
    requires
        forall|k: int|
            0 <= k < spans.len() ==> !span_links(
                encode_utf8(s),
                0,
                (#[trigger] spans[k]).0 as int,
                spans[k].1 as int,
                entries,
            ),
    ensures
        linked(encode_utf8(s), 0, spans, entries) == s,
    decreases spans.len(),
{
    if spans.len() > 0 {
        assert(!span_links(encode_utf8(s), 0, spans[0].0 as int, spans[0].1 as int, entries));
        assert forall|k: int| 0 <= k < spans.drop_first().len() implies !span_links(
            encode_utf8(s),
            0,
            (#[trigger] spans.drop_first()[k]).0 as int,
            spans.drop_first()[k].1 as int,
            entries,
        ) by {
            assert(spans.drop_first()[k] == spans[k + 1]);
        }
        lemma_nothing_linked_is_identity(s, spans.drop_first(), entries);
    }
}

} // verus!
