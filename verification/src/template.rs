//! Lines of an HTML template: what kind of line a text is, the parts of a
//! line with a template variable, and the line with the variable filled in.
//!
//! A tag stands between `{%` and `%}`, a template variable between `{{` and
//! `}}`. A line is taken for what it holds: for a tag if it holds both marks
//! of a tag and the words of a `for` or an `if`, for a template variable if
//! it holds both marks of a variable, and for literal text if it holds the
//! marks of neither.
//!
//! The parts of a line with a variable are cut at its first `{` and its first
//! `}`. Each mark is taken to be two bytes long in UTF-8, so the variable
//! begins two bytes behind the first `{`, and the tail two bytes behind the
//! first `}`. Where no character begins at such a place, or the variable
//! would end before it begins, the line has no parts (see
//! [`expression_data_defined`]).
use vstd::prelude::*;
use vstd::string::StringExecFns;
use crate::text::{byte_offset, characters, lemma_byte_offset, string_of, utf8_width, width};

verus! {

/// The parts of a line with a template variable: the text before the
/// variable, the name of the variable, and the text behind it.
#[derive(PartialEq, Debug)]
pub struct ExpressionData {
    pub head: Option<String>,
    pub variable: String,
    pub tail: Option<String>,
}

/// The mathematical value of an [`ExpressionData`].
pub struct ExpressionDataView {
    pub head: Option<Seq<char>>,
    pub variable: Seq<char>,
    pub tail: Option<Seq<char>>,
}

impl View for ExpressionData {
    type V = ExpressionDataView;

    open spec fn view(&self) -> ExpressionDataView {
        ExpressionDataView {
            head: match self.head {
                Some(text) => Some(text@),
                None => None,
            },
            variable: self.variable@,
            tail: match self.tail {
                Some(text) => Some(text@),
                None => None,
            },
        }
    }
}

/// The kinds of tag.
#[derive(PartialEq, Eq, Debug, Clone, Copy, Structural)]
pub enum TagType {
    /// A loop: `for .. in ..`, or its `endfor`.
    ForTag,
    /// A condition: `if ..`, or its `endif`.
    IfTag,
}

/// What a line of a template is.
#[derive(PartialEq, Debug)]
pub enum ContentType {
    /// Text that stands for itself.
    Literal(String),
    /// A line with a template variable, in its parts.
    TemplateVariable(ExpressionData),
    Tag(TagType),
    /// A line with the marks of a tag that is neither a `for` nor an `if`
    /// and holds no template variable.
    Unrecognised,
}

/// The mathematical value of a [`ContentType`].
pub enum ContentTypeView {
    Literal(Seq<char>),
    TemplateVariable(ExpressionDataView),
    Tag(TagType),
    Unrecognised,
}

impl View for ContentType {
    type V = ContentTypeView;

    open spec fn view(&self) -> ContentTypeView {
        match self {
            ContentType::Literal(text) => ContentTypeView::Literal(text@),
            ContentType::TemplateVariable(data) => ContentTypeView::TemplateVariable(data@),
            ContentType::Tag(tag) => ContentTypeView::Tag(*tag),
            ContentType::Unrecognised => ContentTypeView::Unrecognised,
        }
    }
}

/// `pattern` stands in `text` at the index `at`.
pub open spec fn found_at(text: Seq<char>, pattern: Seq<char>, at: int) -> bool {
    &&& 0 <= at
    &&& at + pattern.len() <= text.len()
    &&& text.subrange(at, at + pattern.len()) == pattern
}

/// `pattern` stands somewhere in `text`.
pub open spec fn occurs(text: Seq<char>, pattern: Seq<char>) -> bool {
    exists|at: int| found_at(text, pattern, at)
}

/// The index of the first `symbol` in `s`; the length of `s` if it holds
/// none.
pub open spec fn first_index(s: Seq<char>, symbol: char) -> int
    decreases s.len(),
{
    if s.len() == 0 {
        0
    } else if s[0] == symbol {
        0
    } else {
        1 + first_index(s.drop_first(), symbol)
    }
}

/// The index of the first `symbol` in `s`, and 0 if it holds none.
pub open spec fn symbol_index(s: Seq<char>, symbol: char) -> int {
    if s.contains(symbol) {
        first_index(s, symbol)
    } else {
        0
    }
}

/// `first_index` is the least index at which `symbol` stands.
pub proof fn lemma_first_index(s: Seq<char>, symbol: char)
    ensures
        0 <= first_index(s, symbol) <= s.len(),
        forall|i: int| 0 <= i < first_index(s, symbol) ==> s[i] != symbol,
        first_index(s, symbol) < s.len() ==> s[first_index(s, symbol)] == symbol,
        first_index(s, symbol) < s.len() <==> s.contains(symbol),
    decreases s.len(),
{
    if s.len() > 0 && s[0] != symbol {
        let rest = s.drop_first();
        lemma_first_index(rest, symbol);
        assert forall|i: int| 0 <= i < first_index(s, symbol) implies s[i] != symbol by {
            if i > 0 {
                assert(s[i] == rest[i - 1]);
            }
        }
        if rest.contains(symbol) {
            let at = choose|at: int| 0 <= at < rest.len() && rest[at] == symbol;
            assert(s[at + 1] == symbol);
        }
        if s.contains(symbol) {
            let at = choose|at: int| 0 <= at < s.len() && s[at] == symbol;
            assert(rest[at - 1] == symbol);
        }
    } else if s.len() > 0 {
        assert(s[0] == symbol);
    }
}

/// Whether `input` holds `symbol`.
pub fn check_symbol_string(input: &str, symbol: &str) -> (found: bool)
    ensures
        found == occurs(input@, symbol@),
{
    let text = characters(input);
    holds(&text, symbol)
}

/// Whether `input` holds both `symbol1` and `symbol2`, in any order.
pub fn check_matching_pairs(input: &str, symbol1: &str, symbol2: &str) -> (found: bool)
    ensures
        found == (occurs(input@, symbol1@) && occurs(input@, symbol2@)),
{
    let text = characters(input);
    holds(&text, symbol1) && holds(&text, symbol2)
}

/// Whether `input` holds `symbol`, and at which byte of its UTF-8 encoding
/// the first one stands; 0 where it holds none.
pub fn get_index_for_symbol(input: &str, symbol: char) -> (found: (bool, usize))
    ensures
        found.0 == input@.contains(symbol),
        found.1 == byte_offset(input@, symbol_index(input@, symbol)),
{
    let chars = characters(input);
    let bytes = input.as_bytes();
    let total = bytes.len();
    let at = find(&chars, symbol);
    let mut index: usize = 0;
    let mut passed: usize = 0;
    proof {
        lemma_byte_offset(chars@, 0);
    }
    if at == chars.len() {
        return (false, 0);
    }
    while passed < at
        invariant
            passed <= at < chars.len(),
            chars@ == input@,
            index == byte_offset(chars@, passed as int),
            total == vstd::utf8::encode_utf8(chars@).len(),
        decreases at - passed,
    {
        proof {
            lemma_byte_offset(chars@, passed as int);
            lemma_byte_offset(chars@, passed + 1);
        }
        index += width(chars[passed]);
        passed += 1;
    }
    (true, index)
}

/// The index of the character that begins two bytes behind the place where
/// the character at `at` begins, if one begins there or the text ends
/// there.
pub open spec fn two_bytes_on(s: Seq<char>, at: int) -> Option<int> {
    if 0 <= at < s.len() && utf8_width(s[at]) == 2 {
        Some(at + 1)
    } else if 0 <= at && at + 1 < s.len() && utf8_width(s[at]) == 1 && utf8_width(s[at + 1]) == 1 {
        Some(at + 2)
    } else {
        None
    }
}

/// Later characters begin at later bytes.
proof fn lemma_byte_offset_grows(s: Seq<char>, from: int, to: int)
    requires
        0 <= from <= to <= s.len(),
    ensures
        byte_offset(s, from) + (to - from) <= byte_offset(s, to),
    decreases to - from,
{
    if from < to {
        lemma_byte_offset_grows(s, from, to - 1);
        lemma_byte_offset(s, to - 1);
    }
}

/// [`two_bytes_on`] gives the character that begins two bytes behind the
/// beginning of the one at `at`, and gives none only where no character of
/// `s` begins there and `s` does not end there.
pub proof fn lemma_two_bytes_on(s: Seq<char>, at: int)
    requires
        0 <= at <= s.len(),
    ensures
        two_bytes_on(s, at) matches Some(on) ==> at < on <= s.len() && byte_offset(s, on)
            == byte_offset(s, at) + 2,
        two_bytes_on(s, at) is None ==> forall|on: int|
            0 <= on <= s.len() ==> #[trigger] byte_offset(s, on) != byte_offset(s, at) + 2,
{
    lemma_byte_offset(s, at);
    if at < s.len() {
        lemma_byte_offset(s, at + 1);
    }
    if at + 1 < s.len() {
        lemma_byte_offset(s, at + 2);
    }
    if two_bytes_on(s, at) is None {
        assert forall|on: int| 0 <= on <= s.len() implies #[trigger] byte_offset(s, on)
            != byte_offset(s, at) + 2 by {
            if on <= at {
                lemma_byte_offset_grows(s, on, at);
            } else if on == at + 1 {
            } else {
                lemma_byte_offset_grows(s, at + 2, on);
            }
        }
    }
}

/// Whether the line `s` has parts: a character begins, or the text ends, two
/// bytes behind its first `{` (behind its beginning, if it holds no `{`) and
/// two bytes behind its first `}`, and the first `}` does not stand before
/// the former place.
pub open spec fn expression_data_defined(s: Seq<char>) -> bool {
    &&& two_bytes_on(s, symbol_index(s, '{')) matches Some(from) && from <= symbol_index(s, '}')
    &&& two_bytes_on(s, symbol_index(s, '}')) is Some
}

/// The parts of the line `s`: what stands before its first `{`, what stands
/// between the place two bytes behind that `{` and its first `}`, and what
/// stands from two bytes behind that `}` on.
pub open spec fn expression_data(s: Seq<char>) -> ExpressionDataView {
    ExpressionDataView {
        head: Some(s.subrange(0, symbol_index(s, '{'))),
        variable: s.subrange(two_bytes_on(s, symbol_index(s, '{'))->0, symbol_index(s, '}')),
        tail: Some(s.subrange(two_bytes_on(s, symbol_index(s, '}'))->0, s.len() as int)),
    }
}

/// A line made of a head, `{{`, a name, `}}` and a tail has these three as
/// its parts, if neither the head nor the name holds a `}` and the head
/// holds no `{`.
pub proof fn lemma_parts_of_variable_line(head: Seq<char>, name: Seq<char>, tail: Seq<char>)
    requires
        !head.contains('{'),
        !head.contains('}'),
        !name.contains('}'),
    ensures
        expression_data_defined(head + seq!['{', '{'] + name + seq!['}', '}'] + tail),
        expression_data(head + seq!['{', '{'] + name + seq!['}', '}'] + tail)
            == (ExpressionDataView { head: Some(head), variable: name, tail: Some(tail) }),
{
    let s = head + seq!['{', '{'] + name + seq!['}', '}'] + tail;
    let open = head.len() as int;
    let close = open + 2 + name.len();
    assert(s[open] == '{' && s[open + 1] == '{');
    assert(s[close] == '}' && s[close + 1] == '}');
    lemma_first_index(s, '{');
    lemma_first_index(s, '}');
    assert(first_index(s, '{') == open) by {
        if first_index(s, '{') < open {
            assert(head[first_index(s, '{')] == '{');
        }
    }
    assert(first_index(s, '}') == close) by {
        let found = first_index(s, '}');
        if found < open {
            assert(head[found] == '}');
        } else if open + 2 <= found < close {
            assert(name[found - open - 2] == '}');
        }
    }
    assert(s.subrange(0, open) =~= head);
    assert(s.subrange(open + 2, close) =~= name);
    assert(s.subrange(close + 2, s.len() as int) =~= tail);
}

/// The line holds both marks of a tag.
pub open spec fn is_tag_expression(s: Seq<char>) -> bool {
    occurs(s, "{%"@) && occurs(s, "%}"@)
}

/// The line holds the words of a loop: `for` and `in`, or `endfor`.
pub open spec fn is_for_tag(s: Seq<char>) -> bool {
    (occurs(s, "for"@) && occurs(s, "in"@)) || occurs(s, "endfor"@)
}

/// The line holds the word of a condition: `if`, or `endif`.
pub open spec fn is_if_tag(s: Seq<char>) -> bool {
    occurs(s, "if"@) || occurs(s, "endif"@)
}

/// The line holds both marks of a template variable.
pub open spec fn is_template_variable(s: Seq<char>) -> bool {
    occurs(s, "{{"@) && occurs(s, "}}"@)
}

/// Whether the line `s` is taken for a line with a template variable: it
/// holds the marks of one and is no `for` tag and no `if` tag.
pub open spec fn read_as_variable(s: Seq<char>) -> bool {
    &&& is_template_variable(s)
    &&& !(is_tag_expression(s) && is_for_tag(s))
    &&& !(is_tag_expression(s) && is_if_tag(s))
}

/// Whether the line `s` can be classified: if it is taken for a line with a
/// template variable, it has parts.
pub open spec fn classifiable(s: Seq<char>) -> bool {
    read_as_variable(s) ==> expression_data_defined(s)
}

/// What the line `s` is. A `for` tag goes before an `if` tag, a tag before a
/// template variable, and a template variable before literal text.
pub open spec fn classify(s: Seq<char>) -> ContentTypeView {
    if is_tag_expression(s) && is_for_tag(s) {
        ContentTypeView::Tag(TagType::ForTag)
    } else if is_tag_expression(s) && is_if_tag(s) {
        ContentTypeView::Tag(TagType::IfTag)
    } else if is_template_variable(s) {
        ContentTypeView::TemplateVariable(expression_data(s))
    } else if !is_tag_expression(s) {
        ContentTypeView::Literal(s)
    } else {
        ContentTypeView::Unrecognised
    }
}

/// What the line `input_line` is: [`classify`].
pub fn get_content_type(input_line: &str) -> (content: ContentType)
    requires
        classifiable(input_line@),
    ensures
        content@ == classify(input_line@),
{
    let text = characters(input_line);
    let is_tag_expression = holds(&text, "{%") && holds(&text, "%}");
    let is_for_tag = (holds(&text, "for") && holds(&text, "in")) || holds(&text, "endfor");
    let is_if_tag = holds(&text, "if") || holds(&text, "endif");
    let is_template_variable = holds(&text, "{{") && holds(&text, "}}");
    if is_tag_expression && is_for_tag {
        ContentType::Tag(TagType::ForTag)
    } else if is_tag_expression && is_if_tag {
        ContentType::Tag(TagType::IfTag)
    } else if is_template_variable {
        ContentType::TemplateVariable(parts(&text))
    } else if !is_tag_expression && !is_template_variable {
        ContentType::Literal(input_line.to_string())
    } else {
        ContentType::Unrecognised
    }
}

/// Whether the line `input_line` can be classified, that is, may be handed
/// to [`get_content_type`].
pub fn can_classify(input_line: &str) -> (ok: bool)
    ensures
        ok == classifiable(input_line@),
{
    let text = characters(input_line);
    let is_tag_expression = holds(&text, "{%") && holds(&text, "%}");
    let is_for_tag = (holds(&text, "for") && holds(&text, "in")) || holds(&text, "endfor");
    let is_if_tag = holds(&text, "if") || holds(&text, "endif");
    let is_template_variable = holds(&text, "{{") && holds(&text, "}}");
    let is_tag = is_tag_expression && (is_for_tag || is_if_tag);
    is_tag || !is_template_variable || cuts(&text).is_some()
}

/// The parts of the line `input_line`: [`expression_data`].
pub fn get_expression_data(input_line: &str) -> (data: ExpressionData)
    requires
        expression_data_defined(input_line@),
    ensures
        data@ == expression_data(input_line@),
{
    let text = characters(input_line);
    parts(&text)
}

/// Whether the line `input_line` has parts, that is, may be handed to
/// [`get_expression_data`].
pub fn has_expression_data(input_line: &str) -> (ok: bool)
    ensures
        ok == expression_data_defined(input_line@),
{
    let text = characters(input_line);
    cuts(&text).is_some()
}

/// The values of the template variables, each under its name.
#[derive(Debug, Clone)]
pub struct Context {
    entries: Vec<(String, String)>,
}

/// The map that a list of names and values stands for. Of two entries with
/// one name the later one counts.
pub open spec fn bindings(entries: Seq<(String, String)>) -> Map<Seq<char>, Seq<char>>
    decreases entries.len(),
{
    if entries.len() == 0 {
        Map::empty()
    } else {
        bindings(entries.drop_last()).insert(entries.last().0@, entries.last().1@)
    }
}

/// Entries under other names do not count for `name`.
proof fn lemma_bindings_skip(entries: Seq<(String, String)>, from: int, name: Seq<char>)
    requires
        0 <= from <= entries.len(),
        forall|i: int| from <= i < entries.len() ==> entries[i].0@ != name,
    ensures
        bindings(entries).contains_key(name) == bindings(entries.subrange(0, from)).contains_key(
            name,
        ),
        bindings(entries)[name] == bindings(entries.subrange(0, from))[name],
    decreases entries.len() - from,
{
    if from < entries.len() {
        let shorter = entries.drop_last();
        assert(shorter.subrange(0, from) =~= entries.subrange(0, from));
        lemma_bindings_skip(shorter, from, name);
    } else {
        assert(entries.subrange(0, from) =~= entries);
    }
}

impl Context {
    /// The value of each name that has one.
    pub closed spec fn view(&self) -> Map<Seq<char>, Seq<char>> {
        bindings(self.entries@)
    }

    /// A context in which no name has a value.
    pub fn new() -> (context: Context)
        ensures
            context@ == Map::<Seq<char>, Seq<char>>::empty(),
    {
        Context { entries: Vec::new() }
    }

    /// Gives `name` the value `value`, in place of the one it had.
    pub fn insert(&mut self, name: String, value: String)
        ensures
            final(self)@ == old(self)@.insert(name@, value@),
    {
        self.entries.push((name, value));
        assert(self.entries@.drop_last() =~= old(self).entries@);
    }

    /// The value of `name`, if it has one.
    pub fn get(&self, name: &String) -> (value: Option<&String>)
        ensures
            match value {
                Some(text) => self@.contains_key(name@) && self@[name@] == text@,
                None => !self@.contains_key(name@),
            },
    {
        let mut at: usize = self.entries.len();
        while at > 0
            invariant
                at <= self.entries.len(),
                forall|i: int| at <= i < self.entries.len() ==> self.entries@[i].0@ != name@,
            decreases at,
        {
            at -= 1;
            if self.entries[at].0 == *name {
                proof {
                    lemma_bindings_skip(self.entries@, at + 1, name@);
                    assert(self.entries@.subrange(0, at + 1).drop_last()
                        =~= self.entries@.subrange(0, at as int));
                }
                return Some(&self.entries[at].1);
            }
        }
        proof {
            lemma_bindings_skip(self.entries@, 0, name@);
            assert(self.entries@.subrange(0, 0) =~= Seq::<(String, String)>::empty());
        }
        None
    }
}

/// The line with the parts `content` in which the variable is replaced by
/// its value in `context`: the head, if there is one, then the value, if the
/// variable has one, then the tail, if there is one.
pub open spec fn filled_in(content: ExpressionDataView, context: Map<Seq<char>, Seq<char>>) -> Seq<
    char,
> {
    let head = match content.head {
        Some(text) => text,
        None => Seq::empty(),
    };
    let value = if context.contains_key(content.variable) {
        context[content.variable]
    } else {
        Seq::empty()
    };
    let tail = match content.tail {
        Some(text) => text,
        None => Seq::empty(),
    };
    head + value + tail
}

/// The line with the parts `content`, with the variable replaced by its
/// value in `context`: [`filled_in`].
pub fn generate_html_template_var(content: ExpressionData, context: Context) -> (html: String)
    ensures
        html@ == filled_in(content@, context@),
{
    let mut html = String::new();
    if let Some(h) = &content.head {
        html.append(h.as_str());
    }
    if let Some(val) = context.get(&content.variable) {
        html.append(val.as_str());
    }
    if let Some(t) = &content.tail {
        html.append(t.as_str());
    }
    html
}

/// The places at which a line is cut into its parts.
struct Cuts {
    /// Where the head ends.
    open: usize,
    /// Where the variable begins.
    from: usize,
    /// Where the variable ends.
    close: usize,
    /// Where the tail begins.
    rest: usize,
}

/// The places at which the line `text` is cut, if it has parts.
fn cuts(text: &Vec<char>) -> (found: Option<Cuts>)
    ensures
        found is Some == expression_data_defined(text@),
        found matches Some(c) ==> {
            &&& c.open == symbol_index(text@, '{')
            &&& Some(c.from as int) == two_bytes_on(text@, symbol_index(text@, '{'))
            &&& c.close == symbol_index(text@, '}')
            &&& Some(c.rest as int) == two_bytes_on(text@, symbol_index(text@, '}'))
            &&& c.open <= c.from <= c.close <= c.rest <= text.len()
        },
{
    let open = index_of(text, '{');
    let close = index_of(text, '}');
    let from = match skip_two_bytes(text, open) {
        Some(from) => from,
        None => return None,
    };
    if from > close {
        return None;
    }
    match skip_two_bytes(text, close) {
        Some(rest) => Some(Cuts { open, from, close, rest }),
        None => None,
    }
}

/// The parts of the line `text`.
fn parts(text: &Vec<char>) -> (data: ExpressionData)
    requires
        expression_data_defined(text@),
    ensures
        data@ == expression_data(text@),
{
    match cuts(text) {
        Some(c) => ExpressionData {
            head: Some(string_of(text, 0, c.open)),
            variable: string_of(text, c.from, c.close),
            tail: Some(string_of(text, c.rest, text.len())),
        },
        None => vstd::pervasive::unreached(),
    }
}

/// The index of the first `symbol` in `chars`, and 0 if it holds none:
/// [`symbol_index`].
fn index_of(chars: &Vec<char>, symbol: char) -> (at: usize)
    ensures
        at == symbol_index(chars@, symbol),
        at <= chars.len(),
{
    let at = find(chars, symbol);
    if at == chars.len() {
        0
    } else {
        at
    }
}

/// Decides [`two_bytes_on`].
fn skip_two_bytes(chars: &Vec<char>, at: usize) -> (on: Option<usize>)
    requires
        at <= chars.len(),
    ensures
        match on {
            Some(index) => two_bytes_on(chars@, at as int) == Some(index as int) && at < index
                <= chars.len(),
            None => two_bytes_on(chars@, at as int) is None,
        },
{
    if at < chars.len() && width(chars[at]) == 2 {
        Some(at + 1)
    } else if at < chars.len() && at + 1 < chars.len() && width(chars[at]) == 1 && width(
        chars[at + 1],
    ) == 1 {
        Some(at + 2)
    } else {
        None
    }
}

/// The index of the first `symbol` in `chars`: [`first_index`].
fn find(chars: &Vec<char>, symbol: char) -> (at: usize)
    ensures
        at == first_index(chars@, symbol),
        at <= chars.len(),
        (at < chars.len()) == chars@.contains(symbol),
{
    let mut at: usize = 0;
    proof {
        lemma_first_index(chars@, symbol);
    }
    while at < chars.len() && chars[at] != symbol
        invariant
            at <= chars.len(),
            at <= first_index(chars@, symbol),
            first_index(chars@, symbol) < chars.len() ==> chars@[first_index(chars@, symbol)]
                == symbol,
            first_index(chars@, symbol) <= chars.len(),
            forall|i: int| 0 <= i < first_index(chars@, symbol) ==> chars@[i] != symbol,
            (first_index(chars@, symbol) < chars.len()) == chars@.contains(symbol),
        decreases chars.len() - at,
    {
        at += 1;
    }
    at
}

/// Whether `text` holds `symbol`: [`occurs`].
fn holds(text: &Vec<char>, symbol: &str) -> (found: bool)
    ensures
        found == occurs(text@, symbol@),
{
    let pattern = characters(symbol);
    if pattern.len() > text.len() {
        assert(forall|at: int| !found_at(text@, pattern@, at));
        return false;
    }
    let last = text.len() - pattern.len();
    let mut at: usize = 0;
    while at <= last
        invariant
            pattern@ == symbol@,
            last == text.len() - pattern.len(),
            at <= last + 1,
            forall|before: int| 0 <= before < at ==> !found_at(text@, pattern@, before),
        decreases last + 1 - at,
    {
        let mut same: usize = 0;
        while same < pattern.len() && text[at + same] == pattern[same]
            invariant
                at <= last,
                last == text.len() - pattern.len(),
                same <= pattern.len(),
                forall|i: int| 0 <= i < same ==> text@[at + i] == pattern@[i],
            decreases pattern.len() - same,
        {
            same += 1;
        }
        if same == pattern.len() {
            assert(text@.subrange(at as int, at + pattern.len()) =~= pattern@);
            assert(found_at(text@, pattern@, at as int));
            return true;
        }
        assert(!found_at(text@, pattern@, at as int)) by {
            if found_at(text@, pattern@, at as int) {
                assert(text@.subrange(at as int, at + pattern.len())[same as int]
                    == pattern@[same as int]);
            }
        }
        at += 1;
    }
    assert(forall|at: int| !found_at(text@, pattern@, at));
    false
}

} // verus!
