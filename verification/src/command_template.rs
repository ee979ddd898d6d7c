//! Suggestion-command templates with `<#name>` and `<#name:raw>` references.
//!
//! A suggestion command may refer to values that were confirmed for earlier
//! variables. `<#bucket>` stands for the shell-quoted value of `bucket`,
//! `<#bucket:raw>` for the value as it is. `\<#...>` is literal text.

use vstd::prelude::*;
use crate::text;
use crate::text_map::{TextMap, TextSet};

verus! {

broadcast use vstd::string::group_string_axioms;

/// One piece of a parsed suggestion-command template.
#[derive(Debug, PartialEq, Eq)]
pub enum Fragment {
    /// Verbatim text, without the backslash of an escaped `\<#`.
    Literal(String),
    /// Reference to the confirmed value of another variable.
    Ref {
        /// Name of the variable referred to.
        name: String,
        /// Whether the value is spliced as it is, without quotes.
        raw: bool,
    },
}

/// What a [`Fragment`] holds.
pub enum FragmentView {
    Literal(Seq<char>),
    Ref { name: Seq<char>, raw: bool },
}

impl View for Fragment {
    type V = FragmentView;

    open spec fn view(&self) -> FragmentView {
        match self {
            Fragment::Literal(text) => FragmentView::Literal(text@),
            Fragment::Ref { name, raw } => FragmentView::Ref { name: name@, raw: *raw },
        }
    }
}

/// A parsed template: literal runs and references in order.
pub type CommandTemplate = Vec<Fragment>;

/// What the fragments of a template hold.
pub open spec fn fragments(template: Seq<Fragment>) -> Seq<FragmentView> {
    template.map_values(|f: Fragment| f@)
}

proof fn lemma_fragments_push(template: Seq<Fragment>, f: Fragment)
    ensures
        fragments(template.push(f)) == fragments(template).push(f@),
{
    assert(fragments(template.push(f)) =~= fragments(template).push(f@));
}

/// A copy of a template.
pub fn copy_template(template: &CommandTemplate) -> (out: CommandTemplate)
    ensures
        fragments(out@) == fragments(template@),
{
    let mut out: CommandTemplate = Vec::new();
    let mut i: usize = 0;
    assert(fragments(out@) =~= fragments(template@).take(0));
    while i < template.len()
        invariant
            i <= template@.len(),
            fragments(out@) == fragments(template@).take(i as int),
        decreases template@.len() - i,
    {
        let fragment = match &template[i] {
            Fragment::Literal(text) => Fragment::Literal(text.clone()),
            Fragment::Ref { name, raw } => Fragment::Ref { name: name.clone(), raw: *raw },
        };
        proof {
            lemma_fragments_push(out@, fragment);
            assert(fragments(template@).take(i as int).push(fragment@) =~= fragments(
                template@,
            ).take(i + 1));
        }
        out.push(fragment);
        i = i + 1;
    }
    assert(fragments(template@).take(template@.len() as int) =~= fragments(template@));
    out
}

/// Whether two templates hold the same.
pub fn same_template(a: &CommandTemplate, b: &CommandTemplate) -> (same: bool)
    ensures
        same == (fragments(a@) == fragments(b@)),
{
    let ghost x = fragments(a@);
    let ghost y = fragments(b@);
    assert(x.len() == a@.len() && y.len() == b@.len());
    if a.len() != b.len() {
        return false;
    }
    let mut i: usize = 0;
    while i < a.len()
        invariant
            i <= a@.len(),
            a@.len() == b@.len(),
            x == fragments(a@),
            y == fragments(b@),
            forall|k: int| 0 <= k < i ==> x[k] == y[k],
        decreases a@.len() - i,
    {
        assert(x[i as int] == a@[i as int]@);
        assert(y[i as int] == b@[i as int]@);
        let same = match (&a[i], &b[i]) {
            (Fragment::Literal(s), Fragment::Literal(t)) => text::same_text(
                s.as_str(),
                t.as_str(),
            ),
            (Fragment::Ref { name: n, raw: r }, Fragment::Ref { name: m, raw: q }) => *r == *q
                && text::same_text(n.as_str(), m.as_str()),
            _ => false,
        };
        if !same {
            return false;
        }
        i = i + 1;
    }
    assert(x =~= y);
    true
}

/// Failure to parse the `<#...>` syntax of a command.
#[derive(Debug, PartialEq, Eq)]
pub enum ParseError {
    /// `<#` was opened but never closed by `>`.
    UnterminatedRef,
    /// `<#...>` had an empty or otherwise invalid name.
    InvalidName(String),
    /// `<#name:foo>` used a modifier other than `raw`.
    UnknownModifier(String),
}

/// What a [`ParseError`] holds.
pub enum ParseErrorView {
    UnterminatedRef,
    InvalidName(Seq<char>),
    UnknownModifier(Seq<char>),
}

impl View for ParseError {
    type V = ParseErrorView;

    open spec fn view(&self) -> ParseErrorView {
        match self {
            ParseError::UnterminatedRef => ParseErrorView::UnterminatedRef,
            ParseError::InvalidName(name) => ParseErrorView::InvalidName(name@),
            ParseError::UnknownModifier(modifier) => ParseErrorView::UnknownModifier(modifier@),
        }
    }
}

impl ParseError {
    /// The message shown for a parse error.
    pub open spec fn message_of(error: ParseErrorView) -> Seq<char> {
        match error {
            ParseErrorView::UnterminatedRef => "unterminated <# reference"@,
            ParseErrorView::InvalidName(name) => "invalid <# reference name '"@ + name + "'"@,
            ParseErrorView::UnknownModifier(modifier) => "unknown <# reference modifier ':"@
                + modifier + "'"@,
        }
    }

    /// The message shown for this error.
    pub fn message(&self) -> (out: String)
        ensures
            out@ == ParseError::message_of(self@),
    {
        match self {
            ParseError::UnterminatedRef => "unterminated <# reference".to_owned(),
            ParseError::InvalidName(name) => {
                let mut out = "invalid <# reference name '".to_owned();
                out.append(name.as_str());
                out.append("'");
                out
            },
            ParseError::UnknownModifier(modifier) => {
                let mut out = "unknown <# reference modifier ':".to_owned();
                out.append(modifier.as_str());
                out.append("'");
                out
            },
        }
    }
}

/// Failure to render a template into a command.
#[derive(Debug, PartialEq, Eq)]
pub enum RenderError {
    /// A reference had no confirmed value.
    MissingConfirmed(String),
}

impl RenderError {
    /// The name of the variable without a confirmed value.
    pub open spec fn missing(&self) -> Seq<char> {
        match self {
            RenderError::MissingConfirmed(name) => name@,
        }
    }

    /// The message shown for this error.
    pub fn message(&self) -> (out: String)
        ensures
            out@ == "dependent variable '"@ + self.missing() + "' has not been confirmed"@,
    {
        match self {
            RenderError::MissingConfirmed(name) => {
                let mut out = "dependent variable '".to_owned();
                out.append(name.as_str());
                out.append("' has not been confirmed");
                out
            },
        }
    }
}

/// The characters of which a variable name is made.
pub open spec fn is_name_char_of(c: char) -> bool {
    ||| 'a' <= c <= 'z'
    ||| 'A' <= c <= 'Z'
    ||| '0' <= c <= '9'
    ||| c == '_'
    ||| c == '-'
}

/// Whether `c` may stand in a variable name.
pub fn is_name_char(c: char) -> (yes: bool)
    ensures
        yes == is_name_char_of(c),
{
    ('a' <= c && c <= 'z') || ('A' <= c && c <= 'Z') || ('0' <= c && c <= '9') || c == '_' || c
        == '-'
}

/// Whether `name` is a variable name: not empty, and made of name characters.
pub open spec fn is_variable_name(name: Seq<char>) -> bool {
    name.len() > 0 && forall|i: int| 0 <= i < name.len() ==> is_name_char_of(#[trigger] name[i])
}

/// Whether `chars` is a variable name.
pub fn variable_name(chars: &Vec<char>) -> (yes: bool)
    ensures
        yes == is_variable_name(chars@),
{
    if chars.len() == 0 {
        return false;
    }
    let mut i: usize = 0;
    while i < chars.len()
        invariant
            i <= chars@.len(),
            forall|j: int| 0 <= j < i ==> is_name_char_of(#[trigger] chars@[j]),
        decreases chars@.len() - i,
    {
        if !is_name_char(chars[i]) {
            return false;
        }
        i = i + 1;
    }
    true
}

/// What stands between `<#` and `>`: a name, or a name and `:raw`. The
/// modifier is judged before the name.
pub open spec fn parse_ref_inner_of(inner: Seq<char>) -> Result<(Seq<char>, bool), ParseErrorView> {
    let colon = text::find_from(inner, seq![':'], 0);
    let modifier = inner.skip(colon->0 + 1);
    if colon is Some && modifier != seq!['r', 'a', 'w'] {
        Err(ParseErrorView::UnknownModifier(modifier))
    } else {
        let name = text::trim_of(
            if colon is Some {
                inner.take(colon->0)
            } else {
                inner
            },
        );
        if is_variable_name(name) {
            Ok((name, colon is Some))
        } else {
            Err(ParseErrorView::InvalidName(name))
        }
    }
}

/// Parses what stands between `<#` and `>`.
fn parse_ref_inner(inner: &Vec<char>) -> (parsed: Result<(String, bool), ParseError>)
    ensures
        match parsed {
            Ok(r) => parse_ref_inner_of(inner@) == Ok::<(Seq<char>, bool), ParseErrorView>(
                (r.0@, r.1),
            ),
            Err(e) => parse_ref_inner_of(inner@) == Err::<(Seq<char>, bool), ParseErrorView>(e@),
        },
{
    let n: usize = inner.len();
    let colon_chars: Vec<char> = vec![':'];
    assert(colon_chars@ =~= seq![':']);
    let colon = text::find_chars(inner, &colon_chars, 0);
    proof {
        text::lemma_find_from(inner@, seq![':'], 0);
    }
    match colon {
        Some(at) => {
            let modifier = text::sub_chars(inner, at + 1, n);
            assert(modifier@ =~= inner@.skip(at + 1));
            let raw_chars: Vec<char> = vec!['r', 'a', 'w'];
            assert(raw_chars@ =~= seq!['r', 'a', 'w']);
            if !text::same_chars(&modifier, &raw_chars) {
                return Err(ParseError::UnknownModifier(text::string_of(&modifier)));
            }
            let head = text::sub_chars(inner, 0, at);
            assert(head@ =~= inner@.take(at as int));
            let name = text::trim_chars(&head);
            if variable_name(&name) {
                Ok((text::string_of(&name), true))
            } else {
                Err(ParseError::InvalidName(text::string_of(&name)))
            }
        },
        None => {
            let name = text::trim_chars(inner);
            if variable_name(&name) {
                Ok((text::string_of(&name), false))
            } else {
                Err(ParseError::InvalidName(text::string_of(&name)))
            }
        },
    }
}

/// The literal fragment of a text, where there is any text.
pub open spec fn literal_of(literal: Seq<char>) -> Seq<FragmentView> {
    if literal.len() == 0 {
        Seq::empty()
    } else {
        seq![FragmentView::Literal(literal)]
    }
}

/// Fragments in front of what was parsed behind them.
pub open spec fn in_front(
    before: Seq<FragmentView>,
    rest: Result<Seq<FragmentView>, ParseErrorView>,
) -> Result<Seq<FragmentView>, ParseErrorView> {
    match rest {
        Ok(fs) => Ok(before + fs),
        Err(e) => Err(e),
    }
}

/// The fragments of the source `s`, where `literal` is the text read since the
/// last reference.
///
/// An escaped opener makes the text up to its `>` literal; without a `>` only
/// its backslash is. An opener takes the text up to its `>` as a reference.
pub open spec fn parse_from(s: Seq<char>, literal: Seq<char>) -> Result<
    Seq<FragmentView>,
    ParseErrorView,
>
    decreases s.len(),
{
    if s.len() == 0 {
        Ok(literal_of(literal))
    } else if text::stands_at(s, seq!['\\', '<', '#'], 0) {
        match text::find_from(s, seq!['>'], 1) {
            Some(end) if 1 <= end < s.len() => parse_from(
                s.skip(end + 1),
                literal + s.subrange(1, end + 1),
            ),
            _ => parse_from(s.skip(1), literal.push('\\')),
        }
    } else if text::stands_at(s, seq!['<', '#'], 0) {
        match text::find_from(s, seq!['>'], 2) {
            Some(end) if 2 <= end < s.len() => match parse_ref_inner_of(s.subrange(2, end)) {
                Ok(r) => in_front(
                    literal_of(literal).push(FragmentView::Ref { name: r.0, raw: r.1 }),
                    parse_from(s.skip(end + 1), Seq::empty()),
                ),
                Err(e) => Err(e),
            },
            _ => Err(ParseErrorView::UnterminatedRef),
        }
    } else {
        parse_from(s.skip(1), literal.push(s[0]))
    }
}

/// The fragments of a source.
pub open spec fn parse_of(s: Seq<char>) -> Result<Seq<FragmentView>, ParseErrorView> {
    parse_from(s, Seq::empty())
}

/// Splits `src` into literal text and references. Malformed references give
/// an error.
pub fn parse_command_template(src: &str) -> (parsed: Result<CommandTemplate, ParseError>)
    ensures
        match parsed {
            Ok(template) => parse_of(src@) == Ok::<Seq<FragmentView>, ParseErrorView>(
                fragments(template@),
            ),
            Err(e) => parse_of(src@) == Err::<Seq<FragmentView>, ParseErrorView>(e@),
        },
{
    let chars = text::chars_of(src);
    let escaped: Vec<char> = vec!['\\', '<', '#'];
    let opener: Vec<char> = vec!['<', '#'];
    let close: Vec<char> = vec!['>'];
    assert(escaped@ =~= seq!['\\', '<', '#']);
    assert(opener@ =~= seq!['<', '#']);
    assert(close@ =~= seq!['>']);
    let mut out: CommandTemplate = Vec::new();
    let mut literal: Vec<char> = Vec::new();
    let mut i: usize = 0;
    assert(chars@.skip(0) =~= chars@);
    assert(literal@ =~= Seq::<char>::empty());
    proof {
        match parse_from(chars@, literal@) {
            Ok(fs) => {
                assert(fragments(out@) + fs =~= fs);
            },
            Err(_) => {},
        }
    }
    while i < chars.len()
        invariant
            i <= chars@.len(),
            chars@ == src@,
            escaped@ == seq!['\\', '<', '#'],
            opener@ == seq!['<', '#'],
            close@ == seq!['>'],
            in_front(fragments(out@), parse_from(chars@.skip(i as int), literal@)) == parse_of(
                src@,
            ),
        decreases chars@.len() - i,
    {
        let ghost s = chars@.skip(i as int);
        proof {
            text::lemma_stands_shift(chars@, escaped@, i as int, 0);
            text::lemma_stands_shift(chars@, opener@, i as int, 0);
        }
        if text::is_at(&chars, &escaped, i) {
            let found = text::find_chars(&chars, &close, i + 1);
            proof {
                text::lemma_find_shift(chars@, close@, i as int, 1);
                text::lemma_find_from(chars@, close@, i + 1);
            }
            match found {
                Some(end) => {
                    let mut body = text::sub_chars(&chars, i + 1, end + 1);
                    assert(s.subrange(1, end - i + 1) =~= body@);
                    assert(s.skip(end - i + 1) =~= chars@.skip(end + 1));
                    literal.append(&mut body);
                    i = end + 1;
                },
                None => {
                    assert(s.skip(1) =~= chars@.skip(i + 1));
                    literal.push('\\');
                    i = i + 1;
                },
            }
        } else if text::is_at(&chars, &opener, i) {
            let found = text::find_chars(&chars, &close, i + 2);
            proof {
                text::lemma_find_shift(chars@, close@, i as int, 2);
                text::lemma_find_from(chars@, close@, i + 2);
            }
            match found {
                None => {
                    return Err(ParseError::UnterminatedRef);
                },
                Some(end) => {
                    let inner = text::sub_chars(&chars, i + 2, end);
                    assert(s.subrange(2, end - i) =~= inner@);
                    assert(s.skip(end - i + 1) =~= chars@.skip(end + 1));
                    match parse_ref_inner(&inner) {
                        Err(e) => {
                            return Err(e);
                        },
                        Ok(r) => {
                            let ghost before = fragments(out@);
                            let ghost lit = literal@;
                            if literal.len() > 0 {
                                let fragment = Fragment::Literal(text::string_of(&literal));
                                proof {
                                    lemma_fragments_push(out@, fragment);
                                }
                                out.push(fragment);
                                literal = Vec::new();
                            }
                            assert(literal@ =~= Seq::<char>::empty());
                            assert(fragments(out@) =~= before + literal_of(lit));
                            let fragment = Fragment::Ref { name: r.0, raw: r.1 };
                            proof {
                                lemma_fragments_push(out@, fragment);
                                match parse_from(chars@.skip(end + 1), literal@) {
                                    Ok(fs) => {
                                        assert((before + literal_of(lit)).push(fragment@) + fs
                                            =~= before + (literal_of(lit).push(fragment@) + fs));
                                    },
                                    Err(_) => {},
                                }
                            }
                            out.push(fragment);
                            i = end + 1;
                        },
                    }
                },
            }
        } else {
            assert(s.skip(1) =~= chars@.skip(i + 1));
            literal.push(chars[i]);
            i = i + 1;
        }
    }
    if literal.len() > 0 {
        let fragment = Fragment::Literal(text::string_of(&literal));
        proof {
            lemma_fragments_push(out@, fragment);
            assert(fragments(out@).push(fragment@) =~= fragments(out@) + literal_of(literal@));
        }
        out.push(fragment);
    } else {
        assert(fragments(out@) + literal_of(literal@) =~= fragments(out@));
    }
    Ok(out)
}

/// The names that fragments refer to.
pub open spec fn names_of(fs: Seq<FragmentView>) -> Set<Seq<char>> {
    Set::new(
        |name: Seq<char>|
            exists|i: int|
                0 <= i < fs.len() && (#[trigger] fs[i] matches FragmentView::Ref { name: n, raw: _ }
                    && n == name),
    )
}

/// The names of the variables that `template` refers to.
pub fn referenced_names(template: &CommandTemplate) -> (names: TextSet)
    ensures
        names@ == names_of(fragments(template@)),
{
    let mut out = TextSet::new();
    let mut i: usize = 0;
    let ghost fs = fragments(template@);
    assert(out@ =~= names_of(fs.take(0)));
    while i < template.len()
        invariant
            i <= template@.len(),
            fs == fragments(template@),
            out@ == names_of(fs.take(i as int)),
        decreases template@.len() - i,
    {
        let ghost before = fs.take(i as int);
        let ghost after = fs.take(i + 1);
        assert(after =~= before.push(fs[i as int]));
        proof {
            assert forall|name: Seq<char>| #![auto]
                names_of(after).contains(name) == (names_of(before).contains(name) || (
                fs[i as int] matches FragmentView::Ref { name: n, raw: _ } && n == name)) by {
                if names_of(before).contains(name) {
                    let k = choose|k: int|
                        0 <= k < before.len() && (#[trigger] before[k] matches FragmentView::Ref {
                            name: n,
                            raw: _,
                        } && n == name);
                    assert(after[k] == before[k]);
                }
                if (fs[i as int] matches FragmentView::Ref { name: n, raw: _ } && n == name) {
                    assert(after[i as int] == fs[i as int]);
                }
                if names_of(after).contains(name) {
                    let k = choose|k: int|
                        0 <= k < after.len() && (#[trigger] after[k] matches FragmentView::Ref {
                            name: n,
                            raw: _,
                        } && n == name);
                    if k < i {
                        assert(before[k] == after[k]);
                    }
                }
            }
        }
        match &template[i] {
            Fragment::Ref { name, raw: _ } => {
                out.insert(name.clone());
            },
            Fragment::Literal(_) => {},
        }
        assert(out@ =~= names_of(after));
        i = i + 1;
    }
    assert(fs.take(fs.len() as int) =~= fs);
    out
}

/// Whether `template` refers to any variable.
pub fn is_dependent(template: &CommandTemplate) -> (yes: bool)
    ensures
        yes == exists|i: int|
            0 <= i < template@.len() && #[trigger] fragments(template@)[i] is Ref,
{
    let mut i: usize = 0;
    while i < template.len()
        invariant
            i <= template@.len(),
            forall|j: int| 0 <= j < i ==> !(#[trigger] fragments(template@)[j] is Ref),
        decreases template@.len() - i,
    {
        match &template[i] {
            Fragment::Ref { name: _, raw: _ } => {
                assert(fragments(template@)[i as int] is Ref);
                return true;
            },
            Fragment::Literal(_) => {},
        }
        i = i + 1;
    }
    false
}

/// `value` in POSIX single quotes, each embedded quote written `'\''`.
pub open spec fn single_quoted(value: Seq<char>) -> Seq<char> {
    seq!['\''] + text::replace_char_of(value, '\'', seq!['\'', '\\', '\'', '\'']) + seq!['\'']
}

/// Wraps `value` in POSIX single quotes.
pub fn shell_single_quote(value: &str) -> (out: String)
    ensures
        out@ == single_quoted(value@),
{
    let mut out = String::new();
    out.push('\'');
    proof {
        reveal_strlit("'\\''");
        assert("'\\''"@ =~= seq!['\'', '\\', '\'', '\'']);
    }
    let inner = text::replace_char(value, '\'', "'\\''");
    out.append(inner.as_str());
    out.push('\'');
    assert(out@ =~= single_quoted(value@));
    out
}

/// What a fragment becomes, or the name whose value is missing.
pub open spec fn render_fragment(f: FragmentView, confirmed: Map<Seq<char>, Seq<char>>) -> Result<
    Seq<char>,
    Seq<char>,
> {
    match f {
        FragmentView::Literal(text) => Ok(text),
        FragmentView::Ref { name, raw } => if !confirmed.contains_key(name) {
            Err(name)
        } else if raw {
            Ok(confirmed[name])
        } else {
            Ok(single_quoted(confirmed[name]))
        },
    }
}

/// What the fragments become one behind the other, or the first name whose
/// value is missing.
pub open spec fn render_of(fs: Seq<FragmentView>, confirmed: Map<Seq<char>, Seq<char>>) -> Result<
    Seq<char>,
    Seq<char>,
>
    decreases fs.len(),
{
    if fs.len() == 0 {
        Ok(Seq::empty())
    } else {
        match render_fragment(fs[0], confirmed) {
            Err(name) => Err(name),
            Ok(first) => match render_of(fs.drop_first(), confirmed) {
                Err(name) => Err(name),
                Ok(rest) => Ok(first + rest),
            },
        }
    }
}

/// Renders `template` with the confirmed values.
pub fn render(template: &CommandTemplate, confirmed: &TextMap<String>) -> (rendered: Result<
    String,
    RenderError,
>)
    ensures
        match rendered {
            Ok(s) => render_of(fragments(template@), confirmed.texts()) == Ok::<Seq<char>, Seq<char>>(s@),
            Err(e) => render_of(fragments(template@), confirmed.texts()) == Err::<Seq<char>, Seq<char>>(
                e.missing(),
            ),
        },
{
    let mut out = String::new();
    let mut i: usize = 0;
    let ghost fs = fragments(template@);
    let ghost whole = render_of(fs, confirmed.texts());
    assert(fs.skip(0) =~= fs);
    proof {
        if let Ok(rest) = whole {
            assert(out@ + rest =~= rest);
        }
    }
    while i < template.len()
        invariant
            i <= template@.len(),
            fs == fragments(template@),
            whole == render_of(fs, confirmed.texts()),
            match render_of(fs.skip(i as int), confirmed.texts()) {
                Ok(rest) => whole == Ok::<Seq<char>, Seq<char>>(out@ + rest),
                Err(name) => whole == Err::<Seq<char>, Seq<char>>(name),
            },
        decreases template@.len() - i,
    {
        let ghost before = out@;
        assert(fs.skip(i as int).drop_first() =~= fs.skip(i + 1));
        assert(fs.skip(i as int)[0] == template@[i as int]@);
        match &template[i] {
            Fragment::Literal(text) => {
                out.append(text.as_str());
            },
            Fragment::Ref { name, raw } => match confirmed.get(name.as_str()) {
                None => {
                    return Err(RenderError::MissingConfirmed(name.clone()));
                },
                Some(value) => {
                    if *raw {
                        out.append(value.as_str());
                    } else {
                        let quoted = shell_single_quote(value.as_str());
                        out.append(quoted.as_str());
                    }
                },
            },
        }
        proof {
            let first = render_fragment(fs[i as int], confirmed.texts())->Ok_0;
            assert(out@ == before + first);
            if let Ok(rest) = render_of(fs.skip(i + 1), confirmed.texts()) {
                assert(before + (first + rest) =~= out@ + rest);
            }
        }
        i = i + 1;
    }
    assert(out@ + Seq::<char>::empty() =~= out@);
    Ok(out)
}

/// A character in front of a word that was read.
pub open spec fn char_before(c: char, rest: Option<Seq<char>>) -> Option<Seq<char>> {
    match rest {
        Some(word) => Some(seq![c] + word),
        None => None,
    }
}

/// The word that a POSIX shell reads from single-quoted runs and
/// backslash-escaped characters; `None` for any other syntax.
pub open spec fn shell_word(s: Seq<char>, quoted: bool) -> Option<Seq<char>>
    decreases s.len(),
{
    if s.len() == 0 {
        if quoted {
            None
        } else {
            Some(Seq::empty())
        }
    } else if s[0] == '\'' {
        shell_word(s.skip(1), !quoted)
    } else if quoted {
        char_before(s[0], shell_word(s.skip(1), true))
    } else if s[0] == '\\' && s.len() >= 2 {
        char_before(s[1], shell_word(s.skip(2), false))
    } else {
        None
    }
}

proof fn lemma_replace_front(s: Seq<char>, from: char, to: Seq<char>)
    requires
        s.len() > 0,
    ensures
        text::replace_char_of(s, from, to) == (if s[0] == from {
            to
        } else {
            seq![s[0]]
        }) + text::replace_char_of(s.drop_first(), from, to),
    decreases s.len(),
{
    let first = if s[0] == from {
        to
    } else {
        seq![s[0]]
    };
    if s.len() == 1 {
        assert(s.drop_first() =~= Seq::<char>::empty());
        assert(s.drop_last() =~= Seq::<char>::empty());
        assert(text::replace_char_of(s.drop_last(), from, to) =~= Seq::<char>::empty());
        assert(text::replace_char_of(s, from, to) =~= first + text::replace_char_of(
            s.drop_first(),
            from,
            to,
        ));
    } else {
        lemma_replace_front(s.drop_last(), from, to);
        assert(s.drop_last().drop_first() =~= s.drop_first().drop_last());
        assert(text::replace_char_of(s, from, to) =~= first + text::replace_char_of(
            s.drop_first(),
            from,
            to,
        ));
    }
}

proof fn lemma_quoted_inner(value: Seq<char>)
    ensures
        shell_word(
            text::replace_char_of(value, '\'', seq!['\'', '\\', '\'', '\'']) + seq!['\''],
            true,
        ) == Some(value),
    decreases value.len(),
{
    let escape = seq!['\'', '\\', '\'', '\''];
    let body = text::replace_char_of(value, '\'', escape) + seq!['\''];
    if value.len() == 0 {
        assert(body =~= seq!['\'']);
        assert(body.skip(1) =~= Seq::<char>::empty());
        assert(shell_word(body, true) == shell_word(body.skip(1), false));
        assert(value =~= Seq::<char>::empty());
    } else {
        let rest = text::replace_char_of(value.drop_first(), '\'', escape) + seq!['\''];
        lemma_replace_front(value, '\'', escape);
        lemma_quoted_inner(value.drop_first());
        assert(seq![value[0]] + value.drop_first() =~= value);
        if value[0] == '\'' {
            assert(body =~= escape + rest);
            let b1 = body.skip(1);
            assert(b1 =~= seq!['\\', '\'', '\''] + rest);
            let b3 = b1.skip(2);
            assert(b3 =~= seq!['\''] + rest);
            assert(b3.skip(1) =~= rest);
            assert(shell_word(body, true) == shell_word(b1, false));
            assert(shell_word(b1, false) == char_before('\'', shell_word(b3, false)));
            assert(shell_word(b3, false) == shell_word(rest, true));
        } else {
            assert(body =~= seq![value[0]] + rest);
            assert(body.skip(1) =~= rest);
        }
    }
}

/// A shell reads a quoted value back as the value, whatever it holds.
pub proof fn law_quoted_value_reads_back(value: Seq<char>)
    ensures
        shell_word(single_quoted(value), false) == Some(value),
{
    let inner = text::replace_char_of(value, '\'', seq!['\'', '\\', '\'', '\'']) + seq!['\''];
    assert(single_quoted(value) =~= seq!['\''] + inner);
    assert(single_quoted(value).skip(1) =~= inner);
    lemma_quoted_inner(value);
}

proof fn lemma_parse_plain(s: Seq<char>, literal: Seq<char>)
    requires
        !text::occurs(s, seq!['<', '#']),
    ensures
        parse_from(s, literal) == Ok::<Seq<FragmentView>, ParseErrorView>(literal_of(literal + s)),
    decreases s.len(),
{
    if s.len() == 0 {
        assert(literal + s =~= literal);
    } else {
        if text::stands_at(s, seq!['\\', '<', '#'], 0) {
            let at3 = s.subrange(0, 3);
            assert(at3[1] == '<' && at3[2] == '#');
            assert(s.subrange(1, 3) =~= seq!['<', '#']);
            assert(text::stands_at(s, seq!['<', '#'], 1));
        }
        assert(!text::stands_at(s, seq!['<', '#'], 0));
        let rest = s.skip(1);
        assert forall|k: int| !text::stands_at(rest, seq!['<', '#'], k) by {
            if 0 <= k {
                text::lemma_stands_shift(s, seq!['<', '#'], 1, k);
            }
        }
        lemma_parse_plain(rest, literal.push(s[0]));
        assert(literal.push(s[0]) + rest =~= literal + s);
    }
}

/// A source without `<#` is one literal, and renders to itself whatever is
/// confirmed.
pub proof fn law_plain_text_renders_to_itself(s: Seq<char>, confirmed: Map<Seq<char>, Seq<char>>)
    requires
        !text::occurs(s, seq!['<', '#']),
    ensures
        parse_of(s) == Ok::<Seq<FragmentView>, ParseErrorView>(literal_of(s)),
        render_of(literal_of(s), confirmed) == Ok::<Seq<char>, Seq<char>>(s),
{
    lemma_parse_plain(s, Seq::empty());
    assert(Seq::<char>::empty() + s =~= s);
    if s.len() > 0 {
        let fs = literal_of(s);
        assert(fs.drop_first() =~= Seq::<FragmentView>::empty());
        assert(render_of(fs.drop_first(), confirmed) == Ok::<Seq<char>, Seq<char>>(Seq::empty()));
        assert(s + Seq::<char>::empty() =~= s);
    } else {
        assert(s =~= Seq::<char>::empty());
    }
}

/// No fragment is an empty literal, no two literals stand side by side, and
/// every reference has a variable name.
pub open spec fn well_formed(fs: Seq<FragmentView>) -> bool {
    &&& forall|i: int| 0 <= i < fs.len() ==> match #[trigger] fs[i] {
        FragmentView::Literal(text) => text.len() > 0,
        FragmentView::Ref { name, raw: _ } => is_variable_name(name),
    }
    &&& forall|i: int, j: int|
        0 <= i && j == i + 1 && j < fs.len() ==> !(#[trigger] fs[i] is Literal && #[trigger] fs[j] is Literal)
}

proof fn lemma_parse_well_formed(s: Seq<char>, literal: Seq<char>)
    ensures
        match parse_from(s, literal) {
            Ok(fs) => well_formed(fs),
            Err(_) => true,
        },
    decreases s.len(),
{
    if s.len() == 0 {
    } else if text::stands_at(s, seq!['\\', '<', '#'], 0) {
        match text::find_from(s, seq!['>'], 1) {
            Some(end) if 1 <= end < s.len() => lemma_parse_well_formed(
                s.skip(end + 1),
                literal + s.subrange(1, end + 1),
            ),
            _ => lemma_parse_well_formed(s.skip(1), literal.push('\\')),
        }
    } else if text::stands_at(s, seq!['<', '#'], 0) {
        match text::find_from(s, seq!['>'], 2) {
            Some(end) if 2 <= end < s.len() => {
                lemma_parse_well_formed(s.skip(end + 1), Seq::empty());
                if let Ok(r) = parse_ref_inner_of(s.subrange(2, end)) {
                    let head = literal_of(literal).push(FragmentView::Ref { name: r.0, raw: r.1 });
                    if let Ok(fs) = parse_from(s.skip(end + 1), Seq::empty()) {
                        let all = head + fs;
                        assert forall|i: int| 0 <= i < all.len() implies match #[trigger] all[i] {
                            FragmentView::Literal(text) => text.len() > 0,
                            FragmentView::Ref { name, raw: _ } => is_variable_name(name),
                        } by {
                            if i >= head.len() {
                                assert(all[i] == fs[i - head.len()]);
                            }
                        }
                        assert forall|i: int, j: int|
                            0 <= i && j == i + 1 && j < all.len() implies !(#[trigger] all[i] is Literal
                            && #[trigger] all[j] is Literal) by {
                            if i >= head.len() {
                                assert(all[i] == fs[i - head.len()]);
                                assert(all[j] == fs[j - head.len()]);
                            } else {
                                assert(all[head.len() - 1] is Ref);
                            }
                        }
                    }
                }
            },
            _ => {},
        }
    } else {
        lemma_parse_well_formed(s.skip(1), literal.push(s[0]));
    }
}

/// What parsing gives holds no empty literal, no two neighbouring literals,
/// and only valid names.
pub proof fn law_parsed_fragments_are_well_formed(s: Seq<char>)
    ensures
        parse_of(s) matches Ok(fs) ==> well_formed(fs),
{
    lemma_parse_well_formed(s, Seq::empty());
}

/// Rendering succeeds exactly where every name referred to is confirmed.
pub proof fn law_render_needs_every_name(fs: Seq<FragmentView>, confirmed: Map<Seq<char>, Seq<char>>)
    ensures
        render_of(fs, confirmed) is Ok <==> names_of(fs).subset_of(confirmed.dom()),
    decreases fs.len(),
{
    if fs.len() == 0 {
        assert(names_of(fs) =~= Set::<Seq<char>>::empty());
    } else {
        let rest = fs.drop_first();
        law_render_needs_every_name(rest, confirmed);
        assert forall|name: Seq<char>| #![auto] names_of(fs).contains(name) == (
            names_of(rest).contains(name) || (fs[0] matches FragmentView::Ref { name: n, raw: _ }
            && n == name)) by {
            if names_of(rest).contains(name) {
                let k = choose|k: int|
                    0 <= k < rest.len() && (#[trigger] rest[k] matches FragmentView::Ref {
                        name: n,
                        raw: _,
                    } && n == name);
                assert(fs[k + 1] == rest[k]);
            }
            if names_of(fs).contains(name) {
                let k = choose|k: int|
                    0 <= k < fs.len() && (#[trigger] fs[k] matches FragmentView::Ref {
                        name: n,
                        raw: _,
                    } && n == name);
                if k > 0 {
                    assert(rest[k - 1] == fs[k]);
                }
            }
        }
        if names_of(fs).subset_of(confirmed.dom()) {
            assert(names_of(rest).subset_of(confirmed.dom()));
            if let FragmentView::Ref { name, raw: _ } = fs[0] {
                assert(names_of(fs).contains(name));
            }
        }
        if names_of(rest).subset_of(confirmed.dom()) && render_of(fs, confirmed) is Ok {
            assert forall|name: Seq<char>| names_of(fs).contains(name) implies confirmed.dom().contains(name) by {}
        }
    }
}

proof fn lemma_parse_in_front(a: Seq<char>, s: Seq<char>, literal: Seq<char>)
    requires
        !text::occurs(a, seq!['<', '#']),
        s.len() > 0 ==> s[0] != '#',
        a.len() > 0 && s.len() >= 2 && s[0] == '<' && s[1] == '#' ==> a.last() != '\\',
    ensures
        parse_from(a + s, literal) == parse_from(s, literal + a),
    decreases a.len(),
{
    let all = a + s;
    if a.len() == 0 {
        assert(all =~= s);
        assert(literal + a =~= literal);
    } else {
        let rest = a.skip(1);
        if text::stands_at(all, seq!['\\', '<', '#'], 0) {
            let three = all.subrange(0, 3);
            assert(three[0] == '\\' && three[1] == '<' && three[2] == '#');
            assert(all[0] == '\\' && all[1] == '<' && all[2] == '#');
            if a.len() >= 3 {
                assert(a.subrange(1, 3) =~= seq!['<', '#']);
                assert(text::stands_at(a, seq!['<', '#'], 1));
            } else if a.len() == 2 {
                assert(s[0] == '#');
            } else {
                assert(s[0] == '<' && s[1] == '#');
            }
        }
        if text::stands_at(all, seq!['<', '#'], 0) {
            let two = all.subrange(0, 2);
            assert(two[0] == '<' && two[1] == '#');
            assert(all[0] == '<' && all[1] == '#');
            if a.len() >= 2 {
                assert(a.subrange(0, 2) =~= seq!['<', '#']);
                assert(text::stands_at(a, seq!['<', '#'], 0));
            } else {
                assert(s[0] == '#');
            }
        }
        assert forall|k: int| !text::stands_at(rest, seq!['<', '#'], k) by {
            if 0 <= k {
                text::lemma_stands_shift(a, seq!['<', '#'], 1, k);
            }
        }
        lemma_parse_in_front(rest, s, literal.push(a[0]));
        assert(all.skip(1) =~= rest + s);
        assert(literal.push(a[0]) + rest =~= literal + a);
    }
}

proof fn lemma_name_holds(name: Seq<char>)
    requires
        is_variable_name(name),
    ensures
        text::trim_of(name) == name,
        forall|i: int| 0 <= i < name.len() ==> name[i] != ':' && name[i] != '>' && name[i] != '<',
{
    assert(is_name_char_of(name[0]));
    assert(is_name_char_of(name[name.len() - 1]));
    text::law_trimmed_text_stays(name);
    assert forall|i: int| 0 <= i < name.len() implies name[i] != ':' && name[i] != '>' && name[i]
        != '<' by {
        assert(is_name_char_of(name[i]));
    }
}

proof fn lemma_parse_reference(before: Seq<char>, inner: Seq<char>, rest: Seq<char>)
    requires
        !text::occurs(before, seq!['<', '#']),
        before.len() > 0 ==> before.last() != '\\',
        forall|i: int| 0 <= i < inner.len() ==> inner[i] != '>',
    ensures
        parse_of(before + seq!['<', '#'] + inner + seq!['>'] + rest) == (match parse_ref_inner_of(
            inner,
        ) {
            Ok(r) => in_front(
                literal_of(before).push(FragmentView::Ref { name: r.0, raw: r.1 }),
                parse_of(rest),
            ),
            Err(e) => Err(e),
        }),
{
    let opened = seq!['<', '#'] + inner;
    let s = opened + seq!['>'] + rest;
    assert(before + seq!['<', '#'] + inner + seq!['>'] + rest =~= before + s);
    assert(s[0] == '<' && s[1] == '#');
    lemma_parse_in_front(before, s, Seq::empty());
    assert(Seq::<char>::empty() + before =~= before);
    assert(s.subrange(0, 2) =~= seq!['<', '#']);
    assert(text::stands_at(s, seq!['<', '#'], 0));
    if text::stands_at(s, seq!['\\', '<', '#'], 0) {
        assert(s.subrange(0, 3)[0] == '\\');
    }
    text::lemma_find_first(opened, '>', rest, 2);
    let end = opened.len() as int;
    assert(s.subrange(2, end) =~= inner);
    assert(s.skip(end + 1) =~= rest);
}

/// A reference becomes the confirmed value of its variable in single quotes, and
/// with `:raw` the value as it is. The text around it stays, and without a
/// confirmed value nothing is rendered.
pub proof fn law_references_become_values(
    before: Seq<char>,
    name: Seq<char>,
    rest: Seq<char>,
    confirmed: Map<Seq<char>, Seq<char>>,
)
    requires
        !text::occurs(before, seq!['<', '#']),
        before.len() > 0 ==> before.last() != '\\',
        is_variable_name(name),
        parse_of(rest) is Ok,
    ensures
        ({
            let quoted = before + seq!['<', '#'] + name + seq!['>'] + rest;
            let spliced = before + seq!['<', '#'] + name + seq![':', 'r', 'a', 'w', '>'] + rest;
            let behind = render_of(parse_of(rest)->Ok_0, confirmed);
            &&& parse_of(quoted) is Ok
            &&& parse_of(spliced) is Ok
            &&& names_of(parse_of(quoted)->Ok_0).contains(name)
            &&& names_of(parse_of(spliced)->Ok_0).contains(name)
            &&& !confirmed.contains_key(name) ==> render_of(
                parse_of(quoted)->Ok_0,
                confirmed,
            ) is Err && render_of(parse_of(spliced)->Ok_0, confirmed) is Err
            &&& confirmed.contains_key(name) && behind is Ok ==> {
                &&& render_of(parse_of(quoted)->Ok_0, confirmed) == Ok::<Seq<char>, Seq<char>>(
                    before + single_quoted(confirmed[name]) + behind->Ok_0,
                )
                &&& render_of(parse_of(spliced)->Ok_0, confirmed) == Ok::<Seq<char>, Seq<char>>(
                    before + confirmed[name] + behind->Ok_0,
                )
            }
        }),
{
    lemma_name_holds(name);
    let marked = name + seq![':', 'r', 'a', 'w'];
    let fs = parse_of(rest)->Ok_0;
    lemma_parse_reference(before, name, rest);
    lemma_parse_reference(before, marked, rest);
    assert(before + seq!['<', '#'] + name + seq![':', 'r', 'a', 'w', '>'] + rest =~= before + seq![
        '<',
        '#',
    ] + marked + seq!['>'] + rest);
    text::lemma_find_nothing(name, ':', 0);
    text::lemma_find_first(name, ':', seq!['r', 'a', 'w'], 0);
    assert(marked =~= name + seq![':'] + seq!['r', 'a', 'w']);
    assert(marked.skip(name.len() as int + 1) =~= seq!['r', 'a', 'w']);
    assert(marked.take(name.len() as int) =~= name);
    lemma_reference_rendered(before, name, false, fs, confirmed);
    lemma_reference_rendered(before, name, true, fs, confirmed);
}

proof fn lemma_reference_rendered(
    before: Seq<char>,
    name: Seq<char>,
    raw: bool,
    fs: Seq<FragmentView>,
    confirmed: Map<Seq<char>, Seq<char>>,
)
    ensures
        ({
            let all = literal_of(before).push(FragmentView::Ref { name, raw }) + fs;
            &&& names_of(all).contains(name)
            &&& !confirmed.contains_key(name) ==> render_of(all, confirmed) is Err
            &&& confirmed.contains_key(name) && render_of(fs, confirmed) is Ok ==> render_of(
                all,
                confirmed,
            ) == Ok::<Seq<char>, Seq<char>>(
                before + (if raw {
                    confirmed[name]
                } else {
                    single_quoted(confirmed[name])
                }) + render_of(fs, confirmed)->Ok_0,
            )
        }),
{
    reveal_with_fuel(render_of, 3);
    let r = FragmentView::Ref { name, raw };
    let all = literal_of(before).push(r) + fs;
    let n = literal_of(before).len() as int;
    assert(all[n] == r);
    assert(names_of(all).contains(name));
    let tail = seq![r] + fs;
    assert(tail.drop_first() =~= fs);
    if before.len() == 0 {
        assert(all =~= tail);
        assert(before =~= Seq::<char>::empty());
        if confirmed.contains_key(name) && render_of(fs, confirmed) is Ok {
            let v = if raw {
                confirmed[name]
            } else {
                single_quoted(confirmed[name])
            };
            assert(before + v =~= v);
        }
    } else {
        assert(all.drop_first() =~= tail);
        if confirmed.contains_key(name) && render_of(fs, confirmed) is Ok {
            let v = if raw {
                confirmed[name]
            } else {
                single_quoted(confirmed[name])
            };
            assert(before + v + render_of(fs, confirmed)->Ok_0 =~= before + (v + render_of(
                fs,
                confirmed,
            )->Ok_0));
        }
    }
}

/// A backslash before a reference makes it text: it stays as written, without the
/// backslash.
pub proof fn law_escaped_references_are_text(before: Seq<char>, inner: Seq<char>, rest: Seq<char>)
    requires
        !text::occurs(before, seq!['<', '#']),
        !text::occurs(rest, seq!['<', '#']),
        forall|i: int| 0 <= i < inner.len() ==> inner[i] != '>',
    ensures
        parse_of(before + seq!['\\', '<', '#'] + inner + seq!['>'] + rest) == Ok::<
            Seq<FragmentView>,
            ParseErrorView,
        >(seq![FragmentView::Literal(before + seq!['<', '#'] + inner + seq!['>'] + rest)]),
{
    let opened = seq!['\\', '<', '#'] + inner;
    let s = opened + seq!['>'] + rest;
    let written = seq!['<', '#'] + inner + seq!['>'];
    assert(before + seq!['\\', '<', '#'] + inner + seq!['>'] + rest =~= before + s);
    assert(s[0] == '\\');
    lemma_parse_in_front(before, s, Seq::empty());
    assert(Seq::<char>::empty() + before =~= before);
    assert(s.subrange(0, 3) =~= seq!['\\', '<', '#']);
    assert(text::stands_at(s, seq!['\\', '<', '#'], 0));
    text::lemma_find_first(opened, '>', rest, 1);
    let end = opened.len() as int;
    assert(s.skip(end + 1) =~= rest);
    assert(s.subrange(1, end + 1) =~= written);
    lemma_parse_plain(rest, before + written);
    assert(before + written + rest =~= before + seq!['<', '#'] + inner + seq!['>'] + rest);
}

/// A reference that is never closed, one with another modifier than `raw`, and
/// one whose name is none are refused.
pub proof fn law_malformed_references_are_refused(before: Seq<char>, inner: Seq<char>, rest: Seq<char>)
    requires
        !text::occurs(before, seq!['<', '#']),
        before.len() > 0 ==> before.last() != '\\',
        forall|i: int| 0 <= i < inner.len() ==> inner[i] != '>',
    ensures
        parse_of(before + seq!['<', '#'] + inner) == Err::<Seq<FragmentView>, ParseErrorView>(
            ParseErrorView::UnterminatedRef,
        ),
        (forall|i: int| 0 <= i < inner.len() ==> inner[i] != ':') && !is_variable_name(
            text::trim_of(inner),
        ) ==> parse_of(before + seq!['<', '#'] + inner + seq!['>'] + rest) == Err::<
            Seq<FragmentView>,
            ParseErrorView,
        >(ParseErrorView::InvalidName(text::trim_of(inner))),
        forall|name: Seq<char>, modifier: Seq<char>|
            #![trigger name + seq![':'] + modifier]
            inner == name + seq![':'] + modifier && (forall|i: int|
                0 <= i < name.len() ==> name[i] != ':') && modifier != seq!['r', 'a', 'w']
                ==> parse_of(before + seq!['<', '#'] + inner + seq!['>'] + rest) == Err::<
                Seq<FragmentView>,
                ParseErrorView,
            >(ParseErrorView::UnknownModifier(modifier)),
{
    lemma_parse_reference(before, inner, rest);
    let s = seq!['<', '#'] + inner;
    assert(before + seq!['<', '#'] + inner =~= before + s);
    lemma_parse_in_front(before, s, Seq::empty());
    assert(s.subrange(0, 2) =~= seq!['<', '#']);
    assert(text::stands_at(s, seq!['<', '#'], 0));
    if text::stands_at(s, seq!['\\', '<', '#'], 0) {
        assert(s.subrange(0, 3)[0] == '\\');
    }
    text::lemma_find_nothing(s, '>', 2);
    if forall|i: int| 0 <= i < inner.len() ==> inner[i] != ':' {
        text::lemma_find_nothing(inner, ':', 0);
    }
    assert forall|name: Seq<char>, modifier: Seq<char>|
        #![trigger name + seq![':'] + modifier]
        inner == name + seq![':'] + modifier && (forall|i: int|
            0 <= i < name.len() ==> name[i] != ':') && modifier != seq![
            'r',
            'a',
            'w',
        ] implies parse_of(before + seq!['<', '#'] + inner + seq!['>'] + rest) == Err::<
        Seq<FragmentView>,
        ParseErrorView,
    >(ParseErrorView::UnknownModifier(modifier)) by {
        text::lemma_find_first(name, ':', modifier, 0);
        assert(inner.skip(name.len() as int + 1) =~= modifier);
    }
}

} // verus!
