//! Metadata at the top of a snippet file, between two lines of dashes.

use vstd::prelude::*;
use crate::domain;
use crate::domain::Frontmatter;
use crate::text;
use crate::text_map::TextMap;

verus! {

broadcast use vstd::string::group_string_axioms;

/// Metadata while its lines are read.
#[verifier::ext_equal]
pub struct MetaView {
    pub name: Option<Seq<char>>,
    pub description: Option<Seq<char>>,
    pub tags: Seq<Seq<char>>,
    /// Whether the lines of a list of tags follow.
    pub listing: bool,
}

/// A value without the blanks and quotes around it.
pub open spec fn value_of(s: Seq<char>) -> Seq<char> {
    let t = text::trim_of(s);
    if t.len() >= 2 && t[0] == t.last() && (t[0] == '"' || t[0] == '\'') {
        t.subrange(1, t.len() - 1)
    } else {
        t
    }
}

/// The values of a list that are not empty.
pub open spec fn values_of(pieces: Seq<Seq<char>>) -> Seq<Seq<char>>
    decreases pieces.len(),
{
    if pieces.len() == 0 {
        Seq::empty()
    } else {
        let before = values_of(pieces.drop_last());
        let value = value_of(pieces.last());
        if value.len() == 0 {
            before
        } else {
            before.push(value)
        }
    }
}

/// The text behind a key on a line.
pub open spec fn behind(line: Seq<char>, key: Seq<char>) -> Option<Seq<char>> {
    if key.is_prefix_of(line) {
        Some(line.skip(key.len() as int))
    } else {
        None
    }
}

/// The value behind a key; none where it is empty.
pub open spec fn filled(s: Seq<char>) -> Option<Seq<char>> {
    if value_of(s).len() == 0 {
        None
    } else {
        Some(value_of(s))
    }
}

/// The tags written behind their key: a list in brackets, or a single one.
pub open spec fn inline_tags(s: Seq<char>) -> Seq<Seq<char>> {
    let t = text::trim_of(s);
    if t.len() >= 2 && t[0] == '[' && t.last() == ']' {
        values_of(text::split_of(t.subrange(1, t.len() - 1), ','))
    } else {
        values_of(seq![t])
    }
}

impl MetaView {
    /// Before the first line.
    pub open spec fn start() -> MetaView {
        MetaView { name: None, description: None, tags: Seq::empty(), listing: false }
    }

    /// With one more line.
    pub open spec fn reading(self, line: Seq<char>) -> MetaView {
        match behind(line, "name:"@) {
            Some(rest) => MetaView { name: filled(rest), listing: false, ..self },
            None => match behind(line, "description:"@) {
                Some(rest) => MetaView { description: filled(rest), listing: false, ..self },
                None => match behind(line, "tags:"@) {
                    Some(rest) => MetaView { tags: inline_tags(rest), listing: true, ..self },
                    None => match behind(text::trim_of(line), "-"@) {
                        Some(rest) => if self.listing {
                            MetaView { tags: self.tags + values_of(seq![rest]), ..self }
                        } else {
                            self
                        },
                        None => MetaView { listing: false, ..self },
                    },
                },
            },
        }
    }
}

/// The metadata of the lines up to `n`, from the second on.
pub open spec fn read_meta(lines: Seq<Seq<char>>, n: int) -> MetaView
    decreases n,
{
    if n <= 1 {
        MetaView::start()
    } else {
        read_meta(lines, n - 1).reading(lines[n - 1])
    }
}

/// The frontmatter whose closing line is `end`.
pub open spec fn frontmatter_of(lines: Seq<Seq<char>>, end: int) -> domain::FrontmatterView {
    let meta = read_meta(lines, end);
    domain::FrontmatterView {
        name: meta.name,
        description: meta.description,
        tags: meta.tags,
        variables: Map::empty(),
    }
}

fn value(s: &str) -> (out: String)
    ensures
        out@ == value_of(s@),
{
    let trimmed = text::trim(s);
    let chars = text::chars_of(trimmed.as_str());
    let n: usize = chars.len();
    if n >= 2 && chars[0] == chars[n - 1] && (chars[0] == '"' || chars[0] == '\'') {
        text::string_from(&chars, 1, n - 1)
    } else {
        trimmed
    }
}

fn push_value(values: &mut Vec<String>, piece: &str)
    ensures
        text::texts(final(values)@) == text::texts(old(values)@) + values_of(seq![piece@]),
{
    let ghost before = values@;
    let out = value(piece);
    proof {
        let one = seq![piece@];
        assert(one.drop_last() =~= Seq::<Seq<char>>::empty());
        assert(one.last() == piece@);
        reveal_with_fuel(values_of, 2);
        text::lemma_texts_push(before, out);
    }
    if text::same_text(out.as_str(), "") {
        proof {
            reveal_strlit("");
        }
        assert(text::texts(values@) =~= text::texts(before) + values_of(seq![piece@]));
    } else {
        proof {
            reveal_strlit("");
            if out@.len() == 0 {
                assert(out@ =~= ""@);
            }
        }
        values.push(out);
        assert(text::texts(values@) =~= text::texts(before) + values_of(seq![piece@]));
    }
}

fn rest_behind(line: &str, key: &str) -> (rest: Option<String>)
    ensures
        text::optional_text(rest) == behind(line@, key@),
{
    text::strip_prefix_text(line, key)
}

fn filled_value(s: &str) -> (out: Option<String>)
    ensures
        text::optional_text(out) == filled(s@),
{
    let out = value(s);
    proof {
        reveal_strlit("");
        if out@.len() == 0 {
            assert(out@ =~= ""@);
        }
    }
    if text::same_text(out.as_str(), "") {
        None
    } else {
        Some(out)
    }
}

proof fn lemma_values_step(pieces: Seq<Seq<char>>, i: int)
    requires
        0 <= i < pieces.len(),
    ensures
        values_of(pieces.take(i + 1)) == values_of(pieces.take(i)) + values_of(seq![pieces[i]]),
{
    assert(pieces.take(i + 1).drop_last() =~= pieces.take(i));
    let one = seq![pieces[i]];
    assert(one.drop_last() =~= Seq::<Seq<char>>::empty());
    reveal_with_fuel(values_of, 2);
    assert(values_of(pieces.take(i + 1)) =~= values_of(pieces.take(i)) + values_of(one));
}

fn read_inline_tags(s: &str) -> (tags: Vec<String>)
    ensures
        text::texts(tags@) == inline_tags(s@),
{
    let trimmed = text::trim(s);
    let chars = text::chars_of(trimmed.as_str());
    let n: usize = chars.len();
    let mut tags: Vec<String> = Vec::new();
    assert(text::texts(tags@) =~= Seq::<Seq<char>>::empty());
    if n >= 2 && chars[0] == '[' && chars[n - 1] == ']' {
        let inner = text::string_from(&chars, 1, n - 1);
        let pieces = text::split_text(inner.as_str(), ',');
        let ghost all = text::texts(pieces@);
        let mut i: usize = 0;
        assert(all.take(0) =~= Seq::<Seq<char>>::empty());
        while i < pieces.len()
            invariant
                i <= pieces@.len(),
                all == text::texts(pieces@),
                text::texts(tags@) == values_of(all.take(i as int)),
            decreases pieces@.len() - i,
        {
            proof {
                lemma_values_step(all, i as int);
            }
            assert(all[i as int] == pieces@[i as int]@);
            push_value(&mut tags, pieces[i].as_str());
            i = i + 1;
        }
        assert(all.take(all.len() as int) =~= all);
    } else {
        push_value(&mut tags, trimmed.as_str());
        assert(text::texts(tags@) =~= values_of(seq![trimmed@]));
    }
    tags
}

/// Reads the frontmatter whose closing line is `end`.
pub fn read_frontmatter(lines: &Vec<String>, end: usize) -> (out: Frontmatter)
    requires
        end <= lines@.len(),
    ensures
        out@ == frontmatter_of(text::texts(lines@), end as int),
{
    let ghost all = text::texts(lines@);
    let mut name: Option<String> = None;
    let mut description: Option<String> = None;
    let mut tags: Vec<String> = Vec::new();
    let mut listing = false;
    let mut i: usize = 1;
    let ghost mut meta = MetaView::start();
    assert(text::texts(tags@) =~= Seq::<Seq<char>>::empty());
    while i < end
        invariant
            1 <= i,
            end <= lines@.len(),
            i <= end || i == 1,
            all == text::texts(lines@),
            meta == read_meta(all, i as int),
            meta.name == text::optional_text(name),
            meta.description == text::optional_text(description),
            meta.tags == text::texts(tags@),
            meta.listing == listing,
        decreases end - i,
    {
        let line = lines[i].as_str();
        assert(all[i as int] == line@);
        if let Some(rest) = rest_behind(line, "name:") {
            name = filled_value(rest.as_str());
            listing = false;
        } else if let Some(rest) = rest_behind(line, "description:") {
            description = filled_value(rest.as_str());
            listing = false;
        } else if let Some(rest) = rest_behind(line, "tags:") {
            tags = read_inline_tags(rest.as_str());
            listing = true;
        } else {
            let trimmed = text::trim(line);
            match rest_behind(trimmed.as_str(), "-") {
                Some(rest) => {
                    if listing {
                        push_value(&mut tags, rest.as_str());
                    }
                },
                None => {
                    listing = false;
                },
            }
        }
        proof {
            meta = meta.reading(line@);
        }
        i = i + 1;
    }
    let out = Frontmatter { name, description, tags, variables: TextMap::new() };
    assert(domain::spec_views(out.variables@) =~= Map::<
        Seq<char>,
        domain::VariableSpecView,
    >::empty());
    assert(end <= 1 ==> read_meta(all, end as int) == MetaView::start());
    out
}

/// Blanks around a value are taken away, and then one pair of quotes around it.
pub proof fn law_values_lose_blanks_and_quotes(
    before: Seq<char>,
    x: Seq<char>,
    behind: Seq<char>,
    quote: char,
)
    requires
        quote == '"' || quote == '\'',
        forall|i: int| 0 <= i < before.len() ==> text::is_white_space(#[trigger] before[i]),
        forall|i: int| 0 <= i < behind.len() ==> text::is_white_space(#[trigger] behind[i]),
    ensures
        value_of(before + (seq![quote] + x + seq![quote]) + behind) == x,
        x.len() > 0 && text::is_trimmed(x) && (x[0] != '"' && x[0] != '\'' || x[0] != x.last())
            ==> value_of(before + x + behind) == x,
{
    let quoted = seq![quote] + x + seq![quote];
    text::law_trimming_takes_white_space_away(before, quoted, behind);
    assert(quoted.subrange(1, quoted.len() - 1) =~= x);
    if x.len() > 0 && text::is_trimmed(x) {
        text::law_trimming_takes_white_space_away(before, x, behind);
    }
}

proof fn lemma_keys_differ()
    ensures
        forall|line: Seq<char>|
            "description:"@.is_prefix_of(line) ==> !#[trigger] "name:"@.is_prefix_of(line),
        forall|line: Seq<char>|
            "tags:"@.is_prefix_of(line) ==> !#[trigger] "name:"@.is_prefix_of(line),
        forall|line: Seq<char>|
            "tags:"@.is_prefix_of(line) ==> !#[trigger] "description:"@.is_prefix_of(line),
        "name:"@.len() == 5,
        "description:"@.len() == 12,
        "tags:"@.len() == 5,
        "-"@.len() == 1,
{
    reveal_strlit("name:");
    reveal_strlit("description:");
    reveal_strlit("tags:");
    reveal_strlit("-");
    assert("name:"@[0] == 'n');
    assert("description:"@[0] == 'd');
    assert("tags:"@[0] == 't');
}

/// The name of a file is what stands behind the last `name:` of its frontmatter.
/// Without such a line there is none.
pub proof fn law_last_name_counts(lines: Seq<Seq<char>>, at: int, v: Seq<char>, end: int)
    requires
        1 <= at <= end <= lines.len(),
        at < end ==> lines[at] == "name:"@ + v,
        forall|j: int| at < j < end ==> !"name:"@.is_prefix_of(#[trigger] lines[j]),
        at == end ==> forall|j: int| 0 < j < end ==> !"name:"@.is_prefix_of(#[trigger] lines[j]),
    ensures
        frontmatter_of(lines, end).name == (if at < end && value_of(v).len() > 0 {
            Some(value_of(v))
        } else {
            None
        }),
    decreases end,
{
    lemma_keys_differ();
    if end > 1 {
        if end == at + 1 {
            assert("name:"@.is_prefix_of(lines[at]));
            assert(lines[at].skip(5) =~= v);
        } else if at < end {
            law_last_name_counts(lines, at, v, end - 1);
            assert(!"name:"@.is_prefix_of(lines[end - 1]));
        } else {
            law_last_name_counts(lines, end - 1, v, end - 1);
            assert(!"name:"@.is_prefix_of(lines[end - 1]));
        }
    }
}

/// The description of a file is what stands behind the last `description:` of its
/// frontmatter. Without such a line there is none.
pub proof fn law_last_description_counts(lines: Seq<Seq<char>>, at: int, v: Seq<char>, end: int)
    requires
        1 <= at <= end <= lines.len(),
        at < end ==> lines[at] == "description:"@ + v,
        forall|j: int| at < j < end ==> !"description:"@.is_prefix_of(#[trigger] lines[j]),
        at == end ==> forall|j: int|
            0 < j < end ==> !"description:"@.is_prefix_of(#[trigger] lines[j]),
    ensures
        frontmatter_of(lines, end).description == (if at < end && value_of(v).len() > 0 {
            Some(value_of(v))
        } else {
            None
        }),
    decreases end,
{
    lemma_keys_differ();
    if end > 1 {
        if end == at + 1 {
            assert("description:"@.is_prefix_of(lines[at]));
            assert(lines[at].skip(12) =~= v);
        } else if at < end {
            law_last_description_counts(lines, at, v, end - 1);
            assert(!"description:"@.is_prefix_of(lines[end - 1]));
        } else {
            law_last_description_counts(lines, end - 1, v, end - 1);
            assert(!"description:"@.is_prefix_of(lines[end - 1]));
        }
    }
}

proof fn lemma_values(pieces: Seq<Seq<char>>)
    ensures
        values_of(pieces) == pieces.map_values(|piece: Seq<char>| value_of(piece)).filter(
            |value: Seq<char>| value.len() > 0,
        ),
    decreases pieces.len(),
{
    reveal(Seq::filter);
    let read = |piece: Seq<char>| value_of(piece);
    let some = |value: Seq<char>| value.len() > 0;
    let all = pieces.map_values(read);
    if pieces.len() > 0 {
        lemma_values(pieces.drop_last());
        assert(all.drop_last() =~= pieces.drop_last().map_values(read));
    } else {
        assert(all.filter(some) =~= Seq::<Seq<char>>::empty());
    }
}

/// Tags in brackets, with commas between them, are read each as a value, without
/// those that are empty.
pub proof fn law_bracketed_tags(before: Seq<char>, tags: Seq<Seq<char>>, behind: Seq<char>)
    requires
        tags.len() > 0,
        forall|i: int| 0 <= i < tags.len() ==> !(#[trigger] tags[i]).contains(','),
        forall|i: int| 0 <= i < before.len() ==> text::is_white_space(#[trigger] before[i]),
        forall|i: int| 0 <= i < behind.len() ==> text::is_white_space(#[trigger] behind[i]),
    ensures
        inline_tags(before + (seq!['['] + text::join_of(tags, seq![',']) + seq![']']) + behind)
            == tags.map_values(|tag: Seq<char>| value_of(tag)).filter(
            |tag: Seq<char>| tag.len() > 0,
        ),
{
    let inner = text::join_of(tags, seq![',']);
    let whole = seq!['['] + inner + seq![']'];
    text::law_trimming_takes_white_space_away(before, whole, behind);
    assert(whole.subrange(1, whole.len() - 1) =~= inner);
    text::law_split_undoes_join(tags, ',');
    lemma_values(tags);
}

/// A single tag without brackets is read as a value.
pub proof fn law_single_tag(before: Seq<char>, tag: Seq<char>, behind: Seq<char>)
    requires
        tag.len() > 0,
        text::is_trimmed(tag),
        tag[0] != '[' || tag.last() != ']' || tag.len() < 2,
        forall|i: int| 0 <= i < before.len() ==> text::is_white_space(#[trigger] before[i]),
        forall|i: int| 0 <= i < behind.len() ==> text::is_white_space(#[trigger] behind[i]),
    ensures
        value_of(tag).len() > 0 ==> inline_tags(before + tag + behind) == seq![value_of(tag)],
        value_of(tag).len() == 0 ==> inline_tags(before + tag + behind).len() == 0,
{
    text::law_trimming_takes_white_space_away(before, tag, behind);
    assert(seq![tag].drop_last() =~= Seq::<Seq<char>>::empty());
    reveal_with_fuel(values_of, 2);
    if value_of(tag).len() > 0 {
        assert(values_of(seq![tag]) =~= seq![value_of(tag)]);
    }
}

/// Whether a line is an item of a list: a dash stands first, and no key.
pub open spec fn is_item(line: Seq<char>) -> bool {
    &&& "-"@.is_prefix_of(text::trim_of(line))
    &&& !"name:"@.is_prefix_of(line)
    &&& !"description:"@.is_prefix_of(line)
    &&& !"tags:"@.is_prefix_of(line)
}

/// The tags of a file are those on the last `tags:` line of its frontmatter, and
/// those of the items that follow it without a break, in order.
pub proof fn law_last_tags_count(lines: Seq<Seq<char>>, at: int, v: Seq<char>, to: int, end: int)
    requires
        1 <= at < to <= end <= lines.len(),
        lines[at] == "tags:"@ + v,
        forall|j: int| at < j < to ==> is_item(#[trigger] lines[j]),
        to < end ==> !is_item(lines[to]),
        forall|j: int| at < j < end ==> !"tags:"@.is_prefix_of(#[trigger] lines[j]),
    ensures
        frontmatter_of(lines, end).tags == inline_tags(v) + lines.subrange(at + 1, to).map_values(
            |line: Seq<char>| value_of(text::trim_of(line).skip(1)),
        ).filter(|tag: Seq<char>| tag.len() > 0),
        to < end ==> !read_meta(lines, end).listing,
        to == end ==> read_meta(lines, end).listing,
    decreases end,
{
    lemma_keys_differ();
    reveal(Seq::filter);
    let read = |line: Seq<char>| value_of(text::trim_of(line).skip(1));
    let some = |tag: Seq<char>| tag.len() > 0;
    let items = lines.subrange(at + 1, to).map_values(read);
    let last = lines[end - 1];
    if end == at + 1 {
        assert("tags:"@.is_prefix_of(lines[at]));
        assert(lines[at].skip(5) =~= v);
        assert(items =~= Seq::<Seq<char>>::empty());
        assert(inline_tags(v) + items.filter(some) =~= inline_tags(v));
    } else if to == end {
        law_last_tags_count(lines, at, v, to - 1, end - 1);
        assert(is_item(last));
        let front = lines.subrange(at + 1, to - 1).map_values(read);
        assert(items.drop_last() =~= front);
        let rest = text::trim_of(last).skip(1);
        reveal_with_fuel(values_of, 2);
        assert(seq![rest].drop_last() =~= Seq::<Seq<char>>::empty());
        assert(items.last() == value_of(rest));
        assert(inline_tags(v) + front.filter(some) + values_of(seq![rest]) =~= inline_tags(v)
            + items.filter(some));
    } else {
        law_last_tags_count(lines, at, v, to, end - 1);
        assert(!"tags:"@.is_prefix_of(last));
    }
}

/// Without a `tags:` line a file has no tags.
pub proof fn law_no_tags(lines: Seq<Seq<char>>, end: int)
    requires
        end <= lines.len(),
        forall|j: int| 0 < j < end ==> !"tags:"@.is_prefix_of(#[trigger] lines[j]),
    ensures
        frontmatter_of(lines, end).tags.len() == 0,
        !read_meta(lines, end).listing,
    decreases end,
{
    if end > 1 {
        law_no_tags(lines, end - 1);
        assert(!"tags:"@.is_prefix_of(lines[end - 1]));
    }
}

} // verus!
