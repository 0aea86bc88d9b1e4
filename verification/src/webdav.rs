//! Header values of the WebDAV protocol layer: media types with their
//! parameters, `Accept` lists and the choice of content types they ask for,
//! and entity-tag conditions.

use crate::negotiation::{
    all_compile, ascending, lemma_ascending_rises, negotiate, negotiation, normal_qualities, rank,
    ranked, weighted_view, NegotiationError, Weighted,
};
use crate::pool::{strings_view, CandidatePool};
use crate::quality::{decimal_of, is_decimal, lemma_decimal_of_is_normal, Quality};
use crate::string_map::StringMap;
use crate::text::{
    blank, chars_of, find_in, first_index, free_of, lemma_first_index_after,
    lemma_first_index_none, lemma_trim_padded, split, trim, trim_bounds, word,
};
use vstd::prelude::*;

verus! {

/// The parameters of a media type: its keys are unique, and a key given twice
/// keeps the value given last.
pub type Params = StringMap<String>;

/// The key of the parameter segment `segment`: what stands before its first
/// `=`, trimmed.
pub open spec fn param_key(segment: Seq<char>) -> Seq<char> {
    trim(segment.take(first_index(segment, '=')))
}

/// The value of the parameter segment `segment`: what follows its first `=`,
/// trimmed; empty where it has no `=`.
pub open spec fn param_value(segment: Seq<char>) -> Seq<char> {
    let i = first_index(segment, '=');
    if 0 <= i < segment.len() {
        trim(segment.skip(i + 1))
    } else {
        Seq::empty()
    }
}

/// `params` after each of `segments` was entered in turn, so that of two
/// segments with the same key the later one holds.
pub open spec fn with_segments(
    params: Map<Seq<char>, Seq<char>>,
    segments: Seq<Seq<char>>,
) -> Map<Seq<char>, Seq<char>>
    decreases segments.len(),
{
    if segments.len() == 0 {
        params
    } else {
        with_segments(
            params.insert(param_key(segments[0]), param_value(segments[0])),
            segments.drop_first(),
        )
    }
}

/// The base of the header value `text`: what stands before its first `;`,
/// trimmed.
pub open spec fn media_base(text: Seq<char>) -> Seq<char> {
    let t = trim(text);
    trim(t.take(first_index(t, ';')))
}

/// The parameters of the header value `text`: one for each `;`-separated
/// segment after its first `;`, none where it has no `;`.
pub open spec fn media_params(text: Seq<char>) -> Map<Seq<char>, Seq<char>> {
    let t = trim(text);
    let i = first_index(t, ';');
    if 0 <= i < t.len() {
        with_segments(Map::empty(), split(t.skip(i + 1), ';'))
    } else {
        Map::empty()
    }
}

/// The whitespace round the key and round the value of a parameter.
pub struct Padding {
    pub before_key: Seq<char>,
    pub after_key: Seq<char>,
    pub before_value: Seq<char>,
    pub after_value: Seq<char>,
}

impl Padding {
    /// Whether all four stretches hold whitespace only.
    pub open spec fn is_blank(self) -> bool {
        blank(self.before_key) && blank(self.after_key) && blank(self.before_value) && blank(
            self.after_value,
        )
    }
}

/// The segment that gives `key` the value `value`, laid out with `padding`.
pub open spec fn parameter_segment(key: Seq<char>, value: Seq<char>, padding: Padding) -> Seq<
    char,
> {
    padding.before_key + key + padding.after_key + seq!['='] + padding.before_value + value
        + padding.after_value
}

/// Whether `s` can stand as the key of a parameter: a word without `;` and
/// `=`.
pub open spec fn key_word(s: Seq<char>) -> bool {
    word(s) && free_of(s, ';') && free_of(s, '=')
}

/// Whether `s` can stand as a base or as the value of a parameter: a word
/// without `;`.
pub open spec fn value_word(s: Seq<char>) -> bool {
    word(s) && free_of(s, ';')
}

/// A parameter segment gives back its key and its value, whatever whitespace
/// stands round them.
pub proof fn lemma_parameter_segment(key: Seq<char>, value: Seq<char>, padding: Padding)
    requires
        key_word(key),
        value_word(value),
        padding.is_blank(),
    ensures
        param_key(parameter_segment(key, value, padding)) == key,
        param_value(parameter_segment(key, value, padding)) == value,
        free_of(parameter_segment(key, value, padding), ';'),
{
    let segment = parameter_segment(key, value, padding);
    let left = padding.before_key + key + padding.after_key;
    let right = padding.before_value + value + padding.after_value;
    assert(segment =~= left + seq!['='] + right);
    assert(free_of(left, '=')) by {
        assert forall|i: int| 0 <= i < left.len() implies #[trigger] left[i] != '=' by {
            if i < padding.before_key.len() {
                assert(left[i] == padding.before_key[i]);
            } else if i < padding.before_key.len() + key.len() {
                assert(left[i] == key[i - padding.before_key.len()]);
            } else {
                assert(left[i] == padding.after_key[i - padding.before_key.len() - key.len()]);
            }
        }
    }
    lemma_first_index_after(left, '=', right);
    lemma_trim_padded(padding.before_key, key, padding.after_key);
    lemma_trim_padded(padding.before_value, value, padding.after_value);
    assert forall|i: int| 0 <= i < segment.len() implies #[trigger] segment[i] != ';' by {
        if i < left.len() {
            assert(segment[i] == left[i]);
            if i < padding.before_key.len() {
                assert(left[i] == padding.before_key[i]);
            } else if i < padding.before_key.len() + key.len() {
                assert(left[i] == key[i - padding.before_key.len()]);
            } else {
                assert(left[i] == padding.after_key[i - padding.before_key.len() - key.len()]);
            }
        } else if i > left.len() {
            let j = i - left.len() - 1;
            assert(segment[i] == right[j]);
            if j < padding.before_value.len() {
                assert(right[j] == padding.before_value[j]);
            } else if j < padding.before_value.len() + value.len() {
                assert(right[j] == value[j - padding.before_value.len()]);
            } else {
                assert(right[j] == padding.after_value[j - padding.before_value.len()
                    - value.len()]);
            }
        }
    }
}

/// A header value that is laid out as a base and two parameters, each after a
/// `;`, has that base, and the two parameters and no others, whatever
/// whitespace stands round the base, the keys and the values.
pub proof fn lemma_media_value_with_two_parameters(
    lead: Seq<char>,
    base: Seq<char>,
    gap: Seq<char>,
    first: (Seq<char>, Seq<char>, Padding),
    second: (Seq<char>, Seq<char>, Padding),
)
    requires
        blank(lead),
        blank(gap),
        value_word(base),
        key_word(first.0),
        value_word(first.1),
        first.2.is_blank(),
        key_word(second.0),
        value_word(second.1),
        second.2.is_blank(),
    ensures
        ({
            let text = lead + base + gap + seq![';'] + parameter_segment(first.0, first.1, first.2)
                + seq![';'] + parameter_segment(second.0, second.1, second.2);
            &&& media_base(text) == base
            &&& media_params(text) == Map::<Seq<char>, Seq<char>>::empty().insert(
                first.0,
                first.1,
            ).insert(second.0, second.1)
        }),
{
    let s1 = parameter_segment(first.0, first.1, first.2);
    let s2 = parameter_segment(second.0, second.1, second.2);
    let text = lead + base + gap + seq![';'] + s1 + seq![';'] + s2;
    let trail = second.2.after_value;
    let inner = Padding { after_value: Seq::empty(), ..second.2 };
    let s2_inner = parameter_segment(second.0, second.1, inner);
    let head = base + gap;
    let rest = s1 + seq![';'] + s2_inner;
    let tight = head + seq![';'] + rest;
    assert(s2 =~= s2_inner + trail);
    assert(text =~= lead + tight + trail);
    assert(tight[0] == base[0]);
    assert(tight.last() == second.1.last());
    lemma_trim_padded(lead, tight, trail);
    assert forall|i: int| 0 <= i < head.len() implies #[trigger] head[i] != ';' by {
        if i < base.len() {
            assert(head[i] == base[i]);
        } else {
            assert(head[i] == gap[i - base.len()]);
        }
    }
    lemma_first_index_after(head, ';', rest);
    assert(head =~= Seq::<char>::empty() + base + gap);
    lemma_trim_padded(Seq::empty(), base, gap);
    lemma_parameter_segment(first.0, first.1, first.2);
    lemma_parameter_segment(second.0, second.1, inner);
    lemma_first_index_after(s1, ';', s2_inner);
    lemma_first_index_none(s2_inner, ';');
    let segments = split(rest, ';');
    assert(split(s2_inner, ';') == seq![s2_inner]);
    assert(segments == seq![s1] + seq![s2_inner]);
    let none = Map::<Seq<char>, Seq<char>>::empty();
    let one = none.insert(first.0, first.1);
    let two = one.insert(second.0, second.1);
    assert(segments.drop_first() =~= seq![s2_inner]);
    assert(segments.drop_first().drop_first() =~= Seq::<Seq<char>>::empty());
    assert(with_segments(two, segments.drop_first().drop_first()) == two);
    assert(with_segments(one, segments.drop_first()) == two);
    assert(with_segments(none, segments) == two);
}

/// Parses a content-type style header value into its base and parameters.
pub fn parse_type(content_type: &str) -> (parsed: (String, Params))
    ensures
        parsed.0@ == media_base(content_type@),
        parsed.1@ == media_params(content_type@),
{
    let chars = chars_of(content_type);
    let mut params: Params = StringMap::new();
    let (from, to) = trim_bounds(&chars, 0, chars.len());
    assert(chars@.subrange(0, chars.len() as int) == content_type@);
    let ghost t = chars@.subrange(from as int, to as int);
    let semi = find_in(&chars, from, to, ';');
    let (base_from, base_to) = trim_bounds(&chars, from, semi);
    assert(chars@.subrange(from as int, semi as int) == t.take(semi - from));
    let base = content_type.substring_char(base_from, base_to).to_owned();
    if semi < to {
        let ghost rest = t.skip(semi - from + 1);
        assert(rest == chars@.subrange(semi + 1, to as int));
        let mut start: usize = semi + 1;
        let mut done = false;
        while !done
            invariant
                chars@ == content_type@,
                semi < start <= to <= chars.len(),
                media_params(content_type@) == with_segments(Map::empty(), split(rest, ';')),
                !done ==> with_segments(params@, split(chars@.subrange(start as int, to as int), ';'))
                    == with_segments(Map::empty(), split(rest, ';')),
                done ==> params@ == with_segments(Map::empty(), split(rest, ';')),
            decreases to - start + (if done { 0int } else { 1int }),
        {
            let ghost tail = chars@.subrange(start as int, to as int);
            let end = find_in(&chars, start, to, ';');
            let ghost segment = chars@.subrange(start as int, end as int);
            let eq = find_in(&chars, start, end, '=');
            let (key_from, key_to) = trim_bounds(&chars, start, eq);
            let key = content_type.substring_char(key_from, key_to).to_owned();
            assert(chars@.subrange(start as int, eq as int) == segment.take(eq - start));
            let value = if eq < end {
                let (value_from, value_to) = trim_bounds(&chars, eq + 1, end);
                assert(chars@.subrange(eq + 1, end as int) == segment.skip(eq - start + 1));
                content_type.substring_char(value_from, value_to).to_owned()
            } else {
                String::new()
            };
            assert(key@ == param_key(segment));
            assert(value@ == param_value(segment));
            assert(segment == tail.take(end - start));
            proof {
                let pieces = split(tail, ';');
                if end < to {
                    assert(tail.skip(end - start + 1) == chars@.subrange(end + 1, to as int));
                    assert(pieces == seq![segment] + split(tail.skip(end - start + 1), ';'));
                    assert(pieces.drop_first() == split(tail.skip(end - start + 1), ';'));
                } else {
                    assert(pieces == seq![tail]);
                    assert(pieces.drop_first() == Seq::<Seq<char>>::empty());
                    assert(with_segments(params@.insert(key@, value@), Seq::empty())
                        == params@.insert(key@, value@));
                }
                assert(pieces[0] == segment);
            }
            params.insert(key, value);
            if end < to {
                start = end + 1;
            } else {
                done = true;
            }
        }
    }
    (base, params)
}

/// A parsed header value as contracts see it: the characters of its base and
/// its parameters.
pub type MediaValue = (Seq<char>, Map<Seq<char>, Seq<char>>);

/// What `entries` hold, entry by entry.
pub open spec fn entries_view(entries: Seq<(String, Params)>) -> Seq<MediaValue> {
    entries.map_values(|entry: (String, Params)| (entry.0@, entry.1@))
}

/// The header values that `segments` hold, in order: one for each segment
/// that is not empty.
pub open spec fn accept_entries(segments: Seq<Seq<char>>) -> Seq<MediaValue>
    decreases segments.len(),
{
    if segments.len() == 0 {
        Seq::empty()
    } else if segments[0].len() == 0 {
        accept_entries(segments.drop_first())
    } else {
        seq![(media_base(segments[0]), media_params(segments[0]))] + accept_entries(
            segments.drop_first(),
        )
    }
}

/// The header values of the `Accept` style list `text`: one for each of its
/// `,`-separated segments that is not empty.
pub open spec fn accept_list(text: Seq<char>) -> Seq<MediaValue> {
    accept_entries(split(text, ','))
}

/// Parses an `Accept` or `Accept-Language` header into its entries, in the
/// order in which the header gives them.
pub fn parse_accept_header(accept: &str) -> (entries: Vec<(String, Params)>)
    ensures
        entries_view(entries@) == accept_list(accept@),
{
    let chars = chars_of(accept);
    let mut entries: Vec<(String, Params)> = Vec::new();
    let to = chars.len();
    let mut start: usize = 0;
    let mut done = false;
    assert(chars@.subrange(0, to as int) == accept@);
    while !done
        invariant
            chars@ == accept@,
            to == chars.len(),
            start <= to,
            !done ==> entries_view(entries@) + accept_entries(
                split(chars@.subrange(start as int, to as int), ','),
            ) == accept_list(accept@),
            done ==> entries_view(entries@) == accept_list(accept@),
        decreases to - start + (if done { 0int } else { 1int }),
    {
        let ghost tail = chars@.subrange(start as int, to as int);
        let ghost before = entries@;
        let end = find_in(&chars, start, to, ',');
        let ghost segment = chars@.subrange(start as int, end as int);
        assert(segment == tail.take(end - start));
        proof {
            let pieces = split(tail, ',');
            if end < to {
                assert(tail.skip(end - start + 1) == chars@.subrange(end + 1, to as int));
                assert(pieces == seq![segment] + split(tail.skip(end - start + 1), ','));
                assert(pieces.drop_first() == split(tail.skip(end - start + 1), ','));
            } else {
                assert(pieces == seq![tail]);
                assert(pieces.drop_first() == Seq::<Seq<char>>::empty());
                assert(accept_entries(pieces.drop_first()) == Seq::<MediaValue>::empty());
            }
            assert(pieces[0] == segment);
        }
        if start < end {
            let parsed = parse_type(accept.substring_char(start, end));
            entries.push(parsed);
            assert(entries_view(entries@) == entries_view(before) + seq![
                (media_base(segment), media_params(segment)),
            ]);
        }
        if end < to {
            start = end + 1;
        } else {
            done = true;
        }
    }
    entries
}

/// The text of the quality of `entry`: its parameter `q`, or `1` where it has
/// none.
pub open spec fn quality_text(entry: MediaValue) -> Seq<char> {
    if entry.1.dom().contains(seq!['q']) {
        entry.1[seq!['q']]
    } else {
        seq!['1']
    }
}

/// Whether the quality of every entry of `accepted` is a decimal number.
pub open spec fn qualities_well_formed(accepted: Seq<MediaValue>) -> bool {
    forall|i: int| 0 <= i < accepted.len() ==> is_decimal(quality_text(#[trigger] accepted[i]))
}

/// The entries of `accepted` whose quality is greater than zero, each with
/// its quality, in the order of `accepted`.
pub open spec fn weighted(accepted: Seq<MediaValue>) -> Seq<Weighted>
    decreases accepted.len(),
{
    if accepted.len() == 0 {
        Seq::empty()
    } else {
        let quality = decimal_of(quality_text(accepted.last()));
        if quality.is_positive() {
            weighted(accepted.drop_last()).push((accepted.last().0, quality))
        } else {
            weighted(accepted.drop_last())
        }
    }
}

/// The patterns of `accepted` that take part, in the order in which they are
/// tried.
pub open spec fn ranking(accepted: Seq<MediaValue>) -> Seq<Seq<char>> {
    ranked(weighted(accepted))
}

/// The entries that take part have qualities in normal form, where all
/// qualities are decimal numbers.
pub proof fn lemma_weighted_normal(accepted: Seq<MediaValue>)
    requires
        qualities_well_formed(accepted),
    ensures
        normal_qualities(weighted(accepted)),
    decreases accepted.len(),
{
    if accepted.len() > 0 {
        let init = accepted.drop_last();
        assert forall|i: int| 0 <= i < init.len() implies is_decimal(
            quality_text(#[trigger] init[i]),
        ) by {
            assert(init[i] == accepted[i]);
        }
        lemma_weighted_normal(init);
        assert(is_decimal(quality_text(accepted[accepted.len() - 1])));
        lemma_decimal_of_is_normal(quality_text(accepted.last()));
        let w = weighted(accepted);
        assert forall|i: int| 0 <= i < w.len() implies (#[trigger] w[i]).1.is_normal() by {
            if i < weighted(init).len() {
                assert(w[i] == weighted(init)[i]);
            }
        }
    }
}

/// Patterns are tried by descending quality: turned round, the ascending
/// order never lets the quality rise from one entry to a later one.
pub proof fn lemma_ranking_descends(accepted: Seq<MediaValue>)
    requires
        qualities_well_formed(accepted),
    ensures
        ({
            let order = ascending(weighted(accepted)).reverse();
            forall|i: int, j: int|
                0 <= i < j < order.len() ==> !(#[trigger] order[i]).1.magnitude_lt(
                    (#[trigger] order[j]).1,
                )
        }),
{
    lemma_weighted_normal(accepted);
    lemma_ascending_rises(weighted(accepted));
    let sorted = ascending(weighted(accepted));
    let order = sorted.reverse();
    assert forall|i: int, j: int| 0 <= i < j < order.len() implies !(#[trigger] order[i]).1.magnitude_lt(
        (#[trigger] order[j]).1,
    ) by {
        assert(order[i] == sorted[sorted.len() - 1 - i]);
        assert(order[j] == sorted[sorted.len() - 1 - j]);
    }
}

/// An entry whose quality is not greater than zero takes no part: the
/// patterns are tried as if the entry were not there.
pub proof fn lemma_unweighted_entry_takes_no_part(accepted: Seq<MediaValue>, i: int)
    requires
        0 <= i < accepted.len(),
        !decimal_of(quality_text(accepted[i])).is_positive(),
    ensures
        weighted(accepted.remove(i)) == weighted(accepted),
        ranking(accepted.remove(i)) == ranking(accepted),
    decreases accepted.len(),
{
    if i == accepted.len() - 1 {
        assert(accepted.remove(i) == accepted.drop_last());
    } else {
        let shorter = accepted.remove(i);
        assert(shorter.drop_last() == accepted.drop_last().remove(i));
        assert(shorter.last() == accepted.last());
        assert(accepted.drop_last()[i] == accepted[i]);
        lemma_unweighted_entry_takes_no_part(accepted.drop_last(), i);
    }
}

/// What a negotiation offers never comes from an entry whose quality is not
/// greater than zero: with or without such an entry the same content types
/// are offered, in the same order.
pub proof fn lemma_unweighted_entry_offers_nothing(
    accepted: Seq<MediaValue>,
    i: int,
    pool: Set<Seq<char>>,
)
    requires
        0 <= i < accepted.len(),
        !decimal_of(quality_text(accepted[i])).is_positive(),
    ensures
        negotiation(ranking(accepted.remove(i)), pool) == negotiation(ranking(accepted), pool),
{
    lemma_unweighted_entry_takes_no_part(accepted, i);
}

/// Weighs the entries of `accepted`: gives each its quality, and leaves out
/// those whose quality is not greater than zero. Fails where the quality of an
/// entry, whether it would take part or not, is not a decimal number.
pub fn weigh(accepted: &Vec<(String, Params)>) -> (r: Result<
    Vec<(String, Quality)>,
    NegotiationError,
>)
    ensures
        match r {
            Ok(entries) => {
                &&& qualities_well_formed(entries_view(accepted@))
                &&& weighted_view(entries@) == weighted(entries_view(accepted@))
            },
            Err(e) => {
                &&& e == NegotiationError::MalformedQuality
                &&& !qualities_well_formed(entries_view(accepted@))
            },
        },
{
    let ghost all = entries_view(accepted@);
    let mut entries: Vec<(String, Quality)> = Vec::new();
    let mut i: usize = 0;
    assert(all.take(0) == Seq::<MediaValue>::empty());
    while i < accepted.len()
        invariant
            i <= accepted.len(),
            all == entries_view(accepted@),
            forall|j: int| 0 <= j < i ==> is_decimal(quality_text(#[trigger] all[j])),
            weighted_view(entries@) == weighted(all.take(i as int)),
        decreases accepted.len() - i,
    {
        let ghost before = weighted_view(entries@);
        proof {
            reveal_strlit("q");
            reveal_strlit("1");
            assert("q"@ =~= seq!['q']);
            assert("1"@ =~= seq!['1']);
            assert(all[i as int] == (accepted@[i as int].0@, accepted@[i as int].1@));
            assert(all.take(i + 1).drop_last() == all.take(i as int));
            assert(all.take(i + 1).last() == all[i as int]);
        }
        let parsed = match accepted[i].1.get("q") {
            Some(text) => Quality::parse(text.as_str()),
            None => Quality::parse("1"),
        };
        match parsed {
            Some(quality) => {
                if quality.is_positive() {
                    entries.push((accepted[i].0.clone(), quality));
                    assert(weighted_view(entries@) == before.push(
                        (all[i as int].0, decimal_of(quality_text(all[i as int]))),
                    ));
                }
            },
            None => {
                return Err(NegotiationError::MalformedQuality);
            },
        }
        i = i + 1;
    }
    assert(all.take(accepted.len() as int) == all);
    Ok(entries)
}

/// Picks the content types to offer a client, in the order of its preference.
///
/// `accepted` are the entries of its `Accept` header and `available` what the
/// server can offer. Entries whose quality is not greater than zero take no
/// part. The others are tried by descending quality, of equal ones the later
/// first; each yields the candidates that its pattern matches among those not
/// offered yet, in ascending order. Where nothing is offered, nothing that
/// the server has is acceptable to the client.
pub fn pick_content_types(accepted: Vec<(String, Params)>, available: CandidatePool) -> (r: Result<
    Vec<String>,
    NegotiationError,
>)
    ensures
        match r {
            Ok(offered) => {
                &&& qualities_well_formed(entries_view(accepted@))
                &&& all_compile(ranking(entries_view(accepted@)))
                &&& strings_view(offered@) == negotiation(
                    ranking(entries_view(accepted@)),
                    available@,
                )
            },
            Err(NegotiationError::MalformedQuality) => !qualities_well_formed(
                entries_view(accepted@),
            ),
            Err(NegotiationError::InvalidPattern) => {
                &&& qualities_well_formed(entries_view(accepted@))
                &&& !all_compile(ranking(entries_view(accepted@)))
            },
        },
{
    let entries = match weigh(&accepted) {
        Ok(entries) => entries,
        Err(e) => {
            return Err(e);
        },
    };
    let patterns = rank(&entries);
    negotiate(patterns, available)
}

/// Whether `tag` is a weak entity tag: one that starts with `W/`.
pub open spec fn weak_tag(tag: Seq<char>) -> bool {
    tag.len() >= 2 && tag[0] == 'W' && tag[1] == '/'
}

/// Whether the member `segment` of a condition admits the entity tag
/// `actual`. `*` admits every tag. Any other member admits the tag that is
/// equal to it character by character, unless that tag is weak: tags are
/// compared strongly.
pub open spec fn segment_admits(segment: Seq<char>, actual: Seq<char>) -> bool {
    let member = trim(segment);
    member == seq!['*'] || (member == actual && !weak_tag(actual))
}

/// Whether one of `segments` admits `actual`.
pub open spec fn tag_listed(segments: Seq<Seq<char>>, actual: Seq<char>) -> bool {
    exists|i: int| 0 <= i < segments.len() && segment_admits(#[trigger] segments[i], actual)
}

/// Whether a resource whose entity tag is `actual` (`None`: it has none)
/// meets the condition `condition` (`None`: there is none). No condition is
/// met by all; a condition is met by no resource without a tag, and by one
/// with a tag where a member of its `,`-separated list admits the tag.
pub open spec fn condition_holds(condition: Option<Seq<char>>, actual: Option<Seq<char>>) -> bool {
    match condition {
        None => true,
        Some(list) => match actual {
            None => false,
            Some(tag) => tag_listed(split(list, ','), tag),
        },
    }
}

/// Whether `chars[from..to]` is `other`.
fn range_is(chars: &Vec<char>, from: usize, to: usize, other: &Vec<char>) -> (r: bool)
    requires
        from <= to <= chars.len(),
    ensures
        r == (chars@.subrange(from as int, to as int) == other@),
{
    let ghost part = chars@.subrange(from as int, to as int);
    if to - from != other.len() {
        return false;
    }
    let mut i: usize = 0;
    while i < other.len()
        invariant
            from <= to <= chars.len(),
            to - from == other.len(),
            i <= other.len(),
            part == chars@.subrange(from as int, to as int),
            forall|j: int| 0 <= j < i ==> part[j] == other@[j],
        decreases other.len() - i,
    {
        if chars[from + i] != other[i] {
            assert(part[i as int] != other@[i as int]);
            return false;
        }
        i = i + 1;
    }
    assert(part =~= other@);
    true
}

/// Whether an entity tag meets an `If-Match` style condition.
///
/// `condition` is `*`, or a list such as `"foo", "bar"`; `None` where the
/// request has no condition. `actual_etag` is the tag of the resource; `None`
/// where the resource does not exist.
#[verifier::loop_isolation(false)]
pub fn etag_matches(condition: Option<&str>, actual_etag: Option<&str>) -> (r: bool)
    ensures
        r == condition_holds(
            match condition {
                Some(list) => Some(list@),
                None => None,
            },
            match actual_etag {
                Some(tag) => Some(tag@),
                None => None,
            },
        ),
        condition is None ==> r,
        condition is Some && actual_etag is None ==> !r,
{
    let list = match condition {
        Some(list) => list,
        None => {
            return true;
        },
    };
    let tag = match actual_etag {
        Some(tag) => chars_of(tag),
        None => {
            return false;
        },
    };
    let weak = tag.len() >= 2 && tag[0] == 'W' && tag[1] == '/';
    let chars = chars_of(list);
    let to = chars.len();
    let mut start: usize = 0;
    assert(chars@.subrange(0, to as int) == list@);
    loop
        invariant
            chars@ == list@,
            to == chars.len(),
            start <= to,
            weak == weak_tag(tag@),
            tag_listed(split(list@, ','), tag@) == tag_listed(
                split(chars@.subrange(start as int, to as int), ','),
                tag@,
            ),
        decreases to - start,
    {
        let ghost tail = chars@.subrange(start as int, to as int);
        let end = find_in(&chars, start, to, ',');
        let ghost segment = chars@.subrange(start as int, end as int);
        let ghost pieces = split(tail, ',');
        assert(segment == tail.take(end - start));
        proof {
            if end < to {
                assert(tail.skip(end - start + 1) == chars@.subrange(end + 1, to as int));
                assert(pieces == seq![segment] + split(tail.skip(end - start + 1), ','));
            } else {
                assert(pieces == seq![tail]);
            }
            assert(pieces[0] == segment);
        }
        let (from, upto) = trim_bounds(&chars, start, end);
        let star = upto - from == 1 && chars[from] == '*';
        assert(star == (trim(segment) == seq!['*'])) by {
            let member = chars@.subrange(from as int, upto as int);
            if star {
                assert(member =~= seq!['*']);
            } else if member == seq!['*'] {
                assert(seq!['*'].len() == 1 && seq!['*'][0] == '*');
                assert(member.len() == 1);
                assert(member[0] == chars@[from as int]);
            }
        }
        if star || (!weak && range_is(&chars, from, upto, &tag)) {
            return true;
        }
        if end == to {
            assert(!tag_listed(pieces, tag@));
            return false;
        }
        proof {
            let later = split(tail.skip(end - start + 1), ',');
            if tag_listed(pieces, tag@) {
                let i = choose|i: int|
                    0 <= i < pieces.len() && segment_admits(#[trigger] pieces[i], tag@);
                assert(later[i - 1] == pieces[i]);
            }
            if tag_listed(later, tag@) {
                let i = choose|i: int|
                    0 <= i < later.len() && segment_admits(#[trigger] later[i], tag@);
                assert(pieces[i + 1] == later[i]);
            }
        }
        start = end + 1;
    }
}

} // verus!
