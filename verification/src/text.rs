//! Operations on texts as sequences of characters: trimming, prefixes and
//! splitting at a separator.

use vstd::prelude::*;
use vstd::slice::*;

verus! {

broadcast use vstd::string::group_string_axioms;

/// `String::push` appends the character.
pub assume_specification[ String::push ](text: &mut String, c: char)
    ensures
        final(text)@ == old(text)@.push(c),
;

/// Whether the character is white space, as Unicode defines it.
pub open spec fn is_whitespace(c: char) -> bool {
    let code = c as u32;
    ||| 0x09 <= code <= 0x0D
    ||| code == 0x20
    ||| code == 0x85
    ||| code == 0xA0
    ||| code == 0x1680
    ||| 0x2000 <= code <= 0x200A
    ||| code == 0x2028
    ||| code == 0x2029
    ||| code == 0x202F
    ||| code == 0x205F
    ||| code == 0x3000
}

/// How many characters of white space the text begins with.
pub open spec fn leading_space(text: Seq<char>) -> int
    decreases text.len(),
{
    if text.len() > 0 && is_whitespace(text[0]) {
        1 + leading_space(text.drop_first())
    } else {
        0
    }
}

/// How many characters of white space the text ends with.
pub open spec fn trailing_space(text: Seq<char>) -> int
    decreases text.len(),
{
    if text.len() > 0 && is_whitespace(text.last()) {
        1 + trailing_space(text.drop_last())
    } else {
        0
    }
}

/// The text without the white space at its start.
pub open spec fn trimmed_start(text: Seq<char>) -> Seq<char> {
    text.subrange(leading_space(text), text.len() as int)
}

/// The text without the white space at its end.
pub open spec fn trimmed_end(text: Seq<char>) -> Seq<char> {
    text.subrange(0, text.len() - trailing_space(text))
}

/// The text without the white space at its start and at its end.
pub open spec fn trimmed(text: Seq<char>) -> Seq<char> {
    trimmed_end(trimmed_start(text))
}

/// Whether the text begins with the prefix.
pub open spec fn has_prefix(text: Seq<char>, prefix: Seq<char>) -> bool {
    prefix.len() <= text.len() && text.subrange(0, prefix.len() as int) == prefix
}

/// The text without the prefix, as often as it begins with it.
pub open spec fn without_prefixes(text: Seq<char>, prefix: Seq<char>) -> Seq<char>
    decreases text.len(),
{
    if prefix.len() > 0 && has_prefix(text, prefix) {
        without_prefixes(text.skip(prefix.len() as int), prefix)
    } else {
        text
    }
}

/// The pieces with `head` put before the first of them.
pub open spec fn prepend(head: Seq<char>, pieces: Seq<Seq<char>>) -> Seq<Seq<char>> {
    seq![head + pieces[0]] + pieces.skip(1)
}

/// The pieces of the text between the occurrences of the separator, which
/// are found from the left and do not overlap. There is always one piece
/// more than there are occurrences.
pub open spec fn split_by(text: Seq<char>, separator: Seq<char>) -> Seq<Seq<char>>
    decreases text.len(),
{
    if text.len() == 0 || separator.len() == 0 {
        seq![text]
    } else if has_prefix(text, separator) {
        seq![Seq::empty()] + split_by(text.skip(separator.len() as int), separator)
    } else {
        prepend(seq![text[0]], split_by(text.drop_first(), separator))
    }
}

/// The views of the pieces, in order.
pub open spec fn pieces_view(pieces: Seq<Vec<char>>) -> Seq<Seq<char>> {
    Seq::new(pieces.len(), |i: int| pieces[i]@)
}

/// Each piece trimmed.
pub open spec fn each_trimmed(pieces: Seq<Seq<char>>) -> Seq<Seq<char>> {
    Seq::new(pieces.len(), |i: int| trimmed(pieces[i]))
}

/// The white space at the start ends where the first other character stands.
pub proof fn lemma_leading_space(text: Seq<char>, n: int)
    requires
        0 <= n <= text.len(),
        forall|j: int| 0 <= j < n ==> is_whitespace(text[j]),
        n < text.len() ==> !is_whitespace(text[n]),
    ensures
        leading_space(text) == n,
    decreases text.len(),
{
    if n > 0 {
        let rest = text.drop_first();
        assert forall|j: int| 0 <= j < n - 1 implies is_whitespace(rest[j]) by {
            assert(rest[j] == text[j + 1]);
        }
        lemma_leading_space(rest, n - 1);
    }
}

/// The white space at the end begins behind the last other character.
pub proof fn lemma_trailing_space(text: Seq<char>, n: int)
    requires
        0 <= n <= text.len(),
        forall|j: int| text.len() - n <= j < text.len() ==> is_whitespace(text[j]),
        n < text.len() ==> !is_whitespace(text[text.len() - n - 1]),
    ensures
        trailing_space(text) == n,
    decreases text.len(),
{
    if n > 0 {
        let rest = text.drop_last();
        assert forall|j: int| rest.len() - (n - 1) <= j < rest.len() implies is_whitespace(
            rest[j],
        ) by {
            assert(rest[j] == text[j]);
        }
        lemma_trailing_space(rest, n - 1);
    }
}

/// A text always splits into at least one piece.
pub proof fn lemma_split_nonempty(text: Seq<char>, separator: Seq<char>)
    ensures
        split_by(text, separator).len() >= 1,
    decreases text.len(),
{
    if text.len() == 0 || separator.len() == 0 {
    } else if has_prefix(text, separator) {
    } else {
        lemma_split_nonempty(text.drop_first(), separator);
    }
}

/// The characters of a text.
pub fn to_chars(text: &str) -> (chars: Vec<char>)
    ensures
        chars@ == text@,
{
    let mut chars: Vec<char> = Vec::new();
    for c in it: text.chars()
        invariant
            it.seq() == text@,
            chars@ == text@.take(it.index()),
    {
        chars.push(c);
        assert(chars@ =~= text@.take(it.index() + 1));
    }
    assert(chars@ =~= text@);
    chars
}

/// The text that the characters make.
pub fn to_text(chars: &[char]) -> (text: String)
    ensures
        text@ == chars@,
{
    let mut text = String::new();
    let mut i: usize = 0;
    while i < chars.len()
        invariant
            i <= chars@.len(),
            text@ == chars@.take(i as int),
        decreases chars.len() - i,
    {
        text.push(chars[i]);
        assert(text@ =~= chars@.take(i + 1));
        i += 1;
    }
    assert(text@ =~= chars@);
    text
}

/// Whether the character is white space.
pub fn char_is_whitespace(c: char) -> (white: bool)
    ensures
        white == is_whitespace(c),
{
    let code = c as u32;
    (0x09 <= code && code <= 0x0D) || code == 0x20 || code == 0x85 || code == 0xA0 || code
        == 0x1680 || (0x2000 <= code && code <= 0x200A) || code == 0x2028 || code == 0x2029
        || code == 0x202F || code == 0x205F || code == 0x3000
}

/// The text without the white space at its start and at its end.
pub fn trim(text: &[char]) -> (result: &[char])
    ensures
        result@ == trimmed(text@),
{
    let mut start: usize = 0;
    while start < text.len() && char_is_whitespace(text[start])
        invariant
            start <= text@.len(),
            forall|j: int| 0 <= j < start ==> is_whitespace(text@[j]),
        decreases text.len() - start,
    {
        start += 1;
    }
    proof {
        lemma_leading_space(text@, start as int);
    }
    let ghost middle = trimmed_start(text@);
    let mut end: usize = text.len();
    while end > start && char_is_whitespace(text[end - 1])
        invariant
            start <= end <= text@.len(),
            forall|j: int| end <= j < text@.len() ==> is_whitespace(text@[j]),
        decreases end,
    {
        end -= 1;
    }
    proof {
        assert forall|j: int| middle.len() - (text@.len() - end) <= j < middle.len() implies is_whitespace(
            middle[j],
        ) by {
            assert(middle[j] == text@[j + start]);
        }
        if text@.len() - end < middle.len() {
            assert(middle[middle.len() - (text@.len() - end) - 1] == text@[end - 1]);
        }
        lemma_trailing_space(middle, text@.len() - end);
        assert(text@.subrange(start as int, end as int) =~= trimmed(text@));
    }
    slice_subrange(text, start, end)
}

/// Whether the text begins with the prefix.
pub fn starts_with(text: &[char], prefix: &[char]) -> (result: bool)
    ensures
        result == has_prefix(text@, prefix@),
{
    if prefix.len() > text.len() {
        return false;
    }
    let mut i: usize = 0;
    while i < prefix.len()
        invariant
            i <= prefix@.len() <= text@.len(),
            forall|j: int| 0 <= j < i ==> text@[j] == prefix@[j],
        decreases prefix.len() - i,
    {
        if text[i] != prefix[i] {
            assert(text@.subrange(0, prefix@.len() as int)[i as int] != prefix@[i as int]);
            return false;
        }
        i += 1;
    }
    assert(text@.subrange(0, prefix@.len() as int) =~= prefix@);
    true
}

/// The text without the prefix, as often as it begins with it.
pub fn trim_start_matches<'a>(text: &'a [char], prefix: &[char]) -> (result: &'a [char])
    ensures
        result@ == without_prefixes(text@, prefix@),
{
    if prefix.len() == 0 {
        return text;
    }
    let mut rest = text;
    while starts_with(rest, prefix)
        invariant
            prefix@.len() > 0,
            without_prefixes(rest@, prefix@) == without_prefixes(text@, prefix@),
        decreases rest@.len(),
    {
        rest = slice_subrange(rest, prefix.len(), rest.len());
    }
    rest
}

/// The pieces of the text between the occurrences of the separator. With
/// an empty separator the text is its own single piece.
pub fn split(text: &[char], separator: &[char]) -> (pieces: Vec<Vec<char>>)
    ensures
        pieces_view(pieces@) == split_by(text@, separator@),
{
    let mut pieces: Vec<Vec<char>> = Vec::new();
    if separator.len() == 0 {
        pieces.push(slice_to_vec(text));
        assert(pieces_view(pieces@) =~= seq![text@]);
        return pieces;
    }
    let mut start: usize = 0;
    let mut i: usize = 0;
    assert(text@.skip(0) =~= text@);
    proof {
        lemma_split_nonempty(text@, separator@);
        assert(prepend(text@.subrange(0, 0), split_by(text@, separator@)) =~= split_by(
            text@,
            separator@,
        ));
    }
    while i < text.len()
        invariant
            start <= i <= text@.len(),
            separator@.len() > 0,
            split_by(text@, separator@) == pieces_view(pieces@) + prepend(
                text@.subrange(start as int, i as int),
                split_by(text@.skip(i as int), separator@),
            ),
        decreases text.len() - i,
    {
        let ghost rest = text@.skip(i as int);
        let ghost before = pieces_view(pieces@);
        let ghost head = text@.subrange(start as int, i as int);
        if starts_with(slice_subrange(text, i, text.len()), separator) {
            let piece = slice_to_vec(slice_subrange(text, start, i));
            pieces.push(piece);
            proof {
                let after = text@.skip(i + separator@.len());
                assert(rest.skip(separator@.len() as int) =~= after);
                lemma_split_nonempty(after, separator@);
                assert(pieces_view(pieces@) =~= before.push(head));
                assert(prepend(head, seq![Seq::<char>::empty()] + split_by(after, separator@))
                    =~= seq![head] + split_by(after, separator@));
                assert(prepend(
                    text@.subrange(i + separator@.len(), i + separator@.len()),
                    split_by(after, separator@),
                ) =~= split_by(after, separator@));
            }
            i += separator.len();
            start = i;
        } else {
            proof {
                let after = text@.skip(i + 1);
                assert(rest.drop_first() =~= after);
                assert(rest[0] == text@[i as int]);
                lemma_split_nonempty(after, separator@);
                assert(prepend(head, prepend(seq![rest[0]], split_by(after, separator@)))
                    =~= prepend(text@.subrange(start as int, i + 1), split_by(after, separator@)))
                    by {
                    assert(head + (seq![rest[0]] + split_by(after, separator@)[0])
                        =~= text@.subrange(start as int, i + 1) + split_by(
                        after,
                        separator@,
                    )[0]);
                }
            }
            i += 1;
        }
    }
    let piece = slice_to_vec(slice_subrange(text, start, i));
    let ghost before = pieces_view(pieces@);
    pieces.push(piece);
    proof {
        let head = text@.subrange(start as int, i as int);
        assert(text@.skip(i as int) =~= Seq::<char>::empty());
        assert(prepend(head, seq![Seq::<char>::empty()]) =~= seq![head]);
        assert(pieces_view(pieces@) =~= before.push(head));
    }
    pieces
}

} // verus!
