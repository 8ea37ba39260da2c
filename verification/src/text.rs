//! Text primitives: equality, case, trimming and splitting.

use vstd::prelude::*;
use vstd::string::*;

verus! {

/// The characters with Unicode's `White_Space` property.
pub open spec fn is_white_space(c: char) -> bool {
    let code = c as u32;
    ||| 0x09 <= code <= 0x0d
    ||| code == 0x20
    ||| code == 0x85
    ||| code == 0xa0
    ||| code == 0x1680
    ||| 0x2000 <= code <= 0x200a
    ||| code == 0x2028
    ||| code == 0x2029
    ||| code == 0x202f
    ||| code == 0x205f
    ||| code == 0x3000
}

/// `text` without its leading white space.
pub open spec fn trimmed_start(text: Seq<char>) -> Seq<char>
    decreases text.len(),
{
    if text.len() > 0 && is_white_space(text.first()) {
        trimmed_start(text.drop_first())
    } else {
        text
    }
}

/// `text` without its trailing white space.
pub open spec fn trimmed_end(text: Seq<char>) -> Seq<char>
    decreases text.len(),
{
    if text.len() > 0 && is_white_space(text.last()) {
        trimmed_end(text.drop_last())
    } else {
        text
    }
}

/// `text` without the white space around it.
pub open spec fn trimmed(text: Seq<char>) -> Seq<char> {
    trimmed_end(trimmed_start(text))
}

/// `str::trim`: removes leading and trailing white space, where white space
/// is what has Unicode's `White_Space` property.
pub assume_specification[ str::trim ](text: &str) -> (result: &str)
    ensures
        result@ == trimmed(text@),
;

/// `String::push`: appends one character.
pub assume_specification[ String::push ](text: &mut String, c: char)
    ensures
        final(text)@ == old(text)@.push(c),
;

/// What the standard library says of bytes that are no UTF-8.
pub uninterp spec fn utf8_error_text(bytes: Seq<u8>) -> Seq<char>;

/// `std::str::from_utf8`: reads bytes as text, where they are valid UTF-8. Its
/// error is handed on as its own text, which depends on the bytes alone; what
/// that text says is left to the name.
#[verifier::external_body]
pub(crate) fn read_utf8(bytes: &[u8]) -> (result: Result<&str, String>)
    ensures
        result is Ok <==> vstd::utf8::valid_utf8(bytes@),
        result matches Ok(text) ==> text@ == vstd::utf8::decode_utf8(bytes@),
        result matches Err(message) ==> message@ == utf8_error_text(bytes@),
{
    std::str::from_utf8(bytes).map_err(|error| error.to_string())
}

/// The characters of `text`.
pub fn chars_of(text: &str) -> (chars: Vec<char>)
    ensures
        chars@ == text@,
{
    let mut chars: Vec<char> = Vec::new();
    for c in iter: text.chars()
        invariant
            iter.seq() == text@,
            chars@ == text@.take(iter.index() as int),
    {
        chars.push(c);
        assert(text@.take(iter.index() + 1) =~= text@.take(iter.index() as int).push(c));
    }
    assert(text@.take(text@.len() as int) =~= text@);
    chars
}

/// Whether two texts hold the same characters.
pub fn text_eq(left: &str, right: &str) -> (same: bool)
    ensures
        same == (left@ == right@),
{
    let lefts = chars_of(left);
    let rights = chars_of(right);
    if lefts.len() != rights.len() {
        return false;
    }
    let mut i: usize = 0;
    while i < lefts.len()
        invariant
            i <= lefts@.len(),
            lefts@ == left@,
            rights@ == right@,
            lefts@.len() == rights@.len(),
            forall|j: int| 0 <= j < i ==> lefts@[j] == rights@[j],
        decreases lefts@.len() - i,
    {
        if lefts[i] != rights[i] {
            return false;
        }
        i += 1;
    }
    assert(left@ =~= right@);
    true
}

/// `c` in lower case where it is an ASCII letter, else `c` itself.
pub open spec fn ascii_lower(c: char) -> char {
    if 'A' <= c <= 'Z' {
        (c as u32 + 32) as char
    } else {
        c
    }
}

/// `c` in upper case where it is an ASCII letter, else `c` itself.
pub open spec fn ascii_upper(c: char) -> char {
    if 'a' <= c <= 'z' {
        (c as u32 - 32) as char
    } else {
        c
    }
}

/// `text` with its ASCII letters in lower case.
pub open spec fn lowered(text: Seq<char>) -> Seq<char> {
    text.map_values(|c: char| ascii_lower(c))
}

/// `text` with its ASCII letters in upper case.
pub open spec fn uppered(text: Seq<char>) -> Seq<char> {
    text.map_values(|c: char| ascii_upper(c))
}

/// Puts one ASCII letter in lower case.
pub fn lower_char(c: char) -> (lower: char)
    ensures
        lower == ascii_lower(c),
{
    if 'A' <= c && c <= 'Z' {
        (c as u8 + 32) as char
    } else {
        c
    }
}

/// Puts one ASCII letter in upper case.
pub fn upper_char(c: char) -> (upper: char)
    ensures
        upper == ascii_upper(c),
{
    if 'a' <= c && c <= 'z' {
        (c as u8 - 32) as char
    } else {
        c
    }
}

/// Puts the ASCII letters of `text` in lower case.
pub fn lower_text(text: &str) -> (lower: String)
    ensures
        lower@ == lowered(text@),
{
    let mut lower = String::new();
    for c in iter: text.chars()
        invariant
            iter.seq() == text@,
            lower@ == lowered(text@.take(iter.index() as int)),
    {
        lower.push(lower_char(c));
        assert(lowered(text@.take(iter.index() + 1)) =~= lowered(
            text@.take(iter.index() as int),
        ).push(ascii_lower(c)));
    }
    assert(text@.take(text@.len() as int) =~= text@);
    lower
}

/// Puts the ASCII letters of `text` in upper case.
pub fn upper_text(text: &str) -> (upper: String)
    ensures
        upper@ == uppered(text@),
{
    let mut upper = String::new();
    for c in iter: text.chars()
        invariant
            iter.seq() == text@,
            upper@ == uppered(text@.take(iter.index() as int)),
    {
        upper.push(upper_char(c));
        assert(uppered(text@.take(iter.index() + 1)) =~= uppered(
            text@.take(iter.index() as int),
        ).push(ascii_upper(c)));
    }
    assert(text@.take(text@.len() as int) =~= text@);
    upper
}

/// Three texts in a row.
pub fn concat3(first: &str, second: &str, third: &str) -> (joined: String)
    ensures
        joined@ == first@ + second@ + third@,
{
    let mut joined = first.to_owned();
    joined.append(second);
    joined.append(third);
    joined
}

/// What `text` holds between its commas, at least one piece.
pub open spec fn comma_pieces(text: Seq<char>) -> Seq<Seq<char>>
    decreases text.len(),
{
    if text.len() == 0 {
        seq![Seq::<char>::empty()]
    } else {
        let before = comma_pieces(text.drop_last());
        if text.last() == ',' {
            before.push(Seq::<char>::empty())
        } else {
            before.drop_last().push(before.last().push(text.last()))
        }
    }
}

/// The comma-separated values of a payload, each without the white space
/// around it.
pub open spec fn csv_values(payload: Seq<char>) -> Seq<Seq<char>> {
    comma_pieces(payload).map_values(|piece: Seq<char>| trimmed(piece))
}

/// A payload has at least one piece.
pub proof fn lemma_comma_pieces_nonempty(text: Seq<char>)
    ensures
        comma_pieces(text).len() > 0,
    decreases text.len(),
{
    if text.len() > 0 {
        lemma_comma_pieces_nonempty(text.drop_last());
    }
}

/// The views of a list of texts.
pub open spec fn text_views(texts: Seq<String>) -> Seq<Seq<char>> {
    texts.map_values(|text: String| text@)
}

/// Splits a payload at its commas and trims every value.
pub fn split_csv(payload: &str) -> (values: Vec<String>)
    ensures
        text_views(values@) == csv_values(payload@),
{
    let mut pieces: Vec<String> = Vec::new();
    let mut piece = String::new();
    for c in iter: payload.chars()
        invariant
            iter.seq() == payload@,
            comma_pieces(payload@.take(iter.index() as int)) == text_views(pieces@).push(piece@),
    {
        let ghost n = iter.index() as int;
        assert(payload@.take(n + 1).drop_last() =~= payload@.take(n));
        assert(payload@.take(n + 1).last() == c);
        let ghost before = pieces@;
        if c == ',' {
            pieces.push(piece);
            piece = String::new();
            assert(text_views(pieces@) =~= text_views(before).push(pieces@.last()@));
        } else {
            let ghost start = piece@;
            piece.push(c);
            assert(text_views(before).push(start).drop_last() =~= text_views(before));
        }
    }
    assert(payload@.take(payload@.len() as int) =~= payload@);
    let ghost before = pieces@;
    pieces.push(piece);
    assert(text_views(pieces@) =~= text_views(before).push(pieces@.last()@));
    assert(text_views(pieces@) == comma_pieces(payload@));
    let mut values: Vec<String> = Vec::new();
    let mut i: usize = 0;
    while i < pieces.len()
        invariant
            i <= pieces@.len(),
            text_views(pieces@) == comma_pieces(payload@),
            values@.len() == i,
            forall|j: int| 0 <= j < i ==> #[trigger] values@[j]@ == trimmed(pieces@[j]@),
        decreases pieces@.len() - i,
    {
        values.push(pieces[i].as_str().trim().to_owned());
        i += 1;
    }
    assert(text_views(values@) =~= csv_values(payload@)) by {
        assert forall|j: int| 0 <= j < values@.len() implies text_views(values@)[j] == csv_values(
            payload@,
        )[j] by {
            assert(values@[j]@ == trimmed(pieces@[j]@));
            assert(text_views(pieces@)[j] == pieces@[j]@);
        }
    }
    values
}

/// Whether `text` ends with `suffix`.
pub open spec fn has_suffix(text: Seq<char>, suffix: Seq<char>) -> bool {
    text.len() >= suffix.len() && text.skip(text.len() - suffix.len()) == suffix
}

/// Whether `text` ends with `suffix`.
pub fn ends_with(text: &str, suffix: &str) -> (ends: bool)
    ensures
        ends == has_suffix(text@, suffix@),
{
    let length = text.unicode_len();
    let suffix_length = suffix.unicode_len();
    if length < suffix_length {
        return false;
    }
    let tail = text.substring_char(length - suffix_length, length);
    assert(tail@ =~= text@.skip(text@.len() - suffix@.len()));
    text_eq(tail, suffix)
}

/// Texts with a comma between each and the next.
pub open spec fn comma_joined(pieces: Seq<Seq<char>>) -> Seq<char>
    decreases pieces.len(),
{
    if pieces.len() <= 1 {
        if pieces.len() == 0 {
            Seq::empty()
        } else {
            pieces[0]
        }
    } else {
        comma_joined(pieces.drop_last()) + seq![','] + pieces.last()
    }
}

proof fn lemma_grown_piece(pieces: Seq<Seq<char>>, c: char)
    requires
        pieces.len() > 0,
    ensures
        comma_joined(pieces.drop_last().push(pieces.last().push(c))) == comma_joined(pieces).push(c),
{
    let grown = pieces.drop_last().push(pieces.last().push(c));
    assert(grown.drop_last() =~= pieces.drop_last());
    if pieces.len() > 1 {
        assert(comma_joined(pieces.drop_last()) + seq![','] + pieces.last().push(c) =~= (
        comma_joined(pieces.drop_last()) + seq![','] + pieces.last()).push(c));
    }
}

/// The pieces of a text hold no comma and give the text back when commas are
/// put between them.
pub proof fn pieces_join_to_the_text(text: Seq<char>)
    ensures
        comma_pieces(text).len() > 0,
        comma_joined(comma_pieces(text)) == text,
        forall|i: int, j: int|
            0 <= i < comma_pieces(text).len() && 0 <= j < comma_pieces(text)[i].len()
                ==> #[trigger] comma_pieces(text)[i][j] != ',',
    decreases text.len(),
{
    lemma_comma_pieces_nonempty(text);
    if text.len() == 0 {
        assert(comma_joined(comma_pieces(text)) =~= text);
    } else {
        let before = comma_pieces(text.drop_last());
        lemma_comma_pieces_nonempty(text.drop_last());
        pieces_join_to_the_text(text.drop_last());
        if text.last() == ',' {
            assert(comma_pieces(text).drop_last() =~= before);
            assert(comma_joined(before) + seq![','] + Seq::<char>::empty() =~= text);
            assert forall|i: int, j: int|
                0 <= i < comma_pieces(text).len() && 0 <= j < comma_pieces(text)[i].len() implies
                #[trigger] comma_pieces(text)[i][j] != ',' by {
                assert(comma_pieces(text)[i] == before[i]);
                assert(before[i][j] != ',');
            }
        } else {
            lemma_grown_piece(before, text.last());
            assert(text.drop_last().push(text.last()) =~= text);
            assert forall|i: int, j: int|
                0 <= i < comma_pieces(text).len() && 0 <= j < comma_pieces(text)[i].len() implies
                #[trigger] comma_pieces(text)[i][j] != ',' by {
                if i < before.len() - 1 || j < before[i].len() {
                    assert(before[i][j] != ',');
                }
            }
        }
    }
}

/// Every value of a payload is what stands between two commas, from its first
/// to its last character that is no white space.
pub proof fn values_stand_between_commas(payload: Seq<char>, i: int)
    requires
        0 <= i < comma_pieces(payload).len(),
    ensures
        csv_values(payload).len() == comma_pieces(payload).len(),
        exists|front: Seq<char>, behind: Seq<char>| #[trigger]
            is_all_white(front) && #[trigger] is_all_white(behind) && comma_pieces(payload)[i]
                == front + csv_values(payload)[i] + behind,
        csv_values(payload)[i].len() > 0 ==> !is_white_space(csv_values(payload)[i].first())
            && !is_white_space(csv_values(payload)[i].last()),
{
    let piece = comma_pieces(payload)[i];
    let start = trimmed_start(piece);
    let value = trimmed(piece);
    let front = lemma_trimmed_start(piece);
    let behind = lemma_trimmed_end(start);
    assert(front + value + behind =~= front + start);
    assert(is_all_white(front) && is_all_white(behind));
}

/// Whether a text is white space only.
pub open spec fn is_all_white(text: Seq<char>) -> bool {
    forall|i: int| 0 <= i < text.len() ==> is_white_space(#[trigger] text[i])
}

proof fn lemma_trimmed_start(text: Seq<char>) -> (front: Seq<char>)
    ensures
        is_all_white(front),
        text == front + trimmed_start(text),
        trimmed_start(text).len() > 0 ==> !is_white_space(trimmed_start(text).first()),
    decreases text.len(),
{
    if text.len() > 0 && is_white_space(text.first()) {
        let rest = lemma_trimmed_start(text.drop_first());
        let front = seq![text.first()] + rest;
        assert forall|i: int| 0 <= i < front.len() implies is_white_space(#[trigger] front[i]) by {
            if i > 0 {
                assert(front[i] == rest[i - 1]);
            }
        }
        assert(text =~= seq![text.first()] + text.drop_first());
        assert(front + trimmed_start(text) =~= seq![text.first()] + (rest + trimmed_start(text)));
        front
    } else {
        assert(text =~= Seq::<char>::empty() + text);
        Seq::empty()
    }
}

proof fn lemma_trimmed_end(text: Seq<char>) -> (behind: Seq<char>)
    ensures
        is_all_white(behind),
        text == trimmed_end(text) + behind,
        trimmed_end(text).len() > 0 ==> !is_white_space(trimmed_end(text).last())
            && trimmed_end(text).first() == text.first(),
    decreases text.len(),
{
    if text.len() > 0 && is_white_space(text.last()) {
        let rest = lemma_trimmed_end(text.drop_last());
        let behind = rest.push(text.last());
        assert forall|i: int| 0 <= i < behind.len() implies is_white_space(#[trigger] behind[i]) by {
            if i < rest.len() {
                assert(behind[i] == rest[i]);
            }
        }
        assert(text =~= text.drop_last().push(text.last()));
        assert(trimmed_end(text) + behind =~= (trimmed_end(text) + rest).push(text.last()));
        behind
    } else {
        assert(text =~= text + Seq::<char>::empty());
        Seq::empty()
    }
}

/// Whether a text spells a word of lower-case letters and digits, in upper or
/// lower case.
pub open spec fn spells(text: Seq<char>, word: Seq<char>) -> bool {
    text.len() == word.len() && forall|i: int|
        0 <= i < word.len() ==> #[trigger] text[i] == word[i] || (97 <= word[i] as int <= 122
            && text[i] as int == word[i] as int - 32)
}

/// Case is told apart by ASCII letters alone: lowering a text gives a word of
/// lower-case letters and digits exactly where the text spells it, and raising
/// it gives the word in capitals.
pub proof fn case_is_that_of_ascii_letters(text: Seq<char>, word: Seq<char>, capitals: Seq<char>)
    requires
        forall|i: int|
            0 <= i < word.len() ==> 97 <= #[trigger] word[i] as int <= 122 || 48 <= word[i] as int
                <= 57,
        capitals.len() == word.len(),
        forall|i: int|
            0 <= i < word.len() ==> #[trigger] capitals[i] as int == (if 97 <= word[i] as int {
                word[i] as int - 32
            } else {
                word[i] as int
            }),
    ensures
        lowered(text) == word <==> spells(text, word),
        uppered(text) == capitals <==> spells(text, word),
{
    if spells(text, word) {
        assert forall|i: int| 0 <= i < word.len() implies lowered(text)[i] == word[i]
            && uppered(text)[i] == capitals[i] by {
            assert(text[i] == word[i] || text[i] as int == word[i] as int - 32);
        }
        assert(lowered(text) =~= word);
        assert(uppered(text) =~= capitals);
    }
    if lowered(text) == word {
        assert forall|i: int| 0 <= i < word.len() implies #[trigger] text[i] == word[i] || (97
            <= word[i] as int <= 122 && text[i] as int == word[i] as int - 32) by {
            assert(lowered(text)[i] == ascii_lower(text[i]));
        }
        assert(text.len() == lowered(text).len());
    }
    if uppered(text) == capitals {
        assert forall|i: int| 0 <= i < word.len() implies #[trigger] text[i] == word[i] || (97
            <= word[i] as int <= 122 && text[i] as int == word[i] as int - 32) by {
            assert(uppered(text)[i] == ascii_upper(text[i]));
            assert(capitals[i] == ascii_upper(text[i]));
        }
        assert(text.len() == uppered(text).len());
    }
}

/// A text ends with a suffix exactly where it is something with the suffix
/// behind it.
pub proof fn suffixes_stand_at_the_end(text: Seq<char>, suffix: Seq<char>)
    ensures
        has_suffix(text, suffix) <==> exists|start: Seq<char>| text == #[trigger] (start + suffix),
{
    if has_suffix(text, suffix) {
        let start = text.take(text.len() - suffix.len());
        assert(text =~= start + suffix);
    }
    if exists|start: Seq<char>| text == #[trigger] (start + suffix) {
        let start = choose|start: Seq<char>| text == #[trigger] (start + suffix);
        assert(text.skip(text.len() - suffix.len()) =~= suffix);
    }
}

/// Trimming leaves nothing exactly where there is nothing but white space.
pub proof fn lemma_trimmed_to_nothing(text: Seq<char>)
    ensures
        trimmed(text).len() == 0 <==> is_all_white(text),
{
    if is_all_white(text) {
        lemma_all_white_start(text);
    } else {
        let i = choose|i: int| 0 <= i < text.len() && !is_white_space(#[trigger] text[i]);
        lemma_start_keeps(text, i);
        let start = trimmed_start(text);
        let k = choose|k: int| 0 <= k < start.len() && !is_white_space(#[trigger] start[k]);
        lemma_end_keeps(start, k);
    }
}

proof fn lemma_start_keeps(text: Seq<char>, i: int)
    requires
        0 <= i < text.len(),
        !is_white_space(text[i]),
    ensures
        exists|k: int|
            0 <= k < trimmed_start(text).len() && !is_white_space(#[trigger] trimmed_start(text)[k]),
    decreases text.len(),
{
    if is_white_space(text.first()) {
        assert(text.drop_first()[i - 1] == text[i]);
        lemma_start_keeps(text.drop_first(), i - 1);
        assert(trimmed_start(text) == trimmed_start(text.drop_first()));
    } else {
        assert(!is_white_space(trimmed_start(text)[i]));
    }
}

proof fn lemma_end_keeps(text: Seq<char>, i: int)
    requires
        0 <= i < text.len(),
        !is_white_space(text[i]),
    ensures
        trimmed_end(text).len() > 0,
    decreases text.len(),
{
    if is_white_space(text.last()) {
        assert(text.drop_last()[i] == text[i]);
        lemma_end_keeps(text.drop_last(), i);
    }
}

proof fn lemma_all_white_start(text: Seq<char>)
    requires
        is_all_white(text),
    ensures
        trimmed_start(text).len() == 0,
    decreases text.len(),
{
    if text.len() > 0 {
        let rest = text.drop_first();
        assert(is_white_space(text[0]));
        assert forall|i: int| 0 <= i < rest.len() implies is_white_space(#[trigger] rest[i]) by {
            assert(rest[i] == text[i + 1]);
        }
        lemma_all_white_start(rest);
    }
}

} // verus!
