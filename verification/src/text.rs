//! Text primitives: trimming, searching, decimal numerals and joining.
use vstd::prelude::*;
use vstd::string::*;

verus! {

/// The characters with the Unicode property `White_Space`.
pub open spec fn white_space(c: char) -> bool {
    ||| '\u{9}' <= c <= '\u{d}'
    ||| c == '\u{20}'
    ||| c == '\u{85}'
    ||| c == '\u{a0}'
    ||| c == '\u{1680}'
    ||| '\u{2000}' <= c <= '\u{200a}'
    ||| c == '\u{2028}'
    ||| c == '\u{2029}'
    ||| c == '\u{202f}'
    ||| c == '\u{205f}'
    ||| c == '\u{3000}'
}

/// Whether `c` has the Unicode property `White_Space`.
pub fn is_white_space(c: char) -> (r: bool)
    ensures
        r == white_space(c),
{
    ('\u{9}' <= c && c <= '\u{d}') || c == '\u{20}' || c == '\u{85}' || c == '\u{a0}' || c
        == '\u{1680}' || ('\u{2000}' <= c && c <= '\u{200a}') || c == '\u{2028}' || c == '\u{2029}'
        || c == '\u{202f}' || c == '\u{205f}' || c == '\u{3000}'
}

/// `text` without its leading white space.
pub open spec fn trimmed_start(text: Seq<char>) -> Seq<char>
    decreases text.len(),
{
    if text.len() > 0 && white_space(text.first()) {
        trimmed_start(text.drop_first())
    } else {
        text
    }
}

/// `text` without its trailing white space.
pub open spec fn trimmed_end(text: Seq<char>) -> Seq<char>
    decreases text.len(),
{
    if text.len() > 0 && white_space(text.last()) {
        trimmed_end(text.drop_last())
    } else {
        text
    }
}

/// `text` without leading and trailing white space.
pub open spec fn trimmed(text: Seq<char>) -> Seq<char> {
    trimmed_end(trimmed_start(text))
}

/// The characters of `text` as a vector.
pub fn chars_of(text: &str) -> (r: Vec<char>)
    ensures
        r@ == text@,
{
    let mut chars: Vec<char> = Vec::new();
    for c in iter: text.chars()
        invariant
            chars@ == iter.seq().take(iter.index()),
            iter.seq() == text@,
    {
        chars.push(c);
    }
    chars
}

/// `text` without leading and trailing white space.
pub fn trim(text: &str) -> (r: &str)
    ensures
        r@ == trimmed(text@),
{
    let chars = chars_of(text);
    let mut start: usize = 0;
    assert(text@.skip(0) =~= text@);
    while start < chars.len() && is_white_space(chars[start])
        invariant
            start <= chars.len(),
            chars@ == text@,
            trimmed_start(text@) == trimmed_start(text@.skip(start as int)),
        decreases chars.len() - start,
    {
        proof {
            assert(text@.skip(start as int).drop_first() =~= text@.skip(start + 1));
        }
        start += 1;
    }
    let ghost front = text@.skip(start as int);
    assert(trimmed_start(text@) == front);
    let mut end: usize = chars.len();
    assert(front =~= text@.subrange(start as int, end as int));
    while start < end && is_white_space(chars[end - 1])
        invariant
            start <= end <= chars.len(),
            chars@ == text@,
            trimmed_end(front) == trimmed_end(text@.subrange(start as int, end as int)),
        decreases end,
    {
        proof {
            assert(text@.subrange(start as int, end as int).drop_last() =~= text@.subrange(
                start as int,
                end - 1,
            ));
        }
        end -= 1;
    }
    text.substring_char(start, end)
}

/// Trimming a text twice is trimming it once.
pub proof fn lemma_trimmed_idempotent(text: Seq<char>)
    ensures
        trimmed(trimmed(text)) == trimmed(text),
{
    lemma_trimmed_ends(text);
}

/// A trimmed text neither starts nor ends with white space.
pub proof fn lemma_trimmed_ends(text: Seq<char>)
    ensures
        trimmed(text).len() > 0 ==> !white_space(trimmed(text).first()) && !white_space(
            trimmed(text).last(),
        ),
{
    lemma_trimmed_start(text);
    lemma_trimmed_end(trimmed_start(text));
}

proof fn lemma_trimmed_start(text: Seq<char>)
    ensures
        trimmed_start(text).len() > 0 ==> !white_space(trimmed_start(text).first()),
    decreases text.len(),
{
    if text.len() > 0 && white_space(text.first()) {
        lemma_trimmed_start(text.drop_first());
    }
}

proof fn lemma_trimmed_end(text: Seq<char>)
    ensures
        trimmed_end(text).len() <= text.len(),
        trimmed_end(text).len() > 0 ==> {
            &&& !white_space(trimmed_end(text).last())
            &&& trimmed_end(text).first() == text.first()
        },
    decreases text.len(),
{
    if text.len() > 0 && white_space(text.last()) {
        lemma_trimmed_end(text.drop_last());
    }
}

/// A text that starts with something other than white space is not blank.
pub proof fn lemma_trimmed_not_blank(text: Seq<char>)
    requires
        text.len() > 0,
        !white_space(text.first()),
    ensures
        trimmed(text).len() > 0,
    decreases text.len(),
{
    if white_space(text.last()) {
        lemma_trimmed_not_blank(text.drop_last());
    }
}

/// Whether two texts hold the same characters.
pub fn same_text(a: &str, b: &str) -> (r: bool)
    ensures
        r == (a@ == b@),
{
    a.to_owned() == b.to_owned()
}

/// Whether `text` holds `pattern` from position `at` on.
pub open spec fn occurs_at(text: Seq<char>, pattern: Seq<char>, at: int) -> bool {
    0 <= at <= text.len() - pattern.len() && text.subrange(at, at + pattern.len()) == pattern
}

/// Whether `pattern` occurs somewhere in `text`.
pub open spec fn occurs_in(text: Seq<char>, pattern: Seq<char>) -> bool {
    exists|at: int| occurs_at(text, pattern, at)
}

/// How often `pattern` occurs in `text`, counted from the left without overlaps.
pub open spec fn occurrences(text: Seq<char>, pattern: Seq<char>) -> nat
    decreases text.len(),
{
    if pattern.len() == 0 || text.len() < pattern.len() {
        0
    } else if text.take(pattern.len() as int) == pattern {
        1 + occurrences(text.skip(pattern.len() as int), pattern)
    } else {
        occurrences(text.skip(1), pattern)
    }
}

/// A non-empty pattern is counted exactly when it occurs.
pub proof fn lemma_occurrences_positive(text: Seq<char>, pattern: Seq<char>)
    requires
        pattern.len() > 0,
    ensures
        occurrences(text, pattern) > 0 <==> occurs_in(text, pattern),
    decreases text.len(),
{
    if text.len() >= pattern.len() {
        if text.take(pattern.len() as int) == pattern {
            assert(text.subrange(0, pattern.len() as int) =~= text.take(pattern.len() as int));
            assert(occurs_at(text, pattern, 0));
        } else {
            let rest = text.skip(1);
            lemma_occurrences_positive(rest, pattern);
            if occurs_in(rest, pattern) {
                let at = choose|at: int| occurs_at(rest, pattern, at);
                assert(text.subrange(at + 1, at + 1 + pattern.len()) =~= rest.subrange(
                    at,
                    at + pattern.len(),
                ));
                assert(occurs_at(text, pattern, at + 1));
            }
            if occurs_in(text, pattern) {
                let at = choose|at: int| occurs_at(text, pattern, at);
                if at == 0 {
                    assert(text.subrange(0, pattern.len() as int) =~= text.take(
                        pattern.len() as int,
                    ));
                }
                assert(rest.subrange(at - 1, at - 1 + pattern.len()) =~= text.subrange(
                    at,
                    at + pattern.len(),
                ));
                assert(occurs_at(rest, pattern, at - 1));
            }
        }
    } else {
        assert forall|at: int| !occurs_at(text, pattern, at) by {}
    }
}

/// Whether `pattern` stands in `text` at position `at`.
fn matches_at(text: &Vec<char>, pattern: &Vec<char>, at: usize) -> (r: bool)
    requires
        at <= text.len(),
    ensures
        r == occurs_at(text@, pattern@, at as int),
{
    if pattern.len() > text.len() - at {
        return false;
    }
    let mut i: usize = 0;
    while i < pattern.len()
        invariant
            i <= pattern.len() <= text.len() - at,
            forall|k: int| 0 <= k < i ==> text@[at + k] == pattern@[k],
        decreases pattern.len() - i,
    {
        if text[at + i] != pattern[i] {
            assert(text@.subrange(at as int, at + pattern@.len())[i as int] != pattern@[i as int]);
            return false;
        }
        i += 1;
    }
    assert(text@.subrange(at as int, at + pattern@.len()) =~= pattern@);
    true
}

/// How often `pattern` occurs in `text`, counted from the left without overlaps.
pub fn count_occurrences(text: &str, pattern: &str) -> (r: usize)
    requires
        pattern@.len() > 0,
    ensures
        r == occurrences(text@, pattern@),
{
    let chars = chars_of(text);
    let wanted = chars_of(pattern);
    let mut at: usize = 0;
    let mut count: usize = 0;
    assert(text@.skip(0) =~= text@);
    while at < chars.len()
        invariant
            chars@ == text@,
            wanted@ == pattern@,
            wanted@.len() > 0,
            count <= at <= chars.len(),
            count + occurrences(text@.skip(at as int), pattern@) == occurrences(text@, pattern@),
        decreases chars.len() - at,
    {
        let ghost rest = text@.skip(at as int);
        let found = matches_at(&chars, &wanted, at);
        proof {
            if rest.len() >= pattern@.len() {
                assert(rest.take(pattern@.len() as int) =~= text@.subrange(
                    at as int,
                    at + pattern@.len(),
                ));
                assert(rest.skip(pattern@.len() as int) =~= text@.skip(at + pattern@.len()));
            }
            assert(rest.skip(1) =~= text@.skip(at + 1));
            if rest.len() < pattern@.len() {
                assert(occurrences(text@.skip(at + 1), pattern@) == 0);
            }
        }
        if found {
            count += 1;
            at += wanted.len();
        } else {
            at += 1;
        }
    }
    count
}

/// Whether `pattern` occurs somewhere in `text`.
pub fn contains_text(text: &str, pattern: &str) -> (r: bool)
    requires
        pattern@.len() > 0,
    ensures
        r == occurs_in(text@, pattern@),
{
    proof {
        lemma_occurrences_positive(text@, pattern@);
    }
    count_occurrences(text, pattern) > 0
}

/// Whether `text` starts with `pattern`.
pub open spec fn starts_with(text: Seq<char>, pattern: Seq<char>) -> bool {
    pattern.len() <= text.len() && text.take(pattern.len() as int) == pattern
}

/// What follows the word at the start of `text` and the `closing` behind it.
///
/// There is no such word where white space or an `opening` comes before the first `closing`.
pub open spec fn after_word(
    text: Seq<char>,
    opening: Seq<char>,
    closing: Seq<char>,
) -> Option<Seq<char>>
    decreases text.len(),
{
    if text.len() == 0 || starts_with(text, opening) {
        None
    } else if starts_with(text, closing) {
        Some(text.skip(closing.len() as int))
    } else if white_space(text[0]) {
        None
    } else {
        after_word(text.skip(1), opening, closing)
    }
}

/// What follows a word is no longer than the whole.
pub proof fn lemma_after_word_shrinks(text: Seq<char>, opening: Seq<char>, closing: Seq<char>)
    ensures
        after_word(text, opening, closing) matches Some(rest) ==> rest.len() <= text.len(),
    decreases text.len(),
{
    if text.len() > 0 {
        lemma_after_word_shrinks(text.skip(1), opening, closing);
    }
}

/// `text` without the words that stand between an `opening` and a `closing`, these marks
/// included. An `opening` without a word and a `closing` behind it stays.
pub open spec fn without_enclosed(
    text: Seq<char>,
    opening: Seq<char>,
    closing: Seq<char>,
) -> Seq<char>
    decreases text.len(),
{
    if text.len() == 0 {
        seq![]
    } else if opening.len() > 0 && starts_with(text, opening) && after_word(
        text.skip(opening.len() as int),
        opening,
        closing,
    ) is Some {
        proof {
            lemma_after_word_shrinks(text.skip(opening.len() as int), opening, closing);
        }
        without_enclosed(
            after_word(text.skip(opening.len() as int), opening, closing)->0,
            opening,
            closing,
        )
    } else {
        seq![text[0]] + without_enclosed(text.skip(1), opening, closing)
    }
}

/// The end of the word at `from` and of the `closing` behind it.
fn find_word_end(text: &Vec<char>, opening: &Vec<char>, closing: &Vec<char>, from: usize) -> (r:
    Option<usize>)
    requires
        from <= text.len(),
    ensures
        match r {
            Some(end) => from <= end <= text.len() && after_word(
                text@.skip(from as int),
                opening@,
                closing@,
            ) == Some(text@.skip(end as int)),
            None => after_word(text@.skip(from as int), opening@, closing@) is None,
        },
{
    let mut at: usize = from;
    while at < text.len()
        invariant
            from <= at <= text.len(),
            after_word(text@.skip(from as int), opening@, closing@) == after_word(
                text@.skip(at as int),
                opening@,
                closing@,
            ),
        decreases text.len() - at,
    {
        let ghost rest = text@.skip(at as int);
        proof {
            lemma_starts_with(text@, opening@, at as int);
            lemma_starts_with(text@, closing@, at as int);
            assert(rest.skip(1) =~= text@.skip(at + 1));
        }
        if matches_at(text, opening, at) {
            return None;
        }
        if matches_at(text, closing, at) {
            assert(rest.skip(closing@.len() as int) =~= text@.skip(at + closing@.len()));
            return Some(at + closing.len());
        }
        if is_white_space(text[at]) {
            return None;
        }
        at += 1;
    }
    None
}

proof fn lemma_starts_with(text: Seq<char>, pattern: Seq<char>, at: int)
    requires
        0 <= at <= text.len(),
    ensures
        starts_with(text.skip(at), pattern) == occurs_at(text, pattern, at),
{
    if pattern.len() <= text.len() - at {
        assert(text.skip(at).take(pattern.len() as int) =~= text.subrange(at, at + pattern.len()));
    }
}

/// `text` without the words that stand between an `opening` and a `closing`, these marks
/// included.
pub fn remove_enclosed(text: &str, opening: &str, closing: &str) -> (r: String)
    requires
        opening@.len() > 0,
    ensures
        r@ == without_enclosed(text@, opening@, closing@),
{
    let chars = chars_of(text);
    let first = chars_of(opening);
    let last = chars_of(closing);
    let mut kept = String::new();
    let mut from: usize = 0;
    let mut at: usize = 0;
    assert(text@.skip(0) =~= text@);
    while at < chars.len()
        invariant
            chars@ == text@,
            first@ == opening@,
            last@ == closing@,
            opening@.len() > 0,
            from <= at <= chars.len(),
            without_enclosed(text@, opening@, closing@) =~= kept@ + text@.subrange(
                from as int,
                at as int,
            ) + without_enclosed(text@.skip(at as int), opening@, closing@),
        decreases chars.len() - at,
    {
        let ghost rest = text@.skip(at as int);
        let opened = matches_at(&chars, &first, at);
        proof {
            lemma_starts_with(text@, opening@, at as int);
            if opened {
                assert(rest.skip(opening@.len() as int) =~= text@.skip(at + opening@.len()));
            }
            assert(rest.skip(1) =~= text@.skip(at + 1));
        }
        let end = if opened {
            find_word_end(&chars, &first, &last, at + first.len())
        } else {
            None
        };
        match end {
            Some(end) => {
                kept.append(text.substring_char(from, at));
                from = end;
                at = end;
            },
            None => {
                assert(text@.subrange(from as int, at + 1) =~= text@.subrange(
                    from as int,
                    at as int,
                ).push(rest[0]));
                at += 1;
            },
        }
    }
    kept.append(text.substring_char(from, at));
    kept
}

/// The decimal digit for a value below ten.
pub open spec fn digit(value: nat) -> char {
    ('0' as int + value) as char
}

/// The decimal numeral of `value`, without leading zeros.
pub open spec fn decimal(value: nat) -> Seq<char>
    decreases value,
{
    if value < 10 {
        seq![digit(value)]
    } else {
        decimal(value / 10).push(digit(value % 10))
    }
}

fn digit_text(value: usize) -> (r: &'static str)
    requires
        value < 10,
    ensures
        r@ == seq![digit(value as nat)],
{
    proof {
        reveal_strlit("0");
        reveal_strlit("1");
        reveal_strlit("2");
        reveal_strlit("3");
        reveal_strlit("4");
        reveal_strlit("5");
        reveal_strlit("6");
        reveal_strlit("7");
        reveal_strlit("8");
        reveal_strlit("9");
    }
    match value {
        0 => "0",
        1 => "1",
        2 => "2",
        3 => "3",
        4 => "4",
        5 => "5",
        6 => "6",
        7 => "7",
        8 => "8",
        _ => "9",
    }
}

/// The decimal numeral of `value`.
pub fn decimal_text(value: usize) -> (r: String)
    ensures
        r@ == decimal(value as nat),
    decreases value,
{
    if value < 10 {
        digit_text(value).to_owned()
    } else {
        let mut text = decimal_text(value / 10);
        text.append(digit_text(value % 10));
        text
    }
}

/// The texts that a sequence of strings holds.
pub open spec fn texts(strings: Seq<String>) -> Seq<Seq<char>> {
    strings.map_values(|s: String| s@)
}

/// `parts` in order, with `separator` between neighbours.
pub open spec fn joined(parts: Seq<Seq<char>>, separator: Seq<char>) -> Seq<char>
    decreases parts.len(),
{
    if parts.len() == 0 {
        seq![]
    } else if parts.len() == 1 {
        parts[0]
    } else {
        joined(parts.drop_last(), separator) + separator + parts.last()
    }
}

/// `parts` in order, with `separator` between neighbours.
pub fn join_texts(parts: &Vec<String>, separator: &str) -> (r: String)
    ensures
        r@ == joined(texts(parts@), separator@),
{
    let mut text = String::new();
    let mut i: usize = 0;
    while i < parts.len()
        invariant
            i <= parts.len(),
            text@ == joined(texts(parts@).take(i as int), separator@),
        decreases parts.len() - i,
    {
        proof {
            assert(texts(parts@).take(i + 1).drop_last() =~= texts(parts@).take(i as int));
        }
        if i > 0 {
            text.append(separator);
        }
        text.append(parts[i].as_str());
        i += 1;
    }
    assert(texts(parts@).take(parts@.len() as int) =~= texts(parts@));
    text
}

/// The text of an optional string, with the empty text for none.
pub open spec fn text_or_empty(text: Option<Seq<char>>) -> Seq<char> {
    match text {
        Some(t) => t,
        None => seq![],
    }
}

/// The text that an optional string holds.
pub open spec fn optional_text(text: Option<String>) -> Option<Seq<char>> {
    match text {
        Some(t) => Some(t@),
        None => None,
    }
}

/// The text of an optional string, with the empty text for none.
pub fn str_or_empty(text: &Option<String>) -> (r: &str)
    ensures
        r@ == text_or_empty(optional_text(*text)),
{
    proof {
        reveal_strlit("");
    }
    match text {
        Some(t) => t.as_str(),
        None => "",
    }
}

/// A copy of an optional string.
pub fn copy_optional(text: &Option<String>) -> (r: Option<String>)
    ensures
        optional_text(r) == optional_text(*text),
{
    match text {
        Some(t) => Some(t.clone()),
        None => None,
    }
}

/// Trimming cuts white space off both ends of a text, all of it and nothing else.
pub proof fn law_trimming_cuts_white_space_off(text: Seq<char>)
    ensures
        exists|from: int, to: int|
            {
                &&& 0 <= from <= to <= text.len()
                &&& trimmed(text) == #[trigger] text.subrange(from, to)
                &&& forall|k: int| 0 <= k < from || to <= k < text.len() ==> white_space(
                    #[trigger] text[k],
                )
                &&& from < to ==> !white_space(text[from]) && !white_space(text[to - 1])
            },
{
    let from = lemma_trimmed_start_cuts(text);
    let front = trimmed_start(text);
    let to = lemma_trimmed_end_cuts(front);
    assert(trimmed(text) =~= text.subrange(from, from + to));
    assert forall|k: int| 0 <= k < from || from + to <= k < text.len() implies white_space(
        #[trigger] text[k],
    ) by {
        if k >= from {
            assert(front[k - from] == text[k]);
        }
    }
    if 0 < to {
        assert(front[to - 1] == text[from + to - 1]);
        assert(front[0] == text[from]);
    }
}

proof fn lemma_trimmed_start_cuts(text: Seq<char>) -> (from: int)
    ensures
        0 <= from <= text.len(),
        trimmed_start(text) == text.skip(from),
        forall|k: int| 0 <= k < from ==> white_space(#[trigger] text[k]),
        from < text.len() ==> !white_space(text[from]),
    decreases text.len(),
{
    if text.len() > 0 && white_space(text.first()) {
        let rest = text.drop_first();
        let from = lemma_trimmed_start_cuts(rest);
        assert(rest.skip(from) =~= text.skip(from + 1));
        assert forall|k: int| 0 <= k < from + 1 implies white_space(#[trigger] text[k]) by {
            if k > 0 {
                assert(rest[k - 1] == text[k]);
            }
        }
        if from < rest.len() {
            assert(rest[from] == text[from + 1]);
        }
        from + 1
    } else {
        assert(text.skip(0) =~= text);
        0
    }
}

proof fn lemma_trimmed_end_cuts(text: Seq<char>) -> (to: int)
    ensures
        0 <= to <= text.len(),
        trimmed_end(text) == text.take(to),
        forall|k: int| to <= k < text.len() ==> white_space(#[trigger] text[k]),
        0 < to ==> !white_space(text[to - 1]),
    decreases text.len(),
{
    if text.len() > 0 && white_space(text.last()) {
        let rest = text.drop_last();
        let to = lemma_trimmed_end_cuts(rest);
        assert(rest.take(to) =~= text.take(to));
        assert forall|k: int| to <= k < text.len() implies white_space(#[trigger] text[k]) by {
            if k < rest.len() {
                assert(rest[k] == text[k]);
            }
        }
        to
    } else {
        assert(text.take(text.len() as int) =~= text);
        text.len() as int
    }
}

/// A pattern stands at a position when the characters from there on are those of the pattern.
pub proof fn law_patterns_stand_where_their_characters_do(
    text: Seq<char>,
    pattern: Seq<char>,
    at: int,
)
    ensures
        occurs_at(text, pattern, at) <==> {
            &&& 0 <= at
            &&& at + pattern.len() <= text.len()
            &&& forall|k: int| 0 <= k < pattern.len() ==> #[trigger] pattern[k] == text[at + k]
        },
{
    if 0 <= at && at + pattern.len() <= text.len() {
        if forall|k: int| 0 <= k < pattern.len() ==> #[trigger] pattern[k] == text[at + k] {
            assert(text.subrange(at, at + pattern.len()) =~= pattern);
        }
        if text.subrange(at, at + pattern.len()) == pattern {
            assert forall|k: int| 0 <= k < pattern.len() implies #[trigger] pattern[k] == text[at
                + k] by {
                assert(text.subrange(at, at + pattern.len())[k] == text[at + k]);
            }
        }
    }
}

/// Patterns are counted from the first one on: it counts once, and the rest is counted behind
/// it. Where there is none, nothing is counted.
pub proof fn law_patterns_are_counted_from_the_first(text: Seq<char>, pattern: Seq<char>, at: int)
    requires
        pattern.len() > 0,
        forall|k: int| 0 <= k < at ==> !#[trigger] occurs_at(text, pattern, k),
        0 <= at <= text.len(),
    ensures
        occurs_at(text, pattern, at) ==> occurrences(text, pattern) == 1 + occurrences(
            text.skip(at + pattern.len()),
            pattern,
        ),
        at == text.len() ==> occurrences(text, pattern) == 0,
    decreases text.len(),
{
    lemma_starts_with(text, pattern, 0);
    assert(text.skip(0) =~= text);
    if at == 0 {
    } else {
        let rest = text.skip(1);
        assert(!occurs_at(text, pattern, 0));
        assert forall|k: int| 0 <= k < at - 1 implies !#[trigger] occurs_at(rest, pattern, k) by {
            lemma_occurs_shifted(text, pattern, k);
            assert(!occurs_at(text, pattern, k + 1));
        }
        lemma_occurs_shifted(text, pattern, at - 1);
        law_patterns_are_counted_from_the_first(rest, pattern, at - 1);
        if occurs_at(text, pattern, at) {
            assert(rest.skip(at - 1 + pattern.len()) =~= text.skip(at + pattern.len()));
        }
    }
}

proof fn lemma_occurs_shifted(text: Seq<char>, pattern: Seq<char>, at: int)
    requires
        text.len() > 0,
        at >= 0,
    ensures
        occurs_at(text.skip(1), pattern, at) == occurs_at(text, pattern, at + 1),
{
    if at + 1 + pattern.len() <= text.len() {
        assert(text.skip(1).subrange(at, at + pattern.len()) =~= text.subrange(
            at + 1,
            at + 1 + pattern.len(),
        ));
    }
}

/// A word between an opening and a closing is taken out with them. What stands before it stays
/// where no other enclosed word comes first, and what stands behind it goes on as a text of its
/// own.
pub proof fn law_enclosed_word_is_taken_out(
    before: Seq<char>,
    word: Seq<char>,
    after: Seq<char>,
    opening: Seq<char>,
    closing: Seq<char>,
)
    requires
        opening.len() > 0,
        closing.len() > 0,
        forall|at: int, end: int|
            0 <= at < before.len() ==> !#[trigger] encloses_word(
                before + opening + word + closing + after,
                opening,
                closing,
                at,
                end,
            ),
        forall|k: int| 0 <= k < word.len() ==> !white_space(#[trigger] word[k]),
        forall|k: int|
            0 <= k < word.len() ==> !#[trigger] occurs_at(word + closing + after, closing, k),
        forall|k: int|
            0 <= k <= word.len() ==> !#[trigger] occurs_at(word + closing + after, opening, k),
    ensures
        without_enclosed(before + opening + word + closing + after, opening, closing) == before
            + without_enclosed(after, opening, closing),
{
    let rest = word + closing + after;
    let tail = opening + rest;
    assert(before + opening + word + closing + after == before + tail) by {
        assert(before + opening + word + closing + after =~= before + tail);
    }
    lemma_front_stays(before, tail, opening, closing);
    lemma_after_enclosed_word(word, after, opening, closing);
    lemma_opened_word(rest, after, opening, closing);
}

proof fn lemma_opened_word(
    rest: Seq<char>,
    after: Seq<char>,
    opening: Seq<char>,
    closing: Seq<char>,
)
    requires
        opening.len() > 0,
        after_word(rest, opening, closing) == Some(after),
    ensures
        without_enclosed(opening + rest, opening, closing) == without_enclosed(
            after,
            opening,
            closing,
        ),
{
    assert((opening + rest).take(opening.len() as int) =~= opening);
    assert((opening + rest).skip(opening.len() as int) =~= rest);
}

proof fn lemma_front_stays(
    front: Seq<char>,
    tail: Seq<char>,
    opening: Seq<char>,
    closing: Seq<char>,
)
    requires
        opening.len() > 0,
        forall|at: int, end: int|
            0 <= at < front.len() ==> !#[trigger] encloses_word(
                front + tail,
                opening,
                closing,
                at,
                end,
            ),
    ensures
        without_enclosed(front + tail, opening, closing) == front + without_enclosed(
            tail,
            opening,
            closing,
        ),
    decreases front.len(),
{
    let text = front + tail;
    if front.len() == 0 {
        assert(text =~= tail);
        assert(front + without_enclosed(tail, opening, closing) =~= without_enclosed(
            tail,
            opening,
            closing,
        ));
    } else {
        let shorter = front.skip(1);
        assert(text.skip(1) =~= shorter + tail);
        lemma_no_word_at_the_start(text, opening, closing);
        assert forall|at: int, end: int| 0 <= at < shorter.len() implies !#[trigger] encloses_word(
            shorter + tail,
            opening,
            closing,
            at,
            end,
        ) by {
            if encloses_word(shorter + tail, opening, closing, at, end) {
                lemma_enclosed_shifted(text, opening, closing, at, end);
            }
            assert(!encloses_word(text, opening, closing, at + 1, end + 1));
        }
        lemma_front_stays(shorter, tail, opening, closing);
        let rest = without_enclosed(tail, opening, closing);
        assert(seq![text[0]] + (shorter + rest) =~= front + rest);
    }
}

/// A text that encloses no word at its start keeps its first character.
proof fn lemma_no_word_at_the_start(text: Seq<char>, opening: Seq<char>, closing: Seq<char>)
    requires
        text.len() > 0,
        opening.len() > 0,
        forall|end: int| !#[trigger] encloses_word(text, opening, closing, 0, end),
    ensures
        without_enclosed(text, opening, closing) == seq![text[0]] + without_enclosed(
            text.skip(1),
            opening,
            closing,
        ),
{
    lemma_starts_with(text, opening, 0);
    assert(text.skip(0) =~= text);
    if starts_with(text, opening) {
        let inner = text.skip(opening.len() as int);
        if after_word(inner, opening, closing) is Some {
            let end = lemma_word_has_an_end(inner, opening, closing);
            let start = opening.len() as int;
            lemma_occurs_skipped(text, closing, start, end);
            assert forall|k: int| start <= k < start + end implies !white_space(
                #[trigger] text[k],
            ) by {
                assert(inner[k - start] == text[k]);
            }
            assert forall|k: int| start <= k <= start + end implies !#[trigger] occurs_at(
                text,
                opening,
                k,
            ) by {
                lemma_occurs_skipped(text, opening, start, k - start);
                assert(!occurs_at(inner, opening, k - start));
            }
            assert(encloses_word(text, opening, closing, 0, start + end));
        }
    }
}

proof fn lemma_enclosed_shifted(
    text: Seq<char>,
    opening: Seq<char>,
    closing: Seq<char>,
    at: int,
    end: int,
)
    requires
        text.len() > 0,
        at >= 0,
        encloses_word(text.skip(1), opening, closing, at, end),
    ensures
        encloses_word(text, opening, closing, at + 1, end + 1),
{
    let rest = text.skip(1);
    lemma_occurs_shifted(text, opening, at);
    lemma_occurs_shifted(text, closing, end);
    assert forall|k: int| at + 1 + opening.len() <= k < end + 1 implies !white_space(
        #[trigger] text[k],
    ) by {
        assert(rest[k - 1] == text[k]);
    }
    assert forall|k: int| at + 1 + opening.len() <= k <= end + 1 implies !#[trigger] occurs_at(
        text,
        opening,
        k,
    ) by {
        lemma_occurs_shifted(text, opening, k - 1);
        assert(!occurs_at(rest, opening, k - 1));
    }
}

proof fn lemma_after_enclosed_word(
    word: Seq<char>,
    after: Seq<char>,
    opening: Seq<char>,
    closing: Seq<char>,
)
    requires
        closing.len() > 0,
        forall|k: int| 0 <= k < word.len() ==> !white_space(#[trigger] word[k]),
        forall|k: int|
            0 <= k < word.len() ==> !#[trigger] occurs_at(word + closing + after, closing, k),
        forall|k: int|
            0 <= k <= word.len() ==> !#[trigger] occurs_at(word + closing + after, opening, k),
    ensures
        after_word(word + closing + after, opening, closing) == Some(after),
    decreases word.len(),
{
    let text = word + closing + after;
    lemma_starts_with(text, opening, 0);
    lemma_starts_with(text, closing, 0);
    assert(text.skip(0) =~= text);
    assert(!occurs_at(text, opening, 0));
    if word.len() == 0 {
        assert(text.subrange(0, closing.len() as int) =~= closing);
        assert(text.skip(closing.len() as int) =~= after);
    } else {
        let rest = word.skip(1) + closing + after;
        assert(text.skip(1) =~= rest);
        assert(!occurs_at(text, closing, 0));
        assert(!white_space(word[0]));
        assert forall|k: int| 0 <= k < word.skip(1).len() implies !#[trigger] occurs_at(
            rest,
            closing,
            k,
        ) by {
            lemma_occurs_shifted(text, closing, k);
            assert(!occurs_at(text, closing, k + 1));
        }
        assert forall|k: int| 0 <= k <= word.skip(1).len() implies !#[trigger] occurs_at(
            rest,
            opening,
            k,
        ) by {
            lemma_occurs_shifted(text, opening, k);
            assert(!occurs_at(text, opening, k + 1));
        }
        lemma_after_enclosed_word(word.skip(1), after, opening, closing);
    }
}

/// Whether an opening stands at `at` and a closing at `end`, with nothing between them but a
/// word: no white space, and no opening before the closing or at it.
pub open spec fn encloses_word(
    text: Seq<char>,
    opening: Seq<char>,
    closing: Seq<char>,
    at: int,
    end: int,
) -> bool {
    &&& occurs_at(text, opening, at)
    &&& at + opening.len() <= end
    &&& occurs_at(text, closing, end)
    &&& forall|k: int| at + opening.len() <= k < end ==> !white_space(#[trigger] text[k])
    &&& forall|k: int| at + opening.len() <= k <= end ==> !#[trigger] occurs_at(text, opening, k)
}

/// A text that encloses no word stays as it is.
pub proof fn law_text_without_enclosed_words_stays(
    text: Seq<char>,
    opening: Seq<char>,
    closing: Seq<char>,
)
    requires
        opening.len() > 0,
        closing.len() > 0,
        forall|at: int, end: int| !#[trigger] encloses_word(text, opening, closing, at, end),
    ensures
        without_enclosed(text, opening, closing) == text,
{
    let none = Seq::<char>::empty();
    assert(text + none =~= text);
    lemma_front_stays(text, none, opening, closing);
}

proof fn lemma_occurs_skipped(text: Seq<char>, pattern: Seq<char>, from: int, at: int)
    requires
        0 <= from <= text.len(),
        at >= 0,
    ensures
        occurs_at(text.skip(from), pattern, at) == occurs_at(text, pattern, from + at),
{
    if from + at + pattern.len() <= text.len() {
        assert(text.skip(from).subrange(at, at + pattern.len()) =~= text.subrange(
            from + at,
            from + at + pattern.len(),
        ));
    }
}

proof fn lemma_word_has_an_end(text: Seq<char>, opening: Seq<char>, closing: Seq<char>) -> (end:
    int)
    requires
        after_word(text, opening, closing) is Some,
    ensures
        0 <= end,
        occurs_at(text, closing, end),
        forall|k: int| 0 <= k < end ==> !white_space(#[trigger] text[k]),
        forall|k: int| 0 <= k <= end ==> !#[trigger] occurs_at(text, opening, k),
    decreases text.len(),
{
    lemma_starts_with(text, opening, 0);
    lemma_starts_with(text, closing, 0);
    assert(text.skip(0) =~= text);
    if starts_with(text, closing) {
        0
    } else {
        let rest = text.skip(1);
        let end = lemma_word_has_an_end(rest, opening, closing);
        lemma_occurs_shifted(text, closing, end);
        assert forall|k: int| 0 <= k < end + 1 implies !white_space(#[trigger] text[k]) by {
            if k > 0 {
                assert(rest[k - 1] == text[k]);
            }
        }
        assert forall|k: int| 0 <= k <= end + 1 implies !#[trigger] occurs_at(
            text,
            opening,
            k,
        ) by {
            if k > 0 {
                lemma_occurs_shifted(text, opening, k - 1);
                assert(!occurs_at(rest, opening, k - 1));
            }
        }
        end + 1
    }
}

/// The value of a decimal numeral, read from the left.
pub open spec fn numeral_value(numeral: Seq<char>) -> int
    decreases numeral.len(),
{
    if numeral.len() == 0 {
        0
    } else {
        10 * numeral_value(numeral.drop_last()) + (numeral.last() as int - '0' as int)
    }
}

/// A decimal numeral consists of digits, starts with none too many, and reads as its value.
pub proof fn law_decimals_read_back(value: nat)
    ensures
        numeral_value(decimal(value)) == value,
        forall|i: int| 0 <= i < decimal(value).len() ==> '0' <= #[trigger] decimal(value)[i] <= '9',
        decimal(value).len() > 0,
        decimal(value).len() > 1 ==> decimal(value)[0] != '0',
    decreases value,
{
    if value < 10 {
        assert(decimal(value).drop_last() =~= seq![]);
        assert(numeral_value(decimal(value).drop_last()) == 0);
    } else {
        law_decimals_read_back(value / 10);
        let front = decimal(value / 10);
        assert(decimal(value).drop_last() =~= front);
        if front.len() == 1 {
            assert(front.drop_last() =~= seq![]);
            assert(numeral_value(front.drop_last()) == 0);
        }
    }
}

/// Joined texts fall apart at every separator: joining two lists and putting a separator
/// between is joining the whole. A single text is joined to itself.
pub proof fn law_joining_is_piecewise(
    front: Seq<Seq<char>>,
    back: Seq<Seq<char>>,
    separator: Seq<char>,
    single: Seq<char>,
)
    ensures
        joined(seq![], separator) == Seq::<char>::empty(),
        joined(seq![single], separator) == single,
        front.len() > 0 && back.len() > 0 ==> joined(front + back, separator) == joined(
            front,
            separator,
        ) + separator + joined(back, separator),
    decreases back.len(),
{
    if front.len() > 0 && back.len() > 0 {
        assert((front + back).drop_last() =~= front + back.drop_last());
        assert((front + back).last() == back.last());
        if back.len() == 1 {
            assert(front + back.drop_last() =~= front);
        } else {
            law_joining_is_piecewise(front, back.drop_last(), separator, single);
            let left = joined(front, separator);
            let middle = joined(back.drop_last(), separator);
            assert(left + separator + middle + separator + back.last() =~= left + separator + (
            middle + separator + back.last()));
        }
    }
}

/// The texts of strings are their contents, one for one.
pub proof fn law_texts_are_the_contents(strings: Seq<String>, optional: Option<String>)
    ensures
        texts(strings).len() == strings.len(),
        forall|i: int| 0 <= i < strings.len() ==> #[trigger] texts(strings)[i] == strings[i]@,
        optional matches Some(string) ==> optional_text(optional) == Some(string@),
        optional is None ==> optional_text(optional) is None,
        optional matches Some(string) ==> text_or_empty(optional_text(optional)) == string@,
        optional is None ==> text_or_empty(optional_text(optional)) == Seq::<char>::empty(),
{
}

} // verus!
