//! Text handling on sequences of characters: trimming, splitting, and decimal numbers.
use vstd::prelude::*;

verus! {

broadcast use vstd::string::group_string_axioms;

/// The characters that Unicode lists under the property `White_Space`.
pub open spec fn is_space(c: char) -> bool {
    ||| '\u{9}' <= c <= '\u{d}'
    ||| c == '\u{20}'
    ||| c == '\u{85}'
    ||| c == '\u{a0}'
    ||| c == '\u{1680}'
    ||| '\u{2000}' <= c <= '\u{200a}'
    ||| c == '\u{2028}'
    ||| c == '\u{2029}'
    ||| c == '\u{202f}'
    ||| c == '\u{205f}'
    ||| c == '\u{3000}'
}

/// `s` without its leading white space.
pub open spec fn trim_front(s: Seq<char>) -> Seq<char>
    decreases s.len(),
{
    if s.len() > 0 && is_space(s[0]) {
        trim_front(s.drop_first())
    } else {
        s
    }
}

/// `s` without its trailing white space.
pub open spec fn trim_back(s: Seq<char>) -> Seq<char>
    decreases s.len(),
{
    if s.len() > 0 && is_space(s.last()) {
        trim_back(s.drop_last())
    } else {
        s
    }
}

/// `s` without the white space at either end.
pub open spec fn trimmed(s: Seq<char>) -> Seq<char> {
    trim_back(trim_front(s))
}

/// The pieces of `s` between the occurrences of `sep`; one piece more than there are separators.
pub open spec fn pieces(s: Seq<char>, sep: char) -> Seq<Seq<char>>
    decreases s.len(),
{
    if s.len() == 0 {
        seq![Seq::<char>::empty()]
    } else {
        let before = pieces(s.drop_last(), sep);
        if s.last() == sep {
            before.push(Seq::<char>::empty())
        } else {
            before.drop_last().push(before.last().push(s.last()))
        }
    }
}

/// The words of `s`: its longest rows of characters without white space.
pub open spec fn words(s: Seq<char>) -> Seq<Seq<char>>
    decreases s.len(),
{
    if s.len() == 0 {
        Seq::empty()
    } else {
        let before = words(s.drop_last());
        if is_space(s.last()) {
            before
        } else if s.len() == 1 || is_space(s[s.len() - 2]) {
            before.push(seq![s.last()])
        } else {
            before.drop_last().push(before.last().push(s.last()))
        }
    }
}

/// The position of the last `c` in `s`.
pub open spec fn last_position(s: Seq<char>, c: char) -> Option<int>
    decreases s.len(),
{
    if s.len() == 0 {
        None
    } else if s.last() == c {
        Some(s.len() - 1)
    } else {
        last_position(s.drop_last(), c)
    }
}

/// What stands before and after the last `c` in `s`.
pub open spec fn around_last(s: Seq<char>, c: char) -> Option<(Seq<char>, Seq<char>)> {
    match last_position(s, c) {
        Some(i) => Some((s.take(i), s.skip(i + 1))),
        None => None,
    }
}

/// `s` without `suffix`, where it ends in it.
pub open spec fn without_suffix(s: Seq<char>, suffix: Seq<char>) -> Option<Seq<char>> {
    if suffix.len() <= s.len() && s.skip(s.len() - suffix.len()) == suffix {
        Some(s.take(s.len() - suffix.len()))
    } else {
        None
    }
}

pub open spec fn is_digit(c: char) -> bool {
    '0' <= c <= '9'
}

pub open spec fn all_digits(s: Seq<char>) -> bool {
    forall|i: int| 0 <= i < s.len() ==> is_digit(#[trigger] s[i])
}

/// The number that a row of decimal digits stands for.
pub open spec fn digits_value(s: Seq<char>) -> nat
    decreases s.len(),
{
    if s.len() == 0 {
        0
    } else {
        digits_value(s.drop_last()) * 10 + (s.last() as nat - '0' as nat) as nat
    }
}

/// `s` without one leading plus sign.
pub open spec fn without_plus(s: Seq<char>) -> Seq<char> {
    if s.len() > 0 && s[0] == '+' {
        s.drop_first()
    } else {
        s
    }
}

/// The number that `s` spells: at least one decimal digit, with a plus sign before it or none,
/// and no more than `max`.
pub open spec fn number(s: Seq<char>, max: nat) -> Option<nat> {
    let digits = without_plus(s);
    if digits.len() > 0 && all_digits(digits) && digits_value(digits) <= max {
        Some(digits_value(digits))
    } else {
        None
    }
}

/// One decimal digit.
pub open spec fn digit_char(d: nat) -> char {
    (d + '0' as nat) as char
}

/// `n` in decimal digits, without leading zeros.
pub open spec fn decimal(n: nat) -> Seq<char>
    decreases n,
{
    if n < 10 {
        seq![digit_char(n)]
    } else {
        decimal(n / 10).push(digit_char(n % 10))
    }
}

/// `n` in decimal digits, with a minus sign where it is negative.
pub open spec fn signed_decimal(n: int) -> Seq<char> {
    if n < 0 {
        seq!['-'] + decimal((-n) as nat)
    } else {
        decimal(n as nat)
    }
}

/// A text that may be absent, as characters.
pub open spec fn text_of(s: Option<String>) -> Option<Seq<char>> {
    match s {
        Some(t) => Some(t@),
        None => None,
    }
}

/// `std::str::from_utf8`: the text that the bytes spell in UTF-8, where they do.
#[verifier::external_body]
pub(crate) fn utf8_text(bytes: &[u8]) -> (r: Option<String>)
    ensures
        match r {
            Some(t) => vstd::utf8::valid_utf8(bytes@) && t@ == vstd::utf8::decode_utf8(bytes@),
            None => !vstd::utf8::valid_utf8(bytes@),
        },
{
    std::str::from_utf8(bytes).ok().map(|t| t.to_string())
}

/// Whether both texts are the same.
pub fn same(a: &str, b: &str) -> (r: bool)
    ensures
        r == (a@ == b@),
{
    a.to_owned() == b.to_owned()
}

/// The characters of `s`.
pub fn to_chars(s: &str) -> (r: Vec<char>)
    ensures
        r@ == s@,
{
    let mut r: Vec<char> = Vec::new();
    for c in iter: s.chars()
        invariant
            iter.seq() == s@,
            r@ == s@.take(iter.index() as int),
    {
        r.push(c);
        assert(s@.take(iter.index() + 1) =~= s@.take(iter.index() as int).push(c));
    }
    assert(s@.take(s@.len() as int) =~= s@);
    r
}

pub fn space(c: char) -> (r: bool)
    ensures
        r == is_space(c),
{
    ('\u{9}' <= c && c <= '\u{d}') || c == '\u{20}' || c == '\u{85}' || c == '\u{a0}' || c
        == '\u{1680}' || ('\u{2000}' <= c && c <= '\u{200a}') || c == '\u{2028}' || c == '\u{2029}'
        || c == '\u{202f}' || c == '\u{205f}' || c == '\u{3000}'
}

/// `s` without the white space at either end.
pub fn trim(s: &str) -> (r: &str)
    ensures
        r@ == trimmed(s@),
{
    let chars = to_chars(s);
    let mut start: usize = 0;
    assert(s@.skip(0) =~= s@);
    while start < chars.len() && space(chars[start])
        invariant
            start <= chars.len(),
            chars@ == s@,
            trim_front(s@) == trim_front(s@.skip(start as int)),
        decreases chars.len() - start,
    {
        assert(s@.skip(start as int).drop_first() =~= s@.skip(start + 1));
        start = start + 1;
    }
    let ghost front = s@.skip(start as int);
    assert(trim_front(s@) == front);
    let mut end: usize = chars.len();
    assert(s@.subrange(start as int, end as int) =~= front);
    while end > start && space(chars[end - 1])
        invariant
            start <= end <= chars.len(),
            chars@ == s@,
            front == s@.skip(start as int),
            trim_back(front) == trim_back(s@.subrange(start as int, end as int)),
        decreases end,
    {
        let ghost cur = s@.subrange(start as int, end as int);
        assert(cur.last() == s@[end - 1]);
        assert(cur.drop_last() =~= s@.subrange(start as int, end - 1));
        end = end - 1;
    }
    proof {
        let cur = s@.subrange(start as int, end as int);
        if cur.len() > 0 {
            assert(cur.last() == s@[end - 1]);
        }
        assert(trim_back(cur) == cur);
    }
    s.substring_char(start, end)
}

pub proof fn lemma_pieces_nonempty(s: Seq<char>, sep: char)
    ensures
        pieces(s, sep).len() >= 1,
    decreases s.len(),
{
    if s.len() > 0 {
        lemma_pieces_nonempty(s.drop_last(), sep);
    }
}

/// The pieces of `s` between the occurrences of `sep`.
pub fn split(s: &str, sep: char) -> (r: Vec<&str>)
    ensures
        r@.len() == pieces(s@, sep).len(),
        r@.len() >= 1,
        forall|i: int| 0 <= i < r@.len() ==> (#[trigger] r@[i])@ == pieces(s@, sep)[i],
{
    let chars = to_chars(s);
    let mut done: Vec<&str> = Vec::new();
    let mut start: usize = 0;
    let mut i: usize = 0;
    assert(s@.take(0) =~= Seq::<char>::empty());
    assert(s@.subrange(0, 0) =~= Seq::<char>::empty());
    while i < chars.len()
        invariant
            start <= i <= chars.len(),
            chars@ == s@,
            done@.len() + 1 == pieces(s@.take(i as int), sep).len(),
            forall|k: int|
                0 <= k < done@.len() ==> (#[trigger] done@[k])@ == pieces(
                    s@.take(i as int),
                    sep,
                )[k],
            s@.subrange(start as int, i as int) == pieces(s@.take(i as int), sep).last(),
        decreases chars.len() - i,
    {
        let ghost before = pieces(s@.take(i as int), sep);
        assert(s@.take(i + 1).drop_last() =~= s@.take(i as int));
        assert(s@.take(i + 1).last() == s@[i as int]);
        if chars[i] == sep {
            done.push(s.substring_char(start, i));
            start = i + 1;
            assert(s@.subrange(i + 1, i + 1) =~= Seq::<char>::empty());
        } else {
            assert(s@.subrange(start as int, i + 1) =~= s@.subrange(start as int, i as int).push(
                s@[i as int],
            ));
        }
        i = i + 1;
    }
    assert(s@.take(s@.len() as int) =~= s@);
    done.push(s.substring_char(start, i));
    done
}

/// The words of `s`.
pub fn split_whitespace(s: &str) -> (r: Vec<&str>)
    ensures
        r@.len() == words(s@).len(),
        forall|i: int| 0 <= i < r@.len() ==> (#[trigger] r@[i])@ == words(s@)[i],
{
    let chars = to_chars(s);
    let mut done: Vec<&str> = Vec::new();
    let mut start: usize = 0;
    let mut i: usize = 0;
    assert(s@.take(0) =~= Seq::<char>::empty());
    while i < chars.len()
        invariant
            start <= i <= chars.len(),
            chars@ == s@,
            start < i ==> !is_space(s@[i - 1]),
            start == i && i > 0 ==> is_space(s@[i - 1]),
            done@.len() + (if start < i {
                1int
            } else {
                0
            }) == words(s@.take(i as int)).len(),
            forall|k: int|
                0 <= k < done@.len() ==> (#[trigger] done@[k])@ == words(s@.take(i as int))[k],
            start < i ==> s@.subrange(start as int, i as int) == words(s@.take(i as int)).last(),
        decreases chars.len() - i,
    {
        let ghost shorter = s@.take(i as int);
        let ghost longer = s@.take(i + 1);
        assert(longer.drop_last() =~= shorter);
        assert(longer.last() == s@[i as int]);
        if i > 0 {
            assert(longer[longer.len() - 2] == s@[i - 1]);
        }
        if space(chars[i]) {
            if start < i {
                done.push(s.substring_char(start, i));
            }
            start = i + 1;
        } else {
            if start == i {
                assert(s@.subrange(i as int, i + 1) =~= seq![s@[i as int]]);
            } else {
                assert(s@.subrange(start as int, i + 1) =~= s@.subrange(
                    start as int,
                    i as int,
                ).push(s@[i as int]));
            }
        }
        i = i + 1;
    }
    assert(s@.take(s@.len() as int) =~= s@);
    if start < i {
        done.push(s.substring_char(start, i));
    }
    done
}

/// What stands before and after the last `c` in `s`.
pub fn rsplit_once(s: &str, c: char) -> (r: Option<(&str, &str)>)
    ensures
        match r {
            Some((before, after)) => around_last(s@, c) == Some((before@, after@)),
            None => around_last(s@, c) is None,
        },
{
    let chars = to_chars(s);
    let mut i: usize = chars.len();
    assert(s@.take(s@.len() as int) =~= s@);
    while i > 0
        invariant
            i <= chars.len(),
            chars@ == s@,
            last_position(s@, c) == last_position(s@.take(i as int), c),
        decreases i,
    {
        assert(s@.take(i as int).last() == s@[i - 1]);
        assert(s@.take(i as int).drop_last() =~= s@.take(i - 1));
        if chars[i - 1] == c {
            let before = s.substring_char(0, i - 1);
            let after = s.substring_char(i, chars.len());
            assert(before@ =~= s@.take(i - 1));
            assert(after@ =~= s@.skip(i as int));
            return Some((before, after));
        }
        i = i - 1;
    }
    None
}

/// `s` without `suffix`, where it ends in it.
pub fn strip_suffix<'a>(s: &'a str, suffix: &str) -> (r: Option<&'a str>)
    ensures
        match r {
            Some(rest) => without_suffix(s@, suffix@) == Some(rest@),
            None => without_suffix(s@, suffix@) is None,
        },
{
    let chars = to_chars(s);
    let tail = to_chars(suffix);
    if tail.len() > chars.len() {
        return None;
    }
    let cut: usize = chars.len() - tail.len();
    let mut i: usize = 0;
    while i < tail.len()
        invariant
            i <= tail.len(),
            cut + tail.len() == chars.len(),
            chars@ == s@,
            tail@ == suffix@,
            forall|k: int| 0 <= k < i ==> s@[cut + k] == #[trigger] suffix@[k],
        decreases tail.len() - i,
    {
        if chars[cut + i] != tail[i] {
            assert(s@.skip(cut as int)[i as int] != suffix@[i as int]);
            return None;
        }
        i = i + 1;
    }
    assert(s@.skip(cut as int) =~= suffix@);
    let rest = s.substring_char(0, cut);
    assert(rest@ =~= s@.take(cut as int));
    Some(rest)
}

/// A number in decimal digits reads back as itself.
pub proof fn decimal_reads_back(n: nat, max: nat)
    requires
        n <= max,
    ensures
        decimal(n).len() > 0,
        all_digits(decimal(n)),
        number(decimal(n), max) == Some(n),
{
    lemma_decimal(n);
    assert(is_digit(decimal(n)[0]));
}

proof fn lemma_decimal(n: nat)
    ensures
        decimal(n).len() > 0,
        all_digits(decimal(n)),
        digits_value(decimal(n)) == n,
    decreases n,
{
    if n < 10 {
        assert(decimal(n).drop_last() =~= Seq::<char>::empty());
        assert(digits_value(decimal(n).drop_last()) == 0);
    } else {
        lemma_decimal(n / 10);
        assert(decimal(n).drop_last() =~= decimal(n / 10));
    }
}

/// Nothing but white space.
pub open spec fn blank(s: Seq<char>) -> bool {
    forall|i: int| 0 <= i < s.len() ==> is_space(#[trigger] s[i])
}

/// White space before and after a text that has none at its ends is all that trimming takes away.
pub proof fn trimming_takes_the_blanks(before: Seq<char>, s: Seq<char>, after: Seq<char>)
    requires
        blank(before),
        blank(after),
        s.len() > 0 ==> !is_space(s[0]) && !is_space(s.last()),
    ensures
        trimmed(before + s + after) == s,
{
    lemma_trim_front(before, s + after);
    assert(before + s + after =~= before + (s + after));
    if s.len() > 0 {
        assert((s + after)[0] == s[0]);
        lemma_trim_back(s, after);
    } else {
        assert(s + after =~= after);
        lemma_trim_front(after, s);
        assert(after + s =~= after);
    }
}

proof fn lemma_trim_front(before: Seq<char>, s: Seq<char>)
    requires
        blank(before),
    ensures
        trim_front(before + s) == trim_front(s),
    decreases before.len(),
{
    if before.len() > 0 {
        lemma_trim_front(before.drop_first(), s);
        assert((before + s)[0] == before[0]);
        assert((before + s).drop_first() =~= before.drop_first() + s);
    } else {
        assert(before + s =~= s);
    }
}

proof fn lemma_trim_back(s: Seq<char>, after: Seq<char>)
    requires
        blank(after),
    ensures
        trim_back(s + after) == trim_back(s),
    decreases after.len(),
{
    if after.len() > 0 {
        lemma_trim_back(s, after.drop_last());
        assert((s + after).last() == after.last());
        assert((s + after).drop_last() =~= s + after.drop_last());
    } else {
        assert(s + after =~= s);
    }
}

/// The parts with `sep` between each two.
pub open spec fn joined(parts: Seq<Seq<char>>, sep: char) -> Seq<char>
    decreases parts.len(),
{
    if parts.len() == 0 {
        Seq::empty()
    } else if parts.len() == 1 {
        parts[0]
    } else {
        joined(parts.drop_last(), sep) + seq![sep] + parts.last()
    }
}

/// Parts that hold no separator, joined by it, come apart again as they were.
pub proof fn joined_parts_come_apart(parts: Seq<Seq<char>>, sep: char)
    requires
        parts.len() > 0,
        forall|i: int| 0 <= i < parts.len() ==> !(#[trigger] parts[i]).contains(sep),
    ensures
        pieces(joined(parts, sep), sep) == parts,
    decreases parts.len(),
{
    if parts.len() == 1 {
        lemma_pieces_whole(parts[0], sep);
        assert(parts =~= seq![parts[0]]);
    } else {
        let front = parts.drop_last();
        assert forall|i: int| 0 <= i < front.len() implies !(#[trigger] front[i]).contains(sep) by {
            assert(front[i] == parts[i]);
        }
        joined_parts_come_apart(front, sep);
        assert(!parts[parts.len() - 1].contains(sep));
        lemma_pieces_last(joined(front, sep), sep, parts.last());
        assert(front.push(parts.last()) =~= parts);
    }
}

proof fn lemma_pieces_whole(s: Seq<char>, sep: char)
    requires
        !s.contains(sep),
    ensures
        pieces(s, sep) == seq![s],
    decreases s.len(),
{
    if s.len() > 0 {
        let front = s.drop_last();
        assert(s.last() == s[s.len() - 1]);
        if front.contains(sep) {
            let i = choose|i: int| 0 <= i < front.len() && front[i] == sep;
            assert(s[i] == sep);
        }
        lemma_pieces_whole(front, sep);
        assert(front.push(s.last()) =~= s);
        assert(pieces(s, sep) =~= seq![s]);
    } else {
        assert(s =~= Seq::<char>::empty());
    }
}

proof fn lemma_pieces_last(s: Seq<char>, sep: char, part: Seq<char>)
    requires
        !part.contains(sep),
    ensures
        pieces(s + seq![sep] + part, sep) == pieces(s, sep).push(part),
    decreases part.len(),
{
    let all = s + seq![sep] + part;
    lemma_pieces_nonempty(s, sep);
    if part.len() == 0 {
        assert(all.drop_last() =~= s);
        assert(part =~= Seq::<char>::empty());
    } else {
        let front = part.drop_last();
        if front.contains(sep) {
            let i = choose|i: int| 0 <= i < front.len() && front[i] == sep;
            assert(part[i] == sep);
        }
        lemma_pieces_last(s, sep, front);
        assert(all.drop_last() =~= s + seq![sep] + front);
        assert(all.last() == part[part.len() - 1]);
        assert(front.push(part.last()) =~= part);
        assert(pieces(s, sep).push(front).drop_last() =~= pieces(s, sep));
    }
}

/// White space at the end of a text adds no word, and a word behind white space, or at the start,
/// is one more word.
pub proof fn words_stand_between_blanks(s: Seq<char>, gap: Seq<char>, word: Seq<char>)
    requires
        blank(gap),
        gap.len() > 0 || s.len() == 0,
        word.len() > 0,
        forall|i: int| 0 <= i < word.len() ==> !is_space(#[trigger] word[i]),
    ensures
        words(s + gap) == words(s),
        words(s + gap + word) == words(s).push(word),
    decreases gap.len(), word.len(),
{
    lemma_blank_adds_no_word(s, gap);
    let all = s + gap + word;
    assert(all.last() == word[word.len() - 1]);
    if word.len() == 1 {
        assert(all.drop_last() =~= s + gap);
        if all.len() > 1 {
            assert(all[all.len() - 2] == gap[gap.len() - 1]);
        }
        assert(seq![all.last()] =~= word);
    } else {
        let front = word.drop_last();
        assert forall|i: int| 0 <= i < front.len() implies !is_space(#[trigger] front[i]) by {
            assert(front[i] == word[i]);
        }
        words_stand_between_blanks(s, gap, front);
        assert(all.drop_last() =~= s + gap + front);
        assert(all[all.len() - 2] == word[word.len() - 2]);
        assert(front.push(word.last()) =~= word);
        assert(words(s).push(front).drop_last() =~= words(s));
    }
}

proof fn lemma_blank_adds_no_word(s: Seq<char>, gap: Seq<char>)
    requires
        blank(gap),
    ensures
        words(s + gap) == words(s),
    decreases gap.len(),
{
    if gap.len() == 0 {
        assert(s + gap =~= s);
    } else {
        lemma_blank_adds_no_word(s, gap.drop_last());
        assert((s + gap).drop_last() =~= s + gap.drop_last());
        assert((s + gap).last() == gap[gap.len() - 1]);
    }
}

/// What stands behind white space does not change the words before it, and neither does white
/// space behind a word.
pub proof fn words_stay(s: Seq<char>, more: Seq<char>)
    requires
        more.len() > 0 ==> is_space(more[0]) || (s.len() > 0 && is_space(s.last())),
    ensures
        words(s + more).len() >= words(s).len(),
        forall|k: int| 0 <= k < words(s).len() ==> #[trigger] words(s + more)[k] == words(s)[k],
        more.len() > 0 && !is_space(more.last()) ==> words(s + more).len() > words(s).len(),
    decreases more.len(),
{
    let all = s + more;
    if more.len() == 0 {
        assert(all =~= s);
    } else {
        let front = more.drop_last();
        assert(all.drop_last() =~= s + front);
        assert(all.last() == more[more.len() - 1]);
        if front.len() > 0 {
            assert(front[0] == more[0]);
        }
        words_stay(s, front);
        if !is_space(all.last()) && all.len() > 1 && !is_space(all[all.len() - 2]) {
            if front.len() > 0 {
                assert(all[all.len() - 2] == front[front.len() - 1]);
                let before = words(s + front);
                assert(words(all) == before.drop_last().push(before.last().push(all.last())));
            } else {
                assert(all[all.len() - 2] == s[s.len() - 1]);
            }
        }
    }
}

/// A text is cut at the last `c`: what stands behind that holds no other. A text without `c` is not
/// cut.
pub proof fn text_is_cut_at_the_last(before: Seq<char>, c: char, after: Seq<char>)
    requires
        !after.contains(c),
    ensures
        around_last(before + seq![c] + after, c) == Some((before, after)),
        around_last(after, c) is None,
{
    let all = before + seq![c] + after;
    lemma_last_position(all, c, before.len() as int);
    assert(all.take(before.len() as int) =~= before);
    assert(all.skip(before.len() as int + 1) =~= after);
    lemma_no_position(after, c);
}

proof fn lemma_last_position(s: Seq<char>, c: char, i: int)
    requires
        0 <= i < s.len(),
        s[i] == c,
        forall|k: int| i < k < s.len() ==> s[k] != c,
    ensures
        last_position(s, c) == Some(i),
    decreases s.len(),
{
    if i < s.len() - 1 {
        lemma_last_position(s.drop_last(), c, i);
    }
}

proof fn lemma_no_position(s: Seq<char>, c: char)
    requires
        !s.contains(c),
    ensures
        last_position(s, c) is None,
    decreases s.len(),
{
    if s.len() > 0 {
        assert(s.last() == s[s.len() - 1]);
        let front = s.drop_last();
        if front.contains(c) {
            let i = choose|i: int| 0 <= i < front.len() && front[i] == c;
            assert(s[i] == c);
        }
        lemma_no_position(front, c);
    }
}

/// A suffix is taken off where it is, and nowhere else.
pub proof fn suffix_is_taken_off(s: Seq<char>, front: Seq<char>, suffix: Seq<char>)
    ensures
        without_suffix(s, suffix) == Some(front) <==> s == front + suffix,
{
    if s == front + suffix {
        assert(s.skip(s.len() - suffix.len()) =~= suffix);
        assert(s.take(s.len() - suffix.len()) =~= front);
    }
    if without_suffix(s, suffix) == Some(front) {
        assert(s =~= s.take(s.len() - suffix.len()) + s.skip(s.len() - suffix.len()));
    }
}

/// What is not a number: nothing, a plus sign alone, a text with another character than a digit
/// behind its first, or in its first place but for a plus sign, and what is over the limit.
pub proof fn other_texts_are_no_numbers(s: Seq<char>, i: int, n: nat, max: nat)
    ensures
        s.len() == 0 ==> number(s, max) is None,
        s == seq!['+'] ==> number(s, max) is None,
        0 < i < s.len() && !('0' <= s[i] <= '9') ==> number(s, max) is None,
        s.len() > 0 && s[0] != '+' && !('0' <= s[0] <= '9') ==> number(s, max) is None,
        n > max ==> number(decimal(n), max) is None,
{
    let digits = without_plus(s);
    if 0 < i < s.len() && !('0' <= s[i] <= '9') {
        if s[0] == '+' {
            assert(!is_digit(digits[i - 1]));
        } else {
            assert(!is_digit(digits[i]));
        }
    }
    if s.len() > 0 && s[0] != '+' && !('0' <= s[0] <= '9') {
        assert(!is_digit(digits[0]));
    }
    lemma_decimal(n);
    assert(is_digit(decimal(n)[0]));
}

/// A plus sign and zeros before a number do not change it.
pub proof fn number_may_have_a_sign_and_zeros(n: nat, zeros: Seq<char>, max: nat)
    requires
        n <= max,
        forall|i: int| 0 <= i < zeros.len() ==> #[trigger] zeros[i] == '0',
    ensures
        number(zeros + decimal(n), max) == Some(n),
        number(seq!['+'] + zeros + decimal(n), max) == Some(n),
{
    lemma_decimal(n);
    let digits = zeros + decimal(n);
    lemma_zeros_in_front(zeros, decimal(n));
    assert(all_digits(digits));
    assert(is_digit(digits[0]));
    let signed = seq!['+'] + zeros + decimal(n);
    assert(signed.drop_first() =~= digits);
}

proof fn lemma_zeros_in_front(zeros: Seq<char>, digits: Seq<char>)
    requires
        forall|i: int| 0 <= i < zeros.len() ==> #[trigger] zeros[i] == '0',
    ensures
        digits_value(zeros + digits) == digits_value(digits),
    decreases zeros.len() + digits.len(),
{
    let all = zeros + digits;
    if digits.len() > 0 {
        lemma_zeros_in_front(zeros, digits.drop_last());
        assert(all.drop_last() =~= zeros + digits.drop_last());
        assert(all.last() == digits.last());
    } else if zeros.len() > 0 {
        lemma_zeros_in_front(zeros.drop_last(), digits);
        assert(all.drop_last() =~= zeros.drop_last() + digits);
        assert(all.last() == zeros[zeros.len() - 1]);
        assert(digits_value(digits) == 0);
    } else {
        assert(all =~= digits);
    }
}

/// A number is written with digits alone and without zeros before it; a negative one has a minus
/// sign before its amount.
pub proof fn numbers_are_written_plainly(n: int)
    ensures
        n >= 0 ==> signed_decimal(n) == decimal(n as nat),
        n < 0 ==> signed_decimal(n) == seq!['-'] + decimal((-n) as nat),
        n > 0 ==> decimal(n as nat)[0] != '0',
        n == 0 ==> decimal(0) == seq!['0'],
        n >= 0 ==> forall|i: int|
            0 <= i < decimal(n as nat).len() ==> '0' <= #[trigger] decimal(n as nat)[i] <= '9',
    decreases n,
{
    if n >= 0 {
        lemma_decimal(n as nat);
        assert forall|i: int| 0 <= i < decimal(n as nat).len() implies '0' <= #[trigger] decimal(
            n as nat,
        )[i] <= '9' by {
            assert(is_digit(decimal(n as nat)[i]));
        }
    }
    if n >= 10 {
        numbers_are_written_plainly(n / 10);
        lemma_decimal(n as nat / 10);
        assert(decimal(n as nat)[0] == decimal(n as nat / 10)[0]);
    }
}

/// Among the characters of ASCII, white space is the blank and what stands from the tab to the
/// carriage return.
pub proof fn ascii_blanks(c: char)
    requires
        c as int <= 127,
    ensures
        is_space(c) <==> c == ' ' || 9 <= c as int <= 13,
{
}

/// Digits further to the right make the number no smaller.
proof fn lemma_digits_grow(s: Seq<char>, i: int)
    requires
        0 <= i <= s.len(),
    ensures
        digits_value(s.take(i)) <= digits_value(s),
    decreases s.len(),
{
    if i == s.len() {
        assert(s.take(i) =~= s);
    } else {
        lemma_digits_grow(s.drop_last(), i);
        assert(s.drop_last().take(i) =~= s.take(i));
    }
}

/// Reads a whole number of at most `max`.
pub fn parse_number(s: &str, max: u64) -> (r: Option<u64>)
    ensures
        match r {
            Some(n) => number(s@, max as nat) == Some(n as nat),
            None => number(s@, max as nat) is None,
        },
{
    let chars = to_chars(s);
    let mut start: usize = 0;
    if chars.len() > 0 && chars[0] == '+' {
        start = 1;
    }
    let ghost digits = without_plus(s@);
    assert(digits =~= s@.skip(start as int));
    if start == chars.len() {
        return None;
    }
    let mut value: u64 = 0;
    let mut i: usize = start;
    assert(digits.take(0) =~= Seq::<char>::empty());
    while i < chars.len()
        invariant
            start <= i <= chars.len(),
            chars@ == s@,
            digits == s@.skip(start as int),
            digits == without_plus(s@),
            digits.len() > 0,
            value as nat == digits_value(digits.take(i - start)),
            value <= max,
            forall|k: int| 0 <= k < i - start ==> is_digit(#[trigger] digits[k]),
        decreases chars.len() - i,
    {
        let c = chars[i];
        assert(c == digits[i - start]);
        if c < '0' || c > '9' {
            assert(!is_digit(digits[i - start]));
            return None;
        }
        let ghost longer = digits.take(i - start + 1);
        assert(longer.drop_last() =~= digits.take(i - start));
        assert(longer.last() == c);
        proof {
            lemma_digits_grow(digits, i - start + 1);
        }
        let d: u64 = (c as u32 - '0' as u32) as u64;
        match value.checked_mul(10) {
            None => {
                return None;
            },
            Some(tens) => match tens.checked_add(d) {
                None => {
                    return None;
                },
                Some(sum) => {
                    if sum > max {
                        return None;
                    }
                    value = sum;
                },
            },
        }
        i = i + 1;
    }
    assert(digits.take(digits.len() as int) =~= digits);
    Some(value)
}

/// One decimal digit.
fn digit_text(d: u64) -> (r: &'static str)
    requires
        d < 10,
    ensures
        r@ == seq![digit_char(d as nat)],
{
    proof {
        reveal_strlit("0");
        reveal_strlit("1");
        reveal_strlit("2");
        reveal_strlit("3");
        reveal_strlit("4");
        reveal_strlit("5");
        reveal_strlit("6");
        reveal_strlit("7");
        reveal_strlit("8");
        reveal_strlit("9");
    }
    let r = match d {
        0 => "0",
        1 => "1",
        2 => "2",
        3 => "3",
        4 => "4",
        5 => "5",
        6 => "6",
        7 => "7",
        8 => "8",
        _ => "9",
    };
    assert(r@ =~= seq![digit_char(d as nat)]);
    r
}

/// Writes `n` in decimal digits at the end of `out`.
pub fn push_decimal(out: &mut String, n: u64)
    ensures
        final(out)@ == old(out)@ + decimal(n as nat),
    decreases n,
{
    if n < 10 {
        out.append(digit_text(n));
    } else {
        push_decimal(out, n / 10);
        out.append(digit_text(n % 10));
        assert(out@ =~= old(out)@ + decimal(n as nat));
    }
}

/// Writes `n` in decimal digits, with its sign where it is negative, at the end of `out`.
pub fn push_signed(out: &mut String, n: i64)
    ensures
        final(out)@ == old(out)@ + signed_decimal(n as int),
{
    if n < 0 {
        proof {
            reveal_strlit("-");
        }
        assert("-"@ =~= seq!['-']);
        out.append("-");
        let magnitude: i128 = -(n as i128);
        push_decimal(out, magnitude as u64);
        assert(out@ =~= old(out)@ + signed_decimal(n as int));
    } else {
        push_decimal(out, n as u64);
    }
}

} // verus!
