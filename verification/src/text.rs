//! Text as a sequence of characters, and the pieces that the dataset's files
//! are made of: lines, tokens, integers and bits.

use vstd::prelude::*;
use vstd::slice::slice_subrange;

verus! {

/// The characters of `text`, in order.
pub fn chars_of(text: &str) -> (chars: Vec<char>)
    ensures
        chars@ == text@,
{
    let mut chars: Vec<char> = Vec::new();
    for c in it: text.chars()
        invariant
            it.seq() == text@,
            chars@ == it.seq().take(it.index() as int),
    {
        chars.push(c);
        assert(chars@ =~= it.seq().take(it.index() + 1));
    }
    assert(chars@ =~= text@);
    chars
}

/// Whether `c` is white space: a character with the Unicode property
/// `White_Space`.
pub open spec fn spec_is_whitespace(c: char) -> bool {
    let u = c as u32;
    ||| 0x09 <= u <= 0x0D
    ||| u == 0x20
    ||| u == 0x85
    ||| u == 0xA0
    ||| u == 0x1680
    ||| 0x2000 <= u <= 0x200A
    ||| u == 0x2028
    ||| u == 0x2029
    ||| u == 0x202F
    ||| u == 0x205F
    ||| u == 0x3000
}

/// Whether `c` is white space.
#[verifier::when_used_as_spec(spec_is_whitespace)]
pub fn is_whitespace(c: char) -> (b: bool)
    ensures
        b == spec_is_whitespace(c),
{
    let u = c as u32;
    (0x09 <= u && u <= 0x0D) || u == 0x20 || u == 0x85 || u == 0xA0 || u == 0x1680 || (0x2000 <= u
        && u <= 0x200A) || u == 0x2028 || u == 0x2029 || u == 0x202F || u == 0x205F || u == 0x3000
}

/// `s` without the white space it starts with.
pub open spec fn trim_start(s: Seq<char>) -> Seq<char>
    decreases s.len(),
{
    if s.len() > 0 && is_whitespace(s[0]) {
        trim_start(s.drop_first())
    } else {
        s
    }
}

/// `s` without the white space it ends with.
pub open spec fn trim_end(s: Seq<char>) -> Seq<char>
    decreases s.len(),
{
    if s.len() > 0 && is_whitespace(s.last()) {
        trim_end(s.drop_last())
    } else {
        s
    }
}

/// `s` without the white space at either end.
pub open spec fn trim(s: Seq<char>) -> Seq<char> {
    trim_end(trim_start(s))
}

/// The number of characters of `s` before the first `sep`; the length of `s`
/// where it holds none.
pub open spec fn prefix_len(s: Seq<char>, sep: char) -> nat
    decreases s.len(),
{
    if s.len() == 0 || s[0] == sep {
        0
    } else {
        1 + prefix_len(s.drop_first(), sep)
    }
}

/// The number of characters of `s` before its first white space; the length
/// of `s` where it holds none.
pub open spec fn word_len(s: Seq<char>) -> nat
    decreases s.len(),
{
    if s.len() == 0 || is_whitespace(s[0]) {
        0
    } else {
        1 + word_len(s.drop_first())
    }
}

/// The pieces of `s` between the occurrences of `sep`. There is one piece
/// more than there are occurrences.
pub open spec fn split(s: Seq<char>, sep: char) -> Seq<Seq<char>>
    decreases s.len(),
{
    let k = prefix_len(s, sep);
    if k >= s.len() {
        seq![s]
    } else {
        seq![s.take(k as int)] + split(s.skip(k as int + 1), sep)
    }
}

#[via_fn]
proof fn tokens_terminates(s: Seq<char>) {
    lemma_word_len_is_first(s);
}

/// A split yields at least one piece.
pub proof fn lemma_split_holds_a_piece(s: Seq<char>, sep: char)
    ensures
        split(s, sep).len() >= 1,
{
}

/// The tokens of `s`: its longest stretches free of white space.
pub open spec fn tokens(s: Seq<char>) -> Seq<Seq<char>>
    decreases s.len(),
    via tokens_terminates
{
    if s.len() == 0 {
        Seq::empty()
    } else if is_whitespace(s[0]) {
        tokens(s.drop_first())
    } else {
        let k = word_len(s);
        seq![s.take(k as int)] + tokens(s.skip(k as int))
    }
}

/// The lines of `text`: the pieces between the line feeds of the trimmed
/// text.
pub open spec fn lines(text: Seq<char>) -> Seq<Seq<char>> {
    split(trim(text), '\n')
}

/// `pieces` put together again, with `sep` between each two.
pub open spec fn join(pieces: Seq<Seq<char>>, sep: char) -> Seq<char>
    decreases pieces.len(),
{
    if pieces.len() == 0 {
        Seq::empty()
    } else if pieces.len() == 1 {
        pieces[0]
    } else {
        pieces[0] + seq![sep] + join(pieces.drop_first(), sep)
    }
}

/// Before the position that `prefix_len` gives there is no `sep`, and at
/// that position there is one, unless it is the length of `s`.
pub proof fn lemma_prefix_len_is_first(s: Seq<char>, sep: char)
    ensures
        prefix_len(s, sep) <= s.len(),
        forall|i: int| 0 <= i < prefix_len(s, sep) ==> s[i] != sep,
        prefix_len(s, sep) < s.len() ==> s[prefix_len(s, sep) as int] == sep,
    decreases s.len(),
{
    if s.len() > 0 && s[0] != sep {
        let rest = s.drop_first();
        lemma_prefix_len_is_first(rest, sep);
        assert forall|i: int| 0 <= i < prefix_len(s, sep) implies s[i] != sep by {
            if i > 0 {
                assert(s[i] == rest[i - 1]);
            }
        }
        if prefix_len(s, sep) < s.len() {
            assert(s[prefix_len(s, sep) as int] == rest[prefix_len(rest, sep) as int]);
        }
    }
}

/// No piece of a split holds the separator, and the pieces joined by the
/// separator are what was split.
pub proof fn lemma_split_then_join(s: Seq<char>, sep: char)
    ensures
        forall|i: int|
            0 <= i < split(s, sep).len() ==> !(#[trigger] split(s, sep)[i]).contains(sep),
        join(split(s, sep), sep) == s,
    decreases s.len(),
{
    lemma_prefix_len_is_first(s, sep);
    let k = prefix_len(s, sep) as int;
    if k >= s.len() {
        assert(split(s, sep)[0] == s);
    } else {
        let rest = s.skip(k + 1);
        lemma_split_then_join(rest, sep);
        let pieces = split(s, sep);
        assert(pieces.drop_first() =~= split(rest, sep));
        assert(!s.take(k).contains(sep));
        assert forall|i: int| 0 <= i < pieces.len() implies !(#[trigger] pieces[i]).contains(
            sep,
        ) by {
            if i > 0 {
                assert(pieces[i] == split(rest, sep)[i - 1]);
            }
        }
        assert(s.take(k) + seq![sep] + rest =~= s);
    }
}

/// What `trim_start` gives is `s` from some position on: before it stands
/// white space only, and what is left does not start with white space.
pub proof fn lemma_trim_start_cuts_white_space(s: Seq<char>) -> (k: int)
    ensures
        0 <= k <= s.len(),
        trim_start(s) == s.skip(k),
        forall|i: int| 0 <= i < k ==> is_whitespace(#[trigger] s[i]),
        k < s.len() ==> !is_whitespace(s[k]),
    decreases s.len(),
{
    if s.len() > 0 && is_whitespace(s[0]) {
        let rest = s.drop_first();
        let j = lemma_trim_start_cuts_white_space(rest);
        assert(rest.skip(j) =~= s.skip(j + 1));
        assert forall|i: int| 0 <= i < j + 1 implies is_whitespace(#[trigger] s[i]) by {
            if i > 0 {
                assert(s[i] == rest[i - 1]);
            }
        }
        j + 1
    } else {
        assert(s.skip(0) =~= s);
        0
    }
}

/// What `trim_end` gives is `s` up to some position: from it on stands
/// white space only, and what is left does not end with white space.
pub proof fn lemma_trim_end_cuts_white_space(s: Seq<char>) -> (k: int)
    ensures
        0 <= k <= s.len(),
        trim_end(s) == s.take(k),
        forall|i: int| k <= i < s.len() ==> is_whitespace(#[trigger] s[i]),
        k > 0 ==> !is_whitespace(s[k - 1]),
    decreases s.len(),
{
    if s.len() > 0 && is_whitespace(s.last()) {
        let rest = s.drop_last();
        let j = lemma_trim_end_cuts_white_space(rest);
        assert(rest.take(j) =~= s.take(j));
        assert forall|i: int| j <= i < s.len() implies is_whitespace(#[trigger] s[i]) by {
            if i < rest.len() {
                assert(s[i] == rest[i]);
            }
        }
        j
    } else {
        assert(s.take(s.len() as int) =~= s);
        s.len() as int
    }
}

/// `r` is the stretch of `s` from `from` up to `to`; outside of it `s` holds
/// white space only, and it neither starts nor ends with white space.
pub open spec fn is_trimmed(r: Seq<char>, s: Seq<char>, from: int, to: int) -> bool {
    &&& 0 <= from <= to <= s.len()
    &&& r == s.subrange(from, to)
    &&& forall|i: int| 0 <= i < from ==> is_whitespace(#[trigger] s[i])
    &&& forall|i: int| to <= i < s.len() ==> is_whitespace(#[trigger] s[i])
    &&& from < to ==> !is_whitespace(s[from]) && !is_whitespace(s[to - 1])
}

/// What `trim` gives is `s` without the white space at its two ends, and
/// without that only.
pub proof fn lemma_trim_cuts_white_space(s: Seq<char>) -> (cut: (int, int))
    ensures
        is_trimmed(trim(s), s, cut.0, cut.1),
{
    let from = lemma_trim_start_cuts_white_space(s);
    let rest = s.skip(from);
    let kept = lemma_trim_end_cuts_white_space(rest);
    let to = from + kept;
    assert(rest.take(kept) =~= s.subrange(from, to));
    assert forall|i: int| to <= i < s.len() implies is_whitespace(#[trigger] s[i]) by {
        assert(s[i] == rest[i - from]);
    }
    if from < to {
        assert(rest[kept - 1] == s[to - 1]);
    }
    (from, to)
}

/// `w` holds a character, and none that is white space.
pub open spec fn is_word(w: Seq<char>) -> bool {
    w.len() > 0 && forall|j: int| 0 <= j < w.len() ==> !is_whitespace(#[trigger] w[j])
}

/// Every token is a word.
pub proof fn lemma_tokens_are_words(s: Seq<char>)
    ensures
        forall|i: int| 0 <= i < tokens(s).len() ==> is_word(#[trigger] tokens(s)[i]),
    decreases s.len(),
{
    if s.len() == 0 {
        assert(tokens(s).len() == 0);
    } else if is_whitespace(s[0]) {
        lemma_tokens_are_words(s.drop_first());
        assert(tokens(s) == tokens(s.drop_first()));
    } else {
        let k = word_len(s) as int;
        lemma_word_len_is_first(s);
        lemma_tokens_are_words(s.skip(k));
        let found = tokens(s);
        let first = s.take(k);
        assert(is_word(first)) by {
            assert forall|j: int| 0 <= j < first.len() implies !is_whitespace(
                #[trigger] first[j],
            ) by {
                assert(first[j] == s[j]);
            }
        }
        assert forall|i: int| 0 <= i < found.len() implies is_word(#[trigger] found[i]) by {
            if i > 0 {
                assert(found[i] == tokens(s.skip(k))[i - 1]);
            } else {
                assert(found[0] == first);
            }
        }
    }
}

/// Before the position that `word_len` gives there is no white space, and at
/// that position there is some, unless it is the length of `s`.
pub proof fn lemma_word_len_is_first(s: Seq<char>)
    ensures
        word_len(s) <= s.len(),
        forall|i: int| 0 <= i < word_len(s) ==> !is_whitespace(#[trigger] s[i]),
        word_len(s) < s.len() ==> is_whitespace(s[word_len(s) as int]),
    decreases s.len(),
{
    if s.len() > 0 && !is_whitespace(s[0]) {
        let rest = s.drop_first();
        lemma_word_len_is_first(rest);
        assert forall|i: int| 0 <= i < word_len(s) implies !is_whitespace(#[trigger] s[i]) by {
            if i > 0 {
                assert(s[i] == rest[i - 1]);
            }
        }
        if word_len(s) < s.len() {
            assert(s[word_len(s) as int] == rest[word_len(rest) as int]);
        }
    }
}

/// `s` without the white space it starts with.
pub fn trim_start_of(s: &[char]) -> (r: &[char])
    ensures
        r@ == trim_start(s@),
        r@.len() > 0 ==> !is_whitespace(r@.first()),
{
    let mut k: usize = 0;
    assert(s@.skip(0) =~= s@);
    while k < s.len() && is_whitespace(s[k])
        invariant
            k <= s@.len(),
            trim_start(s@) == trim_start(s@.skip(k as int)),
        decreases s@.len() - k,
    {
        assert(s@.skip(k as int).drop_first() =~= s@.skip(k + 1));
        k += 1;
    }
    slice_subrange(s, k, s.len())
}

/// `s` without the white space it ends with.
pub fn trim_end_of(s: &[char]) -> (r: &[char])
    ensures
        r@ == trim_end(s@),
        r@.len() > 0 ==> !is_whitespace(r@.last()),
{
    let mut k: usize = s.len();
    assert(s@.take(k as int) =~= s@);
    while k > 0 && is_whitespace(s[k - 1])
        invariant
            k <= s@.len(),
            trim_end(s@) == trim_end(s@.take(k as int)),
        decreases k,
    {
        assert(s@.take(k as int).drop_last() =~= s@.take(k - 1));
        k -= 1;
    }
    slice_subrange(s, 0, k)
}

/// `s` without the white space at either end.
pub fn trim_of(s: &[char]) -> (r: &[char])
    ensures
        r@ == trim(s@),
        exists|from: int, to: int| is_trimmed(r@, s@, from, to),
{
    proof {
        let cut = lemma_trim_cuts_white_space(s@);
        assert(is_trimmed(trim(s@), s@, cut.0, cut.1));
    }
    trim_end_of(trim_start_of(s))
}

/// The position of the first `sep` in `s`; the length of `s` where it holds
/// none.
pub fn find(s: &[char], sep: char) -> (k: usize)
    ensures
        k == prefix_len(s@, sep),
        k <= s@.len(),
{
    let mut k: usize = 0;
    assert(s@.skip(0) =~= s@);
    while k < s.len() && s[k] != sep
        invariant
            k <= s@.len(),
            prefix_len(s@, sep) == k + prefix_len(s@.skip(k as int), sep),
        decreases s@.len() - k,
    {
        assert(s@.skip(k as int).drop_first() =~= s@.skip(k + 1));
        k += 1;
    }
    k
}

/// The position of the first white space in `s`; the length of `s` where it
/// holds none.
pub fn word_end(s: &[char]) -> (k: usize)
    ensures
        k == word_len(s@),
        k <= s@.len(),
{
    let mut k: usize = 0;
    assert(s@.skip(0) =~= s@);
    while k < s.len() && !is_whitespace(s[k])
        invariant
            k <= s@.len(),
            word_len(s@) == k + word_len(s@.skip(k as int)),
        decreases s@.len() - k,
    {
        assert(s@.skip(k as int).drop_first() =~= s@.skip(k + 1));
        k += 1;
    }
    k
}

/// The pieces that follow the first piece of a split: those of `rest`, or
/// none where the first piece was the last.
pub open spec fn pieces_after(rest: Option<&[char]>, sep: char) -> Seq<Seq<char>> {
    match rest {
        Some(r) => split(r@, sep),
        None => Seq::empty(),
    }
}

/// The first piece of `s` split at `sep`, and what follows the separator if
/// there is one.
pub fn split_first(s: &[char], sep: char) -> (r: (&[char], Option<&[char]>))
    ensures
        split(s@, sep) == seq![r.0@] + pieces_after(r.1, sep),
        r.1 matches Some(rest) ==> rest@.len() < s@.len(),
{
    let k = find(s, sep);
    if k >= s.len() {
        assert(s@.take(k as int) =~= s@);
        assert(seq![s@] + Seq::<Seq<char>>::empty() =~= seq![s@]);
        (s, None)
    } else {
        (slice_subrange(s, 0, k), Some(slice_subrange(s, k + 1, s.len())))
    }
}

/// The first token of `s` and what follows it, if `s` holds a token.
pub fn next_token(s: &[char]) -> (r: Option<(&[char], &[char])>)
    ensures
        r is None ==> tokens(s@) == Seq::<Seq<char>>::empty(),
        r matches Some((token, rest)) ==> {
            &&& tokens(s@) == seq![token@] + tokens(rest@)
            &&& rest@.len() < s@.len()
            &&& is_word(token@)
        },
{
    let mut k: usize = 0;
    assert(s@.skip(0) =~= s@);
    while k < s.len() && is_whitespace(s[k])
        invariant
            k <= s@.len(),
            tokens(s@) == tokens(s@.skip(k as int)),
        decreases s@.len() - k,
    {
        assert(s@.skip(k as int).drop_first() =~= s@.skip(k + 1));
        k += 1;
    }
    if k >= s.len() {
        return None;
    }
    let tail = slice_subrange(s, k, s.len());
    assert(tail@ =~= s@.skip(k as int));
    let n = word_end(tail);
    let token = slice_subrange(tail, 0, n);
    proof {
        lemma_tokens_are_words(s@);
        assert(tokens(s@)[0] == token@);
    }
    Some((token, slice_subrange(tail, n, tail.len())))
}

/// Whether `c` is one of the decimal digits `0` to `9`.
pub open spec fn is_digit(c: char) -> bool {
    0x30 <= c as u32 <= 0x39
}

/// The number that the decimal digit `c` stands for.
pub open spec fn digit_value(c: char) -> nat {
    (c as u32 - 0x30) as nat
}

/// Whether `s` holds decimal digits only.
pub open spec fn all_digits(s: Seq<char>) -> bool {
    forall|i: int| 0 <= i < s.len() ==> is_digit(#[trigger] s[i])
}

/// The number that the decimal digits `s` write, most significant digit
/// first.
pub open spec fn decimal_value(s: Seq<char>) -> nat
    decreases s.len(),
{
    if s.len() == 0 {
        0
    } else {
        decimal_value(s.drop_last()) * 10 + digit_value(s.last())
    }
}

/// `s` without a plus sign at its start.
pub open spec fn without_sign(s: Seq<char>) -> Seq<char> {
    if s.len() > 0 && s[0] == '+' {
        s.drop_first()
    } else {
        s
    }
}

/// The integer that `s` writes: an optional plus sign and then one or more
/// decimal digits, whose value fits a `usize`. `None` for any other `s`.
pub open spec fn integer_of(s: Seq<char>) -> Option<usize> {
    let digits = without_sign(s);
    if digits.len() > 0 && all_digits(digits) && decimal_value(digits) <= usize::MAX {
        Some(decimal_value(digits) as usize)
    } else {
        None
    }
}

/// The bit that `s` writes: `0` for false, `1` for true. `None` for any
/// other `s`.
pub open spec fn bit_of(s: Seq<char>) -> Option<bool> {
    if s == seq!['0'] {
        Some(false)
    } else if s == seq!['1'] {
        Some(true)
    } else {
        None
    }
}

/// The digits read so far never write more than all the digits do.
pub proof fn lemma_decimal_value_grows(s: Seq<char>, k: int)
    requires
        0 <= k <= s.len(),
    ensures
        decimal_value(s.take(k)) <= decimal_value(s),
    decreases s.len() - k,
{
    if k == s.len() {
        assert(s.take(k) =~= s);
    } else {
        assert(s.drop_last().take(k) =~= s.take(k));
        lemma_decimal_value_grows(s.drop_last(), k);
    }
}

/// Reads `s` as an integer.
pub fn parse_integer(s: &[char]) -> (r: Option<usize>)
    ensures
        r == integer_of(s@),
{
    let digits = if s.len() > 0 && s[0] == '+' {
        slice_subrange(s, 1, s.len())
    } else {
        s
    };
    assert(digits@ =~= without_sign(s@));
    if digits.len() == 0 {
        return None;
    }
    let mut value: usize = 0;
    let mut k: usize = 0;
    while k < digits.len()
        invariant
            k <= digits@.len(),
            digits@.len() > 0,
            digits@ == without_sign(s@),
            all_digits(digits@.take(k as int)),
            value == decimal_value(digits@.take(k as int)),
        decreases digits@.len() - k,
    {
        let c = digits[k];
        let u = c as u32;
        if u < 0x30 || u > 0x39 {
            assert(!is_digit(digits@[k as int]));
            return None;
        }
        let d = (u - 0x30) as usize;
        let ghost read = digits@.take(k + 1);
        proof {
            assert(read.drop_last() =~= digits@.take(k as int));
            assert(decimal_value(read) == value * 10 + d);
            if all_digits(digits@) {
                lemma_decimal_value_grows(digits@, k + 1);
            }
        }
        let tenfold = match value.checked_mul(10) {
            Some(t) => t,
            None => {
                return None;
            },
        };
        value = match tenfold.checked_add(d) {
            Some(v) => v,
            None => {
                return None;
            },
        };
        k += 1;
    }
    assert(digits@.take(k as int) =~= digits@);
    Some(value)
}

/// Reads `s` as a bit.
pub fn parse_bit(s: &[char]) -> (r: Option<bool>)
    ensures
        r == bit_of(s@),
{
    if s.len() != 1 {
        None
    } else if s[0] == '0' {
        assert(s@ =~= seq!['0']);
        Some(false)
    } else if s[0] == '1' {
        assert(s@ =~= seq!['1']);
        Some(true)
    } else {
        None
    }
}

/// `String::push`: the string afterwards is the string before with `c` at
/// its end.
#[verifier::external_body]
fn push_char(s: &mut String, c: char)
    ensures
        final(s)@ == old(s)@.push(c),
{
    s.push(c);
}

/// The string made of `chars`.
pub fn string_of(chars: &[char]) -> (s: String)
    ensures
        s@ == chars@,
{
    let mut s = String::new();
    let mut k: usize = 0;
    while k < chars.len()
        invariant
            k <= chars@.len(),
            s@ == chars@.take(k as int),
        decreases chars@.len() - k,
    {
        push_char(&mut s, chars[k]);
        k += 1;
        assert(s@ =~= chars@.take(k as int));
    }
    assert(chars@.take(k as int) =~= chars@);
    s
}

/// The integers that `tokens` write, if each of them writes one.
pub open spec fn integers_of(tokens: Seq<Seq<char>>) -> Option<Seq<usize>> {
    if forall|i: int| 0 <= i < tokens.len() ==> integer_of(#[trigger] tokens[i]) is Some {
        Some(Seq::new(tokens.len(), |i: int| integer_of(tokens[i])->0))
    } else {
        None
    }
}

/// The bits that `tokens` write, if each of them writes one.
pub open spec fn bits_of(tokens: Seq<Seq<char>>) -> Option<Seq<bool>> {
    if forall|i: int| 0 <= i < tokens.len() ==> bit_of(#[trigger] tokens[i]) is Some {
        Some(Seq::new(tokens.len(), |i: int| bit_of(tokens[i])->0))
    } else {
        None
    }
}

/// Reads every token of `s` as an integer.
pub fn parse_integers(s: &[char]) -> (r: Option<Vec<usize>>)
    ensures
        r is Some <==> integers_of(tokens(s@)) is Some,
        r matches Some(values) ==> integers_of(tokens(s@)) == Some(values@),
{
    let mut values: Vec<usize> = Vec::new();
    let mut rest: &[char] = s;
    let ghost read: Seq<Seq<char>> = Seq::empty();
    assert(read + tokens(rest@) =~= tokens(s@));
    loop
        invariant
            tokens(s@) == read + tokens(rest@),
            values@.len() == read.len(),
            forall|i: int|
                0 <= i < read.len() ==> integer_of(#[trigger] read[i]) == Some(values@[i]),
        ensures
            tokens(s@) == read,
            values@.len() == read.len(),
            forall|i: int|
                0 <= i < read.len() ==> integer_of(#[trigger] read[i]) == Some(values@[i]),
        decreases rest@.len(),
    {
        match next_token(rest) {
            None => {
                assert(read + Seq::<Seq<char>>::empty() =~= read);
                break ;
            },
            Some((token, after)) => {
                assert(tokens(s@) =~= read.push(token@) + tokens(after@));
                match parse_integer(token) {
                    None => {
                        assert(tokens(s@)[read.len() as int] == token@);
                        return None;
                    },
                    Some(value) => {
                        values.push(value);
                        proof {
                            read = read.push(token@);
                        }
                        rest = after;
                    },
                }
            },
        }
    }
    assert(values@ =~= integers_of(tokens(s@))->0);
    Some(values)
}

/// Reads every token of `s` as a bit.
pub fn parse_bits(s: &[char]) -> (r: Option<Vec<bool>>)
    ensures
        r is Some <==> bits_of(tokens(s@)) is Some,
        r matches Some(bits) ==> bits_of(tokens(s@)) == Some(bits@),
{
    let mut bits: Vec<bool> = Vec::new();
    let mut rest: &[char] = s;
    let ghost read: Seq<Seq<char>> = Seq::empty();
    assert(read + tokens(rest@) =~= tokens(s@));
    loop
        invariant
            tokens(s@) == read + tokens(rest@),
            bits@.len() == read.len(),
            forall|i: int| 0 <= i < read.len() ==> bit_of(#[trigger] read[i]) == Some(bits@[i]),
        ensures
            tokens(s@) == read,
            bits@.len() == read.len(),
            forall|i: int| 0 <= i < read.len() ==> bit_of(#[trigger] read[i]) == Some(bits@[i]),
        decreases rest@.len(),
    {
        match next_token(rest) {
            None => {
                assert(read + Seq::<Seq<char>>::empty() =~= read);
                break ;
            },
            Some((token, after)) => {
                assert(tokens(s@) =~= read.push(token@) + tokens(after@));
                match parse_bit(token) {
                    None => {
                        assert(tokens(s@)[read.len() as int] == token@);
                        return None;
                    },
                    Some(bit) => {
                        bits.push(bit);
                        proof {
                            read = read.push(token@);
                        }
                        rest = after;
                    },
                }
            },
        }
    }
    assert(bits@ =~= bits_of(tokens(s@))->0);
    Some(bits)
}

/// The pieces of `s` between the occurrences of `sep`, in order.
pub fn split_all<'a>(s: &'a [char], sep: char) -> (pieces: Vec<&'a [char]>)
    ensures
        pieces@.len() == split(s@, sep).len(),
        forall|i: int| 0 <= i < pieces@.len() ==> (#[trigger] pieces@[i])@ == split(s@, sep)[i],
        forall|i: int| 0 <= i < pieces@.len() ==> !(#[trigger] pieces@[i])@.contains(sep),
{
    proof {
        lemma_split_then_join(s@, sep);
    }
    let mut pieces: Vec<&'a [char]> = Vec::new();
    let mut rest: &'a [char] = s;
    let ghost all = split(s@, sep);
    loop
        invariant_except_break
            pieces@.len() + split(rest@, sep).len() == all.len(),
            forall|i: int|
                0 <= i < split(rest@, sep).len() ==> #[trigger] split(rest@, sep)[i]
                    == all[pieces@.len() + i],
        invariant
            all == split(s@, sep),
            forall|i: int| 0 <= i < pieces@.len() ==> (#[trigger] pieces@[i])@ == all[i],
        ensures
            pieces@.len() == all.len(),
            forall|i: int| 0 <= i < pieces@.len() ==> (#[trigger] pieces@[i])@ == all[i],
        decreases rest@.len(),
    {
        let ghost waiting = split(rest@, sep);
        let (piece, after) = split_first(rest, sep);
        assert(waiting[0] == piece@);
        pieces.push(piece);
        match after {
            None => {
                assert(waiting.len() == 1);
                break ;
            },
            Some(next) => {
                assert forall|i: int| 0 <= i < split(next@, sep).len() implies #[trigger] split(
                    next@,
                    sep,
                )[i] == all[pieces@.len() + i] by {
                    assert(waiting[i + 1] == split(next@, sep)[i]);
                }
                rest = next;
            },
        }
    }
    pieces
}

/// The lines of `text`, in order. There is always one line at least.
pub fn lines_of<'a>(text: &'a [char]) -> (found: Vec<&'a [char]>)
    ensures
        found@.len() == lines(text@).len(),
        found@.len() >= 1,
        forall|i: int| 0 <= i < found@.len() ==> (#[trigger] found@[i])@ == lines(text@)[i],
{
    proof {
        lemma_split_holds_a_piece(trim(text@), '\n');
    }
    split_all(trim_of(text), '\n')
}

} // verus!
