//! Reading a program text character by character: splitting it into lines
//! and words, removing comments and surrounding white space, and reading
//! decimal numbers.
//!
//! Positions are indices of characters (not bytes) of the text.
use vstd::prelude::*;

verus! {

/// Characters with the Unicode `White_Space` property.
pub open spec fn is_white_space(c: char) -> bool {
    ||| c == '\t'
    ||| c == '\n'
    ||| c == '\u{0B}'
    ||| c == '\u{0C}'
    ||| c == '\r'
    ||| c == ' '
    ||| c == '\u{85}'
    ||| c == '\u{A0}'
    ||| c == '\u{1680}'
    ||| ('\u{2000}' <= c && c <= '\u{200A}')
    ||| c == '\u{2028}'
    ||| c == '\u{2029}'
    ||| c == '\u{202F}'
    ||| c == '\u{205F}'
    ||| c == '\u{3000}'
}

/// Whether `c` has the Unicode `White_Space` property.
pub fn white_space(c: char) -> (r: bool)
    ensures
        r == is_white_space(c),
{
    c == '\t' || c == '\n' || c == '\u{0B}' || c == '\u{0C}' || c == '\r' || c == ' ' || c
        == '\u{85}' || c == '\u{A0}' || c == '\u{1680}' || ('\u{2000}' <= c && c <= '\u{200A}')
        || c == '\u{2028}' || c == '\u{2029}' || c == '\u{202F}' || c == '\u{205F}' || c
        == '\u{3000}'
}

/// The pieces of `s` between occurrences of `sep`, in order; there is always
/// one more piece than there are separators.
pub open spec fn split_on(s: Seq<char>, sep: char) -> Seq<Seq<char>>
    decreases s.len(),
{
    if s.len() == 0 {
        seq![Seq::empty()]
    } else {
        let pieces = split_on(s.drop_last(), sep);
        if s.last() == sep {
            pieces.push(Seq::empty())
        } else {
            pieces.update(pieces.len() - 1, pieces.last().push(s.last()))
        }
    }
}

/// Splitting always gives at least one piece.
pub proof fn lemma_split_on_nonempty(s: Seq<char>, sep: char)
    ensures
        split_on(s, sep).len() >= 1,
    decreases s.len(),
{
    if s.len() > 0 {
        lemma_split_on_nonempty(s.drop_last(), sep);
    }
}

/// `s` without one carriage return at its end.
pub open spec fn strip_cr(s: Seq<char>) -> Seq<char> {
    if s.len() > 0 && s.last() == '\r' {
        s.drop_last()
    } else {
        s
    }
}

/// The lines of a text: the pieces between line feeds, each piece that a
/// line feed ends without the carriage return before it, and the last piece
/// only where it is not empty.
pub open spec fn lines(t: Seq<char>) -> Seq<Seq<char>> {
    let pieces = split_on(t, '\n');
    let ended = pieces.drop_last().map_values(|l: Seq<char>| strip_cr(l));
    if pieces.last().len() == 0 {
        ended
    } else {
        ended.push(pieces.last())
    }
}

/// `s` up to the first `//`.
pub open spec fn strip_comment(s: Seq<char>) -> Seq<char>
    decreases s.len(),
{
    if s.len() < 2 {
        s
    } else if s[0] == '/' && s[1] == '/' {
        Seq::empty()
    } else {
        seq![s[0]] + strip_comment(s.drop_first())
    }
}

/// `s` without the white space at its start.
pub open spec fn trim_start(s: Seq<char>) -> Seq<char>
    decreases s.len(),
{
    if s.len() > 0 && is_white_space(s[0]) {
        trim_start(s.drop_first())
    } else {
        s
    }
}

/// `s` without the white space at its end.
pub open spec fn trim_end(s: Seq<char>) -> Seq<char>
    decreases s.len(),
{
    if s.len() > 0 && is_white_space(s.last()) {
        trim_end(s.drop_last())
    } else {
        s
    }
}

/// `s` without the white space at either end.
pub open spec fn trim(s: Seq<char>) -> Seq<char> {
    trim_end(trim_start(s))
}

pub open spec fn is_digit(c: char) -> bool {
    '0' <= c && c <= '9'
}

pub open spec fn all_digits(s: Seq<char>) -> bool {
    forall|i: int| 0 <= i < s.len() ==> is_digit(#[trigger] s[i])
}

/// The number that the decimal digits `s` write.
pub open spec fn decimal_value(s: Seq<char>) -> int
    decreases s.len(),
{
    if s.len() == 0 {
        0
    } else {
        10 * decimal_value(s.drop_last()) + (s.last() as int - '0' as int)
    }
}

/// The 16-bit integer that `s` writes: an optional `+` or `-`, then at least
/// one decimal digit, with a value in range.
pub open spec fn parse_i16_spec(s: Seq<char>) -> Option<i16> {
    let negative = s.len() > 0 && s[0] == '-';
    let digits = if s.len() > 0 && (s[0] == '-' || s[0] == '+') {
        s.drop_first()
    } else {
        s
    };
    let value = if negative {
        -decimal_value(digits)
    } else {
        decimal_value(digits)
    };
    if digits.len() > 0 && all_digits(digits) && i16::MIN <= value <= i16::MAX {
        Some(value as i16)
    } else {
        None
    }
}

/// A single decimal digit reads as its value.
pub proof fn lemma_parse_single_digit(c: char)
    requires
        '0' <= c <= '9',
    ensures
        parse_i16_spec(seq![c]) == Some((c as int - '0' as int) as i16),
{
    let s = seq![c];
    assert(s.drop_last() =~= Seq::<char>::empty());
    assert(s[0] == c && s.last() == c);
    assert(decimal_value(s.drop_last()) == 0);
    assert(decimal_value(s) == c as int - '0' as int);
    assert(all_digits(s));
}

/// Appending a decimal digit to a number multiplies it by ten and adds the
/// digit (subtracts it, for a negative number); a text whose value leaves the
/// range of `i16` is refused.
pub proof fn lemma_parse_append_digit(s: Seq<char>, c: char)
    requires
        parse_i16_spec(s) is Some,
        '0' <= c <= '9',
    ensures
        ({
            let v = parse_i16_spec(s)->0 as int;
            let d = c as int - '0' as int;
            let w = if s[0] == '-' {
                10 * v - d
            } else {
                10 * v + d
            };
            parse_i16_spec(s.push(c)) == if -32768 <= w <= 32767 {
                Some(w as i16)
            } else {
                None::<i16>
            }
        }),
{
    let t = s.push(c);
    let signed = s[0] == '-' || s[0] == '+';
    let digits = if signed {
        s.drop_first()
    } else {
        s
    };
    let digits2 = if signed {
        t.drop_first()
    } else {
        t
    };
    assert(t[0] == s[0]);
    assert(digits2 =~= digits.push(c));
    lemma_decimal_value_push(digits, c);
    assert(all_digits(digits2)) by {
        assert forall|i: int| 0 <= i < digits2.len() implies is_digit(#[trigger] digits2[i]) by {
            if i < digits.len() {
                assert(digits2[i] == digits[i]);
            }
        }
    }
}

/// A text with a character that is no decimal digit, other than a sign in
/// front, is refused.
pub proof fn lemma_parse_rejects_non_digit(s: Seq<char>, i: int)
    requires
        0 <= i < s.len(),
        !('0' <= s[i] <= '9'),
        !(i == 0 && (s[0] == '-' || s[0] == '+')),
    ensures
        parse_i16_spec(s) is None,
{
    if s[0] == '-' || s[0] == '+' {
        assert(s.drop_first()[i - 1] == s[i]);
    }
}

/// The empty text and a sign alone are refused.
pub proof fn lemma_parse_rejects_no_digits()
    ensures
        parse_i16_spec(Seq::empty()) is None,
        parse_i16_spec(seq!['-']) is None,
        parse_i16_spec(seq!['+']) is None,
{
    assert(seq!['-'].drop_first() =~= Seq::<char>::empty());
    assert(seq!['+'].drop_first() =~= Seq::<char>::empty());
}

/// A `+` in front of a text that starts with a digit changes nothing, and
/// a `-` in front of it negates its value.
pub proof fn lemma_parse_sign(s: Seq<char>)
    requires
        s.len() > 0,
        '0' <= s[0] <= '9',
    ensures
        parse_i16_spec(seq!['+'] + s) == parse_i16_spec(s),
        parse_i16_spec(s) is Some ==> parse_i16_spec(seq!['-'] + s) == Some(
            (-(parse_i16_spec(s)->0 as int)) as i16,
        ),
{
    assert((seq!['+'] + s).drop_first() =~= s);
    assert((seq!['-'] + s).drop_first() =~= s);
    if parse_i16_spec(s) is Some {
        lemma_decimal_value_nonneg(s);
    }
}

proof fn lemma_decimal_value_nonneg(s: Seq<char>)
    requires
        all_digits(s),
    ensures
        decimal_value(s) >= 0,
    decreases s.len(),
{
    if s.len() > 0 {
        assert(all_digits(s.drop_last()));
        lemma_decimal_value_nonneg(s.drop_last());
    }
}

/// What `strip_comment` keeps is a prefix of its argument.
pub proof fn lemma_strip_comment_prefix(s: Seq<char>)
    ensures
        strip_comment(s).len() <= s.len(),
        forall|i: int| 0 <= i < strip_comment(s).len() ==> #[trigger] strip_comment(s)[i] == s[i],
    decreases s.len(),
{
    if s.len() >= 2 && !(s[0] == '/' && s[1] == '/') {
        lemma_strip_comment_prefix(s.drop_first());
    }
}

/// Removing the comment of a line that has none changes nothing.
pub proof fn lemma_strip_comment_idempotent(s: Seq<char>)
    ensures
        strip_comment(strip_comment(s)) == strip_comment(s),
    decreases s.len(),
{
    if s.len() >= 2 && !(s[0] == '/' && s[1] == '/') {
        let rest = s.drop_first();
        let t = strip_comment(rest);
        let r = strip_comment(s);
        lemma_strip_comment_idempotent(rest);
        lemma_strip_comment_prefix(rest);
        assert(r == seq![s[0]] + t);
        assert(r.drop_first() =~= t);
        if r.len() >= 2 {
            assert(r[1] == t[0]);
            assert(t[0] == rest[0]);
            assert(!(r[0] == '/' && r[1] == '/'));
        }
    }
}

proof fn lemma_decimal_value_push(s: Seq<char>, c: char)
    requires
        all_digits(s),
        is_digit(c),
    ensures
        decimal_value(s.push(c)) == 10 * decimal_value(s) + (c as int - '0' as int),
        decimal_value(s) >= 0,
        decimal_value(s.push(c)) >= decimal_value(s),
    decreases s.len(),
{
    assert(s.push(c).drop_last() =~= s);
    if s.len() > 0 {
        assert(all_digits(s.drop_last()));
        lemma_decimal_value_push(s.drop_last(), s.last());
        assert(s.drop_last().push(s.last()) =~= s);
    }
}

/// The characters of `text`, in order.
pub fn text_chars(text: &str) -> (r: Vec<char>)
    ensures
        r@ == text@,
{
    let mut r: Vec<char> = Vec::new();
    broadcast use vstd::string::group_string_axioms;
    for c in it: text.chars()
        invariant
            it.seq() == text@,
            r@ == it.seq().take(it.index() as int),
    {
        r.push(c);
    }
    assert(r@ =~= text@);
    r
}

/// The ranges of the pieces of `chars[start..end]` between occurrences of
/// `sep`.
pub fn split_ranges(chars: &Vec<char>, start: usize, end: usize, sep: char) -> (r: Vec<
    (usize, usize),
>)
    requires
        start <= end <= chars.len(),
    ensures
        r.len() == split_on(chars@.subrange(start as int, end as int), sep).len(),
        forall|k: int|
            0 <= k < r.len() ==> {
                &&& start <= (#[trigger] r@[k]).0 <= r@[k].1 <= end
                &&& chars@.subrange(r@[k].0 as int, r@[k].1 as int) == split_on(
                    chars@.subrange(start as int, end as int),
                    sep,
                )[k]
            },
{
    let mut r: Vec<(usize, usize)> = Vec::new();
    let mut piece_start: usize = start;
    let mut i: usize = start;
    while i < end
        invariant
            start <= piece_start <= i <= end <= chars.len(),
            r.len() + 1 == split_on(chars@.subrange(start as int, i as int), sep).len(),
            forall|k: int|
                0 <= k < r.len() ==> {
                    &&& start <= (#[trigger] r@[k]).0 <= r@[k].1 <= i
                    &&& chars@.subrange(r@[k].0 as int, r@[k].1 as int) == split_on(
                        chars@.subrange(start as int, i as int),
                        sep,
                    )[k]
                },
            chars@.subrange(piece_start as int, i as int) == split_on(
                chars@.subrange(start as int, i as int),
                sep,
            ).last(),
        decreases end - i,
    {
        let ghost before = chars@.subrange(start as int, i as int);
        let ghost after = chars@.subrange(start as int, i + 1);
        proof {
            assert(after.drop_last() =~= before);
            lemma_split_on_nonempty(before, sep);
        }
        if chars[i] == sep {
            r.push((piece_start, i));
            piece_start = i + 1;
            assert(chars@.subrange(piece_start as int, i + 1) =~= Seq::<char>::empty());
        } else {
            assert(chars@.subrange(piece_start as int, i + 1) =~= chars@.subrange(
                piece_start as int,
                i as int,
            ).push(chars@[i as int]));
        }
        i = i + 1;
    }
    proof {
        lemma_split_on_nonempty(chars@.subrange(start as int, end as int), sep);
    }
    r.push((piece_start, end));
    r
}

/// The ranges of the lines of `chars`.
pub fn line_ranges(chars: &Vec<char>) -> (r: Vec<(usize, usize)>)
    ensures
        r.len() == lines(chars@).len(),
        forall|k: int|
            0 <= k < r.len() ==> {
                &&& (#[trigger] r@[k]).0 <= r@[k].1 <= chars.len()
                &&& chars@.subrange(r@[k].0 as int, r@[k].1 as int) == lines(chars@)[k]
            },
{
    let pieces = split_ranges(chars, 0, chars.len(), '\n');
    let ghost all = chars@.subrange(0, chars.len() as int);
    assert(all =~= chars@);
    let ghost spec_pieces = split_on(chars@, '\n');
    let ghost ended = spec_pieces.drop_last().map_values(|l: Seq<char>| strip_cr(l));
    proof {
        lemma_split_on_nonempty(chars@, '\n');
    }
    let mut r: Vec<(usize, usize)> = Vec::new();
    let last = pieces.len() - 1;
    let mut k: usize = 0;
    while k < last
        invariant
            last + 1 == pieces.len() == spec_pieces.len(),
            spec_pieces == split_on(chars@, '\n'),
            ended == spec_pieces.drop_last().map_values(|l: Seq<char>| strip_cr(l)),
            k <= last,
            r.len() == k,
            forall|j: int|
                0 <= j < pieces.len() ==> {
                    &&& (#[trigger] pieces@[j]).0 <= pieces@[j].1 <= chars.len()
                    &&& chars@.subrange(pieces@[j].0 as int, pieces@[j].1 as int)
                        == spec_pieces[j]
                },
            forall|j: int|
                0 <= j < k ==> {
                    &&& (#[trigger] r@[j]).0 <= r@[j].1 <= chars.len()
                    &&& chars@.subrange(r@[j].0 as int, r@[j].1 as int) == ended[j]
                },
        decreases last - k,
    {
        let (s, e) = pieces[k];
        let ghost piece = spec_pieces[k as int];
        assert(ended[k as int] == strip_cr(piece));
        if s < e && chars[e - 1] == '\r' {
            assert(chars@.subrange(s as int, e - 1) =~= piece.drop_last());
            r.push((s, e - 1));
        } else {
            r.push((s, e));
        }
        k = k + 1;
    }
    let (s, e) = pieces[last];
    if s < e {
        r.push((s, e));
    }
    proof {
        if s < e {
            assert(r@.len() == ended.push(spec_pieces.last()).len());
        }
    }
    r
}

/// The end of `chars[start..end]` without its comment: the position of the
/// first `//`, or `end`.
pub fn comment_start(chars: &Vec<char>, start: usize, end: usize) -> (r: usize)
    requires
        start <= end <= chars.len(),
    ensures
        start <= r <= end,
        chars@.subrange(start as int, r as int) == strip_comment(
            chars@.subrange(start as int, end as int),
        ),
{
    let mut i: usize = start;
    while end - i > 1
        invariant
            start <= i <= end <= chars.len(),
            strip_comment(chars@.subrange(start as int, end as int)) == chars@.subrange(
                start as int,
                i as int,
            ) + strip_comment(chars@.subrange(i as int, end as int)),
        decreases end - i,
    {
        let ghost rest = chars@.subrange(i as int, end as int);
        if chars[i] == '/' && chars[i + 1] == '/' {
            assert(strip_comment(rest) =~= Seq::<char>::empty());
            assert(chars@.subrange(start as int, i as int) + Seq::<char>::empty() =~= chars@.subrange(
                start as int,
                i as int,
            ));
            return i;
        }
        assert(rest.drop_first() =~= chars@.subrange(i + 1, end as int));
        assert(chars@.subrange(start as int, i as int) + (seq![chars@[i as int]] + strip_comment(
            chars@.subrange(i + 1, end as int),
        )) =~= chars@.subrange(start as int, i + 1) + strip_comment(
            chars@.subrange(i + 1, end as int),
        ));
        i = i + 1;
    }
    assert(chars@.subrange(start as int, i as int) + chars@.subrange(i as int, end as int)
        =~= chars@.subrange(start as int, end as int));
    end
}

/// The range of `chars[start..end]` without the white space at either end.
pub fn trim_range(chars: &Vec<char>, start: usize, end: usize) -> (r: (usize, usize))
    requires
        start <= end <= chars.len(),
    ensures
        start <= r.0 <= r.1 <= end,
        chars@.subrange(r.0 as int, r.1 as int) == trim(chars@.subrange(start as int, end as int)),
{
    let mut s: usize = start;
    while s < end && white_space(chars[s])
        invariant
            start <= s <= end <= chars.len(),
            trim_start(chars@.subrange(start as int, end as int)) == trim_start(
                chars@.subrange(s as int, end as int),
            ),
        decreases end - s,
    {
        assert(chars@.subrange(s as int, end as int).drop_first() =~= chars@.subrange(
            s + 1,
            end as int,
        ));
        s = s + 1;
    }
    let mut e: usize = end;
    while e > s && white_space(chars[e - 1])
        invariant
            start <= s <= e <= end <= chars.len(),
            trim_end(chars@.subrange(s as int, end as int)) == trim_end(
                chars@.subrange(s as int, e as int),
            ),
        decreases e - s,
    {
        assert(chars@.subrange(s as int, e as int).drop_last() =~= chars@.subrange(
            s as int,
            e - 1,
        ));
        e = e - 1;
    }
    (s, e)
}

/// Whether `chars[start..end]` is the text `word`.
pub fn range_is(chars: &Vec<char>, start: usize, end: usize, word: &str) -> (r: bool)
    requires
        start <= end <= chars.len(),
    ensures
        r == (chars@.subrange(start as int, end as int) == word@),
{
    let n = word.unicode_len();
    if end - start != n {
        return false;
    }
    let mut i: usize = 0;
    while i < n
        invariant
            n == word@.len(),
            end - start == n,
            start <= end <= chars.len(),
            i <= n,
            chars@.subrange(start as int, start + i) == word@.subrange(0, i as int),
        decreases n - i,
    {
        if chars[start + i] != word.get_char(i) {
            assert(chars@.subrange(start as int, end as int)[i as int] != word@[i as int]);
            return false;
        }
        i = i + 1;
        assert(chars@.subrange(start as int, start + i) =~= word@.subrange(0, i as int));
    }
    assert(chars@.subrange(start as int, end as int) =~= word@);
    true
}

/// The 16-bit integer that `chars[start..end]` writes, if it writes one.
pub fn parse_i16(chars: &Vec<char>, start: usize, end: usize) -> (r: Option<i16>)
    requires
        start <= end <= chars.len(),
    ensures
        r == parse_i16_spec(chars@.subrange(start as int, end as int)),
{
    let ghost s = chars@.subrange(start as int, end as int);
    let negative = start < end && chars[start] == '-';
    let digits_start = if start < end && (chars[start] == '-' || chars[start] == '+') {
        start + 1
    } else {
        start
    };
    let ghost digits = chars@.subrange(digits_start as int, end as int);
    assert(digits =~= (if s.len() > 0 && (s[0] == '-' || s[0] == '+') {
        s.drop_first()
    } else {
        s
    }));
    if digits_start == end {
        return None;
    }
    let mut value: i32 = 0;
    let mut too_big = false;
    let mut i: usize = digits_start;
    while i < end
        invariant
            digits_start <= i <= end <= chars.len(),
            digits == chars@.subrange(digits_start as int, end as int),
            s == chars@.subrange(start as int, end as int),
            digits == (if s.len() > 0 && (s[0] == '-' || s[0] == '+') {
                s.drop_first()
            } else {
                s
            }),
            all_digits(chars@.subrange(digits_start as int, i as int)),
            !too_big ==> 0 <= value <= 32768 && value == decimal_value(
                chars@.subrange(digits_start as int, i as int),
            ),
            too_big ==> decimal_value(chars@.subrange(digits_start as int, i as int)) > 32768,
        decreases end - i,
    {
        let c = chars[i];
        if !('0' <= c && c <= '9') {
            assert(digits[i - digits_start] == c);
            return None;
        }
        let ghost prefix = chars@.subrange(digits_start as int, i as int);
        proof {
            lemma_decimal_value_push(prefix, c);
            assert(prefix.push(c) =~= chars@.subrange(digits_start as int, i + 1));
        }
        if !too_big {
            let d = (c as u32 - '0' as u32) as i32;
            let next = value * 10 + d;
            if next > 32768 {
                too_big = true;
            } else {
                value = next;
            }
        }
        i = i + 1;
    }
    assert(chars@.subrange(digits_start as int, end as int) == digits);
    if too_big {
        return None;
    }
    let signed = if negative {
        -value
    } else {
        value
    };
    if signed < -32768 || signed > 32767 {
        None
    } else {
        Some(signed as i16)
    }
}

/// `strip_comment(s)` keeps `s` up to its first `//`: it is a prefix of
/// `s`, no `//` of `s` starts inside it, and where it is shorter than `s`,
/// `s` goes on with `//`.
pub proof fn lemma_strip_comment_first_slashes(s: Seq<char>)
    ensures
        ({
            let r = strip_comment(s);
            &&& r.len() <= s.len()
            &&& r == s.take(r.len() as int)
            &&& forall|i: int|
                0 <= i < r.len() && i + 1 < s.len() ==> !(s[i] == '/' && #[trigger] s[i + 1] == '/')
            &&& r.len() < s.len() ==> r.len() + 1 < s.len() && s[r.len() as int] == '/' && s[r.len() + 1int] == '/'
        }),
    decreases s.len(),
{
    let r = strip_comment(s);
    if s.len() < 2 {
        assert(r == s.take(s.len() as int));
    } else if s[0] == '/' && s[1] == '/' {
        assert(r == s.take(0));
    } else {
        let rest = s.drop_first();
        lemma_strip_comment_first_slashes(rest);
        let t = strip_comment(rest);
        assert(r == seq![s[0]] + t);
        assert(r =~= s.take(r.len() as int));
        assert forall|i: int| 0 <= i < r.len() && i + 1 < s.len() implies !(s[i] == '/' && #[trigger] s[i
            + 1] == '/') by {
            if i > 0 {
                assert(rest[i - 1] == s[i]);
                assert(rest[i] == s[i + 1]);
            }
        }
        if r.len() < s.len() {
            assert(rest[t.len() as int] == s[r.len() as int]);
            assert(rest[t.len() + 1int] == s[r.len() + 1int]);
        }
    }
}

/// `trim_start(s)` is what follows the white space at the start of `s`:
/// `s` from `a` on, all white space before `a`, and `s[a]` none.
pub proof fn lemma_trim_start_cut(s: Seq<char>) -> (a: int)
    ensures
        0 <= a <= s.len(),
        trim_start(s) == s.subrange(a, s.len() as int),
        forall|i: int| 0 <= i < a ==> is_white_space(#[trigger] s[i]),
        a < s.len() ==> !is_white_space(s[a]),
    decreases s.len(),
{
    if s.len() > 0 && is_white_space(s[0]) {
        let rest = s.drop_first();
        let b = lemma_trim_start_cut(rest);
        assert(rest.subrange(b, rest.len() as int) =~= s.subrange(b + 1, s.len() as int));
        assert forall|i: int| 0 <= i < b + 1 implies is_white_space(#[trigger] s[i]) by {
            if i > 0 {
                assert(rest[i - 1] == s[i]);
            }
        }
        b + 1
    } else {
        assert(s.subrange(0, s.len() as int) =~= s);
        0
    }
}

/// `trim_end(s)` is what precedes the white space at the end of `s`: `s`
/// up to `b`, all white space from `b` on, and `s[b - 1]` none.
pub proof fn lemma_trim_end_cut(s: Seq<char>) -> (b: int)
    ensures
        0 <= b <= s.len(),
        trim_end(s) == s.subrange(0, b),
        forall|i: int| b <= i < s.len() ==> is_white_space(#[trigger] s[i]),
        b > 0 ==> !is_white_space(s[b - 1]),
    decreases s.len(),
{
    if s.len() > 0 && is_white_space(s.last()) {
        let rest = s.drop_last();
        let b = lemma_trim_end_cut(rest);
        assert(rest.subrange(0, b) =~= s.subrange(0, b));
        assert forall|i: int| b <= i < s.len() implies is_white_space(#[trigger] s[i]) by {
            if i < s.len() - 1 {
                assert(rest[i] == s[i]);
            }
        }
        b
    } else {
        assert(s.subrange(0, s.len() as int) =~= s);
        s.len() as int
    }
}

/// `trim(s)` is the part of `s` between the white space at its start and
/// the white space at its end: `s[a..b]`, with only white space outside,
/// and no white space at either end of it.
pub proof fn lemma_trim_cut(s: Seq<char>) -> (r: (int, int))
    ensures
        0 <= r.0 <= r.1 <= s.len(),
        trim(s) == s.subrange(r.0, r.1),
        forall|i: int| 0 <= i < r.0 ==> is_white_space(#[trigger] s[i]),
        forall|i: int| r.1 <= i < s.len() ==> is_white_space(#[trigger] s[i]),
        r.0 < r.1 ==> !is_white_space(s[r.0]) && !is_white_space(s[r.1 - 1]),
{
    let a = lemma_trim_start_cut(s);
    let t = trim_start(s);
    let b = lemma_trim_end_cut(t);
    assert(t.subrange(0, b) =~= s.subrange(a, a + b));
    assert forall|i: int| a + b <= i < s.len() implies is_white_space(#[trigger] s[i]) by {
        assert(t[i - a] == s[i]);
    }
    if b > 0 {
        assert(t[b - 1] == s[a + b - 1]);
        if a == s.len() {
            assert(false);
        }
    }
    (a, a + b)
}

/// The pieces joined back together, with `sep` between two pieces.
pub open spec fn joined(pieces: Seq<Seq<char>>, sep: char) -> Seq<char>
    decreases pieces.len(),
{
    if pieces.len() == 0 {
        Seq::empty()
    } else if pieces.len() == 1 {
        pieces[0]
    } else {
        joined(pieces.drop_last(), sep).push(sep) + pieces.last()
    }
}

/// Splitting at `sep` cuts `s` at every `sep` and nowhere else: no piece
/// holds `sep`, and joining the pieces with `sep` gives `s` back.
pub proof fn lemma_split_on_joins(s: Seq<char>, sep: char)
    ensures
        joined(split_on(s, sep), sep) == s,
        forall|k: int, i: int|
            0 <= k < split_on(s, sep).len() && 0 <= i < split_on(s, sep)[k].len()
                ==> #[trigger] split_on(s, sep)[k][i] != sep,
    decreases s.len(),
{
    if s.len() == 0 {
        assert(joined(split_on(s, sep), sep) =~= s);
    } else {
        let p = split_on(s.drop_last(), sep);
        lemma_split_on_joins(s.drop_last(), sep);
        lemma_split_on_nonempty(s.drop_last(), sep);
        let q = split_on(s, sep);
        if s.last() == sep {
            assert(q == p.push(Seq::empty()));
            assert(q.drop_last() =~= p);
            assert(joined(q, sep) =~= s);
            assert forall|k: int, i: int| 0 <= k < q.len() && 0 <= i < q[k].len() implies #[trigger] q[k][i]
                != sep by {
                assert(q[k] == p[k]);
            }
        } else {
            let n = p.len() - 1;
            assert(q == p.update(n, p[n].push(s.last())));
            if p.len() == 1 {
                assert(joined(q, sep) == q[0]);
                assert(joined(p, sep) == p[0]);
                assert(q[0] =~= s);
            } else {
                assert(q.drop_last() =~= p.drop_last());
                assert(joined(q, sep) == joined(p.drop_last(), sep).push(sep) + p[n].push(s.last()));
                assert(joined(p, sep) == joined(p.drop_last(), sep).push(sep) + p[n]);
                let a = joined(p.drop_last(), sep).push(sep);
                assert(a + p[n].push(s.last()) =~= (a + p[n]).push(s.last()));
                assert(s =~= s.drop_last().push(s.last()));
                assert(joined(q, sep) =~= s);
            }
            assert forall|k: int, i: int| 0 <= k < q.len() && 0 <= i < q[k].len() implies #[trigger] q[k][i]
                != sep by {
                if k != n {
                    assert(q[k] == p[k]);
                } else if i < p[n].len() {
                    assert(q[k][i] == p[n][i]);
                }
            }
        }
    }
}

proof fn lemma_split_on_keeps_out(s: Seq<char>, sep: char, c: char)
    requires
        forall|i: int| 0 <= i < s.len() ==> s[i] != c,
    ensures
        forall|k: int, i: int|
            0 <= k < split_on(s, sep).len() && 0 <= i < split_on(s, sep)[k].len()
                ==> #[trigger] split_on(s, sep)[k][i] != c,
    decreases s.len(),
{
    if s.len() > 0 {
        let p = split_on(s.drop_last(), sep);
        lemma_split_on_keeps_out(s.drop_last(), sep, c);
        lemma_split_on_nonempty(s.drop_last(), sep);
        let q = split_on(s, sep);
        let n = p.len() - 1;
        assert forall|k: int, i: int| 0 <= k < q.len() && 0 <= i < q[k].len() implies #[trigger] q[k][i]
            != c by {
            if k < p.len() && !(k == n && s.last() != sep) {
                assert(q[k] == p[k]);
            } else if k == n && s.last() != sep && i < p[n].len() {
                assert(q[k][i] == p[n][i]);
            }
        }
    }
}

/// The lines of a text without carriage returns: no line holds a line feed,
/// and joining the lines with line feeds gives the text back, but for a
/// final line feed.
pub proof fn lemma_lines_of_text(t: Seq<char>)
    requires
        forall|i: int| 0 <= i < t.len() ==> t[i] != '\r',
    ensures
        forall|k: int, i: int|
            0 <= k < lines(t).len() && 0 <= i < lines(t)[k].len() ==> #[trigger] lines(t)[k][i]
                != '\n',
        t.len() > 0 && t.last() == '\n' ==> joined(lines(t), '\n').push('\n') == t,
        !(t.len() > 0 && t.last() == '\n') ==> joined(lines(t), '\n') == t,
{
    let p = split_on(t, '\n');
    lemma_split_on_joins(t, '\n');
    lemma_split_on_keeps_out(t, '\n', '\r');
    lemma_split_on_nonempty(t, '\n');
    let ended = p.drop_last().map_values(|l: Seq<char>| strip_cr(l));
    assert forall|k: int| 0 <= k < p.len() - 1 implies #[trigger] strip_cr(p[k]) == p[k] by {
        if p[k].len() > 0 {
            assert(p[k][p[k].len() - 1] != '\r');
        }
    }
    assert(ended =~= p.drop_last());
    if t.len() == 0 {
        assert(lines(t) =~= Seq::<Seq<char>>::empty());
    } else if t.last() == '\n' {
        assert(p == split_on(t.drop_last(), '\n').push(Seq::empty()));
        assert(lines(t) == p.drop_last());
        lemma_split_on_nonempty(t.drop_last(), '\n');
        assert(p.len() >= 2);
        assert(joined(p, '\n') == joined(p.drop_last(), '\n').push('\n') + p.last());
        assert(joined(p.drop_last(), '\n').push('\n') + p.last() =~= joined(p.drop_last(), '\n').push(
            '\n',
        ));
    } else {
        assert(p.last().len() > 0);
        assert(lines(t) =~= p);
    }
}

/// `t` with every line feed written as a carriage return and a line feed.
pub open spec fn crlf(t: Seq<char>) -> Seq<char>
    decreases t.len(),
{
    if t.len() == 0 {
        t
    } else if t.last() == '\n' {
        crlf(t.drop_last()).push('\r').push('\n')
    } else {
        crlf(t.drop_last()).push(t.last())
    }
}

proof fn lemma_split_crlf(t: Seq<char>)
    requires
        forall|i: int| 0 <= i < t.len() ==> t[i] != '\r',
    ensures
        split_on(crlf(t), '\n').len() == split_on(t, '\n').len(),
        split_on(crlf(t), '\n').last() == split_on(t, '\n').last(),
        forall|k: int|
            0 <= k < split_on(t, '\n').len() - 1 ==> #[trigger] split_on(crlf(t), '\n')[k]
                == split_on(t, '\n')[k].push('\r'),
    decreases t.len(),
{
    lemma_split_on_nonempty(t, '\n');
    if t.len() > 0 {
        let u = t.drop_last();
        lemma_split_crlf(u);
        lemma_split_on_nonempty(u, '\n');
        let p = split_on(u, '\n');
        let q = split_on(crlf(u), '\n');
        lemma_split_on_nonempty(crlf(u), '\n');
        let n = p.len() - 1;
        if t.last() == '\n' {
            let a = crlf(u).push('\r');
            let b = a.push('\n');
            assert(crlf(t) == b);
            assert(b.drop_last() =~= a);
            assert(a.drop_last() =~= crlf(u));
            assert(split_on(a, '\n') == q.update(n, q[n].push('\r')));
            assert(split_on(b, '\n') == split_on(a, '\n').push(Seq::empty()));
            assert(split_on(t, '\n') == p.push(Seq::empty()));
        } else {
            let b = crlf(u).push(t.last());
            assert(crlf(t) == b);
            assert(b.drop_last() =~= crlf(u));
            assert(split_on(t, '\n') == p.update(n, p[n].push(t.last())));
            assert(split_on(b, '\n') == q.update(n, q[n].push(t.last())));
        }
    }
}

/// Line endings written as a carriage return and a line feed give the same
/// lines as line feeds alone: the carriage return is not part of a line.
pub proof fn lemma_lines_crlf(t: Seq<char>)
    requires
        forall|i: int| 0 <= i < t.len() ==> t[i] != '\r',
    ensures
        lines(crlf(t)) == lines(t),
{
    lemma_split_crlf(t);
    lemma_split_on_keeps_out(t, '\n', '\r');
    let p = split_on(t, '\n');
    let q = split_on(crlf(t), '\n');
    lemma_split_on_nonempty(t, '\n');
    let e1 = p.drop_last().map_values(|l: Seq<char>| strip_cr(l));
    let e2 = q.drop_last().map_values(|l: Seq<char>| strip_cr(l));
    assert forall|k: int| 0 <= k < e1.len() implies #[trigger] e1[k] == e2[k] by {
        assert(q[k] == p[k].push('\r'));
        assert(p[k].push('\r').drop_last() =~= p[k]);
        if p[k].len() > 0 {
            assert(p[k][p[k].len() - 1] != '\r');
        }
    }
    assert(e1 =~= e2);
}

} // verus!
