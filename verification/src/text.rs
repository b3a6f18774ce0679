use vstd::prelude::*;

verus! {

/// The decimal digit character of `d`, for `d` below ten.
pub open spec fn digit_char(d: nat) -> char {
    if d == 0 {
        '0'
    } else if d == 1 {
        '1'
    } else if d == 2 {
        '2'
    } else if d == 3 {
        '3'
    } else if d == 4 {
        '4'
    } else if d == 5 {
        '5'
    } else if d == 6 {
        '6'
    } else if d == 7 {
        '7'
    } else if d == 8 {
        '8'
    } else {
        '9'
    }
}

/// The decimal representation of `n`: no sign, no leading zeros.
pub open spec fn decimal_text(n: nat) -> Seq<char>
    decreases n,
{
    if n < 10 {
        seq![digit_char(n)]
    } else {
        decimal_text(n / 10).push(digit_char(n % 10))
    }
}

/// The value of a decimal digit character.
pub open spec fn decimal_digit(c: char) -> Option<u32> {
    if '0' <= c && c <= '9' {
        Some((c as u32 - '0' as u32) as u32)
    } else {
        None
    }
}

pub proof fn lemma_digit_roundtrip(d: nat)
    requires
        d < 10,
    ensures
        decimal_digit(digit_char(d)) == Some(d as u32),
{
}

/// `char::to_digit` with radix ten: the value of a character `'0'` to `'9'`, or none.
#[verifier::external_body]
pub(crate) fn char_to_digit(c: char) -> (d: Option<u32>)
    ensures
        d == decimal_digit(c),
{
    c.to_digit(10)
}

/// `u8`'s `Display`: its decimal representation.
#[verifier::external_body]
pub(crate) fn u8_to_text(v: u8) -> (s: String)
    ensures
        s@ == decimal_text(v as nat),
{
    v.to_string()
}

} // verus!

verus! {

// ----------------------------------------------------------------------
// Trimming and splitting
// ----------------------------------------------------------------------

/// Whether `c` has the Unicode property White_Space: the ASCII tab, line
/// feed, vertical tab, form feed, carriage return and space, and U+0085,
/// U+00A0, U+1680, U+2000 to U+200A, U+2028, U+2029, U+202F, U+205F and
/// U+3000.
pub open spec fn white_space(c: char) -> bool {
    let u = c as u32;
    ||| 0x09 <= u <= 0x0d
    ||| u == 0x20
    ||| u == 0x85
    ||| u == 0xa0
    ||| u == 0x1680
    ||| 0x2000 <= u <= 0x200a
    ||| u == 0x2028
    ||| u == 0x2029
    ||| u == 0x202f
    ||| u == 0x205f
    ||| u == 0x3000
}

/// `char::is_whitespace`: whether `c` has the Unicode property White_Space.
#[verifier::external_body]
pub(crate) fn is_white_space(c: char) -> (b: bool)
    ensures
        b == white_space(c),
{
    c.is_whitespace()
}

pub open spec fn trim_start(s: Seq<char>) -> Seq<char>
    decreases s.len(),
{
    if s.len() > 0 && white_space(s[0]) {
        trim_start(s.drop_first())
    } else {
        s
    }
}

pub open spec fn trim_end(s: Seq<char>) -> Seq<char>
    decreases s.len(),
{
    if s.len() > 0 && white_space(s.last()) {
        trim_end(s.drop_last())
    } else {
        s
    }
}

/// The text without its leading and trailing white space.
pub open spec fn trimmed(s: Seq<char>) -> Seq<char> {
    trim_end(trim_start(s))
}

/// The text cut at every space: `n` spaces give `n + 1` pieces, some of
/// which may be empty.
pub open spec fn split_at_spaces(s: Seq<char>) -> Seq<Seq<char>>
    decreases s.len(),
{
    if s.len() == 0 {
        seq![Seq::empty()]
    } else {
        let p = split_at_spaces(s.drop_last());
        if s.last() == ' ' {
            p.push(Seq::empty())
        } else {
            p.update(p.len() - 1, p.last().push(s.last()))
        }
    }
}

pub open spec fn texts(v: Seq<String>) -> Seq<Seq<char>> {
    v.map_values(|t: String| t@)
}

pub proof fn lemma_split_at_spaces_len(s: Seq<char>)
    ensures
        split_at_spaces(s).len() >= 1,
    decreases s.len(),
{
    if s.len() > 0 {
        lemma_split_at_spaces_len(s.drop_last());
    }
}

/// `str::trim`: the text without leading and trailing white space.
pub fn trim(s: &str) -> (t: String)
    ensures
        t@ == trimmed(s@),
{
    let n = s.unicode_len();
    let mut i: usize = 0;
    assert(s@.subrange(0, n as int) =~= s@);
    while i < n && is_white_space(s.get_char(i))
        invariant
            n == s@.len(),
            i <= n,
            trim_start(s@) == trim_start(s@.subrange(i as int, n as int)),
        decreases n - i,
    {
        proof {
            assert(s@.subrange(i as int, n as int).drop_first() =~= s@.subrange(i + 1, n as int));
        }
        i += 1;
    }
    proof {
        let rest = s@.subrange(i as int, n as int);
        if rest.len() > 0 {
            assert(rest[0] == s@[i as int]);
        }
        assert(trim_start(s@) == rest);
    }
    let mut j: usize = n;
    while j > i && is_white_space(s.get_char(j - 1))
        invariant
            n == s@.len(),
            i <= j <= n,
            trimmed(s@) == trim_end(s@.subrange(i as int, j as int)),
        decreases j - i,
    {
        proof {
            assert(s@.subrange(i as int, j as int).drop_last() =~= s@.subrange(
                i as int,
                j - 1,
            ));
        }
        j -= 1;
    }
    proof {
        let kept = s@.subrange(i as int, j as int);
        if kept.len() > 0 {
            assert(kept.last() == s@[j - 1]);
        }
        assert(trimmed(s@) == kept);
    }
    let kept = s.substring_char(i, j);
    kept.to_string()
}

/// `str::split(" ")`, the pieces collected.
pub fn split_spaces(s: &str) -> (pieces: Vec<String>)
    ensures
        texts(pieces@) == split_at_spaces(s@),
{
    let n = s.unicode_len();
    let mut pieces: Vec<String> = Vec::new();
    let mut start: usize = 0;
    let mut i: usize = 0;
    proof {
        assert(s@.take(0) =~= Seq::<char>::empty());
        assert(texts(pieces@).push(s@.subrange(0, 0)) =~= seq![Seq::<char>::empty()]);
    }
    while i < n
        invariant
            n == s@.len(),
            start <= i <= n,
            texts(pieces@).push(s@.subrange(start as int, i as int)) == split_at_spaces(
                s@.take(i as int),
            ),
        decreases n - i,
    {
        let c = s.get_char(i);
        proof {
            assert(s@.take(i + 1).drop_last() =~= s@.take(i as int));
            assert(s@.take(i + 1).last() == c);
            lemma_split_at_spaces_len(s@.take(i as int));
        }
        if c == ' ' {
            let piece = s.substring_char(start, i).to_string();
            let ghost before = pieces@;
            pieces.push(piece);
            start = i + 1;
            proof {
                assert(texts(pieces@) =~= texts(before).push(piece@));
                assert(texts(pieces@) =~= split_at_spaces(s@.take(i as int)));
                assert(s@.subrange(start as int, i + 1) =~= Seq::<char>::empty());
                assert(texts(pieces@).push(s@.subrange(start as int, i + 1)) =~= split_at_spaces(
                    s@.take(i + 1),
                ));
            }
        } else {
            proof {
                let p = split_at_spaces(s@.take(i as int));
                assert(s@.subrange(start as int, i + 1) =~= s@.subrange(start as int, i as int).push(
                    c,
                ));
                assert(texts(pieces@).push(s@.subrange(start as int, i + 1)) =~= p.update(
                    p.len() - 1,
                    p.last().push(c),
                ));
            }
        }
        i += 1;
    }
    let last = s.substring_char(start, n).to_string();
    let ghost before = pieces@;
    pieces.push(last);
    proof {
        assert(texts(pieces@) =~= texts(before).push(last@));
        assert(s@.take(n as int) =~= s@);
        assert(texts(pieces@) =~= split_at_spaces(s@));
    }
    pieces
}

// ----------------------------------------------------------------------
// Unsigned numbers
// ----------------------------------------------------------------------

/// The digits of a numeral, after an optional leading `+`.
pub open spec fn numeral_digits(s: Seq<char>) -> Seq<char> {
    if s.len() > 0 && s[0] == '+' {
        s.drop_first()
    } else {
        s
    }
}

/// An optional `+` followed by at least one decimal digit, and nothing else.
pub open spec fn is_numeral(s: Seq<char>) -> bool {
    &&& numeral_digits(s).len() > 0
    &&& forall|i: int|
        0 <= i < numeral_digits(s).len() ==> #[trigger] decimal_digit(numeral_digits(s)[i]) is Some
}

/// The number that a string of decimal digits denotes.
pub open spec fn digits_value(d: Seq<char>) -> nat
    decreases d.len(),
{
    if d.len() == 0 {
        0
    } else {
        digits_value(d.drop_last()) * 10 + decimal_digit(d.last()).unwrap() as nat
    }
}

pub open spec fn numeral_value(s: Seq<char>) -> nat {
    digits_value(numeral_digits(s))
}

/// The text of the error that parsing `s` as a `usize` reports.
pub uninterp spec fn usize_parse_error(s: Seq<char>) -> Seq<char>;

/// The text of the error that parsing `s` as a `u8` reports.
pub uninterp spec fn u8_parse_error(s: Seq<char>) -> Seq<char>;

/// The text of the error that parsing `s` as a `bool` reports.
pub uninterp spec fn bool_parse_error(s: Seq<char>) -> Seq<char>;

/// `str::parse::<usize>`, its error shown as text: it succeeds exactly on
/// a numeral whose value fits, with that value. The error's wording is
/// std's and is not stated here.
#[verifier::external_body]
pub(crate) fn parse_usize(s: &str) -> (r: Result<usize, String>)
    ensures
        match r {
            Ok(n) => is_numeral(s@) && n as nat == numeral_value(s@),
            Err(m) => !(is_numeral(s@) && numeral_value(s@) <= usize::MAX) && m@
                == usize_parse_error(s@),
        },
{
    match s.parse::<usize>() {
        Ok(n) => Ok(n),
        Err(e) => Err(format!("{}", e)),
    }
}

/// `str::parse::<u8>`, its error shown as text: it succeeds exactly on a
/// numeral whose value fits, with that value. The error's wording is std's
/// and is not stated here.
#[verifier::external_body]
pub(crate) fn parse_u8(s: &str) -> (r: Result<u8, String>)
    ensures
        match r {
            Ok(n) => is_numeral(s@) && n as nat == numeral_value(s@),
            Err(m) => !(is_numeral(s@) && numeral_value(s@) <= u8::MAX) && m@ == u8_parse_error(
                s@,
            ),
        },
{
    match s.parse::<u8>() {
        Ok(n) => Ok(n),
        Err(e) => Err(format!("{}", e)),
    }
}

/// `str::parse::<bool>`, its error shown as text: `true` and `false` are
/// the only texts it accepts. The error's wording is std's and is not
/// stated here.
#[verifier::external_body]
pub(crate) fn parse_bool(s: &str) -> (r: Result<bool, String>)
    ensures
        match r {
            Ok(b) => (b && s@ == "true"@) || (!b && s@ == "false"@),
            Err(m) => s@ != "true"@ && s@ != "false"@ && m@ == bool_parse_error(s@),
        },
{
    match s.parse::<bool>() {
        Ok(b) => Ok(b),
        Err(e) => Err(format!("{}", e)),
    }
}

/// `usize`'s `Display`: its decimal representation.
#[verifier::external_body]
pub(crate) fn usize_to_text(n: usize) -> (s: String)
    ensures
        s@ == decimal_text(n as nat),
{
    n.to_string()
}

} // verus!

verus! {

// ----------------------------------------------------------------------
// Facts about decimal text, trimming and splitting.
// ----------------------------------------------------------------------

/// The decimal text of a number is a numeral that denotes the number, and
/// holds neither white space nor spaces.
pub proof fn lemma_decimal_text(n: nat)
    ensures
        decimal_text(n).len() >= 1,
        forall|i: int|
            0 <= i < decimal_text(n).len() ==> #[trigger] decimal_digit(decimal_text(n)[i]) is Some
                && !white_space(decimal_text(n)[i]) && decimal_text(n)[i] != ' '
                && decimal_text(n)[i] != '+' && decimal_text(n)[i] != ';',
        is_numeral(decimal_text(n)),
        numeral_value(decimal_text(n)) == n,
    decreases n,
{
    if n < 10 {
        lemma_digit_roundtrip(n);
        assert(decimal_text(n).drop_last() =~= Seq::<char>::empty());
        assert(numeral_digits(decimal_text(n)) == decimal_text(n));
        assert(digits_value(decimal_text(n)) == digits_value(Seq::<char>::empty()) * 10
            + decimal_digit(digit_char(n)).unwrap() as nat);
    } else {
        lemma_digit_roundtrip(n % 10);
        lemma_decimal_text(n / 10);
        let prefix = decimal_text(n / 10);
        let d = digit_char(n % 10);
        assert(decimal_text(n) == prefix.push(d));
        assert(decimal_text(n).drop_last() =~= prefix);
        assert(decimal_text(n)[0] == prefix[0]);
        assert(decimal_digit(prefix[0]) is Some);
        assert(numeral_digits(prefix) == prefix);
        assert(numeral_digits(decimal_text(n)) == decimal_text(n));
        assert(digits_value(decimal_text(n)) == digits_value(prefix) * 10 + (n % 10));
        assert forall|i: int| 0 <= i < decimal_text(n).len() implies #[trigger] decimal_digit(
            decimal_text(n)[i],
        ) is Some && !white_space(decimal_text(n)[i]) && decimal_text(n)[i] != ' '
            && decimal_text(n)[i] != '+' && decimal_text(n)[i] != ';' by {
            if i < prefix.len() {
                assert(decimal_text(n)[i] == prefix[i]);
            }
        }
    }
}

/// Text that neither starts nor ends with white space is its own trim.
pub proof fn lemma_trim_nothing(s: Seq<char>)
    requires
        s.len() > 0 ==> !white_space(s[0]) && !white_space(s.last()),
    ensures
        trimmed(s) == s,
{
}

/// Text without spaces extends the last piece.
pub proof fn lemma_split_append_word(s: Seq<char>, u: Seq<char>)
    requires
        forall|i: int| 0 <= i < u.len() ==> #[trigger] u[i] != ' ',
    ensures
        split_at_spaces(s + u) == split_at_spaces(s).update(
            split_at_spaces(s).len() - 1,
            split_at_spaces(s).last() + u,
        ),
    decreases u.len(),
{
    lemma_split_at_spaces_len(s);
    let p = split_at_spaces(s);
    if u.len() == 0 {
        assert(s + u =~= s);
        assert(p.update(p.len() - 1, p.last() + u) =~= p);
    } else {
        let init = u.drop_last();
        lemma_split_append_word(s, init);
        let t = s + u;
        assert(t.drop_last() =~= s + init);
        let p1 = split_at_spaces(s + init);
        assert(split_at_spaces(t) == p1.update(p1.len() - 1, p1.last().push(u.last())));
        assert(p1.last().push(u.last()) =~= p.last() + u);
        assert(split_at_spaces(t) =~= p.update(p.len() - 1, p.last() + u));
    }
}

/// Words joined by single spaces split back into the words.
pub proof fn lemma_split_words(words: Seq<Seq<char>>)
    requires
        words.len() >= 1,
        forall|k: int, i: int|
            0 <= k < words.len() && 0 <= i < words[k].len() ==> #[trigger] words[k][i] != ' ',
    ensures
        split_at_spaces(joined(words)) == words,
    decreases words.len(),
{
    if words.len() == 1 {
        assert(joined(words) == words[0]);
        lemma_split_append_word(Seq::empty(), words[0]);
        assert(Seq::<char>::empty() + words[0] =~= words[0]);
        assert(split_at_spaces(Seq::<char>::empty()) == seq![Seq::<char>::empty()]);
        assert(seq![Seq::<char>::empty()].update(0, Seq::<char>::empty() + words[0]) =~= words);
    } else {
        let init = words.drop_last();
        lemma_split_words(init);
        let s = joined(init).push(' ');
        assert(split_at_spaces(s) == init.push(Seq::empty())) by {
            assert(s.drop_last() =~= joined(init));
        }
        let last = words.last();
        assert forall|i: int| 0 <= i < last.len() implies #[trigger] last[i] != ' ' by {
            assert(words[words.len() - 1][i] != ' ');
        }
        lemma_split_append_word(s, last);
        assert(joined(words) =~= s + last);
        let q = init.push(Seq::<char>::empty());
        assert(q.update(q.len() - 1, q.last() + last) =~= words);
    }
}

/// Words joined by single spaces.
pub open spec fn joined(words: Seq<Seq<char>>) -> Seq<char>
    decreases words.len(),
{
    if words.len() <= 1 {
        if words.len() == 0 {
            Seq::empty()
        } else {
            words[0]
        }
    } else {
        joined(words.drop_last()) + seq![' '] + words.last()
    }
}

} // verus!
