//! Text as sequences of characters: trimming, comparing, and the few
//! conversions the rest of the crate builds its messages and words from.

use vstd::prelude::*;
use vstd::string::*;

verus! {

/// `String::push` appends the given character to the end of the string.
pub assume_specification[ String::push ](s: &mut String, c: char)
    ensures
        final(s)@ == old(s)@.push(c),
;

/// The text that the `Debug` form of a string shows: double quotes around
/// it and escapes inside.
pub uninterp spec fn debug_form(s: Seq<char>) -> Seq<char>;

/// `format!` with `{:?}` on a string. Its result is the string's `Debug`
/// form, which depends on the characters alone; the escaping rules are not
/// spelled out here.
#[verifier::external_body]
pub(crate) fn quoted(s: &str) -> (r: String)
    ensures
        r@ == debug_form(s@),
{
    format!("{s:?}")
}

/// Whether two strings hold the same characters.
pub fn same_text(a: &str, b: &str) -> (r: bool)
    ensures
        r == (a@ == b@),
{
    a.to_owned() == b.to_owned()
}

/// The characters of a string, in order.
pub fn chars_of(s: &str) -> (r: Vec<char>)
    ensures
        r@ == s@,
{
    let mut out: Vec<char> = Vec::new();
    for c in it: s.chars()
        invariant
            out@ == it.seq().take(it.index()),
            it.seq() == s@,
    {
        out.push(c);
    }
    out
}

/// The characters with Unicode's `White_Space` property.
pub open spec fn white_space(c: char) -> bool {
    ||| '\u{9}' <= c <= '\u{d}'
    ||| c == '\u{20}'
    ||| c == '\u{85}'
    ||| c == '\u{a0}'
    ||| c == '\u{1680}'
    ||| '\u{2000}' <= c <= '\u{200a}'
    ||| c == '\u{2028}'
    ||| c == '\u{2029}'
    ||| c == '\u{202f}'
    ||| c == '\u{205f}'
    ||| c == '\u{3000}'
}

/// Whether `c` is white space.
pub fn is_white_space(c: char) -> (r: bool)
    ensures
        r == white_space(c),
{
    ('\u{9}' <= c && c <= '\u{d}') || c == '\u{20}' || c == '\u{85}' || c == '\u{a0}' || c
        == '\u{1680}' || ('\u{2000}' <= c && c <= '\u{200a}') || c == '\u{2028}' || c == '\u{2029}'
        || c == '\u{202f}' || c == '\u{205f}' || c == '\u{3000}'
}

/// `s` without its leading white space.
pub open spec fn trim_start_of(s: Seq<char>) -> Seq<char>
    decreases s.len(),
{
    if s.len() > 0 && white_space(s[0]) {
        trim_start_of(s.skip(1))
    } else {
        s
    }
}

/// `s` without its trailing white space.
pub open spec fn trim_end_of(s: Seq<char>) -> Seq<char>
    decreases s.len(),
{
    if s.len() > 0 && white_space(s.last()) {
        trim_end_of(s.drop_last())
    } else {
        s
    }
}

/// `s` without leading and trailing white space.
pub open spec fn trim_of(s: Seq<char>) -> Seq<char> {
    trim_end_of(trim_start_of(s))
}

/// How many leading characters of `cs` are white space.
fn leading_white_space(cs: &Vec<char>) -> (n: usize)
    ensures
        n <= cs@.len(),
        cs@.skip(n as int) == trim_start_of(cs@),
{
    let mut n: usize = 0;
    assert(cs@.skip(0) =~= cs@);
    while n < cs.len() && is_white_space(cs[n])
        invariant
            n <= cs@.len(),
            trim_start_of(cs@.skip(n as int)) == trim_start_of(cs@),
        decreases cs@.len() - n,
    {
        assert(cs@.skip(n as int).skip(1) =~= cs@.skip(n + 1));
        n = n + 1;
    }
    n
}

/// `s` without its leading white space.
pub fn trim_start(s: &str) -> (r: &str)
    ensures
        r@ == trim_start_of(s@),
{
    let cs = chars_of(s);
    let n = leading_white_space(&cs);
    s.substring_char(n, cs.len())
}

/// `s` without leading and trailing white space.
pub fn trim(s: &str) -> (r: &str)
    ensures
        r@ == trim_of(s@),
{
    let cs = chars_of(s);
    let start = leading_white_space(&cs);
    let mut end: usize = cs.len();
    assert(cs@.subrange(start as int, end as int) =~= cs@.skip(start as int));
    while end > start && is_white_space(cs[end - 1])
        invariant
            start <= end <= cs@.len(),
            trim_end_of(cs@.subrange(start as int, end as int)) == trim_of(cs@),
        decreases end,
    {
        assert(cs@.subrange(start as int, end as int).drop_last() =~= cs@.subrange(
            start as int,
            end - 1,
        ));
        end = end - 1;
    }
    s.substring_char(start, end)
}

/// The one character that `s` holds between its white space, if it holds
/// exactly one there.
pub open spec fn sole_char_of(s: Seq<char>) -> Option<char> {
    if trim_of(s).len() == 1 {
        Some(trim_of(s)[0])
    } else {
        None
    }
}

/// The one character that `s` holds between its white space, if it holds
/// exactly one there.
pub fn sole_char(s: &str) -> (r: Option<char>)
    ensures
        r == sole_char_of(s@),
{
    let cs = chars_of(trim(s));
    if cs.len() == 1 {
        Some(cs[0])
    } else {
        None
    }
}

/// Whether `s` begins with a space.
pub open spec fn leads_with_space(s: Seq<char>) -> bool {
    s.len() > 0 && s[0] == ' '
}

/// Whether `s` begins with a space.
pub fn starts_with_space(s: &str) -> (r: bool)
    ensures
        r == leads_with_space(s@),
{
    let cs = chars_of(s);
    cs.len() > 0 && cs[0] == ' '
}

/// Whether `s` ends with a space.
pub fn ends_with_space(s: &str) -> (r: bool)
    ensures
        r == (s@.len() > 0 && s@.last() == ' '),
{
    let cs = chars_of(s);
    cs.len() > 0 && cs[cs.len() - 1] == ' '
}

/// Whether `c` is one of the characters of `set`.
pub fn has_char(set: &str, c: char) -> (r: bool)
    ensures
        r == set@.contains(c),
{
    let cs = chars_of(set);
    for i in 0..cs.len()
        invariant
            cs@ == set@,
            forall|j: int| 0 <= j < i ==> cs@[j] != c,
    {
        if cs[i] == c {
            assert(set@[i as int] == c);
            return true;
        }
    }
    false
}

/// `c`, with `A` to `Z` mapped to `a` to `z`.
pub open spec fn lower_char(c: char) -> char {
    if 'A' <= c <= 'Z' {
        (c as u32 + 32) as char
    } else {
        c
    }
}

/// `s`, with `A` to `Z` mapped to `a` to `z`.
pub open spec fn lower_of(s: Seq<char>) -> Seq<char> {
    s.map_values(|c: char| lower_char(c))
}

/// `s`, with `A` to `Z` mapped to `a` to `z`.
pub fn to_lower(s: &str) -> (r: String)
    ensures
        r@ == lower_of(s@),
{
    let cs = chars_of(s);
    let mut out = String::new();
    for i in 0..cs.len()
        invariant
            cs@ == s@,
            out@ == lower_of(cs@.take(i as int)),
    {
        let c = cs[i];
        let low: char = if 'A' <= c && c <= 'Z' {
            ((c as u8) + 32u8) as char
        } else {
            c
        };
        assert(cs@.take(i + 1) =~= cs@.take(i as int).push(c));
        assert(lower_of(cs@.take(i + 1)) =~= lower_of(cs@.take(i as int)).push(lower_char(c)));
        out.push(low);
    }
    assert(cs@.take(cs@.len() as int) =~= cs@);
    out
}

/// The digits of `n` in base ten.
pub open spec fn decimal_of(n: nat) -> Seq<char>
    decreases n,
{
    if n < 10 {
        seq![(48 + n) as char]
    } else {
        decimal_of(n / 10).push((48 + n % 10) as char)
    }
}

/// The digits of `n` in base ten.
pub fn decimal(n: u128) -> (r: String)
    ensures
        r@ == decimal_of(n as nat),
    decreases n,
{
    let digit: char = (48u8 + (n % 10) as u8) as char;
    let mut out = if n < 10 {
        String::new()
    } else {
        decimal(n / 10)
    };
    out.push(digit);
    assert(n < 10 ==> out@ =~= seq![(48 + n) as char]);
    out
}

/// `list` with `separator` between neighbours.
pub open spec fn joined(list: Seq<Seq<char>>, separator: Seq<char>) -> Seq<char>
    decreases list.len(),
{
    if list.len() == 0 {
        Seq::empty()
    } else if list.len() == 1 {
        list[0]
    } else {
        joined(list.drop_last(), separator) + separator + list.last()
    }
}

/// The contents of a list of strings.
pub open spec fn texts(list: Seq<String>) -> Seq<Seq<char>> {
    list.map_values(|s: String| s@)
}

/// What an optional text holds.
pub open spec fn optional_text(s: Option<String>) -> Option<Seq<char>> {
    match s {
        Some(s) => Some(s@),
        None => None,
    }
}

/// The text that the `Debug` form of a list of strings shows.
pub open spec fn debug_list(list: Seq<Seq<char>>) -> Seq<char> {
    "["@ + joined(list.map_values(|s: Seq<char>| debug_form(s)), ", "@) + "]"@
}

/// The `Debug` form of a list of strings.
pub(crate) fn quoted_list(list: &[String]) -> (r: String)
    ensures
        r@ == debug_list(texts(list@)),
{
    let ghost forms = texts(list@).map_values(|s: Seq<char>| debug_form(s));
    let mut inner = String::new();
    for i in 0..list.len()
        invariant
            forms == texts(list@).map_values(|s: Seq<char>| debug_form(s)),
            inner@ == joined(forms.take(i as int), ", "@),
    {
        assert(forms.take(i + 1).drop_last() =~= forms.take(i as int));
        assert(forms[i as int] == debug_form(list@[i as int]@));
        if i > 0 {
            inner.append(", ");
        }
        inner.append(quoted(list[i].as_str()).as_str());
        assert(i == 0 ==> inner@ =~= forms[0]);
    }
    assert(forms.take(forms.len() as int) =~= forms);
    let mut out = "[".to_owned();
    out.append(inner.as_str());
    out.append("]");
    out
}

/// Whether a text is nothing but white space.
pub open spec fn blank(s: Seq<char>) -> bool {
    forall|i: int| 0 <= i < s.len() ==> white_space(#[trigger] s[i])
}

/// White space is what Unicode says it is: these twenty-five characters,
/// and no others.
pub proof fn law_white_space_characters(c: char)
    ensures
        white_space(c) <==> seq![
            0x9int,
            0xa,
            0xb,
            0xc,
            0xd,
            0x20,
            0x85,
            0xa0,
            0x1680,
            0x2000,
            0x2001,
            0x2002,
            0x2003,
            0x2004,
            0x2005,
            0x2006,
            0x2007,
            0x2008,
            0x2009,
            0x200a,
            0x2028,
            0x2029,
            0x202f,
            0x205f,
            0x3000,
        ].contains(c as int),
{
    let all = seq![
        0x9int,
        0xa,
        0xb,
        0xc,
        0xd,
        0x20,
        0x85,
        0xa0,
        0x1680,
        0x2000,
        0x2001,
        0x2002,
        0x2003,
        0x2004,
        0x2005,
        0x2006,
        0x2007,
        0x2008,
        0x2009,
        0x200a,
        0x2028,
        0x2029,
        0x202f,
        0x205f,
        0x3000,
    ];
    if white_space(c) {
        let at = if c as int <= 0xd {
            c as int - 0x9
        } else if c as int == 0x20 {
            5
        } else if c as int == 0x85 {
            6
        } else if c as int == 0xa0 {
            7
        } else if c as int == 0x1680 {
            8
        } else if c as int <= 0x200a {
            c as int - 0x2000 + 9
        } else if c as int == 0x2028 {
            20
        } else if c as int == 0x2029 {
            21
        } else if c as int == 0x202f {
            22
        } else if c as int == 0x205f {
            23
        } else {
            24
        };
        assert(all[at] == c as int);
    }
}

/// Trimming the front takes off white space and nothing else, and all of
/// it: what is left starts with something visible, or is empty. The result
/// is how many characters go.
pub proof fn law_trim_start_takes_white_space(s: Seq<char>) -> (n: int)
    ensures
        0 <= n <= s.len(),
        trim_start_of(s) == s.skip(n),
        blank(s.take(n)),
        n < s.len() ==> !white_space(s[n]),
    decreases s.len(),
{
    if s.len() > 0 && white_space(s[0]) {
        let rest = law_trim_start_takes_white_space(s.skip(1));
        assert(s.skip(1).skip(rest) =~= s.skip(rest + 1));
        assert forall|i: int| 0 <= i < s.take(rest + 1).len() implies white_space(
            #[trigger] s.take(rest + 1)[i],
        ) by {
            if i > 0 {
                assert(white_space(s.skip(1).take(rest)[i - 1]));
            }
        }
        rest + 1
    } else {
        assert(s.skip(0) =~= s);
        0
    }
}

/// Trimming the end takes off white space and nothing else, and all of it.
/// The result is how many characters stay.
proof fn lemma_trim_end(s: Seq<char>) -> (n: int)
    ensures
        0 <= n <= s.len(),
        trim_end_of(s) == s.take(n),
        blank(s.skip(n)),
        n > 0 ==> !white_space(s[n - 1]),
    decreases s.len(),
{
    if s.len() > 0 && white_space(s.last()) {
        let n = lemma_trim_end(s.drop_last());
        assert(s.drop_last().take(n) =~= s.take(n));
        assert forall|i: int| 0 <= i < s.skip(n).len() implies white_space(
            #[trigger] s.skip(n)[i],
        ) by {
            if n + i < s.len() - 1 {
                assert(white_space(s.drop_last().skip(n)[i]));
            }
        }
        n
    } else {
        assert(s.take(s.len() as int) =~= s);
        s.len() as int
    }
}

/// Trimming takes white space off both ends and nothing else: what is left
/// is one stretch of the text, visible at both of its ends, with blank text
/// around it. Nothing is left of a blank text, and of no other. The result
/// is where the stretch starts and ends.
pub proof fn law_trim_leaves_the_visible_stretch(s: Seq<char>) -> (r: (int, int))
    ensures
        0 <= r.0 <= r.1 <= s.len(),
        trim_of(s) == s.subrange(r.0, r.1),
        blank(s.take(r.0)),
        blank(s.skip(r.1)),
        r.0 < r.1 ==> !white_space(s[r.0]) && !white_space(s[r.1 - 1]),
        trim_of(s).len() == 0 <==> blank(s),
{
    let start = law_trim_start_takes_white_space(s);
    let front = s.skip(start);
    let n = lemma_trim_end(front);
    let end = start + n;
    assert(front.take(n) =~= s.subrange(start, end));
    assert(front.skip(n) =~= s.skip(end));
    if n > 0 {
        assert(front[n - 1] == s[end - 1]);
        assert(!blank(s));
        assert(start < s.len() && !white_space(s[start]));
    } else {
        assert forall|i: int| 0 <= i < s.len() implies white_space(#[trigger] s[i]) by {
            if i < start {
                assert(white_space(s.take(start)[i]));
            } else {
                assert(white_space(s.skip(end)[i - end]));
            }
        }
    }
    (start, end)
}

/// A text holds one character between its white space exactly where it is
/// blank text, a visible character and blank text.
pub proof fn law_sole_character(before: Seq<char>, c: char, behind: Seq<char>)
    requires
        blank(before),
        blank(behind),
        !white_space(c),
    ensures
        sole_char_of(before + seq![c] + behind) == Some(c),
{
    let s = before + seq![c] + behind;
    let at = before.len() as int;
    let r = law_trim_leaves_the_visible_stretch(s);
    assert(s[at] == c);
    assert(r.0 <= at) by {
        if r.0 > at {
            assert(white_space(s.take(r.0)[at]));
        }
    }
    assert(r.1 > at) by {
        if r.1 <= at {
            assert(white_space(s.skip(r.1)[at - r.1]));
        }
    }
    assert(r.0 == at) by {
        if r.0 < at {
            assert(white_space(before[r.0]));
            assert(s[r.0] == before[r.0]);
        }
    }
    assert(r.1 == at + 1) by {
        if r.1 > at + 1 {
            assert(white_space(behind[r.1 - 2 - at]));
            assert(s[r.1 - 1] == behind[r.1 - 2 - at]);
        }
    }
}

/// A text that holds one character between its white space can be taken
/// apart into blank text, that character and blank text. The result is
/// where the character stands.
pub proof fn law_sole_character_stands_alone(s: Seq<char>) -> (at: int)
    ensures
        sole_char_of(s) matches Some(c) ==> {
            &&& 0 <= at < s.len()
            &&& s[at] == c
            &&& !white_space(c)
            &&& blank(s.take(at))
            &&& blank(s.skip(at + 1))
        },
{
    law_trim_leaves_the_visible_stretch(s).0
}

/// Lower case turns `A` to `Z` into `a` to `z`, character by character, and
/// leaves every other character alone.
pub proof fn law_lower_case(s: Seq<char>, i: int)
    requires
        0 <= i < s.len(),
    ensures
        lower_of(s).len() == s.len(),
        'A' <= s[i] <= 'Z' ==> lower_of(s)[i] as int - 'a' as int == s[i] as int - 'A' as int,
        !('A' <= s[i] <= 'Z') ==> lower_of(s)[i] == s[i],
        lower_of(lower_of(s)) == lower_of(s),
{
    assert(lower_of(lower_of(s)) =~= lower_of(s));
}

/// The number that digits in base ten stand for.
pub open spec fn number_of(digits: Seq<char>) -> nat
    decreases digits.len(),
{
    if digits.len() == 0 {
        0
    } else {
        10 * number_of(digits.drop_last()) + (digits.last() as nat - '0' as nat) as nat
    }
}

/// A number that is written down is read back: digits only, the most
/// significant first, and none of them an idle zero.
pub proof fn law_decimals_are_read_back(n: nat)
    ensures
        number_of(decimal_of(n)) == n,
        decimal_of(n).len() > 0,
        forall|i: int| 0 <= i < decimal_of(n).len() ==> '0' <= #[trigger] decimal_of(n)[i] <= '9',
        decimal_of(n).len() > 1 ==> decimal_of(n)[0] != '0',
    decreases n,
{
    let digits = decimal_of(n);
    if n < 10 {
        assert(digits.drop_last() =~= Seq::empty());
        assert(number_of(digits.drop_last()) == 0);
    } else {
        law_decimals_are_read_back(n / 10);
        assert(digits.drop_last() =~= decimal_of(n / 10));
        assert(n / 10 > 0);
        if decimal_of(n / 10).len() == 1 {
            assert(decimal_of(n / 10).drop_last() =~= Seq::empty());
            assert(number_of(decimal_of(n / 10).drop_last()) == 0);
        }
    }
}

/// A list is joined in order, with the separator between neighbours only: a
/// list of one is as it is, and what is put behind a list comes after one
/// separator.
pub proof fn law_joined_one_by_one(list: Seq<Seq<char>>, last: Seq<char>, separator: Seq<char>)
    ensures
        joined(Seq::empty(), separator).len() == 0,
        joined(seq![last], separator) == last,
        list.len() > 0 ==> joined(list.push(last), separator) == joined(list, separator)
            + separator + last,
        list.len() > 0 ==> joined(seq![last] + list, separator) == last + separator + joined(
            list,
            separator,
        ),
    decreases list.len(),
{
    assert(list.push(last).drop_last() =~= list);
    if list.len() > 0 {
        let all = seq![last] + list;
        let rest = list.drop_last();
        assert(all.drop_last() =~= seq![last] + rest);
        law_joined_one_by_one(rest, last, separator);
        if rest.len() == 0 {
            assert(all.drop_last() =~= seq![last]);
        }
        assert(joined(all, separator) =~= last + separator + joined(list, separator));
    }
}

} // verus!
