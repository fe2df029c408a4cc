//! Text that the voice library shows, stores and speaks.

use vstd::prelude::*;
use vstd::string::*;

verus! {

/// Longest assistant reply that is spoken, in characters.
pub const MAX_TTS_TEXT_LEN: usize = 2_000;

/// Longest display name of a voice, in characters.
pub const MAX_DISPLAY_NAME_LEN: usize = 80;

/// The character of a decimal digit.
pub open spec fn digit(d: nat) -> char {
    (('0' as u32) + d) as char
}

/// A number in decimal.
pub open spec fn decimal_of(n: nat) -> Seq<char>
    decreases n,
{
    if n < 10 {
        seq![digit(n)]
    } else {
        decimal_of(n / 10).push(digit(n % 10))
    }
}

/// Characters with the Unicode property `White_Space`.
pub open spec fn white_space(c: char) -> bool {
    ||| '\u{9}' <= c <= '\u{d}'
    ||| c == ' '
    ||| c == '\u{85}'
    ||| c == '\u{a0}'
    ||| c == '\u{1680}'
    ||| '\u{2000}' <= c <= '\u{200a}'
    ||| c == '\u{2028}'
    ||| c == '\u{2029}'
    ||| c == '\u{202f}'
    ||| c == '\u{205f}'
    ||| c == '\u{3000}'
}

/// `s` without the white space it begins with.
pub open spec fn trimmed_start(s: Seq<char>) -> Seq<char>
    decreases s.len(),
{
    if s.len() > 0 && white_space(s[0]) {
        trimmed_start(s.drop_first())
    } else {
        s
    }
}

/// `s` without the white space it ends with.
pub open spec fn trimmed_end(s: Seq<char>) -> Seq<char>
    decreases s.len(),
{
    if s.len() > 0 && white_space(s.last()) {
        trimmed_end(s.drop_last())
    } else {
        s
    }
}

/// `s` without white space at either end.
pub open spec fn trimmed(s: Seq<char>) -> Seq<char> {
    trimmed_end(trimmed_start(s))
}

/// At most the first `n` characters of `s`.
pub open spec fn shortened(s: Seq<char>, n: nat) -> Seq<char> {
    if s.len() > n {
        s.take(n as int)
    } else {
        s
    }
}

/// The name under which a voice read from a file with the given stem is shown.
pub open spec fn display_name_of(stem: Option<Seq<char>>) -> Seq<char> {
    let name = match stem {
        Some(s) => trimmed(s),
        None => Seq::empty(),
    };
    if name.len() == 0 {
        "Imported voice"@
    } else {
        shortened(name, MAX_DISPLAY_NAME_LEN as nat)
    }
}

/// The spoken form of an assistant reply.
pub open spec fn spoken(text: Seq<char>) -> Seq<char> {
    if text.len() > MAX_TTS_TEXT_LEN {
        text.take(MAX_TTS_TEXT_LEN as int) + "... message truncated."@
    } else {
        text
    }
}

fn digit_text(d: u64) -> (t: &'static str)
    requires
        d < 10,
    ensures
        t@ == seq![digit(d as nat)],
{
    proof {
        reveal_strlit("0");
        reveal_strlit("1");
        reveal_strlit("2");
        reveal_strlit("3");
        reveal_strlit("4");
        reveal_strlit("5");
        reveal_strlit("6");
        reveal_strlit("7");
        reveal_strlit("8");
        reveal_strlit("9");
    }
    match d {
        0 => "0",
        1 => "1",
        2 => "2",
        3 => "3",
        4 => "4",
        5 => "5",
        6 => "6",
        7 => "7",
        8 => "8",
        _ => "9",
    }
}

/// A number in decimal.
pub fn decimal(n: u64) -> (s: String)
    ensures
        s@ == decimal_of(n as nat),
    decreases n,
{
    if n < 10 {
        digit_text(n).to_owned()
    } else {
        let mut s = decimal(n / 10);
        s.append(digit_text(n % 10));
        s
    }
}

/// One text after another.
pub fn joined(a: &str, b: &str) -> (s: String)
    ensures
        s@ == a@ + b@,
{
    let mut s = a.to_owned();
    s.append(b);
    s
}

/// Three texts, one after another.
pub fn joined3(a: &str, b: &str, c: &str) -> (s: String)
    ensures
        s@ == a@ + b@ + c@,
{
    let mut s = joined(a, b);
    s.append(c);
    s
}

/// Whether a character is white space.
pub fn is_white_space(c: char) -> (r: bool)
    ensures
        r == white_space(c),
{
    ('\u{9}' <= c && c <= '\u{d}') || c == ' ' || c == '\u{85}' || c == '\u{a0}' || c == '\u{1680}'
        || ('\u{2000}' <= c && c <= '\u{200a}') || c == '\u{2028}' || c == '\u{2029}' || c
        == '\u{202f}' || c == '\u{205f}' || c == '\u{3000}'
}

/// A text without white space at either end.
pub fn trim(s: &str) -> (r: &str)
    ensures
        r@ == trimmed(s@),
{
    let length: usize = s.unicode_len();
    let mut start: usize = 0;
    assert(s@.skip(0) =~= s@);
    while start < length && is_white_space(s.get_char(start))
        invariant
            length == s@.len(),
            start <= length,
            trimmed_start(s@) == trimmed_start(s@.skip(start as int)),
        decreases length - start,
    {
        assert(s@.skip(start as int).drop_first() =~= s@.skip(start + 1));
        start = start + 1;
    }
    let ghost rest = s@.skip(start as int);
    assert(trimmed_start(s@) == rest);
    let mut end: usize = length;
    assert(rest.take(length - start) =~= rest);
    while end > start && is_white_space(s.get_char(end - 1))
        invariant
            length == s@.len(),
            start <= end <= length,
            rest == s@.skip(start as int),
            trimmed_end(rest) == trimmed_end(rest.take(end - start)),
        decreases end,
    {
        assert(rest.take(end - start).drop_last() =~= rest.take(end - start - 1));
        end = end - 1;
    }
    assert(s@.subrange(start as int, end as int) =~= rest.take(end - start));
    s.substring_char(start, end)
}

/// The name under which a voice read from a file with the given stem is shown: the
/// trimmed stem, at most 80 characters of it, or a fixed name where nothing is left.
pub fn display_name(stem: Option<&str>) -> (name: String)
    ensures
        name@ == display_name_of(match stem {
            Some(s) => Some(s@),
            None => None,
        }),
{
    if let Some(s) = stem {
        let name: &str = trim(s);
        if !name.is_empty() {
            return if name.unicode_len() > MAX_DISPLAY_NAME_LEN {
                name.substring_char(0, MAX_DISPLAY_NAME_LEN).to_owned()
            } else {
                name.to_owned()
            };
        }
    }
    "Imported voice".to_owned()
}

/// The spoken form of an assistant reply: unchanged, or cut after
/// `MAX_TTS_TEXT_LEN` characters with a spoken notice in place of the rest.
pub fn normalize_agent_tts_text(text: String) -> (r: String)
    ensures
        r@ == spoken(text@),
{
    let s: &str = text.as_str();
    if s.unicode_len() > MAX_TTS_TEXT_LEN {
        joined(s.substring_char(0, MAX_TTS_TEXT_LEN), "... message truncated.")
    } else {
        text
    }
}

/// What is spoken is never longer than 2000 characters and a notice, text that fits is
/// spoken as it is, and of longer text the first 2000 characters.
pub proof fn law_spoken_text_is_bounded(text: Seq<char>)
    ensures
        spoken(text).len() <= 2_000 + "... message truncated."@.len(),
        text.len() <= 2_000 ==> spoken(text) == text,
        text.len() > 2_000 ==> {
            &&& spoken(text).take(2_000) == text.take(2_000)
            &&& spoken(text).skip(2_000) == "... message truncated."@
        },
{
    if text.len() > 2_000 {
        let cut = text.take(2_000);
        assert(spoken(text).take(2_000) =~= cut);
        assert(spoken(text).skip(2_000) =~= "... message truncated."@);
    }
}

/// The number that decimal digits give, the highest first.
pub open spec fn value_of(digits: Seq<char>) -> int
    decreases digits.len(),
{
    if digits.len() == 0 {
        0
    } else {
        10 * value_of(digits.drop_last()) + (digits.last() as int - 48)
    }
}

/// A number written in decimal can be read again, consists of digits and begins with no
/// needless zero.
pub proof fn law_decimal_can_be_read_again(n: nat)
    ensures
        value_of(decimal_of(n)) == n,
        decimal_of(n).len() > 0,
        forall|i: int| 0 <= i < decimal_of(n).len() ==> 48 <= #[trigger] decimal_of(n)[i] <= 57,
        n > 0 ==> decimal_of(n)[0] != '0',
    decreases n,
{
    let s = decimal_of(n);
    reveal_with_fuel(value_of, 2);
    if n >= 10 {
        law_decimal_can_be_read_again(n / 10);
        let t = decimal_of(n / 10);
        assert(s.drop_last() =~= t);
        assert forall|i: int| 0 <= i < s.len() implies 48 <= #[trigger] s[i] <= 57 by {
            if i < t.len() {
                assert(s[i] == t[i]);
            }
        }
        assert(s[0] == t[0]);
    } else {
        assert(s.drop_last() =~= Seq::empty());
    }
}

/// White space are the 25 characters that Unicode gives that property.
pub proof fn law_white_space_characters(c: char)
    ensures
        white_space(c) <==> seq![
            9u32, 10, 11, 12, 13, 32, 133, 160, 5760, 8192, 8193, 8194, 8195, 8196, 8197, 8198,
            8199, 8200, 8201, 8202, 8232, 8233, 8239, 8287, 12288,
        ].contains(c as u32),
{
    let all = seq![
        9u32, 10, 11, 12, 13, 32, 133, 160, 5760, 8192, 8193, 8194, 8195, 8196, 8197, 8198, 8199,
        8200, 8201, 8202, 8232, 8233, 8239, 8287, 12288,
    ];
    let n = c as u32;
    assert(all[0] == 9 && all[1] == 10 && all[2] == 11 && all[3] == 12 && all[4] == 13);
    assert(all[5] == 32 && all[6] == 133 && all[7] == 160 && all[8] == 5760 && all[9] == 8192);
    assert(all[10] == 8193 && all[11] == 8194 && all[12] == 8195 && all[13] == 8196);
    assert(all[14] == 8197 && all[15] == 8198 && all[16] == 8199 && all[17] == 8200);
    assert(all[18] == 8201 && all[19] == 8202 && all[20] == 8232 && all[21] == 8233);
    assert(all[22] == 8239 && all[23] == 8287 && all[24] == 12288);
}

/// Leading white space goes, and nothing else.
proof fn lemma_trimmed_start(s: Seq<char>, a: int)
    requires
        0 <= a <= s.len(),
        forall|i: int| 0 <= i < a ==> white_space(#[trigger] s[i]),
        a < s.len() ==> !white_space(s[a]),
    ensures
        trimmed_start(s) == s.skip(a),
    decreases a,
{
    if a > 0 {
        let rest = s.drop_first();
        assert forall|i: int| 0 <= i < a - 1 implies white_space(#[trigger] rest[i]) by {
            assert(rest[i] == s[i + 1]);
        }
        lemma_trimmed_start(rest, a - 1);
        assert(white_space(s[0]));
        assert(rest.skip(a - 1) =~= s.skip(a));
    } else {
        assert(s.skip(0) =~= s);
    }
}

/// Trailing white space goes, and nothing else.
proof fn lemma_trimmed_end(s: Seq<char>, b: int)
    requires
        0 <= b <= s.len(),
        forall|i: int| b <= i < s.len() ==> white_space(#[trigger] s[i]),
        b > 0 ==> !white_space(s[b - 1]),
    ensures
        trimmed_end(s) == s.take(b),
    decreases s.len() - b,
{
    if b < s.len() {
        let rest = s.drop_last();
        assert forall|i: int| b <= i < rest.len() implies white_space(#[trigger] rest[i]) by {
            assert(rest[i] == s[i]);
        }
        lemma_trimmed_end(rest, b);
        assert(white_space(s[s.len() - 1]));
        assert(rest.take(b) =~= s.take(b));
    } else {
        assert(s.take(b) =~= s);
    }
}

/// Trimming takes a text from its first to its last character that is no white space, and
/// the name shown for a stem is the first 80 characters of that.
pub proof fn law_names_lose_only_outer_white_space(s: Seq<char>, a: int, b: int)
    requires
        0 <= a < b <= s.len(),
        forall|i: int| 0 <= i < a || b <= i < s.len() ==> white_space(#[trigger] s[i]),
        !white_space(s[a]),
        !white_space(s[b - 1]),
    ensures
        trimmed(s) == s.subrange(a, b),
        display_name_of(Some(s)) == s.subrange(
            a,
            if b - a <= 80 {
                b
            } else {
                a + 80
            },
        ),
{
    lemma_trimmed_start(s, a);
    let rest = s.skip(a);
    assert forall|i: int| b - a <= i < rest.len() implies white_space(#[trigger] rest[i]) by {
        assert(rest[i] == s[i + a]);
    }
    lemma_trimmed_end(rest, b - a);
    assert(rest.take(b - a) =~= s.subrange(a, b));
    if b - a > 80 {
        assert(s.subrange(a, b).take(80) =~= s.subrange(a, a + 80));
    }
}

/// A stem of white space alone, and one that is missing, give the same fixed name.
pub proof fn law_blank_names_are_replaced(s: Seq<char>)
    requires
        forall|i: int| 0 <= i < s.len() ==> white_space(#[trigger] s[i]),
    ensures
        trimmed(s).len() == 0,
        display_name_of(Some(s)) == "Imported voice"@,
        display_name_of(None) == "Imported voice"@,
{
    lemma_trimmed_start(s, s.len() as int);
}

} // verus!
