//! The line classifier: decides whether one input line is a comment, a
//! keyword command, a bare quoted continuation, or nothing recognizable.

use vstd::prelude::*;

use crate::escape::ends_unescaped;
use crate::message::CommentModel;
use crate::message::PotComment;
use crate::message::PotCommentKind;
use crate::command::PotKey;

verus! {

/// Whitespace that is trimmed from the start of a comment's content: the
/// characters with the Unicode `White_Space` property.
pub open spec fn is_space(c: char) -> bool {
    ||| 0x9 <= c as u32 && c as u32 <= 0xD
    ||| c == ' '
    ||| c as u32 == 0x85
    ||| c as u32 == 0xA0
    ||| c as u32 == 0x1680
    ||| 0x2000 <= c as u32 && c as u32 <= 0x200A
    ||| c as u32 == 0x2028
    ||| c as u32 == 0x2029
    ||| c as u32 == 0x202F
    ||| c as u32 == 0x205F
    ||| c as u32 == 0x3000
}

/// `s` without its leading whitespace.
pub open spec fn trim_start_spec(s: Seq<char>) -> Seq<char>
    decreases s.len(),
{
    if s.len() > 0 && is_space(s[0]) {
        trim_start_spec(s.skip(1))
    } else {
        s
    }
}

/// A character that may appear in a command keyword: a lowercase letter or
/// an underscore.
pub open spec fn is_kw_char(c: char) -> bool {
    (97 <= c as u32 && c as u32 <= 122) || c == '_'
}

/// The length of the keyword prefix of a line.
pub open spec fn kw_len(s: Seq<char>) -> nat
    decreases s.len(),
{
    if s.len() > 0 && is_kw_char(s[0]) {
        (1 + kw_len(s.skip(1))) as nat
    } else {
        0
    }
}

/// A decimal digit.
pub open spec fn is_digit(c: char) -> bool {
    48 <= c as u32 && c as u32 <= 57
}

/// The numeric value of a decimal digit.
pub open spec fn dval(c: char) -> nat {
    ((c as u32) - 48) as nat
}

/// The length of the digit prefix of a sequence.
pub open spec fn dig_len(s: Seq<char>) -> nat
    decreases s.len(),
{
    if s.len() > 0 && is_digit(s[0]) {
        (1 + dig_len(s.skip(1))) as nat
    } else {
        0
    }
}

/// The value of a sequence of decimal digits, most significant first.
pub open spec fn digits_val(s: Seq<char>) -> nat
    decreases s.len(),
{
    if s.len() == 0 {
        0
    } else {
        digits_val(s.take(s.len() - 1)) * 10 + dval(s[s.len() - 1])
    }
}

/// A whole quoted string: it starts and ends with `"`, and the closing
/// quote is not itself escaped.
pub open spec fn is_quoted(s: Seq<char>) -> bool {
    s.len() >= 2 && s[0] == '"' && s[s.len() - 1] == '"' && ends_unescaped(
        s.subrange(1, s.len() - 1),
    )
}

/// The characters of the keyword `msgctxt`.
pub open spec fn kw_msgctxt() -> Seq<char> {
    seq!['m', 's', 'g', 'c', 't', 'x', 't']
}

/// The characters of the keyword `msgid`.
pub open spec fn kw_msgid() -> Seq<char> {
    seq!['m', 's', 'g', 'i', 'd']
}

/// The characters of the keyword `msgid_plural`.
pub open spec fn kw_msgid_plural() -> Seq<char> {
    seq!['m', 's', 'g', 'i', 'd', '_', 'p', 'l', 'u', 'r', 'a', 'l']
}

/// The characters of the keyword `msgstr`.
pub open spec fn kw_msgstr() -> Seq<char> {
    seq!['m', 's', 'g', 's', 't', 'r']
}

/// The tagged key a keyword stands for.
pub open spec fn key_of(kw: Seq<char>) -> PotKey {
    if kw == kw_msgctxt() {
        PotKey::Msgctxt
    } else if kw == kw_msgid() {
        PotKey::Msgid
    } else if kw == kw_msgid_plural() {
        PotKey::MsgidPlural
    } else if kw == kw_msgstr() {
        PotKey::Msgstr
    } else {
        PotKey::Other
    }
}

/// The comment kind a marker character stands for.
pub open spec fn comment_kind_of(c: char) -> PotCommentKind {
    if c == ':' {
        PotCommentKind::Reference
    } else if c == '.' {
        PotCommentKind::Extracted
    } else if c == ',' {
        PotCommentKind::Flag
    } else if c == '|' {
        PotCommentKind::Previous
    } else {
        PotCommentKind::Translator
    }
}

/// The comment a comment line stands for: the kind given by the marker, and
/// the remainder with leading whitespace trimmed.
pub open spec fn comment_of_line(line: Seq<char>) -> CommentModel {
    let kind = if line.len() >= 2 {
        comment_kind_of(line[1])
    } else {
        PotCommentKind::Translator
    };
    let start: int = if line.len() >= 2 && kind != PotCommentKind::Translator {
        2
    } else {
        1
    };
    CommentModel { kind: kind, content: trim_start_spec(line.skip(start)) }
}

/// The pieces of a command line — key, optional index, raw quoted body —
/// when the line has the shape
/// `<keyword>` `[` digits `]`? ` ` `"` body `"`.
pub open spec fn command_parts(line: Seq<char>) -> Option<(PotKey, Option<usize>, Seq<char>)> {
    let k = kw_len(line) as int;
    if k == 0 {
        None
    } else if k < line.len() && line[k] == '[' {
        let d = dig_len(line.skip(k + 1)) as int;
        let v = digits_val(line.subrange(k + 1, k + 1 + d));
        if d >= 1 && k + 1 + d < line.len() && line[k + 1 + d] == ']' && v <= usize::MAX as nat
            && k + d + 2 < line.len() && line[k + d + 2] == ' ' && is_quoted(line.skip(k + d + 3)) {
            Some((key_of(line.take(k)), Some(v as usize), line.subrange(k + d + 4, line.len() - 1)))
        } else {
            None
        }
    } else if k < line.len() && line[k] == ' ' && is_quoted(line.skip(k + 1)) {
        Some((key_of(line.take(k)), None, line.subrange(k + 2, line.len() - 1)))
    } else {
        None
    }
}

/// What one input line is: a comment, a command with a raw quoted body, a
/// bare quoted continuation body, or nothing recognizable.
pub enum LineClass {
    Comment(CommentModel),
    Command(PotKey, Option<usize>, Seq<char>),
    Continuation(Seq<char>),
    Blank,
}

/// The classification of one line. Comments take precedence, then commands,
/// then continuations; everything else is skipped.
pub open spec fn classify_spec(line: Seq<char>) -> LineClass {
    if line.len() > 0 && line[0] == '#' {
        LineClass::Comment(comment_of_line(line))
    } else {
        match command_parts(line) {
            Some((key, index, body)) => LineClass::Command(key, index, body),
            None => if is_quoted(line) {
                LineClass::Continuation(line.subrange(1, line.len() - 1))
            } else {
                LineClass::Blank
            },
        }
    }
}

/// The executable result of classifying one line; its view is the line's
/// [`LineClass`]. Command and continuation bodies are still escaped.
pub enum ParsedLine {
    Comment(PotComment),
    Command(PotKey, Option<usize>, String),
    Continuation(String),
    Blank,
}

impl View for ParsedLine {
    type V = LineClass;

    open spec fn view(&self) -> LineClass {
        match self {
            ParsedLine::Comment(c) => LineClass::Comment(c@),
            ParsedLine::Command(key, index, body) => LineClass::Command(*key, *index, body@),
            ParsedLine::Continuation(body) => LineClass::Continuation(body@),
            ParsedLine::Blank => LineClass::Blank,
        }
    }
}

fn is_space_char(c: char) -> (r: bool)
    ensures
        r == is_space(c),
{
    let u = c as u32;
    (0x9 <= u && u <= 0xD) || c == ' ' || u == 0x85 || u == 0xA0 || u == 0x1680 || (0x2000 <= u
        && u <= 0x200A) || u == 0x2028 || u == 0x2029 || u == 0x202F || u == 0x205F || u == 0x3000
}

fn is_kw_char_exec(c: char) -> (r: bool)
    ensures
        r == is_kw_char(c),
{
    let u = c as u32;
    (97 <= u && u <= 122) || c == '_'
}

fn is_digit_exec(c: char) -> (r: bool)
    ensures
        r == is_digit(c),
{
    let u = c as u32;
    48 <= u && u <= 57
}

fn kind_for(c: char) -> (r: PotCommentKind)
    ensures
        r == comment_kind_of(c),
{
    if c == ':' {
        PotCommentKind::Reference
    } else if c == '.' {
        PotCommentKind::Extracted
    } else if c == ',' {
        PotCommentKind::Flag
    } else if c == '|' {
        PotCommentKind::Previous
    } else {
        PotCommentKind::Translator
    }
}

/// The suffix of `s` from `from`, with leading whitespace trimmed.
fn trim_start_substring(s: &str, from: usize, n: usize) -> (r: String)
    requires
        n == s@.len(),
        from <= n,
    ensures
        r@ == trim_start_spec(s@.skip(from as int)),
{
    let mut i = from;
    while i < n && is_space_char(s.get_char(i))
        invariant
            from <= i <= n,
            n == s@.len(),
            trim_start_spec(s@.skip(from as int)) == trim_start_spec(s@.skip(i as int)),
        decreases n - i,
    {
        proof {
            assert(s@.skip(i as int)[0] == s@[i as int]);
            assert(s@.skip(i as int).skip(1) =~= s@.skip(i + 1));
        }
        i = i + 1;
    }
    proof {
        if i < n {
            assert(s@.skip(i as int)[0] == s@[i as int]);
        }
        assert(trim_start_spec(s@.skip(i as int)) == s@.skip(i as int));
        assert(s@.skip(i as int) =~= s@.subrange(i as int, n as int));
    }
    let sub = s.substring_char(i, n);
    sub.to_owned()
}

/// Whether the suffix of `s` from `from` is a whole quoted string.
#[verifier::loop_isolation(false)]
fn check_quoted(s: &str, from: usize, n: usize) -> (r: bool)
    requires
        n == s@.len(),
        from <= n,
    ensures
        r == is_quoted(s@.skip(from as int)),
{
    let ghost suffix = s@.skip(from as int);
    if n - from < 2 {
        return false;
    }
    proof {
        assert(suffix[0] == s@[from as int]);
        assert(suffix[suffix.len() - 1] == s@[n - 1]);
    }
    if s.get_char(from) != '"' {
        return false;
    }
    if s.get_char(n - 1) != '"' {
        return false;
    }
    let ghost body = s@.subrange(from + 1, n - 1);
    proof {
        assert(suffix.subrange(1, suffix.len() - 1) =~= body);
    }
    let mut j = from + 1;
    while j < n - 1
        invariant
            from + 1 <= j <= n - 1,
            n == s@.len(),
            from + 2 <= n,
            ends_unescaped(body) == ends_unescaped(s@.subrange(j as int, n - 1)),
        decreases n - j,
    {
        let ghost rest = s@.subrange(j as int, n - 1);
        proof {
            assert(rest[0] == s@[j as int]);
        }
        let c = s.get_char(j);
        if c == '\\' {
            if j + 1 >= n - 1 {
                proof {
                    assert(rest.len() == 1);
                    assert(rest[0] == '\\');
                    assert(!ends_unescaped(rest));
                    assert(!is_quoted(suffix));
                }
                return false;
            }
            proof {
                assert(rest.skip(2) =~= s@.subrange(j + 2, n - 1));
            }
            j = j + 2;
        } else {
            proof {
                assert(rest.skip(1) =~= s@.subrange(j + 1, n - 1));
            }
            j = j + 1;
        }
    }
    proof {
        assert(s@.subrange(j as int, n - 1) =~= Seq::<char>::empty());
    }
    true
}

/// Whether the first `k` characters of `line` are exactly `kw`.
pub(crate) fn prefix_is(line: &str, k: usize, kw: &str) -> (r: bool)
    requires
        k <= line@.len(),
    ensures
        r == (line@.take(k as int) == kw@),
{
    let m = kw.unicode_len();
    if m != k {
        proof {
            assert(line@.take(k as int).len() == k);
        }
        return false;
    }
    let mut i: usize = 0;
    while i < k
        invariant
            i <= k,
            k <= line@.len(),
            k == kw@.len(),
            forall|j: int| 0 <= j < i ==> line@[j] == kw@[j],
        decreases k - i,
    {
        if line.get_char(i) != kw.get_char(i) {
            proof {
                assert(line@.take(k as int)[i as int] == line@[i as int]);
            }
            return false;
        }
        i = i + 1;
    }
    proof {
        assert(line@.take(k as int) =~= kw@);
    }
    true
}

/// The key named by the first `k` characters of `line`.
fn key_for(line: &str, k: usize) -> (r: PotKey)
    requires
        k <= line@.len(),
    ensures
        r == key_of(line@.take(k as int)),
{
    proof {
        reveal_strlit("msgctxt");
        reveal_strlit("msgid");
        reveal_strlit("msgid_plural");
        reveal_strlit("msgstr");
        assert("msgctxt"@ =~= kw_msgctxt());
        assert("msgid"@ =~= kw_msgid());
        assert("msgid_plural"@ =~= kw_msgid_plural());
        assert("msgstr"@ =~= kw_msgstr());
    }
    if prefix_is(line, k, "msgctxt") {
        PotKey::Msgctxt
    } else if prefix_is(line, k, "msgid") {
        PotKey::Msgid
    } else if prefix_is(line, k, "msgid_plural") {
        PotKey::MsgidPlural
    } else if prefix_is(line, k, "msgstr") {
        PotKey::Msgstr
    } else {
        PotKey::Other
    }
}

/// Classifies one input line (without its trailing newline).
pub fn classify_line(line: &str) -> (r: ParsedLine)
    ensures
        r@ == classify_spec(line@),
{
    let n = line.unicode_len();
    if n > 0 && line.get_char(0) == '#' {
        let kind = if n >= 2 {
            kind_for(line.get_char(1))
        } else {
            PotCommentKind::Translator
        };
        let start: usize = if n >= 2 && !matches!(kind, PotCommentKind::Translator) {
            2
        } else {
            1
        };
        let content = trim_start_substring(line, start, n);
        return ParsedLine::Comment(PotComment { kind, content });
    }
    let mut k: usize = 0;
    proof {
        assert(line@.skip(0) =~= line@);
    }
    while k < n && is_kw_char_exec(line.get_char(k))
        invariant
            k <= n,
            n == line@.len(),
            kw_len(line@) == k + kw_len(line@.skip(k as int)),
        decreases n - k,
    {
        proof {
            assert(line@.skip(k as int)[0] == line@[k as int]);
            assert(line@.skip(k as int).skip(1) =~= line@.skip(k + 1));
        }
        k = k + 1;
    }
    proof {
        if k < n {
            assert(line@.skip(k as int)[0] == line@[k as int]);
        }
        assert(kw_len(line@.skip(k as int)) == 0);
        assert(kw_len(line@) == k);
    }
    if k > 0 {
        proof {
            assert(is_kw_char(line@[0]));
            assert(line@[0] != '"');
        }
        if k < n && line.get_char(k) == '[' {
            let mut d: usize = 0;
            let mut val: usize = 0;
            let mut overflow = false;
            while k + 1 + d < n && is_digit_exec(line.get_char(k + 1 + d))
                invariant
                    k + 1 + d <= n,
                    n == line@.len(),
                    dig_len(line@.skip(k + 1)) == d + dig_len(line@.skip(k + 1 + d)),
                    !overflow ==> val == digits_val(line@.subrange(k + 1, k + 1 + d)),
                    overflow ==> digits_val(line@.subrange(k + 1, k + 1 + d)) > usize::MAX,
                decreases n - (k + 1 + d),
            {
                let ghost run = line@.subrange(k + 1, k + 1 + d);
                let ghost run2 = line@.subrange(k + 1, k + 1 + d + 1);
                proof {
                    assert(line@.skip(k + 1 + d)[0] == line@[k + 1 + d]);
                    assert(line@.skip(k + 1 + d).skip(1) =~= line@.skip(k + 1 + d + 1));
                    assert(run2.take(run2.len() - 1) =~= run);
                    assert(run2[run2.len() - 1] == line@[k + 1 + d]);
                }
                let c = line.get_char(k + 1 + d);
                let dv = (c as u32 - 48) as usize;
                proof {
                    assert(dv == dval(line@[k + 1 + d]));
                    assert(digits_val(run2) == digits_val(run) * 10 + dval(line@[k + 1 + d]));
                }
                if !overflow {
                    let q = usize::MAX / 10;
                    let r = usize::MAX % 10;
                    if val > q || (val == q && dv > r) {
                        overflow = true;
                    } else {
                        val = val * 10 + dv;
                    }
                }
                d = d + 1;
            }
            proof {
                if k + 1 + d < n {
                    assert(line@.skip(k + 1 + d)[0] == line@[k + 1 + d]);
                }
                assert(dig_len(line@.skip(k + 1 + d)) == 0);
                assert(dig_len(line@.skip(k + 1)) == d);
            }
            if d >= 1 && !overflow && k + 1 + d < n && line.get_char(k + 1 + d) == ']' && k + d + 2
                < n && line.get_char(k + d + 2) == ' ' && check_quoted(line, k + d + 3, n) {
                proof {
                    assert(line@.skip(k + d + 3).subrange(
                        1,
                        line@.skip(k + d + 3).len() - 1,
                    ) =~= line@.subrange(k + d + 4, n - 1));
                    assert(line@.subrange(k + d + 4, n - 1) =~= line@.subrange(
                        k + d + 4,
                        line@.len() - 1,
                    ));
                }
                let body = line.substring_char(k + d + 4, n - 1).to_owned();
                let key = key_for(line, k);
                return ParsedLine::Command(key, Some(val), body);
            }
            return ParsedLine::Blank;
        } else if k < n && line.get_char(k) == ' ' {
            if check_quoted(line, k + 1, n) {
                proof {
                    assert(line@.skip(k + 1).subrange(
                        1,
                        line@.skip(k + 1).len() - 1,
                    ) =~= line@.subrange(k + 2, n - 1));
                    assert(line@.subrange(k + 2, n - 1) =~= line@.subrange(k + 2, line@.len() - 1));
                }
                let body = line.substring_char(k + 2, n - 1).to_owned();
                let key = key_for(line, k);
                return ParsedLine::Command(key, None, body);
            }
            return ParsedLine::Blank;
        } else {
            return ParsedLine::Blank;
        }
    }
    if check_quoted(line, 0, n) {
        proof {
            assert(line@.skip(0) =~= line@);
            assert(line@.subrange(1, n - 1) =~= line@.subrange(1, line@.len() - 1));
        }
        let body = line.substring_char(1, n - 1).to_owned();
        return ParsedLine::Continuation(body);
    }
    proof {
        assert(line@.skip(0) =~= line@);
    }
    ParsedLine::Blank
}

} // verus!
