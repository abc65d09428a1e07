//! C-style escaping and unescaping of quoted string bodies.
//!
//! A quoted body may contain the single-character C escape sequences `\"`,
//! `\'`, `\\`, `\n`, `\t`, `\r`, `\a`, `\b`, `\f`, `\v` and `\e`; every
//! other character stands for itself. Unescaping fails on a trailing
//! backslash or an unknown escape code. Escaping maps a logical string back
//! to a body, escaping quotes, backslashes and the control characters, and
//! is proved to be inverted by unescaping.
//!
//! A bracketed unicode escape (`\u{...}`) is not decoded: building a `char`
//! from a code point needs `char::from_u32`, for which no specification
//! exists to verify against, so a body holding one is rejected as invalid.

use vstd::prelude::*;

verus! {

/// The character an escape code stands for, if the code is recognized.
pub open spec fn unescape_code(c: char) -> Option<char> {
    if c == '"' {
        Some('"')
    } else if c == '\'' {
        Some('\'')
    } else if c == '\\' {
        Some('\\')
    } else if c == 'n' {
        Some('\n')
    } else if c == 't' {
        Some('\t')
    } else if c == 'r' {
        Some('\r')
    } else if c == 'a' {
        Some('\u{7}')
    } else if c == 'b' {
        Some('\u{8}')
    } else if c == 'v' {
        Some('\u{B}')
    } else if c == 'f' {
        Some('\u{C}')
    } else if c == 'e' {
        Some('\u{1B}')
    } else {
        None
    }
}

/// The logical string a quoted body stands for, or `None` when the body ends
/// in a lone backslash or uses an unknown escape code.
pub open spec fn unescape_seq(s: Seq<char>) -> Option<Seq<char>>
    decreases s.len(),
{
    if s.len() == 0 {
        Some(Seq::empty())
    } else if s[0] == '\\' {
        if s.len() == 1 {
            None
        } else {
            match unescape_code(s[1]) {
                None => None,
                Some(c) => match unescape_seq(s.skip(2)) {
                    None => None,
                    Some(rest) => Some(seq![c] + rest),
                },
            }
        }
    } else {
        match unescape_seq(s.skip(1)) {
            None => None,
            Some(rest) => Some(seq![s[0]] + rest),
        }
    }
}

/// How one character is written inside a quoted body: quotes, backslashes
/// and control characters get their escape sequence, everything else stands
/// for itself.
pub open spec fn escape_char(c: char) -> Seq<char> {
    if c == '"' {
        seq!['\\', '"']
    } else if c == '\\' {
        seq!['\\', '\\']
    } else if c == '\n' {
        seq!['\\', 'n']
    } else if c == '\t' {
        seq!['\\', 't']
    } else if c == '\r' {
        seq!['\\', 'r']
    } else if c == '\u{7}' {
        seq!['\\', 'a']
    } else if c == '\u{8}' {
        seq!['\\', 'b']
    } else if c == '\u{B}' {
        seq!['\\', 'v']
    } else if c == '\u{C}' {
        seq!['\\', 'f']
    } else if c == '\u{1B}' {
        seq!['\\', 'e']
    } else {
        seq![c]
    }
}

/// The quoted body that stands for the logical string `s`.
pub open spec fn escape_seq(s: Seq<char>) -> Seq<char>
    decreases s.len(),
{
    if s.len() == 0 {
        Seq::empty()
    } else {
        escape_char(s[0]) + escape_seq(s.skip(1))
    }
}

/// A body scanned from the left ends outside of any escape sequence, so the
/// closing quote that follows it is not itself escaped.
pub open spec fn ends_unescaped(s: Seq<char>) -> bool
    decreases s.len(),
{
    if s.len() == 0 {
        true
    } else if s[0] == '\\' {
        s.len() >= 2 && ends_unescaped(s.skip(2))
    } else {
        ends_unescaped(s.skip(1))
    }
}

/// Prepending to a string distributes over an optional tail.
pub open spec fn opt_concat(pre: Seq<char>, rest: Option<Seq<char>>) -> Option<Seq<char>> {
    match rest {
        None => None,
        Some(t) => Some(pre + t),
    }
}

proof fn lemma_opt_concat_empty(r: Option<Seq<char>>)
    ensures
        opt_concat(Seq::empty(), r) == r,
{
    match r {
        Some(t) => {
            assert(Seq::empty() + t =~= t);
        },
        None => {},
    }
}

proof fn lemma_opt_concat_assoc(a: Seq<char>, b: Seq<char>, r: Option<Seq<char>>)
    ensures
        opt_concat(a, opt_concat(b, r)) == opt_concat(a + b, r),
{
    match r {
        Some(t) => {
            assert(a + (b + t) =~= (a + b) + t);
        },
        None => {},
    }
}

/// One unfolding of `unescape_seq` at the head of a non-empty body.
proof fn lemma_unescape_step(t: Seq<char>)
    requires
        t.len() > 0,
    ensures
        t[0] != '\\' ==> unescape_seq(t) == opt_concat(seq![t[0]], unescape_seq(t.skip(1))),
        t[0] == '\\' && t.len() == 1 ==> unescape_seq(t) is None,
        t[0] == '\\' && t.len() >= 2 && unescape_code(t[1]) is None ==> unescape_seq(t) is None,
        t[0] == '\\' && t.len() >= 2 && unescape_code(t[1]) is Some ==> unescape_seq(t)
            == opt_concat(seq![unescape_code(t[1]).unwrap()], unescape_seq(t.skip(2))),
{
    if t[0] != '\\' {
        match unescape_seq(t.skip(1)) {
            Some(r) => {},
            None => {},
        }
    } else if t.len() >= 2 {
        match unescape_code(t[1]) {
            Some(c) => {
                match unescape_seq(t.skip(2)) {
                    Some(r) => {},
                    None => {},
                }
            },
            None => {},
        }
    }
}

/// Decodes a quoted body, or reports that it holds an invalid escape.
pub fn unescape(s: &str) -> (r: Option<String>)
    ensures
        match r {
            Some(t) => unescape_seq(s@) == Some(t@),
            None => unescape_seq(s@) is None,
        },
{
    let n = s.unicode_len();
    let mut out = String::new();
    let mut i: usize = 0;
    proof {
        assert(s@.skip(0) =~= s@);
        lemma_opt_concat_empty(unescape_seq(s@));
    }
    while i < n
        invariant
            n == s@.len(),
            i <= n,
            unescape_seq(s@) == opt_concat(out@, unescape_seq(s@.skip(i as int))),
        decreases n - i,
    {
        let ghost tail = s@.skip(i as int);
        let ghost out0 = out@;
        proof {
            assert(tail[0] == s@[i as int]);
            lemma_unescape_step(tail);
        }
        let c = s.get_char(i);
        if c == '\\' {
            if i + 1 == n {
                proof {
                    assert(tail.len() == 1);
                }
                return None;
            }
            let c2 = s.get_char(i + 1);
            proof {
                assert(tail[1] == s@[i + 1]);
                assert(tail.skip(2) =~= s@.skip(i + 2));
            }
            if c2 == '"' {
                out.append("\"");
                proof {
                    reveal_strlit("\"");
                    assert("\""@ =~= seq!['"']);
                }
            } else if c2 == '\'' {
                out.append("'");
                proof {
                    reveal_strlit("'");
                    assert("'"@ =~= seq!['\'']);
                }
            } else if c2 == '\\' {
                out.append("\\");
                proof {
                    reveal_strlit("\\");
                    assert("\\"@ =~= seq!['\\']);
                }
            } else if c2 == 'n' {
                out.append("\n");
                proof {
                    reveal_strlit("\n");
                    assert("\n"@ =~= seq!['\n']);
                }
            } else if c2 == 't' {
                out.append("\t");
                proof {
                    reveal_strlit("\t");
                    assert("\t"@ =~= seq!['\t']);
                }
            } else if c2 == 'r' {
                out.append("\r");
                proof {
                    reveal_strlit("\r");
                    assert("\r"@ =~= seq!['\r']);
                }
            } else if c2 == 'a' {
                out.append("\u{7}");
                proof {
                    reveal_strlit("\u{7}");
                    assert("\u{7}"@ =~= seq!['\u{7}']);
                }
            } else if c2 == 'b' {
                out.append("\u{8}");
                proof {
                    reveal_strlit("\u{8}");
                    assert("\u{8}"@ =~= seq!['\u{8}']);
                }
            } else if c2 == 'v' {
                out.append("\u{B}");
                proof {
                    reveal_strlit("\u{B}");
                    assert("\u{B}"@ =~= seq!['\u{B}']);
                }
            } else if c2 == 'f' {
                out.append("\u{C}");
                proof {
                    reveal_strlit("\u{C}");
                    assert("\u{C}"@ =~= seq!['\u{C}']);
                }
            } else if c2 == 'e' {
                out.append("\u{1B}");
                proof {
                    reveal_strlit("\u{1B}");
                    assert("\u{1B}"@ =~= seq!['\u{1B}']);
                }
            } else {
                proof {
                    assert(unescape_code(tail[1]) is None);
                }
                return None;
            }
            proof {
                lemma_opt_concat_assoc(
                    out0,
                    seq![unescape_code(tail[1]).unwrap()],
                    unescape_seq(s@.skip(i + 2)),
                );
                assert(out@ =~= out0 + seq![unescape_code(tail[1]).unwrap()]);
            }
            i = i + 2;
        } else {
            let piece = s.substring_char(i, i + 1);
            proof {
                assert(piece@ =~= seq![tail[0]]);
                assert(tail.skip(1) =~= s@.skip(i + 1));
                lemma_opt_concat_assoc(out@, seq![tail[0]], unescape_seq(s@.skip(i + 1)));
            }
            out.append(piece);
            i = i + 1;
        }
    }
    proof {
        assert(s@.skip(n as int) =~= Seq::<char>::empty());
        if unescape_seq(s@.skip(n as int)) is Some {
            assert(out@ + Seq::<char>::empty() =~= out@);
        }
    }
    Some(out)
}

/// One unfolding of `escape_seq` at the head of a non-empty string.
proof fn lemma_escape_step(t: Seq<char>)
    requires
        t.len() > 0,
    ensures
        escape_seq(t) == escape_char(t[0]) + escape_seq(t.skip(1)),
{
}

/// Encodes a logical string as a quoted body.
pub fn escape(s: &str) -> (r: String)
    ensures
        r@ == escape_seq(s@),
{
    let n = s.unicode_len();
    let mut out = String::new();
    let mut i: usize = 0;
    proof {
        assert(s@.skip(0) =~= s@);
        assert(Seq::<char>::empty() + escape_seq(s@) =~= escape_seq(s@));
    }
    while i < n
        invariant
            n == s@.len(),
            i <= n,
            escape_seq(s@) == out@ + escape_seq(s@.skip(i as int)),
        decreases n - i,
    {
        let ghost tail = s@.skip(i as int);
        let ghost out0 = out@;
        proof {
            assert(tail[0] == s@[i as int]);
            lemma_escape_step(tail);
            assert(tail.skip(1) =~= s@.skip(i + 1));
        }
        let c = s.get_char(i);
        if c == '"' {
            out.append("\\\"");
            proof {
                reveal_strlit("\\\"");
                assert("\\\""@ =~= seq!['\\', '"']);
            }
        } else if c == '\\' {
            out.append("\\\\");
            proof {
                reveal_strlit("\\\\");
                assert("\\\\"@ =~= seq!['\\', '\\']);
            }
        } else if c == '\n' {
            out.append("\\n");
            proof {
                reveal_strlit("\\n");
                assert("\\n"@ =~= seq!['\\', 'n']);
            }
        } else if c == '\t' {
            out.append("\\t");
            proof {
                reveal_strlit("\\t");
                assert("\\t"@ =~= seq!['\\', 't']);
            }
        } else if c == '\r' {
            out.append("\\r");
            proof {
                reveal_strlit("\\r");
                assert("\\r"@ =~= seq!['\\', 'r']);
            }
        } else if c == '\u{7}' {
            out.append("\\a");
            proof {
                reveal_strlit("\\a");
                assert("\\a"@ =~= seq!['\\', 'a']);
            }
        } else if c == '\u{8}' {
            out.append("\\b");
            proof {
                reveal_strlit("\\b");
                assert("\\b"@ =~= seq!['\\', 'b']);
            }
        } else if c == '\u{B}' {
            out.append("\\v");
            proof {
                reveal_strlit("\\v");
                assert("\\v"@ =~= seq!['\\', 'v']);
            }
        } else if c == '\u{C}' {
            out.append("\\f");
            proof {
                reveal_strlit("\\f");
                assert("\\f"@ =~= seq!['\\', 'f']);
            }
        } else if c == '\u{1B}' {
            out.append("\\e");
            proof {
                reveal_strlit("\\e");
                assert("\\e"@ =~= seq!['\\', 'e']);
            }
        } else {
            let piece = s.substring_char(i, i + 1);
            proof {
                assert(piece@ =~= seq![tail[0]]);
            }
            out.append(piece);
        }
        proof {
            assert(out@ =~= out0 + escape_char(tail[0]));
            assert(out@ + escape_seq(s@.skip(i + 1)) =~= out0 + (escape_char(tail[0])
                + escape_seq(s@.skip(i + 1))));
        }
        i = i + 1;
    }
    proof {
        assert(s@.skip(n as int) =~= Seq::<char>::empty());
        assert(out@ + escape_seq(s@.skip(n as int)) =~= out@);
    }
    out
}

/// Unescaping inverts escaping: every logical string survives a round trip
/// through its quoted form.
pub proof fn lemma_unescape_escape(s: Seq<char>)
    ensures
        unescape_seq(escape_seq(s)) == Some(s),
    decreases s.len(),
{
    if s.len() == 0 {
    } else {
        lemma_unescape_escape(s.skip(1));
        let head = escape_char(s[0]);
        let rest = escape_seq(s.skip(1));
        let e = escape_seq(s);
        assert(e == head + rest);
        lemma_unescape_step(e);
        if s[0] == '"' || s[0] == '\\' || s[0] == '\n' || s[0] == '\t' || s[0] == '\r' || s[0]
            == '\u{7}' || s[0] == '\u{8}' || s[0] == '\u{B}' || s[0] == '\u{C}' || s[0]
            == '\u{1B}' {
            assert(head.len() == 2);
            assert(e[0] == '\\');
            assert(e[1] == head[1]);
            assert(e.skip(2) =~= rest);
            assert(unescape_code(head[1]) == Some(s[0]));
            assert(unescape_seq(e) == opt_concat(seq![s[0]], Some(s.skip(1))));
            assert(seq![s[0]] + s.skip(1) =~= s);
        } else {
            assert(head =~= seq![s[0]]);
            assert(e[0] == s[0]);
            assert(e.skip(1) =~= rest);
            assert(unescape_seq(e) == opt_concat(seq![s[0]], Some(s.skip(1))));
            assert(seq![s[0]] + s.skip(1) =~= s);
        }
    }
}

/// A body that unescapes successfully ends outside of any escape sequence.
pub proof fn lemma_unescape_some_ends_unescaped(s: Seq<char>)
    requires
        unescape_seq(s) is Some,
    ensures
        ends_unescaped(s),
    decreases s.len(),
{
    if s.len() == 0 {
    } else if s[0] == '\\' {
        lemma_unescape_some_ends_unescaped(s.skip(2));
    } else {
        lemma_unescape_some_ends_unescaped(s.skip(1));
    }
}

/// No character of an escaped body is a newline, a carriage return or a raw
/// quote that closes the body early; quotes only appear right after a
/// backslash.
pub proof fn lemma_escape_no_ctl(s: Seq<char>)
    ensures
        forall|i: int|
            0 <= i < escape_seq(s).len() ==> escape_seq(s)[i] != '\n' && escape_seq(s)[i] != '\r',
    decreases s.len(),
{
    if s.len() == 0 {
    } else {
        lemma_escape_no_ctl(s.skip(1));
        let head = escape_char(s[0]);
        assert(forall|i: int| 0 <= i < head.len() ==> head[i] != '\n' && head[i] != '\r');
        assert(forall|i: int|
            0 <= i < escape_seq(s).len() ==> escape_seq(s)[i] == if i < head.len() {
                head[i]
            } else {
                escape_seq(s.skip(1))[i - head.len()]
            });
    }
}

} // verus!
