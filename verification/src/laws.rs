//! The round-trip law: reading what `write` produced reproduces the catalog.

use vstd::prelude::*;

use crate::catalog::ReadState;
use crate::catalog::finalize_spec;
use crate::catalog::first_nl;
use crate::catalog::initial_state;
use crate::catalog::lemma_first_nl;
use crate::catalog::lemma_run_append;
use crate::catalog::pot_text_spec;
use crate::catalog::read_spec;
use crate::catalog::run_spec;
use crate::catalog::split_lines_spec;
use crate::catalog::step_spec;
use crate::catalog::strip_cr;
use crate::command::CommandModel;
use crate::command::PotKey;
use crate::command::can_apply_spec;
use crate::escape::ends_unescaped;
use crate::escape::escape_seq;
use crate::escape::lemma_escape_no_ctl;
use crate::escape::lemma_unescape_escape;
use crate::escape::lemma_unescape_some_ends_unescaped;
use crate::escape::unescape_seq;
use crate::line::LineClass;
use crate::line::classify_spec;
use crate::line::command_parts;
use crate::line::dig_len;
use crate::line::digits_val;
use crate::line::is_digit;
use crate::line::is_kw_char;
use crate::line::is_quoted;
use crate::line::is_space;
use crate::line::key_of;
use crate::line::kw_len;
use crate::line::kw_msgctxt;
use crate::line::kw_msgid;
use crate::line::kw_msgid_plural;
use crate::line::kw_msgstr;
use crate::line::trim_start_spec;
use crate::message::CommentModel;
use crate::message::MessageModel;
use crate::message::PotCommentKind;
use crate::message::empty_message;
use crate::message::is_valid_spec;
use crate::render::comment_line_spec;
use crate::render::command_line_spec;
use crate::render::dec_spec;
use crate::render::digit_char;
use crate::render::join_lines;
use crate::render::lemma_join_append;
use crate::render::lemma_join_one;
use crate::render::marker_of;
use crate::render::message_lines_spec;
use crate::render::msgstr_line_spec;
use crate::render::opt_line_spec;

verus! {

/// A comment survives writing and re-reading: its content holds no newline,
/// does not begin with whitespace that trimming would drop, and does not end
/// in a carriage return that line splitting would drop.
pub open spec fn comment_roundtrip_safe(c: CommentModel) -> bool {
    &&& forall|i: int| 0 <= i < c.content.len() ==> c.content[i] != '\n'
    &&& c.content.len() > 0 ==> !is_space(c.content[0])
    &&& c.content.len() > 0 ==> c.content[c.content.len() - 1] != '\r'
}

/// A message survives writing and re-reading: it is valid, its string
/// indices fit the machine, and its comments are safe.
pub open spec fn message_roundtrip_safe(m: MessageModel) -> bool {
    &&& is_valid_spec(m)
    &&& m.strings.len() <= usize::MAX
    &&& forall|i: int| 0 <= i < m.comments.len() ==> comment_roundtrip_safe(m.comments[i])
}

/// A keyword prefix of length `k` pins `kw_len` down.
proof fn lemma_kw_len_at(s: Seq<char>, k: int)
    requires
        0 <= k <= s.len(),
        forall|i: int| 0 <= i < k ==> is_kw_char(s[i]),
        k < s.len() ==> !is_kw_char(s[k]),
    ensures
        kw_len(s) == k,
    decreases k,
{
    if k == 0 {
    } else {
        assert(forall|i: int| 0 <= i < k - 1 ==> s.skip(1)[i] == s[i + 1]);
        if k - 1 < s.skip(1).len() {
            assert(s.skip(1)[k - 1] == s[k]);
        }
        lemma_kw_len_at(s.skip(1), k - 1);
    }
}

/// A digit prefix of length `k` pins `dig_len` down.
proof fn lemma_dig_len_at(s: Seq<char>, k: int)
    requires
        0 <= k <= s.len(),
        forall|i: int| 0 <= i < k ==> is_digit(s[i]),
        k < s.len() ==> !is_digit(s[k]),
    ensures
        dig_len(s) == k,
    decreases k,
{
    if k == 0 {
    } else {
        assert(forall|i: int| 0 <= i < k - 1 ==> s.skip(1)[i] == s[i + 1]);
        if k - 1 < s.skip(1).len() {
            assert(s.skip(1)[k - 1] == s[k]);
        }
        lemma_dig_len_at(s.skip(1), k - 1);
    }
}

/// The decimal digits of `n` are digits and read back as `n`.
proof fn lemma_dec_digits(n: nat)
    ensures
        dec_spec(n).len() >= 1,
        forall|i: int| 0 <= i < dec_spec(n).len() ==> is_digit(#[trigger] dec_spec(n)[i]),
        digits_val(dec_spec(n)) == n,
    decreases n,
{
    if n < 10 {
        assert(is_digit(digit_char(n)));
        assert(dec_spec(n) =~= seq![digit_char(n)]);
        assert(dec_spec(n).take(0) =~= Seq::<char>::empty());
        assert(digits_val(Seq::<char>::empty()) == 0);
        assert(dec_spec(n)[0] == digit_char(n));
        assert(digits_val(dec_spec(n)) == 0 * 10 + dval_of(n));
        assert(digits_val(dec_spec(n)) == n);
    } else {
        lemma_dec_digits(n / 10);
        let a = dec_spec(n / 10);
        let c = digit_char(n % 10);
        assert(is_digit(c));
        assert(dec_spec(n) == a.push(c));
        assert(a.push(c).take(a.push(c).len() - 1) =~= a);
        assert(a.push(c)[a.push(c).len() - 1] == c);
        assert(crate::line::dval(c) == n % 10);
        assert(digits_val(dec_spec(n)) == digits_val(a) * 10 + n % 10);
        assert(forall|i: int|
            0 <= i < dec_spec(n).len() ==> dec_spec(n)[i] == if i < a.len() {
                a[i]
            } else {
                c
            });
    }
}

/// The value a single digit character stands for.
spec fn dval_of(n: nat) -> nat {
    crate::line::dval(digit_char(n))
}

/// Trimming removes exactly the one space that serialization added.
proof fn lemma_trim_space_prefix(content: Seq<char>)
    requires
        content.len() > 0 ==> !is_space(content[0]),
    ensures
        trim_start_spec(seq![' '] + content) == content,
{
    let s = seq![' '] + content;
    assert(s[0] == ' ');
    assert(s.skip(1) =~= content);
    assert(trim_start_spec(content) == content);
    assert(trim_start_spec(s) == trim_start_spec(s.skip(1)));
}

/// A written comment line reads back as the same comment.
proof fn lemma_classify_comment(c: CommentModel)
    requires
        comment_roundtrip_safe(c),
    ensures
        classify_spec(comment_line_spec(c)) == LineClass::Comment(c),
{
    let l = comment_line_spec(c);
    let mk = marker_of(c.kind);
    assert(l.len() == 2 + mk.len() + c.content.len());
    assert(l[0] == '#');
    lemma_trim_space_prefix(c.content);
    match c.kind {
        PotCommentKind::Reference => {
            assert(l[1] == ':');
            assert(l.skip(2) =~= seq![' '] + c.content);
        },
        PotCommentKind::Extracted => {
            assert(l[1] == '.');
            assert(l.skip(2) =~= seq![' '] + c.content);
        },
        PotCommentKind::Flag => {
            assert(l[1] == ',');
            assert(l.skip(2) =~= seq![' '] + c.content);
        },
        PotCommentKind::Previous => {
            assert(l[1] == '|');
            assert(l.skip(2) =~= seq![' '] + c.content);
        },
        PotCommentKind::Translator => {
            assert(l[1] == ' ');
            assert(l.skip(1) =~= seq![' '] + c.content);
        },
    }
}

/// Wrapping a body that ends outside any escape in quotes gives a whole
/// quoted string.
proof fn lemma_quoted_wrap(e: Seq<char>)
    requires
        ends_unescaped(e),
    ensures
        is_quoted(seq!['"'] + e + seq!['"']),
{
    let s = seq!['"'] + e + seq!['"'];
    assert(s.len() == e.len() + 2);
    assert(s[0] == '"');
    assert(s[s.len() - 1] == '"');
    assert(s.subrange(1, s.len() - 1) =~= e);
}

/// The escaped form of any value is a body that ends outside any escape.
proof fn lemma_escape_ends_unescaped(v: Seq<char>)
    ensures
        ends_unescaped(escape_seq(v)),
        unescape_seq(escape_seq(v)) == Some(v),
{
    lemma_unescape_escape(v);
    lemma_unescape_some_ends_unescaped(escape_seq(v));
}

/// The four keywords are made of keyword characters, and name their keys.
proof fn lemma_keywords()
    ensures
        forall|i: int| 0 <= i < kw_msgctxt().len() ==> is_kw_char(#[trigger] kw_msgctxt()[i]),
        forall|i: int| 0 <= i < kw_msgid().len() ==> is_kw_char(#[trigger] kw_msgid()[i]),
        forall|i: int|
            0 <= i < kw_msgid_plural().len() ==> is_kw_char(#[trigger] kw_msgid_plural()[i]),
        forall|i: int| 0 <= i < kw_msgstr().len() ==> is_kw_char(#[trigger] kw_msgstr()[i]),
        key_of(kw_msgctxt()) == PotKey::Msgctxt,
        key_of(kw_msgid()) == PotKey::Msgid,
        key_of(kw_msgid_plural()) == PotKey::MsgidPlural,
        key_of(kw_msgstr()) == PotKey::Msgstr,
{
    assert(kw_msgctxt().len() == 7);
    assert(kw_msgid().len() == 5);
    assert(kw_msgid_plural().len() == 12);
    assert(kw_msgstr().len() == 6);
}

/// A written command line `kw " body "` reads back as a command with the
/// keyword's key, no index, and the escaped body.
proof fn lemma_classify_plain_command(kw: Seq<char>, v: Seq<char>)
    requires
        kw.len() >= 1,
        forall|i: int| 0 <= i < kw.len() ==> is_kw_char(kw[i]),
    ensures
        classify_spec(command_line_spec(kw, v)) == LineClass::Command(
            key_of(kw),
            None,
            escape_seq(v),
        ),
{
    let l = command_line_spec(kw, v);
    let e = escape_seq(v);
    let k = kw.len() as int;
    assert(l.len() == k + 3 + e.len());
    assert(forall|i: int| 0 <= i < k ==> l[i] == kw[i]);
    assert(l[k] == ' ');
    assert(!is_kw_char(' '));
    lemma_kw_len_at(l, k);
    assert(!is_kw_char('#'));
    assert(l[0] != '#');
    lemma_escape_ends_unescaped(v);
    lemma_quoted_wrap(e);
    assert(l.skip(k + 1) =~= seq!['"'] + e + seq!['"']);
    assert(is_quoted(l.skip(k + 1)));
    assert(l.subrange(k + 2, l.len() - 1) =~= e);
    assert(l.take(k) =~= kw);
    assert(command_parts(l) == Some((key_of(kw), None::<usize>, e)));
}

/// The line that writes `msgstr[iv] "v"`.
pub open spec fn msgstr_indexed_line(iv: nat, v: Seq<char>) -> Seq<char> {
    kw_msgstr() + seq!['['] + dec_spec(iv) + seq![']', ' ', '"'] + escape_seq(v) + seq!['"']
}

/// A written indexed `msgstr` line reads back as a `msgstr` command with
/// that index and the escaped body.
proof fn lemma_classify_msgstr_indexed(iv: nat, v: Seq<char>)
    requires
        iv <= usize::MAX,
    ensures
        classify_spec(msgstr_indexed_line(iv, v)) == LineClass::Command(
            PotKey::Msgstr,
            Some(iv as usize),
            escape_seq(v),
        ),
{
    let l = msgstr_indexed_line(iv, v);
    let e = escape_seq(v);
    let ds = dec_spec(iv);
    let d = ds.len() as int;
    lemma_keywords();
    lemma_dec_digits(iv);
    assert(l.len() == 6 + 1 + d + 3 + e.len() + 1);
    assert(forall|i: int| 0 <= i < 6 ==> l[i] == kw_msgctxt()[i] || true);
    assert(forall|i: int| 0 <= i < 6 ==> l[i] == kw_msgstr()[i]);
    assert(l[6] == '[');
    assert(!is_kw_char('['));
    lemma_kw_len_at(l, 6);
    assert(!is_kw_char('#'));
    assert(l[0] != '#');
    let after = l.skip(7);
    assert(forall|i: int| 0 <= i < d ==> after[i] == ds[i]);
    assert(after[d] == ']');
    assert(!is_digit(']'));
    lemma_dig_len_at(after, d);
    assert(l.subrange(7, 7 + d) =~= ds);
    assert(digits_val(l.subrange(7, 7 + d)) == iv);
    assert(l[7 + d] == ']');
    assert(l[8 + d] == ' ');
    lemma_escape_ends_unescaped(v);
    lemma_quoted_wrap(e);
    assert(l.skip(9 + d) =~= seq!['"'] + e + seq!['"']);
    assert(is_quoted(l.skip(9 + d)));
    assert(l.subrange(10 + d, l.len() - 1) =~= e);
    assert(l.take(6) =~= kw_msgstr());
    assert(command_parts(l) == Some((PotKey::Msgstr, Some(iv as usize), e)));
}

/// An empty line is skipped.
proof fn lemma_classify_blank()
    ensures
        classify_spec(Seq::<char>::empty()) == LineClass::Blank,
{
    assert(kw_len(Seq::<char>::empty()) == 0);
}

/// The command the assembler holds after the last line of a message: the
/// `msgstr` of its last string.
pub open spec fn last_command_of(m: MessageModel) -> CommandModel {
    CommandModel {
        key: PotKey::Msgstr,
        value: m.strings[m.strings.len() - 1],
        index: if m.id_plural is Some {
            Some((m.strings.len() - 1) as usize)
        } else {
            None
        },
    }
}

proof fn lemma_run_one(st: ReadState, l: Seq<char>)
    ensures
        run_spec(st, seq![l]) == step_spec(st, l),
{
    assert(seq![l][0] == l);
    assert(seq![l].skip(1) =~= Seq::<Seq<char>>::empty());
    match step_spec(st, l) {
        None => {},
        Some(s1) => {
            assert(run_spec(s1, Seq::<Seq<char>>::empty()) == Some(s1));
        },
    }
}

/// Comment lines fed to a message that is not yet valid append the comments
/// in order, closing nothing.
proof fn lemma_run_comments(st: ReadState, cs: Seq<CommentModel>)
    requires
        !is_valid_spec(st.current),
        forall|i: int| 0 <= i < cs.len() ==> comment_roundtrip_safe(cs[i]),
    ensures
        run_spec(st, cs.map_values(|c: CommentModel| comment_line_spec(c))) == Some(
            ReadState {
                current: MessageModel { comments: st.current.comments + cs, ..st.current },
                ..st
            },
        ),
    decreases cs.len(),
{
    let ls = cs.map_values(|c: CommentModel| comment_line_spec(c));
    if cs.len() == 0 {
        assert(ls.len() == 0);
        assert(st.current.comments + cs =~= st.current.comments);
        assert(ReadState {
            current: MessageModel { comments: st.current.comments + cs, ..st.current },
            ..st
        } =~= st);
    } else {
        assert(ls[0] == comment_line_spec(cs[0]));
        lemma_classify_comment(cs[0]);
        let st1 = ReadState {
            current: MessageModel { comments: st.current.comments.push(cs[0]), ..st.current },
            ..st
        };
        assert(step_spec(st, ls[0]) == Some(st1));
        assert(!is_valid_spec(st1.current));
        assert(ls.skip(1) =~= cs.skip(1).map_values(|c: CommentModel| comment_line_spec(c)));
        assert forall|i: int| 0 <= i < cs.skip(1).len() implies comment_roundtrip_safe(
            cs.skip(1)[i],
        ) by {
            assert(cs.skip(1)[i] == cs[i + 1]);
        }
        lemma_run_comments(st1, cs.skip(1));
        assert(run_spec(st, ls) == run_spec(st1, ls.skip(1)));
        assert(ReadState {
            current: MessageModel {
                comments: st1.current.comments + cs.skip(1),
                ..st1.current
            },
            ..st1
        } =~= ReadState {
            current: MessageModel { comments: st.current.comments + cs, ..st.current },
            ..st
        });
    }
}

/// The `msgstr` lines from index `j` fill the remaining strings in order.
proof fn lemma_run_msgstrs(st: ReadState, m: MessageModel, j: int)
    requires
        message_roundtrip_safe(m),
        0 <= j < m.strings.len(),
        st.current == (MessageModel { strings: m.strings.take(j), ..m }),
    ensures
        run_spec(
            st,
            Seq::new((m.strings.len() - j) as nat, |t: int| msgstr_line_spec(m, j + t)),
        ) == Some(ReadState { messages: st.messages, current: m, last: last_command_of(m) }),
    decreases m.strings.len() - j,
{
    let n = m.strings.len() as int;
    let ls = Seq::new((n - j) as nat, |t: int| msgstr_line_spec(m, j + t));
    let v = m.strings[j];
    let e = escape_seq(v);
    lemma_keywords();
    lemma_escape_ends_unescaped(v);
    let cmd = if m.id_plural is Some {
        CommandModel { key: PotKey::Msgstr, value: v, index: Some(j as usize) }
    } else {
        CommandModel { key: PotKey::Msgstr, value: v, index: None }
    };
    if m.id_plural is Some {
        lemma_classify_msgstr_indexed(j as nat, v);
        assert(ls[0] == msgstr_line_spec(m, j));
        assert(msgstr_line_spec(m, j) == msgstr_indexed_line(j as nat, v));
        assert(classify_spec(ls[0]) == LineClass::Command(PotKey::Msgstr, Some(j as usize), e));
    } else {
        lemma_classify_plain_command(kw_msgstr(), v);
        assert(ls[0] == msgstr_line_spec(m, j));
        assert(msgstr_line_spec(m, j) == command_line_spec(kw_msgstr(), v));
        assert(classify_spec(ls[0]) == LineClass::Command(PotKey::Msgstr, None::<usize>, e));
    }
    assert(st.current.strings.len() == j);
    assert(can_apply_spec(cmd, st.current));
    let st1 = ReadState {
        current: crate::command::force_apply_spec(cmd, st.current),
        last: cmd,
        ..st
    };
    assert(step_spec(st, ls[0]) == Some(st1));
    assert(st1.current.strings =~= m.strings.take(j + 1));
    assert(st1.current =~= (MessageModel { strings: m.strings.take(j + 1), ..m }));
    assert(run_spec(st, ls) == run_spec(st1, ls.skip(1)));
    if j + 1 == n {
        assert(m.strings.take(n) =~= m.strings);
        assert(st1.current =~= m);
        assert(cmd == last_command_of(m));
        assert(ls.skip(1) =~= Seq::<Seq<char>>::empty());
        assert(run_spec(st1, ls.skip(1)) == Some(st1));
    } else {
        assert(ls.skip(1) =~= Seq::new(
            (n - (j + 1)) as nat,
            |t: int| msgstr_line_spec(m, j + 1 + t),
        ));
        lemma_run_msgstrs(st1, m, j + 1);
    }
}

/// The field lines of a message: its commands after its comments.
pub open spec fn field_lines_spec(m: MessageModel) -> Seq<Seq<char>> {
    opt_line_spec(kw_msgctxt(), m.context) + opt_line_spec(kw_msgid(), m.id) + opt_line_spec(
        kw_msgid_plural(),
        m.id_plural,
    ) + Seq::new(m.strings.len(), |i: int| msgstr_line_spec(m, i))
}

/// The field lines, fed to a message holding only the comments, set every
/// field and leave the message equal to `m`.
proof fn lemma_run_fields(st: ReadState, m: MessageModel)
    requires
        message_roundtrip_safe(m),
        st.current == (MessageModel {
            comments: m.comments,
            context: None,
            id: None,
            id_plural: None,
            strings: Seq::empty(),
        }),
    ensures
        run_spec(st, field_lines_spec(m)) == Some(
            ReadState { messages: st.messages, current: m, last: last_command_of(m) },
        ),
{
    lemma_keywords();
    let xl = opt_line_spec(kw_msgctxt(), m.context);
    let il = opt_line_spec(kw_msgid(), m.id);
    let pl = opt_line_spec(kw_msgid_plural(), m.id_plural);
    let sl = Seq::new(m.strings.len(), |i: int| msgstr_line_spec(m, i));
    let fl = field_lines_spec(m);
    // the msgctxt line, if any
    let st1 = if m.context is Some {
        let v = m.context.unwrap();
        lemma_classify_plain_command(kw_msgctxt(), v);
        lemma_escape_ends_unescaped(v);
        let cmd = CommandModel { key: PotKey::Msgctxt, value: v, index: None };
        assert(can_apply_spec(cmd, st.current));
        let s = ReadState {
            current: crate::command::force_apply_spec(cmd, st.current),
            last: cmd,
            ..st
        };
        assert(step_spec(st, xl[0]) == Some(s));
        lemma_run_one(st, xl[0]);
        assert(xl =~= seq![xl[0]]);
        s
    } else {
        assert(xl.len() == 0);
        assert(run_spec(st, xl) == Some(st));
        st
    };
    assert(run_spec(st, xl) == Some(st1));
    // the msgid line; a valid message always has one
    let v_id = m.id.unwrap();
    lemma_classify_plain_command(kw_msgid(), v_id);
    lemma_escape_ends_unescaped(v_id);
    let cmd_id = CommandModel { key: PotKey::Msgid, value: v_id, index: None };
    assert(can_apply_spec(cmd_id, st1.current));
    let st2 = ReadState {
        current: crate::command::force_apply_spec(cmd_id, st1.current),
        last: cmd_id,
        ..st1
    };
    assert(step_spec(st1, il[0]) == Some(st2));
    lemma_run_one(st1, il[0]);
    assert(il =~= seq![il[0]]);
    assert(run_spec(st1, il) == Some(st2));
    // the msgid_plural line, if any
    let st3 = if m.id_plural is Some {
        let v = m.id_plural.unwrap();
        lemma_classify_plain_command(kw_msgid_plural(), v);
        lemma_escape_ends_unescaped(v);
        let cmd = CommandModel { key: PotKey::MsgidPlural, value: v, index: None };
        assert(can_apply_spec(cmd, st2.current));
        let s = ReadState {
            current: crate::command::force_apply_spec(cmd, st2.current),
            last: cmd,
            ..st2
        };
        assert(step_spec(st2, pl[0]) == Some(s));
        lemma_run_one(st2, pl[0]);
        assert(pl =~= seq![pl[0]]);
        s
    } else {
        assert(pl.len() == 0);
        assert(run_spec(st2, pl) == Some(st2));
        st2
    };
    assert(run_spec(st2, pl) == Some(st3));
    // the msgstr lines
    assert(m.strings.take(0) =~= Seq::<Seq<char>>::empty());
    assert(st3.current == (MessageModel { strings: m.strings.take(0), ..m }));
    assert(sl =~= Seq::new((m.strings.len() - 0) as nat, |t: int| msgstr_line_spec(m, 0 + t)));
    lemma_run_msgstrs(st3, m, 0);
    assert(run_spec(st3, sl) == Some(
        ReadState { messages: st.messages, current: m, last: last_command_of(m) },
    ));
    // stitch the four parts together
    lemma_run_append(st2, pl, sl);
    assert(run_spec(st2, pl + sl) == Some(
        ReadState { messages: st.messages, current: m, last: last_command_of(m) },
    ));
    lemma_run_append(st1, il, pl + sl);
    lemma_run_append(st, xl, il + (pl + sl));
    assert(fl =~= xl + (il + (pl + sl)));
}

/// The catalog closed messages grow by, when a message's lines arrive.
pub open spec fn closes_to(st: ReadState) -> Seq<MessageModel> {
    if st.current == empty_message() {
        st.messages
    } else {
        st.messages.push(st.current)
    }
}

/// One whole message's lines, arriving while the assembler holds either a
/// fresh message or a complete valid one, close what was held and leave the
/// assembler holding `m`.
proof fn lemma_run_message(st: ReadState, m: MessageModel)
    requires
        message_roundtrip_safe(m),
        st.current == empty_message() || is_valid_spec(st.current),
    ensures
        run_spec(st, message_lines_spec(m)) == Some(
            ReadState { messages: closes_to(st), current: m, last: last_command_of(m) },
        ),
{
    lemma_keywords();
    let cl = m.comments.map_values(|c: CommentModel| comment_line_spec(c));
    let fl = field_lines_spec(m);
    let ml = message_lines_spec(m);
    assert(ml =~= cl + fl);
    let target = MessageModel {
        comments: m.comments,
        context: None,
        id: None,
        id_plural: None,
        strings: Seq::empty(),
    };
    if m.comments.len() > 0 {
        lemma_classify_comment(m.comments[0]);
        assert(cl[0] == comment_line_spec(m.comments[0]));
        let stc = if is_valid_spec(st.current) {
            ReadState { messages: st.messages.push(st.current), current: empty_message(), ..st }
        } else {
            st
        };
        assert(stc.messages == closes_to(st));
        assert(stc.current == empty_message());
        let st1 = ReadState {
            current: MessageModel {
                comments: stc.current.comments.push(m.comments[0]),
                ..stc.current
            },
            ..stc
        };
        assert(step_spec(st, cl[0]) == Some(st1));
        assert(!is_valid_spec(st1.current));
        assert(cl.skip(1) =~= m.comments.skip(1).map_values(
            |c: CommentModel| comment_line_spec(c),
        ));
        assert forall|i: int| 0 <= i < m.comments.skip(1).len() implies comment_roundtrip_safe(
            m.comments.skip(1)[i],
        ) by {
            assert(m.comments.skip(1)[i] == m.comments[i + 1]);
        }
        lemma_run_comments(st1, m.comments.skip(1));
        let st2 = ReadState {
            current: MessageModel {
                comments: st1.current.comments + m.comments.skip(1),
                ..st1.current
            },
            ..st1
        };
        assert(run_spec(st1, cl.skip(1)) == Some(st2));
        assert(run_spec(st, cl) == run_spec(st1, cl.skip(1)));
        assert(st2.current =~= target);
        lemma_run_fields(st2, m);
        lemma_run_append(st, cl, fl);
    } else {
        assert(cl.len() == 0);
        assert(ml =~= fl);
        if st.current == empty_message() {
            assert(st.current =~= target);
            lemma_run_fields(st, m);
            assert(closes_to(st) == st.messages);
        } else {
            let stp = ReadState {
                messages: st.messages.push(st.current),
                current: empty_message(),
                ..st
            };
            assert(stp.current =~= target);
            if m.context is Some {
                let v = m.context.unwrap();
                lemma_classify_plain_command(kw_msgctxt(), v);
                lemma_escape_ends_unescaped(v);
                let cmd = CommandModel { key: PotKey::Msgctxt, value: v, index: None };
                assert(fl[0] == command_line_spec(kw_msgctxt(), v));
                assert(!can_apply_spec(cmd, st.current));
                assert(step_spec(st, fl[0]) == step_spec(stp, fl[0]));
            } else {
                let v = m.id.unwrap();
                lemma_classify_plain_command(kw_msgid(), v);
                lemma_escape_ends_unescaped(v);
                let cmd = CommandModel { key: PotKey::Msgid, value: v, index: None };
                assert(fl[0] == command_line_spec(kw_msgid(), v));
                assert(!can_apply_spec(cmd, st.current));
                assert(step_spec(st, fl[0]) == step_spec(stp, fl[0]));
            }
            lemma_run_fields(stp, m);
            assert(fl.len() > 0);
            assert(run_spec(st, fl) == run_spec(stp, fl));
            assert(closes_to(st) == stp.messages);
        }
    }
}

/// The lines of a whole catalog: each message's lines, with one blank line
/// between consecutive messages.
pub open spec fn doc_lines_spec(msgs: Seq<MessageModel>) -> Seq<Seq<char>>
    decreases msgs.len(),
{
    if msgs.len() == 0 {
        Seq::empty()
    } else if msgs.len() == 1 {
        message_lines_spec(msgs[0])
    } else {
        message_lines_spec(msgs[0]) + seq![Seq::<char>::empty()] + doc_lines_spec(msgs.skip(1))
    }
}

/// The written text of a catalog is its document lines joined.
proof fn lemma_pot_text_join(msgs: Seq<MessageModel>)
    ensures
        pot_text_spec(msgs) == join_lines(doc_lines_spec(msgs)),
    decreases msgs.len(),
{
    if msgs.len() == 0 {
    } else if msgs.len() == 1 {
    } else {
        lemma_pot_text_join(msgs.skip(1));
        let a = message_lines_spec(msgs[0]);
        let b = doc_lines_spec(msgs.skip(1));
        lemma_join_append(a + seq![Seq::<char>::empty()], b);
        lemma_join_append(a, seq![Seq::<char>::empty()]);
        lemma_join_one(Seq::<char>::empty());
        assert(Seq::<char>::empty() + seq!['\n'] =~= seq!['\n']);
        assert(join_lines(doc_lines_spec(msgs)) =~= join_lines(a) + seq!['\n'] + pot_text_spec(
            msgs.skip(1),
        ));
    }
}

/// A whole document's lines leave the assembler holding the last message,
/// with every earlier message closed in order.
proof fn lemma_run_doc(st: ReadState, msgs: Seq<MessageModel>)
    requires
        msgs.len() >= 1,
        forall|i: int| 0 <= i < msgs.len() ==> message_roundtrip_safe(msgs[i]),
        st.current == empty_message() || is_valid_spec(st.current),
    ensures
        run_spec(st, doc_lines_spec(msgs)) == Some(
            ReadState {
                messages: closes_to(st) + msgs.drop_last(),
                current: msgs.last(),
                last: last_command_of(msgs.last()),
            },
        ),
    decreases msgs.len(),
{
    if msgs.len() == 1 {
        lemma_run_message(st, msgs[0]);
        assert(closes_to(st) + msgs.drop_last() =~= closes_to(st));
        assert(ReadState {
            messages: closes_to(st) + msgs.drop_last(),
            current: msgs.last(),
            last: last_command_of(msgs.last()),
        } =~= ReadState {
            messages: closes_to(st),
            current: msgs[0],
            last: last_command_of(msgs[0]),
        });
    } else {
        let a = message_lines_spec(msgs[0]);
        let blank_rest = seq![Seq::<char>::empty()] + doc_lines_spec(msgs.skip(1));
        assert(doc_lines_spec(msgs) =~= a + blank_rest);
        lemma_run_message(st, msgs[0]);
        let st_a = ReadState {
            messages: closes_to(st),
            current: msgs[0],
            last: last_command_of(msgs[0]),
        };
        lemma_run_append(st, a, blank_rest);
        lemma_classify_blank();
        assert(blank_rest[0] == Seq::<char>::empty());
        assert(step_spec(st_a, Seq::<char>::empty()) == Some(st_a));
        assert(blank_rest.skip(1) =~= doc_lines_spec(msgs.skip(1)));
        assert(run_spec(st_a, blank_rest) == run_spec(st_a, doc_lines_spec(msgs.skip(1))));
        assert(is_valid_spec(st_a.current));
        assert forall|i: int| 0 <= i < msgs.skip(1).len() implies message_roundtrip_safe(
            msgs.skip(1)[i],
        ) by {
            assert(msgs.skip(1)[i] == msgs[i + 1]);
        }
        lemma_run_doc(st_a, msgs.skip(1));
        assert(msgs[0].id is Some);
        assert(st_a.current != empty_message());
        assert(closes_to(st_a) == st_a.messages.push(msgs[0]));
        assert(closes_to(st_a) + msgs.skip(1).drop_last() =~= closes_to(st) + msgs.drop_last());
        assert(msgs.skip(1).last() == msgs.last());
    }
}

/// A line that survives splitting: it holds no newline and does not end in
/// a carriage return.
pub open spec fn line_clean(l: Seq<char>) -> bool {
    &&& forall|i: int| 0 <= i < l.len() ==> l[i] != '\n'
    &&& l.len() > 0 ==> l[l.len() - 1] != '\r'
}

/// All lines of a sequence are clean.
pub open spec fn lines_clean(ls: Seq<Seq<char>>) -> bool {
    forall|t: int| 0 <= t < ls.len() ==> line_clean(#[trigger] ls[t])
}

proof fn lemma_clean_comment_line(c: CommentModel)
    requires
        comment_roundtrip_safe(c),
    ensures
        line_clean(comment_line_spec(c)),
{
    let l = comment_line_spec(c);
    let mk = marker_of(c.kind);
    assert forall|i: int| 0 <= i < l.len() implies l[i] != '\n' by {
        if i == 0 {
            assert(l[0] == '#');
        } else if i < 1 + mk.len() {
            assert(l[i] == mk[i - 1]);
            match c.kind {
                PotCommentKind::Reference => {},
                PotCommentKind::Extracted => {},
                PotCommentKind::Flag => {},
                PotCommentKind::Previous => {},
                PotCommentKind::Translator => {},
            }
        } else if i == 1 + mk.len() {
            assert(l[i] == ' ');
        } else {
            assert(l[i] == c.content[i - 2 - mk.len()]);
        }
    }
    if c.content.len() > 0 {
        assert(l[l.len() - 1] == c.content[c.content.len() - 1]);
    } else {
        assert(l[l.len() - 1] == ' ');
    }
}

proof fn lemma_clean_command_line(kw: Seq<char>, v: Seq<char>)
    requires
        forall|i: int| 0 <= i < kw.len() ==> is_kw_char(kw[i]),
    ensures
        line_clean(command_line_spec(kw, v)),
{
    let l = command_line_spec(kw, v);
    let e = escape_seq(v);
    lemma_escape_no_ctl(v);
    let k = kw.len() as int;
    assert forall|i: int| 0 <= i < l.len() implies l[i] != '\n' by {
        if i < k {
            assert(l[i] == kw[i]);
            assert(is_kw_char(l[i]));
            assert(!is_kw_char('\n'));
        } else if i == k {
            assert(l[i] == ' ');
        } else if i == k + 1 {
            assert(l[i] == '"');
        } else if i < k + 2 + e.len() {
            assert(l[i] == e[i - k - 2]);
        } else {
            assert(l[i] == '"');
        }
    }
    assert(l[l.len() - 1] == '"');
}

proof fn lemma_clean_msgstr_indexed_line(iv: nat, v: Seq<char>)
    ensures
        line_clean(msgstr_indexed_line(iv, v)),
{
    let l = msgstr_indexed_line(iv, v);
    let ds = dec_spec(iv);
    let e = escape_seq(v);
    let d = ds.len() as int;
    lemma_keywords();
    lemma_dec_digits(iv);
    lemma_escape_no_ctl(v);
    assert forall|i: int| 0 <= i < l.len() implies l[i] != '\n' by {
        if i < 6 {
            assert(l[i] == kw_msgstr()[i]);
            assert(is_kw_char(l[i]));
            assert(!is_kw_char('\n'));
        } else if i == 6 {
            assert(l[i] == '[');
        } else if i < 7 + d {
            assert(l[i] == ds[i - 7]);
            assert(is_digit(l[i]));
            assert(!is_digit('\n'));
        } else if i == 7 + d {
            assert(l[i] == ']');
        } else if i == 8 + d {
            assert(l[i] == ' ');
        } else if i == 9 + d {
            assert(l[i] == '"');
        } else if i < 10 + d + e.len() {
            assert(l[i] == e[i - 10 - d]);
        } else {
            assert(l[i] == '"');
        }
    }
    assert(l[l.len() - 1] == '"');
}

proof fn lemma_clean_message_lines(m: MessageModel)
    requires
        message_roundtrip_safe(m),
    ensures
        lines_clean(message_lines_spec(m)),
{
    lemma_keywords();
    let cl = m.comments.map_values(|c: CommentModel| comment_line_spec(c));
    let xl = opt_line_spec(kw_msgctxt(), m.context);
    let il = opt_line_spec(kw_msgid(), m.id);
    let pl = opt_line_spec(kw_msgid_plural(), m.id_plural);
    let sl = Seq::new(m.strings.len(), |i: int| msgstr_line_spec(m, i));
    let ml = message_lines_spec(m);
    let c0 = cl.len() as int;
    let c1 = c0 + xl.len() as int;
    let c2 = c1 + il.len() as int;
    let c3 = c2 + pl.len() as int;
    assert forall|t: int| 0 <= t < ml.len() implies line_clean(ml[t]) by {
        if t < c0 {
            assert(ml[t] == cl[t]);
            assert(cl[t] == comment_line_spec(m.comments[t]));
            lemma_clean_comment_line(m.comments[t]);
        } else if t < c1 {
            assert(ml[t] == xl[t - c0]);
            assert(xl[0] == command_line_spec(kw_msgctxt(), m.context.unwrap()));
            lemma_clean_command_line(kw_msgctxt(), m.context.unwrap());
        } else if t < c2 {
            assert(ml[t] == il[t - c1]);
            assert(il[0] == command_line_spec(kw_msgid(), m.id.unwrap()));
            lemma_clean_command_line(kw_msgid(), m.id.unwrap());
        } else if t < c3 {
            assert(ml[t] == pl[t - c2]);
            assert(pl[0] == command_line_spec(kw_msgid_plural(), m.id_plural.unwrap()));
            lemma_clean_command_line(kw_msgid_plural(), m.id_plural.unwrap());
        } else {
            let j = t - c3;
            assert(ml[t] == sl[j]);
            assert(sl[j] == msgstr_line_spec(m, j));
            if m.id_plural is Some {
                assert(msgstr_line_spec(m, j) == msgstr_indexed_line(j as nat, m.strings[j]));
                lemma_clean_msgstr_indexed_line(j as nat, m.strings[j]);
            } else {
                assert(msgstr_line_spec(m, j) == command_line_spec(kw_msgstr(), m.strings[j]));
                lemma_clean_command_line(kw_msgstr(), m.strings[j]);
            }
        }
    }
}

proof fn lemma_clean_doc_lines(msgs: Seq<MessageModel>)
    requires
        forall|i: int| 0 <= i < msgs.len() ==> message_roundtrip_safe(msgs[i]),
    ensures
        lines_clean(doc_lines_spec(msgs)),
    decreases msgs.len(),
{
    if msgs.len() == 0 {
    } else if msgs.len() == 1 {
        lemma_clean_message_lines(msgs[0]);
    } else {
        lemma_clean_message_lines(msgs[0]);
        assert forall|i: int| 0 <= i < msgs.skip(1).len() implies message_roundtrip_safe(
            msgs.skip(1)[i],
        ) by {
            assert(msgs.skip(1)[i] == msgs[i + 1]);
        }
        lemma_clean_doc_lines(msgs.skip(1));
        let a = message_lines_spec(msgs[0]);
        let b = doc_lines_spec(msgs.skip(1));
        let dl = doc_lines_spec(msgs);
        assert forall|t: int| 0 <= t < dl.len() implies line_clean(dl[t]) by {
            if t < a.len() {
                assert(dl[t] == a[t]);
            } else if t == a.len() {
                assert(dl[t] == Seq::<char>::empty());
            } else {
                assert(dl[t] == b[t - a.len() - 1]);
            }
        }
    }
}

/// Splitting inverts joining, for clean lines.
proof fn lemma_split_join(ls: Seq<Seq<char>>)
    requires
        lines_clean(ls),
    ensures
        split_lines_spec(join_lines(ls)) == ls,
    decreases ls.len(),
{
    if ls.len() == 0 {
    } else {
        let l0 = ls[0];
        let s = join_lines(ls);
        let rest = join_lines(ls.skip(1));
        assert(s == l0 + seq!['\n'] + rest);
        let k = l0.len() as int;
        assert(s.len() == k + 1 + rest.len());
        lemma_first_nl(s);
        assert(line_clean(l0));
        assert(forall|j: int| 0 <= j < k ==> s[j] == l0[j]);
        assert(s[k] == '\n');
        assert(first_nl(s) == k) by {
            if first_nl(s) < k {
                assert(s[first_nl(s) as int] == '\n');
                assert(s[first_nl(s) as int] == l0[first_nl(s) as int]);
            }
            if first_nl(s) > k {
                assert(s[k] != '\n');
            }
        }
        assert(s.take(k) =~= l0);
        assert(strip_cr(l0) == l0);
        assert(s.skip(k + 1) =~= rest);
        assert forall|t: int| 0 <= t < ls.skip(1).len() implies line_clean(ls.skip(1)[t]) by {
            assert(ls.skip(1)[t] == ls[t + 1]);
        }
        lemma_split_join(ls.skip(1));
        assert(split_lines_spec(s) == seq![l0] + ls.skip(1));
        assert(seq![l0] + ls.skip(1) =~= ls);
    }
}

/// Round trip: reading the text written for a catalog of safe messages
/// reproduces the catalog exactly. The last two messages must not share an
/// id, because the assembler suppresses the final push when the trailing
/// in-progress message repeats the id of the last closed one.
pub proof fn lemma_read_write_roundtrip(msgs: Seq<MessageModel>)
    requires
        msgs.len() >= 1,
        forall|i: int| 0 <= i < msgs.len() ==> message_roundtrip_safe(msgs[i]),
        msgs.len() >= 2 ==> msgs[msgs.len() - 2].id != msgs[msgs.len() - 1].id,
    ensures
        read_spec(pot_text_spec(msgs)) == Some(msgs),
{
    lemma_pot_text_join(msgs);
    lemma_clean_doc_lines(msgs);
    lemma_split_join(doc_lines_spec(msgs));
    assert(split_lines_spec(pot_text_spec(msgs)) == doc_lines_spec(msgs));
    let st0 = initial_state();
    assert(st0.current == empty_message());
    lemma_run_doc(st0, msgs);
    let st_f = ReadState {
        messages: closes_to(st0) + msgs.drop_last(),
        current: msgs.last(),
        last: last_command_of(msgs.last()),
    };
    assert(run_spec(st0, split_lines_spec(pot_text_spec(msgs))) == Some(st_f));
    assert(closes_to(st0) =~= Seq::<MessageModel>::empty());
    assert(st_f.messages =~= msgs.drop_last());
    if msgs.len() == 1 {
        assert(st_f.messages.len() == 0);
        assert(finalize_spec(st_f) == st_f.messages.push(msgs.last()));
        assert(st_f.messages.push(msgs.last()) =~= msgs);
    } else {
        assert(st_f.messages.last() == msgs[msgs.len() - 2]);
        assert(st_f.messages.last().id != st_f.current.id);
        assert(finalize_spec(st_f) == st_f.messages.push(msgs.last()));
        assert(st_f.messages.push(msgs.last()) =~= msgs);
    }
}

} // verus!
