//! Serialization of messages back to catalog text.

use vstd::prelude::*;

use crate::escape::escape;
use crate::escape::escape_seq;
use crate::line::kw_msgctxt;
use crate::line::kw_msgid;
use crate::line::kw_msgid_plural;
use crate::line::kw_msgstr;
use crate::message::CommentModel;
use crate::message::MessageModel;
use crate::message::PotCommentKind;
use crate::message::PotMessage;

verus! {

/// The character that writes the decimal digit `n`.
pub open spec fn digit_char(n: nat) -> char {
    if n == 0 {
        '0'
    } else if n == 1 {
        '1'
    } else if n == 2 {
        '2'
    } else if n == 3 {
        '3'
    } else if n == 4 {
        '4'
    } else if n == 5 {
        '5'
    } else if n == 6 {
        '6'
    } else if n == 7 {
        '7'
    } else if n == 8 {
        '8'
    } else {
        '9'
    }
}

/// The decimal digits of `n`, most significant first.
pub open spec fn dec_spec(n: nat) -> Seq<char>
    decreases n,
{
    if n < 10 {
        seq![digit_char(n)]
    } else {
        dec_spec(n / 10).push(digit_char(n % 10))
    }
}

fn digit_str(d: usize) -> (r: &'static str)
    requires
        d < 10,
    ensures
        r@ == seq![digit_char(d as nat)],
{
    proof {
        reveal_strlit("0");
        reveal_strlit("1");
        reveal_strlit("2");
        reveal_strlit("3");
        reveal_strlit("4");
        reveal_strlit("5");
        reveal_strlit("6");
        reveal_strlit("7");
        reveal_strlit("8");
        reveal_strlit("9");
        assert("0"@ =~= seq!['0']);
        assert("1"@ =~= seq!['1']);
        assert("2"@ =~= seq!['2']);
        assert("3"@ =~= seq!['3']);
        assert("4"@ =~= seq!['4']);
        assert("5"@ =~= seq!['5']);
        assert("6"@ =~= seq!['6']);
        assert("7"@ =~= seq!['7']);
        assert("8"@ =~= seq!['8']);
        assert("9"@ =~= seq!['9']);
    }
    if d == 0 {
        "0"
    } else if d == 1 {
        "1"
    } else if d == 2 {
        "2"
    } else if d == 3 {
        "3"
    } else if d == 4 {
        "4"
    } else if d == 5 {
        "5"
    } else if d == 6 {
        "6"
    } else if d == 7 {
        "7"
    } else if d == 8 {
        "8"
    } else {
        "9"
    }
}

/// Writes `n` in decimal.
pub fn dec_str(n: usize) -> (r: String)
    ensures
        r@ == dec_spec(n as nat),
    decreases n,
{
    if n < 10 {
        digit_str(n).to_owned()
    } else {
        let mut s = dec_str(n / 10);
        s.append(digit_str(n % 10));
        proof {
            assert(s@ =~= dec_spec((n / 10) as nat).push(digit_char((n % 10) as nat)));
        }
        s
    }
}

/// The marker that writes a comment kind; empty for a translator comment.
pub open spec fn marker_of(k: PotCommentKind) -> Seq<char> {
    match k {
        PotCommentKind::Reference => seq![':'],
        PotCommentKind::Extracted => seq!['.'],
        PotCommentKind::Flag => seq![','],
        PotCommentKind::Previous => seq!['|'],
        PotCommentKind::Translator => Seq::empty(),
    }
}

/// The line that writes a comment: `#`, its marker, a space, its content.
pub open spec fn comment_line_spec(c: CommentModel) -> Seq<char> {
    seq!['#'] + marker_of(c.kind) + seq![' '] + c.content
}

/// The line that writes a command with keyword `kw` and value `v`.
pub open spec fn command_line_spec(kw: Seq<char>, v: Seq<char>) -> Seq<char> {
    kw + seq![' ', '"'] + escape_seq(v) + seq!['"']
}

/// The line that writes the translated string at index `i` of a message:
/// `msgstr[i] "..."` when the message has a plural id, else `msgstr "..."`.
pub open spec fn msgstr_line_spec(m: MessageModel, i: int) -> Seq<char> {
    if m.id_plural is Some {
        kw_msgstr() + seq!['['] + dec_spec(i as nat) + seq![']', ' ', '"'] + escape_seq(m.strings[i])
            + seq!['"']
    } else {
        command_line_spec(kw_msgstr(), m.strings[i])
    }
}

/// The lines of the optional command with keyword `kw` and value `v`.
pub open spec fn opt_line_spec(kw: Seq<char>, v: Option<Seq<char>>) -> Seq<Seq<char>> {
    match v {
        Some(s) => seq![command_line_spec(kw, s)],
        None => Seq::empty(),
    }
}

/// The lines that write one message, in order: comments, `msgctxt`, `msgid`,
/// `msgid_plural`, then the translated strings.
pub open spec fn message_lines_spec(m: MessageModel) -> Seq<Seq<char>> {
    m.comments.map_values(|c: CommentModel| comment_line_spec(c)) + opt_line_spec(
        kw_msgctxt(),
        m.context,
    ) + opt_line_spec(kw_msgid(), m.id) + opt_line_spec(kw_msgid_plural(), m.id_plural) + Seq::new(
        m.strings.len(),
        |i: int| msgstr_line_spec(m, i),
    )
}

/// The text of a sequence of lines, each followed by a newline.
pub open spec fn join_lines(ls: Seq<Seq<char>>) -> Seq<char>
    decreases ls.len(),
{
    if ls.len() == 0 {
        Seq::empty()
    } else {
        ls[0] + seq!['\n'] + join_lines(ls.skip(1))
    }
}

/// Joining distributes over concatenation of line sequences.
pub proof fn lemma_join_append(a: Seq<Seq<char>>, b: Seq<Seq<char>>)
    ensures
        join_lines(a + b) == join_lines(a) + join_lines(b),
    decreases a.len(),
{
    if a.len() == 0 {
        assert(a + b =~= b);
        assert(Seq::<char>::empty() + join_lines(b) =~= join_lines(b));
    } else {
        assert((a + b)[0] == a[0]);
        assert((a + b).skip(1) =~= a.skip(1) + b);
        lemma_join_append(a.skip(1), b);
        assert(a[0] + seq!['\n'] + (join_lines(a.skip(1)) + join_lines(b)) =~= (a[0] + seq!['\n']
            + join_lines(a.skip(1))) + join_lines(b));
    }
}

/// The text of one line.
pub proof fn lemma_join_one(l: Seq<char>)
    ensures
        join_lines(seq![l]) == l + seq!['\n'],
{
    assert(seq![l][0] == l);
    assert(seq![l].skip(1) =~= Seq::<Seq<char>>::empty());
    assert(join_lines(Seq::<Seq<char>>::empty()) == Seq::<char>::empty());
    assert(l + seq!['\n'] + Seq::<char>::empty() =~= l + seq!['\n']);
}

fn marker_str(k: &PotCommentKind) -> (r: &'static str)
    ensures
        r@ == marker_of(*k),
{
    proof {
        reveal_strlit(":");
        reveal_strlit(".");
        reveal_strlit(",");
        reveal_strlit("|");
        reveal_strlit("");
        assert(":"@ =~= seq![':']);
        assert("."@ =~= seq!['.']);
        assert(","@ =~= seq![',']);
        assert("|"@ =~= seq!['|']);
        assert(""@ =~= Seq::<char>::empty());
    }
    match k {
        PotCommentKind::Reference => ":",
        PotCommentKind::Extracted => ".",
        PotCommentKind::Flag => ",",
        PotCommentKind::Previous => "|",
        PotCommentKind::Translator => "",
    }
}

/// Appends `kw` + space + the quoted escaped value + a newline.
fn append_command_line(out: &mut String, kw: &str, v: &str)
    ensures
        final(out)@ == old(out)@ + command_line_spec(kw@, v@) + seq!['\n'],
{
    out.append(kw);
    out.append(" \"");
    let e = escape(v);
    out.append(e.as_str());
    out.append("\"\n");
    proof {
        reveal_strlit(" \"");
        reveal_strlit("\"\n");
        assert(" \""@ =~= seq![' ', '"']);
        assert("\"\n"@ =~= seq!['"', '\n']);
        assert(out@ =~= old(out)@ + command_line_spec(kw@, v@) + seq!['\n']);
    }
}

impl PotMessage {
    /// Writes this message as catalog text, one line per comment and field,
    /// each line ending in a newline.
    #[verifier::loop_isolation(false)]
    #[verifier::rlimit(60)]
    pub fn to_text(&self) -> (r: String)
        ensures
            r@ == join_lines(message_lines_spec(self@)),
    {
        let ghost cl = self@.comments.map_values(|c: CommentModel| comment_line_spec(c));
        let ghost xl = opt_line_spec(kw_msgctxt(), self@.context);
        let ghost il = opt_line_spec(kw_msgid(), self@.id);
        let ghost pl = opt_line_spec(kw_msgid_plural(), self@.id_plural);
        let ghost sl = Seq::new(self@.strings.len(), |i: int| msgstr_line_spec(self@, i));
        proof {
            reveal_strlit("#");
            reveal_strlit(" ");
            reveal_strlit("\n");
            reveal_strlit("msgctxt");
            reveal_strlit("msgid");
            reveal_strlit("msgid_plural");
            reveal_strlit("msgstr");
            assert("#"@ =~= seq!['#']);
            assert(" "@ =~= seq![' ']);
            assert("\n"@ =~= seq!['\n']);
            assert("msgctxt"@ =~= kw_msgctxt());
            assert("msgid"@ =~= kw_msgid());
            assert("msgid_plural"@ =~= kw_msgid_plural());
            assert("msgstr"@ =~= kw_msgstr());
        }
        let mut out = String::new();
        let mut i: usize = 0;
        while i < self.comments.len()
            invariant
                i <= self.comments.len(),
                out@ == join_lines(cl.take(i as int)),
            decreases self.comments.len() - i,
        {
            let ghost out0 = out@;
            let c = &self.comments[i];
            out.append("#");
            out.append(marker_str(&c.kind));
            out.append(" ");
            out.append(c.content.as_str());
            out.append("\n");
            proof {
                assert(cl[i as int] == comment_line_spec(self@.comments[i as int]));
                assert(out@ =~= out0 + cl[i as int] + seq!['\n']);
                assert(cl.take(i + 1) =~= cl.take(i as int) + seq![cl[i as int]]);
                lemma_join_append(cl.take(i as int), seq![cl[i as int]]);
                lemma_join_one(cl[i as int]);
                assert(out@ =~= join_lines(cl.take(i + 1)));
            }
            i = i + 1;
        }
        proof {
            assert(cl.take(self.comments.len() as int) =~= cl);
        }
        if let Some(ctx) = &self.context {
            let ghost out0 = out@;
            append_command_line(&mut out, "msgctxt", ctx.as_str());
            proof {
                lemma_join_append(cl, xl);
                lemma_join_one(xl[0]);
                assert(xl =~= seq![xl[0]]);
                assert(out@ =~= join_lines(cl + xl));
            }
        } else {
            proof {
                assert(cl + xl =~= cl);
            }
        }
        if let Some(id) = &self.id {
            let ghost out0 = out@;
            append_command_line(&mut out, "msgid", id.as_str());
            proof {
                lemma_join_append(cl + xl, il);
                lemma_join_one(il[0]);
                assert(il =~= seq![il[0]]);
                assert(out@ =~= join_lines(cl + xl + il));
            }
        } else {
            proof {
                assert(cl + xl + il =~= cl + xl);
            }
        }
        if let Some(pid) = &self.id_plural {
            let ghost out0 = out@;
            append_command_line(&mut out, "msgid_plural", pid.as_str());
            proof {
                lemma_join_append(cl + xl + il, pl);
                lemma_join_one(pl[0]);
                assert(pl =~= seq![pl[0]]);
                assert(out@ =~= join_lines(cl + xl + il + pl));
            }
        } else {
            proof {
                assert(cl + xl + il + pl =~= cl + xl + il);
            }
        }
        let ghost head = cl + xl + il + pl;
        let mut j: usize = 0;
        proof {
            assert(sl.take(0) =~= Seq::<Seq<char>>::empty());
            assert(head + sl.take(0) =~= head);
        }
        while j < self.strings.len()
            invariant
                j <= self.strings.len(),
                out@ == join_lines(head + sl.take(j as int)),
            decreases self.strings.len() - j,
        {
            let ghost out0 = out@;
            let v = &self.strings[j];
            if self.id_plural.is_some() {
                out.append("msgstr[");
                let ds = dec_str(j);
                out.append(ds.as_str());
                out.append("] \"");
                let e = escape(v.as_str());
                out.append(e.as_str());
                out.append("\"\n");
                proof {
                    reveal_strlit("msgstr[");
                    reveal_strlit("] \"");
                    reveal_strlit("\"\n");
                    assert("msgstr["@ =~= kw_msgstr() + seq!['[']);
                    assert("] \""@ =~= seq![']', ' ', '"']);
                    assert("\"\n"@ =~= seq!['"', '\n']);
                    assert(self@.strings[j as int] == v@);
                    assert(out@ =~= out0 + msgstr_line_spec(self@, j as int) + seq!['\n']);
                }
            } else {
                append_command_line(&mut out, "msgstr", v.as_str());
                proof {
                    assert(self@.strings[j as int] == v@);
                    assert(out@ =~= out0 + msgstr_line_spec(self@, j as int) + seq!['\n']);
                }
            }
            proof {
                assert(sl[j as int] == msgstr_line_spec(self@, j as int));
                assert(head + sl.take(j + 1) =~= (head + sl.take(j as int)) + seq![sl[j as int]]);
                lemma_join_append(head + sl.take(j as int), seq![sl[j as int]]);
                lemma_join_one(sl[j as int]);
                assert(out@ =~= join_lines(head + sl.take(j + 1)));
            }
            j = j + 1;
        }
        proof {
            assert(sl.take(self.strings.len() as int) =~= sl);
            assert(head + sl =~= message_lines_spec(self@));
        }
        out
    }
}

} // verus!
