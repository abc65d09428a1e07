//! The catalog: an ordered sequence of messages, read from and written to
//! line-oriented text by the message assembler.

use vstd::prelude::*;

use crate::command::CommandModel;
use crate::command::PotCommand;
use crate::command::apply_spec;
use crate::command::can_apply_spec;
use crate::command::empty_command;
use crate::command::force_apply_spec;
use crate::escape::unescape;
use crate::escape::unescape_seq;
use crate::line::LineClass;
use crate::line::ParsedLine;
use crate::line::classify_line;
use crate::line::classify_spec;
use crate::line::prefix_is;
use crate::message::MessageModel;
use crate::message::PotMessage;
use crate::message::empty_message;
use crate::message::is_valid_spec;
use crate::message::view_opt;
use crate::render::join_lines;
use crate::render::message_lines_spec;

verus! {

/// The one fatal error of reading: a quoted body whose escaping is invalid.
#[derive(Clone, Copy, PartialEq, Eq, Structural, Debug)]
pub enum PotError {
    InvalidEscape,
}

/// The index of the first newline of `s`, or the length of `s` when it has
/// none.
pub open spec fn first_nl(s: Seq<char>) -> nat
    decreases s.len(),
{
    if s.len() == 0 {
        0
    } else if s[0] == '\n' {
        0
    } else {
        1 + first_nl(s.skip(1))
    }
}

/// `s` without one trailing carriage return.
pub open spec fn strip_cr(s: Seq<char>) -> Seq<char> {
    if s.len() > 0 && s[s.len() - 1] == '\r' {
        s.take(s.len() - 1)
    } else {
        s
    }
}

/// The lines of a text: split at each newline, a carriage return before the
/// newline dropped, and no final empty line when the text ends in a newline.
pub open spec fn split_lines_spec(s: Seq<char>) -> Seq<Seq<char>>
    decreases s.len(),
{
    if s.len() == 0 {
        Seq::empty()
    } else {
        let i = first_nl(s);
        if i >= s.len() {
            seq![s]
        } else {
            seq![strip_cr(s.take(i as int))] + split_lines_spec(s.skip(i as int + 1))
        }
    }
}

/// Where the first newline is: before it none, at it one, unless there is
/// none at all.
pub proof fn lemma_first_nl(s: Seq<char>)
    ensures
        first_nl(s) <= s.len(),
        forall|j: int| 0 <= j < first_nl(s) ==> s[j] != '\n',
        first_nl(s) < s.len() ==> s[first_nl(s) as int] == '\n',
    decreases s.len(),
{
    if s.len() == 0 {
    } else if s[0] == '\n' {
    } else {
        lemma_first_nl(s.skip(1));
        assert forall|j: int| 0 <= j < first_nl(s) implies s[j] != '\n' by {
            if j >= 1 {
                assert(s[j] == s.skip(1)[j - 1]);
            }
        }
        if first_nl(s) < s.len() {
            assert(s[first_nl(s) as int] == s.skip(1)[first_nl(s.skip(1)) as int]);
        }
    }
}

/// The parsing state between lines: the closed messages, the message under
/// construction, and the most recently parsed command, which continuation
/// lines extend.
#[verifier::ext_equal]
pub struct ReadState {
    pub messages: Seq<MessageModel>,
    pub current: MessageModel,
    pub last: CommandModel,
}

/// The state the assembler starts in.
pub open spec fn initial_state() -> ReadState {
    ReadState { messages: Seq::empty(), current: empty_message(), last: empty_command() }
}

/// One step of the assembler on one classified line. A comment closes a
/// valid message before being appended; a command that cannot apply closes
/// the message and is applied to the fresh one; a continuation extends the
/// last command's value and force-applies it; anything else is skipped.
/// `None` reports a fatal unescaping failure.
pub open spec fn step_spec(st: ReadState, line: Seq<char>) -> Option<ReadState> {
    match classify_spec(line) {
        LineClass::Comment(c) => {
            let st1 = if is_valid_spec(st.current) {
                ReadState { messages: st.messages.push(st.current), current: empty_message(), ..st }
            } else {
                st
            };
            Some(
                ReadState {
                    current: MessageModel {
                        comments: st1.current.comments.push(c),
                        ..st1.current
                    },
                    ..st1
                },
            )
        },
        LineClass::Command(key, index, body) => match unescape_seq(body) {
            None => None,
            Some(v) => {
                let cmd = CommandModel { key: key, value: v, index: index };
                let st1 = if !can_apply_spec(cmd, st.current) {
                    ReadState {
                        messages: st.messages.push(st.current),
                        current: empty_message(),
                        ..st
                    }
                } else {
                    st
                };
                Some(ReadState { current: apply_spec(cmd, st1.current), last: cmd, ..st1 })
            },
        },
        LineClass::Continuation(body) => match unescape_seq(body) {
            None => None,
            Some(v) => {
                let cmd = CommandModel { value: st.last.value + v, ..st.last };
                Some(ReadState { current: force_apply_spec(cmd, st.current), last: cmd, ..st })
            },
        },
        LineClass::Blank => Some(st),
    }
}

/// The assembler run over a sequence of lines.
pub open spec fn run_spec(st: ReadState, lines: Seq<Seq<char>>) -> Option<ReadState>
    decreases lines.len(),
{
    if lines.len() == 0 {
        Some(st)
    } else {
        match step_spec(st, lines[0]) {
            None => None,
            Some(s1) => run_spec(s1, lines.skip(1)),
        }
    }
}

/// At end of input the message under construction is pushed, unless the
/// catalog already ends in a message with the same id.
pub open spec fn finalize_spec(st: ReadState) -> Seq<MessageModel> {
    if st.messages.len() == 0 || st.messages.last().id != st.current.id {
        st.messages.push(st.current)
    } else {
        st.messages
    }
}

/// The catalog a text stands for, or `None` on a fatal unescaping failure.
pub open spec fn read_spec(text: Seq<char>) -> Option<Seq<MessageModel>> {
    match run_spec(initial_state(), split_lines_spec(text)) {
        None => None,
        Some(st) => Some(finalize_spec(st)),
    }
}

/// The text that writes a catalog: each message's lines, with one blank
/// line between consecutive messages.
pub open spec fn pot_text_spec(msgs: Seq<MessageModel>) -> Seq<char>
    decreases msgs.len(),
{
    if msgs.len() == 0 {
        Seq::empty()
    } else if msgs.len() == 1 {
        join_lines(message_lines_spec(msgs[0]))
    } else {
        join_lines(message_lines_spec(msgs[0])) + seq!['\n'] + pot_text_spec(msgs.skip(1))
    }
}

/// Running over an appended line acts on the state the prefix reached.
pub proof fn lemma_run_push(st: ReadState, a: Seq<Seq<char>>, x: Seq<char>)
    ensures
        run_spec(st, a.push(x)) == (match run_spec(st, a) {
            None => None,
            Some(s1) => step_spec(s1, x),
        }),
    decreases a.len(),
{
    if a.len() == 0 {
        assert(a.push(x)[0] == x);
        assert(a.push(x).skip(1) =~= Seq::<Seq<char>>::empty());
        assert(run_spec(st, a) == Some(st));
        match step_spec(st, x) {
            None => {
                assert(run_spec(st, a.push(x)) is None);
            },
            Some(s1) => {
                assert(run_spec(s1, Seq::<Seq<char>>::empty()) == Some(s1));
            },
        }
    } else {
        assert(a.push(x)[0] == a[0]);
        assert(a.push(x).skip(1) =~= a.skip(1).push(x));
        match step_spec(st, a[0]) {
            None => {},
            Some(s1) => {
                lemma_run_push(s1, a.skip(1), x);
            },
        }
    }
}

/// Running over a concatenation runs over the parts in order.
pub proof fn lemma_run_append(st: ReadState, a: Seq<Seq<char>>, b: Seq<Seq<char>>)
    ensures
        run_spec(st, a + b) == (match run_spec(st, a) {
            None => None,
            Some(s1) => run_spec(s1, b),
        }),
    decreases a.len(),
{
    if a.len() == 0 {
        assert(a + b =~= b);
    } else {
        assert((a + b)[0] == a[0]);
        assert((a + b).skip(1) =~= a.skip(1) + b);
        match step_spec(st, a[0]) {
            None => {},
            Some(s1) => {
                lemma_run_append(s1, a.skip(1), b);
            },
        }
    }
}

/// Splits a text into its lines.
#[verifier::loop_isolation(false)]
pub fn split_lines(input: &str) -> (r: Vec<String>)
    ensures
        r@.map_values(|l: String| l@) == split_lines_spec(input@),
{
    let n = input.unicode_len();
    let mut out: Vec<String> = Vec::new();
    let mut i: usize = 0;
    proof {
        assert(input@.skip(0) =~= input@);
        assert(out@.map_values(|l: String| l@) =~= Seq::<Seq<char>>::empty());
        assert(Seq::<Seq<char>>::empty() + split_lines_spec(input@) =~= split_lines_spec(input@));
    }
    while i < n
        invariant
            i <= n,
            split_lines_spec(input@) == out@.map_values(|l: String| l@) + split_lines_spec(
                input@.skip(i as int),
            ),
        decreases n - i,
    {
        let ghost rest = input@.skip(i as int);
        let ghost out0 = out@;
        let mut j = i;
        while j < n && input.get_char(j) != '\n'
            invariant
                i <= j <= n,
                forall|t: int| i <= t < j ==> input@[t] != '\n',
            decreases n - j,
        {
            j = j + 1;
        }
        proof {
            lemma_first_nl(rest);
            assert(forall|t: int| 0 <= t < rest.len() ==> rest[t] == input@[i + t]);
            if j < n {
                assert(rest[j - i] == '\n');
                assert(first_nl(rest) == j - i);
            } else {
                assert(forall|t: int| 0 <= t < rest.len() ==> rest[t] != '\n');
                assert(first_nl(rest) == rest.len());
            }
        }
        let mut endx = j;
        if j < n && j > i && input.get_char(j - 1) == '\r' {
            endx = j - 1;
        }
        proof {
            if j < n {
                assert(rest.take(j - i) =~= input@.subrange(i as int, j as int));
                assert(strip_cr(rest.take(j - i)) =~= input@.subrange(i as int, endx as int));
                assert(rest.skip(j - i + 1) =~= input@.skip(j + 1));
            } else {
                assert(rest =~= input@.subrange(i as int, endx as int));
            }
        }
        let piece = input.substring_char(i, endx).to_owned();
        out.push(piece);
        proof {
            assert(out@.map_values(|l: String| l@) =~= out0.map_values(|l: String| l@) + seq![
                input@.subrange(i as int, endx as int),
            ]);
            if j < n {
                assert(split_lines_spec(rest) == seq![input@.subrange(i as int, endx as int)]
                    + split_lines_spec(input@.skip(j + 1)));
                assert(out0.map_values(|l: String| l@) + split_lines_spec(rest)
                    =~= out@.map_values(|l: String| l@) + split_lines_spec(input@.skip(j + 1)));
            } else {
                assert(split_lines_spec(rest) == seq![input@.subrange(i as int, endx as int)]);
                assert(input@.skip(n as int) =~= Seq::<char>::empty());
                assert(out0.map_values(|l: String| l@) + split_lines_spec(rest)
                    =~= out@.map_values(|l: String| l@) + split_lines_spec(input@.skip(n as int)));
            }
        }
        if j < n {
            i = j + 1;
        } else {
            i = n;
        }
    }
    proof {
        assert(input@.skip(n as int) =~= Seq::<char>::empty());
        assert(out@.map_values(|l: String| l@) + Seq::<Seq<char>>::empty() =~= out@.map_values(
            |l: String| l@,
        ));
    }
    out
}

fn opt_str_eq(a: &Option<String>, b: &Option<String>) -> (r: bool)
    ensures
        r == (view_opt(*a) == view_opt(*b)),
{
    match (a, b) {
        (None, None) => true,
        (Some(x), Some(y)) => {
            let n = x.as_str().unicode_len();
            let r = prefix_is(x.as_str(), n, y.as_str());
            proof {
                assert(x@.take(n as int) =~= x@);
            }
            r
        },
        _ => false,
    }
}

/// An ordered catalog of messages.
#[derive(Debug)]
pub struct Pot {
    pub messages: Vec<PotMessage>,
}

impl View for Pot {
    type V = Seq<MessageModel>;

    open spec fn view(&self) -> Seq<MessageModel> {
        self.messages@.map_values(|m: PotMessage| m@)
    }
}

impl Default for Pot {
    /// An empty catalog.
    fn default() -> (r: Self)
        ensures
            r@ == Seq::<MessageModel>::empty(),
    {
        let r = Pot { messages: Vec::new() };
        proof {
            assert(r@ =~= Seq::<MessageModel>::empty());
        }
        r
    }
}

impl Pot {
    /// An empty catalog.
    pub fn new() -> (r: Self)
        ensures
            r@ == Seq::<MessageModel>::empty(),
    {
        Default::default()
    }

    /// Reads a catalog from text: runs the assembler over every line and
    /// closes the trailing message. Unrecognized lines are skipped; an
    /// invalid escape in a quoted body is the one fatal error.
    #[verifier::loop_isolation(false)]
    #[verifier::rlimit(60)]
    pub fn read(input: &str) -> (r: Result<Pot, PotError>)
        ensures
            match r {
                Ok(p) => read_spec(input@) == Some(p@),
                Err(_) => read_spec(input@) is None,
            },
    {
        let lines = split_lines(input);
        let ghost lseq = lines@.map_values(|l: String| l@);
        let mut pot = Pot::new();
        let mut message = PotMessage::new();
        let mut command = PotCommand::new();
        let mut i: usize = 0;
        proof {
            assert(lseq.take(0) =~= Seq::<Seq<char>>::empty());
            assert(ReadState { messages: pot@, current: message@, last: command@ }
                =~= initial_state());
        }
        while i < lines.len()
            invariant
                i <= lines.len(),
                run_spec(initial_state(), lseq.take(i as int)) == Some(
                    ReadState { messages: pot@, current: message@, last: command@ },
                ),
            decreases lines.len() - i,
        {
            let ghost st0 = ReadState { messages: pot@, current: message@, last: command@ };
            proof {
                lemma_run_push(initial_state(), lseq.take(i as int), lseq[i as int]);
                assert(lseq.take(i as int).push(lseq[i as int]) =~= lseq.take(i + 1));
            }
            match classify_line(lines[i].as_str()) {
                ParsedLine::Comment(c) => {
                    let ghost cm = c@;
                    if message.is_valid() {
                        pot.messages.push(message);
                        message = PotMessage::new();
                    }
                    proof {
                        let st1 = if is_valid_spec(st0.current) {
                            ReadState {
                                messages: st0.messages.push(st0.current),
                                current: empty_message(),
                                ..st0
                            }
                        } else {
                            st0
                        };
                        assert(pot@ =~= st1.messages);
                        assert(message@ =~= st1.current);
                    }
                    message.comments.push(c);
                    proof {
                        assert(step_spec(st0, lseq[i as int]) matches Some(s) && s =~= (ReadState {
                            messages: pot@,
                            current: message@,
                            last: command@,
                        }));
                    }
                },
                ParsedLine::Command(key, index, body) => {
                    match unescape(body.as_str()) {
                        None => {
                            proof {
                                assert(step_spec(st0, lseq[i as int]) is None);
                                assert(run_spec(initial_state(), lseq.take(i + 1)) is None);
                                assert(lseq =~= lseq.take(i + 1) + lseq.skip(i + 1));
                                lemma_run_append(
                                    initial_state(),
                                    lseq.take(i + 1),
                                    lseq.skip(i + 1),
                                );
                            }
                            return Err(PotError::InvalidEscape);
                        },
                        Some(v) => {
                            let cmd = PotCommand { key, value: v, index };
                            if !cmd.can_apply(&message) {
                                pot.messages.push(message);
                                message = PotMessage::new();
                            }
                            proof {
                                let c0 = cmd@;
                                let st1 = if !can_apply_spec(c0, st0.current) {
                                    ReadState {
                                        messages: st0.messages.push(st0.current),
                                        current: empty_message(),
                                        ..st0
                                    }
                                } else {
                                    st0
                                };
                                assert(pot@ =~= st1.messages);
                                assert(message@ =~= st1.current);
                            }
                            cmd.apply(&mut message);
                            command = cmd;
                            proof {
                                assert(step_spec(st0, lseq[i as int]) matches Some(s) && s
                                    =~= (ReadState {
                                    messages: pot@,
                                    current: message@,
                                    last: command@,
                                }));
                            }
                        },
                    }
                },
                ParsedLine::Continuation(body) => {
                    match unescape(body.as_str()) {
                        None => {
                            proof {
                                assert(step_spec(st0, lseq[i as int]) is None);
                                assert(run_spec(initial_state(), lseq.take(i + 1)) is None);
                                assert(lseq =~= lseq.take(i + 1) + lseq.skip(i + 1));
                                lemma_run_append(
                                    initial_state(),
                                    lseq.take(i + 1),
                                    lseq.skip(i + 1),
                                );
                            }
                            return Err(PotError::InvalidEscape);
                        },
                        Some(v) => {
                            command.value.append(v.as_str());
                            command.force_apply(&mut message);
                            proof {
                                assert(command@ =~= (CommandModel {
                                    value: st0.last.value + v@,
                                    ..st0.last
                                }));
                                assert(step_spec(st0, lseq[i as int]) matches Some(s) && s
                                    =~= (ReadState {
                                    messages: pot@,
                                    current: message@,
                                    last: command@,
                                }));
                            }
                        },
                    }
                },
                ParsedLine::Blank => {},
            }
            i = i + 1;
        }
        proof {
            assert(lseq.take(lines.len() as int) =~= lseq);
        }
        let push_final = if pot.messages.len() == 0 {
            true
        } else {
            !opt_str_eq(&pot.messages[pot.messages.len() - 1].id, &message.id)
        };
        let ghost st_end = ReadState { messages: pot@, current: message@, last: command@ };
        if push_final {
            pot.messages.push(message);
        }
        proof {
            assert(pot@ =~= finalize_spec(st_end));
        }
        Ok(pot)
    }

    /// Writes the catalog as text: the messages in order, separated by one
    /// blank line, with no trailing blank line.
    #[verifier::loop_isolation(false)]
    pub fn write(&self) -> (r: String)
        ensures
            r@ == pot_text_spec(self@),
    {
        let mut out = String::new();
        let mut i: usize = 0;
        proof {
            assert(self@.skip(0) =~= self@);
            assert(Seq::<char>::empty() + pot_text_spec(self@) =~= pot_text_spec(self@));
            reveal_strlit("\n");
            assert("\n"@ =~= seq!['\n']);
        }
        while i < self.messages.len()
            invariant
                i <= self.messages.len(),
                pot_text_spec(self@) == out@ + pot_text_spec(self@.skip(i as int)),
            decreases self.messages.len() - i,
        {
            let ghost rest = self@.skip(i as int);
            let ghost out0 = out@;
            proof {
                assert(rest[0] == self@[i as int]);
                assert(rest.skip(1) =~= self@.skip(i + 1));
            }
            let t = self.messages[i].to_text();
            out.append(t.as_str());
            if i + 1 < self.messages.len() {
                out.append("\n");
                proof {
                    assert(rest.len() >= 2);
                    assert(out@ =~= out0 + (join_lines(message_lines_spec(rest[0])) + seq!['\n']));
                    assert(out@ + pot_text_spec(self@.skip(i + 1)) =~= out0 + pot_text_spec(rest));
                }
            } else {
                proof {
                    assert(rest.len() == 1);
                    assert(self@.skip(i + 1) =~= Seq::<MessageModel>::empty());
                    assert(out@ + pot_text_spec(self@.skip(i + 1)) =~= out0 + pot_text_spec(rest));
                }
            }
            i = i + 1;
        }
        proof {
            assert(self@.skip(self.messages.len() as int) =~= Seq::<MessageModel>::empty());
            assert(out@ + pot_text_spec(self@.skip(self.messages.len() as int)) =~= out@);
        }
        out
    }
}

} // verus!
