//! Commands — parsed keyword lines — and how they apply to a message.

use vstd::prelude::*;

use crate::message::MessageModel;
use crate::message::PotMessage;

verus! {

/// The keyword of a command line. `Other` stands for a keyword that is not
/// one of the four known ones; such a command never applies to a message.
#[derive(Clone, Copy, PartialEq, Eq, Structural, Debug)]
pub enum PotKey {
    Msgctxt,
    Msgid,
    MsgidPlural,
    Msgstr,
    Other,
}

/// A parsed command: a keyword, the decoded string value, and for
/// `msgstr[n]` the index `n`.
#[derive(Debug)]
pub struct PotCommand {
    pub key: PotKey,
    pub value: String,
    pub index: Option<usize>,
}

/// The mathematical model of a command.
#[verifier::ext_equal]
pub struct CommandModel {
    pub key: PotKey,
    pub value: Seq<char>,
    pub index: Option<usize>,
}

impl View for PotCommand {
    type V = CommandModel;

    open spec fn view(&self) -> CommandModel {
        CommandModel { key: self.key, value: self.value@, index: self.index }
    }
}

/// The model of a command with no keyword, as the assembler starts with.
pub open spec fn empty_command() -> CommandModel {
    CommandModel { key: PotKey::Other, value: Seq::empty(), index: None }
}

/// The `msgstr` index of a command, taken as 0 when absent.
pub open spec fn index_or_zero(c: CommandModel) -> int {
    match c.index {
        Some(i) => i as int,
        None => 0,
    }
}

/// Whether a message's current state permits setting the command's field:
/// `msgctxt` before any other field, `msgid` before the plural id and the
/// strings, `msgid_plural` before the strings, and `msgstr[n]` only at an
/// index that is not yet filled.
pub open spec fn can_apply_spec(c: CommandModel, m: MessageModel) -> bool {
    match c.key {
        PotKey::Msgctxt => m.context is None && m.id is None && m.id_plural is None
            && m.strings.len() == 0,
        PotKey::Msgid => m.id is None && m.id_plural is None && m.strings.len() == 0,
        PotKey::MsgidPlural => m.id_plural is None && m.strings.len() == 0,
        PotKey::Msgstr => index_or_zero(c) + 1 > m.strings.len(),
        PotKey::Other => false,
    }
}

/// The message after the command's field is set unconditionally. A `msgstr`
/// at an index beyond the current length extends the strings with empty
/// slots up to that index; at a filled index it overwrites.
pub open spec fn force_apply_spec(c: CommandModel, m: MessageModel) -> MessageModel {
    match c.key {
        PotKey::Msgctxt => MessageModel { context: Some(c.value), ..m },
        PotKey::Msgid => MessageModel { id: Some(c.value), ..m },
        PotKey::MsgidPlural => MessageModel { id_plural: Some(c.value), ..m },
        PotKey::Msgstr => {
            let i = index_or_zero(c);
            if i >= m.strings.len() {
                MessageModel {
                    strings: m.strings + Seq::new((i - m.strings.len()) as nat, |j: int| Seq::empty())
                        + seq![c.value],
                    ..m
                }
            } else {
                MessageModel { strings: m.strings.update(i, c.value), ..m }
            }
        },
        PotKey::Other => m,
    }
}

/// The message after a guarded application: the field is set only when the
/// message's state permits it.
pub open spec fn apply_spec(c: CommandModel, m: MessageModel) -> MessageModel {
    if can_apply_spec(c, m) {
        force_apply_spec(c, m)
    } else {
        m
    }
}

impl PotCommand {
    /// A command with no keyword.
    pub fn new() -> (r: Self)
        ensures
            r@ == empty_command(),
    {
        let r = PotCommand { key: PotKey::Other, value: String::new(), index: None };
        proof {
            assert(r@ =~= empty_command());
        }
        r
    }

    /// Decides, without mutating, whether the message's current state
    /// permits setting this command's field.
    pub fn can_apply(&self, msg: &PotMessage) -> (r: bool)
        ensures
            r == can_apply_spec(self@, msg@),
    {
        match self.key {
            PotKey::Msgctxt => msg.context.is_none() && msg.id.is_none()
                && msg.id_plural.is_none() && msg.strings.len() == 0,
            PotKey::Msgid => msg.id.is_none() && msg.id_plural.is_none()
                && msg.strings.len() == 0,
            PotKey::MsgidPlural => msg.id_plural.is_none() && msg.strings.len() == 0,
            PotKey::Msgstr => {
                let idx = match self.index {
                    Some(i) => i,
                    None => 0,
                };
                idx >= msg.strings.len()
            },
            PotKey::Other => false,
        }
    }

    /// Sets this command's field unconditionally.
    pub fn force_apply(&self, msg: &mut PotMessage)
        ensures
            final(msg)@ == force_apply_spec(self@, old(msg)@),
    {
        match self.key {
            PotKey::Msgctxt => {
                msg.context = Some(self.value.clone());
                proof {
                    assert(msg@ =~= force_apply_spec(self@, old(msg)@));
                }
            },
            PotKey::Msgid => {
                msg.id = Some(self.value.clone());
                proof {
                    assert(msg@ =~= force_apply_spec(self@, old(msg)@));
                }
            },
            PotKey::MsgidPlural => {
                msg.id_plural = Some(self.value.clone());
                proof {
                    assert(msg@ =~= force_apply_spec(self@, old(msg)@));
                }
            },
            PotKey::Msgstr => {
                let idx = match self.index {
                    Some(i) => i,
                    None => 0,
                };
                if idx >= msg.strings.len() {
                    let ghost target = force_apply_spec(self@, old(msg)@);
                    let ghost base = old(msg).strings@.len();
                    while msg.strings.len() < idx
                        invariant
                            base <= msg.strings@.len() <= idx,
                            msg.comments == old(msg).comments,
                            msg.context == old(msg).context,
                            msg.id == old(msg).id,
                            msg.id_plural == old(msg).id_plural,
                            forall|k: int|
                                0 <= k < base ==> msg.strings@[k] == old(msg).strings@[k],
                            forall|k: int|
                                base <= k < msg.strings@.len() ==> msg.strings@[k]@
                                    == Seq::<char>::empty(),
                        decreases idx - msg.strings.len(),
                    {
                        msg.strings.push(String::new());
                    }
                    msg.strings.push(self.value.clone());
                    proof {
                        assert(msg@.strings =~= target.strings);
                        assert(msg@ =~= target);
                    }
                } else {
                    msg.strings.set(idx, self.value.clone());
                    proof {
                        assert(msg@.strings =~= old(msg)@.strings.update(
                            idx as int,
                            self.value@,
                        ));
                        assert(msg@ =~= force_apply_spec(self@, old(msg)@));
                    }
                }
            },
            PotKey::Other => {
                proof {
                    assert(msg@ =~= force_apply_spec(self@, old(msg)@));
                }
            },
        }
    }

    /// Applies this command if the message's state permits it; reports
    /// whether it was applied.
    pub fn apply(&self, msg: &mut PotMessage) -> (r: bool)
        ensures
            r == can_apply_spec(self@, old(msg)@),
            final(msg)@ == apply_spec(self@, old(msg)@),
    {
        if !self.can_apply(msg) {
            return false;
        }
        self.force_apply(msg);
        true
    }
}

} // verus!
