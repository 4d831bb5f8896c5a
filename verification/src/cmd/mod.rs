//! The commands a client can send, and what each of them does.

pub mod get;
pub mod publish;
pub mod set;
pub mod subscribe;
pub mod unknown;

pub use get::Get;
pub use publish::Publish;
pub use set::SetCmd;
pub use subscribe::Subscribe;
pub use subscribe::Unsubscribe;
pub use unknown::Unknown;

use vstd::prelude::*;
use crate::cmd::get::GetView;
use crate::cmd::publish::PublishView;
use crate::cmd::set::SetView;
use crate::cmd::subscribe::msg_unsupported;
use crate::connection::Connection;
use crate::db::{Db, DbView};
use crate::frame::{encode, Frame, FrameView};
use crate::parse::{msg_expected_array, msg_expected_end, take_string, Parse, ParseErrorView};
use crate::text::{lowercase, same_text, to_lowercase};

verus! {

/// A command of a client.
#[derive(Debug)]
pub enum Command {
    Get(Get),
    Publish(Publish),
    SetCmd(SetCmd),
    Subscribe(Subscribe),
    Unsubscribe(Unsubscribe),
    Unknown(Unknown),
}

/// What came of a command that was applied.
#[derive(Debug)]
pub enum Outcome {
    /// The command was answered, and that is all.
    Answered,
    /// A value was stored and the command answered; `wake` says whether
    /// whoever purges the store has to be woken.
    Stored { wake: bool },
    /// A message was published to `reached` receivers and the command answered.
    Published { reached: usize },
    /// Nothing was done yet: the connection has to go into a session, which
    /// starts by joining the channels of the command.
    Session(Subscribe),
}

/// What a [`Command`] holds, as mathematics sees it.
pub enum CommandView {
    Get(GetView),
    Publish(PublishView),
    SetCmd(SetView),
    Subscribe(Seq<Seq<char>>),
    Unsubscribe(Seq<Seq<char>>),
    Unknown(Seq<char>),
}

impl View for Command {
    type V = CommandView;

    open spec fn view(&self) -> CommandView {
        match self {
            Command::Get(cmd) => CommandView::Get(cmd@),
            Command::Publish(cmd) => CommandView::Publish(cmd@),
            Command::SetCmd(cmd) => CommandView::SetCmd(cmd@),
            Command::Subscribe(cmd) => CommandView::Subscribe(cmd@),
            Command::Unsubscribe(cmd) => CommandView::Unsubscribe(cmd@),
            Command::Unknown(cmd) => CommandView::Unknown(cmd@),
        }
    }
}

/// What was read from the arguments, if it was read and no argument is left over.
pub open spec fn finished<T>(parsed: (Result<T, ParseErrorView>, Seq<FrameView>)) -> Result<
    T,
    Seq<char>,
> {
    match parsed.0 {
        Err(e) => Err(e.message()),
        Ok(cmd) => if parsed.1.len() == 0 {
            Ok(cmd)
        } else {
            Err(msg_expected_end())
        },
    }
}

/// The command by the name `name`, in lower case, with the arguments `args`.
/// A name that is not known makes an unknown command, whatever the arguments.
pub open spec fn command_named(name: Seq<char>, args: Seq<FrameView>) -> Result<
    CommandView,
    Seq<char>,
> {
    if name == "get"@ {
        match finished(Get::parsed(args)) {
            Ok(cmd) => Ok(CommandView::Get(cmd)),
            Err(e) => Err(e),
        }
    } else if name == "publish"@ {
        match finished(Publish::parsed(args)) {
            Ok(cmd) => Ok(CommandView::Publish(cmd)),
            Err(e) => Err(e),
        }
    } else if name == "set"@ {
        match finished(SetCmd::parsed(args)) {
            Ok(cmd) => Ok(CommandView::SetCmd(cmd)),
            Err(e) => Err(e),
        }
    } else if name == "subscribe"@ {
        match finished(Subscribe::parsed(args)) {
            Ok(cmd) => Ok(CommandView::Subscribe(cmd)),
            Err(e) => Err(e),
        }
    } else if name == "unsubscribe"@ {
        match finished(Unsubscribe::parsed(args)) {
            Ok(cmd) => Ok(CommandView::Unsubscribe(cmd)),
            Err(e) => Err(e),
        }
    } else {
        Ok(CommandView::Unknown(name))
    }
}

/// The command that `frame` stands for: an array whose first element is the
/// name of the command, in any mix of upper and lower case.
pub open spec fn command_of(frame: FrameView) -> Result<CommandView, Seq<char>> {
    match frame {
        FrameView::Array(items) => match take_string(items).0 {
            Err(e) => Err(e.message()),
            Ok(name) => command_named(lowercase(name), take_string(items).1),
        },
        _ => Err(msg_expected_array()),
    }
}

/// The name that a command goes by.
pub open spec fn name_of(cmd: CommandView) -> Seq<char> {
    match cmd {
        CommandView::Get(_) => "get"@,
        CommandView::Publish(_) => "pub"@,
        CommandView::SetCmd(_) => "set"@,
        CommandView::Subscribe(_) => "subscribe"@,
        CommandView::Unsubscribe(_) => "unsubscribe"@,
        CommandView::Unknown(name) => name,
    }
}

/// What applying the command `cmd` comes to: how the store `db` and what
/// was `written` to the connection stand afterwards, and what is answered
/// to the caller.
pub open spec fn applied(
    cmd: CommandView,
    db: DbView,
    written: Seq<u8>,
    now: u64,
    db_after: DbView,
    written_after: Seq<u8>,
    r: Result<Outcome, String>,
) -> bool {
    match cmd {
        CommandView::Get(get) => {
            &&& r matches Ok(Outcome::Answered)
            &&& db_after == db
            &&& written_after == written + encode(
                Get::response(get, db),
            )
        },
        CommandView::Publish(cmd) => {
            &&& r matches Ok(Outcome::Published { reached })
            &&& (!db.channels.contains(cmd.channel) ==> reached == 0)
            &&& written_after == written + encode(
                FrameView::Integer(reached as u64),
            )
            &&& db_after == db
        },
        CommandView::SetCmd(cmd) => {
            &&& r matches Ok(Outcome::Stored { wake })
            &&& wake == db.wakes(cmd.expire, now)
            &&& db_after == db.set(cmd.key, cmd.value, cmd.expire, now)
            &&& written_after == written + encode(
                FrameView::Simple("OK"@),
            )
        },
        CommandView::Subscribe(names) => {
            &&& r matches Ok(Outcome::Session(session))
            &&& session@ == names
            &&& db_after == db
            &&& written_after == written
        },
        CommandView::Unsubscribe(_) => {
            &&& r matches Err(e)
            &&& e@ == msg_unsupported()
            &&& db_after == db
            &&& written_after == written
        },
        CommandView::Unknown(name) => {
            &&& r matches Ok(Outcome::Answered)
            &&& db_after == db
            &&& written_after == written + encode(
                Unknown::response(name),
            )
        },
    }
}

/// Makes sure that no argument is left over behind a command.
fn finish(parse: &mut Parse) -> (r: Result<(), String>)
    ensures
        match r {
            Ok(_) => old(parse)@.len() == 0,
            Err(e) => old(parse)@.len() > 0 && e@ == msg_expected_end(),
        },
{
    match parse.finish() {
        Ok(_) => Ok(()),
        Err(e) => Err(e.message()),
    }
}

impl Command {
    /// Reads the command by the name `name`, which is in lower case, with
    /// its arguments from `parse`.
    pub fn from_name(name: String, parse: &mut Parse) -> (r: Result<Command, String>)
        ensures
            match r {
                Ok(cmd) => command_named(name@, old(parse)@) == Ok::<CommandView, Seq<char>>(cmd@),
                Err(e) => command_named(name@, old(parse)@) == Err::<CommandView, Seq<char>>(e@),
            },
    {
        let command = if same_text(name.as_str(), "get") {
            match Get::parse_frames(parse) {
                Ok(cmd) => Command::Get(cmd),
                Err(e) => {
                    return Err(e.message());
                },
            }
        } else if same_text(name.as_str(), "publish") {
            match Publish::parse_frames(parse) {
                Ok(cmd) => Command::Publish(cmd),
                Err(e) => {
                    return Err(e.message());
                },
            }
        } else if same_text(name.as_str(), "set") {
            match SetCmd::parse_frames(parse) {
                Ok(cmd) => Command::SetCmd(cmd),
                Err(e) => {
                    return Err(e.message());
                },
            }
        } else if same_text(name.as_str(), "subscribe") {
            match Subscribe::parse_frames(parse) {
                Ok(cmd) => Command::Subscribe(cmd),
                Err(e) => {
                    return Err(e.message());
                },
            }
        } else if same_text(name.as_str(), "unsubscribe") {
            match Unsubscribe::parse_frames(parse) {
                Ok(cmd) => Command::Unsubscribe(cmd),
                Err(e) => {
                    return Err(e.message());
                },
            }
        } else {
            return Ok(Command::Unknown(Unknown::new(name.as_str())));
        };
        finish(parse)?;
        Ok(command)
    }

    /// Reads a command from the frame that a client sent.
    pub fn from_frame(frame: Frame) -> (r: Result<Command, String>)
        ensures
            match r {
                Ok(cmd) => command_of(frame@) == Ok::<CommandView, Seq<char>>(cmd@),
                Err(e) => command_of(frame@) == Err::<CommandView, Seq<char>>(e@),
            },
    {
        let mut parse = match Parse::new(frame) {
            Ok(parse) => parse,
            Err(e) => {
                return Err(e.message());
            },
        };
        let command_name = match parse.next_string() {
            Ok(name) => to_lowercase(name.as_str()),
            Err(e) => {
                return Err(e.message());
            },
        };
        Command::from_name(command_name, &mut parse)
    }

    /// Does what the command asks for, on the store `db` at the moment
    /// `now`, and writes the answer to `dst`.
    ///
    /// Joining channels is not done here: it starts a session, and the
    /// command is handed back for that. Leaving channels outside a session
    /// is an error.
    pub fn apply(self, db: &mut Db, dst: &mut Connection, now: u64) -> (r: Result<Outcome, String>)
        requires
            old(db).wf(),
        ensures
            final(db).wf(),
            final(dst).buffered() == old(dst).buffered(),
            applied(
                self@,
                old(db)@,
                old(dst).pending(),
                now,
                final(db)@,
                final(dst).pending(),
                r,
            ),
    {
        match self {
            Command::Get(cmd) => {
                cmd.apply(db, dst);
                Ok(Outcome::Answered)
            },
            Command::Publish(cmd) => {
                let reached = cmd.apply(db, dst);
                Ok(Outcome::Published { reached })
            },
            Command::SetCmd(cmd) => {
                let wake = cmd.apply(db, dst, now);
                Ok(Outcome::Stored { wake })
            },
            Command::Subscribe(cmd) => Ok(Outcome::Session(cmd)),
            Command::Unsubscribe(_) => Err("unsubscribe si unsupproted in this context".to_owned()),
            Command::Unknown(cmd) => {
                cmd.apply(dst);
                Ok(Outcome::Answered)
            },
        }
    }

    /// The name of the command.
    pub fn get_name(&self) -> (name: &str)
        ensures
            name@ == name_of(self@),
    {
        match self {
            Command::Get(_) => "get",
            Command::Publish(_) => "pub",
            Command::SetCmd(_) => "set",
            Command::Subscribe(_) => "subscribe",
            Command::Unsubscribe(_) => "unsubscribe",
            Command::Unknown(cmd) => cmd.get_name(),
        }
    }
}

/// The names of the commands differ from each other.
pub proof fn lemma_names_differ()
    ensures
        "get"@ != "publish"@,
        "get"@ != "set"@,
        "get"@ != "subscribe"@,
        "get"@ != "unsubscribe"@,
        "publish"@ != "set"@,
        "publish"@ != "subscribe"@,
        "publish"@ != "unsubscribe"@,
        "set"@ != "subscribe"@,
        "set"@ != "unsubscribe"@,
        "subscribe"@ != "unsubscribe"@,
{
    reveal_strlit("get");
    reveal_strlit("publish");
    reveal_strlit("set");
    reveal_strlit("subscribe");
    reveal_strlit("unsubscribe");
    assert("get"@[0] != "set"@[0]);
    assert("get"@.len() == 3 && "set"@.len() == 3 && "publish"@.len() == 7 && "subscribe"@.len()
        == 9 && "unsubscribe"@.len() == 11);
}

/// A frame whose first element holds the name `name` as a bulk is read as
/// the command by that name with the elements behind the first as its
/// arguments, where lowering the name leaves it as it is.
pub proof fn lemma_command_of_request(name: Seq<char>, items: Seq<FrameView>)
    requires
        items.len() >= 1,
        items[0] == FrameView::Bulk(vstd::utf8::encode_utf8(name)),
    ensures
        lowercase(name) == name ==> command_of(FrameView::Array(items)) == command_named(
            name,
            items.drop_first(),
        ),
{
    vstd::utf8::encode_utf8_valid_utf8(name);
    vstd::utf8::encode_utf8_decode_utf8(name);
}

/// The request that a command to look a key up turns into is read as that
/// command.
pub proof fn lemma_get_request_is_read(cmd: GetView)
    ensures
        command_named("get"@, Get::request(cmd)->Array_0.drop_first()) == Ok::<
            CommandView,
            Seq<char>,
        >(CommandView::Get(cmd)),
{
    let args = Get::request(cmd)->Array_0.drop_first();
    vstd::utf8::encode_utf8_valid_utf8(cmd.key);
    vstd::utf8::encode_utf8_decode_utf8(cmd.key);
    assert(args[0] == FrameView::Bulk(vstd::utf8::encode_utf8(cmd.key)));
    assert(take_string(args).1 =~= Seq::<FrameView>::empty());
}

/// The request that a command to publish turns into is read as that command.
pub proof fn lemma_publish_request_is_read(cmd: PublishView)
    ensures
        command_named("publish"@, Publish::request(cmd)->Array_0.drop_first()) == Ok::<
            CommandView,
            Seq<char>,
        >(CommandView::Publish(cmd)),
{
    lemma_names_differ();
    let args = Publish::request(cmd)->Array_0.drop_first();
    vstd::utf8::encode_utf8_valid_utf8(cmd.channel);
    vstd::utf8::encode_utf8_decode_utf8(cmd.channel);
    assert(args[0] == FrameView::Bulk(vstd::utf8::encode_utf8(cmd.channel)));
    let behind = take_string(args).1;
    assert(behind[0] == FrameView::Bulk(cmd.message));
    assert(crate::parse::take_bytes(behind).1 =~= Seq::<FrameView>::empty());
}

/// The request that a command to join channels turns into is read as that
/// command, where it names one channel at least; and so is the request
/// that a command to leave channels turns into, however many it names.
pub proof fn lemma_channel_requests_are_read(channels: Seq<Seq<char>>)
    ensures
        channels.len() >= 1 ==> command_named(
            "subscribe"@,
            crate::cmd::subscribe::request("subscribe"@, channels)->Array_0.drop_first(),
        ) == Ok::<CommandView, Seq<char>>(CommandView::Subscribe(channels)),
        command_named(
            "unsubscribe"@,
            crate::cmd::subscribe::request("unsubscribe"@, channels)->Array_0.drop_first(),
        ) == Ok::<CommandView, Seq<char>>(CommandView::Unsubscribe(channels)),
{
    lemma_names_differ();
    crate::cmd::subscribe::lemma_request_reads_back("subscribe"@, channels);
    crate::cmd::subscribe::lemma_request_reads_back("unsubscribe"@, channels);
}

/// The request that a command to store a value turns into is read as that
/// command: same key, same value, same time.
pub proof fn lemma_set_request_is_read(cmd: SetView)
    ensures
        command_named("set"@, SetCmd::request(cmd)->Array_0.drop_first()) == Ok::<
            CommandView,
            Seq<char>,
        >(CommandView::SetCmd(cmd)),
{
    crate::cmd::set::lemma_request_reads_back(cmd);
    lemma_names_differ();
}

} // verus!
