//! The chat room: the registry of connected users, the log of messages
//! waiting for delivery, and the fan-out of each message to every user.
use vstd::prelude::*;
use vstd::string::{StrSliceExecFns, StringExecFns};
use vstd::utf8::{encode_utf8, is_ascii_chars};

use crate::frame::{decode_text, encode_text, frame_len, frame_of, get_text, DecodeError};

verus! {

/// Longest user name or chat text, in UTF-8 bytes, that the room accepts, so
/// that every message it composes still fits a frame.
pub const MAX_TEXT_BYTES: usize = usize::MAX / 4;

/// Name given to a user until they pick one.
pub const DEFAULT_NAME: &'static str = "anonymous";

/// Appended to a user's name to announce that they joined.
pub const JOIN_NOTICE: &'static str = " joined the chat.";

/// Stands between the sender's name and the text of a chat message.
pub const NAME_SEPARATOR: &'static str = ": ";

/// Command code of a chat message.
pub const CMD_MESSAGE: &'static str = "MSG";

/// Command code of a rename.
pub const CMD_RENAME: &'static str = "REN";

/// Who a message comes from, which decides how it was rendered.
#[derive(Debug, Clone, Copy, PartialEq, Eq, Structural)]
pub enum MessageKind {
    ServerMessage,
    UserMessage,
}

/// A message waiting in the log, already rendered.
pub struct Message {
    pub kind: MessageKind,
    pub text: String,
}

/// A connected user: their connection's identity and their display name.
pub struct User {
    pub id: u64,
    pub name: String,
}

/// One frame to write to one user's connection.
pub struct Delivery {
    pub to: u64,
    pub frame: Vec<u8>,
}

/// A command of the text protocol spoken over an established connection.
pub enum Command {
    /// `MSG <text>`: broadcast a chat message.
    Post(String),
    /// `REN <name>`: change the sender's display name.
    Rename(String),
    /// Too short, or an unknown command code.
    Ignored,
}

/// Number of UTF-8 bytes of a text.
pub open spec fn byte_len(s: Seq<char>) -> nat {
    encode_utf8(s).len()
}

/// The room as plain values: users in order of joining, and the pending log.
pub struct RoomView {
    pub users: Seq<(u64, Seq<char>)>,
    pub log: Seq<(MessageKind, Seq<char>)>,
}

/// The registry and the message log, owned together so that no operation
/// ever has to coordinate two separately guarded resources.
pub struct ChatRoom {
    users: Vec<User>,
    log: Vec<Message>,
}

impl View for ChatRoom {
    type V = RoomView;

    closed spec fn view(&self) -> RoomView {
        RoomView {
            users: self.users@.map_values(|u: User| (u.id, u.name@)),
            log: self.log@.map_values(|m: Message| (m.kind, m.text@)),
        }
    }
}

/// The deliveries as pairs of recipient and frame bytes.
pub open spec fn deliveries_view(ds: Seq<Delivery>) -> Seq<(u64, Seq<u8>)> {
    ds.map_values(|d: Delivery| (d.to, d.frame@))
}

/// Position of the first user with `id` at `k` or after; `users.len()` when there is none.
pub open spec fn find_from(users: Seq<(u64, Seq<char>)>, id: u64, k: int) -> int
    decreases users.len() - k,
{
    if k >= users.len() {
        users.len() as int
    } else if users[k].0 == id {
        k
    } else {
        find_from(users, id, k + 1)
    }
}

/// Position of the user with `id`; `users.len()` when there is none.
pub open spec fn index_of(users: Seq<(u64, Seq<char>)>, id: u64) -> int {
    find_from(users, id, 0)
}

/// Whether a user with `id` is registered.
pub open spec fn has_user(users: Seq<(u64, Seq<char>)>, id: u64) -> bool {
    index_of(users, id) < users.len()
}

/// A well-formed room: identities unique, names and log texts short enough to frame.
pub open spec fn room_ok(v: RoomView) -> bool {
    &&& forall|i: int, j: int|
        0 <= i < j < v.users.len() ==> #[trigger] v.users[i].0 != #[trigger] v.users[j].0
    &&& forall|i: int| 0 <= i < v.users.len() ==> byte_len(#[trigger] v.users[i].1) <= MAX_TEXT_BYTES
    &&& forall|i: int| 0 <= i < v.log.len() ==> byte_len(#[trigger] v.log[i].1) <= 3 * MAX_TEXT_BYTES
}

/// One frame of `text` for every user, in registry order.
pub open spec fn broadcast_of(users: Seq<(u64, Seq<char>)>, text: Seq<char>) -> Seq<(u64, Seq<u8>)> {
    users.map_values(|u: (u64, Seq<char>)| (u.0, frame_of(encode_utf8(text))))
}

/// Every message of the log, oldest first, each to every user.
pub open spec fn fanout(users: Seq<(u64, Seq<char>)>, log: Seq<(MessageKind, Seq<char>)>) -> Seq<(u64, Seq<u8>)>
    decreases log.len(),
{
    if log.len() == 0 {
        seq![]
    } else {
        fanout(users, log.drop_last()) + broadcast_of(users, log.last().1)
    }
}

/// The room after a dispatch cycle, and what it delivered.
pub open spec fn dispatched(v: RoomView) -> (RoomView, Seq<(u64, Seq<u8>)>) {
    (RoomView { users: v.users, log: seq![] }, fanout(v.users, v.log))
}

/// Posting a server message: appended to the log as it is, then dispatched.
pub open spec fn server_posted(v: RoomView, text: Seq<char>) -> (RoomView, Seq<(u64, Seq<u8>)>) {
    dispatched(RoomView { users: v.users, log: v.log.push((MessageKind::ServerMessage, text)) })
}

/// The chat message a user posts: their current name, the separator, the text.
pub open spec fn chat_line(name: Seq<char>, text: Seq<char>) -> Seq<char> {
    name + NAME_SEPARATOR@ + text
}

/// Posting a user's message; nothing happens for an unknown user.
pub open spec fn user_posted(v: RoomView, id: u64, text: Seq<char>) -> (RoomView, Seq<(u64, Seq<u8>)>) {
    if has_user(v.users, id) {
        dispatched(
            RoomView {
                users: v.users,
                log: v.log.push(
                    (MessageKind::UserMessage, chat_line(v.users[index_of(v.users, id)].1, text)),
                ),
            },
        )
    } else {
        (v, seq![])
    }
}

/// The room after the user with `id` left.
pub open spec fn left(v: RoomView, id: u64) -> RoomView {
    if has_user(v.users, id) {
        RoomView { users: v.users.remove(index_of(v.users, id)), log: v.log }
    } else {
        v
    }
}

/// The room after the user with `id` took the name `name`.
pub open spec fn renamed(v: RoomView, id: u64, name: Seq<char>) -> RoomView {
    if has_user(v.users, id) {
        RoomView { users: v.users.update(index_of(v.users, id), (id, name)), log: v.log }
    } else {
        v
    }
}


/// The command that a decoded request stands for: a three-character code, one
/// separator character, then the argument.
pub open spec fn command_matches(c: Command, req: Seq<char>) -> bool {
    if req.len() >= 4 && req.subrange(0, 3) == CMD_MESSAGE@ {
        c matches Command::Post(t) && t@ == req.subrange(4, req.len() as int)
    } else if req.len() >= 4 && req.subrange(0, 3) == CMD_RENAME@ {
        c matches Command::Rename(t) && t@ == req.subrange(4, req.len() as int)
    } else {
        c is Ignored
    }
}

/// What a decoded request does to the room of its sender `id`, and what it delivers.
pub open spec fn text_applied(v: RoomView, id: u64, req: Seq<char>) -> (RoomView, Seq<(u64, Seq<u8>)>) {
    if req.len() >= 4 && req.subrange(0, 3) == CMD_MESSAGE@ {
        user_posted(v, id, req.subrange(4, req.len() as int))
    } else if req.len() >= 4 && req.subrange(0, 3) == CMD_RENAME@ {
        (renamed(v, id, req.subrange(4, req.len() as int)), seq![])
    } else {
        (v, seq![])
    }
}

/// The room after a user joined: registered last, and their arrival announced.
pub open spec fn joined(v: RoomView, id: u64, name: Seq<char>) -> (RoomView, Seq<(u64, Seq<u8>)>) {
    server_posted(RoomView { users: v.users.push((id, name)), log: v.log }, name + JOIN_NOTICE@)
}

/// The UTF-8 bytes of two texts put together are the bytes of each, in turn.
pub proof fn lemma_byte_len_concat(a: Seq<char>, b: Seq<char>)
    ensures
        encode_utf8(a + b) == encode_utf8(a) + encode_utf8(b),
        byte_len(a + b) == byte_len(a) + byte_len(b),
    decreases a.len(),
{
    if a.len() == 0 {
        assert(a + b =~= b);
        assert(encode_utf8(a) + encode_utf8(b) =~= encode_utf8(b));
    } else {
        assert((a + b).drop_first() =~= a.drop_first() + b);
        lemma_byte_len_concat(a.drop_first(), b);
        assert(encode_utf8(a + b) =~= encode_utf8(a) + encode_utf8(b));
    }
}

/// The separator and the join notice are ASCII, one byte per character.
proof fn lemma_literal_lengths()
    ensures
        byte_len(NAME_SEPARATOR@) == 2,
        byte_len(JOIN_NOTICE@) == 17,
{
    broadcast use vstd::utf8::is_ascii_chars_encode_utf8;

    reveal_strlit(": ");
    reveal_strlit(" joined the chat.");
    assert(is_ascii_chars(NAME_SEPARATOR@));
    assert(is_ascii_chars(JOIN_NOTICE@));
}

/// A decoded payload is no longer than the frame that carried it.
proof fn lemma_text_within_frame(b: Seq<u8>)
    ensures
        decode_text(b) matches Ok(t) ==> byte_len(t) <= b.len(),
{
    broadcast use vstd::utf8::decode_utf8_encode_utf8;

}

/// The argument of a request is no longer, in bytes, than the request.
proof fn lemma_argument_within(req: Seq<char>)
    requires
        req.len() >= 4,
    ensures
        byte_len(req.subrange(4, req.len() as int)) <= byte_len(req),
{
    lemma_byte_len_concat(req.subrange(0, 4), req.subrange(4, req.len() as int));
    assert(req.subrange(0, 4) + req.subrange(4, req.len() as int) =~= req);
}

/// Whether two texts are the same.
fn same_text(a: &str, b: &str) -> (r: bool)
    ensures
        r == (a@ == b@),
{
    let x = a.as_bytes();
    let y = b.as_bytes();
    proof {
        vstd::utf8::encode_utf8_decode_utf8(a@);
        vstd::utf8::encode_utf8_decode_utf8(b@);
        assert(x@ == encode_utf8(a@));
        assert(y@ == encode_utf8(b@));
    }
    crate::handshake::same_bytes(x, y)
}

/// Reads a decoded request as a command of the text protocol.
pub fn parse_command(req: &str) -> (r: Command)
    ensures
        command_matches(r, req@),
{
    let n = req.unicode_len();
    if n < 4 {
        return Command::Ignored;
    }
    let code = req.substring_char(0, 3);
    let arg = req.substring_char(4, n);
    if same_text(code, CMD_MESSAGE) {
        Command::Post(String::from_str(arg))
    } else if same_text(code, CMD_RENAME) {
        Command::Rename(String::from_str(arg))
    } else {
        Command::Ignored
    }
}

/// No user before `find_from`'s answer has the identity searched for.
proof fn lemma_find_absent(users: Seq<(u64, Seq<char>)>, id: u64, k: int, i: int)
    requires
        0 <= k <= i < find_from(users, id, k),
        i < users.len(),
    ensures
        users[i].0 != id,
    decreases users.len() - k,
{
    if k < i {
        lemma_find_absent(users, id, k + 1, i);
    }
}

/// The user found by `find_from` has the identity searched for.
proof fn lemma_find_found(users: Seq<(u64, Seq<char>)>, id: u64, k: int)
    requires
        0 <= k,
    ensures
        find_from(users, id, k) < users.len() ==> users[find_from(users, id, k)].0 == id,
        k <= users.len() ==> k <= find_from(users, id, k) <= users.len(),
    decreases users.len() - k,
{
    if k < users.len() && users[k].0 != id {
        lemma_find_found(users, id, k + 1);
    }
}

/// A frame of a log text fits in memory.
proof fn lemma_log_frame_fits(n: nat)
    requires
        n <= 3 * MAX_TEXT_BYTES,
    ensures
        frame_len(n) <= usize::MAX,
{
}

impl ChatRoom {
    /// An empty room: no users, nothing pending.
    pub fn new() -> (r: ChatRoom)
        ensures
            r@.users.len() == 0,
            r@.log.len() == 0,
            room_ok(r@),
    {
        ChatRoom { users: Vec::new(), log: Vec::new() }
    }

    /// Position of the user with `id`, or the number of users when there is none.
    fn find(&self, id: u64) -> (r: usize)
        ensures
            r == index_of(self@.users, id),
            r <= self@.users.len(),
    {
        let mut k: usize = 0;
        while k < self.users.len()
            invariant
                k <= self.users@.len(),
                find_from(self@.users, id, k as int) == index_of(self@.users, id),
            decreases self.users@.len() - k,
        {
            if self.users[k].id == id {
                return k;
            }
            k += 1;
        }
        k
    }

    /// Whether a user with `id` is registered.
    pub fn contains(&self, id: u64) -> (r: bool)
        ensures
            r == has_user(self@.users, id),
    {
        self.find(id) < self.users.len()
    }

    /// The display name of the user with `id`, if registered.
    pub fn name_of(&self, id: u64) -> (r: Option<String>)
        ensures
            match r {
                Some(n) => has_user(self@.users, id) && n@ == self@.users[index_of(self@.users, id)].1,
                None => !has_user(self@.users, id),
            },
    {
        let k = self.find(id);
        if k < self.users.len() {
            Some(self.users[k].name.clone())
        } else {
            None
        }
    }

    /// Appends a server message to the log as it is, then dispatches.
    pub fn post_server_message(&mut self, text: &str) -> (r: Vec<Delivery>)
        requires
            room_ok(old(self)@),
            byte_len(text@) <= 3 * MAX_TEXT_BYTES,
        ensures
            room_ok(final(self)@),
            (final(self)@, deliveries_view(r@)) == server_posted(old(self)@, text@),
    {
        self.log.push(Message { kind: MessageKind::ServerMessage, text: String::from_str(text) });
        assert(self@.log =~= old(self)@.log.push((MessageKind::ServerMessage, text@)));
        assert(self@.users =~= old(self)@.users);
        self.dispatch_messages()
    }

    /// Appends `"<name>: <text>"` to the log, with the current name of the
    /// user `id`, then dispatches; does nothing for an unknown user.
    pub fn post_user_message(&mut self, id: u64, text: &str) -> (r: Vec<Delivery>)
        requires
            room_ok(old(self)@),
            byte_len(text@) <= MAX_TEXT_BYTES,
        ensures
            room_ok(final(self)@),
            (final(self)@, deliveries_view(r@)) == user_posted(old(self)@, id, text@),
    {
        let k = self.find(id);
        if k >= self.users.len() {
            return Vec::new();
        }
        let name = self.users[k].name.clone();
        let line = name.concat(NAME_SEPARATOR).concat(text);
        proof {
            let nm = self@.users[k as int].1;
            assert(name@ == nm);
            lemma_literal_lengths();
            lemma_byte_len_concat(nm, NAME_SEPARATOR@);
            lemma_byte_len_concat(nm + NAME_SEPARATOR@, text@);
            assert(line@ == chat_line(nm, text@));
        }
        self.log.push(Message { kind: MessageKind::UserMessage, text: line });
        assert(self@.log =~= old(self)@.log.push((MessageKind::UserMessage, line@)));
        assert(self@.users =~= old(self)@.users);
        self.dispatch_messages()
    }

    /// Registers the user `id` under `name` and announces the arrival to
    /// everyone, the newcomer included. Refused (`None`, nothing changed)
    /// when `id` is already registered.
    pub fn user_join(&mut self, id: u64, name: &str) -> (r: Option<Vec<Delivery>>)
        requires
            room_ok(old(self)@),
            byte_len(name@) <= MAX_TEXT_BYTES,
        ensures
            room_ok(final(self)@),
            has_user(old(self)@.users, id) ==> r is None && final(self)@ == old(self)@,
            !has_user(old(self)@.users, id) ==> (r matches Some(ds) && (final(self)@,
                deliveries_view(ds@)) == joined(old(self)@, id, name@)),
    {
        if self.contains(id) {
            return None;
        }
        let ghost v = self@;
        self.users.push(User { id, name: String::from_str(name) });
        proof {
            assert(self@.users =~= v.users.push((id, name@)));
            assert(self@.log =~= v.log);
            assert forall|i: int| 0 <= i < v.users.len() implies v.users[i].0 != id by {
                lemma_find_absent(v.users, id, 0, i);
            }
        }
        let notice = String::from_str(name).concat(JOIN_NOTICE);
        proof {
            lemma_literal_lengths();
            lemma_byte_len_concat(name@, JOIN_NOTICE@);
        }
        Some(self.post_server_message(notice.as_str()))
    }

    /// Removes the user `id`; nothing changes when there is none.
    pub fn user_leave(&mut self, id: u64)
        requires
            room_ok(old(self)@),
        ensures
            room_ok(final(self)@),
            final(self)@ == left(old(self)@, id),
    {
        let k = self.find(id);
        if k < self.users.len() {
            let ghost v = self@;
            let _gone = self.users.remove(k);
            assert(self@.users =~= v.users.remove(k as int));
            assert(self@.log =~= v.log);
        }
    }

    /// Gives the user `id` the display name `name`; nothing changes when
    /// there is no such user. No notice is sent.
    pub fn user_rename(&mut self, id: u64, name: &str)
        requires
            room_ok(old(self)@),
            byte_len(name@) <= MAX_TEXT_BYTES,
        ensures
            room_ok(final(self)@),
            final(self)@ == renamed(old(self)@, id, name@),
    {
        let k = self.find(id);
        if k < self.users.len() {
            let ghost v = self@;
            proof {
                lemma_find_found(v.users, id, 0);
            }
            self.users.set(k, User { id, name: String::from_str(name) });
            assert(self@.users =~= v.users.update(k as int, (id, name@)));
            assert(self@.log =~= v.log);
        }
    }

    /// One step of an established connection of the user `id`, given the
    /// bytes of one read. An empty read means the peer went away: the user
    /// leaves and the result is `None`. Otherwise the bytes are decoded as a
    /// text frame and obeyed as a command; a frame that does not decode, a
    /// request shorter than four characters and an unknown command change
    /// nothing and deliver nothing.
    pub fn receive(&mut self, id: u64, data: &[u8]) -> (r: Option<Vec<Delivery>>)
        requires
            room_ok(old(self)@),
            data@.len() <= MAX_TEXT_BYTES,
        ensures
            room_ok(final(self)@),
            data@.len() == 0 ==> r is None && final(self)@ == left(old(self)@, id),
            data@.len() > 0 ==> (r matches Some(ds) && match decode_text(data@) {
                Ok(req) => (final(self)@, deliveries_view(ds@)) == text_applied(old(self)@, id, req),
                Err(_) => final(self)@ == old(self)@ && ds@.len() == 0,
            }),
    {
        if data.len() == 0 {
            self.user_leave(id);
            return None;
        }
        let req = match get_text(data) {
            Ok(req) => req,
            Err(_) => {
                return Some(Vec::new());
            },
        };
        proof {
            lemma_text_within_frame(data@);
            if req@.len() >= 4 {
                lemma_argument_within(req@);
            }
        }
        match parse_command(req.as_str()) {
            Command::Post(text) => Some(self.post_user_message(id, text.as_str())),
            Command::Rename(name) => {
                self.user_rename(id, name.as_str());
                Some(Vec::new())
            },
            Command::Ignored => Some(Vec::new()),
        }
    }

    /// Delivers every pending message, oldest first, to every registered
    /// user in registry order, and empties the log.
    pub fn dispatch_messages(&mut self) -> (r: Vec<Delivery>)
        requires
            room_ok(old(self)@),
        ensures
            room_ok(final(self)@),
            (final(self)@, deliveries_view(r@)) == dispatched(old(self)@),
    {
        let mut out: Vec<Delivery> = Vec::new();
        let ghost users = self@.users;
        let ghost log = self@.log;
        let mut i: usize = 0;
        while i < self.log.len()
            invariant
                self@ == old(self)@,
                users == self@.users,
                log == self@.log,
                room_ok(self@),
                i <= log.len(),
                deliveries_view(out@) == fanout(users, log.take(i as int)),
            decreases log.len() - i,
        {
            let text = self.log[i].text.as_str();
            assert(text@ == log[i as int].1);
            proof {
                lemma_log_frame_fits(byte_len(text@));
            }
            let frame = encode_text(text);
            let ghost before = deliveries_view(out@);
            let mut j: usize = 0;
            while j < self.users.len()
                invariant
                    self@ == old(self)@,
                    users == self@.users,
                    j <= users.len(),
                    i < log.len(),
                    frame@ == frame_of(encode_utf8(log[i as int].1)),
                    deliveries_view(out@) == before + broadcast_of(users, log[i as int].1).take(j as int),
                decreases users.len() - j,
            {
                let to = self.users[j].id;
                assert(to == users[j as int].0);
                let copy = frame.clone();
                assert(copy@ =~= frame@);
                let ghost prev = out@;
                out.push(Delivery { to, frame: copy });
                assert(deliveries_view(out@) =~= deliveries_view(prev).push((to, frame@)));
                j += 1;
                assert(deliveries_view(out@) =~= before + broadcast_of(users, log[i as int].1).take(j as int));
            }
            assert(broadcast_of(users, log[i as int].1).take(j as int) =~= broadcast_of(users, log[i as int].1));
            assert(log.take(i + 1).drop_last() =~= log.take(i as int));
            i += 1;
        }
        assert(log.take(i as int) =~= log);
        self.log = Vec::new();
        assert(self@.log =~= seq![]);
        out
    }
}


/// `index_of` finds `k` when `k` is the first position holding `id`.
proof fn lemma_index_is(users: Seq<(u64, Seq<char>)>, id: u64, from: int, k: int)
    requires
        0 <= from <= k < users.len(),
        users[k].0 == id,
        forall|i: int| from <= i < k ==> #[trigger] users[i].0 != id,
    ensures
        find_from(users, id, from) == k,
    decreases k - from,
{
    if from < k {
        lemma_index_is(users, id, from + 1, k);
    }
}

/// Where no user holds `id`, `find_from` finds nothing.
proof fn lemma_index_none(users: Seq<(u64, Seq<char>)>, id: u64, from: int)
    requires
        0 <= from <= users.len(),
        forall|i: int| 0 <= i < users.len() ==> #[trigger] users[i].0 != id,
    ensures
        find_from(users, id, from) == users.len(),
    decreases users.len() - from,
{
    if from < users.len() {
        lemma_index_none(users, id, from + 1);
    }
}

/// Where no user holds `id`, nothing is delivered to `id`.
proof fn lemma_fanout_avoids(users: Seq<(u64, Seq<char>)>, log: Seq<(MessageKind, Seq<char>)>, id: u64)
    requires
        forall|i: int| 0 <= i < users.len() ==> #[trigger] users[i].0 != id,
    ensures
        forall|k: int| 0 <= k < fanout(users, log).len() ==> #[trigger] fanout(users, log)[k].0 != id,
    decreases log.len(),
{
    if log.len() > 0 {
        lemma_fanout_avoids(users, log.drop_last(), id);
        let a = fanout(users, log.drop_last());
        let b = broadcast_of(users, log.last().1);
        assert forall|k: int| 0 <= k < (a + b).len() implies #[trigger] (a + b)[k].0 != id by {
            if k >= a.len() {
                assert(b[k - a.len()].0 == users[k - a.len()].0);
            }
        }
    }
}

/// What a request `"<code> <arg>"` stands for.
proof fn lemma_request_parts(code: Seq<char>, arg: Seq<char>)
    requires
        code.len() == 3,
    ensures
        (code + seq![' '] + arg).len() >= 4,
        (code + seq![' '] + arg).subrange(0, 3) == code,
        (code + seq![' '] + arg).subrange(4, (code + seq![' '] + arg).len() as int) == arg,
{
    let req = code + seq![' '] + arg;
    assert(req.subrange(0, 3) =~= code);
    assert(req.subrange(4, req.len() as int) =~= arg);
}

/// When a registered user sends `MSG <text>`, the line `"<name>: <text>"`,
/// with the sender's current name, goes out after whatever was pending: one
/// frame of it to every registered user, the sender included, each exactly
/// once and in registry order; and each such frame decodes to that line.
pub proof fn lemma_message_reaches_everyone(v: RoomView, id: u64, text: Seq<char>)
    requires
        room_ok(v),
        has_user(v.users, id),
        byte_len(text) <= MAX_TEXT_BYTES,
    ensures
        ({
            let line = chat_line(v.users[index_of(v.users, id)].1, text);
            let out = text_applied(v, id, CMD_MESSAGE@ + seq![' '] + text).1;
            let before = fanout(v.users, v.log);
            &&& out == before + broadcast_of(v.users, line)
            &&& out.len() == before.len() + v.users.len()
            &&& forall|j: int|
                0 <= j < v.users.len() ==> #[trigger] out[before.len() + j] == (
                    v.users[j].0,
                    frame_of(encode_utf8(line)),
                )
            &&& forall|j1: int, j2: int|
                0 <= j1 < j2 < v.users.len() ==> #[trigger] out[before.len() + j1].0 != #[trigger] out[before.len() + j2].0
            &&& decode_text(frame_of(encode_utf8(line))) == Ok::<Seq<char>, DecodeError>(line)
            &&& v.log.len() == 0 ==> out == broadcast_of(v.users, line)
        }),
{
    reveal_strlit("MSG");
    lemma_request_parts(CMD_MESSAGE@, text);
    let name = v.users[index_of(v.users, id)].1;
    let line = chat_line(name, text);
    lemma_find_found(v.users, id, 0);
    assert(byte_len(name) <= MAX_TEXT_BYTES);
    let log2 = v.log.push((MessageKind::UserMessage, line));
    assert(log2.drop_last() =~= v.log);
    lemma_literal_lengths();
    lemma_byte_len_concat(name, NAME_SEPARATOR@);
    lemma_byte_len_concat(name + NAME_SEPARATOR@, text);
    crate::frame::lemma_text_round_trip(line);
    if v.log.len() == 0 {
        assert(fanout(v.users, v.log) =~= seq![]);
        assert(seq![] + broadcast_of(v.users, line) =~= broadcast_of(v.users, line));
    }
}

/// After a registered user sends `REN <name>` and then `MSG <text>`, the
/// line broadcast is `"<name>: <text>"`.
pub proof fn lemma_rename_then_message(v: RoomView, id: u64, name: Seq<char>, text: Seq<char>)
    requires
        room_ok(v),
        has_user(v.users, id),
    ensures
        ({
            let v1 = text_applied(v, id, CMD_RENAME@ + seq![' '] + name).0;
            let out = text_applied(v1, id, CMD_MESSAGE@ + seq![' '] + text).1;
            out == fanout(v1.users, v.log) + broadcast_of(v1.users, chat_line(name, text))
        }),
{
    reveal_strlit("MSG");
    reveal_strlit("REN");
    lemma_request_parts(CMD_RENAME@, name);
    lemma_request_parts(CMD_MESSAGE@, text);
    assert(CMD_RENAME@[0] != CMD_MESSAGE@[0]);
    assert(CMD_RENAME@ != CMD_MESSAGE@);
    let k = index_of(v.users, id);
    lemma_find_found(v.users, id, 0);
    let v1 = renamed(v, id, name);
    assert forall|i: int| 0 <= i < k implies #[trigger] v1.users[i].0 != id by {
        lemma_find_absent(v.users, id, 0, i);
    }
    lemma_index_is(v1.users, id, 0, k);
    assert(v1.users[k].1 == name);
    let log2 = v.log.push((MessageKind::UserMessage, chat_line(name, text)));
    assert(log2.drop_last() =~= v.log);
}

/// Once a user has left, as on a read of zero bytes, they are no longer
/// registered, and no later dispatch delivers anything to them, whatever
/// the log holds.
pub proof fn lemma_left_user_gets_nothing(v: RoomView, id: u64, log: Seq<(MessageKind, Seq<char>)>)
    requires
        room_ok(v),
    ensures
        !has_user(left(v, id).users, id),
        forall|k: int|
            0 <= k < fanout(left(v, id).users, log).len() ==> #[trigger] fanout(
                left(v, id).users,
                log,
            )[k].0 != id,
{
    let users = left(v, id).users;
    if has_user(v.users, id) {
        let k = index_of(v.users, id);
        lemma_find_found(v.users, id, 0);
        assert forall|i: int| 0 <= i < users.len() implies #[trigger] users[i].0 != id by {
            if i < k {
                assert(users[i] == v.users[i]);
            } else {
                assert(users[i] == v.users[i + 1]);
            }
        }
    } else {
        assert forall|i: int| 0 <= i < users.len() implies #[trigger] users[i].0 != id by {
            if users[i].0 == id {
                lemma_find_absent(v.users, id, 0, i);
            }
        }
    }
    lemma_index_none(users, id, 0);
    lemma_fanout_avoids(users, log, id);
}

} // verus!
