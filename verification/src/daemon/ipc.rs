//! The daemon's wire protocol.
//!
//! A deliberately tiny line protocol over a Unix socket: the client writes one
//! command word and reads one status line. This is all i3 needs
//! (`bindsym $mod+a exec mole click`) and keeps the daemon dependency-free.

use vstd::prelude::*;

use crate::config::{ascii, ascii_of, bytes_of, extend, join, slashed};
use crate::error::{debug_text, joined, quoted, Error, Result};
use crate::session::Mode;
use crate::text::{
    begins, blank, decimal, decimal_text, same_text, starts_with, trim, trimmed, without_lead,
    without_tail,
};
use crate::x11::pointer::Button;

verus! {

/// A command the client can send the daemon.
#[derive(Debug, Clone, Copy, PartialEq, Eq, Structural)]
pub enum Command {
    /// Show hints and teleport the pointer to the chosen one.
    Hint(Mode),
    /// Free hjkl pointer movement.
    FreeMove,
    /// Re-read the config file now.
    Reload,
    /// Liveness check.
    Ping,
}

/// The command that a word stands for.
pub open spec fn command_of(word: Seq<char>) -> Option<Command> {
    if word == "teleport"@ || word == "hint"@ {
        Some(Command::Hint(Mode::Teleport))
    } else if word == "click"@ {
        Some(Command::Hint(Mode::Click { button: Button::Left, count: 1 }))
    } else if word == "double-click"@ {
        Some(Command::Hint(Mode::Click { button: Button::Left, count: 2 }))
    } else if word == "right-click"@ {
        Some(Command::Hint(Mode::Click { button: Button::Right, count: 1 }))
    } else if word == "drag"@ {
        Some(Command::Hint(Mode::Drag { button: Button::Left }))
    } else if word == "move"@ {
        Some(Command::FreeMove)
    } else if word == "reload"@ {
        Some(Command::Reload)
    } else if word == "ping"@ {
        Some(Command::Ping)
    } else {
        None
    }
}

/// The word that is sent for a command.
pub open spec fn word_of(c: Command) -> Seq<char> {
    match c {
        Command::Hint(Mode::Teleport) => "teleport"@,
        Command::Hint(Mode::Click { button, count }) => if button is Left && count == 2 {
            "double-click"@
        } else if button is Right {
            "right-click"@
        } else {
            "click"@
        },
        Command::Hint(Mode::Drag { button: _ }) => "drag"@,
        Command::FreeMove => "move"@,
        Command::Reload => "reload"@,
        Command::Ping => "ping"@,
    }
}

impl Command {
    /// Parse the wire word into a command.
    pub fn parse(word: &str) -> (r: Result<Command>)
        ensures
            match r {
                Ok(c) => command_of(trimmed(word@)) == Some(c),
                Err(e) => command_of(trimmed(word@)) is None && e is Ipc && e->Ipc_0@
                    == "unknown command "@ + debug_text(trimmed(word@)),
            },
    {
        let bare = trim(word);
        let w = bare.as_str();
        if same_text(w, "teleport") || same_text(w, "hint") {
            Ok(Command::Hint(Mode::Teleport))
        } else if same_text(w, "click") {
            Ok(Command::Hint(Mode::Click { button: Button::Left, count: 1 }))
        } else if same_text(w, "double-click") {
            Ok(Command::Hint(Mode::Click { button: Button::Left, count: 2 }))
        } else if same_text(w, "right-click") {
            Ok(Command::Hint(Mode::Click { button: Button::Right, count: 1 }))
        } else if same_text(w, "drag") {
            Ok(Command::Hint(Mode::Drag { button: Button::Left }))
        } else if same_text(w, "move") {
            Ok(Command::FreeMove)
        } else if same_text(w, "reload") {
            Ok(Command::Reload)
        } else if same_text(w, "ping") {
            Ok(Command::Ping)
        } else {
            Err(unknown_command(quoted(w).as_str()))
        }
    }

    /// The wire word for this command (inverse of [`Command::parse`]).
    pub fn as_word(&self) -> (w: &'static str)
        ensures
            w@ == word_of(*self),
    {
        match self {
            Command::Hint(Mode::Teleport) => "teleport",
            Command::Hint(Mode::Click { button, count }) => match (*button, *count) {
                (Button::Left, 2) => "double-click",
                (Button::Right, _) => "right-click",
                _ => "click",
            },
            Command::Hint(Mode::Drag { button: _ }) => "drag",
            Command::FreeMove => "move",
            Command::Reload => "reload",
            Command::Ping => "ping",
        }
    }
}

/// The error of a word, shown as `word`, that stands for no command.
pub fn unknown_command(word: &str) -> (r: Error)
    ensures
        r is Ipc,
        r->Ipc_0@ == "unknown command "@ + word@,
{
    Error::Ipc(joined("unknown command ", word))
}

/// Where the socket is: the configured path, else below the runtime directory,
/// else a per-user path in `/tmp`.
pub open spec fn socket_at(configured: Option<Seq<u8>>, runtime: Option<Seq<u8>>, uid: nat) -> Seq<u8> {
    match configured {
        Some(path) => path,
        None => match runtime {
            Some(dir) => slashed(dir, ascii_of("mouseless.sock"@)),
            None => ascii_of("/tmp/mouseless-"@) + ascii_of(decimal(uid)) + ascii_of(".sock"@),
        },
    }
}

/// Resolve the socket path: explicit config, else `$XDG_RUNTIME_DIR`, else
/// a per-user path in `/tmp`. `runtime` is the value of `$XDG_RUNTIME_DIR`.
pub fn socket_path(configured: &Option<Vec<u8>>, runtime: Option<Vec<u8>>, uid: u32) -> (r: Vec<u8>)
    ensures
        r@ == socket_at(bytes_of(*configured), bytes_of(runtime), uid as nat),
{
    let mut r: Vec<u8> = Vec::new();
    if let Some(path) = configured {
        extend(&mut r, path);
        assert(r@ == path@);
        return r;
    }
    if let Some(dir) = runtime {
        return join(&dir, &ascii("mouseless.sock"));
    }
    extend(&mut r, &ascii("/tmp/mouseless-"));
    extend(&mut r, &ascii(decimal_text(uid as u64).as_str()));
    extend(&mut r, &ascii(".sock"));
    assert(r@ == ascii_of("/tmp/mouseless-"@) + ascii_of(decimal(uid as nat)) + ascii_of(".sock"@));
    r
}

/// The daemon's status line for a command that went like `result`.
pub fn response(result: &Result<()>) -> (r: String)
    ensures
        r@ == match *result {
            Ok(_) => "ok"@,
            Err(e) => "err: "@ + e.shown(),
        },
{
    match result {
        Ok(_) => String::from_str("ok"),
        Err(e) => joined("err: ", e.message().as_str()),
    }
}

/// What the client makes of the daemon's status line: the line without its end,
/// as a success, or as an error if it reports one.
pub fn read_response(line: &str) -> (r: Result<String>)
    ensures
        match r {
            Ok(s) => s@ == without_tail(line@) && !begins(without_tail(line@), "err:"@),
            Err(e) => e is Ipc && e->Ipc_0@ == without_tail(line@) && begins(
                without_tail(line@),
                "err:"@,
            ),
        },
{
    let s = crate::text::trim_end(line);
    if starts_with(s.as_str(), "err:") {
        Err(Error::Ipc(s))
    } else {
        Ok(s)
    }
}

/// The client's error when the daemon cannot be reached at the socket shown as
/// `path`, because of `e`.
pub fn connect_error(path: &str, e: &str) -> (r: Error)
    ensures
        r is Ipc,
        r->Ipc_0@ == "could not connect to daemon at "@ + path@ + " ("@ + e@
            + "); is `mouseless daemon` running?"@,
{
    let mut m = joined("could not connect to daemon at ", path);
    m.append(" (");
    m.append(e);
    m.append("); is `mouseless daemon` running?");
    Error::Ipc(m)
}

// --- Laws -----------------------------------------------------------------

/// What the client sends for a command, the word and the end of the line, is
/// parsed back to that command, for every command that a word can say.
pub proof fn law_command_words_roundtrip(c: Command)
    requires
        exists|w: Seq<char>| command_of(w) == Some(c),
    ensures
        command_of(trimmed(word_of(c))) == Some(c),
        command_of(trimmed(word_of(c).push('\n'))) == Some(c),
{
    lemma_words_differ();
    let w = choose|w: Seq<char>| command_of(w) == Some(c);
    assert(command_of(w) == Some(c));
    assert(command_of(word_of(c)) == Some(c));
    reveal_strlit("teleport");
    reveal_strlit("click");
    reveal_strlit("double-click");
    reveal_strlit("right-click");
    reveal_strlit("drag");
    reveal_strlit("move");
    reveal_strlit("reload");
    reveal_strlit("ping");
    let word = word_of(c);
    assert(word.len() > 0 && !blank(word[0]) && !blank(word.last()));
    let line = word.push('\n');
    assert(without_lead(word) == word && without_tail(word) == word);
    assert(line[0] == word[0]);
    assert(without_lead(line) == line);
    assert(blank('\n'));
    assert(line.last() == '\n' && line.drop_last() == word);
    assert(without_tail(line) == without_tail(word));
}

/// No two command words are equal.
proof fn lemma_words_differ()
    ensures
        "click"@ != "teleport"@,
        "click"@ != "hint"@,
        "double-click"@ != "teleport"@,
        "double-click"@ != "hint"@,
        "double-click"@ != "click"@,
        "right-click"@ != "teleport"@,
        "right-click"@ != "hint"@,
        "right-click"@ != "click"@,
        "right-click"@ != "double-click"@,
        "drag"@ != "teleport"@,
        "drag"@ != "hint"@,
        "drag"@ != "click"@,
        "drag"@ != "double-click"@,
        "drag"@ != "right-click"@,
        "move"@ != "teleport"@,
        "move"@ != "hint"@,
        "move"@ != "click"@,
        "move"@ != "double-click"@,
        "move"@ != "right-click"@,
        "move"@ != "drag"@,
        "reload"@ != "teleport"@,
        "reload"@ != "hint"@,
        "reload"@ != "click"@,
        "reload"@ != "double-click"@,
        "reload"@ != "right-click"@,
        "reload"@ != "drag"@,
        "reload"@ != "move"@,
        "ping"@ != "teleport"@,
        "ping"@ != "hint"@,
        "ping"@ != "click"@,
        "ping"@ != "double-click"@,
        "ping"@ != "right-click"@,
        "ping"@ != "drag"@,
        "ping"@ != "move"@,
        "ping"@ != "reload"@,
{
    reveal_strlit("teleport");
    reveal_strlit("hint");
    reveal_strlit("click");
    reveal_strlit("double-click");
    reveal_strlit("right-click");
    reveal_strlit("drag");
    reveal_strlit("move");
    reveal_strlit("reload");
    reveal_strlit("ping");
    assert("teleport"@[0] == 't' && "hint"@[0] == 'h' && "click"@[0] == 'c' && "double-click"@[0]
        == 'd' && "right-click"@[0] == 'r' && "drag"@[0] == 'd' && "move"@[0] == 'm'
        && "reload"@[0] == 'r' && "ping"@[0] == 'p');
    assert("double-click"@.len() == 12 && "drag"@.len() == 4);
    assert("right-click"@.len() == 11 && "reload"@.len() == 6);
}

/// Every command has exactly one word (a teleport has two), and says what it does:
/// whatever the word, it stands for a click with the left or right button, or a
/// double one, exactly if it is called so, and likewise for the others; a word that
/// is none of these stands for nothing.
pub proof fn law_words_mean_what_they_say(word: Seq<char>, button: Button, count: u32)
    ensures
        command_of(word) == Some(Command::Hint(Mode::Teleport)) <==> word == "teleport"@ || word
            == "hint"@,
        command_of(word) == Some(Command::Hint(Mode::Click { button, count })) <==> ((button is Left
            && count == 1 && word == "click"@) || (button is Left && count == 2 && word
            == "double-click"@) || (button is Right && count == 1 && word == "right-click"@)),
        command_of(word) == Some(Command::Hint(Mode::Drag { button })) <==> button is Left && word
            == "drag"@,
        command_of(word) == Some(Command::FreeMove) <==> word == "move"@,
        command_of(word) == Some(Command::Reload) <==> word == "reload"@,
        command_of(word) == Some(Command::Ping) <==> word == "ping"@,
{
    lemma_words_differ();
}

/// A configured socket path is used as it is; without one, the socket lies in the
/// runtime directory; and without that, in a file of `/tmp` that the user's number
/// tells from everybody else's.
pub proof fn law_the_socket_is_where_it_is_told(
    path: Seq<u8>,
    dir: Seq<u8>,
    runtime: Option<Seq<u8>>,
    uid: nat,
    other: nat,
)
    ensures
        socket_at(Some(path), runtime, uid) == path,
        socket_at(None, Some(dir), uid) == slashed(dir, ascii_of("mouseless.sock"@)),
        uid <= u32::MAX && other <= u32::MAX && uid != other ==> socket_at(None, None, uid)
            != socket_at(None, None, other),
        socket_at(None, None, uid) == ascii_of("/tmp/mouseless-"@) + ascii_of(decimal(uid))
            + ascii_of(".sock"@),
{
    if uid != other && socket_at(None, None, uid) == socket_at(None, None, other) {
        let head = ascii_of("/tmp/mouseless-"@);
        let tail = ascii_of(".sock"@);
        let a = ascii_of(decimal(uid));
        let b = ascii_of(decimal(other));
        let one = head + a + tail;
        let two = head + b + tail;
        assert(one == two);
        assert(one.len() == head.len() + a.len() + tail.len());
        assert(two.len() == head.len() + b.len() + tail.len());
        assert(a.len() == b.len());
        let n = decimal(uid);
        let m = decimal(other);
        lemma_decimal_is_ascii(uid);
        lemma_decimal_is_ascii(other);
        assert forall|i: int| 0 <= i < n.len() implies n[i] == m[i] by {
            assert(one[head.len() + i] == a[i]);
            assert(two[head.len() + i] == b[i]);
            assert(a[i] == n[i] as u8 && b[i] == m[i] as u8);
        }
        assert(n == m);
        crate::text::law_numbers_are_read_back(uid);
        crate::text::law_numbers_are_read_back(other);
    }
}

proof fn lemma_decimal_is_ascii(n: nat)
    ensures
        forall|i: int| 0 <= i < decimal(n).len() ==> '0' <= #[trigger] decimal(n)[i] && decimal(n)[i]
            <= '9',
{
    crate::text::law_numbers_are_read_back(n);
    crate::text::law_only_digits_write_a_number(decimal(n));
}

} // verus!
