//! The command that opens an SSH session in a terminal.

use vstd::prelude::*;
use crate::servers::{Server, ServerView};
use crate::text;

verus! {

/// A command to run in a terminal: its arguments, the program first, and the
/// variables to add to its environment.
#[derive(Debug, PartialEq)]
pub struct SshCommand {
    pub argv: Vec<String>,
    pub env: Vec<String>,
}

/// Where the session goes: `user@host`.
pub open spec fn target(s: ServerView) -> Seq<char> {
    s.user + "@"@ + s.host
}

/// The arguments: with a password through `sshpass -e`, which takes it from
/// the environment; with a key file through `-i`.
pub open spec fn arguments(s: ServerView) -> Seq<Seq<char>> {
    let password: Seq<Seq<char>> = if s.password.len() > 0 {
        seq!["sshpass"@, "-e"@]
    } else {
        seq![]
    };
    let key: Seq<Seq<char>> = if text::trimmed(s.keyfile).len() > 0 {
        seq!["-i"@, text::trimmed(s.keyfile)]
    } else {
        seq![]
    };
    password + seq!["ssh"@] + key + seq![target(s)]
}

/// The environment: the password for `sshpass`, if there is one.
pub open spec fn environment(s: ServerView) -> Seq<Seq<char>> {
    if s.password.len() > 0 {
        seq!["SSHPASS="@ + s.password]
    } else {
        seq![]
    }
}

/// The command that connects to `server`.
pub fn ssh_command(server: &Server) -> (r: SshCommand)
    ensures
        r.argv.deep_view() == arguments(server@),
        r.env.deep_view() == environment(server@),
{
    let mut target = server.user.clone();
    target.append("@");
    target.append(server.host.as_str());

    let mut argv: Vec<String> = Vec::new();
    let mut env: Vec<String> = Vec::new();
    if !server.password.as_str().is_empty() {
        argv.push("sshpass".to_owned());
        argv.push("-e".to_owned());
        let mut pass = "SSHPASS=".to_owned();
        pass.append(server.password.as_str());
        env.push(pass);
    }
    argv.push("ssh".to_owned());
    let key = text::trim(server.keyfile.as_str());
    if !key.as_str().is_empty() {
        argv.push("-i".to_owned());
        argv.push(key);
    }
    argv.push(target);
    assert(env.deep_view() == environment(server@));
    assert(argv.deep_view() == arguments(server@));
    SshCommand { argv, env }
}

/// The password is handed over in the environment alone: the arguments are
/// the same whatever it is, as long as there is one.
pub proof fn law_arguments_hide_the_password(a: ServerView, b: ServerView)
    requires
        a.user == b.user,
        a.host == b.host,
        a.keyfile == b.keyfile,
        a.password.len() > 0 <==> b.password.len() > 0,
    ensures
        arguments(a) == arguments(b),
{
}

/// The session always goes to `user@host`, named last; `ssh` is run directly
/// exactly where there is no password, and then with nothing added to the
/// environment.
pub proof fn law_command_shape(s: ServerView)
    ensures
        arguments(s).last() == target(s),
        s.password.len() == 0 ==> arguments(s)[0] == "ssh"@ && environment(s).len() == 0,
        s.password.len() > 0 ==> arguments(s)[0] == "sshpass"@ && environment(s).len() == 1,
        s.password.len() == 0 && text::trimmed(s.keyfile).len() == 0 ==> arguments(s) == seq![
            "ssh"@,
            target(s),
        ],
{
    if s.password.len() == 0 && text::trimmed(s.keyfile).len() == 0 {
        assert(arguments(s) == seq!["ssh"@, target(s)]);
    }
}

/// The whole password reaches `sshpass`, and nothing else does: where there is
/// one, the environment has one entry, and past the eight characters
/// `SSHPASS=` it is the password; where there is none, it is empty.
pub proof fn law_environment_carries_the_password(s: ServerView)
    ensures
        environment(s).len() == (if s.password.len() > 0 {
            1nat
        } else {
            0nat
        }),
        s.password.len() > 0 ==> {
            &&& environment(s)[0].len() == 8 + s.password.len()
            &&& environment(s)[0].take(8) == "SSHPASS="@
            &&& environment(s)[0].skip(8) == s.password
        },
{
    reveal_strlit("SSHPASS=");
    if s.password.len() > 0 {
        assert(environment(s)[0].take(8) == "SSHPASS="@);
        assert(environment(s)[0].skip(8) == s.password);
    }
}

/// The session goes to the whole user name and the whole host, with one `@`
/// between them: that is the last argument.
pub proof fn law_session_goes_to_user_at_host(s: ServerView)
    ensures
        ({
            let last = arguments(s).last();
            &&& arguments(s).len() > 0
            &&& last.len() == s.user.len() + 1 + s.host.len()
            &&& last.take(s.user.len() as int) == s.user
            &&& last[s.user.len() as int] == '@'
            &&& last.skip(s.user.len() as int + 1) == s.host
        }),
{
    reveal_strlit("@");
    let last = arguments(s).last();
    assert(last == s.user + "@"@ + s.host);
    assert(last.take(s.user.len() as int) == s.user);
    assert(last.skip(s.user.len() as int + 1) == s.host);
}

/// The arguments, place by place: first `sshpass -e` where there is a
/// password, then `ssh`, then `-i` and the trimmed key file where that is not
/// empty, then where the session goes; and no others.
pub proof fn law_arguments_in_place(s: ServerView)
    ensures
        ({
            let args = arguments(s);
            let key = text::trimmed(s.keyfile);
            let at = if s.password.len() > 0 {
                2int
            } else {
                0int
            };
            &&& args.len() == at + (if key.len() > 0 {
                4int
            } else {
                2int
            })
            &&& s.password.len() > 0 ==> args[0] == "sshpass"@ && args[1] == "-e"@
            &&& args[at] == "ssh"@
            &&& key.len() > 0 ==> args[at + 1] == "-i"@ && args[at + 2] == key
        }),
{
}

} // verus!
