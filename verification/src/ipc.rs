//! Requests to a manager, its responses, and signal names.

use vstd::prelude::*;
use vstd::string::*;

use crate::text;
use crate::text::{same_text, strip_prefix, to_upper, trim};

verus! {

/// A value of the `serde_json` crate.
#[verifier::external_type_specification]
#[verifier::external_body]
pub struct ExValue(serde_json::Value);

/// A request, one line of JSON on the socket.
pub struct Request {
    pub action: String,
    /// For `signal`: the name of the signal.
    pub sig: Option<String>,
}

/// A response, one line of JSON on the socket.
pub struct Response {
    pub success: bool,
    pub data: Option<serde_json::Value>,
    pub error: Option<String>,
}

impl Default for Response {
    /// A failure without data and without an error text.
    fn default() -> (r: Self)
        ensures
            !r.success,
            r.data is None,
            r.error is None,
    {
        Response { success: false, data: None, error: None }
    }
}

impl Response {
    /// A success that carries data.
    pub fn ok(data: serde_json::Value) -> (r: Self)
        ensures
            r.success,
            r.data == Some(data),
            r.error is None,
    {
        Response { success: true, data: Some(data), error: None }
    }

    /// A failure with an error text.
    pub fn err(msg: String) -> (r: Self)
        ensures
            !r.success,
            r.data is None,
            r.error == Some(msg),
    {
        Response { success: false, data: None, error: Some(msg) }
    }
}

// ---------------------------------------------------------------------
// Signals
// ---------------------------------------------------------------------

/// The signals that can be sent.
#[derive(Clone, Copy, PartialEq, Eq, Structural)]
pub enum Signal {
    Term,
    Int,
    Hup,
    Kill,
    Usr1,
    Usr2,
    Quit,
    Stop,
    Cont,
}

/// The signal of a name in upper case, without `SIG` in front.
pub open spec fn bare_signal(name: Seq<char>) -> Option<Signal> {
    if name == "TERM"@ {
        Some(Signal::Term)
    } else if name == "INT"@ {
        Some(Signal::Int)
    } else if name == "HUP"@ {
        Some(Signal::Hup)
    } else if name == "KILL"@ {
        Some(Signal::Kill)
    } else if name == "USR1"@ {
        Some(Signal::Usr1)
    } else if name == "USR2"@ {
        Some(Signal::Usr2)
    } else if name == "QUIT"@ {
        Some(Signal::Quit)
    } else if name == "STOP"@ {
        Some(Signal::Stop)
    } else if name == "CONT"@ {
        Some(Signal::Cont)
    } else {
        None
    }
}

/// A name in upper case, without `SIG` in front.
pub open spec fn bare_name(name: Seq<char>) -> Seq<char> {
    let up = text::upper(name);
    if text::starts_with(up, "SIG"@) {
        up.skip("SIG"@.len() as int)
    } else {
        up
    }
}

/// The signal of a name. Case does not matter, nor does white space around it,
/// nor `SIG` in front.
pub open spec fn signal_of(name: Seq<char>) -> Option<Signal> {
    bare_signal(bare_name(text::trimmed(name)))
}

/// Whether a number can be that of a signal. Five signals have the same number
/// on every Unix; the others differ between systems.
pub open spec fn is_number(sig: Signal, n: i32) -> bool {
    match sig {
        Signal::Term => n == 15,
        Signal::Int => n == 2,
        Signal::Hup => n == 1,
        Signal::Kill => n == 9,
        Signal::Quit => n == 3,
        Signal::Usr1 => n == 10 || n == 16 || n == 18 || n == 25 || n == 30,
        Signal::Usr2 => n == 12 || n == 17 || n == 19 || n == 26 || n == 31,
        Signal::Stop => n == 10 || n == 17 || n == 19 || n == 23,
        Signal::Cont => n == 12 || n == 18 || n == 19 || n == 25,
    }
}

/// `libc::SIGTERM`, 15 on every Unix.
#[verifier::external_body]
fn sig_term() -> (r: i32)
    ensures
        is_number(Signal::Term, r),
{
    libc::SIGTERM
}

/// `libc::SIGINT`, 2 on every Unix.
#[verifier::external_body]
fn sig_int() -> (r: i32)
    ensures
        is_number(Signal::Int, r),
{
    libc::SIGINT
}

/// `libc::SIGHUP`, 1 on every Unix.
#[verifier::external_body]
fn sig_hup() -> (r: i32)
    ensures
        is_number(Signal::Hup, r),
{
    libc::SIGHUP
}

/// `libc::SIGKILL`, 9 on every Unix.
#[verifier::external_body]
fn sig_kill() -> (r: i32)
    ensures
        is_number(Signal::Kill, r),
{
    libc::SIGKILL
}

/// `libc::SIGQUIT`, 3 on every Unix.
#[verifier::external_body]
fn sig_quit() -> (r: i32)
    ensures
        is_number(Signal::Quit, r),
{
    libc::SIGQUIT
}

/// `libc::SIGUSR1`, whose number depends on the system.
#[verifier::external_body]
fn sig_usr1() -> (r: i32)
    ensures
        is_number(Signal::Usr1, r),
{
    libc::SIGUSR1
}

/// `libc::SIGUSR2`, whose number depends on the system.
#[verifier::external_body]
fn sig_usr2() -> (r: i32)
    ensures
        is_number(Signal::Usr2, r),
{
    libc::SIGUSR2
}

/// `libc::SIGSTOP`, whose number depends on the system.
#[verifier::external_body]
fn sig_stop() -> (r: i32)
    ensures
        is_number(Signal::Stop, r),
{
    libc::SIGSTOP
}

/// `libc::SIGCONT`, whose number depends on the system.
#[verifier::external_body]
fn sig_cont() -> (r: i32)
    ensures
        is_number(Signal::Cont, r),
{
    libc::SIGCONT
}

/// The signal of a name.
pub fn signal_named(name: &str) -> (r: Option<Signal>)
    ensures
        r == signal_of(name@),
{
    let up = to_upper(trim(name));
    let s: &str = match strip_prefix(up.as_str(), "SIG") {
        Some(rest) => rest,
        None => up.as_str(),
    };
    if same_text(s, "TERM") {
        Some(Signal::Term)
    } else if same_text(s, "INT") {
        Some(Signal::Int)
    } else if same_text(s, "HUP") {
        Some(Signal::Hup)
    } else if same_text(s, "KILL") {
        Some(Signal::Kill)
    } else if same_text(s, "USR1") {
        Some(Signal::Usr1)
    } else if same_text(s, "USR2") {
        Some(Signal::Usr2)
    } else if same_text(s, "QUIT") {
        Some(Signal::Quit)
    } else if same_text(s, "STOP") {
        Some(Signal::Stop)
    } else if same_text(s, "CONT") {
        Some(Signal::Cont)
    } else {
        None
    }
}

/// The number of a signal on this system.
pub fn signal_number(sig: Signal) -> (r: i32)
    ensures
        is_number(sig, r),
{
    match sig {
        Signal::Term => sig_term(),
        Signal::Int => sig_int(),
        Signal::Hup => sig_hup(),
        Signal::Kill => sig_kill(),
        Signal::Usr1 => sig_usr1(),
        Signal::Usr2 => sig_usr2(),
        Signal::Quit => sig_quit(),
        Signal::Stop => sig_stop(),
        Signal::Cont => sig_cont(),
    }
}

/// The number of the signal of a name, where the name is known.
pub fn parse_signal(name: &str) -> (r: Option<i32>)
    ensures
        match signal_of(name@) {
            Some(sig) => r matches Some(n) && is_number(sig, n),
            None => r is None,
        },
{
    match signal_named(name) {
        Some(sig) => Some(signal_number(sig)),
        None => None,
    }
}

/// The nine signals have these names, and no other name stands for a signal.
pub proof fn signals_have_nine_names(name: Seq<char>)
    ensures
        bare_signal("TERM"@) == Some(Signal::Term),
        bare_signal("INT"@) == Some(Signal::Int),
        bare_signal("HUP"@) == Some(Signal::Hup),
        bare_signal("KILL"@) == Some(Signal::Kill),
        bare_signal("USR1"@) == Some(Signal::Usr1),
        bare_signal("USR2"@) == Some(Signal::Usr2),
        bare_signal("QUIT"@) == Some(Signal::Quit),
        bare_signal("STOP"@) == Some(Signal::Stop),
        bare_signal("CONT"@) == Some(Signal::Cont),
        bare_signal(name) is Some ==> seq![
            "TERM"@,
            "INT"@,
            "HUP"@,
            "KILL"@,
            "USR1"@,
            "USR2"@,
            "QUIT"@,
            "STOP"@,
            "CONT"@,
        ].contains(name),
{
    reveal_strlit("TERM");
    reveal_strlit("INT");
    reveal_strlit("HUP");
    reveal_strlit("KILL");
    reveal_strlit("USR1");
    reveal_strlit("USR2");
    reveal_strlit("QUIT");
    reveal_strlit("STOP");
    reveal_strlit("CONT");
    assert("TERM"@[0] == 'T' && "INT"@[0] == 'I' && "HUP"@[0] == 'H' && "KILL"@[0] == 'K');
    assert("USR1"@[0] == 'U' && "USR2"@[0] == 'U' && "USR1"@[3] == '1' && "USR2"@[3] == '2');
    assert("QUIT"@[0] == 'Q' && "STOP"@[0] == 'S' && "CONT"@[0] == 'C');
    let all = seq![
        "TERM"@,
        "INT"@,
        "HUP"@,
        "KILL"@,
        "USR1"@,
        "USR2"@,
        "QUIT"@,
        "STOP"@,
        "CONT"@,
    ];
    assert(all[0] == "TERM"@ && all[1] == "INT"@ && all[2] == "HUP"@ && all[3] == "KILL"@);
    assert(all[4] == "USR1"@ && all[5] == "USR2"@ && all[6] == "QUIT"@ && all[7] == "STOP"@);
    assert(all[8] == "CONT"@);
}

/// The case of a signal's name, `SIG` in front of it and white space around it change
/// nothing.
pub proof fn spelling_does_not_change_the_signal(a: Seq<char>, name: Seq<char>, b: Seq<char>)
    requires
        forall|i: int| 0 <= i < a.len() ==> text::is_space(#[trigger] a[i]),
        forall|i: int| 0 <= i < b.len() ==> text::is_space(#[trigger] b[i]),
        name.len() > 0,
        !text::is_space(name[0]),
        !text::is_space(name.last()),
        !text::starts_with(text::upper(name), "SIG"@),
    ensures
        signal_of(name) == bare_signal(text::upper(name)),
        signal_of(a + name + b) == signal_of(name),
        signal_of(a + "SIG"@ + name + b) == signal_of(name),
        signal_of(a + "sig"@ + name + b) == signal_of(name),
{
    let none = Seq::<char>::empty();
    reveal_strlit("SIG");
    reveal_strlit("sig");
    text::trimming_takes_the_blanks_off(a, name, b);
    text::trimming_takes_the_blanks_off(none, name, none);
    assert(none + name + none =~= name);
    lemma_prefixed(a, "SIG"@, name, b);
    lemma_prefixed(a, "sig"@, name, b);
}

proof fn lemma_prefixed(a: Seq<char>, sig: Seq<char>, name: Seq<char>, b: Seq<char>)
    requires
        forall|i: int| 0 <= i < a.len() ==> text::is_space(#[trigger] a[i]),
        forall|i: int| 0 <= i < b.len() ==> text::is_space(#[trigger] b[i]),
        name.len() > 0,
        !text::is_space(name.last()),
        sig == "SIG"@ || sig == "sig"@,
    ensures
        signal_of(a + sig + name + b) == bare_signal(text::upper(name)),
{
    reveal_strlit("SIG");
    reveal_strlit("sig");
    let t = sig + name;
    assert(t[0] == 'S' || t[0] == 's');
    text::white_space_cannot_be_seen(t[0]);
    assert(t.last() == name.last());
    text::trimming_takes_the_blanks_off(a, t, b);
    assert(a + t + b =~= a + sig + name + b);
    text::upper_case_changes_small_letters(t);
    text::upper_case_changes_small_letters(name);
    let up = text::upper(t);
    assert(up.take(3) =~= "SIG"@);
    assert(up.skip(3) =~= text::upper(name));
}

/// `SIG` comes off once, in either case, and nothing else does.
pub proof fn the_prefix_comes_off_once(name: Seq<char>)
    ensures
        bare_name("SIG"@ + name) == text::upper(name),
        bare_name("sig"@ + name) == text::upper(name),
        name.len() < 3 || text::upper(name).take(3) != "SIG"@ ==> bare_name(name) == text::upper(
            name,
        ),
{
    reveal_strlit("SIG");
    reveal_strlit("sig");
    text::upper_case_changes_small_letters("SIG"@ + name);
    text::upper_case_changes_small_letters("sig"@ + name);
    text::upper_case_changes_small_letters(name);
    assert(text::upper("SIG"@ + name).take(3) =~= "SIG"@);
    assert(text::upper("sig"@ + name).take(3) =~= "SIG"@);
    assert(text::upper("SIG"@ + name).skip(3) =~= text::upper(name));
    assert(text::upper("sig"@ + name).skip(3) =~= text::upper(name));
}

/// The numbers of the signals are those that all systems share, where they do.
pub proof fn shared_signals_have_their_numbers(n: i32)
    ensures
        is_number(Signal::Term, n) <==> n == 15,
        is_number(Signal::Int, n) <==> n == 2,
        is_number(Signal::Hup, n) <==> n == 1,
        is_number(Signal::Kill, n) <==> n == 9,
        is_number(Signal::Quit, n) <==> n == 3,
{
}

} // verus!
