//! The master-password gate: what an attempt to log in leads to, and how the
//! lockout shows.

use vstd::prelude::*;
use crate::lockout;
use crate::lockout::{Lockout, LockoutView};
use crate::servers::Server;
use crate::store::LoadError;
use crate::text;

verus! {

/// What an attempt to log in starts with.
#[derive(Debug, Clone, Copy, PartialEq, Eq, Structural)]
pub enum AttemptStep {
    /// Entry is locked: show that, and look at nothing else.
    Locked,
    /// There is no password to try.
    EmptyPassword,
    /// There is no store yet: this password becomes the master password.
    CreateStore,
    /// Try to open the store with the password.
    OpenStore,
}

/// What an attempt to open the store came to.
#[derive(Debug)]
pub enum AttemptReply {
    /// The login succeeded.
    Unlocked(Vec<Server>),
    /// The password was wrong, and entry is now locked for so many seconds.
    LockedFor(u64),
    /// The password was wrong.
    WrongPassword,
    /// The store opened but could not be understood.
    Corrupt,
    /// The store could not be read.
    ReadError(std::io::Error),
}

/// What can be wrong with an attempt, other than a lock.
#[derive(Debug, Clone, Copy, PartialEq, Eq, Structural)]
pub enum LoginProblem {
    EmptyPassword,
    WrongPassword,
    Corrupt,
}

/// What can be wrong with a new master password.
#[derive(Debug, Clone, Copy, PartialEq, Eq, Structural)]
pub enum PasswordProblem {
    Empty,
    Mismatch,
}

/// How the lock shows: whether entry is locked, and the status text to set, if
/// it changes.
#[derive(Debug)]
pub struct LockDisplay {
    pub locked: bool,
    pub status: Option<String>,
}

/// The first step of an attempt.
pub open spec fn step_for(remaining: nat, first_run: bool, password: Seq<char>) -> AttemptStep {
    if remaining > 0 {
        AttemptStep::Locked
    } else if password.len() == 0 {
        AttemptStep::EmptyPassword
    } else if first_run {
        AttemptStep::CreateStore
    } else {
        AttemptStep::OpenStore
    }
}

/// The lockout after an attempt to open the store: a login clears it, a wrong
/// password counts, and nothing else changes it.
pub open spec fn lockout_after(
    l: LockoutView,
    loaded: Result<Vec<Server>, LoadError>,
    now: nat,
) -> LockoutView {
    match loaded {
        Ok(_) => lockout::clear(),
        Err(LoadError::WrongPassword) => lockout::failed(l, now),
        Err(_) => l,
    }
}

/// The reply to an attempt to open the store.
pub open spec fn reply_for(
    l: LockoutView,
    loaded: Result<Vec<Server>, LoadError>,
) -> AttemptReply {
    match loaded {
        Ok(list) => AttemptReply::Unlocked(list),
        Err(LoadError::WrongPassword) => if lockout::penalty(l) > 0 {
            AttemptReply::LockedFor(lockout::penalty(l) as u64)
        } else {
            AttemptReply::WrongPassword
        },
        Err(LoadError::Corrupt) => AttemptReply::Corrupt,
        Err(LoadError::Io(e)) => AttemptReply::ReadError(e),
    }
}

/// The status text while entry is locked.
pub open spec fn locked_text(remaining: nat) -> Seq<char> {
    "Locked. Try again in "@ + text::digits(remaining) + "s."@
}

/// Whether a status text tells of a lock.
pub open spec fn tells_of_lock(status: Seq<char>) -> bool {
    status.len() >= 6 && status.take(6) == "Locked"@
}

/// The status text for a problem.
pub open spec fn problem_text(p: LoginProblem) -> Seq<char> {
    match p {
        LoginProblem::EmptyPassword => "Password cannot be empty."@,
        LoginProblem::WrongPassword => "Wrong password."@,
        LoginProblem::Corrupt => "Store is corrupt or unreadable."@,
    }
}

/// The first step of an attempt to log in, with `remaining` seconds of lock
/// left; `first_run` says that there is no store yet.
pub fn attempt_step(remaining: u64, first_run: bool, password: &str) -> (r: AttemptStep)
    ensures
        r == step_for(remaining as nat, first_run, password@),
{
    if remaining > 0 {
        AttemptStep::Locked
    } else if password.is_empty() {
        AttemptStep::EmptyPassword
    } else if first_run {
        AttemptStep::CreateStore
    } else {
        AttemptStep::OpenStore
    }
}

/// The reply to an attempt to open the store at time `now`, with the lockout
/// brought up to date.
pub fn attempt_reply(
    loaded: Result<Vec<Server>, LoadError>,
    l: &mut Lockout,
    now: u64,
) -> (r: AttemptReply)
    requires
        loaded matches Err(LoadError::WrongPassword) ==> lockout::fits(*old(l), now),
    ensures
        final(l)@ == lockout_after(old(l)@, loaded, now as nat),
        r == reply_for(old(l)@, loaded),
{
    match loaded {
        Ok(list) => {
            lockout::record_success(l);
            AttemptReply::Unlocked(list)
        },
        Err(LoadError::WrongPassword) => {
            let secs = lockout::record_failure(l, now);
            if secs > 0 {
                AttemptReply::LockedFor(secs)
            } else {
                AttemptReply::WrongPassword
            }
        },
        Err(LoadError::Corrupt) => AttemptReply::Corrupt,
        Err(LoadError::Io(e)) => AttemptReply::ReadError(e),
    }
}

/// Whether an attempt to open the store has a part in the lockout, so that its
/// state has to be written again.
pub fn counts(loaded: &Result<Vec<Server>, LoadError>) -> (r: bool)
    ensures
        r == (loaded is Ok || *loaded == Err::<Vec<Server>, LoadError>(LoadError::WrongPassword)),
{
    match loaded {
        Ok(_) => true,
        Err(LoadError::WrongPassword) => true,
        Err(_) => false,
    }
}

/// How the lock shows with `remaining` seconds left: a countdown while it
/// lasts, and no new text once it is over.
pub fn lock_display(remaining: u64) -> (r: LockDisplay)
    ensures
        r.locked == (remaining > 0),
        match r.status {
            Some(s) => remaining > 0 && s@ == locked_text(remaining as nat),
            None => remaining == 0,
        },
{
    if remaining > 0 {
        let mut s = "Locked. Try again in ".to_owned();
        s.append(text::decimal(remaining).as_str());
        s.append("s.");
        LockDisplay { locked: true, status: Some(s) }
    } else {
        LockDisplay { locked: false, status: None }
    }
}

/// How the lock shows at a tick of the clock, given the status text shown so
/// far: once the lock is over, a text that tells of it is cleared.
pub fn tick_display(remaining: u64, current: &str) -> (r: LockDisplay)
    ensures
        r.locked == (remaining > 0),
        match r.status {
            Some(s) => if remaining > 0 {
                s@ == locked_text(remaining as nat)
            } else {
                tells_of_lock(current@) && s@.len() == 0
            },
            None => remaining == 0 && !tells_of_lock(current@),
        },
{
    if remaining > 0 {
        return lock_display(remaining);
    }
    proof {
        reveal_strlit("Locked");
    }
    if current.unicode_len() >= 6 && current.substring_char(0, 6).to_owned()
        == "Locked".to_owned() {
        LockDisplay { locked: false, status: Some(String::new()) }
    } else {
        LockDisplay { locked: false, status: None }
    }
}

/// The status text for a problem.
pub fn problem_status(p: LoginProblem) -> (r: String)
    ensures
        r@ == problem_text(p),
{
    match p {
        LoginProblem::EmptyPassword => "Password cannot be empty.".to_owned(),
        LoginProblem::WrongPassword => "Wrong password.".to_owned(),
        LoginProblem::Corrupt => "Store is corrupt or unreadable.".to_owned(),
    }
}

/// The status text for a store that could not be read.
pub fn read_error_status(detail: &str) -> (r: String)
    ensures
        r@ == "Read error: "@ + detail@,
{
    let mut r = "Read error: ".to_owned();
    r.append(detail);
    r
}

/// The heading of the login window.
pub fn login_heading(first_run: bool) -> (r: String)
    ensures
        r@ == (if first_run {
            "Set a master password to encrypt your servers."@
        } else {
            "Enter master password."@
        }),
{
    if first_run {
        "Set a master password to encrypt your servers.".to_owned()
    } else {
        "Enter master password.".to_owned()
    }
}

/// The label of the login button.
pub fn login_button(first_run: bool) -> (r: String)
    ensures
        r@ == (if first_run {
            "Create"@
        } else {
            "Unlock"@
        }),
{
    if first_run {
        "Create".to_owned()
    } else {
        "Unlock".to_owned()
    }
}

/// Whether a new master password, typed twice, can be taken.
pub fn check_new_password(first: &str, second: &str) -> (r: Result<(), PasswordProblem>)
    ensures
        r is Ok <==> first@.len() > 0 && first@ == second@,
        r == Err::<(), PasswordProblem>(PasswordProblem::Empty) <==> first@.len() == 0,
        r == Err::<(), PasswordProblem>(PasswordProblem::Mismatch) <==> first@.len() > 0 && first@
            != second@,
{
    if first.is_empty() {
        return Err(PasswordProblem::Empty);
    }
    if first.to_owned() != second.to_owned() {
        return Err(PasswordProblem::Mismatch);
    }
    Ok(())
}

/// The status text for a problem with a new master password.
pub fn password_problem_status(p: PasswordProblem) -> (r: String)
    ensures
        r@ == (match p {
            PasswordProblem::Empty => "Password cannot be empty."@,
            PasswordProblem::Mismatch => "Passwords do not match."@,
        }),
{
    match p {
        PasswordProblem::Empty => "Password cannot be empty.".to_owned(),
        PasswordProblem::Mismatch => "Passwords do not match.".to_owned(),
    }
}

/// While entry is locked, no password gets further than any other: the store
/// is not opened or created, whatever is typed.
pub proof fn law_locked_refuses_every_password(
    remaining: nat,
    first_run: bool,
    password: Seq<char>,
)
    ensures
        remaining > 0 <==> step_for(remaining, first_run, password) == AttemptStep::Locked,
{
}

/// A wrong password that locks entry refuses every attempt for exactly the
/// seconds that the reply names, counted from the time it was recorded.
pub proof fn law_lock_reply_is_kept(
    l: LockoutView,
    loaded: Result<Vec<Server>, LoadError>,
    now: nat,
    later: nat,
    first_run: bool,
    password: Seq<char>,
)
    requires
        reply_for(l, loaded) is LockedFor,
        lockout::penalty(l) <= u64::MAX,
        now <= later,
    ensures
        ({
            let left = lockout::remaining(lockout_after(l, loaded, now), later);
            step_for(left, first_run, password) == AttemptStep::Locked <==> later < now
                + reply_for(l, loaded)->LockedFor_0
        }),
{
    lockout::law_lock_lasts_its_penalty(l, now, later);
}

/// Only a wrong password counts towards the lockout: a store that is corrupt
/// or cannot be read changes nothing, and a login clears every failure.
pub proof fn law_only_wrong_passwords_count(
    l: LockoutView,
    loaded: Result<Vec<Server>, LoadError>,
    now: nat,
)
    ensures
        loaded is Ok ==> lockout_after(l, loaded, now) == lockout::clear(),
        loaded is Err && !(loaded->Err_0 is WrongPassword) ==> lockout_after(l, loaded, now) == l,
        loaded is Err && loaded->Err_0 is WrongPassword ==> lockout_after(l, loaded, now) != l,
{
    vstd::arithmetic::power2::lemma_pow2_pos(l.cycle);
}

/// The lockout after a sequence of attempts to open the store, each with the
/// time at which it was answered.
pub open spec fn lockout_after_all(
    l: LockoutView,
    attempts: Seq<(Result<Vec<Server>, LoadError>, nat)>,
) -> LockoutView
    decreases attempts.len(),
{
    if attempts.len() == 0 {
        l
    } else {
        lockout_after(
            lockout_after_all(l, attempts.drop_last()),
            attempts.last().0,
            attempts.last().1,
        )
    }
}

/// The times of the wrong passwords since the last login.
pub open spec fn wrong_since_login(
    attempts: Seq<(Result<Vec<Server>, LoadError>, nat)>,
) -> Seq<nat>
    decreases attempts.len(),
{
    if attempts.len() == 0 {
        Seq::empty()
    } else {
        let before = wrong_since_login(attempts.drop_last());
        match attempts.last().0 {
            Ok(_) => Seq::empty(),
            Err(LoadError::WrongPassword) => before.push(attempts.last().1),
            Err(_) => before,
        }
    }
}

/// However attempts follow one another, the lockout is that of the wrong
/// passwords since the last login, and nothing else has a part in it.
pub proof fn law_lockout_follows_wrong_passwords(
    attempts: Seq<(Result<Vec<Server>, LoadError>, nat)>,
)
    ensures
        lockout_after_all(lockout::clear(), attempts) == lockout::failed_at(
            lockout::clear(),
            wrong_since_login(attempts),
        ),
    decreases attempts.len(),
{
    if attempts.len() > 0 {
        law_lockout_follows_wrong_passwords(attempts.drop_last());
        let before = wrong_since_login(attempts.drop_last());
        assert(before.push(attempts.last().1).drop_last() == before);
    }
}

/// The text of a lock tells of it, so it is cleared once the lock is over; the
/// texts of the other problems stay.
pub proof fn law_only_lock_texts_are_cleared(remaining: nat, p: LoginProblem)
    ensures
        tells_of_lock(locked_text(remaining)),
        !tells_of_lock(problem_text(p)),
{
    reveal_strlit("Locked");
    reveal_strlit("Locked. Try again in ");
    reveal_strlit("Password cannot be empty.");
    reveal_strlit("Wrong password.");
    reveal_strlit("Store is corrupt or unreadable.");
    assert(locked_text(remaining).take(6) == "Locked"@);
    assert(problem_text(p)[0] != 'L');
    if tells_of_lock(problem_text(p)) {
        assert(problem_text(p).take(6)[0] == 'L');
    }
}

/// The first step of an attempt, case by case: a lock comes before anything
/// else, then the lack of a password; with both out of the way the password
/// makes the store where there is none, and opens it where there is one.
pub proof fn law_first_step(remaining: nat, first_run: bool, password: Seq<char>)
    ensures
        ({
            let step = step_for(remaining, first_run, password);
            &&& step == AttemptStep::Locked <==> remaining > 0
            &&& step == AttemptStep::EmptyPassword <==> remaining == 0 && password.len() == 0
            &&& step == AttemptStep::CreateStore <==> remaining == 0 && password.len() > 0
                && first_run
            &&& step == AttemptStep::OpenStore <==> remaining == 0 && password.len() > 0
                && !first_run
        }),
{
}

/// A login succeeds with exactly the list that was loaded, whatever it holds,
/// and only where one was loaded.
pub proof fn law_login_gives_what_was_loaded(
    l: LockoutView,
    loaded: Result<Vec<Server>, LoadError>,
    list: Vec<Server>,
)
    ensures
        reply_for(l, loaded) == AttemptReply::Unlocked(list) <==> loaded == Ok::<
            Vec<Server>,
            LoadError,
        >(list),
{
}

/// Each failure to load has its own answer, and that answer comes from no
/// other: a corrupt store is called corrupt, a store that could not be read is
/// answered with the error that came, and a wrong password is called that, or
/// is answered with the seconds of the lock it brings at the third try.
pub proof fn law_refusals_say_why(
    l: LockoutView,
    loaded: Result<Vec<Server>, LoadError>,
    e: std::io::Error,
)
    ensures
        ({
            let wrong = loaded == Err::<Vec<Server>, LoadError>(LoadError::WrongPassword);
            let reply = reply_for(l, loaded);
            &&& reply == AttemptReply::Corrupt <==> loaded == Err::<Vec<Server>, LoadError>(
                LoadError::Corrupt,
            )
            &&& reply == AttemptReply::ReadError(e) <==> loaded == Err::<Vec<Server>, LoadError>(
                LoadError::Io(e),
            )
            &&& reply == AttemptReply::WrongPassword <==> wrong && l.fails < 2
            &&& reply is LockedFor <==> wrong && l.fails >= 2
            &&& reply is LockedFor && 60 * vstd::arithmetic::power2::pow2(l.cycle) <= u64::MAX
                ==> reply->LockedFor_0 == 60 * vstd::arithmetic::power2::pow2(l.cycle)
        }),
{
    lockout::law_wrong_password(l, 0);
    vstd::arithmetic::power2::lemma_pow2_pos(l.cycle);
}

/// What an attempt does to the lockout: a login sets every count to zero, a
/// wrong password counts as one, and any other failure leaves all as it was.
pub proof fn law_lockout_after_an_attempt(
    l: LockoutView,
    loaded: Result<Vec<Server>, LoadError>,
    now: nat,
)
    ensures
        ({
            let after = lockout_after(l, loaded, now);
            &&& loaded is Ok ==> after.fails == 0 && after.locked_until == 0 && after.cycle == 0
            &&& loaded == Err::<Vec<Server>, LoadError>(LoadError::WrongPassword) ==> after
                == lockout::failed(l, now)
            &&& loaded is Err && !(loaded->Err_0 is WrongPassword) ==> after.fails == l.fails
                && after.locked_until == l.locked_until && after.cycle == l.cycle
        }),
{
}

/// The text of a lock is the sentence around the seconds in decimal: it has the
/// number between its first 21 and its last 2 characters.
pub proof fn law_lock_text_tells_the_seconds(remaining: nat)
    ensures
        ({
            let shown = locked_text(remaining);
            let number = text::digits(remaining);
            &&& shown.len() == 21 + number.len() + 2
            &&& shown.take(21) == "Locked. Try again in "@
            &&& shown.subrange(21, 21 + number.len() as int) == number
            &&& shown.skip(21 + number.len() as int) == "s."@
        }),
{
    reveal_strlit("Locked. Try again in ");
    reveal_strlit("s.");
}

/// A text tells of a lock exactly where it begins with these six letters.
pub proof fn law_lock_texts_begin_with_locked(status: Seq<char>)
    ensures
        tells_of_lock(status) <==> status.len() >= 6 && status[0] == 'L' && status[1] == 'o'
            && status[2] == 'c' && status[3] == 'k' && status[4] == 'e' && status[5] == 'd',
{
    reveal_strlit("Locked");
    if tells_of_lock(status) {
        assert forall|i: int| 0 <= i < 6 implies status[i] == "Locked"@[i] by {
            assert(status.take(6)[i] == status[i]);
        }
    }
    if status.len() >= 6 && status[0] == 'L' && status[1] == 'o' && status[2] == 'c' && status[3]
        == 'k' && status[4] == 'e' && status[5] == 'd' {
        assert(status.take(6) == "Locked"@);
    }
}

} // verus!
