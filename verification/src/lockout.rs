//! The lockout after wrong master passwords: three tries, then a lock of one
//! minute, and of twice as long each time again, until a login succeeds.

use vstd::prelude::*;

verus! {

/// Wrong passwords in a row before the lock engages.
pub const TRIES_PER_CYCLE: u32 = 3;

/// The lockout state, kept across restarts.
#[derive(Debug, Clone, Copy, PartialEq)]
pub struct Lockout {
    /// Wrong passwords since the last lock or login.
    pub fails: u32,
    /// Unix seconds when the current lock ends. 0: never locked.
    pub locked_until: u64,
    /// How many locks have engaged since the last login.
    pub cycle: u32,
}

/// The lockout state as numbers without bounds.
pub struct LockoutView {
    pub fails: nat,
    pub locked_until: nat,
    pub cycle: nat,
}

impl View for Lockout {
    type V = LockoutView;

    open spec fn view(&self) -> LockoutView {
        LockoutView {
            fails: self.fails as nat,
            locked_until: self.locked_until as nat,
            cycle: self.cycle as nat,
        }
    }
}

/// The state without any failure.
pub open spec fn clear() -> LockoutView {
    LockoutView { fails: 0, locked_until: 0, cycle: 0 }
}

/// The length in seconds of the lock that follows `cycle` earlier ones.
pub open spec fn lock_seconds(cycle: nat) -> nat {
    vstd::arithmetic::power2::pow2(cycle) * 60
}

/// Whether the next wrong password engages the lock.
pub open spec fn last_try(l: LockoutView) -> bool {
    l.fails + 1 >= TRIES_PER_CYCLE
}

/// The state after a wrong password at time `now`.
pub open spec fn failed(l: LockoutView, now: nat) -> LockoutView {
    if last_try(l) {
        LockoutView { fails: 0, locked_until: now + lock_seconds(l.cycle), cycle: l.cycle + 1 }
    } else {
        LockoutView { fails: l.fails + 1, ..l }
    }
}

/// The seconds locked by a wrong password; 0 where it does not engage the lock.
pub open spec fn penalty(l: LockoutView) -> nat {
    if last_try(l) {
        lock_seconds(l.cycle)
    } else {
        0
    }
}

/// The seconds that the lock still lasts at time `now`.
pub open spec fn remaining(l: LockoutView, now: nat) -> nat {
    if l.locked_until > now {
        (l.locked_until - now) as nat
    } else {
        0
    }
}

/// Whether the state after a wrong password at `now` fits the machine's
/// numbers.
pub open spec fn fits(l: Lockout, now: u64) -> bool {
    &&& l.fails < u32::MAX
    &&& last_try(l@) ==> l.cycle < 64 && now + lock_seconds(l.cycle as nat) <= u64::MAX
}

impl Default for Lockout {
    fn default() -> (r: Self)
        ensures
            r@ == clear(),
    {
        Lockout { fails: 0, locked_until: 0, cycle: 0 }
    }
}

/// The state to start from: what was read back from disk, or the clear one
/// where nothing could be read.
pub fn restored(stored: Option<Lockout>) -> (r: Lockout)
    ensures
        r@ == (match stored {
            Some(l) => l@,
            None => clear(),
        }),
{
    match stored {
        Some(l) => l,
        None => Lockout::default(),
    }
}

/// Seconds remaining on an active lock at time `now`, or 0 if entry is allowed.
pub fn lock_remaining(l: &Lockout, now: u64) -> (r: u64)
    ensures
        r == remaining(l@, now as nat),
{
    if l.locked_until > now {
        l.locked_until - now
    } else {
        0
    }
}

/// `1 << cycle`, the length in minutes of the lock that follows `cycle`
/// earlier ones.
fn lock_minutes(cycle: u32) -> (r: u64)
    requires
        cycle < 64,
    ensures
        r == vstd::arithmetic::power2::pow2(cycle as nat),
{
    proof {
        vstd::bits::lemma_u64_pow2_no_overflow(cycle as nat);
        vstd::bits::lemma_u64_shl_is_mul(1, cycle as u64);
        assert(1u64 << cycle == 1u64 << (cycle as u64)) by (bit_vector);
    }
    1u64 << cycle
}

/// Whether a wrong password at `now` can be recorded without exceeding the
/// machine's numbers.
pub fn can_record_failure(l: &Lockout, now: u64) -> (r: bool)
    ensures
        r == fits(*l, now),
{
    if l.fails == u32::MAX {
        return false;
    }
    if l.fails + 1 < TRIES_PER_CYCLE {
        return true;
    }
    if l.cycle >= 64 {
        return false;
    }
    let mins = lock_minutes(l.cycle);
    mins <= (u64::MAX - now) / 60
}

/// Records one wrong password at time `now`; engages the lock with the last
/// try. Returns the seconds locked (0 if not locked).
pub fn record_failure(l: &mut Lockout, now: u64) -> (secs: u64)
    requires
        fits(*old(l), now),
    ensures
        final(l)@ == failed(old(l)@, now as nat),
        secs == penalty(old(l)@),
{
    l.fails = l.fails + 1;
    if l.fails >= TRIES_PER_CYCLE {
        let mins = lock_minutes(l.cycle);
        l.locked_until = now + mins * 60;
        l.fails = 0;
        l.cycle = l.cycle + 1;
        return mins * 60;
    }
    0
}

/// Clears the lockout after a successful login.
pub fn record_success(l: &mut Lockout)
    ensures
        final(l)@ == clear(),
{
    *l = Lockout::default();
}

/// The state after wrong passwords at the given times, one after the other.
pub open spec fn failed_at(l: LockoutView, times: Seq<nat>) -> LockoutView
    decreases times.len(),
{
    if times.len() == 0 {
        l
    } else {
        failed(failed_at(l, times.drop_last()), times.last())
    }
}

/// The schedule: from the clear state, every third wrong password in a row
/// engages the lock, the first time for one minute and then for twice as long
/// as the time before; no other one locks.
pub proof fn law_lockout_schedule(times: Seq<nat>)
    ensures
        failed_at(clear(), times).fails == times.len() % 3,
        failed_at(clear(), times).cycle == times.len() / 3,
        penalty(failed_at(clear(), times)) == (if (times.len() + 1) % 3 == 0 {
            vstd::arithmetic::power2::pow2(times.len() / 3) * 60
        } else {
            0
        }),
    decreases times.len(),
{
    if times.len() > 0 {
        law_lockout_schedule(times.drop_last());
    }
}

/// Each lock is twice as long as the one before, and the first lasts a minute.
pub proof fn law_lockout_doubles(cycle: nat)
    ensures
        lock_seconds(0) == 60,
        lock_seconds(cycle + 1) == 2 * lock_seconds(cycle),
{
    vstd::arithmetic::power2::lemma2_to64();
    vstd::arithmetic::power2::lemma_pow2_unfold(cycle + 1);
    assert(2 * vstd::arithmetic::power2::pow2(cycle) * 60 == 2 * (vstd::arithmetic::power2::pow2(cycle) * 60)) by (nonlinear_arith);
}

/// A wrong password that engages the lock keeps entry closed for exactly the
/// seconds it returned; one that does not leaves the lock as it was.
pub proof fn law_lock_lasts_its_penalty(l: LockoutView, now: nat, later: nat)
    ensures
        last_try(l) && later >= now ==> (remaining(failed(l, now), later) > 0 <==> later < now
            + penalty(l)),
        last_try(l) ==> penalty(l) > 0 && remaining(failed(l, now), now) == penalty(l),
        !last_try(l) ==> remaining(failed(l, now), later) == remaining(l, later),
{
    vstd::arithmetic::power2::lemma_pow2_pos(l.cycle);
}

/// The lock runs down: as time passes, what remains never grows, and it is 0
/// from the moment the lock ends.
pub proof fn law_lock_runs_down(l: LockoutView, now: nat, later: nat)
    requires
        now <= later,
    ensures
        remaining(l, later) <= remaining(l, now),
        remaining(l, later) == 0 <==> later >= l.locked_until,
{
}

/// A login leaves no lock and the full number of tries.
pub proof fn law_clear_state_is_open(now: nat, first: nat, second: nat)
    ensures
        remaining(clear(), now) == 0,
        penalty(clear()) == 0,
        penalty(failed(clear(), first)) == 0,
        penalty(failed(failed(clear(), first), second)) == lock_seconds(0),
{
}

/// The state in numbers is the state as it is kept.
pub proof fn law_lockout_view(l: Lockout)
    ensures
        l@.fails == l.fails,
        l@.locked_until == l.locked_until,
        l@.cycle == l.cycle,
{
}

/// While a lock lasts, the time plus the seconds that remain is the time at
/// which it ends, so each second that passes takes one off the countdown; from
/// the end on, nothing remains.
pub proof fn law_countdown_reaches_the_end(l: LockoutView, now: nat, later: nat)
    ensures
        now < l.locked_until ==> now + remaining(l, now) == l.locked_until,
        now >= l.locked_until ==> remaining(l, now) == 0,
        now <= later <= l.locked_until ==> remaining(l, now) - remaining(l, later) == later - now,
{
}

/// What a wrong password does in any state. One of the first two only counts:
/// the lock and the number of locks stay. The third, or any after it, starts
/// counting anew, locks from now on for as long as it says, a minute doubled
/// for each lock before, and counts that lock.
pub proof fn law_wrong_password(l: LockoutView, now: nat)
    ensures
        l.fails < 2 ==> {
            &&& penalty(l) == 0
            &&& failed(l, now).fails == l.fails + 1
            &&& failed(l, now).locked_until == l.locked_until
            &&& failed(l, now).cycle == l.cycle
        },
        l.fails >= 2 ==> {
            &&& penalty(l) == 60 * vstd::arithmetic::power2::pow2(l.cycle)
            &&& failed(l, now).fails == 0
            &&& failed(l, now).locked_until == now + penalty(l)
            &&& failed(l, now).cycle == l.cycle + 1
        },
{
}

/// The clear state counts no wrong password, no lock and no end of one.
pub proof fn law_clear_state_is_zero()
    ensures
        clear().fails == 0,
        clear().locked_until == 0,
        clear().cycle == 0,
{
}

/// A wrong password can be recorded unless a number of the state would grow
/// beyond what the machine holds: the count of tries or, where it locks, the
/// time at which the lock ends.
pub proof fn law_when_a_failure_fits(l: Lockout, now: u64)
    ensures
        l.fails < 2 ==> fits(l, now),
        l.fails == u32::MAX ==> !fits(l, now),
        2 <= l.fails < u32::MAX ==> (fits(l, now) <==> l.cycle < 64 && now + 60
            * vstd::arithmetic::power2::pow2(l.cycle as nat) <= u64::MAX),
{
}

} // verus!
