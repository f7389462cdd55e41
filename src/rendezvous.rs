use vstd::prelude::*;

use crate::derivator::copy_bytes;

verus! {

/// Seconds in one rendezvous period.
pub const PERIOD_SECS: u64 = 300;

/// The period that a Unix time falls in: the time divided by the period,
/// rounded toward zero.
pub open spec fn period_of(epoch: i64) -> int {
    if epoch >= 0 {
        epoch as int / PERIOD_SECS as int
    } else {
        -((-(epoch as int)) / PERIOD_SECS as int)
    }
}

/// The decimal digits of `n`, as ASCII.
pub open spec fn decimal_nat(n: nat) -> Seq<u8>
    decreases n,
{
    if n < 10 {
        seq![(48 + n) as u8]
    } else {
        decimal_nat(n / 10) + seq![(48 + n % 10) as u8]
    }
}

/// `n` in decimal, with a leading `-` when negative.
pub open spec fn decimal(n: int) -> Seq<u8> {
    if n < 0 {
        seq![45u8] + decimal_nat((-n) as nat)
    } else {
        decimal_nat(n as nat)
    }
}

/// The rolling secret `<base>-<period>-<counter>`.
pub open spec fn rolling_secret(base: Seq<u8>, period: int, counter: nat) -> Seq<u8> {
    base + seq![45u8] + decimal(period) + seq![45u8] + decimal(counter as int)
}

/// Appends the decimal digits of `n`.
fn push_decimal(out: &mut Vec<u8>, n: u64)
    ensures
        final(out)@ == old(out)@ + decimal_nat(n as nat),
    decreases n,
{
    if n >= 10 {
        push_decimal(out, n / 10);
    }
    out.push(48u8 + (n % 10) as u8);
    assert(final(out)@ =~= old(out)@ + decimal_nat(n as nat));
}

/// Appends `n` in decimal.
fn push_signed_decimal(out: &mut Vec<u8>, n: i64)
    ensures
        final(out)@ == old(out)@ + decimal(n as int),
{
    if n < 0 {
        out.push(45u8);
        let magnitude: u64 = (-(n + 1)) as u64 + 1;
        push_decimal(out, magnitude);
        assert(final(out)@ =~= old(out)@ + decimal(n as int));
    } else {
        push_decimal(out, n as u64);
    }
}

/// The rendezvous period of a Unix time.
pub fn period(epoch: i64) -> (r: i64)
    ensures
        r == period_of(epoch),
{
    if epoch >= 0 {
        ((epoch as u64) / PERIOD_SECS) as i64
    } else {
        let magnitude: u64 = (-(epoch + 1)) as u64 + 1;
        -((magnitude / PERIOD_SECS) as i64)
    }
}

/// Relies on `chrono::Utc::now` and `DateTime::timestamp`: the seconds since
/// the Unix epoch, by the system clock.
#[verifier::external_body]
fn unix_now() -> (r: i64) {
    chrono::Utc::now().timestamp()
}

/// A source of rolling secrets: a base secret, the period last used, and a
/// counter of the secrets handed out within that period.
pub struct SecretGen {
    secret: Vec<u8>,
    used_time: i64,
    counter: usize,
}

impl View for SecretGen {
    /// The base secret, the period last used, and the counter.
    type V = (Seq<u8>, int, nat);

    closed spec fn view(&self) -> (Seq<u8>, int, nat) {
        (self.secret@, self.used_time as int, self.counter as nat)
    }
}

impl SecretGen {
    /// A source over `secret`, in the period of the Unix time `epoch`.
    pub fn from_time(secret: &[u8], epoch: i64) -> (r: Self)
        ensures
            r@ == (secret@, period_of(epoch), 0nat),
    {
        SecretGen { secret: copy_bytes(secret), used_time: period(epoch), counter: 0 }
    }

    /// A source over `secret`, in the current period.
    pub fn from(secret: &[u8]) -> (r: Self)
        ensures
            r@.0 == secret@,
            r@.2 == 0,
    {
        Self::from_time(secret, unix_now())
    }

    /// The next secret at the Unix time `epoch`: the counter starts again at
    /// zero when the period changes, and counts up within a period.
    pub fn secret_at(&mut self, epoch: i64) -> (r: Vec<u8>)
        requires
            old(self)@.2 < usize::MAX,
        ensures
            ({
                let used = if period_of(epoch) != old(self)@.1 {
                    0nat
                } else {
                    old(self)@.2
                };
                &&& r@ == rolling_secret(old(self)@.0, period_of(epoch), used)
                &&& final(self)@ == (old(self)@.0, period_of(epoch), used + 1)
            }),
    {
        let time = period(epoch);
        if time != self.used_time {
            self.counter = 0;
            self.used_time = time;
        }
        let mut r = copy_bytes(self.secret.as_slice());
        r.push(45u8);
        push_signed_decimal(&mut r, time);
        r.push(45u8);
        push_decimal(&mut r, self.counter as u64);
        assert(r@ =~= rolling_secret(self.secret@, time as int, self.counter as nat));
        self.counter = self.counter + 1;
        r
    }

    /// How many secrets were handed out within the period last used.
    pub fn counter(&self) -> (r: usize)
        ensures
            r == self@.2,
    {
        self.counter
    }

    /// The next secret, at the current time.
    pub fn secret(&mut self) -> (r: Vec<u8>)
        requires
            old(self)@.2 < usize::MAX,
        ensures
            exists|epoch: i64|
                #![trigger period_of(epoch)]
                {
                let used = if period_of(epoch) != old(self)@.1 {
                    0nat
                } else {
                    old(self)@.2
                };
                &&& r@ == rolling_secret(old(self)@.0, period_of(epoch), used)
                &&& final(self)@ == (old(self)@.0, period_of(epoch), used + 1)
            },
    {
        let epoch = unix_now();
        self.secret_at(epoch)
    }

    /// The current rendezvous period.
    pub fn get_time() -> (r: i64)
        ensures
            exists|epoch: i64| r == period_of(epoch),
    {
        period(unix_now())
    }
}

} // verus!
