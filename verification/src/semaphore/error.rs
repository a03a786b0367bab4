//! Contains [InsufficientPermitsError].
use vstd::prelude::*;
use vstd::string::StringExecFns;

verus! {

/// The digit that stands for `d`.
pub open spec fn digit(d: nat) -> char {
    seq!['0', '1', '2', '3', '4', '5', '6', '7', '8', '9'][d as int]
}

/// A number in decimal notation, without leading zeros.
pub open spec fn decimal(n: nat) -> Seq<char>
    decreases n,
{
    if n < 10 {
        seq![digit(n)]
    } else {
        decimal(n / 10).push(digit(n % 10))
    }
}

/// What is written of a number are its digits: reading them, from the first to the last, gives the
/// number again, and none of them is a leading zero.
pub proof fn law_decimal(n: nat)
    ensures
        decimal(n).fold_left(
            0int,
            |read: int, c: char| 10 * read + (c as int - '0' as int),
        ) == n,
        forall|i: int| 0 <= i < decimal(n).len() ==> '0' <= (#[trigger] decimal(n)[i]) <= '9',
        decimal(n).len() > 0,
        n > 0 ==> decimal(n)[0] != '0',
        n == 0 ==> decimal(n).len() == 1,
    decreases n,
{
    reveal(Seq::fold_left);
    let read = |read: int, c: char| 10 * read + (c as int - '0' as int);
    if n < 10 {
        assert(decimal(n).drop_last() =~= Seq::empty());
        assert(Seq::<char>::empty().fold_left(0int, read) == 0);
    } else {
        law_decimal(n / 10);
        assert(decimal(n).drop_last() =~= decimal(n / 10));
        assert(decimal(n)[0] == decimal(n / 10)[0]);
    }
}

/// Writes a digit.
fn write_digit(d: usize) -> (text: &'static str)
    requires
        d < 10,
    ensures
        text@ == seq![digit(d as nat)],
{
    proof {
        reveal_strlit("0");
        reveal_strlit("1");
        reveal_strlit("2");
        reveal_strlit("3");
        reveal_strlit("4");
        reveal_strlit("5");
        reveal_strlit("6");
        reveal_strlit("7");
        reveal_strlit("8");
        reveal_strlit("9");
    }
    let text = match d {
        0 => "0",
        1 => "1",
        2 => "2",
        3 => "3",
        4 => "4",
        5 => "5",
        6 => "6",
        7 => "7",
        8 => "8",
        _ => "9",
    };
    assert(text@ =~= seq![digit(d as nat)]);
    text
}

/// Writes a number in decimal notation.
fn write_decimal(n: usize) -> (text: String)
    ensures
        text@ == decimal(n as nat),
    decreases n,
{
    if n < 10 {
        return write_digit(n).to_owned();
    }
    let mut text = write_decimal(n / 10);
    text.append(write_digit(n % 10));
    assert(text@ =~= decimal((n / 10) as nat).push(digit((n % 10) as nat)));
    text
}

/// Error returned when there aren't sufficient permits to perform an operation.
///
/// - The [Semaphore](crate::semaphore::Semaphore) lacks sufficient permits when using
///   [acquire_within_total](crate::semaphore::Semaphore::acquire_within_total).
///
/// - More permits were requested via [split](crate::semaphore::SemaphorePermit::split) than the
///   permit can spare.
///
/// Note that the total is not known if the requester was turned away after being queued.
#[derive(Debug, Clone, Copy, PartialEq, Eq)]
pub struct InsufficientPermitsError {
    // `usize::MAX` stands for an unknown total. As a known one it could not be exceeded by a
    // request.
    total: usize,
    requested: usize,
}

impl InsufficientPermitsError {
    /// The total amount of permits which there were, if known.
    pub closed spec fn known_total(&self) -> Option<usize> {
        if self.total == usize::MAX {
            None
        } else {
            Some(self.total)
        }
    }

    /// The amount of permits requested.
    pub closed spec fn wanted(&self) -> usize {
        self.requested
    }

    pub(crate) fn new(total: usize, requested: usize) -> (error: Self)
        ensures
            error.known_total() == (if total == usize::MAX {
                None
            } else {
                Some(total)
            }),
            error.wanted() == requested,
    {
        Self { total, requested }
    }

    /// The total amount of permits which were available when the waiter was rejected (or None if
    /// that isn't known).
    pub fn total(&self) -> (total: Option<usize>)
        ensures
            total == self.known_total(),
    {
        if self.total != usize::MAX {
            Some(self.total)
        } else {
            None
        }
    }

    /// The amount of permits requested.
    pub fn requested(&self) -> (requested: usize)
        ensures
            requested == self.wanted(),
    {
        self.requested
    }

    /// What went wrong, in words.
    pub fn message(&self) -> (message: String)
        ensures
            message@ == (match self.known_total() {
                Some(total) => "insufficient total permits: have "@ + decimal(total as nat)
                    + " want "@ + decimal(self.wanted() as nat),
                None => "semaphoer lacks sufficient permits: want "@ + decimal(
                    self.wanted() as nat,
                ),
            }),
    {
        match self.total() {
            Some(total) => {
                let mut message = "insufficient total permits: have ".to_owned();
                message.append(write_decimal(total).as_str());
                message.append(" want ");
                message.append(write_decimal(self.requested).as_str());
                message
            },
            None => {
                let mut message = "semaphoer lacks sufficient permits: want ".to_owned();
                message.append(write_decimal(self.requested).as_str());
                message
            },
        }
    }
}

} // verus!
