//! The ticket lock: two counters, no nodes.
//!
//! `next` is the ticket that the next arrival will draw, `current` the ticket
//! that may proceed. Both only ever grow by one and wrap around at the end of
//! `usize`; they are compared for equality only. The tickets that were drawn
//! and not yet released are `current`, `current + 1`, ... up to `next`
//! exclusive: that is the lock's line.
//!
//! Waiting is the caller's business: draw a ticket with `take_ticket`, and
//! ask `is_granted` until it says yes. `lock` does both for a caller who
//! finds the lock free.

use vstd::prelude::*;
use crate::fair::Event;
use crate::fair::granted;
use crate::fair::step;

verus! {

/// The lock: the ticket being served and the next ticket to hand out.
pub struct TicketLock {
    current: usize,
    next: usize,
}

/// The number of distinct tickets.
pub open spec fn tickets() -> int {
    usize::MAX + 1
}

/// The ticket `steps` draws after `from`.
pub open spec fn ticket_after(from: usize, steps: int) -> usize {
    ((from + steps) % tickets()) as usize
}

impl TicketLock {
    /// The ticket that may proceed.
    pub closed spec fn serving(&self) -> usize {
        self.current
    }

    /// The ticket that the next arrival draws.
    pub closed spec fn upcoming(&self) -> usize {
        self.next
    }

    /// How many tickets are drawn and not released.
    pub open spec fn outstanding(&self) -> int {
        (self.upcoming() - self.serving()) % tickets()
    }

    /// The line: the outstanding tickets, in the order in which they were
    /// drawn.
    pub open spec fn view(&self) -> Seq<usize> {
        Seq::new(self.outstanding() as nat, |k: int| ticket_after(self.serving(), k))
    }

    /// What holds of every ticket lock: the line counts the outstanding
    /// tickets, starts with the ticket being served, and holds no ticket
    /// twice.
    pub proof fn lemma_line(&self)
        ensures
            0 <= self.outstanding() < tickets(),
            self@.len() == self.outstanding(),
            self@.len() > 0 ==> self@[0] == self.serving(),
            self@.no_duplicates(),
            self@.len() == 0 <==> self.serving() == self.upcoming(),
            ticket_after(self.serving(), self.outstanding()) == self.upcoming(),
    {
        let m = tickets();
        let c = self.serving() as int;
        let n = self.upcoming() as int;
        assert(0 <= (n - c) % m < m);
        assert(c % m == c) by {
            vstd::arithmetic::div_mod::lemma_small_mod(c as nat, m as nat);
        }
        assert forall|i: int, j: int| 0 <= i < self@.len() && 0 <= j < self@.len() && i != j implies self@[i]
            != self@[j] by {
            lemma_tickets_differ(self.serving(), i, j);
        }
        if n >= c {
            vstd::arithmetic::div_mod::lemma_small_mod((n - c) as nat, m as nat);
            vstd::arithmetic::div_mod::lemma_small_mod(n as nat, m as nat);
        } else {
            assert((n - c) % m == n - c + m) by {
                vstd::arithmetic::div_mod::lemma_mod_add_multiples_vanish(n - c, m);
                vstd::arithmetic::div_mod::lemma_small_mod((n - c + m) as nat, m as nat);
            }
            assert((c + (n - c + m)) % m == n) by {
                vstd::arithmetic::div_mod::lemma_mod_add_multiples_vanish(n, m);
                vstd::arithmetic::div_mod::lemma_small_mod(n as nat, m as nat);
            }
        }
    }

    /// A lock that nobody holds or waits for.
    pub fn new() -> (l: Self)
        ensures
            l@ == Seq::<usize>::empty(),
            l.serving() == 0,
            l.upcoming() == 0,
    {
        let l = Self { current: 0, next: 0 };
        proof {
            l.lemma_line();
            assert(l@ =~= Seq::<usize>::empty());
        }
        l
    }

    /// A lock that nobody holds or waits for, whose first ticket is `first`.
    /// Where the counters start makes no difference to the lock.
    pub fn starting_at(first: usize) -> (l: Self)
        ensures
            l@ == Seq::<usize>::empty(),
            l.serving() == first,
            l.upcoming() == first,
    {
        let l = Self { current: first, next: first };
        proof {
            l.lemma_line();
            assert(l@ =~= Seq::<usize>::empty());
        }
        l
    }

    /// Draws the next ticket: one fetch-and-increment of `next`.
    ///
    /// The ticket joins the back of the line. The line must have room: with
    /// every ticket outstanding, the next draw would repeat one.
    pub fn take_ticket(&mut self) -> (ticket: usize)
        requires
            old(self)@.len() < usize::MAX,
        ensures
            ticket == old(self).upcoming(),
            final(self).serving() == old(self).serving(),
            final(self).upcoming() == ticket_after(ticket, 1),
            !old(self)@.contains(ticket),
            final(self)@ == old(self)@.push(ticket),
            final(self)@ == step(old(self)@, Event::Arrive(ticket)),
    {
        let ticket = self.next;
        self.next = ticket.wrapping_add(1);
        proof {
            let m = tickets();
            let c = self.serving() as int;
            old(self).lemma_line();
            self.lemma_line();
            let k = old(self).outstanding();
            assert(self.upcoming() == ticket_after(ticket, 1)) by {
                if ticket < usize::MAX {
                    vstd::arithmetic::div_mod::lemma_small_mod((ticket + 1) as nat, m as nat);
                } else {
                    vstd::arithmetic::div_mod::lemma_mod_self_0(m);
                }
            }
            // the new count is the old count plus one
            assert(self.outstanding() == k + 1) by {
                let n0 = ticket as int;
                let n1 = self.upcoming() as int;
                assert(n1 == n0 + 1 || n1 == n0 + 1 - m);
                assert((n1 - c) % m == (n0 + 1 - c) % m) by {
                    if n1 == n0 + 1 - m {
                        vstd::arithmetic::div_mod::lemma_mod_add_multiples_vanish(n1 - c, m);
                    }
                }
                lemma_count_up(n0 - c, m);
            }
            assert(self@ =~= old(self)@.push(ticket));
            if old(self)@.contains(ticket) {
                let i = old(self)@.index_of(ticket);
                assert(self@[i] == ticket);
                assert(self@[k] == ticket);
            }
        }
        ticket
    }

    /// How many tickets are drawn and not released: the length of the line.
    pub fn waiting(&self) -> (n: usize)
        ensures
            n == self@.len(),
    {
        proof {
            self.lemma_line();
            let m = tickets();
            let c = self.serving() as int;
            let x = self.upcoming() as int;
            if x >= c {
                vstd::arithmetic::div_mod::lemma_small_mod((x - c) as nat, m as nat);
            } else {
                vstd::arithmetic::div_mod::lemma_mod_add_multiples_vanish(x - c, m);
                vstd::arithmetic::div_mod::lemma_small_mod((x - c + m) as nat, m as nat);
            }
        }
        self.next.wrapping_sub(self.current)
    }

    /// Whether `ticket` is the one being served: one load of `current`.
    ///
    /// For a ticket in the line this says whether it is granted the lock.
    pub fn is_granted(&self, ticket: usize) -> (yes: bool)
        ensures
            yes == (self.serving() == ticket),
            self@.contains(ticket) ==> yes == granted(self@, ticket),
    {
        proof {
            self.lemma_line();
            if self@.contains(ticket) && self.serving() == ticket {
                assert(self@[0] == ticket);
            }
            if self@.contains(ticket) && granted(self@, ticket) {
            }
        }
        self.current == ticket
    }

    /// Acquires a free lock: draws a ticket and finds it served at once.
    ///
    /// The returned ticket must be passed to the matching `unlock`.
    pub fn lock(&mut self) -> (ticket: usize)
        requires
            old(self)@.len() == 0,
        ensures
            ticket == old(self).upcoming(),
            final(self)@ == seq![ticket],
            granted(final(self)@, ticket),
    {
        let ticket = self.take_ticket();
        let served = self.is_granted(ticket);
        proof {
            old(self).lemma_line();
            assert(old(self)@.push(ticket) =~= seq![ticket]);
        }
        assert(served);
        ticket
    }

    /// Releases the lock: stores `ticket + 1` in `current`.
    ///
    /// `ticket` must be the one that holds the lock. It leaves the front of
    /// the line, and the ticket drawn after it, if any, is served.
    pub fn unlock(&mut self, ticket: usize)
        requires
            granted(old(self)@, ticket),
        ensures
            final(self).serving() == ticket_after(ticket, 1),
            final(self).upcoming() == old(self).upcoming(),
            final(self)@ == old(self)@.skip(1),
            final(self)@ == step(old(self)@, Event::Leave),
    {
        self.current = ticket.wrapping_add(1);
        proof {
            let m = tickets();
            old(self).lemma_line();
            self.lemma_line();
            let c0 = ticket as int;
            let c1 = self.serving() as int;
            let n = self.upcoming() as int;
            let k = old(self).outstanding();
            assert(self.serving() == ticket_after(ticket, 1)) by {
                if ticket < usize::MAX {
                    vstd::arithmetic::div_mod::lemma_small_mod((ticket + 1) as nat, m as nat);
                } else {
                    vstd::arithmetic::div_mod::lemma_mod_self_0(m);
                }
            }
            assert(self.outstanding() == k - 1) by {
                assert(c1 == c0 + 1 || c1 == c0 + 1 - m);
                assert((n - c1) % m == (n - c0 - 1) % m) by {
                    if c1 == c0 + 1 - m {
                        vstd::arithmetic::div_mod::lemma_mod_sub_multiples_vanish(n - c1, m);
                    }
                }
                lemma_count_up(n - c0 - 1, m);
            }
            assert forall|i: int| 0 <= i < k - 1 implies ticket_after(self.serving(), i) == ticket_after(
                ticket,
                i + 1,
            ) by {
                if c1 == c0 + 1 - m {
                    vstd::arithmetic::div_mod::lemma_mod_add_multiples_vanish(c1 + i, m);
                }
            }
            assert(self@ =~= old(self)@.skip(1));
        }
    }
}

/// Counting one further, modulo `m`, is adding one unless the count was at
/// its last value.
proof fn lemma_count_up(x: int, m: int)
    requires
        m > 0,
    ensures
        (x + 1) % m == (if x % m == m - 1 {
            0
        } else {
            x % m + 1
        }),
{
    vstd::arithmetic::div_mod::lemma_fundamental_div_mod(x, m);
    vstd::arithmetic::div_mod::lemma_mod_bound(x, m);
    let q = x / m;
    let r = x % m;
    assert(x + 1 == q * m + (r + 1)) by (nonlinear_arith)
        requires
            x == m * q + r,
    ;
    if r == m - 1 {
        assert(x + 1 == (q + 1) * m + 0) by (nonlinear_arith)
            requires
                x + 1 == q * m + (r + 1),
                r == m - 1,
        ;
        vstd::arithmetic::div_mod::lemma_fundamental_div_mod_converse(x + 1, m, q + 1, 0);
    } else {
        vstd::arithmetic::div_mod::lemma_fundamental_div_mod_converse(x + 1, m, q, r + 1);
    }
}

/// Fewer than a full round of draws from one ticket give different tickets.
pub proof fn lemma_tickets_differ(from: usize, i: int, j: int)
    requires
        0 <= i < tickets(),
        0 <= j < tickets(),
        i != j,
    ensures
        ticket_after(from, i) != ticket_after(from, j),
{
    let m = tickets();
    let a = from + i;
    let b = from + j;
    vstd::arithmetic::div_mod::lemma_fundamental_div_mod(a, m);
    vstd::arithmetic::div_mod::lemma_fundamental_div_mod(b, m);
    vstd::arithmetic::div_mod::lemma_mod_bound(a, m);
    vstd::arithmetic::div_mod::lemma_mod_bound(b, m);
    if a % m == b % m {
        let qa = a / m;
        let qb = b / m;
        assert(a - b == m * (qa - qb)) by (nonlinear_arith)
            requires
                a == m * qa + a % m,
                b == m * qb + b % m,
                a % m == b % m,
        ;
        assert(-m < a - b < m);
        assert(qa - qb == 0) by (nonlinear_arith)
            requires
                a - b == m * (qa - qb),
                -m < a - b < m,
                m > 0,
        ;
        assert(a - b == 0) by (nonlinear_arith)
            requires
                a - b == m * (qa - qb),
                qa - qb == 0,
        ;
    }
}

} // verus!
