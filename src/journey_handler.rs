use vstd::prelude::*;

use crate::journey_repository::PersistJourney;

verus! {

/// The id that stands for "no next deal": the journey has gone past the last deal.
pub const NO_NEXT_GAME: u16 = 64001;

/// The index of the first `x` in `s`, or `s.len()` when there is none.
pub open spec fn first_index_of(s: Seq<u16>, x: u16) -> int
    decreases s.len(),
{
    if s.len() == 0 {
        0
    } else if s[0] == x {
        0
    } else {
        1 + first_index_of(s.drop_first(), x)
    }
}

/// The journey after deal `id` was won, or `None` when nothing changes: the next
/// deal advances when it is the one won, else the first occurrence of `id` leaves
/// the skipped deals.
pub open spec fn spec_on_won(next: u16, skipped: Seq<u16>, id: u16) -> Option<(u16, Seq<u16>)> {
    if id == next {
        if next < 0xFFFF {
            Some(((next + 1) as u16, skipped))
        } else {
            None
        }
    } else if skipped.contains(id) {
        Some((next, skipped.remove(first_index_of(skipped, id))))
    } else {
        None
    }
}

/// The journey after the next deal is skipped, or `None` when there is no next deal.
pub open spec fn spec_skip(next: u16, skipped: Seq<u16>) -> Option<(u16, Seq<u16>)> {
    if next <= 64000 {
        Some(((next + 1) as u16, skipped.push(next)))
    } else {
        None
    }
}

proof fn lemma_first_index_of(s: Seq<u16>, x: u16)
    ensures
        0 <= first_index_of(s, x) <= s.len(),
        s.contains(x) ==> first_index_of(s, x) < s.len() && s[first_index_of(s, x)] == x,
        forall|j: int| 0 <= j < first_index_of(s, x) ==> s[j] != x,
    decreases s.len(),
{
    if s.len() > 0 && s[0] != x {
        lemma_first_index_of(s.drop_first(), x);
        if s.contains(x) {
            let k = choose|k: int| 0 <= k < s.len() && s[k] == x;
            assert(s.drop_first()[k - 1] == x);
        }
        assert forall|j: int| 0 <= j < first_index_of(s, x) implies s[j] != x by {
            if j > 0 {
                assert(s[j] == s.drop_first()[j - 1]);
            }
        }
    }
}

/// Returns a copy of the deal ids.
fn copy_ids(v: &Vec<u16>) -> (r: Vec<u16>)
    ensures
        r@ == v@,
{
    let r = v.clone();
    assert(r@ =~= v@);
    r
}

/// Decides what winning deal `id` does to the journey `(next, skipped)`: the new
/// journey to store, or `None` when nothing changes.
pub fn on_won(next: u16, skipped: &Vec<u16>, id: u16) -> (r: Option<(u16, Vec<u16>)>)
    ensures
        r is Some <==> spec_on_won(next, skipped@, id) is Some,
        r is Some ==> (r->Some_0.0, r->Some_0.1@) == spec_on_won(next, skipped@, id)->Some_0,
{
    if id == next {
        if next < 0xFFFF {
            return Some((next + 1, copy_ids(skipped)));
        }
        return None;
    }
    let mut i: usize = 0;
    while i < skipped.len()
        invariant
            i <= skipped@.len(),
            id != next,
            forall|j: int| 0 <= j < i ==> skipped@[j] != id,
        decreases skipped@.len() - i,
    {
        if skipped[i] == id {
            let mut rest = copy_ids(skipped);
            rest.remove(i);
            proof {
                lemma_first_index_of(skipped@, id);
                assert(skipped@.contains(id));
                if first_index_of(skipped@, id) < i {
                    assert(skipped@[first_index_of(skipped@, id)] != id);
                }
                assert(first_index_of(skipped@, id) == i);
            }
            return Some((next, rest));
        }
        i = i + 1;
    }
    None
}

/// Decides what skipping the next deal does to the journey `(next, skipped)`.
pub fn skip(next: u16, skipped: &Vec<u16>) -> (r: Option<(u16, Vec<u16>)>)
    ensures
        r is Some <==> spec_skip(next, skipped@) is Some,
        r is Some ==> (r->Some_0.0, r->Some_0.1@) == spec_skip(next, skipped@)->Some_0,
{
    if next > 64000 {
        return None;
    }
    let mut s = copy_ids(skipped);
    s.push(next);
    Some((next + 1, s))
}

/// Winning a deal takes at most one deal out of the journey: either the next
/// deal advances by one and the skipped deals stay, or the first occurrence of
/// the won deal leaves the skipped deals and the next deal stays. Skipping moves
/// the next deal to the end of the skipped deals and advances by one, or does
/// nothing once there is no next deal.
pub proof fn lemma_journey_conservation(next: u16, skipped: Seq<u16>, id: u16)
    ensures
        match spec_on_won(next, skipped, id) {
            None => true,
            Some((n, s)) => (n == next + 1 && s == skipped) || (n == next && exists|k: int|
                0 <= k < skipped.len() && skipped[k] == id && s == skipped.remove(k)),
        },
        match spec_skip(next, skipped) {
            None => next > 64000,
            Some((n, s)) => n == next + 1 && s == skipped.push(next),
        },
{
    lemma_first_index_of(skipped, id);
    if id != next && skipped.contains(id) {
        let k = first_index_of(skipped, id);
        assert(0 <= k < skipped.len() && skipped[k] == id);
    }
}

/// Tracks the journey through the numbered deals: the next deal to play and the
/// deals skipped so far, kept in a repository.
pub struct JourneyHandler<T: PersistJourney> {
    next: u16,
    repository: T,
    skipped: Vec<u16>,
}

impl<T: PersistJourney> JourneyHandler<T> {
    /// The journey as `(next, skipped)`.
    pub closed spec fn view(&self) -> (u16, Seq<u16>) {
        (self.next, self.skipped@)
    }

    /// Creates a journey handler with the journey that the repository holds.
    pub fn new(repository: T) -> (r: JourneyHandler<T>) {
        let data = repository.read();
        JourneyHandler::with_journey(repository, data.0, data.1)
    }

    /// Creates a journey handler with the given journey.
    pub fn with_journey(repository: T, next: u16, skipped: Vec<u16>) -> (r: JourneyHandler<T>)
        ensures
            r.view() == (next, skipped@),
    {
        JourneyHandler { next, repository, skipped }
    }

    /// Returns the next deal and the skipped deals.
    pub fn next_game_ids(&self) -> (r: (u16, Vec<u16>))
        ensures
            (r.0, r.1@) == self.view(),
    {
        (self.next, copy_ids(&self.skipped))
    }

    /// Records that deal `id` was won, and stores the journey when it changed.
    pub fn receive_notification_game_won(&mut self, id: u16)
        ensures
            final(self).view() == match spec_on_won(old(self).view().0, old(self).view().1, id) {
                Some(j) => j,
                None => old(self).view(),
            },
    {
        if let Some((next, skipped)) = on_won(self.next, &self.skipped, id) {
            self.next = next;
            self.skipped = skipped;
            self.persist();
        }
    }

    /// Skips the next deal: it joins the skipped deals and the deal after it
    /// becomes the next. Nothing happens when there is no next deal.
    pub fn skip_next_game(&mut self)
        ensures
            final(self).view() == match spec_skip(old(self).view().0, old(self).view().1) {
                Some(j) => j,
                None => old(self).view(),
            },
    {
        if let Some((next, skipped)) = skip(self.next, &self.skipped) {
            self.next = next;
            self.skipped = skipped;
            self.persist();
        }
    }

    /// Stores the journey in the repository.
    fn persist(&self) {
        self.repository.write(self.next, copy_ids(&self.skipped));
    }
}

} // verus!
