//! The loading indicator's clock.
use vstd::prelude::*;

verus! {

#[verifier::external_type_specification]
#[verifier::external_body]
pub struct ExInstant(std::time::Instant);

/// Relies on std::time::Instant::now; the moment it reports depends on
/// the clock, so nothing is promised of it.
#[verifier::external_body]
fn instant_now() -> std::time::Instant {
    std::time::Instant::now()
}

/// Relies on std::time::Instant::elapsed; the span depends on the clock.
#[verifier::external_body]
fn instant_elapsed(at: &std::time::Instant) -> core::time::Duration {
    at.elapsed()
}

/// Relies on core::time::Duration::as_secs; the whole seconds of a span.
#[verifier::external_body]
fn duration_secs(d: &core::time::Duration) -> u64 {
    d.as_secs()
}

/// A loading indicator that remembers when the wait began.
pub struct Loading(std::time::Instant);

/// The animated text: the word and up to three trailing dots.
pub open spec fn loading_text_for(dots: int) -> Seq<char> {
    seq!['L', 'o', 'a', 'd', 'i', 'n', 'g'] + Seq::new(dots as nat, |i: int| '.')
}

impl Loading {
    /// Starts the clock for a fresh wait.
    pub fn new() -> Loading {
        Loading(instant_now())
    }

    /// The indicator text for the current moment: the trailing dots cycle
    /// with the seconds of the wait.
    pub fn loading_text(&self) -> (r: String)
        ensures
            exists|k: int| 0 <= k <= 3 && r@ == loading_text_for(k),
    {
        let secs = duration_secs(&instant_elapsed(&self.0));
        let dots = (secs % 4) as usize;
        let mut s = "Loading".to_owned();
        let mut i: usize = 0;
        proof {
            reveal_strlit("Loading");
            assert(s@ =~= loading_text_for(0));
        }
        while i < dots
            invariant
                0 <= i <= dots,
                dots <= 3,
                s@ =~= loading_text_for(i as int),
            decreases dots - i,
        {
            s.append(".");
            proof {
                reveal_strlit(".");
                assert(s@ =~= loading_text_for(i + 1));
            }
            i = i + 1;
        }
        proof {
            assert(r_matches_some_k(s@, dots as int));
        }
        s
    }
}

spec fn r_matches_some_k(s: Seq<char>, k: int) -> bool {
    s == loading_text_for(k)
}

} // verus!
