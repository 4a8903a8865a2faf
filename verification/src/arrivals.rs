//! How results reach the viewer while the scan goes on.
use crate::merge::{merge_results, merged_list, separate};
use crate::result::{found_in, ScanResult};
use crate::sort::{stable_sort, stable_sort_of};
use crate::tui::InteractiveApp;
use vstd::prelude::*;

verus! {

/// How many results may have been taken when one more is taken before the screen
/// is drawn.
pub const MOST_AT_ONCE: usize = 500;

/// What a look at the queue of results gave.
#[derive(Debug)]
pub enum Poll {
    /// Nothing is there yet.
    Empty,
    /// Nothing will come any more.
    Closed,
    Item(ScanResult),
}

/// Whether another result is taken when `received` have been taken.
pub open spec fn takes_another(received: nat) -> bool {
    received <= MOST_AT_ONCE
}

/// Law: no more than 501 results are taken before the screen is drawn.
pub proof fn law_screen_is_drawn_in_between(received: nat)
    ensures
        takes_another(received) <==> received + 1 <= 501,
{
}

/// Whether another result is taken from the queue before the screen is drawn.
pub fn takes_more(received: usize) -> (r: bool)
    ensures
        r == takes_another(received as nat),
{
    received <= MOST_AT_ONCE
}

/// Whether the viewer is done after a look at the queue that came when `received`
/// results had just been taken.
pub open spec fn done_after(app: InteractiveApp, received: nat, poll: Option<Poll>) -> bool {
    ||| app.scanning_done
    ||| app.total_regions == 0
    ||| poll matches Some(p) && (p is Closed || p is Empty && received == 0)
}

/// Whether every region has been counted, and there is one.
pub open spec fn all_counted(app: InteractiveApp, completed: nat) -> bool {
    completed >= app.total_regions && app.total_regions != 0
}

/// Law: the end is expected when as many regions are completed as there are, not before, and not
/// where there is none.
pub proof fn law_end_is_expected(app: InteractiveApp, completed: nat)
    ensures
        app.total_regions > 0 ==> all_counted(app, app.total_regions as nat),
        completed < app.total_regions ==> !all_counted(app, completed),
        all_counted(app, completed) ==> all_counted(app, completed + 1),
        app.total_regions == 0 ==> !all_counted(app, completed),
{
}

impl InteractiveApp {
    /// Takes a batch of results into the list.
    pub fn receive(&mut self, batch: Vec<ScanResult>)
        ensures
            *final(self) == (InteractiveApp { results: final(self).results, ..*old(self) }),
            batch@.len() == 0 ==> final(self).results == old(self).results,
            batch@.len() > 0 ==> merged_list(final(self).results@, old(self).results@ + batch@)
                && separate(found_in(final(self).results@)),
    {
        if batch.len() > 0 {
            let mut more = batch;
            let mut all: Vec<ScanResult> = Vec::new();
            std::mem::swap(&mut all, &mut self.results);
            all.append(&mut more);
            self.results = merge_results(all);
        }
    }

    /// Whether the end of the scan is near: every region has been counted.
    pub fn expects_end(&self, completed: usize) -> (r: bool)
        ensures
            r == all_counted(*self, completed as nat),
    {
        completed >= self.total_regions && self.total_regions != 0
    }

    /// Settles whether the scan is done, given how many results were just taken and
    /// what a further look at the queue gave, if the end was expected.
    pub fn settle(&mut self, received: usize, poll: Option<Poll>)
        ensures
            *final(self) == (InteractiveApp {
                results: final(self).results,
                scanning_done: done_after(*old(self), received as nat, poll),
                ..*old(self)
            }),
            match poll {
                Some(Poll::Item(r)) => stable_sort_of(
                    final(self).results@,
                    old(self).results@.push(r),
                ),
                _ => final(self).results == old(self).results,
            },
    {
        match poll {
            Some(Poll::Closed) => {
                self.scanning_done = true;
            },
            Some(Poll::Empty) => {
                if received == 0 {
                    self.scanning_done = true;
                }
            },
            Some(Poll::Item(r)) => {
                let mut all: Vec<ScanResult> = Vec::new();
                std::mem::swap(&mut all, &mut self.results);
                all.push(r);
                self.results = stable_sort(all);
            },
            None => {},
        }
        if self.total_regions == 0 {
            self.scanning_done = true;
        }
    }
}

/// Law: the scan is done if it was, if there is nothing to scan, if nothing will come any more,
/// or if nothing came although the end was expected; else it goes on.
pub proof fn law_when_the_scan_is_done(app: InteractiveApp, received: nat, r: ScanResult)
    ensures
        app.scanning_done || app.total_regions == 0 ==> done_after(app, received, None),
        done_after(app, received, Some(Poll::Closed)),
        done_after(app, 0, Some(Poll::Empty)),
        !app.scanning_done && app.total_regions > 0 ==> !done_after(app, received, None)
            && !done_after(app, received, Some(Poll::Item(r))) && (received > 0 ==> !done_after(
            app,
            received,
            Some(Poll::Empty),
        )),
{
}

} // verus!
