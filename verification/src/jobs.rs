use vstd::prelude::*;
use crate::model::Order;

verus! {

/// The two background jobs of the program, fetching and processing orders,
/// and what they have delivered so far.
pub struct Jobs {
    pub loading_fetch: bool,
    pub loading_process: bool,
    pub orders: Option<Vec<Order>>,
    pub processed_orders: Option<Vec<Order>>,
}

/// What happens to the jobs: the user asks for a job, or a job reports back.
pub enum JobEvent {
    /// The user asks to fetch the orders.
    FetchClicked,
    /// The user asks to filter and process the fetched orders.
    ProcessClicked,
    /// The fetch job finished, with the orders or an error.
    FetchFinished(Result<Vec<Order>, String>),
    /// The fetch job went away without an answer.
    FetchDisconnected,
    /// The processing job finished, with the processed orders or an error.
    ProcessFinished(Result<Vec<Order>, String>),
    /// The processing job went away without an answer.
    ProcessDisconnected,
}

/// What the program has to start after an event.
#[derive(PartialEq, Eq, Structural, Debug, Clone, Copy)]
pub enum JobAction {
    Nothing,
    StartFetch,
    StartProcess,
}

/// How many orders have been fetched (none before the first fetch).
pub open spec fn fetched_count(orders: Option<Vec<Order>>) -> nat {
    match orders {
        Some(v) => v@.len(),
        None => 0,
    }
}

impl Jobs {
    /// No job running and nothing delivered yet.
    pub fn new() -> (j: Jobs)
        ensures
            !j.loading_fetch,
            !j.loading_process,
            j.orders is None,
            j.processed_orders is None,
    {
        Jobs { loading_fetch: false, loading_process: false, orders: None, processed_orders: None }
    }

    /// A fetch may start when none is running.
    pub fn can_fetch(&self) -> (r: bool)
        ensures
            r == !self.loading_fetch,
    {
        !self.loading_fetch
    }

    /// Processing may start when none is running and some orders were fetched.
    pub fn can_process(&self) -> (r: bool)
        ensures
            r == (!self.loading_process && fetched_count(self.orders) > 0),
    {
        let count = match &self.orders {
            Some(v) => v.len(),
            None => 0,
        };
        !self.loading_process && count > 0
    }

    /// Takes one event into account and says which job to start.
    pub fn step(&mut self, event: JobEvent) -> (action: JobAction)
        ensures
            match event {
                JobEvent::FetchClicked => if !old(self).loading_fetch {
                    &&& action == JobAction::StartFetch
                    &&& *final(self) == (Jobs { loading_fetch: true, ..*old(self) })
                } else {
                    &&& action == JobAction::Nothing
                    &&& *final(self) == *old(self)
                },
                JobEvent::ProcessClicked => if !old(self).loading_process && fetched_count(
                    old(self).orders,
                ) > 0 {
                    &&& action == JobAction::StartProcess
                    &&& *final(self) == (Jobs { loading_process: true, ..*old(self) })
                } else {
                    &&& action == JobAction::Nothing
                    &&& *final(self) == *old(self)
                },
                JobEvent::FetchFinished(result) => {
                    &&& action == JobAction::Nothing
                    &&& *final(self) == (Jobs {
                        loading_fetch: false,
                        orders: match result {
                            Ok(v) => Some(v),
                            Err(_) => None,
                        },
                        ..*old(self)
                    })
                },
                JobEvent::FetchDisconnected => {
                    &&& action == JobAction::Nothing
                    &&& *final(self) == (Jobs { loading_fetch: false, ..*old(self) })
                },
                JobEvent::ProcessFinished(result) => {
                    &&& action == JobAction::Nothing
                    &&& *final(self) == (Jobs {
                        loading_process: false,
                        processed_orders: match result {
                            Ok(v) => Some(v),
                            Err(_) => None,
                        },
                        ..*old(self)
                    })
                },
                JobEvent::ProcessDisconnected => {
                    &&& action == JobAction::Nothing
                    &&& *final(self) == (Jobs { loading_process: false, ..*old(self) })
                },
            },
    {
        match event {
            JobEvent::FetchClicked => {
                if self.can_fetch() {
                    self.loading_fetch = true;
                    JobAction::StartFetch
                } else {
                    JobAction::Nothing
                }
            },
            JobEvent::ProcessClicked => {
                if self.can_process() {
                    self.loading_process = true;
                    JobAction::StartProcess
                } else {
                    JobAction::Nothing
                }
            },
            JobEvent::FetchFinished(result) => {
                self.orders = match result {
                    Ok(v) => Some(v),
                    Err(_) => None,
                };
                self.loading_fetch = false;
                JobAction::Nothing
            },
            JobEvent::FetchDisconnected => {
                self.loading_fetch = false;
                JobAction::Nothing
            },
            JobEvent::ProcessFinished(result) => {
                self.processed_orders = match result {
                    Ok(v) => Some(v),
                    Err(_) => None,
                };
                self.loading_process = false;
                JobAction::Nothing
            },
            JobEvent::ProcessDisconnected => {
                self.loading_process = false;
                JobAction::Nothing
            },
        }
    }
}

} // verus!
