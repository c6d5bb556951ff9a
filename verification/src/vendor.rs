//! An observer of one vendor's platform, known by its configuration.

use vstd::prelude::*;
use std::sync::mpsc::Sender;

verus! {

#[verifier::external_type_specification]
#[verifier::external_body]
#[verifier::reject_recursive_types(T)]
pub struct ExSender<T>(Sender<T>);

/// The configuration of an observer, as text.
pub type Config = String;

/// An observer of one platform.
pub struct Observer {
    uuid: String,
    config: Config,
}

impl Observer {
    /// The identifier of the observer.
    pub closed spec fn uuid(&self) -> Seq<char> {
        self.uuid@
    }

    /// The configuration that the observer was made with.
    pub closed spec fn config(&self) -> Seq<char> {
        self.config@
    }

    /// An observer with the given configuration and no identifier yet.
    pub fn new(config: Config) -> (r: Observer)
        ensures
            r.config() == config@,
            r.uuid() == Seq::<char>::empty(),
    {
        Observer { uuid: String::new(), config }
    }

    /// Polls the platform on behalf of `sync`. Nothing is polled yet: the
    /// channel is dropped unused.
    pub fn poll_worker(&self, sync: Sender<()>) {
    }
}

} // verus!
