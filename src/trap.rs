//! Signal handling settings: the internal `SIGCHLD` handler.
use vstd::prelude::*;

verus! {

/// Signal.
#[derive(Clone, Copy, Debug, PartialEq, Eq, Hash, Structural)]
pub enum Signal {
    /// `SIGHUP`
    Hup,
    /// `SIGINT`
    Int,
    /// `SIGQUIT`
    Quit,
    /// `SIGTERM`
    Term,
    /// `SIGCHLD`
    Chld,
    /// `SIGUSR1`
    Usr1,
    /// `SIGUSR2`
    Usr2,
}

/// How a signal is handled.
#[derive(Clone, Copy, Debug, Default, PartialEq, Eq, Hash, Structural)]
pub enum SignalHandling {
    /// The default action of the signal.
    #[default]
    Default,
    /// The signal is ignored.
    Ignore,
    /// The signal is caught.
    Catch,
}

/// Error number of a failed system call.
#[derive(Clone, Copy, Debug, PartialEq, Eq, Hash, Structural)]
pub struct Errno(pub i32);

/// System interface for signal handling configuration.
pub trait SignalSystem {
    /// Sets how a signal is handled and returns how it was handled before.
    fn set_signal_handling(&mut self, signal: Signal, handling: SignalHandling) -> Result<
        SignalHandling,
        Errno,
    >;
}

/// Signal handling settings: remembers how `SIGCHLD` was handled before the
/// internal handler was installed.
#[derive(Clone, Debug, Default, PartialEq, Eq)]
pub struct TrapSet {
    initial_sigchld: Option<SignalHandling>,
}

impl TrapSet {
    /// How `SIGCHLD` was handled before the internal handler was first
    /// installed, if it was.
    pub closed spec fn initial(&self) -> Option<SignalHandling> {
        self.initial_sigchld
    }

    /// Creates a set in which no internal handler was installed.
    pub fn new() -> (r: TrapSet)
        ensures
            r.initial() is None,
    {
        TrapSet { initial_sigchld: None }
    }

    /// Installs the internal handler for `SIGCHLD`.
    ///
    /// The handling before the first installation is remembered, so that a
    /// second call keeps it.
    pub fn enable_sigchld_handler<S: SignalSystem>(&mut self, system: &mut S) -> (r: Result<(), Errno>)
        ensures
            r is Err ==> final(self).initial() == old(self).initial(),
            r is Ok ==> final(self).initial() is Some,
            old(self).initial() is Some ==> final(self).initial() == old(self).initial(),
    {
        let previous = system.set_signal_handling(Signal::Chld, SignalHandling::Catch)?;
        if self.initial_sigchld.is_none() {
            self.initial_sigchld = Some(previous);
        }
        Ok(())
    }

    /// Uninstalls the internal handlers, restoring how `SIGCHLD` was handled
    /// before; does nothing where no handler was installed.
    pub fn disable_internal_handlers<S: SignalSystem>(&mut self, system: &mut S) -> (r: Result<(), Errno>)
        ensures
            final(self).initial() == old(self).initial(),
            old(self).initial() is None ==> r is Ok,
    {
        match self.initial_sigchld {
            Some(initial) => match system.set_signal_handling(Signal::Chld, initial) {
                Ok(_) => Ok(()),
                Err(e) => Err(e),
            },
            None => Ok(()),
        }
    }
}

} // verus!
