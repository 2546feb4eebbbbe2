use std::collections::HashMap;
use yash::trap::{Errno, Signal, SignalHandling, SignalSystem, TrapSet};

#[derive(Default)]
struct DummySystem(HashMap<Signal, SignalHandling>);

impl SignalSystem for DummySystem {
    fn set_signal_handling(
        &mut self,
        signal: Signal,
        handling: SignalHandling,
    ) -> Result<SignalHandling, Errno> {
        Ok(self
            .0
            .insert(signal, handling)
            .unwrap_or(SignalHandling::Default))
    }
}

struct FailingSystem;

impl SignalSystem for FailingSystem {
    fn set_signal_handling(&mut self, _: Signal, _: SignalHandling) -> Result<SignalHandling, Errno> {
        Err(Errno(1))
    }
}

#[test]
fn enabling_sigchld_handler() {
    let mut system = DummySystem::default();
    let mut trap_set = TrapSet::default();
    trap_set.enable_sigchld_handler(&mut system).unwrap();
    assert_eq!(system.0[&Signal::Chld], SignalHandling::Catch);
}

#[test]
fn disabling_internal_handler_for_initially_defaulted_sigchld() {
    let mut system = DummySystem::default();
    let mut trap_set = TrapSet::default();
    trap_set.enable_sigchld_handler(&mut system).unwrap();
    trap_set.disable_internal_handlers(&mut system).unwrap();
    assert_eq!(system.0[&Signal::Chld], SignalHandling::Default);
}

#[test]
fn disabling_internal_handler_for_initially_ignored_sigchld() {
    let mut system = DummySystem::default();
    system.0.insert(Signal::Chld, SignalHandling::Ignore);
    let mut trap_set = TrapSet::default();
    trap_set.enable_sigchld_handler(&mut system).unwrap();
    trap_set.disable_internal_handlers(&mut system).unwrap();
    assert_eq!(system.0[&Signal::Chld], SignalHandling::Ignore);
}

#[test]
fn disabling_internal_handler_after_enabling_twice() {
    let mut system = DummySystem::default();
    system.0.insert(Signal::Chld, SignalHandling::Ignore);
    let mut trap_set = TrapSet::default();
    trap_set.enable_sigchld_handler(&mut system).unwrap();
    trap_set.enable_sigchld_handler(&mut system).unwrap();
    trap_set.disable_internal_handlers(&mut system).unwrap();
    assert_eq!(system.0[&Signal::Chld], SignalHandling::Ignore);
}

#[test]
fn disabling_internal_handler_without_enabling() {
    let mut system = DummySystem::default();
    system.0.insert(Signal::Chld, SignalHandling::Ignore);
    let mut trap_set = TrapSet::default();
    trap_set.disable_internal_handlers(&mut system).unwrap();
    assert_eq!(system.0[&Signal::Chld], SignalHandling::Ignore);
}

#[test]
fn failed_installation_is_not_remembered() {
    let mut trap_set = TrapSet::new();
    assert_eq!(trap_set.enable_sigchld_handler(&mut FailingSystem), Err(Errno(1)));
    assert_eq!(trap_set, TrapSet::new());
    assert_eq!(trap_set.disable_internal_handlers(&mut FailingSystem), Ok(()));
}
