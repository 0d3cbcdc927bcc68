//! The in-kernel test runner's bookkeeping: test results, the running tally
//! and the exit code reported to QEMU.

use vstd::prelude::*;

verus! {

/// The outcome of one kernel test.
#[derive(Debug, Clone, Copy)]
pub enum TestResult {
    Pass,
    Fail(&'static str),
}

impl TestResult {
    pub fn passed(&self) -> (r: bool)
        ensures
            r == (*self is Pass),
    {
        match self {
            TestResult::Pass => true,
            TestResult::Fail(_) => false,
        }
    }
}

/// Exit codes of QEMU's isa-debug-exit device.
#[derive(Debug, Clone, Copy, PartialEq, Eq, Structural)]
pub enum QemuExitCode {
    Success,
    Failed,
}

impl QemuExitCode {
    /// The value written to the exit device.
    pub fn code(self) -> (r: u32)
        ensures
            r == (if self is Success {
                0x10u32
            } else {
                0x11u32
            }),
    {
        match self {
            QemuExitCode::Success => 0x10,
            QemuExitCode::Failed => 0x11,
        }
    }
}

/// Running counts of the tests that have run.
#[derive(Debug, Clone, Copy, PartialEq, Eq, Structural)]
pub struct TestTally {
    pub total: usize,
    pub passed: usize,
    pub failed: usize,
}

impl TestTally {
    /// Every test has either passed or failed.
    pub open spec fn wf(self) -> bool {
        self.passed + self.failed == self.total
    }

    /// No test has run yet.
    pub fn new() -> (r: Self)
        ensures
            r == (TestTally { total: 0, passed: 0, failed: 0 }),
    {
        TestTally { total: 0, passed: 0, failed: 0 }
    }

    /// Count the result of one more test.
    pub fn record(&mut self, result: &TestResult)
        requires
            old(self).wf(),
            old(self).total < usize::MAX,
        ensures
            final(self).wf(),
            final(self).total == old(self).total + 1,
            final(self).passed == old(self).passed + if *result is Pass {
                1int
            } else {
                0
            },
            final(self).failed == old(self).failed + if *result is Pass {
                0int
            } else {
                1
            },
    {
        self.total = self.total + 1;
        match result {
            TestResult::Pass => {
                self.passed = self.passed + 1;
            },
            TestResult::Fail(_) => {
                self.failed = self.failed + 1;
            },
        }
    }

    /// The exit code the run reports: success exactly when no test failed.
    pub fn exit_code(&self) -> (r: QemuExitCode)
        ensures
            r == (if self.failed == 0 {
                QemuExitCode::Success
            } else {
                QemuExitCode::Failed
            }),
    {
        if self.failed == 0 {
            QemuExitCode::Success
        } else {
            QemuExitCode::Failed
        }
    }
}

} // verus!
