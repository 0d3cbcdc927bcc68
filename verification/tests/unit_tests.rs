use sillos::test::TestResult;

fn runner_works() -> TestResult {
    TestResult::Pass
}

fn addition() -> TestResult {
    if 1 + 1 == 2 {
        TestResult::Pass
    } else {
        TestResult::Fail("lksjdf")
    }
}

fn two_plus_two() -> TestResult {
    if 2 + 2 == 4 {
        TestResult::Pass
    } else {
        TestResult::Fail("2 + 2 != 4")
    }
}

#[test]
fn test_runner_works() {
    assert!(runner_works().passed());
}

#[test]
fn simple_addition() {
    assert!(addition().passed(), "lksjdf");
}

#[test]
fn manual_assert() {
    assert!(two_plus_two().passed(), "2 + 2 != 4");
}
