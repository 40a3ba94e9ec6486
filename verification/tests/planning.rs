use rg_replace::plan::{select_plan, DiffFlag, Interaction, Output, Plan, UsageError};

#[test]
fn no_flags_only_search() {
    assert_eq!(Ok(Plan::Search), select_plan(false, DiffFlag::Absent, false));
}

#[test]
fn diff_or_iterative_without_replace_is_refused() {
    assert_eq!(
        Err(UsageError::DiffWithoutReplace),
        select_plan(false, DiffFlag::WithoutPath, false)
    );
    assert_eq!(
        Err(UsageError::DiffWithoutReplace),
        select_plan(false, DiffFlag::WithPath, true)
    );
    assert_eq!(
        Err(UsageError::IterativeWithoutReplace),
        select_plan(false, DiffFlag::Absent, true)
    );
}

#[test]
fn replace_alone_asks_the_operator_and_edits_in_place() {
    let plan = Plan::Replace { interaction: Interaction::Interactive, output: Output::InPlace };
    assert_eq!(Ok(plan), select_plan(true, DiffFlag::Absent, false));
    assert_eq!(Ok(plan), select_plan(true, DiffFlag::Absent, true));
}

#[test]
fn diff_without_iterative_runs_without_an_operator() {
    assert_eq!(
        Ok(Plan::Replace { interaction: Interaction::Batch, output: Output::DiffToStream }),
        select_plan(true, DiffFlag::WithoutPath, false)
    );
    assert_eq!(
        Ok(Plan::Replace { interaction: Interaction::Batch, output: Output::DiffToFile }),
        select_plan(true, DiffFlag::WithPath, false)
    );
}

#[test]
fn iterative_brings_the_operator_back() {
    assert_eq!(
        Ok(Plan::Replace { interaction: Interaction::Interactive, output: Output::DiffToStream }),
        select_plan(true, DiffFlag::WithoutPath, true)
    );
    assert_eq!(
        Ok(Plan::Replace { interaction: Interaction::Interactive, output: Output::DiffToFile }),
        select_plan(true, DiffFlag::WithPath, true)
    );
}
