use vsdx_edit::model::EditError;
use vsdx_edit::protect::{check_guarded_formulas, GuardedFormula};

fn records(pairs: &[(&str, &str)]) -> Vec<(String, String)> {
    pairs.iter().map(|(k, f)| (k.to_string(), f.to_string())).collect()
}

fn shapes(ids: &[&str]) -> Vec<String> {
    ids.iter().map(|id| id.to_string()).collect()
}

#[test]
fn untouched_guarded_formulas_pass() {
    let before = records(&[("shape:1/Width", "2 in"), ("shape:2/LockDelete", "1")]);
    let after = records(&[("shape:2/LockDelete", "1"), ("shape:1/Width", "2 in"), ("shape:3/X", "0")]);
    assert_eq!(check_guarded_formulas(&before, &after, &Vec::new(), GuardedFormula::Baseline), Ok(()));
    assert_eq!(check_guarded_formulas(&before, &after, &Vec::new(), GuardedFormula::Protected), Ok(()));
}

#[test]
fn a_changed_save_baseline_is_refused() {
    let before = records(&[("shape:1/Width", "2 in")]);
    let after = records(&[("shape:1/Width", "3 in")]);
    assert_eq!(
        check_guarded_formulas(&before, &after, &Vec::new(), GuardedFormula::Baseline),
        Err(EditError::InvalidState("remote update changes the save baseline of shape:1/Width".to_owned()))
    );
}

#[test]
fn a_changed_protected_cell_is_refused() {
    let before = records(&[("shape:1/PinX", "1 in")]);
    let after = records(&[("shape:1/PinX", "5 in")]);
    assert_eq!(
        check_guarded_formulas(&before, &after, &Vec::new(), GuardedFormula::Protected),
        Err(EditError::InvalidState("remote update changes protected cell shape:1/PinX".to_owned()))
    );
}

#[test]
fn rejects_remote_changes_that_silently_remove_a_protected_cell() {
    let before = records(&[("shape:1/LockDelete", "1")]);
    let after = records(&[]);
    assert_eq!(
        check_guarded_formulas(&before, &after, &Vec::new(), GuardedFormula::Protected),
        Err(EditError::InvalidState(
            "remote update removes protected cell shape:1/LockDelete while its shape survives".to_owned()
        ))
    );
    assert_eq!(
        check_guarded_formulas(&before, &after, &Vec::new(), GuardedFormula::Baseline),
        Err(EditError::InvalidState(
            "remote update removes the save baseline of shape:1/LockDelete while its shape survives".to_owned()
        ))
    );
}

#[test]
fn guarded_cells_may_go_with_their_shape() {
    let before = records(&[("shape:1/LockDelete", "1"), ("shape:1/Width", "2")]);
    let after = records(&[]);
    assert_eq!(
        check_guarded_formulas(&before, &after, &shapes(&["shape:1"]), GuardedFormula::Protected),
        Ok(())
    );
    // a deleted shape whose id is only a prefix of the cell's shape does not excuse it
    assert_eq!(
        check_guarded_formulas(&before, &after, &shapes(&["shape:"]), GuardedFormula::Protected),
        Err(EditError::InvalidState(
            "remote update removes protected cell shape:1/LockDelete while its shape survives".to_owned()
        ))
    );
}

#[test]
fn the_first_offence_in_order_is_named() {
    let before = records(&[("shape:1/A", "1"), ("shape:2/B", "2")]);
    let after = records(&[("shape:2/B", "9")]);
    assert_eq!(
        check_guarded_formulas(&before, &after, &Vec::new(), GuardedFormula::Baseline),
        Err(EditError::InvalidState(
            "remote update removes the save baseline of shape:1/A while its shape survives".to_owned()
        ))
    );
    assert_eq!(
        check_guarded_formulas(&before, &after, &shapes(&["shape:1"]), GuardedFormula::Baseline),
        Err(EditError::InvalidState("remote update changes the save baseline of shape:2/B".to_owned()))
    );
}
