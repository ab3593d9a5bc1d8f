//! The formulas a peer's update may not touch: save baselines and protected cells.
use vstd::prelude::*;

use crate::model::{EditError, EditResult};
use crate::orders::{contains_str, keys_view};
use crate::text::{chars_of, owned, push_chars, push_str, str_eq};

verus! {

/// Which formulas a check guards: the save baselines, or the cells a lock protects.
#[derive(Clone, Copy, Debug, PartialEq, Eq, Structural)]
pub enum GuardedFormula {
    Baseline,
    Protected,
}

/// The shape a cell key (`shape/cell`) belongs to: the part before the first `/`.
pub open spec fn shape_of_key(key: Seq<char>) -> Seq<char> {
    if exists|i: int| 0 <= i < key.len() && key[i] == '/' {
        key.take(choose|i: int| 0 <= i < key.len() && key[i] == '/' && forall|j: int| 0 <= j < i ==> key[j] != '/')
    } else {
        key
    }
}

/// The formula `after` records under `key`, if any.
pub open spec fn formula_at(after: Seq<(String, String)>, key: Seq<char>) -> Option<Seq<char>> {
    if exists|i: int| 0 <= i < after.len() && #[trigger] after[i].0@ == key {
        Some(after[choose|i: int| 0 <= i < after.len() && #[trigger] after[i].0@ == key].1@)
    } else {
        None
    }
}

pub open spec fn changed_message(kind: GuardedFormula, key: Seq<char>) -> Seq<char> {
    match kind {
        GuardedFormula::Baseline => "remote update changes the save baseline of "@ + key,
        GuardedFormula::Protected => "remote update changes protected cell "@ + key,
    }
}

pub open spec fn removed_message(kind: GuardedFormula, key: Seq<char>) -> Seq<char> {
    match kind {
        GuardedFormula::Baseline => "remote update removes the save baseline of "@ + key
            + " while its shape survives"@,
        GuardedFormula::Protected => "remote update removes protected cell "@ + key
            + " while its shape survives"@,
    }
}

/// What a peer's update does wrong to one guarded formula, if anything: it may not change it,
/// and may remove it only with its shape.
pub open spec fn guarded_fault(
    record: (String, String),
    after: Seq<(String, String)>,
    removed: Seq<Seq<char>>,
    kind: GuardedFormula,
) -> Option<Seq<char>> {
    match formula_at(after, record.0@) {
        Some(formula) => if formula != record.1@ {
            Some(changed_message(kind, record.0@))
        } else {
            None
        },
        None => if removed.contains(shape_of_key(record.0@)) {
            None
        } else {
            Some(removed_message(kind, record.0@))
        },
    }
}

/// The first fault among the guarded formulas from the `k`-th on.
pub open spec fn first_guarded_fault(
    before: Seq<(String, String)>,
    after: Seq<(String, String)>,
    removed: Seq<Seq<char>>,
    kind: GuardedFormula,
    k: int,
) -> Option<Seq<char>>
    decreases before.len() - k,
{
    if k < 0 || k >= before.len() {
        None
    } else {
        match guarded_fault(before[k], after, removed, kind) {
            Some(message) => Some(message),
            None => first_guarded_fault(before, after, removed, kind, k + 1),
        }
    }
}

/// The shape a cell key belongs to.
fn key_shape(key: &str) -> (result: String)
    ensures
        result@ == shape_of_key(key@),
{
    let chars = chars_of(key);
    let mut i: usize = 0;
    while i < chars.len() && chars[i] != '/'
        invariant
            i <= chars@.len(),
            chars@ == key@,
            forall|j: int| 0 <= j < i ==> chars@[j] != '/',
        decreases chars@.len() - i,
    {
        i = i + 1;
    }
    let mut out = String::new();
    push_chars(&mut out, &chars, 0, i);
    proof {
        if i < chars@.len() {
            let c = choose|c: int| 0 <= c < key@.len() && key@[c] == '/' && forall|j: int| 0 <= j < c ==> key@[j] != '/';
            if c < i {
                assert(chars@[c] != '/');
            } else if c > i {
                assert(key@[i as int] != '/');
            }
            assert(out@ =~= key@.take(i as int));
        } else {
            assert(out@ =~= key@);
        }
    }
    out
}

/// The formula recorded under `key`.
fn find_formula(after: &Vec<(String, String)>, key: &str) -> (result: Option<usize>)
    requires
        forall|i: int, j: int| 0 <= i < j < after@.len() ==> #[trigger] after@[i].0@ != #[trigger] after@[j].0@,
    ensures
        match result {
            Some(i) => i < after@.len() && formula_at(after@, key@) == Some(after@[i as int].1@),
            None => formula_at(after@, key@) is None,
        },
{
    let mut i: usize = 0;
    while i < after.len()
        invariant
            i <= after@.len(),
            forall|a: int, b: int| 0 <= a < b < after@.len() ==> #[trigger] after@[a].0@ != #[trigger] after@[b].0@,
            forall|j: int| 0 <= j < i ==> #[trigger] after@[j].0@ != key@,
        decreases after@.len() - i,
    {
        if str_eq(after[i].0.as_str(), key) {
            proof {
                let k = choose|k: int| 0 <= k < after@.len() && #[trigger] after@[k].0@ == key@;
                if k != i as int {
                    assert(after@[k].0@ != after@[i as int].0@);
                }
            }
            return Some(i);
        }
        i = i + 1;
    }
    None
}

/// Refuses a peer's update that touches a guarded formula: `before` lists the guarded formulas
/// (save baselines, or protected cells) by cell key (`shape/cell`) in the order the check runs,
/// `after` those the merged document holds, and `removed` the shapes the update deletes. A
/// guarded formula may not change, and may go only with its shape; the first offence is named.
pub fn check_guarded_formulas(
    before: &Vec<(String, String)>,
    after: &Vec<(String, String)>,
    removed: &Vec<String>,
    kind: GuardedFormula,
) -> (result: EditResult<()>)
    requires
        forall|i: int, j: int| 0 <= i < j < after@.len() ==> #[trigger] after@[i].0@ != #[trigger] after@[j].0@,
    ensures
        result is Ok <==> forall|i: int| 0 <= i < before@.len() ==> #[trigger] guarded_fault(
            before@[i],
            after@,
            keys_view(removed@),
            kind,
        ) is None,
        match first_guarded_fault(before@, after@, keys_view(removed@), kind, 0) {
            Some(message) => result matches Err(EditError::InvalidState(m)) && m@ == message,
            None => result is Ok,
        },
{
    let ghost rm = keys_view(removed@);
    let mut k: usize = 0;
    while k < before.len()
        invariant
            k <= before@.len(),
            rm == keys_view(removed@),
            forall|i: int, j: int| 0 <= i < j < after@.len() ==> #[trigger] after@[i].0@ != #[trigger] after@[j].0@,
            first_guarded_fault(before@, after@, rm, kind, 0) == first_guarded_fault(before@, after@, rm, kind, k as int),
            forall|i: int| 0 <= i < k ==> #[trigger] guarded_fault(before@[i], after@, rm, kind) is None,
        decreases before@.len() - k,
    {
        let key = &before[k].0;
        match find_formula(after, key.as_str()) {
            Some(i) => {
                if !str_eq(after[i].1.as_str(), before[k].1.as_str()) {
                    let mut message = match kind {
                        GuardedFormula::Baseline => owned("remote update changes the save baseline of "),
                        GuardedFormula::Protected => owned("remote update changes protected cell "),
                    };
                    push_str(&mut message, key.as_str());
                    return Err(EditError::InvalidState(message));
                }
            },
            None => {
                let shape = key_shape(key.as_str());
                if !contains_str(removed, shape.as_str()) {
                    let mut message = match kind {
                        GuardedFormula::Baseline => owned("remote update removes the save baseline of "),
                        GuardedFormula::Protected => owned("remote update removes protected cell "),
                    };
                    push_str(&mut message, key.as_str());
                    push_str(&mut message, " while its shape survives");
                    return Err(EditError::InvalidState(message));
                }
            },
        }
        k = k + 1;
    }
    Ok(())
}

} // verus!
