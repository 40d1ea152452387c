//! The command surface: one action per invocation, each mapped onto the
//! engine's operations with the index-normalization policy that operation
//! uses. Running an action yields an effect telling the caller what is left
//! to do — persist the list, print the listing, report a bad index, or
//! touch the database file itself.

use crate::engine::{clamped, render_rep, validated, wrapped, ToDo};
use crate::entry::EntryV;
use crate::sorting::{sort_by, SortKey};
use vstd::arithmetic::div_mod::lemma_mod_bound;
use vstd::prelude::*;

verus! {

/// Add a new item.
pub struct AddArgs {
    pub item: String,
}

/// Delete the item at a 1-based index (strict validation).
pub struct DeleteArgs {
    pub index: i8,
}

/// Toggle the completion state of the item at a 1-based index (clamped).
pub struct ToggleArgs {
    pub index: i8,
}

/// List all items.
pub struct ListArgs {}

/// Move an item from one 1-based position to another (both clamped).
pub struct MoveArgs {
    pub index: i8,
    pub to: i8,
}

/// Order the list alphabetically.
pub struct OrderAlphaArgs {
    /// Reverse the order.
    pub reverse: bool,
    /// Compare case-sensitively.
    pub strict: bool,
}

/// Order the list by creation date.
pub struct OrderDateArgs {
    /// Reverse the order.
    pub reverse: bool,
}

/// Initialize a new database at the current position.
pub struct InitArgs {}

/// Destroy the database file.
pub struct DestroyArgs {}

/// Print the path of the database in use.
pub struct DeclareArgs {}

/// Shift an item by a signed amount, wrapping around the ends.
pub struct ShiftArgs {
    pub index: i8,
    pub shift: i8,
}

/// Clear all items from the list.
pub struct ClearArgs {}

/// One subcommand per invocation.
pub enum Action {
    Add(AddArgs),
    Delete(DeleteArgs),
    Clear(ClearArgs),
    Toggle(ToggleArgs),
    List(ListArgs),
    Move(MoveArgs),
    Shift(ShiftArgs),
    OrderAlpha(OrderAlphaArgs),
    OrderDate(OrderDateArgs),
    Declare(DeclareArgs),
    Init(InitArgs),
    Destroy(DestroyArgs),
}

/// A parsed invocation.
pub struct Arguments {
    pub action: Action,
}

/// What remains for the caller after an action ran against the in-memory
/// list: persist it, print something, or touch the database file.
pub enum ActionEffect {
    /// The list changed; write it back and report success.
    Mutated,
    /// The given 1-based index named no item; the list is unchanged.
    NoItemFound { index: i8 },
    /// The rendered listing to print; the list is unchanged.
    Listing { lines: Vec<String> },
    /// Print the resolved database path; the list is unchanged.
    DeclarePath,
    /// Create a fresh database file here; the list is unchanged.
    InitRequested,
    /// Delete the database file; the list is unchanged.
    DestroyRequested,
}

/// Run one action against the list and say what is left to do.
pub fn run_action(to_do: &mut ToDo, args: Arguments) -> (r: ActionEffect)
    requires
        old(to_do).wf(),
    ensures
        final(to_do).wf(),
        match args.action {
            Action::Add(a) => r is Mutated && final(to_do)@.len() == old(to_do)@.len() + 1
                && final(to_do)@.take(old(to_do)@.len() as int) == old(to_do)@ && final(to_do)@.last().text == a.item@ && final(to_do)@.last().done == false,
            Action::Delete(d) => match validated(d.index as int, old(to_do)@.len() as int) {
                Option::Some(p) => r is Mutated && final(to_do)@ == old(to_do)@.remove(p),
                Option::None => (r matches ActionEffect::NoItemFound { index } && index == d.index)
                    && final(to_do)@ == old(to_do)@,
            },
            Action::Clear(_) => r is Mutated && final(to_do)@ == Seq::<EntryV>::empty(),
            Action::Toggle(t) => if old(to_do)@.len() == 0 {
                (r matches ActionEffect::NoItemFound { index } && index == t.index) && final(to_do)@ == old(to_do)@
            } else {
                let p = clamped(t.index as int, old(to_do)@.len() as int);
                r is Mutated && final(to_do)@ == old(to_do)@.update(
                    p,
                    EntryV { done: !old(to_do)@[p].done, ..old(to_do)@[p] },
                )
            },
            Action::List(_) => (r matches ActionEffect::Listing { lines } && lines.deep_view()
                == render_rep(old(to_do)@)) && final(to_do)@ == old(to_do)@,
            Action::Move(m) => if old(to_do)@.len() == 0 {
                (r matches ActionEffect::NoItemFound { index } && index == m.index) && final(to_do)@ == old(to_do)@
            } else {
                let p = clamped(m.index as int, old(to_do)@.len() as int);
                let q = clamped(m.to as int, old(to_do)@.len() as int);
                r is Mutated && final(to_do)@ == old(to_do)@.remove(p).insert(
                    q,
                    old(to_do)@[p],
                )
            },
            Action::Shift(s) => if old(to_do)@.len() == 0 {
                (r matches ActionEffect::NoItemFound { index } && index == s.index) && final(to_do)@ == old(to_do)@
            } else {
                let p = clamped(s.index as int, old(to_do)@.len() as int);
                let q = wrapped(p, s.shift as int, old(to_do)@.len() as int);
                r is Mutated && final(to_do)@ == old(to_do)@.remove(p).insert(
                    q,
                    old(to_do)@[p],
                )
            },
            Action::OrderAlpha(o) => r is Mutated && final(to_do)@ == sort_by(
                old(to_do)@,
                SortKey::Alpha { reverse: o.reverse, strict: o.strict },
            ),
            Action::OrderDate(o) => r is Mutated && final(to_do)@ == sort_by(
                old(to_do)@,
                SortKey::ByDate { reverse: o.reverse },
            ),
            Action::Declare(_) => r is DeclarePath && final(to_do)@ == old(to_do)@,
            Action::Init(_) => r is InitRequested && final(to_do)@ == old(to_do)@,
            Action::Destroy(_) => r is DestroyRequested && final(to_do)@ == old(to_do)@,
        },
{
    match args.action {
        Action::Add(a) => {
            to_do.insert(&a.item);
            ActionEffect::Mutated
        },
        Action::Delete(d) => {
            match to_do.validate_index(d.index) {
                Some(idx) => {
                    let _removed = to_do.delete(idx);
                    ActionEffect::Mutated
                },
                None => ActionEffect::NoItemFound { index: d.index },
            }
        },
        Action::Clear(_) => {
            to_do.clear();
            ActionEffect::Mutated
        },
        Action::Toggle(t) => {
            let idx = to_do.clamp_index(t.index);
            match to_do.toggle(idx) {
                Some(_) => ActionEffect::Mutated,
                None => ActionEffect::NoItemFound { index: t.index },
            }
        },
        Action::List(_) => {
            let lines = to_do.list();
            ActionEffect::Listing { lines }
        },
        Action::Move(m) => {
            let idx = to_do.clamp_index(m.index);
            let to = to_do.clamp_index(m.to);
            match to_do.movef(idx, to) {
                Some(_) => ActionEffect::Mutated,
                None => ActionEffect::NoItemFound { index: m.index },
            }
        },
        Action::Shift(s) => {
            let idx = to_do.clamp_index(s.index);
            let to = to_do.loop_index(idx, s.shift);
            proof {
                if to_do@.len() > 0 {
                    lemma_mod_bound(
                        idx as int + s.shift as int,
                        to_do@.len() as int,
                    );
                }
            }
            match to_do.movef(idx, to) {
                Some(_) => ActionEffect::Mutated,
                None => ActionEffect::NoItemFound { index: s.index },
            }
        },
        Action::OrderAlpha(o) => {
            to_do.order_alpha(o.reverse, o.strict);
            ActionEffect::Mutated
        },
        Action::OrderDate(o) => {
            to_do.order_date(o.reverse);
            ActionEffect::Mutated
        },
        Action::Declare(_) => ActionEffect::DeclarePath,
        Action::Init(_) => ActionEffect::InitRequested,
        Action::Destroy(_) => ActionEffect::DestroyRequested,
    }
}

} // verus!
