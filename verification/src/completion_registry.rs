//! Completion scripts registered with `complete -C`.
use vstd::prelude::*;

use crate::strmap::{StrMap, lists_sorted, pairs_view};

verus! {

/// Registered completion scripts, and the commands whose completion was removed.
pub struct CompletionRegistry {
    specs: StrMap<String>,
    disabled: StrMap<()>,
}

impl CompletionRegistry {
    /// The script registered for each command.
    pub closed spec fn specs(&self) -> Map<Seq<char>, Seq<char>> {
        self.specs.map().map_values(|v: String| v@)
    }

    /// The commands whose completion was removed and not registered again.
    pub closed spec fn disabled(&self) -> Set<Seq<char>> {
        self.disabled.map().dom()
    }

    /// A registry with no scripts and nothing disabled.
    pub fn new() -> (r: Self)
        ensures
            r.specs() == Map::<Seq<char>, Seq<char>>::empty(),
            r.disabled() == Set::<Seq<char>>::empty(),
    {
        let r = CompletionRegistry { specs: StrMap::new(), disabled: StrMap::new() };
        assert(r.specs() =~= Map::<Seq<char>, Seq<char>>::empty());
        assert(r.disabled() =~= Set::<Seq<char>>::empty());
        r
    }

    /// Registers `script_path` for `command`, which is then no longer disabled.
    pub fn register(&mut self, command: String, script_path: String)
        ensures
            final(self).specs() == old(self).specs().insert(command@, script_path@),
            final(self).disabled() == old(self).disabled().remove(command@),
    {
        self.disabled.remove(command.as_str());
        self.specs.insert(command, script_path);
        assert(self.specs() =~= old(self).specs().insert(command@, script_path@));
        assert(self.disabled() =~= old(self).disabled().remove(command@));
    }

    /// The script registered for `command`.
    pub fn get(&self, command: &str) -> (r: Option<String>)
        ensures
            match r {
                Some(p) => self.specs().dom().contains(command@) && self.specs()[command@] == p@,
                None => !self.specs().dom().contains(command@),
            },
    {
        match self.specs.get(command) {
            Some(p) => Some(p.clone()),
            None => None,
        }
    }

    /// Drops the script of `command` and marks it disabled.
    pub fn remove(&mut self, command: &str)
        ensures
            final(self).specs() == old(self).specs().remove(command@),
            final(self).disabled() == old(self).disabled().insert(command@),
    {
        self.specs.remove(command);
        self.disabled.insert(command.to_string(), ());
        assert(self.specs() =~= old(self).specs().remove(command@));
        assert(self.disabled() =~= old(self).disabled().insert(command@));
    }

    /// Whether `command`'s completion was removed.
    pub fn is_disabled(&self, command: &str) -> (r: bool)
        ensures
            r == self.disabled().contains(command@),
    {
        self.disabled.get(command).is_some()
    }

    /// Every registered (command, script) pair, sorted by command.
    pub fn entries(&self) -> (r: Vec<(String, String)>)
        ensures
            lists_sorted(pairs_view(r@), self.specs()),
    {
        self.specs.pairs()
    }
}

/// A script registered with `complete -C` is what `complete -p` then finds, and the
/// command's completion is no longer disabled: `register` followed by `get`.
pub proof fn law_registered_script_is_found(
    before: CompletionRegistry,
    after: CompletionRegistry,
    command: Seq<char>,
    script: Seq<char>,
)
    requires
        after.specs() == before.specs().insert(command, script),
        after.disabled() == before.disabled().remove(command),
    ensures
        after.specs().dom().contains(command),
        after.specs()[command] == script,
        !after.disabled().contains(command),
        forall|other: Seq<char>| other != command ==> (#[trigger] after.specs().dom().contains(other)
            <==> before.specs().dom().contains(other)),
{
}

/// After `complete -r`, the command has no script and its completion is disabled,
/// while every other command keeps its script: `remove` followed by `get` and `is_disabled`.
pub proof fn law_removed_completion_is_disabled(
    before: CompletionRegistry,
    after: CompletionRegistry,
    command: Seq<char>,
)
    requires
        after.specs() == before.specs().remove(command),
        after.disabled() == before.disabled().insert(command),
    ensures
        !after.specs().dom().contains(command),
        after.disabled().contains(command),
        forall|other: Seq<char>| other != command && #[trigger] before.specs().dom().contains(other)
            ==> after.specs().dom().contains(other) && after.specs()[other] == before.specs()[other],
{
}

/// One change to a registry: `register(command, script)` or `remove(command)`.
pub enum CompletionChange {
    Register(Seq<char>, Seq<char>),
    Remove(Seq<char>),
}

/// The command that a change is about.
pub open spec fn change_command(c: CompletionChange) -> Seq<char> {
    match c {
        CompletionChange::Register(command, _) => command,
        CompletionChange::Remove(command) => command,
    }
}

/// `after` is `before` changed as the contract of `register` or `remove` says.
pub open spec fn changed_by(before: CompletionRegistry, change: CompletionChange, after: CompletionRegistry) -> bool {
    match change {
        CompletionChange::Register(command, script) => {
            &&& after.specs() == before.specs().insert(command, script)
            &&& after.disabled() == before.disabled().remove(command)
        },
        CompletionChange::Remove(command) => {
            &&& after.specs() == before.specs().remove(command)
            &&& after.disabled() == before.disabled().insert(command)
        },
    }
}

/// What a registry made by `new` holds after the changes `changes`, in order: a command
/// has the script of its last change when that change registers it (and none when its
/// last change removes it or there is none), and it is disabled exactly when some change
/// removed it and no registration of it came later.
pub proof fn law_registry_after_changes(
    states: Seq<CompletionRegistry>,
    changes: Seq<CompletionChange>,
    command: Seq<char>,
    script: Seq<char>,
)
    requires
        states.len() == changes.len() + 1,
        states[0].specs() == Map::<Seq<char>, Seq<char>>::empty(),
        states[0].disabled() == Set::<Seq<char>>::empty(),
        forall|i: int| 0 <= i < changes.len() ==> changed_by(states[i], #[trigger] changes[i], states[i + 1]),
    ensures
        ({
            let last = states.last();
            let n = changes.len() as int;
            &&& (last.specs().dom().contains(command) && last.specs()[command] == script) <==> exists|i: int|
                0 <= i < n && changes[i] == CompletionChange::Register(command, script)
                    && forall|j: int| i < j < n ==> change_command(#[trigger] changes[j]) != command
            &&& last.disabled().contains(command) <==> exists|i: int|
                0 <= i < n && changes[i] == CompletionChange::Remove(command)
                    && forall|j: int| i < j < n ==> !(#[trigger] changes[j] matches CompletionChange::Register(c, _) && c == command)
        }),
    decreases changes.len(),
{
    let n = changes.len() as int;
    if n > 0 {
        let front_states = states.drop_last();
        let front = changes.drop_last();
        assert forall|i: int| 0 <= i < front.len() implies changed_by(front_states[i], #[trigger] front[i], front_states[i + 1]) by {
            assert(front[i] == changes[i]);
            assert(front_states[i] == states[i]);
            assert(front_states[i + 1] == states[i + 1]);
            assert(changed_by(states[i], changes[i], states[i + 1]));
        }
        law_registry_after_changes(front_states, front, command, script);
        let prev = front_states.last();
        assert(prev == states[n - 1]);
        let last = states.last();
        let change = changes[n - 1];
        assert(changed_by(prev, change, last));
        // the script held for `command`
        if change_command(change) == command {
            match change {
                CompletionChange::Register(c, p) => {
                    if p == script {
                        assert(changes[n - 1] == CompletionChange::Register(command, script));
                    } else {
                        assert forall|i: int| 0 <= i < n && changes[i] == CompletionChange::Register(command, script)
                            implies exists|j: int| i < j < n && change_command(#[trigger] changes[j]) == command by {
                            assert(i != n - 1);
                            assert(change_command(changes[n - 1]) == command);
                        }
                    }
                },
                CompletionChange::Remove(c) => {
                    assert forall|i: int| 0 <= i < n && changes[i] == CompletionChange::Register(command, script)
                        implies exists|j: int| i < j < n && change_command(#[trigger] changes[j]) == command by {
                        assert(change_command(changes[n - 1]) == command);
                    }
                    assert(changes[n - 1] == CompletionChange::Remove(command));
                },
            }
        } else {
            assert((last.specs().dom().contains(command) && last.specs()[command] == script)
                == (prev.specs().dom().contains(command) && prev.specs()[command] == script));
            if exists|i: int| 0 <= i < n - 1 && front[i] == CompletionChange::Register(command, script)
                && forall|j: int| i < j < n - 1 ==> change_command(#[trigger] front[j]) != command {
                let i = choose|i: int| 0 <= i < n - 1 && front[i] == CompletionChange::Register(command, script)
                    && forall|j: int| i < j < n - 1 ==> change_command(#[trigger] front[j]) != command;
                assert(changes[i] == front[i]);
                assert forall|j: int| i < j < n implies change_command(#[trigger] changes[j]) != command by {
                    if j < n - 1 {
                        assert(changes[j] == front[j]);
                    }
                }
            }
            if exists|i: int| 0 <= i < n && changes[i] == CompletionChange::Register(command, script)
                && forall|j: int| i < j < n ==> change_command(#[trigger] changes[j]) != command {
                let i = choose|i: int| 0 <= i < n && changes[i] == CompletionChange::Register(command, script)
                    && forall|j: int| i < j < n ==> change_command(#[trigger] changes[j]) != command;
                assert(i != n - 1);
                assert(front[i] == changes[i]);
                assert forall|j: int| i < j < n - 1 implies change_command(#[trigger] front[j]) != command by {
                    assert(changes[j] == front[j]);
                }
            }
        }
        // whether `command` is disabled
        match change {
            CompletionChange::Register(c, p) => {
                if c == command {
                    assert forall|i: int| 0 <= i < n && changes[i] == CompletionChange::Remove(command)
                        implies exists|j: int| i < j < n && (#[trigger] changes[j] matches CompletionChange::Register(c2, _) && c2 == command) by {
                        assert(i != n - 1);
                        assert(changes[n - 1] matches CompletionChange::Register(c2, _) && c2 == command);
                    }
                } else {
                    assert(last.disabled().contains(command) == prev.disabled().contains(command));
                    if exists|i: int| 0 <= i < n - 1 && front[i] == CompletionChange::Remove(command)
                        && forall|j: int| i < j < n - 1 ==> !(#[trigger] front[j] matches CompletionChange::Register(c2, _) && c2 == command) {
                        let i = choose|i: int| 0 <= i < n - 1 && front[i] == CompletionChange::Remove(command)
                            && forall|j: int| i < j < n - 1 ==> !(#[trigger] front[j] matches CompletionChange::Register(c2, _) && c2 == command);
                        assert(changes[i] == front[i]);
                        assert forall|j: int| i < j < n implies !(#[trigger] changes[j] matches CompletionChange::Register(c2, _) && c2 == command) by {
                            if j < n - 1 {
                                assert(changes[j] == front[j]);
                            }
                        }
                    }
                    if exists|i: int| 0 <= i < n && changes[i] == CompletionChange::Remove(command)
                        && forall|j: int| i < j < n ==> !(#[trigger] changes[j] matches CompletionChange::Register(c2, _) && c2 == command) {
                        let i = choose|i: int| 0 <= i < n && changes[i] == CompletionChange::Remove(command)
                            && forall|j: int| i < j < n ==> !(#[trigger] changes[j] matches CompletionChange::Register(c2, _) && c2 == command);
                        assert(i != n - 1);
                        assert(front[i] == changes[i]);
                        assert forall|j: int| i < j < n - 1 implies !(#[trigger] front[j] matches CompletionChange::Register(c2, _) && c2 == command) by {
                            assert(changes[j] == front[j]);
                        }
                    }
                }
            },
            CompletionChange::Remove(c) => {
                if c == command {
                    assert(changes[n - 1] == CompletionChange::Remove(command));
                } else {
                    assert(last.disabled().contains(command) == prev.disabled().contains(command));
                    if exists|i: int| 0 <= i < n - 1 && front[i] == CompletionChange::Remove(command)
                        && forall|j: int| i < j < n - 1 ==> !(#[trigger] front[j] matches CompletionChange::Register(c2, _) && c2 == command) {
                        let i = choose|i: int| 0 <= i < n - 1 && front[i] == CompletionChange::Remove(command)
                            && forall|j: int| i < j < n - 1 ==> !(#[trigger] front[j] matches CompletionChange::Register(c2, _) && c2 == command);
                        assert(changes[i] == front[i]);
                        assert forall|j: int| i < j < n implies !(#[trigger] changes[j] matches CompletionChange::Register(c2, _) && c2 == command) by {
                            if j < n - 1 {
                                assert(changes[j] == front[j]);
                            }
                        }
                    }
                    if exists|i: int| 0 <= i < n && changes[i] == CompletionChange::Remove(command)
                        && forall|j: int| i < j < n ==> !(#[trigger] changes[j] matches CompletionChange::Register(c2, _) && c2 == command) {
                        let i = choose|i: int| 0 <= i < n && changes[i] == CompletionChange::Remove(command)
                            && forall|j: int| i < j < n ==> !(#[trigger] changes[j] matches CompletionChange::Register(c2, _) && c2 == command);
                        assert(i != n - 1);
                        assert(front[i] == changes[i]);
                        assert forall|j: int| i < j < n - 1 implies !(#[trigger] front[j] matches CompletionChange::Register(c2, _) && c2 == command) by {
                            assert(changes[j] == front[j]);
                        }
                    }
                }
            },
        }
    }
}

} // verus!
